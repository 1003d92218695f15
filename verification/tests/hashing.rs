use cpd::index::{hash_file, hash_lines, FileEntry, HashIndex, Location, MIN_WINDOW_LENGTH};
use cpd::text::{digest_text, hash_line};

fn body() -> Vec<String> {
    vec![
        "let total = compute_total(&items);".to_string(),
        "let average = total / items.len();".to_string(),
        "println!(\"average is {}\", average);".to_string(),
        "store.save(total, average);".to_string(),
        "store.flush_everything();".to_string(),
        "return Ok(average);".to_string(),
    ]
}

#[test]
fn digest_of_a_text_is_its_sha256_in_lower_case_hex() {
    assert_eq!(
        hash_line("hello world"),
        "b94d27b9934d3e08a52e52d7da7dabfac484efe37a5380ee9088f7ace2efcde9"
    );
    assert_eq!(hash_line("abc"), "ba7816bf8f01cfea414140de5dae2223b00361a396177a9cb410ff61f20015ad");
}

#[test]
fn digest_of_the_empty_text() {
    assert_eq!(hash_line(""), "e3b0c44298fc1c149afbf4c8996fb92427ae41e4649b934ca495991b7852b855");
}

#[test]
fn digest_ignores_surrounding_white_space() {
    assert_eq!(hash_line("  \t abc \r\n"), hash_line("abc"));
    assert_ne!(hash_line("a bc"), hash_line("abc"));
}

#[test]
fn digest_is_sixty_four_hex_digits() {
    let h = hash_line("some line of code");
    assert_eq!(h.len(), 64);
    assert!(h.chars().all(|c| c.is_ascii_digit() || ('a'..='f').contains(&c)));
}

#[test]
fn window_is_indexed_under_the_digest_of_its_trimmed_lines_joined_by_newlines() {
    let lines = vec![
        "   first line of four".to_string(),
        "\tsecond line".to_string(),
        "third line   ".to_string(),
        "  fourth  ".to_string(),
    ];
    let mut index = HashIndex::new();
    hash_lines(0, &lines, &mut index, 4);
    assert_eq!(index.entries.len(), 1);
    let key = digest_text("first line of four\nsecond line\nthird line\nfourth");
    assert_eq!(index.entries[0].hash, key);
    assert_eq!(index.get(&key), Some(&vec![Location { file: 0, line: 1 }]));
}

#[test]
fn every_window_is_recorded_at_its_one_based_start_line() {
    let lines = body();
    let mut index = HashIndex::new();
    hash_lines(7, &lines, &mut index, 4);
    assert_eq!(index.entries.len(), 3);
    for k in 0..3 {
        let text = lines[k..k + 4].join("\n");
        assert_eq!(index.get(&digest_text(&text)), Some(&vec![Location { file: 7, line: k + 1 }]));
    }
}

#[test]
fn equal_windows_share_one_entry_in_scan_order() {
    let mut lines = body();
    lines.truncate(4);
    let mut index = HashIndex::new();
    hash_lines(0, &lines, &mut index, 4);
    hash_lines(1, &lines, &mut index, 4);
    assert_eq!(index.entries.len(), 1);
    assert_eq!(
        index.entries[0].locations,
        vec![Location { file: 0, line: 1 }, Location { file: 1, line: 1 }]
    );
}

#[test]
fn indentation_does_not_hide_a_duplicate() {
    let plain = body();
    let indented: Vec<String> = plain.iter().map(|l| format!("        {}  ", l)).collect();
    let mut index = HashIndex::new();
    hash_lines(0, &plain, &mut index, 4);
    hash_lines(1, &indented, &mut index, 4);
    assert_eq!(index.entries.len(), 3);
    for e in &index.entries {
        assert_eq!(e.locations.len(), 2);
    }
}

#[test]
fn window_shorter_than_the_threshold_is_not_indexed() {
    assert_eq!(MIN_WINDOW_LENGTH, 15);
    // "ab\nab\nab\nab" has 11 characters
    let short: Vec<String> = vec!["ab".to_string(); 8];
    let mut index = HashIndex::new();
    hash_lines(0, &short, &mut index, 4);
    hash_lines(1, &short, &mut index, 4);
    assert!(index.entries.is_empty());
}

#[test]
fn window_of_exactly_the_threshold_is_indexed() {
    // 3 + 1 + 3 + 1 + 3 + 1 + 3 = 15 characters
    let at: Vec<String> = vec!["abc".to_string(); 4];
    let mut index = HashIndex::new();
    hash_lines(0, &at, &mut index, 4);
    assert_eq!(index.entries.len(), 1);
    // 3 + 1 + 3 + 1 + 3 + 1 + 2 = 14 characters
    let below = vec!["abc".to_string(), "abc".to_string(), "abc".to_string(), "ab".to_string()];
    let mut other = HashIndex::new();
    hash_lines(0, &below, &mut other, 4);
    assert!(other.entries.is_empty());
}

#[test]
fn threshold_counts_characters_after_trimming() {
    let padded: Vec<String> = vec!["      ab      ".to_string(); 4];
    let mut index = HashIndex::new();
    hash_lines(0, &padded, &mut index, 4);
    assert!(index.entries.is_empty());
}

#[test]
fn file_with_fewer_lines_than_the_window_adds_nothing() {
    let mut lines = body();
    lines.truncate(3);
    let mut index = HashIndex::new();
    hash_lines(0, &lines, &mut index, 4);
    assert!(index.entries.is_empty());
}

#[test]
fn directory_gets_no_file_id() {
    let mut files = Vec::new();
    let mut index = HashIndex::new();
    let dir = FileEntry { path: "src".to_string(), is_dir: true, contents: None };
    hash_file(&dir, &mut files, &mut index, 4);
    assert!(files.is_empty());
    assert!(index.entries.is_empty());
}

#[test]
fn unreadable_file_keeps_its_file_id() {
    let mut files = Vec::new();
    let mut index = HashIndex::new();
    let binary = FileEntry { path: "logo.png".to_string(), is_dir: false, contents: None };
    let text = FileEntry {
        path: "main.rs".to_string(),
        is_dir: false,
        contents: Some(body().join("\n")),
    };
    hash_file(&binary, &mut files, &mut index, 4);
    hash_file(&text, &mut files, &mut index, 4);
    assert_eq!(files, vec!["logo.png".to_string(), "main.rs".to_string()]);
    assert_eq!(index.entries.len(), 3);
    for e in &index.entries {
        assert_eq!(e.locations.len(), 1);
        assert_eq!(e.locations[0].file, 1);
    }
}

#[test]
fn text_is_split_at_line_feeds_with_or_without_carriage_return() {
    let unix = body().join("\n") + "\n";
    let dos = body().join("\r\n");
    let mut files = Vec::new();
    let mut index = HashIndex::new();
    hash_file(
        &FileEntry { path: "a".to_string(), is_dir: false, contents: Some(unix) },
        &mut files,
        &mut index,
        4,
    );
    hash_file(
        &FileEntry { path: "b".to_string(), is_dir: false, contents: Some(dos) },
        &mut files,
        &mut index,
        4,
    );
    assert_eq!(index.entries.len(), 3);
    let first = digest_text(&body()[0..4].join("\n"));
    assert_eq!(
        index.get(&first),
        Some(&vec![Location { file: 0, line: 1 }, Location { file: 1, line: 1 }])
    );
    let last = digest_text(&body()[2..6].join("\n"));
    assert_eq!(
        index.get(&last),
        Some(&vec![Location { file: 0, line: 3 }, Location { file: 1, line: 3 }])
    );
}

#[test]
fn lookup_of_an_unknown_digest_finds_nothing() {
    let mut index = HashIndex::new();
    assert_eq!(index.get(&hash_line("x")), None);
    index.record(hash_line("y"), Location { file: 0, line: 1 });
    assert_eq!(index.get(&hash_line("x")), None);
    assert_eq!(index.find(&hash_line("y")), Some(0));
}

#[test]
fn record_appends_to_the_entry_of_the_digest() {
    let mut index = HashIndex::new();
    index.record("aa".to_string(), Location { file: 0, line: 1 });
    index.record("bb".to_string(), Location { file: 0, line: 2 });
    index.record("aa".to_string(), Location { file: 1, line: 5 });
    assert_eq!(index.entries.len(), 2);
    assert_eq!(
        index.get(&"aa".to_string()),
        Some(&vec![Location { file: 0, line: 1 }, Location { file: 1, line: 5 }])
    );
    assert_eq!(index.get(&"bb".to_string()), Some(&vec![Location { file: 0, line: 2 }]));
}

#[test]
fn empty_lines_count_as_lines() {
    let text = "first line of the text\n\nthird line of the text".to_string();
    let mut files = Vec::new();
    let mut index = HashIndex::new();
    hash_file(
        &FileEntry { path: "a".to_string(), is_dir: false, contents: Some(text) },
        &mut files,
        &mut index,
        3,
    );
    assert_eq!(index.entries.len(), 1);
    let key = digest_text("first line of the text\n\nthird line of the text");
    assert_eq!(index.get(&key), Some(&vec![Location { file: 0, line: 1 }]));
}

#[test]
fn line_feed_at_the_end_starts_no_further_line() {
    let with: String = "one line of text\nanother line of text\n".to_string();
    let without: String = "one line of text\nanother line of text".to_string();
    for (text, windows) in [(with.clone(), 1), (without, 1), (with + "\n", 2)] {
        let mut files = Vec::new();
        let mut index = HashIndex::new();
        hash_file(
            &FileEntry { path: "a".to_string(), is_dir: false, contents: Some(text) },
            &mut files,
            &mut index,
            2,
        );
        assert_eq!(index.entries.len(), windows);
    }
}

#[test]
fn empty_text_has_no_line() {
    for text in ["", "\n"] {
        let mut files = Vec::new();
        let mut index = HashIndex::new();
        hash_file(
            &FileEntry { path: "a".to_string(), is_dir: false, contents: Some(text.to_string()) },
            &mut files,
            &mut index,
            1,
        );
        assert_eq!(files.len(), 1);
        assert!(index.entries.is_empty());
    }
}

#[test]
fn digest_of_a_text_as_it_stands_keeps_its_white_space() {
    assert_eq!(digest_text("abc"), "ba7816bf8f01cfea414140de5dae2223b00361a396177a9cb410ff61f20015ad");
    assert_eq!(digest_text("abc"), hash_line(" abc\n"));
    assert_ne!(digest_text("abc\n"), digest_text("abc"));
    assert_ne!(digest_text("\nabc"), digest_text("abc"));
    assert_eq!(digest_text("abc\n").len(), 64);
}

#[test]
fn blank_line_at_either_end_of_a_window_tells_two_windows_apart() {
    let text = "\naaaaaaaa\nbbbbbbbb\ncccccccc\n\n".to_string();
    let mut files = Vec::new();
    let mut index = HashIndex::new();
    hash_file(
        &FileEntry { path: "a.rs".to_string(), is_dir: false, contents: Some(text) },
        &mut files,
        &mut index,
        4,
    );
    assert_eq!(index.entries.len(), 2);
    assert_eq!(
        index.get(&digest_text("\naaaaaaaa\nbbbbbbbb\ncccccccc")),
        Some(&vec![Location { file: 0, line: 1 }])
    );
    assert_eq!(
        index.get(&digest_text("aaaaaaaa\nbbbbbbbb\ncccccccc\n")),
        Some(&vec![Location { file: 0, line: 2 }])
    );
}

#[test]
fn windows_that_differ_by_a_blank_line_are_no_duplicates() {
    let first: Vec<String> =
        vec!["".to_string(), "aaaaaaaa".to_string(), "bbbbbbbb".to_string(), "cccccccc".to_string()];
    let second: Vec<String> =
        vec!["aaaaaaaa".to_string(), "bbbbbbbb".to_string(), "cccccccc".to_string(), "".to_string()];
    let mut index = HashIndex::new();
    hash_lines(0, &first, &mut index, 4);
    hash_lines(1, &second, &mut index, 4);
    assert_eq!(index.entries.len(), 2);
    for e in &index.entries {
        assert_eq!(e.locations.len(), 1);
    }
}

#[test]
fn line_of_white_space_alone_trims_to_nothing() {
    assert_eq!(hash_line(" \t \r\n"), digest_text(""));
    assert_eq!(hash_line("  a b  "), digest_text("a b"));
}
