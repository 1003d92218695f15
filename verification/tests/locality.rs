use cpd::index::{FileEntry, HashIndex, Location};
use cpd::report::{detect, CpdReport};
use cpd::text::hash_line;

fn line(n: usize) -> String {
    format!("let value_{} = compute_value_number({});", n, n)
}

fn file(path: &str, numbers: &[usize]) -> FileEntry {
    let all: Vec<String> = numbers.iter().map(|n| line(*n)).collect();
    FileEntry { path: path.to_string(), is_dir: false, contents: Some(all.join("\n")) }
}

fn by_path(reports: &[CpdReport]) -> Vec<(String, String, usize, usize, usize, usize)> {
    let mut out = Vec::new();
    for r in reports {
        for m in &r.matches {
            out.push((
                r.filename.clone(),
                m.matching_file.clone(),
                m.start,
                m.end,
                m.match_start,
                m.match_end,
            ));
        }
    }
    out.sort();
    out
}

fn between(reports: &[CpdReport], local: &str, remote: &str) -> Vec<(usize, usize, usize, usize)> {
    let mut out = Vec::new();
    for r in reports {
        if r.filename == local {
            for m in &r.matches {
                if m.matching_file == remote {
                    out.push((m.start, m.end, m.match_start, m.match_end));
                }
            }
        }
    }
    out
}

fn walk() -> Vec<FileEntry> {
    vec![
        file("a.rs", &[1, 2, 3, 4, 5, 90, 91, 11, 12, 13, 14, 92, 1, 2, 3, 4, 5]),
        FileEntry { path: "dir".to_string(), is_dir: true, contents: None },
        file("b.rs", &[80, 11, 12, 13, 14, 81, 82, 1, 2, 3, 4, 5]),
        FileEntry { path: "blob".to_string(), is_dir: false, contents: None },
        file("c.rs", &[2, 3, 4, 5, 70, 71, 11, 12, 13, 14]),
    ]
}

#[test]
fn order_of_the_walk_does_not_change_the_regions_by_path() {
    let forward = walk();
    let mut backward = walk();
    backward.reverse();
    let mut rotated = walk();
    rotated.rotate_left(2);
    let first = by_path(&detect(&forward, 4));
    assert!(first.len() >= 6);
    assert_eq!(first, by_path(&detect(&backward, 4)));
    assert_eq!(first, by_path(&detect(&rotated, 4)));
}

#[test]
fn regions_between_two_files_do_not_depend_on_other_files() {
    let all = walk();
    let pair = vec![all[0].clone(), all[2].clone()];
    let swapped = vec![all[2].clone(), all[0].clone()];
    let expected = vec![(1, 6, 8, 13), (8, 12, 2, 6), (13, 18, 8, 13)];
    assert_eq!(between(&detect(&all, 4), "a.rs", "b.rs"), expected);
    assert_eq!(between(&detect(&pair, 4), "a.rs", "b.rs"), expected);
    assert_eq!(between(&detect(&swapped, 4), "a.rs", "b.rs"), expected);
    let mirrored = vec![(2, 6, 8, 12), (8, 13, 1, 6)];
    assert_eq!(between(&detect(&all, 4), "b.rs", "a.rs"), mirrored);
    assert_eq!(between(&detect(&swapped, 4), "b.rs", "a.rs"), mirrored);
}

#[test]
fn regions_against_one_file_lie_apart() {
    let reports = detect(&walk(), 4);
    for r in &reports {
        for (i, m) in r.matches.iter().enumerate() {
            for n in &r.matches[i + 1..] {
                assert!(m.start <= n.start);
                if m.matching_file == n.matching_file {
                    assert!(m.end < n.start);
                }
            }
        }
    }
}

#[test]
fn threshold_counts_characters_and_not_bytes() {
    // four lines of two letters: 11 characters, 19 bytes
    let short: Vec<String> = vec!["éé".to_string(); 4];
    let mut index = HashIndex::new();
    cpd::index::hash_lines(0, &short, &mut index, 4);
    assert!(index.entries.is_empty());
    // four lines of three letters: 15 characters
    let long: Vec<String> = vec!["ééé".to_string(); 4];
    cpd::index::hash_lines(0, &long, &mut index, 4);
    assert_eq!(index.entries.len(), 1);
}

#[test]
fn every_digest_is_found_again_among_many() {
    let mut index = HashIndex::new();
    for n in 0..500 {
        index.record(hash_line(&format!("text {}", n)), Location { file: 0, line: n + 1 });
    }
    for n in 0..500 {
        index.record(hash_line(&format!("text {}", n)), Location { file: 1, line: n + 1 });
    }
    assert_eq!(index.entries.len(), 500);
    for n in 0..500 {
        let h = hash_line(&format!("text {}", n));
        assert_eq!(index.find(&h), Some(n));
        assert_eq!(
            index.get(&h),
            Some(&vec![Location { file: 0, line: n + 1 }, Location { file: 1, line: n + 1 }])
        );
    }
    assert_eq!(index.find(&hash_line("text 500")), None);
}

#[test]
fn digests_with_the_same_ending_are_told_apart() {
    let mut index = HashIndex::new();
    index.record("aaaa-same-ending".to_string(), Location { file: 0, line: 1 });
    index.record("bbbb-same-ending".to_string(), Location { file: 0, line: 2 });
    assert_eq!(index.find(&"aaaa-same-ending".to_string()), Some(0));
    assert_eq!(index.find(&"bbbb-same-ending".to_string()), Some(1));
    assert_eq!(index.find(&"cccc-same-ending".to_string()), None);
}
