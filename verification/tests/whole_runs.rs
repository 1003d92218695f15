use cpd::candidates::Candidate;
use cpd::config::{CpdConfig, CpdConfigContents};
use cpd::index::{build_n_gram_index, CpdIndex, FileEntry, Location};
use cpd::region::{matches_for_file, CopyPasteMatch};
use cpd::report::{build_report, detect, CpdMatch, CpdReport};
use cpd::text::hash_line;

fn line(n: usize) -> String {
    format!("let value_{} = compute_value_number({});", n, n)
}

fn lines(numbers: &[usize]) -> String {
    let all: Vec<String> = numbers.iter().map(|n| line(*n)).collect();
    all.join("\n")
}

fn file(path: &str, text: String) -> FileEntry {
    FileEntry { path: path.to_string(), is_dir: false, contents: Some(text) }
}

fn flat(reports: &[CpdReport]) -> Vec<(String, usize, usize, String, usize, usize)> {
    let mut out = Vec::new();
    for r in reports {
        for m in &r.matches {
            out.push((
                r.filename.clone(),
                m.start,
                m.end,
                m.matching_file.clone(),
                m.match_start,
                m.match_end,
            ));
        }
    }
    out
}

fn tuple(a: &str, s: usize, e: usize, b: &str, rs: usize, re: usize) -> (String, usize, usize, String, usize, usize) {
    (a.to_string(), s, e, b.to_string(), rs, re)
}

fn lines_of(m: &CpdMatch) -> (usize, usize) {
    // the first and the last line that the local span covers
    (m.start, m.end - 1)
}

#[test]
fn two_files_with_the_same_six_lines_point_at_each_other() {
    let body = lines(&[1, 2, 3, 4, 5, 6]);
    let entries = vec![file("a.rs", body.clone()), file("b.rs", body)];
    let reports = detect(&entries, 4);
    assert_eq!(reports.len(), 2);
    assert_eq!(reports[0].filename, "a.rs");
    assert_eq!(reports[1].filename, "b.rs");
    assert_eq!(reports[0].matches.len(), 1);
    assert_eq!(reports[1].matches.len(), 1);
    assert_eq!(lines_of(&reports[0].matches[0]), (1, 6));
    assert_eq!(lines_of(&reports[1].matches[0]), (1, 6));
    assert_eq!(flat(&reports), vec![tuple("a.rs", 1, 7, "b.rs", 1, 7), tuple("b.rs", 1, 7, "a.rs", 1, 7)]);
}

#[test]
fn block_repeated_in_one_file_is_reported_where_it_comes_again() {
    // lines 1 to 5 come again as lines 20 to 24
    let mut numbers: Vec<usize> = (1..=19).collect();
    numbers.extend([1, 2, 3, 4, 5]);
    assert_eq!(numbers.len(), 24);
    let entries = vec![file("a.rs", lines(&numbers))];
    let reports = detect(&entries, 4);
    assert_eq!(flat(&reports), vec![tuple("a.rs", 20, 25, "a.rs", 1, 6)]);
    assert_eq!(lines_of(&reports[0].matches[0]), (20, 24));
    for r in &reports {
        for m in &r.matches {
            assert!(!(m.matching_file == r.filename && m.start == m.match_start && m.end == m.match_end));
        }
    }
}

#[test]
fn block_repeated_in_one_file_keeps_its_first_region_as_a_self_match() {
    let mut numbers: Vec<usize> = (1..=19).collect();
    numbers.extend([1, 2, 3, 4, 5]);
    let entries = vec![file("a.rs", lines(&numbers))];
    let index = build_n_gram_index(&entries, 4);
    let file_map = index.build_dup_map();
    let lines_of_candidates: Vec<usize> = file_map[0].iter().map(|c| c.line).collect();
    assert_eq!(lines_of_candidates, vec![1, 2, 20, 21]);
    let found = matches_for_file(0, &file_map, &index.lines, 4);
    assert_eq!(
        found,
        vec![CopyPasteMatch { start: 20, end: 25, file: 0, remote_start: 1, remote_end: 6 }]
    );
}

#[test]
fn file_shorter_than_the_window_has_no_region() {
    let entries = vec![file("a.rs", lines(&[1, 2, 3])), file("b.rs", lines(&[1, 2, 3]))];
    let index = build_n_gram_index(&entries, 4);
    assert_eq!(index.files, vec!["a.rs".to_string(), "b.rs".to_string()]);
    assert!(index.lines.entries.is_empty());
    assert!(detect(&entries, 4).is_empty());
}

#[test]
fn empty_walk_gives_an_empty_report() {
    let entries: Vec<FileEntry> = Vec::new();
    let index = build_n_gram_index(&entries, 4);
    assert!(index.files.is_empty());
    assert!(index.build_dup_map().is_empty());
    assert!(detect(&entries, 4).is_empty());
}

#[test]
fn files_under_an_ignored_directory_get_no_file_id() {
    let body = lines(&[1, 2, 3, 4, 5, 6]);
    let entries = vec![
        file("src/a.rs", body.clone()),
        FileEntry { path: "src/vendor".to_string(), is_dir: true, contents: None },
        file("src/vendor/b.rs", body.clone()),
        file("lib/vendor/deep/c.rs", body.clone()),
        file("src/d.rs", body),
    ];
    let config = CpdConfig::new(CpdConfigContents {
        min_lines: Some(4),
        ignored_globs: Some(vec!["**/vendor/**".to_string()]),
    })
    .unwrap();
    assert!(config.should_file_be_ignored("src/vendor/b.rs"));
    assert!(config.should_file_be_ignored("lib/vendor/deep/c.rs"));
    assert!(!config.should_file_be_ignored("src/a.rs"));
    let kept = config.retain_included(&entries);
    let index = build_n_gram_index(&kept, config.get_min_lines());
    assert_eq!(index.files, vec!["src/a.rs".to_string(), "src/d.rs".to_string()]);
    let reports = detect(&kept, config.get_min_lines());
    assert_eq!(
        flat(&reports),
        vec![tuple("src/a.rs", 1, 7, "src/d.rs", 1, 7), tuple("src/d.rs", 1, 7, "src/a.rs", 1, 7)]
    );
    for r in &reports {
        assert!(!r.filename.contains("vendor"));
        for m in &r.matches {
            assert!(!m.matching_file.contains("vendor"));
        }
    }
}

#[test]
fn without_ignored_globs_every_entry_is_scanned() {
    let body = lines(&[1, 2, 3, 4, 5, 6]);
    let entries = vec![file("src/a.rs", body.clone()), file("src/vendor/b.rs", body)];
    let config = CpdConfig::default();
    let kept = config.retain_included(&entries);
    assert_eq!(kept.len(), 2);
    assert_eq!(kept[1].path, "src/vendor/b.rs");
    assert_eq!(kept[1].contents, entries[1].contents);
    assert_eq!(detect(&kept, config.get_min_lines()).len(), 2);
}

#[test]
fn matching_windows_are_covered_in_both_files() {
    // lines 3 to 6 of the first file are lines 10 to 13 of the second
    let a: Vec<usize> = vec![101, 102, 1, 2, 3, 4, 103];
    let mut b: Vec<usize> = (200..209).collect();
    b.extend([1, 2, 3, 4, 250]);
    let entries = vec![file("a.rs", lines(&a)), file("b.rs", lines(&b))];
    let reports = detect(&entries, 4);
    assert_eq!(
        flat(&reports),
        vec![tuple("a.rs", 3, 7, "b.rs", 10, 14), tuple("b.rs", 10, 14, "a.rs", 3, 7)]
    );
}

#[test]
fn same_walk_gives_the_same_report() {
    let mut numbers: Vec<usize> = (1..=12).collect();
    numbers.extend([3, 4, 5, 6, 7]);
    let entries = vec![
        file("a.rs", lines(&numbers)),
        FileEntry { path: "img.bin".to_string(), is_dir: false, contents: None },
        file("b.rs", lines(&[40, 3, 4, 5, 6, 41, 42, 9, 10, 11, 12])),
    ];
    let first = flat(&detect(&entries, 4));
    let second = flat(&detect(&entries, 4));
    assert!(!first.is_empty());
    assert_eq!(first, second);
}

#[test]
fn larger_window_reports_nothing_that_a_smaller_window_does_not_cover() {
    let a: Vec<usize> = vec![101, 1, 2, 3, 4, 5, 6, 102, 103];
    let b: Vec<usize> = vec![201, 202, 1, 2, 3, 4, 5, 6, 203];
    let entries = vec![file("a.rs", lines(&a)), file("b.rs", lines(&b))];
    let small = detect(&entries, 4);
    let large = detect(&entries, 6);
    assert_eq!(
        flat(&large),
        vec![tuple("a.rs", 2, 8, "b.rs", 3, 9), tuple("b.rs", 3, 9, "a.rs", 2, 8)]
    );
    for big in flat(&large) {
        assert!(flat(&small)
            .iter()
            .any(|m| m.0 == big.0 && m.3 == big.3 && m.1 <= big.1 && big.2 <= m.2));
    }
    assert!(detect(&entries, 7).is_empty());
}

#[test]
fn report_names_the_remote_file_by_its_path() {
    let index = CpdIndex {
        files: vec!["x.rs".to_string(), "y.rs".to_string()],
        lines: {
            let mut lines = cpd::index::HashIndex::new();
            lines.record(hash_line("k"), Location { file: 0, line: 2 });
            lines.record(hash_line("k"), Location { file: 1, line: 8 });
            lines
        },
    };
    let file_map = vec![
        vec![Candidate { line: 2, hash: hash_line("k") }],
        vec![Candidate { line: 8, hash: hash_line("k") }],
    ];
    let reports = build_report(&index, &file_map, 4);
    assert_eq!(flat(&reports), vec![tuple("x.rs", 2, 6, "y.rs", 8, 12), tuple("y.rs", 8, 12, "x.rs", 2, 6)]);
}

#[test]
fn file_without_duplicates_has_no_entry_in_the_report() {
    let body = lines(&[1, 2, 3, 4, 5]);
    let entries = vec![
        file("a.rs", body.clone()),
        file("unique.rs", lines(&[50, 51, 52, 53, 54, 55])),
        file("b.rs", body),
    ];
    let reports = detect(&entries, 4);
    let names: Vec<&str> = reports.iter().map(|r| r.filename.as_str()).collect();
    assert_eq!(names, vec!["a.rs", "b.rs"]);
}

#[test]
fn repeat_within_reach_of_its_source_merges_into_the_self_match() {
    // the windows of three lines at 1 and 5 are the same; so are, for a
    // window of two lines, those at 1 and 5 and those at 2, 3 and 6
    let entries = vec![file("a.rs", lines(&[2, 1, 1, 1, 2, 1, 1]))];
    assert_eq!(flat(&detect(&entries, 3)), vec![tuple("a.rs", 5, 8, "a.rs", 1, 4)]);
    assert!(detect(&entries, 2).is_empty());
}
