use cpd::index::{CpdIndex, HashIndex, Location};

fn index_of(files: usize, entries: &[(&str, &[(usize, usize)])]) -> CpdIndex {
    let mut lines = HashIndex::new();
    for (hash, locations) in entries {
        for (file, line) in locations.iter() {
            lines.record(hash.to_string(), Location { file: *file, line: *line });
        }
    }
    CpdIndex { files: (0..files).map(|f| format!("file{}", f)).collect(), lines }
}

#[test]
fn entries_with_one_location_are_no_duplicates() {
    let index = index_of(2, &[("h1", &[(0, 1), (1, 1)]), ("h2", &[(0, 2)]), ("h3", &[(1, 4), (1, 9)])]);
    let dups = index.entry_with_dups();
    let hashes: Vec<&str> = dups.iter().map(|e| e.hash.as_str()).collect();
    assert_eq!(hashes, vec!["h1", "h3"]);
    assert_eq!(dups[1].locations, vec![Location { file: 1, line: 4 }, Location { file: 1, line: 9 }]);
}

#[test]
fn dup_map_has_a_list_for_every_file() {
    let index = index_of(3, &[("h1", &[(0, 1), (2, 1)])]);
    let map = index.build_dup_map();
    assert_eq!(map.len(), 3);
    assert_eq!(map[0].len(), 1);
    assert!(map[1].is_empty());
    assert_eq!(map[2].len(), 1);
}

#[test]
fn dup_map_lists_the_duplicated_windows_of_each_file_in_line_order() {
    let index = index_of(
        2,
        &[
            ("h1", &[(0, 30), (1, 2)]),
            ("h2", &[(0, 7)]),
            ("h3", &[(0, 5), (0, 12), (1, 1)]),
            ("h4", &[(1, 9), (0, 1)]),
        ],
    );
    let map = index.build_dup_map();
    let of_first: Vec<(usize, &str)> = map[0].iter().map(|c| (c.line, c.hash.as_str())).collect();
    assert_eq!(of_first, vec![(1, "h4"), (5, "h3"), (12, "h3"), (30, "h1")]);
    let of_second: Vec<(usize, &str)> = map[1].iter().map(|c| (c.line, c.hash.as_str())).collect();
    assert_eq!(of_second, vec![(1, "h3"), (2, "h1"), (9, "h4")]);
}

#[test]
fn index_without_duplicates_has_an_empty_dup_map() {
    let index = index_of(2, &[("h1", &[(0, 1)]), ("h2", &[(1, 1)])]);
    assert!(index.entry_with_dups().is_empty());
    let map = index.build_dup_map();
    assert!(map.iter().all(|list| list.is_empty()));
}
