use cpd::candidates::Candidate;
use cpd::index::{HashIndex, Location};
use cpd::region::{drop_self_matches, matches_for_file, merge_window, CopyPasteMatch};

fn region(start: usize, end: usize, file: usize, remote_start: usize, remote_end: usize) -> CopyPasteMatch {
    CopyPasteMatch { start, end, file, remote_start, remote_end }
}

fn candidate(line: usize, hash: &str) -> Candidate {
    Candidate { line, hash: hash.to_string() }
}

fn index_of(entries: &[(&str, &[(usize, usize)])]) -> HashIndex {
    let mut index = HashIndex::new();
    for (hash, locations) in entries {
        for (file, line) in locations.iter() {
            index.record(hash.to_string(), Location { file: *file, line: *line });
        }
    }
    index
}

#[test]
fn overlap_is_inclusive_on_both_bounds() {
    let m = region(10, 14, 2, 30, 34);
    assert!(m.is_overlapping(14, 18, 2));
    assert!(m.is_overlapping(6, 10, 2));
    assert!(m.is_overlapping(11, 12, 2));
    assert!(!m.is_overlapping(15, 19, 2));
    assert!(!m.is_overlapping(5, 9, 2));
}

#[test]
fn overlap_needs_the_same_remote_file() {
    let m = region(10, 14, 2, 30, 34);
    assert!(!m.is_overlapping(10, 14, 3));
}

#[test]
fn window_that_encloses_a_region_touches_it_with_neither_bound() {
    let m = region(10, 14, 2, 30, 34);
    assert!(!m.is_overlapping(8, 16, 2));
}

#[test]
fn expand_to_the_right_moves_both_ends_by_the_same_amount() {
    let mut m = region(10, 14, 2, 30, 34);
    m.expand(12, 16);
    assert_eq!(m, region(10, 16, 2, 30, 36));
}

#[test]
fn expand_to_the_left_moves_both_starts_by_the_same_amount() {
    let mut m = region(10, 14, 2, 30, 34);
    m.expand(7, 11);
    assert_eq!(m, region(7, 14, 2, 27, 34));
}

#[test]
fn expand_within_the_region_changes_nothing() {
    let mut m = region(10, 20, 2, 30, 40);
    m.expand(12, 16);
    assert_eq!(m, region(10, 20, 2, 30, 40));
}

#[test]
fn expand_on_both_sides() {
    let mut m = region(10, 14, 2, 30, 34);
    m.expand(8, 19);
    assert_eq!(m, region(8, 19, 2, 28, 39));
}

#[test]
fn self_match_is_a_match_with_the_own_file_on_touching_lines() {
    assert!(region(1, 5, 0, 1, 5).is_duplicate(0));
    assert!(region(1, 7, 0, 5, 11).is_duplicate(0));
    assert!(!region(1, 5, 0, 20, 24).is_duplicate(0));
    assert!(!region(1, 5, 1, 1, 5).is_duplicate(0));
}

#[test]
fn window_region_has_window_size_on_both_sides() {
    let m = CopyPasteMatch::of_window(3, 4, Location { file: 9, line: 12 });
    assert_eq!(m, region(3, 7, 9, 12, 16));
}

#[test]
fn first_window_starts_a_region() {
    let mut list = Vec::new();
    merge_window(&mut list, 3, 4, Location { file: 1, line: 9 });
    assert_eq!(list, vec![region(3, 7, 1, 9, 13)]);
}

#[test]
fn next_window_extends_the_region_it_touches() {
    let mut list = vec![region(3, 7, 1, 9, 13)];
    merge_window(&mut list, 4, 4, Location { file: 1, line: 10 });
    assert_eq!(list, vec![region(3, 8, 1, 9, 14)]);
    merge_window(&mut list, 8, 4, Location { file: 1, line: 40 });
    assert_eq!(list, vec![region(3, 12, 1, 9, 18)]);
}

#[test]
fn window_against_another_file_starts_its_own_region() {
    let mut list = vec![region(3, 7, 1, 9, 13)];
    merge_window(&mut list, 4, 4, Location { file: 2, line: 10 });
    assert_eq!(list, vec![region(3, 7, 1, 9, 13), region(4, 8, 2, 10, 14)]);
}

#[test]
fn window_beyond_a_region_starts_a_new_one() {
    let mut list = vec![region(3, 7, 1, 9, 13)];
    merge_window(&mut list, 8, 4, Location { file: 1, line: 14 });
    assert_eq!(list, vec![region(3, 7, 1, 9, 13), region(8, 12, 1, 14, 18)]);
}

#[test]
fn first_region_that_fits_is_taken() {
    let mut list = vec![region(1, 5, 1, 1, 5), region(3, 7, 2, 9, 13), region(3, 7, 1, 50, 54)];
    merge_window(&mut list, 4, 4, Location { file: 1, line: 70 });
    assert_eq!(list, vec![region(1, 8, 1, 1, 8), region(3, 7, 2, 9, 13), region(3, 7, 1, 50, 54)]);
}

#[test]
fn self_matches_are_dropped_and_the_order_is_kept() {
    let list = vec![region(1, 5, 0, 1, 5), region(1, 5, 1, 7, 11), region(9, 13, 0, 30, 34)];
    assert_eq!(drop_self_matches(&list, 0), vec![region(1, 5, 1, 7, 11), region(9, 13, 0, 30, 34)]);
    assert_eq!(drop_self_matches(&list, 1), list);
}

#[test]
fn file_without_candidates_has_no_region() {
    let index = index_of(&[("h1", &[(0, 1), (1, 1)])]);
    let file_map = vec![vec![candidate(1, "h1")], vec![candidate(1, "h1")], vec![]];
    assert!(matches_for_file(2, &file_map, &index, 4).is_empty());
    assert!(matches_for_file(5, &file_map, &index, 4).is_empty());
}

#[test]
fn candidate_with_an_unknown_digest_is_passed_over() {
    let index = index_of(&[("h1", &[(0, 1), (1, 1)])]);
    let file_map = vec![vec![candidate(1, "h1"), candidate(2, "nowhere")]];
    assert_eq!(matches_for_file(0, &file_map, &index, 4), vec![region(1, 5, 1, 1, 5)]);
}

#[test]
fn consecutive_windows_merge_into_one_region_per_remote_file() {
    let index = index_of(&[
        ("h1", &[(0, 10), (1, 3), (2, 50)]),
        ("h2", &[(0, 11), (1, 4), (2, 51)]),
        ("h3", &[(0, 12), (1, 5)]),
    ]);
    let file_map = vec![vec![candidate(10, "h1"), candidate(11, "h2"), candidate(12, "h3")]];
    assert_eq!(
        matches_for_file(0, &file_map, &index, 4),
        vec![region(10, 16, 1, 3, 9), region(10, 15, 2, 50, 55)]
    );
}

#[test]
fn separate_blocks_against_one_file_stay_separate() {
    let index = index_of(&[("h1", &[(0, 1), (1, 100)]), ("h2", &[(0, 30), (1, 7)])]);
    let file_map = vec![vec![candidate(1, "h1"), candidate(30, "h2")]];
    assert_eq!(
        matches_for_file(0, &file_map, &index, 4),
        vec![region(1, 5, 1, 100, 104), region(30, 34, 1, 7, 11)]
    );
}

#[test]
fn region_keeps_the_offset_of_its_first_window() {
    // the second window matches the remote file at another offset
    let index = index_of(&[("h1", &[(0, 1), (1, 100)]), ("h2", &[(0, 3), (1, 7)])]);
    let file_map = vec![vec![candidate(1, "h1"), candidate(3, "h2")]];
    let found = matches_for_file(0, &file_map, &index, 4);
    assert_eq!(found, vec![region(1, 7, 1, 100, 106)]);
    assert_eq!(found[0].end - found[0].start, found[0].remote_end - found[0].remote_start);
}

#[test]
fn regions_come_in_the_order_of_their_first_line() {
    let index = index_of(&[
        ("h1", &[(0, 1), (2, 9)]),
        ("h2", &[(0, 20), (1, 4)]),
        ("h3", &[(0, 40), (2, 1)]),
    ]);
    let file_map = vec![vec![candidate(1, "h1"), candidate(20, "h2"), candidate(40, "h3")]];
    let found = matches_for_file(0, &file_map, &index, 4);
    assert_eq!(found.len(), 3);
    assert!(found.windows(2).all(|p| p[0].start <= p[1].start));
}

#[test]
fn every_region_spans_at_least_the_window_size_on_both_sides() {
    let index = index_of(&[
        ("h1", &[(0, 1), (0, 20), (1, 5)]),
        ("h2", &[(0, 2), (0, 21), (1, 6)]),
        ("h3", &[(0, 9), (1, 30)]),
    ]);
    let file_map = vec![vec![
        candidate(1, "h1"),
        candidate(2, "h2"),
        candidate(9, "h3"),
        candidate(20, "h1"),
        candidate(21, "h2"),
    ]];
    let found = matches_for_file(0, &file_map, &index, 4);
    assert!(!found.is_empty());
    for m in &found {
        assert!(m.end - m.start >= 4);
        assert_eq!(m.end - m.start, m.remote_end - m.remote_start);
        assert!(!(m.file == 0 && m.start == m.remote_start && m.end == m.remote_end));
    }
}
