//! Monotonicity in the window size: a duplicate between two files that is
//! reported for a large window is covered by what is reported for a smaller
//! one.

use crate::candidates::{is_candidate_list, CandidateView};
use crate::index::{
    file_id, readable_lines, scanned_locations, trimmed_window, window_count, window_is_indexed,
    window_key, window_text, CpdIndex, FileEntry, Location, MAX_LINES,
};
use crate::laws::{
    covered, lemma_duplicate_is_merged, lemma_file_ids, lemma_file_ids_differ,
    lemma_location_of_file, lemma_other_file_is_kept, lemma_window_is_recorded,
};
use crate::region::{
    add_occurrences, add_window, aligned, file_regions, first_fit, is_self_match,
    lemma_add_occurrences_keeps, lemma_first_fit, lemma_merged_keeps, lemma_merged_separated,
    merged, separated, sorted_by_start, Region,
};
use crate::seq_lemmas::lemma_filter_source;
use vstd::prelude::*;

verus! {

/// Two regions against the same file that share a line are one region: what
/// they cover between them is covered by a single region.
pub proof fn lemma_covers_join(
    regions: Seq<Region>,
    file: int,
    s1: int,
    e1: int,
    s2: int,
    e2: int,
)
    requires
        separated(regions),
        covered(regions, file, s1, e1),
        covered(regions, file, s2, e2),
        s1 <= e1,
        s2 <= e2,
        s1 <= e2,
        s2 <= e1,
    ensures
        covered(
            regions,
            file,
            if s1 <= s2 {
                s1
            } else {
                s2
            },
            if e1 <= e2 {
                e2
            } else {
                e1
            },
        ),
{
    let x = choose|k: int|
        0 <= k < regions.len() && (#[trigger] regions[k]).file == file && regions[k].start <= s1
            && e1 <= regions[k].end;
    let y = choose|k: int|
        0 <= k < regions.len() && (#[trigger] regions[k]).file == file && regions[k].start <= s2
            && e2 <= regions[k].end;
    assert(x == y);
}

/// No two windows of `v` lines, one of each file, share a digest without
/// having the same trimmed lines.
pub open spec fn no_collision(first: Seq<Seq<char>>, second: Seq<Seq<char>>, v: int) -> bool {
    forall|i: int, j: int|
        0 <= i < window_count(first.len() as int, v) && 0 <= j < window_count(
            second.len() as int,
            v,
        ) && #[trigger] window_key(first, i, v) == #[trigger] window_key(second, j, v)
            ==> trimmed_window(first, i, v) == trimmed_window(second, j, v)
}

/// Every window of `w` lines that lies inside a matched window of `v` lines
/// is long enough to be indexed. A window of `v` lines of the first file is
/// matched if it is indexed and the second file has a window with its
/// digest.
pub open spec fn inner_indexed(
    first: Seq<Seq<char>>,
    second: Seq<Seq<char>>,
    w: int,
    v: int,
) -> bool {
    forall|i: int, j: int, m: int|
        0 <= i < window_count(first.len() as int, v) && 0 <= j < window_count(
            second.len() as int,
            v,
        ) && window_is_indexed(first, i, v) && #[trigger] window_key(first, i, v)
            == #[trigger] window_key(second, j, v) && i <= m <= i + v - w
            ==> #[trigger] window_is_indexed(first, m, w)
}

/// The lines of entry `e`, if it can be read.
pub open spec fn lines_of(entries: Seq<FileEntry>, e: int) -> Seq<Seq<char>> {
    readable_lines(entries[e])->0
}

/// What the comparison of two window sizes starts from: a walk, its index
/// for the small window `w` with the candidates of file `ea`, and two files
/// of the walk.
spec fn base(
    entries: Seq<FileEntry>,
    w: int,
    v: int,
    small: CpdIndex,
    ea: int,
    eb: int,
    cw: Seq<CandidateView>,
) -> bool {
    &&& 1 <= w <= v
    &&& small.is_index_of(entries, w)
    &&& 0 <= ea < entries.len()
    &&& 0 <= eb < entries.len()
    &&& ea != eb
    &&& !entries[ea].is_dir
    &&& !entries[eb].is_dir
    &&& is_candidate_list(small.lines, file_id(entries, ea) as usize, cw)
}

/// The merged regions of file `ea` for the small window.
spec fn small_regions(small: CpdIndex, w: int, cw: Seq<CandidateView>) -> Seq<Region> {
    merged(cw, small.lines, w, cw.len() as int)
}

/// A match at a larger window holds the matches at every smaller one: if two
/// windows of `v` lines have the same trimmed lines, then the windows of `w`
/// lines at the same place inside them have the same text and so the same
/// digest, and either both are long enough to be indexed or neither is.
pub proof fn lemma_inner_windows_match(
    first: Seq<Seq<char>>,
    second: Seq<Seq<char>>,
    i: int,
    j: int,
    w: int,
    v: int,
    k: int,
)
    requires
        0 <= w <= v,
        0 <= i && i + v <= first.len(),
        0 <= j && j + v <= second.len(),
        trimmed_window(first, i, v) == trimmed_window(second, j, v),
        0 <= k <= v - w,
    ensures
        trimmed_window(first, i + k, w) == trimmed_window(second, j + k, w),
        window_text(first, i + k, w) == window_text(second, j + k, w),
        window_key(first, i + k, w) == window_key(second, j + k, w),
        window_is_indexed(first, i + k, w) == window_is_indexed(second, j + k, w),
{
    assert(trimmed_window(first, i + k, w) =~= trimmed_window(first, i, v).subrange(k, k + w));
    assert(trimmed_window(second, j + k, w) =~= trimmed_window(second, j, v).subrange(k, k + w));
}

/// A window of `v` lines that two files share is covered, for the smaller
/// window `w`, by one region: the windows of `w` lines inside it follow each
/// other line by line, so each grows the region of the one before.
proof fn lemma_chain(
    entries: Seq<FileEntry>,
    w: int,
    v: int,
    small: CpdIndex,
    ea: int,
    eb: int,
    cw: Seq<CandidateView>,
    l: int,
    j: int,
    k: int,
)
    requires
        base(entries, w, v, small, ea, eb, cw),
        readable_lines(entries[ea]) is Some,
        readable_lines(entries[eb]) is Some,
        1 <= l && l - 1 + v <= lines_of(entries, ea).len(),
        1 <= j && j - 1 + v <= lines_of(entries, eb).len(),
        trimmed_window(lines_of(entries, ea), l - 1, v) == trimmed_window(
            lines_of(entries, eb),
            j - 1,
            v,
        ),
        forall|m: int|
            l - 1 <= m <= l - 1 + v - w ==> #[trigger] window_is_indexed(
                lines_of(entries, ea),
                m,
                w,
            ),
        0 <= k <= v - w,
    ensures
        covered(small_regions(small, w, cw), file_id(entries, eb), l, l + k + w),
    decreases k,
{
    let n = entries.len() as int;
    let la = lines_of(entries, ea);
    let lb = lines_of(entries, eb);
    let a = file_id(entries, ea);
    let b = file_id(entries, eb);
    let all = small_regions(small, w, cw);
    lemma_inner_windows_match(la, lb, l - 1, j - 1, w, v, k);
    assert(window_is_indexed(la, l - 1 + k, w));
    let key = window_key(la, l - 1 + k, w);
    lemma_file_ids(entries, ea, n);
    lemma_file_ids(entries, eb, n);
    lemma_file_ids_differ(entries, ea, eb);
    lemma_window_is_recorded(entries, w, n, ea, l - 1 + k);
    lemma_window_is_recorded(entries, w, n, eb, j - 1 + k);
    assert(small.lines.occurrences(key) == scanned_locations(entries, w, key, n));
    lemma_duplicate_is_merged(
        small.lines,
        a as usize,
        cw,
        w,
        key,
        (l + k) as usize,
        Location { file: b as usize, line: (j + k) as usize },
    );
    if k > 0 {
        lemma_chain(entries, w, v, small, ea, eb, cw, l, j, k - 1);
        lemma_merged_separated(cw, small.lines, w, cw.len() as int);
        lemma_covers_join(all, b, l, l + k - 1 + w, l + k, l + k + w);
    }
}

/// Every region against the file `b` is covered by the final regions.
spec fn within(regions: Seq<Region>, all: Seq<Region>, b: int) -> bool {
    forall|k: int|
        0 <= k < regions.len() && (#[trigger] regions[k]).file == b ==> covered(
            all,
            b,
            regions[k].start,
            regions[k].end,
        )
}

/// Matching one window of `v` lines keeps every region against the second
/// file within what the small window covers.
proof fn lemma_large_window(
    entries: Seq<FileEntry>,
    w: int,
    v: int,
    small: CpdIndex,
    large: CpdIndex,
    ea: int,
    eb: int,
    cw: Seq<CandidateView>,
    regions: Seq<Region>,
    line: usize,
    hash: Seq<char>,
    remote: Location,
)
    requires
        base(entries, w, v, small, ea, eb, cw),
        large.is_index_of(entries, v),
        no_collision(lines_of(entries, ea), lines_of(entries, eb), v),
        inner_indexed(lines_of(entries, ea), lines_of(entries, eb), w, v),
        aligned(regions, line as int, v),
        within(regions, small_regions(small, w, cw), file_id(entries, eb)),
        large.lines.occurrences(hash).contains(
            Location { file: file_id(entries, ea) as usize, line },
        ),
        large.lines.occurrences(hash).contains(remote),
    ensures
        within(
            add_window(regions, line as int, v, remote),
            small_regions(small, w, cw),
            file_id(entries, eb),
        ),
{
    let n = entries.len() as int;
    let a = file_id(entries, ea);
    let b = file_id(entries, eb);
    let all = small_regions(small, w, cw);
    let after = add_window(regions, line as int, v, remote);
    let i = first_fit(regions, line as int, line + v, remote.file as int);
    lemma_first_fit(regions, line as int, line + v, remote.file as int, 0);
    lemma_file_ids(entries, ea, n);
    lemma_file_ids(entries, eb, n);
    if remote.file == b {
        let here = Location { file: a as usize, line };
        lemma_location_of_file(entries, v, large, ea, hash, here);
        lemma_location_of_file(entries, v, large, eb, hash, remote);
        let la = lines_of(entries, ea);
        let lb = lines_of(entries, eb);
        assert(window_key(la, line - 1, v) == window_key(lb, remote.line - 1, v));
        assert(trimmed_window(la, line - 1, v) == trimmed_window(lb, remote.line - 1, v));
        lemma_chain(entries, w, v, small, ea, eb, cw, line as int, remote.line as int, v - w);
        assert(covered(all, b, line as int, line + v));
        lemma_merged_separated(cw, small.lines, w, cw.len() as int);
        assert forall|k: int|
            0 <= k < after.len() && (#[trigger] after[k]).file == b implies covered(
            all,
            b,
            after[k].start,
            after[k].end,
        ) by {
            if k < regions.len() {
                let m = regions[k];
                if k == i {
                    assert(covered(all, b, m.start, m.end));
                    lemma_covers_join(all, b, m.start, m.end, line as int, line + v);
                }
            }
        }
    } else {
        assert forall|k: int|
            0 <= k < after.len() && (#[trigger] after[k]).file == b implies covered(
            all,
            b,
            after[k].start,
            after[k].end,
        ) by {
            if k < regions.len() {
                let m = regions[k];
            }
        }
    }
}

/// Matching a window of `v` lines with the occurrences of its digest keeps
/// every region against the second file within what the small window covers.
proof fn lemma_large_occurrences(
    entries: Seq<FileEntry>,
    w: int,
    v: int,
    small: CpdIndex,
    large: CpdIndex,
    ea: int,
    eb: int,
    cw: Seq<CandidateView>,
    regions: Seq<Region>,
    line: usize,
    hash: Seq<char>,
    n: int,
)
    requires
        base(entries, w, v, small, ea, eb, cw),
        large.is_index_of(entries, v),
        no_collision(lines_of(entries, ea), lines_of(entries, eb), v),
        inner_indexed(lines_of(entries, ea), lines_of(entries, eb), w, v),
        aligned(regions, line as int, v),
        sorted_by_start(regions),
        1 <= line,
        within(regions, small_regions(small, w, cw), file_id(entries, eb)),
        large.lines.occurrences(hash).contains(
            Location { file: file_id(entries, ea) as usize, line },
        ),
        0 <= n <= large.lines.occurrences(hash).len(),
    ensures
        within(
            add_occurrences(regions, line as int, v, large.lines.occurrences(hash), n),
            small_regions(small, w, cw),
            file_id(entries, eb),
        ),
    decreases n,
{
    if n > 0 {
        let remotes = large.lines.occurrences(hash);
        lemma_large_occurrences(
            entries,
            w,
            v,
            small,
            large,
            ea,
            eb,
            cw,
            regions,
            line,
            hash,
            n - 1,
        );
        assert forall|j: int| 0 <= j < remotes.len() implies 1 <= (#[trigger] remotes[j]).line
            <= MAX_LINES by {
            assert(remotes[j] == large.lines.occurrences(hash)[j]);
        }
        lemma_add_occurrences_keeps(regions, line as int, v, remotes, n - 1);
        assert(remotes.contains(remotes[n - 1]));
        lemma_large_window(
            entries,
            w,
            v,
            small,
            large,
            ea,
            eb,
            cw,
            add_occurrences(regions, line as int, v, remotes, n - 1),
            line,
            hash,
            remotes[n - 1],
        );
    }
}

/// Merging the candidates of the large window keeps every region against
/// the second file within what the small window covers.
proof fn lemma_large_merged(
    entries: Seq<FileEntry>,
    w: int,
    v: int,
    small: CpdIndex,
    large: CpdIndex,
    ea: int,
    eb: int,
    cw: Seq<CandidateView>,
    cv: Seq<CandidateView>,
    n: int,
)
    requires
        base(entries, w, v, small, ea, eb, cw),
        large.is_index_of(entries, v),
        no_collision(lines_of(entries, ea), lines_of(entries, eb), v),
        inner_indexed(lines_of(entries, ea), lines_of(entries, eb), w, v),
        is_candidate_list(large.lines, file_id(entries, ea) as usize, cv),
        0 <= n <= cv.len(),
    ensures
        within(merged(cv, large.lines, v, n), small_regions(small, w, cw), file_id(entries, eb)),
    decreases n,
{
    if n > 0 {
        lemma_large_merged(entries, w, v, small, large, ea, eb, cw, cv, n - 1);
        lemma_merged_keeps(cv, large.lines, v, n - 1);
        let c = cv[n - 1];
        if n > 1 {
            let earlier = cv[n - 2];
        }
        let before = merged(cv, large.lines, v, n - 1);
        assert(aligned(before, c.line, v));
        let remotes = large.lines.occurrences(c.hash);
        lemma_large_occurrences(
            entries,
            w,
            v,
            small,
            large,
            ea,
            eb,
            cw,
            before,
            c.line as usize,
            c.hash,
            remotes.len() as int,
        );
    }
}

/// Monotonicity between two files: whatever region of one file the larger
/// window `v` reports against another file, the smaller window `w` reports a
/// region against that file that covers the same lines. It is stated for
/// walks in which no window of `w` lines inside a matched window of `v`
/// lines is too short to be indexed, and in which windows of `v` lines of
/// the two files share a digest only if their trimmed lines are the same.
pub proof fn lemma_monotonicity(
    entries: Seq<FileEntry>,
    w: int,
    v: int,
    small: CpdIndex,
    large: CpdIndex,
    ea: int,
    eb: int,
    cw: Seq<CandidateView>,
    cv: Seq<CandidateView>,
    k: int,
)
    requires
        1 <= w <= v,
        small.is_index_of(entries, w),
        large.is_index_of(entries, v),
        0 <= ea < entries.len(),
        0 <= eb < entries.len(),
        ea != eb,
        !entries[ea].is_dir,
        !entries[eb].is_dir,
        is_candidate_list(small.lines, file_id(entries, ea) as usize, cw),
        is_candidate_list(large.lines, file_id(entries, ea) as usize, cv),
        no_collision(lines_of(entries, ea), lines_of(entries, eb), v),
        inner_indexed(lines_of(entries, ea), lines_of(entries, eb), w, v),
        0 <= k < file_regions(file_id(entries, ea), cv, large.lines, v).len(),
        file_regions(file_id(entries, ea), cv, large.lines, v)[k].file == file_id(entries, eb),
    ensures
        covered(
            file_regions(file_id(entries, ea), cw, small.lines, w),
            file_id(entries, eb),
            file_regions(file_id(entries, ea), cv, large.lines, v)[k].start,
            file_regions(file_id(entries, ea), cv, large.lines, v)[k].end,
        ),
{
    let a = file_id(entries, ea);
    let b = file_id(entries, eb);
    let merged_large = merged(cv, large.lines, v, cv.len() as int);
    let pred = |m: Region| !is_self_match(m, a);
    let m = file_regions(a, cv, large.lines, v)[k];
    lemma_filter_source(merged_large, pred, k);
    let p = choose|p: int| 0 <= p < merged_large.len() && #[trigger] merged_large[p] == m;
    lemma_large_merged(entries, w, v, small, large, ea, eb, cw, cv, cv.len() as int);
    assert(covered(small_regions(small, w, cw), b, merged_large[p].start, merged_large[p].end));
    lemma_file_ids_differ(entries, ea, eb);
    lemma_other_file_is_kept(small_regions(small, w, cw), a, b, m.start, m.end);
}

} // verus!
