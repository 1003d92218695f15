//! Locality: the regions of one file against another file depend on the
//! lines of the two files alone.

use crate::candidates::{is_candidate, is_candidate_list, ordered, CandidateView};
use crate::index::{
    entry_locations, file_id, lemma_window_locations, readable_lines, scanned_files,
    scanned_locations, window_count, window_locations, CpdIndex, FileEntry, HashIndex, Location,
    MAX_LINES,
};
use crate::laws::{
    is_window_of, lemma_file_ids, lemma_file_ids_differ, lemma_location_is_window,
    lemma_location_of_file, lemma_ordered_lists_equal, lemma_window_is_recorded,
};
use crate::region::{
    add_occurrences, add_window, aligned, expanded, file_regions, first_fit, first_fit_from,
    is_self_match, lemma_add_occurrences_keeps, lemma_add_occurrences_separated, lemma_first_fit,
    lemma_merged_keeps, lemma_merged_separated, merged, overlaps, separated, sorted_by_start,
    window_region, Region,
};
use crate::seq_lemmas::{
    lemma_filter_commutes, lemma_filter_drops_all, lemma_filter_keeps_all, lemma_filter_keeps_order,
    lemma_filter_source, lemma_filter_twice, lemma_filter_update_dropped, lemma_filter_update_last,
};
use crate::text::texts;
use vstd::prelude::*;

verus! {

/// The regions among `regions` that point at `file`, in their order.
pub open spec fn against(regions: Seq<Region>, file: int) -> Seq<Region> {
    regions.filter(|m: Region| m.file == file)
}

/// The regions with `file` as their remote file.
pub open spec fn pointed_at(regions: Seq<Region>, file: int) -> Seq<Region> {
    regions.map_values(
        |m: Region|
            Region {
                start: m.start,
                end: m.end,
                file,
                remote_start: m.remote_start,
                remote_end: m.remote_end,
            },
    )
}

/// A window that no region touches finds no fit.
proof fn lemma_no_fit(regions: Seq<Region>, start: int, end: int, file: int)
    requires
        forall|k: int|
            0 <= k < regions.len() ==> !overlaps(#[trigger] regions[k], start, end, file),
    ensures
        first_fit(regions, start, end, file) == regions.len(),
{
    lemma_first_fit(regions, start, end, file, 0);
}

/// Matching a window with a remote occurrence changes the regions against
/// one file as if the other regions were not there: an occurrence in that
/// file is matched with the regions against it, any other occurrence leaves
/// them as they are.
pub proof fn lemma_window_against(
    regions: Seq<Region>,
    line: int,
    w: int,
    remote: Location,
    file: int,
)
    requires
        aligned(regions, line, w),
        separated(regions),
        w >= 0,
    ensures
        against(add_window(regions, line, w, remote), file) == if remote.file == file {
            add_window(against(regions, file), line, w, remote)
        } else {
            against(regions, file)
        },
{
    let pred = |m: Region| m.file == file;
    let i = first_fit(regions, line, line + w, remote.file as int);
    let after = add_window(regions, line, w, remote);
    let mine = against(regions, file);
    lemma_first_fit(regions, line, line + w, remote.file as int, 0);
    if remote.file != file {
        if i < regions.len() {
            lemma_filter_update_dropped(regions, pred, i, expanded(regions[i], line, line + w));
        } else {
            regions.lemma_filter_push(window_region(line, w, remote), pred);
        }
    } else if i < regions.len() {
        let grown = expanded(regions[i], line, line + w);
        assert forall|k: int| i < k < regions.len() implies !pred(#[trigger] regions[k]) by {
            let m = regions[i];
            let later = regions[k];
        }
        lemma_filter_update_last(regions, pred, i, grown);
        let last = mine.len() - 1;
        lemma_first_fit(mine, line, line + w, file, 0);
        let found = first_fit(mine, line, line + w, file);
        if found < last {
            lemma_filter_keeps_order(regions, pred, found, last);
            let (p, q) = choose|p: int, q: int|
                0 <= p < q < regions.len() && #[trigger] regions[p] == mine[found]
                    && #[trigger] regions[q] == mine[last];
            let m = regions[p];
            let n = regions[q];
            let o = regions[i];
            assert(false);
        }
        assert(found == last);
    } else {
        regions.lemma_filter_push(window_region(line, w, remote), pred);
        assert forall|k: int| 0 <= k < mine.len() implies !overlaps(
            #[trigger] mine[k],
            line,
            line + w,
            file,
        ) by {
            lemma_filter_source(regions, pred, k);
            let p = choose|p: int| 0 <= p < regions.len() && #[trigger] regions[p] == mine[k];
        }
        lemma_no_fit(mine, line, line + w, file);
    }
}

/// The regions after the window at `line` is matched with all of the remote
/// occurrences, in their order.
pub open spec fn add_all(regions: Seq<Region>, line: int, w: int, remotes: Seq<Location>) -> Seq<
    Region,
> {
    add_occurrences(regions, line, w, remotes, remotes.len() as int)
}

/// Matching with the first `n` occurrences looks at the first `n` only.
pub proof fn lemma_add_occurrences_prefix(
    regions: Seq<Region>,
    line: int,
    w: int,
    remotes: Seq<Location>,
    others: Seq<Location>,
    n: int,
)
    requires
        0 <= n <= remotes.len(),
        n <= others.len(),
        forall|j: int| 0 <= j < n ==> remotes[j] == others[j],
    ensures
        add_occurrences(regions, line, w, remotes, n) == add_occurrences(
            regions,
            line,
            w,
            others,
            n,
        ),
    decreases n,
{
    if n > 0 {
        lemma_add_occurrences_prefix(regions, line, w, remotes, others, n - 1);
    }
}

/// Matching with one more occurrence is matching with the others first.
pub proof fn lemma_add_all_push(
    regions: Seq<Region>,
    line: int,
    w: int,
    remotes: Seq<Location>,
    remote: Location,
)
    ensures
        add_all(regions, line, w, remotes.push(remote)) == add_window(
            add_all(regions, line, w, remotes),
            line,
            w,
            remote,
        ),
{
    lemma_add_occurrences_prefix(
        regions,
        line,
        w,
        remotes.push(remote),
        remotes,
        remotes.len() as int,
    );
}

/// The occurrences among `remotes` that lie in `file`, in their order.
pub open spec fn located_in(remotes: Seq<Location>, file: int) -> Seq<Location> {
    remotes.filter(|r: Location| r.file == file)
}

/// Matching a window with remote occurrences changes the regions against
/// one file as matching it with the occurrences in that file alone does.
pub proof fn lemma_occurrences_against(
    regions: Seq<Region>,
    line: int,
    w: int,
    remotes: Seq<Location>,
    n: int,
    file: int,
)
    requires
        aligned(regions, line, w),
        sorted_by_start(regions),
        separated(regions),
        w >= 0,
        1 <= line,
        0 <= n <= remotes.len(),
        forall|j: int| 0 <= j < remotes.len() ==> 1 <= (#[trigger] remotes[j]).line <= MAX_LINES,
    ensures
        against(add_occurrences(regions, line, w, remotes, n), file) == add_all(
            against(regions, file),
            line,
            w,
            located_in(remotes.take(n), file),
        ),
    decreases n,
{
    let pred = |r: Location| r.file == file;
    if n > 0 {
        let before = add_occurrences(regions, line, w, remotes, n - 1);
        let remote = remotes[n - 1];
        lemma_occurrences_against(regions, line, w, remotes, n - 1, file);
        lemma_add_occurrences_keeps(regions, line, w, remotes, n - 1);
        lemma_add_occurrences_separated(regions, line, w, remotes, n - 1);
        lemma_window_against(before, line, w, remote, file);
        assert(remotes.take(n) =~= remotes.take(n - 1).push(remote));
        remotes.take(n - 1).lemma_filter_push(remote, pred);
        if remote.file == file {
            lemma_add_all_push(
                against(regions, file),
                line,
                w,
                located_in(remotes.take(n - 1), file),
                remote,
            );
        }
    } else {
        reveal(Seq::filter);
        assert(remotes.take(0) =~= Seq::<Location>::empty());
    }
}

/// The regions of a file against `file` alone: its candidates in order,
/// each matched with the occurrences of its digest in `file`.
pub open spec fn pair_merged(
    candidates: Seq<CandidateView>,
    index: HashIndex,
    file: int,
    w: int,
) -> Seq<Region>
    decreases candidates.len(),
{
    if candidates.len() == 0 {
        Seq::empty()
    } else {
        add_all(
            pair_merged(candidates.drop_last(), index, file, w),
            candidates.last().line,
            w,
            located_in(index.occurrences(candidates.last().hash), file),
        )
    }
}

/// The merged regions against one file are what merging against that file
/// alone gives.
pub proof fn lemma_merged_against(
    candidates: Seq<CandidateView>,
    index: HashIndex,
    w: int,
    n: int,
    file: int,
)
    requires
        ordered(candidates),
        index.bounded(),
        w >= 0,
        0 <= n <= candidates.len(),
    ensures
        against(merged(candidates, index, w, n), file) == pair_merged(
            candidates.take(n),
            index,
            file,
            w,
        ),
    decreases n,
{
    if n > 0 {
        let c = candidates[n - 1];
        let remotes = index.occurrences(c.hash);
        let before = merged(candidates, index, w, n - 1);
        lemma_merged_against(candidates, index, w, n - 1, file);
        lemma_merged_keeps(candidates, index, w, n - 1);
        lemma_merged_separated(candidates, index, w, n - 1);
        if n > 1 {
            let earlier = candidates[n - 2];
        }
        assert(aligned(before, c.line, w));
        assert forall|j: int| 0 <= j < remotes.len() implies 1 <= (#[trigger] remotes[j]).line
            <= MAX_LINES by {
            assert(remotes[j] == index.occurrences(c.hash)[j]);
        }
        lemma_occurrences_against(before, c.line, w, remotes, remotes.len() as int, file);
        assert(remotes.take(remotes.len() as int) =~= remotes);
        assert(candidates.take(n).drop_last() =~= candidates.take(n - 1));
    } else {
        reveal(Seq::filter);
        assert(candidates.take(0) =~= Seq::<CandidateView>::empty());
    }
}

/// Whether the digest of a candidate occurs in `file`.
pub open spec fn occurs_in(index: HashIndex, file: int, c: CandidateView) -> bool {
    located_in(index.occurrences(c.hash), file).len() > 0
}

/// Candidates whose digest does not occur in a file make no region against
/// it: merging against the file needs the others only.
pub proof fn lemma_pair_merged_relevant(
    candidates: Seq<CandidateView>,
    index: HashIndex,
    file: int,
    w: int,
)
    ensures
        pair_merged(candidates, index, file, w) == pair_merged(
            candidates.filter(|c: CandidateView| occurs_in(index, file, c)),
            index,
            file,
            w,
        ),
    decreases candidates.len(),
{
    reveal(Seq::filter);
    let pred = |c: CandidateView| occurs_in(index, file, c);
    if candidates.len() > 0 {
        let rest = candidates.drop_last();
        lemma_pair_merged_relevant(rest, index, file, w);
        if pred(candidates.last()) {
            let kept = rest.filter(pred).push(candidates.last());
            assert(kept.drop_last() =~= rest.filter(pred));
        }
    }
}

/// Whether the regions all point at `file`.
pub open spec fn all_against(regions: Seq<Region>, file: int) -> bool {
    forall|k: int| 0 <= k < regions.len() ==> (#[trigger] regions[k]).file == file
}

/// Whether two lists of occurrences, one in each of two files, name the same
/// lines in the same order.
pub open spec fn same_lines(first: Seq<Location>, f1: int, second: Seq<Location>, f2: int) -> bool {
    &&& first.len() == second.len()
    &&& forall|j: int|
        0 <= j < first.len() ==> (#[trigger] first[j]).file == f1 && second[j].file == f2
            && first[j].line == second[j].line
}

/// The first fit does not depend on which file the regions and the window
/// are against, as long as it is the same for all.
proof fn lemma_first_fit_renamed(
    regions: Seq<Region>,
    start: int,
    end: int,
    f1: int,
    f2: int,
    from: int,
)
    requires
        all_against(regions, f1),
        0 <= from <= regions.len(),
    ensures
        first_fit_from(regions, start, end, f1, from) == first_fit_from(
            pointed_at(regions, f2),
            start,
            end,
            f2,
            from,
        ),
    decreases regions.len() - from,
{
    if from < regions.len() {
        let m = regions[from];
        lemma_first_fit_renamed(regions, start, end, f1, f2, from + 1);
    }
}

/// Matching a window does not depend on which file the regions and the
/// remote occurrence are in, as long as it is the same for all.
proof fn lemma_add_window_renamed(
    regions: Seq<Region>,
    line: int,
    w: int,
    r1: Location,
    r2: Location,
)
    requires
        all_against(regions, r1.file as int),
        r1.line == r2.line,
    ensures
        all_against(add_window(regions, line, w, r1), r1.file as int),
        pointed_at(add_window(regions, line, w, r1), r2.file as int) == add_window(
            pointed_at(regions, r2.file as int),
            line,
            w,
            r2,
        ),
{
    lemma_first_fit_renamed(regions, line, line + w, r1.file as int, r2.file as int, 0);
    lemma_first_fit(regions, line, line + w, r1.file as int, 0);
    let i = first_fit(regions, line, line + w, r1.file as int);
    if i < regions.len() {
        let m = regions[i];
    }
    assert(pointed_at(add_window(regions, line, w, r1), r2.file as int) =~= add_window(
        pointed_at(regions, r2.file as int),
        line,
        w,
        r2,
    ));
    let after = add_window(regions, line, w, r1);
    assert forall|k: int| 0 <= k < after.len() implies (#[trigger] after[k]).file == r1.file by {
        if k < regions.len() {
            let m = regions[k];
        }
    }
}

/// Matching a window with occurrences does not depend on which file the
/// regions and the occurrences are in, as long as it is the same for all.
proof fn lemma_add_occurrences_renamed(
    regions: Seq<Region>,
    line: int,
    w: int,
    first: Seq<Location>,
    f1: int,
    second: Seq<Location>,
    f2: int,
    n: int,
)
    requires
        all_against(regions, f1),
        same_lines(first, f1, second, f2),
        0 <= n <= first.len(),
    ensures
        all_against(add_occurrences(regions, line, w, first, n), f1),
        pointed_at(add_occurrences(regions, line, w, first, n), f2) == add_occurrences(
            pointed_at(regions, f2),
            line,
            w,
            second,
            n,
        ),
    decreases n,
{
    if n > 0 {
        lemma_add_occurrences_renamed(regions, line, w, first, f1, second, f2, n - 1);
        let r1 = first[n - 1];
        lemma_add_window_renamed(
            add_occurrences(regions, line, w, first, n - 1),
            line,
            w,
            r1,
            second[n - 1],
        );
    }
}

/// Merging against one file does not depend on the id of that file: two
/// indexes that hold the same lines for it, each under its own file id, give
/// the same regions, each with its own file id.
pub proof fn lemma_pair_merged_renamed(
    candidates: Seq<CandidateView>,
    i1: HashIndex,
    f1: int,
    i2: HashIndex,
    f2: int,
    w: int,
)
    requires
        forall|h: Seq<char>| #[trigger]
            same_lines(
                located_in(i1.occurrences(h), f1),
                f1,
                located_in(i2.occurrences(h), f2),
                f2,
            ),
    ensures
        all_against(pair_merged(candidates, i1, f1, w), f1),
        pointed_at(pair_merged(candidates, i1, f1, w), f2) == pair_merged(candidates, i2, f2, w),
    decreases candidates.len(),
{
    if candidates.len() > 0 {
        let c = candidates.last();
        lemma_pair_merged_renamed(candidates.drop_last(), i1, f1, i2, f2, w);
        let first = located_in(i1.occurrences(c.hash), f1);
        let second = located_in(i2.occurrences(c.hash), f2);
        assert(same_lines(first, f1, second, f2));
        lemma_add_occurrences_renamed(
            pair_merged(candidates.drop_last(), i1, f1, w),
            c.line,
            w,
            first,
            f1,
            second,
            f2,
            first.len() as int,
        );
    } else {
        assert(pointed_at(Seq::<Region>::empty(), f2) =~= Seq::<Region>::empty());
    }
}

/// The locations that the windows of a file add under a digest do not depend
/// on the id of the file but for the id itself.
proof fn lemma_window_locations_renamed(
    f1: usize,
    f2: usize,
    lines: Seq<Seq<char>>,
    w: int,
    key: Seq<char>,
    n: int,
)
    ensures
        same_lines(
            window_locations(f1, lines, w, key, n),
            f1 as int,
            window_locations(f2, lines, w, key, n),
            f2 as int,
        ),
    decreases n,
{
    if n > 0 {
        lemma_window_locations_renamed(f1, f2, lines, w, key, n - 1);
    }
}

/// The occurrences of a digest in one file of a walk are the locations that
/// this file adds, and those that it adds once the walk has come to it.
proof fn lemma_scanned_of_file(entries: Seq<FileEntry>, w: int, key: Seq<char>, n: int, e: int)
    requires
        0 <= e < entries.len(),
        !entries[e].is_dir,
        0 <= n <= entries.len(),
        scanned_files(entries, entries.len() as int).len() <= usize::MAX,
    ensures
        located_in(scanned_locations(entries, w, key, n), file_id(entries, e)) == if e < n {
            entry_locations(file_id(entries, e) as usize, entries[e], w, key)
        } else {
            Seq::empty()
        },
    decreases n,
{
    let file = file_id(entries, e);
    let pred = |r: Location| r.file == file;
    if n > 0 {
        lemma_scanned_of_file(entries, w, key, n - 1, e);
        let before = scanned_locations(entries, w, key, n - 1);
        if !entries[n - 1].is_dir {
            let id = file_id(entries, n - 1);
            lemma_file_ids(entries, n - 1, entries.len() as int);
            let added = entry_locations(id as usize, entries[n - 1], w, key);
            Seq::filter_distributes_over_add(before, added, pred);
            if readable_lines(entries[n - 1]) is Some {
                let lines = readable_lines(entries[n - 1])->0;
                lemma_window_locations(
                    id as usize,
                    lines,
                    w,
                    key,
                    window_count(lines.len() as int, w),
                );
            }
            if n - 1 == e {
                lemma_filter_keeps_all(added, pred);
                assert(Seq::<Location>::empty() + added =~= added);
            } else {
                lemma_file_ids_differ(entries, n - 1, e);
                lemma_filter_drops_all(added, pred);
                assert(before.filter(pred) + Seq::<Location>::empty() =~= before.filter(pred));
            }
        }
    } else {
        reveal(Seq::filter);
    }
}

/// In the indexes of two walks, a file with the same lines in both has the
/// same occurrences of every digest, line by line, each under its own id.
proof fn lemma_same_file_same_lines(
    first: Seq<FileEntry>,
    second: Seq<FileEntry>,
    w: int,
    i1: CpdIndex,
    i2: CpdIndex,
    e1: int,
    e2: int,
    key: Seq<char>,
)
    requires
        i1.is_index_of(first, w),
        i2.is_index_of(second, w),
        0 <= e1 < first.len(),
        0 <= e2 < second.len(),
        !first[e1].is_dir,
        !second[e2].is_dir,
        readable_lines(first[e1]) == readable_lines(second[e2]),
    ensures
        same_lines(
            located_in(i1.lines.occurrences(key), file_id(first, e1)),
            file_id(first, e1),
            located_in(i2.lines.occurrences(key), file_id(second, e2)),
            file_id(second, e2),
        ),
{
    let f1 = file_id(first, e1);
    let f2 = file_id(second, e2);
    assert(texts(i1.files@).len() == scanned_files(first, first.len() as int).len());
    assert(texts(i2.files@).len() == scanned_files(second, second.len() as int).len());
    lemma_file_ids(first, e1, first.len() as int);
    lemma_file_ids(second, e2, second.len() as int);
    lemma_scanned_of_file(first, w, key, first.len() as int, e1);
    lemma_scanned_of_file(second, w, key, second.len() as int, e2);
    assert(i1.lines.occurrences(key) == scanned_locations(first, w, key, first.len() as int));
    assert(i2.lines.occurrences(key) == scanned_locations(second, w, key, second.len() as int));
    if readable_lines(first[e1]) is Some {
        let lines = readable_lines(first[e1])->0;
        lemma_window_locations_renamed(
            f1 as usize,
            f2 as usize,
            lines,
            w,
            key,
            window_count(lines.len() as int, w),
        );
    }
}

/// What a filter keeps of an ordered list of candidates is ordered.
proof fn lemma_filter_ordered(candidates: Seq<CandidateView>, pred: spec_fn(CandidateView) -> bool)
    requires
        ordered(candidates),
    ensures
        ordered(candidates.filter(pred)),
{
    let kept = candidates.filter(pred);
    assert forall|a: int| 0 <= a < kept.len() implies 1 <= (#[trigger] kept[a]).line
        <= MAX_LINES by {
        lemma_filter_source(candidates, pred, a);
        let p = choose|p: int| 0 <= p < candidates.len() && #[trigger] candidates[p] == kept[a];
    }
    assert forall|a: int, b: int| 0 <= a < b < kept.len() implies (#[trigger] kept[a]).line < (
    #[trigger] kept[b]).line by {
        lemma_filter_keeps_order(candidates, pred, a, b);
    }
}

/// What two walks have to share for the regions of one file against another
/// to be compared: in each walk the two files are different files, and each
/// of the two has the same lines in both walks.
pub open spec fn same_pair(
    first: Seq<FileEntry>,
    second: Seq<FileEntry>,
    ea1: int,
    eb1: int,
    ea2: int,
    eb2: int,
) -> bool {
    &&& 0 <= ea1 < first.len() && 0 <= eb1 < first.len() && ea1 != eb1
    &&& 0 <= ea2 < second.len() && 0 <= eb2 < second.len() && ea2 != eb2
    &&& !first[ea1].is_dir && !first[eb1].is_dir
    &&& !second[ea2].is_dir && !second[eb2].is_dir
    &&& readable_lines(first[ea1]) == readable_lines(second[ea2])
    &&& readable_lines(first[eb1]) == readable_lines(second[eb2])
}

/// A candidate of the first file whose digest occurs in the second file is
/// such a candidate in every walk that holds the two files.
proof fn lemma_relevant_transfers(
    first: Seq<FileEntry>,
    second: Seq<FileEntry>,
    w: int,
    i1: CpdIndex,
    i2: CpdIndex,
    c1: Seq<CandidateView>,
    c2: Seq<CandidateView>,
    ea1: int,
    eb1: int,
    ea2: int,
    eb2: int,
    x: CandidateView,
)
    requires
        i1.is_index_of(first, w),
        i2.is_index_of(second, w),
        same_pair(first, second, ea1, eb1, ea2, eb2),
        is_candidate_list(i1.lines, file_id(first, ea1) as usize, c1),
        is_candidate_list(i2.lines, file_id(second, ea2) as usize, c2),
        c1.filter(|c: CandidateView| occurs_in(i1.lines, file_id(first, eb1), c)).contains(x),
    ensures
        c2.filter(|c: CandidateView| occurs_in(i2.lines, file_id(second, eb2), c)).contains(x),
{
    let a1 = file_id(first, ea1);
    let b1 = file_id(first, eb1);
    let a2 = file_id(second, ea2);
    let b2 = file_id(second, eb2);
    let rel1 = |c: CandidateView| occurs_in(i1.lines, b1, c);
    let rel2 = |c: CandidateView| occurs_in(i2.lines, b2, c);
    let kept = c1.filter(rel1);
    let k = choose|k: int| 0 <= k < kept.len() && kept[k] == x;
    lemma_filter_source(c1, rel1, k);
    c1.lemma_filter_pred(rel1, k);
    let p = choose|p: int| 0 <= p < c1.len() && #[trigger] c1[p] == kept[k];
    assert(is_candidate(i1.lines, a1 as usize, c1[p].line as usize, c1[p].hash));
    lemma_file_ids(first, ea1, first.len() as int);
    lemma_file_ids(second, ea2, second.len() as int);
    lemma_file_ids(second, eb2, second.len() as int);
    assert(texts(i1.files@).len() == scanned_files(first, first.len() as int).len());
    assert(texts(i2.files@).len() == scanned_files(second, second.len() as int).len());
    let here = Location { file: a1 as usize, line: x.line as usize };
    lemma_location_of_file(first, w, i1, ea1, x.hash, here);
    lemma_window_is_recorded(second, w, second.len() as int, ea2, x.line - 1);
    let there = Location { file: a2 as usize, line: x.line as usize };
    let occ2 = i2.lines.occurrences(x.hash);
    assert(occ2 == scanned_locations(second, w, x.hash, second.len() as int));
    assert(occ2.contains(there));
    lemma_same_file_same_lines(first, second, w, i1, i2, eb1, eb2, x.hash);
    let in_b2 = located_in(occ2, b2);
    assert(in_b2.len() > 0);
    lemma_filter_source(occ2, |r: Location| r.file == b2, 0);
    let q = choose|q: int| 0 <= q < occ2.len() && #[trigger] occ2[q] == in_b2[0];
    lemma_file_ids_differ(second, ea2, eb2);
    let t = choose|t: int| 0 <= t < occ2.len() && occ2[t] == there;
    assert(t != q);
    assert(is_candidate(i2.lines, a2 as usize, x.line as usize, x.hash));
    assert(c2.contains(CandidateView { line: x.line as usize as int, hash: x.hash }));
    let k2 = choose|k2: int| 0 <= k2 < c2.len() && c2[k2] == x;
    assert(rel2(c2[k2]));
    c2.lemma_filter_contains(rel2, k2);
}

/// Locality: the regions of one file against another file depend on the
/// lines of the two files alone. Two walks that both hold the two files, in
/// whatever order, under whatever file ids and among whatever other files,
/// report the same regions of the first file against the second: the same
/// local and remote spans, in the same order.
pub proof fn lemma_locality(
    first: Seq<FileEntry>,
    second: Seq<FileEntry>,
    w: int,
    i1: CpdIndex,
    i2: CpdIndex,
    c1: Seq<CandidateView>,
    c2: Seq<CandidateView>,
    ea1: int,
    eb1: int,
    ea2: int,
    eb2: int,
)
    requires
        w >= 0,
        i1.is_index_of(first, w),
        i2.is_index_of(second, w),
        same_pair(first, second, ea1, eb1, ea2, eb2),
        is_candidate_list(i1.lines, file_id(first, ea1) as usize, c1),
        is_candidate_list(i2.lines, file_id(second, ea2) as usize, c2),
    ensures
        pointed_at(
            against(file_regions(file_id(first, ea1), c1, i1.lines, w), file_id(first, eb1)),
            file_id(second, eb2),
        ) == against(file_regions(file_id(second, ea2), c2, i2.lines, w), file_id(second, eb2)),
{
    let a1 = file_id(first, ea1);
    let b1 = file_id(first, eb1);
    let a2 = file_id(second, ea2);
    let b2 = file_id(second, eb2);
    let rel1 = |c: CandidateView| occurs_in(i1.lines, b1, c);
    let rel2 = |c: CandidateView| occurs_in(i2.lines, b2, c);
    lemma_file_ids_differ(first, ea1, eb1);
    lemma_file_ids_differ(second, ea2, eb2);
    lemma_against_reported(a1, b1, c1, i1.lines, w);
    lemma_against_reported(a2, b2, c2, i2.lines, w);
    lemma_merged_against(c1, i1.lines, w, c1.len() as int, b1);
    lemma_merged_against(c2, i2.lines, w, c2.len() as int, b2);
    assert(c1.take(c1.len() as int) =~= c1);
    assert(c2.take(c2.len() as int) =~= c2);
    lemma_pair_merged_relevant(c1, i1.lines, b1, w);
    lemma_pair_merged_relevant(c2, i2.lines, b2, w);
    lemma_filter_ordered(c1, rel1);
    lemma_filter_ordered(c2, rel2);
    assert forall|x: CandidateView| c1.filter(rel1).contains(x) <==> c2.filter(rel2).contains(
        x,
    ) by {
        if c1.filter(rel1).contains(x) {
            lemma_relevant_transfers(first, second, w, i1, i2, c1, c2, ea1, eb1, ea2, eb2, x);
        }
        if c2.filter(rel2).contains(x) {
            lemma_relevant_transfers(second, first, w, i2, i1, c2, c1, ea2, eb2, ea1, eb1, x);
        }
    }
    lemma_ordered_lists_equal(c1.filter(rel1), c2.filter(rel2));
    assert forall|h: Seq<char>| #[trigger]
        same_lines(
            located_in(i1.lines.occurrences(h), b1),
            b1,
            located_in(i2.lines.occurrences(h), b2),
            b2,
        ) by {
        lemma_same_file_same_lines(first, second, w, i1, i2, eb1, eb2, h);
    }
    lemma_pair_merged_renamed(c1.filter(rel1), i1.lines, b1, i2.lines, b2, w);
}

/// The reported regions of a file against another file are its merged
/// regions against that file: none of them is a self-match.
proof fn lemma_against_reported(
    file: int,
    other: int,
    candidates: Seq<CandidateView>,
    index: HashIndex,
    w: int,
)
    requires
        file != other,
    ensures
        against(file_regions(file, candidates, index, w), other) == against(
            merged(candidates, index, w, candidates.len() as int),
            other,
        ),
{
    let all = merged(candidates, index, w, candidates.len() as int);
    lemma_filter_twice(all, |m: Region| !is_self_match(m, file), |m: Region| m.file == other);
}

/// Dropping the self-matches of regions against the own file does not depend
/// on the id of that file.
proof fn lemma_self_matches_renamed(regions: Seq<Region>, f1: int, f2: int)
    requires
        all_against(regions, f1),
    ensures
        pointed_at(regions.filter(|m: Region| !is_self_match(m, f1)), f2) == pointed_at(
            regions,
            f2,
        ).filter(|m: Region| !is_self_match(m, f2)),
    decreases regions.len(),
{
    reveal(Seq::filter);
    let keep1 = |m: Region| !is_self_match(m, f1);
    let keep2 = |m: Region| !is_self_match(m, f2);
    if regions.len() > 0 {
        let rest = regions.drop_last();
        let m = regions.last();
        assert forall|k: int| 0 <= k < rest.len() implies (#[trigger] rest[k]).file == f1 by {
            assert(rest[k] == regions[k]);
        }
        lemma_self_matches_renamed(rest, f1, f2);
        assert(pointed_at(regions, f2).drop_last() =~= pointed_at(rest, f2));
        if keep1(m) {
            assert(pointed_at(rest.filter(keep1).push(m), f2) =~= pointed_at(
                rest.filter(keep1),
                f2,
            ).push(pointed_at(regions, f2).last()));
        }
    } else {
        assert(pointed_at(regions.filter(keep1), f2) =~= pointed_at(regions, f2).filter(keep2));
    }
}

/// Whether two walks hold the same files: each file of one walk has its
/// partner in the other, a file with the same lines, and the partner of the
/// partner is the file itself.
pub open spec fn same_files(
    first: Seq<FileEntry>,
    second: Seq<FileEntry>,
    to: spec_fn(int) -> int,
    back: spec_fn(int) -> int,
) -> bool {
    &&& forall|e: int|
        0 <= e < first.len() && !first[e].is_dir ==> {
            &&& 0 <= #[trigger] to(e) < second.len()
            &&& !second[to(e)].is_dir
            &&& readable_lines(second[to(e)]) == readable_lines(first[e])
            &&& back(to(e)) == e
        }
    &&& forall|e: int|
        0 <= e < second.len() && !second[e].is_dir ==> {
            &&& 0 <= #[trigger] back(e) < first.len()
            &&& !first[back(e)].is_dir
            &&& readable_lines(first[back(e)]) == readable_lines(second[e])
            &&& to(back(e)) == e
        }
}

/// A window that is duplicated in one walk is duplicated in every walk that
/// holds the same files.
proof fn lemma_candidate_transfers(
    first: Seq<FileEntry>,
    second: Seq<FileEntry>,
    to: spec_fn(int) -> int,
    back: spec_fn(int) -> int,
    w: int,
    i1: CpdIndex,
    i2: CpdIndex,
    ea: int,
    line: usize,
    hash: Seq<char>,
)
    requires
        i1.is_index_of(first, w),
        i2.is_index_of(second, w),
        same_files(first, second, to, back),
        0 <= ea < first.len(),
        !first[ea].is_dir,
        is_candidate(i1.lines, file_id(first, ea) as usize, line, hash),
    ensures
        is_candidate(i2.lines, file_id(second, to(ea)) as usize, line, hash),
{
    let n1 = first.len() as int;
    let n2 = second.len() as int;
    let a1 = file_id(first, ea);
    let a2 = file_id(second, to(ea));
    let occ1 = i1.lines.occurrences(hash);
    let occ2 = i2.lines.occurrences(hash);
    assert(occ1 == scanned_locations(first, w, hash, n1));
    assert(occ2 == scanned_locations(second, w, hash, n2));
    assert(texts(i1.files@).len() == scanned_files(first, n1).len());
    assert(texts(i2.files@).len() == scanned_files(second, n2).len());
    lemma_file_ids(first, ea, n1);
    lemma_file_ids(second, to(ea), n2);
    let here = Location { file: a1 as usize, line };
    let t = choose|t: int| 0 <= t < occ1.len() && occ1[t] == here;
    let u = if t == 0 {
        1int
    } else {
        0int
    };
    assert(occ1[u] != occ1[t]);
    let other = occ1[u];
    lemma_location_is_window(first, w, hash, n1, u);
    let e = choose|e: int| 0 <= e < n1 && #[trigger] is_window_of(first, e, w, hash, other);
    lemma_location_of_file(first, w, i1, ea, hash, here);
    lemma_window_is_recorded(second, w, n2, to(ea), line - 1);
    lemma_window_is_recorded(second, w, n2, to(e), other.line - 1);
    lemma_file_ids(second, to(e), n2);
    let there = Location { file: a2 as usize, line };
    let partner = Location { file: file_id(second, to(e)) as usize, line: other.line };
    if to(e) != to(ea) {
        lemma_file_ids_differ(second, to(e), to(ea));
    }
    assert(there != partner);
    let p = choose|p: int| 0 <= p < occ2.len() && occ2[p] == there;
    let q = choose|q: int| 0 <= q < occ2.len() && occ2[q] == partner;
    assert(p != q);
}

/// Idempotence under reordering, for the regions of a file against itself:
/// two walks that hold the same files, in whatever order, report the same
/// regions of a file against itself.
pub proof fn lemma_self_locality(
    first: Seq<FileEntry>,
    second: Seq<FileEntry>,
    to: spec_fn(int) -> int,
    back: spec_fn(int) -> int,
    w: int,
    i1: CpdIndex,
    i2: CpdIndex,
    c1: Seq<CandidateView>,
    c2: Seq<CandidateView>,
    ea: int,
)
    requires
        w >= 0,
        i1.is_index_of(first, w),
        i2.is_index_of(second, w),
        same_files(first, second, to, back),
        0 <= ea < first.len(),
        !first[ea].is_dir,
        is_candidate_list(i1.lines, file_id(first, ea) as usize, c1),
        is_candidate_list(i2.lines, file_id(second, to(ea)) as usize, c2),
    ensures
        pointed_at(
            against(file_regions(file_id(first, ea), c1, i1.lines, w), file_id(first, ea)),
            file_id(second, to(ea)),
        ) == against(
            file_regions(file_id(second, to(ea)), c2, i2.lines, w),
            file_id(second, to(ea)),
        ),
{
    let a1 = file_id(first, ea);
    let a2 = file_id(second, to(ea));
    assert forall|x: CandidateView| c1.contains(x) <==> c2.contains(x) by {
        if c1.contains(x) {
            let k = choose|k: int| 0 <= k < c1.len() && c1[k] == x;
            assert(is_candidate(i1.lines, a1 as usize, c1[k].line as usize, c1[k].hash));
            lemma_candidate_transfers(
                first,
                second,
                to,
                back,
                w,
                i1,
                i2,
                ea,
                x.line as usize,
                x.hash,
            );
            assert(c2.contains(CandidateView { line: x.line as usize as int, hash: x.hash }));
        }
        if c2.contains(x) {
            let k = choose|k: int| 0 <= k < c2.len() && c2[k] == x;
            assert(is_candidate(i2.lines, a2 as usize, c2[k].line as usize, c2[k].hash));
            lemma_candidate_transfers(
                second,
                first,
                back,
                to,
                w,
                i2,
                i1,
                to(ea),
                x.line as usize,
                x.hash,
            );
            assert(c1.contains(CandidateView { line: x.line as usize as int, hash: x.hash }));
        }
    }
    lemma_ordered_lists_equal(c1, c2);
    let m1 = merged(c1, i1.lines, w, c1.len() as int);
    let m2 = merged(c2, i2.lines, w, c2.len() as int);
    let self1 = |m: Region| !is_self_match(m, a1);
    let self2 = |m: Region| !is_self_match(m, a2);
    let own1 = |m: Region| m.file == a1;
    let own2 = |m: Region| m.file == a2;
    lemma_filter_commutes(m1, self1, own1);
    lemma_filter_commutes(m2, self2, own2);
    lemma_merged_against(c1, i1.lines, w, c1.len() as int, a1);
    lemma_merged_against(c2, i2.lines, w, c2.len() as int, a2);
    assert(c1.take(c1.len() as int) =~= c1);
    assert(c2.take(c2.len() as int) =~= c2);
    assert forall|h: Seq<char>| #[trigger]
        same_lines(
            located_in(i1.lines.occurrences(h), a1),
            a1,
            located_in(i2.lines.occurrences(h), a2),
            a2,
        ) by {
        lemma_same_file_same_lines(first, second, w, i1, i2, ea, to(ea), h);
    }
    lemma_pair_merged_renamed(c1, i1.lines, a1, i2.lines, a2, w);
    lemma_self_matches_renamed(pair_merged(c1, i1.lines, a1, w), a1, a2);
}

} // verus!
