//! What holds of every run: the laws that relate the window hasher, the hash
//! index and the region merger.

use crate::candidates::{
    candidate_views, is_candidate, is_candidate_list, is_dup_map, ordered, Candidate, CandidateView,
};
use crate::index::{
    entry_locations, file_id, file_locations, lemma_window_locations, readable_lines, scanned_files,
    scanned_locations, trimmed_window, window_count, window_is_indexed, window_key,
    window_locations, window_text, CpdIndex, FileEntry, HashIndex, Location,
};
use crate::region::{
    add_occurrences, add_window, candidates_of, file_regions, first_fit, is_self_match,
    lemma_first_fit, merged, Region,
};
use crate::report::{file_report, is_report_of, report, CpdReportView};
use crate::text::texts;
use vstd::prelude::*;

verus! {

/// Length filter: a file none of whose windows has a text of
/// `MIN_WINDOW_LENGTH` characters adds no location to the index, under any
/// digest, however often its windows repeat.
pub proof fn lemma_short_windows_add_nothing(
    file: usize,
    lines: Seq<Seq<char>>,
    w: int,
    key: Seq<char>,
)
    requires
        forall|k: int|
            0 <= k < window_count(lines.len() as int, w) ==> !#[trigger] window_is_indexed(
                lines,
                k,
                w,
            ),
    ensures
        file_locations(file, lines, w, key) == Seq::<Location>::empty(),
{
    lemma_no_window_added(file, lines, w, key, window_count(lines.len() as int, w));
}

/// The first `n` windows add nothing if none of them is long enough.
proof fn lemma_no_window_added(file: usize, lines: Seq<Seq<char>>, w: int, key: Seq<char>, n: int)
    requires
        forall|k: int| 0 <= k < n ==> !#[trigger] window_is_indexed(lines, k, w),
    ensures
        window_locations(file, lines, w, key, n) == Seq::<Location>::empty(),
    decreases n,
{
    if n > 0 {
        lemma_no_window_added(file, lines, w, key, n - 1);
        assert(!window_is_indexed(lines, n - 1, w));
    }
}

/// Whether some region points at `file` and covers the local lines
/// `start..end`.
pub open spec fn covered(regions: Seq<Region>, file: int, start: int, end: int) -> bool {
    exists|k: int|
        0 <= k < regions.len() && (#[trigger] regions[k]).file == file && regions[k].start
            <= start && end <= regions[k].end
}

/// Regions only grow: what is covered stays covered when one more window is
/// matched, and the matched window is covered afterwards.
pub proof fn lemma_add_window_covers(
    regions: Seq<Region>,
    line: int,
    w: int,
    remote: Location,
    file: int,
    start: int,
    end: int,
)
    requires
        w >= 0,
    ensures
        covered(add_window(regions, line, w, remote), remote.file as int, line, line + w),
        covered(regions, file, start, end) ==> covered(
            add_window(regions, line, w, remote),
            file,
            start,
            end,
        ),
{
    lemma_first_fit(regions, line, line + w, remote.file as int, 0);
    let after = add_window(regions, line, w, remote);
    let i = first_fit(regions, line, line + w, remote.file as int);
    assert(after[i].file == remote.file && after[i].start <= line && line + w <= after[i].end);
    if covered(regions, file, start, end) {
        let k = choose|k: int|
            0 <= k < regions.len() && (#[trigger] regions[k]).file == file && regions[k].start
                <= start && end <= regions[k].end;
        assert(after[k].file == file && after[k].start <= start && end <= after[k].end);
    }
}

/// What is covered stays covered while a window is matched with further
/// remote occurrences, and each occurrence that was matched is covered.
pub proof fn lemma_add_occurrences_covers(
    regions: Seq<Region>,
    line: int,
    w: int,
    remotes: Seq<Location>,
    n: int,
    file: int,
    start: int,
    end: int,
)
    requires
        w >= 0,
        0 <= n <= remotes.len(),
    ensures
        covered(regions, file, start, end) ==> covered(
            add_occurrences(regions, line, w, remotes, n),
            file,
            start,
            end,
        ),
        forall|j: int|
            0 <= j < n ==> covered(
                add_occurrences(regions, line, w, remotes, n),
                (#[trigger] remotes[j]).file as int,
                line,
                line + w,
            ),
    decreases n,
{
    if n > 0 {
        let before = add_occurrences(regions, line, w, remotes, n - 1);
        lemma_add_occurrences_covers(regions, line, w, remotes, n - 1, file, start, end);
        lemma_add_window_covers(before, line, w, remotes[n - 1], file, start, end);
        assert forall|j: int| 0 <= j < n implies covered(
            add_occurrences(regions, line, w, remotes, n),
            (#[trigger] remotes[j]).file as int,
            line,
            line + w,
        ) by {
            lemma_add_window_covers(
                before,
                line,
                w,
                remotes[n - 1],
                remotes[j].file as int,
                line,
                line + w,
            );
        }
    }
}

/// Once candidate `c` is merged, every occurrence of its digest is covered:
/// some region points at the file of the occurrence and covers the window of
/// the candidate, whatever is merged afterwards.
pub proof fn lemma_merged_covers(
    candidates: Seq<CandidateView>,
    index: HashIndex,
    w: int,
    n: int,
    c: int,
    remote: Location,
)
    requires
        w >= 0,
        0 <= c < n <= candidates.len(),
        index.occurrences(candidates[c].hash).contains(remote),
    ensures
        covered(
            merged(candidates, index, w, n),
            remote.file as int,
            candidates[c].line,
            candidates[c].line + w,
        ),
    decreases n,
{
    let last = candidates[n - 1];
    let remotes = index.occurrences(last.hash);
    let before = merged(candidates, index, w, n - 1);
    if c == n - 1 {
        lemma_add_occurrences_covers(
            before,
            last.line,
            w,
            remotes,
            remotes.len() as int,
            remote.file as int,
            last.line,
            last.line + w,
        );
        let j = choose|j: int| 0 <= j < remotes.len() && remotes[j] == remote;
        assert(remotes[j].file == remote.file);
    } else {
        lemma_merged_covers(candidates, index, w, n - 1, c, remote);
        lemma_add_occurrences_covers(
            before,
            last.line,
            w,
            remotes,
            remotes.len() as int,
            remote.file as int,
            candidates[c].line,
            candidates[c].line + w,
        );
    }
}

/// A window that is duplicated is covered once its file is merged: if the
/// same digest has an occurrence at `line` of `file` and another occurrence
/// `remote`, then some merged region of `file` points at the file of
/// `remote` and covers the `w` lines from `line`.
pub proof fn lemma_duplicate_is_merged(
    index: HashIndex,
    file: usize,
    candidates: Seq<CandidateView>,
    w: int,
    hash: Seq<char>,
    line: usize,
    remote: Location,
)
    requires
        w >= 0,
        is_candidate_list(index, file, candidates),
        index.occurrences(hash).contains(Location { file, line }),
        index.occurrences(hash).contains(remote),
        remote != (Location { file, line }),
    ensures
        covered(
            merged(candidates, index, w, candidates.len() as int),
            remote.file as int,
            line as int,
            line + w,
        ),
{
    let occ = index.occurrences(hash);
    let here = Location { file, line };
    let a = choose|a: int| 0 <= a < occ.len() && occ[a] == here;
    let b = choose|b: int| 0 <= b < occ.len() && occ[b] == remote;
    assert(a != b);
    assert(is_candidate(index, file, line, hash));
    let cv = CandidateView { line: line as int, hash };
    assert(candidates.contains(cv));
    let c = choose|c: int| 0 <= c < candidates.len() && candidates[c] == cv;
    lemma_merged_covers(candidates, index, w, candidates.len() as int, c, remote);
}

/// A merged region that points at another file is reported: what the merged
/// regions of `file` cover against a different file, its reported regions
/// cover too.
pub proof fn lemma_other_file_is_kept(
    regions: Seq<Region>,
    file: int,
    other: int,
    start: int,
    end: int,
)
    requires
        covered(regions, other, start, end),
        other != file,
    ensures
        covered(regions.filter(|m: Region| !is_self_match(m, file)), other, start, end),
{
    let k = choose|k: int|
        0 <= k < regions.len() && (#[trigger] regions[k]).file == other && regions[k].start
            <= start && end <= regions[k].end;
    let pred = |m: Region| !is_self_match(m, file);
    regions.lemma_filter_contains(pred, k);
    let kept = regions.filter(pred);
    let q = choose|q: int| 0 <= q < kept.len() && kept[q] == regions[k];
    assert(kept[q].file == other && kept[q].start <= start && end <= kept[q].end);
}

/// A window that is duplicated in another file is reported: if the same
/// digest has an occurrence at `line` of `file` and one in a different file,
/// then some region of `file` points at that other file and covers the `w`
/// lines from `line`.
pub proof fn lemma_duplicate_is_covered(
    index: HashIndex,
    file: usize,
    candidates: Seq<CandidateView>,
    w: int,
    hash: Seq<char>,
    line: usize,
    remote: Location,
)
    requires
        w >= 0,
        is_candidate_list(index, file, candidates),
        index.occurrences(hash).contains(Location { file, line }),
        index.occurrences(hash).contains(remote),
        remote.file != file,
    ensures
        covered(
            file_regions(file as int, candidates, index, w),
            remote.file as int,
            line as int,
            line + w,
        ),
{
    lemma_duplicate_is_merged(index, file, candidates, w, hash, line, remote);
    lemma_other_file_is_kept(
        merged(candidates, index, w, candidates.len() as int),
        file as int,
        remote.file as int,
        line as int,
        line + w,
    );
}

/// File ids grow along the walk: a file found earlier has the smaller id,
/// and every id is below the number of files found in all.
pub proof fn lemma_file_ids(entries: Seq<FileEntry>, e: int, n: int)
    requires
        0 <= e < n <= entries.len(),
        !entries[e].is_dir,
    ensures
        file_id(entries, e) < file_id(entries, n),
    decreases n,
{
    if e < n - 1 {
        lemma_file_ids(entries, e, n - 1);
    }
}

/// Every window of a readable file that is long enough is in the index of
/// the walk, under its digest, at its 1-based line.
pub proof fn lemma_window_is_recorded(
    entries: Seq<FileEntry>,
    w: int,
    n: int,
    e: int,
    k: int,
)
    requires
        0 <= e < n <= entries.len(),
        !entries[e].is_dir,
        readable_lines(entries[e]) is Some,
        0 <= k < window_count(readable_lines(entries[e])->0.len() as int, w),
        window_is_indexed(readable_lines(entries[e])->0, k, w),
    ensures
        scanned_locations(
            entries,
            w,
            window_key(readable_lines(entries[e])->0, k, w),
            n,
        ).contains(Location { file: file_id(entries, e) as usize, line: (k + 1) as usize }),
    decreases n,
{
    let lines = readable_lines(entries[e])->0;
    let key = window_key(lines, k, w);
    let loc = Location { file: file_id(entries, e) as usize, line: (k + 1) as usize };
    let before = scanned_locations(entries, w, key, n - 1);
    let all = scanned_locations(entries, w, key, n);
    if e == n - 1 {
        let added = entry_locations(file_id(entries, e) as usize, entries[e], w, key);
        lemma_window_locations(
            file_id(entries, e) as usize,
            lines,
            w,
            key,
            window_count(lines.len() as int, w),
        );
        let p = choose|p: int| 0 <= p < added.len() && added[p] == loc;
        assert(all[before.len() + p] == loc);
    } else {
        lemma_window_is_recorded(entries, w, n - 1, e, k);
        let p = choose|p: int| 0 <= p < before.len() && before[p] == loc;
        assert(all[p] == loc);
    }
}

/// Symmetry: if the trimmed lines of a window of one file equal those of a
/// window of another file, and their joined text is long enough to be
/// indexed, then the report of each file has a region that covers its window
/// and points at the other file.
pub proof fn lemma_symmetry(
    entries: Seq<FileEntry>,
    w: int,
    index: CpdIndex,
    file_map: Seq<Vec<Candidate>>,
    ea: int,
    eb: int,
    i: int,
    j: int,
)
    requires
        w >= 1,
        index.is_index_of(entries, w),
        is_dup_map(index.lines, index.files.len() as int, file_map),
        0 <= ea < entries.len(),
        0 <= eb < entries.len(),
        ea != eb,
        !entries[ea].is_dir,
        !entries[eb].is_dir,
        readable_lines(entries[ea]) is Some,
        readable_lines(entries[eb]) is Some,
        0 <= i && i + w <= readable_lines(entries[ea])->0.len(),
        0 <= j && j + w <= readable_lines(entries[eb])->0.len(),
        trimmed_window(readable_lines(entries[ea])->0, i, w) == trimmed_window(
            readable_lines(entries[eb])->0,
            j,
            w,
        ),
        window_is_indexed(readable_lines(entries[ea])->0, i, w),
    ensures
        covered(
            file_regions(
                file_id(entries, ea),
                candidates_of(file_map, file_id(entries, ea)),
                index.lines,
                w,
            ),
            file_id(entries, eb),
            i + 1,
            i + 1 + w,
        ),
        covered(
            file_regions(
                file_id(entries, eb),
                candidates_of(file_map, file_id(entries, eb)),
                index.lines,
                w,
            ),
            file_id(entries, ea),
            j + 1,
            j + 1 + w,
        ),
{
    let n = entries.len() as int;
    let la = readable_lines(entries[ea])->0;
    let lb = readable_lines(entries[eb])->0;
    let a = file_id(entries, ea);
    let b = file_id(entries, eb);
    let key = window_key(la, i, w);
    assert(window_text(la, i, w) == window_text(lb, j, w));
    lemma_file_ids(entries, ea, n);
    lemma_file_ids(entries, eb, n);
    if ea < eb {
        lemma_file_ids(entries, ea, eb);
    } else {
        lemma_file_ids(entries, eb, ea);
    }
    lemma_window_is_recorded(entries, w, n, ea, i);
    lemma_window_is_recorded(entries, w, n, eb, j);
    let here = Location { file: a as usize, line: (i + 1) as usize };
    let there = Location { file: b as usize, line: (j + 1) as usize };
    assert(index.lines.occurrences(key) == scanned_locations(entries, w, key, n));
    assert(candidates_of(file_map, a) == candidate_views(file_map[a]@));
    assert(candidates_of(file_map, b) == candidate_views(file_map[b]@));
    lemma_duplicate_is_covered(
        index.lines,
        a as usize,
        candidates_of(file_map, a),
        w,
        key,
        (i + 1) as usize,
        there,
    );
    lemma_duplicate_is_covered(
        index.lines,
        b as usize,
        candidates_of(file_map, b),
        w,
        key,
        (j + 1) as usize,
        here,
    );
}

/// Two lists in strictly increasing line order that hold the same
/// candidates are the same list.
pub proof fn lemma_ordered_lists_equal(a: Seq<CandidateView>, b: Seq<CandidateView>)
    requires
        ordered(a),
        ordered(b),
        forall|c: CandidateView| a.contains(c) <==> b.contains(c),
    ensures
        a == b,
    decreases a.len(),
{
    if a.len() == 0 {
        if b.len() > 0 {
            assert(b.contains(b[0]));
        }
        assert(a =~= b);
    } else {
        assert(a.contains(a.last()));
        assert(b.contains(a.last()));
        let p = choose|p: int| 0 <= p < b.len() && b[p] == a.last();
        assert(b.contains(b.last()));
        assert(a.contains(b.last()));
        let q = choose|q: int| 0 <= q < a.len() && a[q] == b.last();
        assert(a[q].line <= a.last().line);
        assert(b[p].line <= b.last().line);
        assert(p == b.len() - 1);
        let x = a.drop_last();
        let y = b.drop_last();
        assert forall|c: CandidateView| x.contains(c) <==> y.contains(c) by {
            if x.contains(c) {
                let k = choose|k: int| 0 <= k < x.len() && x[k] == c;
                assert(a[k] == c);
                assert(a.contains(c));
                let m = choose|m: int| 0 <= m < b.len() && b[m] == c;
                assert(a[k].line < a.last().line);
                assert(y[m] == c);
            }
            if y.contains(c) {
                let k = choose|k: int| 0 <= k < y.len() && y[k] == c;
                assert(b[k] == c);
                assert(b.contains(c));
                let m = choose|m: int| 0 <= m < a.len() && a[m] == c;
                assert(b[k].line < b.last().line);
                assert(x[m] == c);
            }
        }
        lemma_ordered_lists_equal(x, y);
        assert(a =~= x.push(a.last()));
        assert(b =~= y.push(b.last()));
    }
}

/// The candidate map of a file is determined by the occurrences of the
/// digests: two indexes that agree on them have the same candidate list for
/// each file.
pub proof fn lemma_candidate_list_unique(
    first: HashIndex,
    second: HashIndex,
    file: usize,
    a: Seq<CandidateView>,
    b: Seq<CandidateView>,
)
    requires
        forall|h: Seq<char>| #[trigger] first.occurrences(h) == second.occurrences(h),
        is_candidate_list(first, file, a),
        is_candidate_list(second, file, b),
    ensures
        a == b,
{
    assert forall|c: CandidateView| a.contains(c) <==> b.contains(c) by {
        if a.contains(c) {
            let k = choose|k: int| 0 <= k < a.len() && a[k] == c;
            assert(is_candidate(first, file, a[k].line as usize, a[k].hash));
            assert(first.occurrences(c.hash) == second.occurrences(c.hash));
            assert(is_candidate(second, file, c.line as usize, c.hash));
        }
        if b.contains(c) {
            let k = choose|k: int| 0 <= k < b.len() && b[k] == c;
            assert(is_candidate(second, file, b[k].line as usize, b[k].hash));
            assert(first.occurrences(c.hash) == second.occurrences(c.hash));
            assert(is_candidate(first, file, c.line as usize, c.hash));
        }
    }
    lemma_ordered_lists_equal(a, b);
}

/// The merged regions depend on the index only through the occurrences of
/// the digests.
pub proof fn lemma_merged_same(
    candidates: Seq<CandidateView>,
    first: HashIndex,
    second: HashIndex,
    w: int,
    n: int,
)
    requires
        forall|h: Seq<char>| #[trigger] first.occurrences(h) == second.occurrences(h),
    ensures
        merged(candidates, first, w, n) == merged(candidates, second, w, n),
    decreases n,
{
    if n > 0 {
        lemma_merged_same(candidates, first, second, w, n - 1);
        assert(first.occurrences(candidates[n - 1].hash) == second.occurrences(
            candidates[n - 1].hash,
        ));
    }
}

/// The report depends on the index and on the candidate map only through the
/// paths of the files, the occurrences of the digests and the candidates of
/// each file.
pub proof fn lemma_report_same(
    files: Seq<Seq<char>>,
    first_map: Seq<Vec<Candidate>>,
    second_map: Seq<Vec<Candidate>>,
    first: HashIndex,
    second: HashIndex,
    w: int,
    n: int,
)
    requires
        forall|h: Seq<char>| #[trigger] first.occurrences(h) == second.occurrences(h),
        forall|f: int| 0 <= f < n ==> candidates_of(first_map, f) == candidates_of(second_map, f),
    ensures
        report(files, first_map, first, w, n) == report(files, second_map, second, w, n),
    decreases n,
{
    if n > 0 {
        lemma_report_same(files, first_map, second_map, first, second, w, n - 1);
        let candidates = candidates_of(first_map, n - 1);
        assert(candidates == candidates_of(second_map, n - 1));
        lemma_merged_same(candidates, first, second, w, candidates.len() as int);
    }
}

/// The report holds the regions of every file that has any: its entry for
/// the file is made of exactly the regions of the file, in their order, and
/// a file without regions has no entry.
pub proof fn lemma_report_holds(
    files: Seq<Seq<char>>,
    file_map: Seq<Vec<Candidate>>,
    index: HashIndex,
    w: int,
    n: int,
    file: int,
)
    requires
        0 <= file < n,
    ensures
        file_regions(file, candidates_of(file_map, file), index, w).len() > 0 <==> report(
            files,
            file_map,
            index,
            w,
            n,
        ).contains(
            file_report(files, file, file_regions(file, candidates_of(file_map, file), index, w)),
        ),
        forall|k: int|
            0 <= k < report(files, file_map, index, w, n).len() ==> (#[trigger] report(
                files,
                file_map,
                index,
                w,
                n,
            )[k]).matches.len() > 0,
    decreases n,
{
    let all = report(files, file_map, index, w, n);
    let earlier = report(files, file_map, index, w, n - 1);
    let regions = file_regions(file, candidates_of(file_map, file), index, w);
    let wanted = file_report(files, file, regions);
    let last = file_regions(n - 1, candidates_of(file_map, n - 1), index, w);
    if n - 1 > 0 {
        lemma_report_holds(files, file_map, index, w, n - 1, 0);
    }
    if file < n - 1 {
        lemma_report_holds(files, file_map, index, w, n - 1, file);
        if earlier.contains(wanted) {
            let k = choose|k: int| 0 <= k < earlier.len() && earlier[k] == wanted;
            assert(all[k] == wanted);
        }
        if all.contains(wanted) {
            let k = choose|k: int| 0 <= k < all.len() && all[k] == wanted;
            if k == earlier.len() {
                assert(wanted.matches.len() > 0);
            } else {
                assert(earlier[k] == wanted);
            }
        }
    } else {
        if regions.len() > 0 {
            assert(all[all.len() - 1] == wanted);
        }
        if all.contains(wanted) {
            let k = choose|k: int| 0 <= k < all.len() && all[k] == wanted;
            assert(all[k].matches.len() > 0);
        }
    }
}

/// Idempotence: two runs over the same entries give the same report. The
/// report names files by their paths, so nothing in it depends on how the
/// index or the candidate map of a run is laid out.
pub proof fn lemma_idempotence(
    entries: Seq<FileEntry>,
    w: int,
    first: CpdIndex,
    first_map: Seq<Vec<Candidate>>,
    second: CpdIndex,
    second_map: Seq<Vec<Candidate>>,
)
    requires
        first.is_index_of(entries, w),
        second.is_index_of(entries, w),
        is_dup_map(first.lines, first.files.len() as int, first_map),
        is_dup_map(second.lines, second.files.len() as int, second_map),
    ensures
        report(texts(first.files@), first_map, first.lines, w, first.files.len() as int) == report(
            texts(second.files@),
            second_map,
            second.lines,
            w,
            second.files.len() as int,
        ),
{
    let n = first.files.len() as int;
    assert(texts(first.files@).len() == texts(second.files@).len());
    assert forall|h: Seq<char>| #[trigger]
        first.lines.occurrences(h) == second.lines.occurrences(h) by {
        let all = scanned_locations(entries, w, h, entries.len() as int);
        assert(first.lines.occurrences(h) == all);
        assert(second.lines.occurrences(h) == all);
    }
    assert forall|f: int| 0 <= f < n implies candidates_of(first_map, f) == candidates_of(
        second_map,
        f,
    ) by {
        assert(is_candidate_list(first.lines, f as usize, candidate_views(first_map[f]@)));
        assert(is_candidate_list(second.lines, f as usize, candidate_views(second_map[f]@)));
        lemma_candidate_list_unique(
            first.lines,
            second.lines,
            f as usize,
            candidate_views(first_map[f]@),
            candidate_views(second_map[f]@),
        );
    }
    lemma_report_same(texts(first.files@), first_map, second_map, first.lines, second.lines, w, n);
}

/// A walk has one report: whatever two runs over the same entries return,
/// they return the same.
pub proof fn lemma_one_report(
    entries: Seq<FileEntry>,
    w: int,
    first: Seq<CpdReportView>,
    second: Seq<CpdReportView>,
)
    requires
        is_report_of(entries, w, first),
        is_report_of(entries, w, second),
    ensures
        first == second,
{
    let (i1, m1) = choose|index: CpdIndex, file_map: Seq<Vec<Candidate>>|
        index.is_index_of(entries, w) && #[trigger] is_dup_map(
            index.lines,
            index.files.len() as int,
            file_map,
        ) && first == report(
            texts(index.files@),
            file_map,
            index.lines,
            w,
            index.files.len() as int,
        );
    let (i2, m2) = choose|index: CpdIndex, file_map: Seq<Vec<Candidate>>|
        index.is_index_of(entries, w) && #[trigger] is_dup_map(
            index.lines,
            index.files.len() as int,
            file_map,
        ) && second == report(
            texts(index.files@),
            file_map,
            index.lines,
            w,
            index.files.len() as int,
        );
    lemma_idempotence(entries, w, i1, m1, i2, m2);
}

/// Whether `loc` is the start of a window of entry `e` that is indexed under
/// the digest `key`, for windows of `w` lines.
pub open spec fn is_window_of(
    entries: Seq<FileEntry>,
    e: int,
    w: int,
    key: Seq<char>,
    loc: Location,
) -> bool {
    &&& 0 <= e < entries.len()
    &&& !entries[e].is_dir
    &&& readable_lines(entries[e]) is Some
    &&& loc.file == file_id(entries, e)
    &&& 1 <= loc.line <= window_count(readable_lines(entries[e])->0.len() as int, w)
    &&& window_is_indexed(readable_lines(entries[e])->0, loc.line - 1, w)
    &&& window_key(readable_lines(entries[e])->0, loc.line - 1, w) == key
}

/// Every location of the index of a walk is the start of a window of one of
/// the files, and that window has the digest under which the location is
/// recorded.
pub proof fn lemma_location_is_window(
    entries: Seq<FileEntry>,
    w: int,
    key: Seq<char>,
    n: int,
    p: int,
)
    requires
        0 <= n <= entries.len(),
        scanned_files(entries, n).len() <= usize::MAX,
        0 <= p < scanned_locations(entries, w, key, n).len(),
    ensures
        exists|e: int|
            0 <= e < n && #[trigger] is_window_of(
                entries,
                e,
                w,
                key,
                scanned_locations(entries, w, key, n)[p],
            ),
    decreases n,
{
    let all = scanned_locations(entries, w, key, n);
    let before = scanned_locations(entries, w, key, n - 1);
    if entries[n - 1].is_dir || p < before.len() {
        lemma_location_is_window(entries, w, key, n - 1, p);
        let e = choose|e: int|
            0 <= e < n - 1 && #[trigger] is_window_of(entries, e, w, key, before[p]);
        assert(is_window_of(entries, e, w, key, all[p]));
    } else {
        let id = file_id(entries, n - 1) as usize;
        let added = entry_locations(id, entries[n - 1], w, key);
        assert(all[p] == added[p - before.len()]);
        let lines = readable_lines(entries[n - 1])->0;
        lemma_window_locations(id, lines, w, key, window_count(lines.len() as int, w));
        assert(is_window_of(entries, n - 1, w, key, all[p]));
    }
}

/// Two files of a walk have different file ids.
pub proof fn lemma_file_ids_differ(entries: Seq<FileEntry>, e1: int, e2: int)
    requires
        0 <= e1 < entries.len(),
        0 <= e2 < entries.len(),
        !entries[e1].is_dir,
        !entries[e2].is_dir,
        e1 != e2,
    ensures
        file_id(entries, e1) != file_id(entries, e2),
{
    if e1 < e2 {
        lemma_file_ids(entries, e1, e2);
    } else {
        lemma_file_ids(entries, e2, e1);
    }
}

/// In the index of a walk, a location with the file id of entry `e` is the
/// start of a window of that entry.
pub proof fn lemma_location_of_file(
    entries: Seq<FileEntry>,
    w: int,
    index: CpdIndex,
    e: int,
    key: Seq<char>,
    loc: Location,
)
    requires
        index.is_index_of(entries, w),
        0 <= e < entries.len(),
        !entries[e].is_dir,
        loc.file == file_id(entries, e),
        index.lines.occurrences(key).contains(loc),
    ensures
        is_window_of(entries, e, w, key, loc),
{
    let n = entries.len() as int;
    let occ = index.lines.occurrences(key);
    assert(occ == scanned_locations(entries, w, key, n));
    let p = choose|p: int| 0 <= p < occ.len() && occ[p] == loc;
    assert(texts(index.files@).len() == scanned_files(entries, n).len());
    lemma_location_is_window(entries, w, key, n, p);
    let found = choose|found: int|
        0 <= found < n && #[trigger] is_window_of(entries, found, w, key, loc);
    if found != e {
        lemma_file_ids_differ(entries, found, e);
    }
}

} // verus!
