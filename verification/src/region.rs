//! Duplicate regions of one file and the first-fit merging of matching windows.

use crate::candidates::{candidate_views, ordered, Candidate, CandidateView};
use crate::index::{HashIndex, Location, MAX_LINES};
use crate::seq_lemmas::{lemma_filter_keeps_order, lemma_filter_source};
use vstd::prelude::*;

verus! {

/// A duplicate region as a mathematical value: a span of local lines and the
/// span of lines in `file` that it is aligned with.
pub struct Region {
    pub start: int,
    pub end: int,
    pub file: int,
    pub remote_start: int,
    pub remote_end: int,
}

/// A duplicate region of the file under inspection: lines `start..end` match
/// lines `remote_start..remote_end` of the file with id `file`.
#[derive(Debug, Clone, Copy, PartialEq, Eq, Structural)]
pub struct CopyPasteMatch {
    pub start: usize,
    pub end: usize,
    pub file: usize,
    pub remote_start: usize,
    pub remote_end: usize,
}

impl View for CopyPasteMatch {
    type V = Region;

    open spec fn view(&self) -> Region {
        Region {
            start: self.start as int,
            end: self.end as int,
            file: self.file as int,
            remote_start: self.remote_start as int,
            remote_end: self.remote_end as int,
        }
    }
}

/// Whether the window `start..end` against `file` touches region `m`: same
/// remote file, and the window's first or last bound lies within the local
/// span of `m`, bounds included.
pub open spec fn overlaps(m: Region, start: int, end: int, file: int) -> bool {
    m.file == file && ((m.start <= start <= m.end) || (m.start <= end <= m.end))
}

/// Region `m` grown to cover the local span `start..end`. Each remote bound
/// moves by exactly as much as its local bound, so the alignment offset
/// between the two spans is kept.
pub open spec fn expanded(m: Region, start: int, end: int) -> Region {
    let left = if start < m.start {
        m.start - start
    } else {
        0
    };
    let right = if end > m.end {
        end - m.end
    } else {
        0
    };
    Region {
        start: m.start - left,
        end: m.end + right,
        file: m.file,
        remote_start: m.remote_start - left,
        remote_end: m.remote_end + right,
    }
}

/// Whether `m`, found while inspecting file `file`, matches the file against
/// itself with a remote span that touches its own local span.
pub open spec fn is_self_match(m: Region, file: int) -> bool {
    overlaps(m, m.remote_start, m.remote_end, file)
}

impl CopyPasteMatch {
    /// Whether the window `start..end` against `file` touches this region.
    pub fn is_overlapping(&self, start: usize, end: usize, file: usize) -> (r: bool)
        ensures
            r == overlaps(self@, start as int, end as int, file as int),
    {
        if file != self.file {
            return false;
        }
        if start >= self.start && start <= self.end {
            return true;
        }
        end >= self.start && end <= self.end
    }

    /// Whether this region, found while inspecting `file`, is a self-match.
    pub fn is_duplicate(&self, file: usize) -> (r: bool)
        ensures
            r == is_self_match(self@, file as int),
    {
        self.is_overlapping(self.remote_start, self.remote_end, file)
    }

    /// Grows the region to cover the local span `start..end`; each remote
    /// bound moves by as much as its local bound. A bound that would leave
    /// the range of line numbers is not asked for.
    pub fn expand(&mut self, start: usize, end: usize)
        requires
            start < old(self).start ==> old(self).start - start <= old(self).remote_start,
            end > old(self).end ==> old(self).remote_end + (end - old(self).end) <= usize::MAX,
        ensures
            final(self)@ == expanded(old(self)@, start as int, end as int),
    {
        if start < self.start {
            let diff: usize = self.start - start;
            self.start = start;
            self.remote_start -= diff;
        }
        if end > self.end {
            let diff: usize = end - self.end;
            self.end = end;
            self.remote_end += diff;
        }
    }
}

/// The mathematical values of a list of regions.
pub open spec fn region_views(list: Seq<CopyPasteMatch>) -> Seq<Region> {
    list.map_values(|m: CopyPasteMatch| m@)
}

/// The position, at or after `from`, of the first region that the window
/// `start..end` against `file` touches; the number of regions if none does.
pub open spec fn first_fit_from(
    regions: Seq<Region>,
    start: int,
    end: int,
    file: int,
    from: int,
) -> int
    decreases regions.len() - from,
{
    if from < 0 || from >= regions.len() {
        regions.len() as int
    } else if overlaps(regions[from], start, end, file) {
        from
    } else {
        first_fit_from(regions, start, end, file, from + 1)
    }
}

/// The position of the first region that the window touches.
pub open spec fn first_fit(regions: Seq<Region>, start: int, end: int, file: int) -> int {
    first_fit_from(regions, start, end, file, 0)
}

/// The region that a single window makes: `w` local lines from `line`
/// against `w` lines from the remote location.
pub open spec fn window_region(line: int, w: int, remote: Location) -> Region {
    Region {
        start: line,
        end: line + w,
        file: remote.file as int,
        remote_start: remote.line as int,
        remote_end: remote.line + w,
    }
}

/// The regions after the window at `line` is matched with one remote
/// occurrence: the first region that the window touches grows to cover it;
/// if none does, the window becomes a new last region.
pub open spec fn add_window(regions: Seq<Region>, line: int, w: int, remote: Location) -> Seq<
    Region,
> {
    let i = first_fit(regions, line, line + w, remote.file as int);
    if i < regions.len() {
        regions.update(i, expanded(regions[i], line, line + w))
    } else {
        regions.push(window_region(line, w, remote))
    }
}

/// The regions after the window at `line` is matched with the first `n`
/// of the remote occurrences, in their order.
pub open spec fn add_occurrences(
    regions: Seq<Region>,
    line: int,
    w: int,
    remotes: Seq<Location>,
    n: int,
) -> Seq<Region>
    decreases n,
{
    if n <= 0 {
        regions
    } else {
        add_window(add_occurrences(regions, line, w, remotes, n - 1), line, w, remotes[n - 1])
    }
}

/// The regions after the first `n` candidates are processed, each against
/// all the occurrences of its digest.
pub open spec fn merged(candidates: Seq<CandidateView>, index: HashIndex, w: int, n: int) -> Seq<
    Region,
>
    decreases n,
{
    if n <= 0 {
        Seq::empty()
    } else {
        let c = candidates[n - 1];
        let remotes = index.occurrences(c.hash);
        add_occurrences(
            merged(candidates, index, w, n - 1),
            c.line,
            w,
            remotes,
            remotes.len() as int,
        )
    }
}

/// The duplicate regions of the file `file`: all its candidates merged, and
/// then every self-match dropped.
pub open spec fn file_regions(
    file: int,
    candidates: Seq<CandidateView>,
    index: HashIndex,
    w: int,
) -> Seq<Region> {
    merged(candidates, index, w, candidates.len() as int).filter(
        |m: Region| !is_self_match(m, file),
    )
}

/// What holds of in-progress regions while the window at `line` is being
/// processed: each starts at a line no later than `line`, spans at least `w`
/// lines, ends no later than that window, and has a remote span as long as
/// its local span that starts on a valid line.
pub open spec fn aligned(regions: Seq<Region>, line: int, w: int) -> bool {
    forall|k: int|
        0 <= k < regions.len() ==> {
            let m = #[trigger] regions[k];
            &&& 1 <= m.start <= line
            &&& m.start + w <= m.end <= line + w
            &&& m.end - m.start == m.remote_end - m.remote_start
            &&& 1 <= m.remote_start <= MAX_LINES
            &&& 0 <= m.file <= usize::MAX
        }
}

/// The regions are in non-decreasing order of their first local line.
pub open spec fn sorted_by_start(regions: Seq<Region>) -> bool {
    forall|a: int, b: int|
        0 <= a < b < regions.len() ==> (#[trigger] regions[a]).start <= (
        #[trigger] regions[b]).start
}

/// Regions that point at the same file lie apart, in their order: each ends
/// before the next one starts.
pub open spec fn separated(regions: Seq<Region>) -> bool {
    forall|a: int, b: int|
        0 <= a < b < regions.len() && (#[trigger] regions[a]).file == (#[trigger] regions[b]).file
            ==> regions[a].end < regions[b].start
}

/// What `first_fit_from` finds: no region from `from` up to the result
/// touches the window, and the region at the result, if any, does.
pub proof fn lemma_first_fit(regions: Seq<Region>, start: int, end: int, file: int, from: int)
    requires
        0 <= from <= regions.len(),
    ensures
        from <= first_fit_from(regions, start, end, file, from) <= regions.len(),
        first_fit_from(regions, start, end, file, from) < regions.len() ==> overlaps(
            regions[first_fit_from(regions, start, end, file, from)],
            start,
            end,
            file,
        ),
        forall|k: int|
            from <= k < first_fit_from(regions, start, end, file, from) ==> !overlaps(
                #[trigger] regions[k],
                start,
                end,
                file,
            ),
    decreases regions.len() - from,
{
    if from < regions.len() && !overlaps(regions[from], start, end, file) {
        lemma_first_fit(regions, start, end, file, from + 1);
    }
}

/// Matching one more window keeps the regions aligned and sorted.
pub proof fn lemma_add_window_keeps(regions: Seq<Region>, line: int, w: int, remote: Location)
    requires
        aligned(regions, line, w),
        sorted_by_start(regions),
        w >= 0,
        1 <= line,
        1 <= remote.line <= MAX_LINES,
    ensures
        aligned(add_window(regions, line, w, remote), line, w),
        sorted_by_start(add_window(regions, line, w, remote)),
        add_window(regions, line, w, remote).len() >= regions.len(),
{
    lemma_first_fit(regions, line, line + w, remote.file as int, 0);
    let after = add_window(regions, line, w, remote);
    assert forall|k: int| 0 <= k < after.len() implies {
        let m = #[trigger] after[k];
        &&& 1 <= m.start <= line
        &&& m.start + w <= m.end <= line + w
        &&& m.end - m.start == m.remote_end - m.remote_start
        &&& 1 <= m.remote_start <= MAX_LINES
        &&& 0 <= m.file <= usize::MAX
    } by {
        if k < regions.len() {
            let m = regions[k];
        }
    }
    assert forall|a: int, b: int| 0 <= a < b < after.len() implies (#[trigger] after[a]).start <= (
    #[trigger] after[b]).start by {
        if b < regions.len() {
            let x = regions[a];
            let y = regions[b];
        } else {
            let x = regions[a];
        }
    }
}

/// Matching one more window keeps regions against the same file apart: a
/// window either grows the last region against its file or lies beyond it.
pub proof fn lemma_add_window_separated(regions: Seq<Region>, line: int, w: int, remote: Location)
    requires
        aligned(regions, line, w),
        separated(regions),
        w >= 0,
    ensures
        separated(add_window(regions, line, w, remote)),
{
    lemma_first_fit(regions, line, line + w, remote.file as int, 0);
    let i = first_fit(regions, line, line + w, remote.file as int);
    let after = add_window(regions, line, w, remote);
    assert forall|a: int, b: int|
        0 <= a < b < after.len() && (#[trigger] after[a]).file == (
        #[trigger] after[b]).file implies after[a].end < after[b].start by {
        if i < regions.len() {
            let x = regions[a];
            let y = regions[b];
            let z = regions[i];
        } else {
            let x = regions[a];
            if b < regions.len() {
                let y = regions[b];
            }
        }
    }
}

/// Matching a window with any number of remote occurrences keeps regions
/// against the same file apart.
pub proof fn lemma_add_occurrences_separated(
    regions: Seq<Region>,
    line: int,
    w: int,
    remotes: Seq<Location>,
    n: int,
)
    requires
        aligned(regions, line, w),
        sorted_by_start(regions),
        separated(regions),
        w >= 0,
        1 <= line,
        0 <= n <= remotes.len(),
        forall|j: int| 0 <= j < remotes.len() ==> 1 <= (#[trigger] remotes[j]).line <= MAX_LINES,
    ensures
        separated(add_occurrences(regions, line, w, remotes, n)),
    decreases n,
{
    if n > 0 {
        lemma_add_occurrences_separated(regions, line, w, remotes, n - 1);
        lemma_add_occurrences_keeps(regions, line, w, remotes, n - 1);
        lemma_add_window_separated(
            add_occurrences(regions, line, w, remotes, n - 1),
            line,
            w,
            remotes[n - 1],
        );
    }
}

/// Merging candidates in line order keeps regions against the same file
/// apart.
pub proof fn lemma_merged_separated(
    candidates: Seq<CandidateView>,
    index: HashIndex,
    w: int,
    n: int,
)
    requires
        ordered(candidates),
        index.bounded(),
        w >= 0,
        0 <= n <= candidates.len(),
    ensures
        separated(merged(candidates, index, w, n)),
    decreases n,
{
    if n > 0 {
        lemma_merged_separated(candidates, index, w, n - 1);
        lemma_merged_keeps(candidates, index, w, n - 1);
        let c = candidates[n - 1];
        let remotes = index.occurrences(c.hash);
        let before = merged(candidates, index, w, n - 1);
        if n > 1 {
            let earlier = candidates[n - 2];
        }
        assert(aligned(before, c.line, w));
        assert forall|j: int| 0 <= j < remotes.len() implies 1 <= (#[trigger] remotes[j]).line
            <= MAX_LINES by {
            assert(remotes[j] == index.occurrences(c.hash)[j]);
        }
        lemma_add_occurrences_separated(before, c.line, w, remotes, remotes.len() as int);
    }
}

/// Regions that are aligned for one line are aligned for every later line.
pub proof fn lemma_aligned_later(regions: Seq<Region>, line: int, later: int, w: int)
    requires
        aligned(regions, line, w),
        line <= later,
    ensures
        aligned(regions, later, w),
{
    assert forall|k: int| 0 <= k < regions.len() implies {
        let m = #[trigger] regions[k];
        &&& 1 <= m.start <= later
        &&& m.start + w <= m.end <= later + w
        &&& m.end - m.start == m.remote_end - m.remote_start
        &&& 1 <= m.remote_start <= MAX_LINES
        &&& 0 <= m.file <= usize::MAX
    } by {
        let m = regions[k];
    }
}

/// Matching a window with any number of remote occurrences keeps the
/// regions aligned and sorted.
pub proof fn lemma_add_occurrences_keeps(
    regions: Seq<Region>,
    line: int,
    w: int,
    remotes: Seq<Location>,
    n: int,
)
    requires
        aligned(regions, line, w),
        sorted_by_start(regions),
        w >= 0,
        1 <= line,
        0 <= n <= remotes.len(),
        forall|j: int| 0 <= j < remotes.len() ==> 1 <= (#[trigger] remotes[j]).line <= MAX_LINES,
    ensures
        aligned(add_occurrences(regions, line, w, remotes, n), line, w),
        sorted_by_start(add_occurrences(regions, line, w, remotes, n)),
    decreases n,
{
    if n > 0 {
        lemma_add_occurrences_keeps(regions, line, w, remotes, n - 1);
        lemma_add_window_keeps(
            add_occurrences(regions, line, w, remotes, n - 1),
            line,
            w,
            remotes[n - 1],
        );
    }
}

/// Merging candidates in line order keeps the regions sorted, and aligned
/// for the line of the last candidate and for every later line.
pub proof fn lemma_merged_keeps(candidates: Seq<CandidateView>, index: HashIndex, w: int, n: int)
    requires
        ordered(candidates),
        index.bounded(),
        w >= 0,
        0 <= n <= candidates.len(),
    ensures
        sorted_by_start(merged(candidates, index, w, n)),
        forall|line: int|
            (n == 0 || candidates[n - 1].line <= line) ==> #[trigger] aligned(
                merged(candidates, index, w, n),
                line,
                w,
            ),
    decreases n,
{
    if n > 0 {
        lemma_merged_keeps(candidates, index, w, n - 1);
        let c = candidates[n - 1];
        let remotes = index.occurrences(c.hash);
        let before = merged(candidates, index, w, n - 1);
        if n > 1 {
            let earlier = candidates[n - 2];
        }
        assert(aligned(before, c.line, w));
        assert forall|j: int| 0 <= j < remotes.len() implies 1 <= (#[trigger] remotes[j]).line
            <= MAX_LINES by {
            assert(remotes[j] == index.occurrences(c.hash)[j]);
        }
        lemma_add_occurrences_keeps(before, c.line, w, remotes, remotes.len() as int);
        assert forall|line: int| c.line <= line implies #[trigger] aligned(
            merged(candidates, index, w, n),
            line,
            w,
        ) by {
            lemma_aligned_later(merged(candidates, index, w, n), c.line, line, w);
        }
    }
}

impl CopyPasteMatch {
    /// The region of a single window: `w` lines from `line` against `w`
    /// lines from the remote location.
    pub fn of_window(line: usize, w: usize, remote: Location) -> (r: Self)
        requires
            line + w <= usize::MAX,
            remote.line + w <= usize::MAX,
        ensures
            r@ == window_region(line as int, w as int, remote),
    {
        CopyPasteMatch {
            start: line,
            end: line + w,
            file: remote.file,
            remote_start: remote.line,
            remote_end: remote.line + w,
        }
    }
}

/// Matches the window of `min_lines` lines at `line` with one remote
/// occurrence of its digest: the first region that the window touches grows
/// to cover it; if none does, the window becomes a new last region.
pub fn merge_window(
    match_list: &mut Vec<CopyPasteMatch>,
    line: usize,
    min_lines: usize,
    remote: Location,
)
    requires
        aligned(region_views(old(match_list)@), line as int, min_lines as int),
        1 <= line <= MAX_LINES,
        1 <= remote.line <= MAX_LINES,
        min_lines <= usize::MAX / 2,
    ensures
        region_views(final(match_list)@) == add_window(
            region_views(old(match_list)@),
            line as int,
            min_lines as int,
            remote,
        ),
{
    let ghost regions = region_views(match_list@);
    let local_start = line;
    let local_end = local_start + min_lines;
    let mut k: usize = 0;
    while k < match_list.len()
        invariant
            k <= match_list.len(),
            regions == region_views(match_list@),
            regions == region_views(old(match_list)@),
            aligned(regions, line as int, min_lines as int),
            1 <= line <= MAX_LINES,
            min_lines <= usize::MAX / 2,
            local_start == line,
            local_end == line + min_lines,
            first_fit(regions, line as int, line + min_lines, remote.file as int)
                == first_fit_from(
                regions,
                line as int,
                line + min_lines,
                remote.file as int,
                k as int,
            ),
        decreases match_list.len() - k,
    {
        assert(regions[k as int] == match_list[k as int]@);
        if match_list[k].is_overlapping(local_start, local_end, remote.file) {
            assert(first_fit(regions, line as int, line + min_lines, remote.file as int) == k);
            let mut m = match_list[k];
            m.expand(local_start, local_end);
            match_list.set(k, m);
            assert(region_views(match_list@) =~= regions.update(
                k as int,
                expanded(regions[k as int], line as int, line + min_lines),
            ));
            return ;
        }
        k += 1;
    }
    match_list.push(CopyPasteMatch::of_window(line, min_lines, remote));
    assert(region_views(match_list@) =~= regions.push(
        window_region(line as int, min_lines as int, remote),
    ));
}

/// What holds of every duplicate region of a file: it spans at least `w`
/// local lines and as many remote lines, it is no self-match, and the
/// regions come in the order of their first local line.
pub proof fn lemma_file_regions(file: int, candidates: Seq<CandidateView>, index: HashIndex, w: int)
    requires
        ordered(candidates),
        index.bounded(),
        w >= 0,
    ensures
        sorted_by_start(file_regions(file, candidates, index, w)),
        separated(file_regions(file, candidates, index, w)),
        forall|k: int|
            0 <= k < file_regions(file, candidates, index, w).len() ==> {
                let m = #[trigger] file_regions(file, candidates, index, w)[k];
                &&& 1 <= m.start
                &&& m.end - m.start >= w
                &&& m.remote_end - m.remote_start == m.end - m.start
                &&& 1 <= m.remote_start
                &&& 0 <= m.file <= usize::MAX
                &&& !is_self_match(m, file)
                &&& !(m.file == file && m.remote_start == m.start && m.remote_end == m.end)
            },
{
    let all = merged(candidates, index, w, candidates.len() as int);
    let pred = |m: Region| !is_self_match(m, file);
    let kept = all.filter(pred);
    lemma_merged_keeps(candidates, index, w, candidates.len() as int);
    let last = if candidates.len() == 0 {
        0
    } else {
        candidates[candidates.len() - 1].line
    };
    assert(aligned(all, last, w));
    assert forall|k: int| 0 <= k < kept.len() implies {
        let m = #[trigger] kept[k];
        &&& 1 <= m.start
        &&& m.end - m.start >= w
        &&& m.remote_end - m.remote_start == m.end - m.start
        &&& 1 <= m.remote_start
        &&& 0 <= m.file <= usize::MAX
        &&& !is_self_match(m, file)
        &&& !(m.file == file && m.remote_start == m.start && m.remote_end == m.end)
    } by {
        lemma_filter_source(all, pred, k);
        all.lemma_filter_pred(pred, k);
        let p = choose|p: int| 0 <= p < all.len() && #[trigger] all[p] == kept[k];
    }
    assert forall|a: int, b: int| 0 <= a < b < kept.len() implies (#[trigger] kept[a]).start <= (
    #[trigger] kept[b]).start by {
        lemma_filter_keeps_order(all, pred, a, b);
    }
    lemma_merged_separated(candidates, index, w, candidates.len() as int);
    assert forall|a: int, b: int|
        0 <= a < b < kept.len() && (#[trigger] kept[a]).file == (
        #[trigger] kept[b]).file implies kept[a].end < kept[b].start by {
        lemma_filter_keeps_order(all, pred, a, b);
    }
}

/// Every region points at a file of the index: if all recorded locations
/// lie in files below `bound`, so do the remote files of all regions.
pub proof fn lemma_merged_files(
    candidates: Seq<CandidateView>,
    index: HashIndex,
    w: int,
    n: int,
    bound: int,
)
    requires
        0 <= n <= candidates.len(),
        forall|h: Seq<char>, j: int|
            0 <= j < index.occurrences(h).len() ==> (#[trigger] index.occurrences(h)[j]).file
                < bound,
    ensures
        forall|k: int|
            0 <= k < merged(candidates, index, w, n).len() ==> 0 <= (#[trigger] merged(
                candidates,
                index,
                w,
                n,
            )[k]).file < bound,
    decreases n,
{
    if n > 0 {
        lemma_merged_files(candidates, index, w, n - 1, bound);
        let c = candidates[n - 1];
        let remotes = index.occurrences(c.hash);
        lemma_occurrences_files(
            merged(candidates, index, w, n - 1),
            c.line,
            w,
            remotes,
            remotes.len() as int,
            bound,
        );
    }
}

/// Matching a window with remote occurrences in files below `bound` keeps
/// the remote files of all regions below `bound`.
proof fn lemma_occurrences_files(
    regions: Seq<Region>,
    line: int,
    w: int,
    remotes: Seq<Location>,
    n: int,
    bound: int,
)
    requires
        0 <= n <= remotes.len(),
        forall|k: int| 0 <= k < regions.len() ==> 0 <= (#[trigger] regions[k]).file < bound,
        forall|j: int| 0 <= j < remotes.len() ==> (#[trigger] remotes[j]).file < bound,
    ensures
        forall|k: int|
            0 <= k < add_occurrences(regions, line, w, remotes, n).len() ==> 0 <= (
            #[trigger] add_occurrences(regions, line, w, remotes, n)[k]).file < bound,
    decreases n,
{
    if n > 0 {
        lemma_occurrences_files(regions, line, w, remotes, n - 1, bound);
        let before = add_occurrences(regions, line, w, remotes, n - 1);
        let remote = remotes[n - 1];
        lemma_first_fit(before, line, line + w, remote.file as int, 0);
        let after = add_window(before, line, w, remote);
        assert forall|k: int| 0 <= k < after.len() implies 0 <= (#[trigger] after[k]).file
            < bound by {
            if k < before.len() {
                let m = before[k];
            }
        }
    }
}

/// The remote file of every duplicate region of a file is a file of the
/// index.
pub proof fn lemma_file_regions_files(
    file: int,
    candidates: Seq<CandidateView>,
    index: HashIndex,
    w: int,
    bound: int,
)
    requires
        index.sound(bound),
    ensures
        forall|k: int|
            0 <= k < file_regions(file, candidates, index, w).len() ==> 0 <= (
            #[trigger] file_regions(file, candidates, index, w)[k]).file < bound,
{
    let all = merged(candidates, index, w, candidates.len() as int);
    let pred = |m: Region| !is_self_match(m, file);
    lemma_merged_files(candidates, index, w, candidates.len() as int, bound);
    assert forall|k: int| 0 <= k < all.filter(pred).len() implies 0 <= (#[trigger] all.filter(
        pred,
    )[k]).file < bound by {
        lemma_filter_source(all, pred, k);
        let p = choose|p: int| 0 <= p < all.len() && #[trigger] all[p] == all.filter(pred)[k];
    }
}

/// The candidate map of the file `file`: its list in `file_map`, and no
/// candidate at all when the map has no list for it.
pub open spec fn candidates_of(file_map: Seq<Vec<Candidate>>, file: int) -> Seq<CandidateView> {
    if 0 <= file < file_map.len() {
        candidate_views(file_map[file]@)
    } else {
        Seq::empty()
    }
}

/// The regions without those that match the file `file_index` against
/// itself on overlapping lines.
pub fn drop_self_matches(match_list: &Vec<CopyPasteMatch>, file_index: usize) -> (r: Vec<
    CopyPasteMatch,
>)
    ensures
        region_views(r@) == region_views(match_list@).filter(
            |m: Region| !is_self_match(m, file_index as int),
        ),
{
    let ghost pred = |m: Region| !is_self_match(m, file_index as int);
    let ghost all = region_views(match_list@);
    let mut out: Vec<CopyPasteMatch> = Vec::new();
    let mut i: usize = 0;
    proof {
        reveal(Seq::filter);
        assert(all.take(0) =~= Seq::empty());
        assert(region_views(out@) =~= all.take(0).filter(pred));
    }
    while i < match_list.len()
        invariant
            i <= match_list.len(),
            all == region_views(match_list@),
            pred == (|m: Region| !is_self_match(m, file_index as int)),
            region_views(out@) == all.take(i as int).filter(pred),
        decreases match_list.len() - i,
    {
        let m = match_list[i];
        let ghost before = region_views(out@);
        proof {
            reveal(Seq::filter);
            assert(all.take(i + 1).drop_last() =~= all.take(i as int));
            assert(all.take(i + 1).last() == m@);
        }
        if !m.is_duplicate(file_index) {
            out.push(m);
            assert(region_views(out@) =~= before.push(m@));
        }
        i += 1;
    }
    assert(all.take(i as int) =~= all);
    out
}

/// The duplicate regions of the file `file_index`. Its candidates are taken
/// in line order; each is matched with every occurrence of its digest, in
/// the order of the index, by `merge_window`; the self-matches are dropped
/// at the end. A file without a list in `file_map` has no region.
pub fn matches_for_file(
    file_index: usize,
    file_map: &Vec<Vec<Candidate>>,
    lines: &HashIndex,
    min_lines: usize,
) -> (r: Vec<CopyPasteMatch>)
    requires
        lines.wf(),
        lines.bounded(),
        min_lines <= usize::MAX / 2,
        ordered(candidates_of(file_map@, file_index as int)),
    ensures
        region_views(r@) == file_regions(
            file_index as int,
            candidates_of(file_map@, file_index as int),
            *lines,
            min_lines as int,
        ),
        forall|k: int|
            0 <= k < r.len() ==> (#[trigger] r[k]).end - r[k].start >= min_lines && r[k].remote_end
                - r[k].remote_start == r[k].end - r[k].start,
        forall|k: int|
            0 <= k < r.len() ==> !((#[trigger] r[k]).file == file_index && r[k].remote_start
                == r[k].start && r[k].remote_end == r[k].end),
        forall|a: int, b: int|
            0 <= a < b < r.len() ==> (#[trigger] r[a]).start <= (#[trigger] r[b]).start,
        forall|a: int, b: int|
            0 <= a < b < r.len() && (#[trigger] r[a]).file == (#[trigger] r[b]).file ==> r[a].end
                < r[b].start,
{
    let r = merge_candidates(file_index, file_map, lines, min_lines);
    proof {
        let regions = region_views(r@);
        lemma_file_regions(
            file_index as int,
            candidates_of(file_map@, file_index as int),
            *lines,
            min_lines as int,
        );
        assert forall|k: int| 0 <= k < r.len() implies (#[trigger] r[k]).end - r[k].start
            >= min_lines && r[k].remote_end - r[k].remote_start == r[k].end - r[k].start && !(
        r[k].file == file_index && r[k].remote_start == r[k].start && r[k].remote_end
            == r[k].end) by {
            assert(regions[k] == r[k]@);
        }
        assert forall|a: int, b: int| 0 <= a < b < r.len() implies (#[trigger] r[a]).start <= (
        #[trigger] r[b]).start by {
            assert(regions[a] == r[a]@ && regions[b] == r[b]@);
        }
        assert forall|a: int, b: int|
            0 <= a < b < r.len() && (#[trigger] r[a]).file == (
            #[trigger] r[b]).file implies r[a].end < r[b].start by {
            assert(regions[a] == r[a]@ && regions[b] == r[b]@);
        }
    }
    r
}

/// The loops of `matches_for_file`.
fn merge_candidates(
    file_index: usize,
    file_map: &Vec<Vec<Candidate>>,
    lines: &HashIndex,
    min_lines: usize,
) -> (r: Vec<CopyPasteMatch>)
    requires
        lines.wf(),
        lines.bounded(),
        min_lines <= usize::MAX / 2,
        ordered(candidates_of(file_map@, file_index as int)),
    ensures
        region_views(r@) == file_regions(
            file_index as int,
            candidates_of(file_map@, file_index as int),
            *lines,
            min_lines as int,
        ),
{
    let ghost w = min_lines as int;
    let ghost candidates = candidates_of(file_map@, file_index as int);
    let mut match_list: Vec<CopyPasteMatch> = Vec::new();
    assert(region_views(match_list@) =~= merged(candidates, *lines, w, 0));
    if file_index < file_map.len() {
        let locations = &file_map[file_index];
        let mut c: usize = 0;
        while c < locations.len()
            invariant
                c <= locations.len(),
                w == min_lines as int,
                min_lines <= usize::MAX / 2,
                lines.wf(),
                lines.bounded(),
                candidates == candidate_views(locations@),
                ordered(candidates),
                region_views(match_list@) == merged(candidates, *lines, w, c as int),
            decreases locations.len() - c,
        {
            let line = locations[c].line;
            let ghost remotes = lines.occurrences(locations[c as int].hash@);
            let ghost before = region_views(match_list@);
            proof {
                assert(candidates[c as int] == locations[c as int]@);
                lemma_merged_keeps(candidates, *lines, w, c as int);
                if c > 0 {
                    let earlier = candidates[c - 1];
                }
                assert(aligned(before, line as int, w));
                assert forall|j: int| 0 <= j < remotes.len() implies 1 <= (
                #[trigger] remotes[j]).line <= MAX_LINES by {
                    assert(remotes[j] == lines.occurrences(locations[c as int].hash@)[j]);
                }
            }
            match lines.get(&locations[c].hash) {
                Some(matches) => {
                    let mut i: usize = 0;
                    while i < matches.len()
                        invariant
                            i <= matches.len(),
                            matches@ == remotes,
                            w == min_lines as int,
                            min_lines <= usize::MAX / 2,
                            1 <= line <= MAX_LINES,
                            aligned(before, line as int, w),
                            sorted_by_start(before),
                            forall|j: int|
                                0 <= j < remotes.len() ==> 1 <= (#[trigger] remotes[j]).line
                                    <= MAX_LINES,
                            region_views(match_list@) == add_occurrences(
                                before,
                                line as int,
                                w,
                                remotes,
                                i as int,
                            ),
                        decreases matches.len() - i,
                    {
                        proof {
                            lemma_add_occurrences_keeps(before, line as int, w, remotes, i as int);
                        }
                        merge_window(&mut match_list, line, min_lines, matches[i]);
                        i += 1;
                    }
                },
                None => {},
            }
            c += 1;
        }
    }
    drop_self_matches(&match_list, file_index)
}

} // verus!
