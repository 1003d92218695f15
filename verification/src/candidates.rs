//! The candidate map: for each file, its windows whose digest occurs more
//! than once in the index, in line order.

use crate::index::{CpdIndex, HashEntry, HashIndex, Location, MAX_LINES};
use crate::seq_lemmas::{lemma_filter_keeps_order, lemma_filter_source};
use vstd::prelude::*;

verus! {

/// A window of one file that has a duplicate somewhere: its start line and
/// its digest, as a mathematical value.
pub struct CandidateView {
    pub line: int,
    pub hash: Seq<char>,
}

/// A window of one file that has a duplicate somewhere: its 1-based start
/// line and its digest.
#[derive(Debug, Clone)]
pub struct Candidate {
    pub line: usize,
    pub hash: String,
}

impl View for Candidate {
    type V = CandidateView;

    open spec fn view(&self) -> CandidateView {
        CandidateView { line: self.line as int, hash: self.hash@ }
    }
}

/// The mathematical values of a list of candidates.
pub open spec fn candidate_views(list: Seq<Candidate>) -> Seq<CandidateView> {
    list.map_values(|c: Candidate| c@)
}

/// The lines of the list are line numbers up to `MAX_LINES` and strictly
/// increase.
pub open spec fn ordered(list: Seq<CandidateView>) -> bool {
    &&& forall|a: int| 0 <= a < list.len() ==> 1 <= (#[trigger] list[a]).line <= MAX_LINES
    &&& forall|a: int, b: int|
        0 <= a < b < list.len() ==> (#[trigger] list[a]).line < (#[trigger] list[b]).line
}

/// Whether the window of `file` that starts at `line` is duplicated: its
/// digest `hash` has more than one occurrence in the index.
pub open spec fn is_candidate(index: HashIndex, file: usize, line: usize, hash: Seq<char>) -> bool {
    index.occurrences(hash).len() > 1 && index.occurrences(hash).contains(Location { file, line })
}

/// Whether `list` is the candidate map of `file`: exactly the duplicated
/// windows of the file, in strictly increasing line order.
pub open spec fn is_candidate_list(
    index: HashIndex,
    file: usize,
    list: Seq<CandidateView>,
) -> bool {
    &&& ordered(list)
    &&& forall|a: int|
        0 <= a < list.len() ==> is_candidate(
            index,
            file,
            (#[trigger] list[a]).line as usize,
            list[a].hash,
        )
    &&& forall|line: usize, hash: Seq<char>| #[trigger]
        is_candidate(index, file, line, hash) ==> list.contains(
            CandidateView { line: line as int, hash },
        )
}

/// Whether `file_map` is the candidate map of an index of `file_count`
/// files: it has, for each file, the list of its duplicated windows.
pub open spec fn is_dup_map(
    index: HashIndex,
    file_count: int,
    file_map: Seq<Vec<Candidate>>,
) -> bool {
    &&& file_map.len() == file_count
    &&& forall|f: int|
        0 <= f < file_map.len() ==> is_candidate_list(
            index,
            f as usize,
            candidate_views(#[trigger] file_map[f]@),
        )
}

/// Whether an entry records a duplicated window: it has more than one
/// location.
pub open spec fn has_dups(entry: HashEntry) -> bool {
    entry.locations.len() > 1
}

impl CpdIndex {
    /// The entries of the hash index that record a duplicated window, in the
    /// order of the index.
    pub fn entry_with_dups(&self) -> (r: Vec<&HashEntry>)
        ensures
            r@.map_values(|e: &HashEntry| *e) == self.lines.entries@.filter(
                |e: HashEntry| has_dups(e),
            ),
    {
        let ghost pred = |e: HashEntry| has_dups(e);
        let mut out: Vec<&HashEntry> = Vec::new();
        let mut i: usize = 0;
        proof {
            reveal(Seq::filter);
            assert(self.lines.entries@.take(0) =~= Seq::empty());
            assert(out@.map_values(|e: &HashEntry| *e) =~= self.lines.entries@.take(0).filter(
                pred,
            ));
        }
        while i < self.lines.entries.len()
            invariant
                i <= self.lines.entries.len(),
                pred == (|e: HashEntry| has_dups(e)),
                out@.map_values(|e: &HashEntry| *e) == self.lines.entries@.take(i as int).filter(
                    pred,
                ),
            decreases self.lines.entries.len() - i,
        {
            let entry = &self.lines.entries[i];
            let ghost before = out@.map_values(|e: &HashEntry| *e);
            proof {
                reveal(Seq::filter);
                assert(self.lines.entries@.take(i + 1).drop_last() =~= self.lines.entries@.take(
                    i as int,
                ));
            }
            if entry.locations.len() > 1 {
                out.push(entry);
                assert(out@.map_values(|e: &HashEntry| *e) =~= before.push(*entry));
            }
            i += 1;
        }
        assert(self.lines.entries@.take(i as int) =~= self.lines.entries@);
        out
    }
}

/// Puts the candidate `(line, hash)` into a list that is ordered by line
/// and has no candidate on that line, at the place that keeps the order.
fn insert_candidate(list: &mut Vec<Candidate>, line: usize, hash: String)
    requires
        ordered(candidate_views(old(list)@)),
        1 <= line <= MAX_LINES,
        forall|a: int| 0 <= a < old(list).len() ==> (#[trigger] old(list)[a]).line != line,
    ensures
        ordered(candidate_views(final(list)@)),
        exists|p: int|
            0 <= p <= old(list).len() && #[trigger] candidate_views(final(list)@)
                == candidate_views(old(list)@).insert(
                p,
                CandidateView { line: line as int, hash: hash@ },
            ),
{
    let ghost before = candidate_views(list@);
    let ghost c = CandidateView { line: line as int, hash: hash@ };
    let mut p: usize = 0;
    let mut beyond: usize = list.len();
    while p < beyond
        invariant
            p <= beyond <= list.len(),
            before == candidate_views(list@),
            ordered(before),
            forall|a: int| 0 <= a < list.len() ==> (#[trigger] list[a]).line != line,
            forall|a: int| 0 <= a < p ==> (#[trigger] before[a]).line < line,
            forall|a: int| beyond <= a < before.len() ==> (#[trigger] before[a]).line > line,
        decreases beyond - p,
    {
        let middle = p + (beyond - p) / 2;
        assert(before[middle as int].line == list[middle as int].line);
        if list[middle].line < line {
            p = middle + 1;
        } else {
            beyond = middle;
        }
    }
    list.insert(p, Candidate { line, hash });
    proof {
        let after = candidate_views(list@);
        assert(after =~= before.insert(p as int, c));
        assert forall|a: int, b: int| 0 <= a < b < after.len() implies (
        #[trigger] after[a]).line < (#[trigger] after[b]).line by {
            if a < p && b > p {
                assert(before[a].line < before[b - 1].line || a == b - 1);
            }
            if a > p {
                assert(before[a - 1].line < before[b - 1].line);
            }
        }
    }
}

/// Whether location `b` of entry `a` comes before location `j` of entry `i`.
spec fn taken(dups: Seq<&HashEntry>, i: int, j: int, a: int, b: int) -> bool {
    0 <= a < dups.len() && 0 <= b < dups[a].locations.len() && (a < i || (a == i && b < j))
}

/// Whether the candidate `c` of `file` stands for a location that comes
/// before location `j` of entry `i`.
spec fn has_source(dups: Seq<&HashEntry>, i: int, j: int, file: usize, c: CandidateView) -> bool {
    exists|a: int, b: int| #[trigger]
        taken(dups, i, j, a, b) && dups[a].hash@ == c.hash && dups[a].locations[b] == (Location {
            file,
            line: c.line as usize,
        })
}

/// What the list of `file` holds once the locations before `(i, j)` are
/// taken: one candidate for each of them that lies in `file`, in line order.
spec fn list_holds(
    dups: Seq<&HashEntry>,
    i: int,
    j: int,
    file: usize,
    list: Seq<CandidateView>,
) -> bool {
    &&& ordered(list)
    &&& forall|k: int| 0 <= k < list.len() ==> has_source(dups, i, j, file, #[trigger] list[k])
    &&& forall|a: int, b: int| #[trigger]
        taken(dups, i, j, a, b) && dups[a].locations[b].file == file ==> list.contains(
            CandidateView { line: dups[a].locations[b].line as int, hash: dups[a].hash@ },
        )
}

/// Once every location of entry `i` is taken, what is taken is what comes
/// before entry `i + 1`.
proof fn lemma_entry_taken(dups: Seq<&HashEntry>, i: int, file: usize, list: Seq<CandidateView>)
    requires
        0 <= i < dups.len(),
        list_holds(dups, i, dups[i].locations.len() as int, file, list),
    ensures
        list_holds(dups, i + 1, 0, file, list),
{
    let j = dups[i].locations.len() as int;
    assert forall|k: int| 0 <= k < list.len() implies has_source(
        dups,
        i + 1,
        0,
        file,
        #[trigger] list[k],
    ) by {
        assert(has_source(dups, i, j, file, list[k]));
        let (a, b) = choose|a: int, b: int| #[trigger]
            taken(dups, i, j, a, b) && dups[a].hash@ == list[k].hash && dups[a].locations[b] == (
            Location { file, line: list[k].line as usize });
        assert(taken(dups, i + 1, 0, a, b));
    }
    assert forall|a: int, b: int| #[trigger]
        taken(dups, i + 1, 0, a, b) && dups[a].locations[b].file == file implies list.contains(
        CandidateView { line: dups[a].locations[b].line as int, hash: dups[a].hash@ },
    ) by {
        assert(taken(dups, i, j, a, b));
    }
}

impl CpdIndex {
    /// What the entries with duplicates are to the index: each holds all the
    /// occurrences of its digest, no two share a digest, and every digest
    /// with more than one occurrence has its entry among them.
    proof fn lemma_dups(&self, dups: Seq<&HashEntry>)
        requires
            self.lines.wf(),
            dups.map_values(|e: &HashEntry| *e) == self.lines.entries@.filter(
                |e: HashEntry| has_dups(e),
            ),
        ensures
            forall|a: int|
                0 <= a < dups.len() ==> self.lines.occurrences((#[trigger] dups[a]).hash@)
                    == dups[a].locations@ && dups[a].locations.len() > 1,
            forall|a: int, b: int|
                0 <= a < b < dups.len() ==> (#[trigger] dups[a]).hash@ != (
                #[trigger] dups[b]).hash@,
            forall|h: Seq<char>|
                self.lines.occurrences(h).len() > 1 ==> exists|a: int|
                    0 <= a < dups.len() && (#[trigger] dups[a]).hash@ == h,
    {
        let pred = |e: HashEntry| has_dups(e);
        let all = self.lines.entries@;
        let kept = all.filter(pred);
        assert(kept.len() == dups.len());
        assert forall|a: int| 0 <= a < dups.len() implies self.lines.occurrences(
            (#[trigger] dups[a]).hash@,
        ) == dups[a].locations@ && dups[a].locations.len() > 1 by {
            assert(kept[a] == *dups[a]);
            lemma_filter_source(all, pred, a);
            let p = choose|p: int| 0 <= p < all.len() && #[trigger] all[p] == kept[a];
            self.lines.lemma_entry_occurrences(p);
            all.lemma_filter_pred(pred, a);
        }
        assert forall|a: int, b: int| 0 <= a < b < dups.len() implies (
        #[trigger] dups[a]).hash@ != (#[trigger] dups[b]).hash@ by {
            assert(kept[a] == *dups[a] && kept[b] == *dups[b]);
            lemma_filter_keeps_order(all, pred, a, b);
        }
        assert forall|h: Seq<char>| self.lines.occurrences(h).len() > 1 implies exists|a: int|
            0 <= a < dups.len() && (#[trigger] dups[a]).hash@ == h by {
            let p = self.lines.slot(h);
            all.lemma_filter_contains(pred, p);
            let a = choose|a: int| 0 <= a < kept.len() && kept[a] == all[p];
            assert(kept[a] == *dups[a]);
        }
    }

    /// The candidate map of every file: the list at `f` holds the duplicated
    /// windows of file `f`, each with its digest, in line order.
    pub fn build_dup_map(&self) -> (r: Vec<Vec<Candidate>>)
        requires
            self.wf(),
        ensures
            is_dup_map(self.lines, self.files.len() as int, r@),
    {
        let n = self.files.len();
        let mut file_map: Vec<Vec<Candidate>> = Vec::new();
        while file_map.len() < n
            invariant
                file_map.len() <= n,
                forall|f: int| 0 <= f < file_map.len() ==> (#[trigger] file_map[f]).len() == 0,
            decreases n - file_map.len(),
        {
            file_map.push(Vec::new());
        }
        let dups = self.entry_with_dups();
        proof {
            self.lemma_dups(dups@);
        }
        let mut i: usize = 0;
        while i < dups.len()
            invariant
                i <= dups.len(),
                n == self.files.len(),
                file_map.len() == n,
                self.wf(),
                dups@.map_values(|e: &HashEntry| *e) == self.lines.entries@.filter(
                    |e: HashEntry| has_dups(e),
                ),
                forall|f: int|
                    0 <= f < n ==> list_holds(
                        dups@,
                        i as int,
                        0,
                        f as usize,
                        candidate_views(#[trigger] file_map[f]@),
                    ),
            decreases dups.len() - i,
        {
            let entry = dups[i];
            let mut j: usize = 0;
            while j < entry.locations.len()
                invariant
                    i < dups.len(),
                    entry == dups[i as int],
                    j <= entry.locations.len(),
                    n == self.files.len(),
                    file_map.len() == n,
                    self.wf(),
                    dups@.map_values(|e: &HashEntry| *e) == self.lines.entries@.filter(
                        |e: HashEntry| has_dups(e),
                    ),
                    forall|f: int|
                        0 <= f < n ==> list_holds(
                            dups@,
                            i as int,
                            j as int,
                            f as usize,
                            candidate_views(#[trigger] file_map[f]@),
                        ),
                decreases entry.locations.len() - j,
            {
                let loc = entry.locations[j];
                let ghost before = file_map@;
                proof {
                    self.lemma_dups(dups@);
                    assert(self.lines.occurrences(entry.hash@)[j as int] == loc);
                    let list = candidate_views(file_map[loc.file as int]@);
                    assert(list_holds(dups@, i as int, j as int, loc.file, list));
                    assert forall|k: int| 0 <= k < list.len() implies (#[trigger] list[k]).line
                        != loc.line by {
                        assert(has_source(dups@, i as int, j as int, loc.file, list[k]));
                        let (a, b) = choose|a: int, b: int| #[trigger]
                            taken(dups@, i as int, j as int, a, b) && dups[a].hash@ == list[k].hash
                                && dups[a].locations[b] == (Location {
                                file: loc.file,
                                line: list[k].line as usize,
                            });
                        assert(self.lines.occurrences(dups[a].hash@)[b] == dups[a].locations[b]);
                    }
                    assert forall|k: int|
                        0 <= k < file_map[loc.file as int].len() implies (
                    #[trigger] file_map[loc.file as int][k]).line != loc.line by {
                        assert(list[k].line == file_map[loc.file as int][k].line);
                    }
                }
                insert_candidate(&mut file_map[loc.file], loc.line, entry.hash.clone());
                proof {
                    assert forall|f: int| 0 <= f < n implies list_holds(
                        dups@,
                        i as int,
                        j + 1,
                        f as usize,
                        candidate_views(#[trigger] file_map[f]@),
                    ) by {
                        let old_list = candidate_views(before[f]@);
                        let list = candidate_views(file_map[f]@);
                        assert(list_holds(dups@, i as int, j as int, f as usize, old_list));
                        assert(taken(dups@, i as int, j + 1, i as int, j as int));
                        let c = CandidateView { line: loc.line as int, hash: entry.hash@ };
                        if f == loc.file {
                            let p = choose|p: int|
                                0 <= p <= old_list.len() && list == old_list.insert(p, c);
                            assert forall|k: int| 0 <= k < list.len() implies has_source(
                                dups@,
                                i as int,
                                j + 1,
                                f as usize,
                                #[trigger] list[k],
                            ) by {
                                if k == p {
                                    assert(list[k] == c);
                                } else {
                                    let k0 = if k < p {
                                        k
                                    } else {
                                        k - 1
                                    };
                                    assert(list[k] == old_list[k0]);
                                    assert(has_source(
                                        dups@,
                                        i as int,
                                        j as int,
                                        f as usize,
                                        old_list[k0],
                                    ));
                                    let (a, b) = choose|a: int, b: int| #[trigger]
                                        taken(dups@, i as int, j as int, a, b) && dups[a].hash@
                                            == old_list[k0].hash && dups[a].locations[b] == (
                                        Location {
                                            file: f as usize,
                                            line: old_list[k0].line as usize,
                                        });
                                    assert(taken(dups@, i as int, j + 1, a, b));
                                }
                            }
                            assert forall|a: int, b: int| #[trigger]
                                taken(dups@, i as int, j + 1, a, b) && dups[a].locations[b].file
                                    == f implies list.contains(
                                CandidateView {
                                    line: dups[a].locations[b].line as int,
                                    hash: dups[a].hash@,
                                },
                            ) by {
                                let x = CandidateView {
                                    line: dups[a].locations[b].line as int,
                                    hash: dups[a].hash@,
                                };
                                if a == i && b == j {
                                    assert(list[p] == x);
                                } else {
                                    assert(taken(dups@, i as int, j as int, a, b));
                                    let k0 = choose|k0: int|
                                        0 <= k0 < old_list.len() && old_list[k0] == x;
                                    let k = if k0 < p {
                                        k0
                                    } else {
                                        k0 + 1
                                    };
                                    assert(list[k] == x);
                                }
                            }
                        } else {
                            assert(list == old_list);
                            assert forall|k: int| 0 <= k < list.len() implies has_source(
                                dups@,
                                i as int,
                                j + 1,
                                f as usize,
                                #[trigger] list[k],
                            ) by {
                                assert(has_source(dups@, i as int, j as int, f as usize, list[k]));
                                let (a, b) = choose|a: int, b: int| #[trigger]
                                    taken(dups@, i as int, j as int, a, b) && dups[a].hash@
                                        == list[k].hash && dups[a].locations[b] == (Location {
                                        file: f as usize,
                                        line: list[k].line as usize,
                                    });
                                assert(taken(dups@, i as int, j + 1, a, b));
                            }
                            assert forall|a: int, b: int| #[trigger]
                                taken(dups@, i as int, j + 1, a, b) && dups[a].locations[b].file
                                    == f implies list.contains(
                                CandidateView {
                                    line: dups[a].locations[b].line as int,
                                    hash: dups[a].hash@,
                                },
                            ) by {
                                assert(taken(dups@, i as int, j as int, a, b));
                            }
                        }
                    }
                }
                j += 1;
            }
            proof {
                assert forall|f: int| 0 <= f < n implies list_holds(
                    dups@,
                    i + 1,
                    0,
                    f as usize,
                    candidate_views(#[trigger] file_map[f]@),
                ) by {
                    lemma_entry_taken(
                        dups@,
                        i as int,
                        f as usize,
                        candidate_views(file_map[f]@),
                    );
                }
            }
            i += 1;
        }
        proof {
            self.lemma_dups(dups@);
            assert forall|f: int| 0 <= f < file_map.len() implies is_candidate_list(
                self.lines,
                f as usize,
                candidate_views(#[trigger] file_map[f]@),
            ) by {
                let list = candidate_views(file_map[f]@);
                assert(list_holds(dups@, i as int, 0, f as usize, list));
                assert forall|k: int| 0 <= k < list.len() implies is_candidate(
                    self.lines,
                    f as usize,
                    (#[trigger] list[k]).line as usize,
                    list[k].hash,
                ) by {
                    assert(has_source(dups@, i as int, 0, f as usize, list[k]));
                    let (a, b) = choose|a: int, b: int| #[trigger]
                        taken(dups@, i as int, 0, a, b) && dups[a].hash@ == list[k].hash
                            && dups[a].locations[b] == (Location {
                            file: f as usize,
                            line: list[k].line as usize,
                        });
                    assert(self.lines.occurrences(dups[a].hash@)[b] == dups[a].locations[b]);
                }
                assert forall|line: usize, hash: Seq<char>| #[trigger]
                    is_candidate(self.lines, f as usize, line, hash) implies list.contains(
                    CandidateView { line: line as int, hash },
                ) by {
                    let a = choose|a: int|
                        0 <= a < dups.len() && (#[trigger] dups[a]).hash@ == hash;
                    let occ = self.lines.occurrences(hash);
                    let b = choose|b: int|
                        0 <= b < occ.len() && occ[b] == (Location { file: f as usize, line });
                    assert(taken(dups@, i as int, 0, a, b));
                }
            }
        }
        file_map
    }
}

} // verus!
