//! The report of a run: for each file with duplicates, its regions with the
//! paths of the files that they point at.

use crate::candidates::{candidate_views, is_dup_map, ordered, Candidate};
use crate::index::{build_n_gram_index, CpdIndex, FileEntry, HashIndex};
use crate::region::{
    candidates_of, file_regions, lemma_file_regions_files, matches_for_file, region_views,
    CopyPasteMatch, Region,
};
use crate::text::texts;
use vstd::prelude::*;

verus! {

/// One duplicate region of a report as a mathematical value.
pub struct CpdMatchView {
    pub start: int,
    pub end: int,
    pub matching_file: Seq<char>,
    pub match_start: int,
    pub match_end: int,
}

/// One duplicate region of a report: local lines `start..end` match lines
/// `match_start..match_end` of the file at path `matching_file`.
#[derive(Debug, Clone)]
pub struct CpdMatch {
    pub start: usize,
    pub end: usize,
    pub matching_file: String,
    pub match_start: usize,
    pub match_end: usize,
}

impl View for CpdMatch {
    type V = CpdMatchView;

    open spec fn view(&self) -> CpdMatchView {
        CpdMatchView {
            start: self.start as int,
            end: self.end as int,
            matching_file: self.matching_file@,
            match_start: self.match_start as int,
            match_end: self.match_end as int,
        }
    }
}

/// The report of one file as a mathematical value.
pub struct CpdReportView {
    pub filename: Seq<char>,
    pub matches: Seq<CpdMatchView>,
}

/// The report of one file: its path and its duplicate regions, in the order
/// of their first line.
#[derive(Debug, Clone)]
pub struct CpdReport {
    pub filename: String,
    pub matches: Vec<CpdMatch>,
}

/// The mathematical values of a list of report regions.
pub open spec fn match_views(list: Seq<CpdMatch>) -> Seq<CpdMatchView> {
    list.map_values(|m: CpdMatch| m@)
}

impl View for CpdReport {
    type V = CpdReportView;

    open spec fn view(&self) -> CpdReportView {
        CpdReportView { filename: self.filename@, matches: match_views(self.matches@) }
    }
}

/// The mathematical values of a list of file reports.
pub open spec fn report_views(list: Seq<CpdReport>) -> Seq<CpdReportView> {
    list.map_values(|r: CpdReport| r@)
}

/// A region with the path of its remote file in place of the file id.
pub open spec fn named(m: Region, files: Seq<Seq<char>>) -> CpdMatchView {
    CpdMatchView {
        start: m.start,
        end: m.end,
        matching_file: files[m.file],
        match_start: m.remote_start,
        match_end: m.remote_end,
    }
}

/// The report of the file `file` with the given regions.
pub open spec fn file_report(
    files: Seq<Seq<char>>,
    file: int,
    regions: Seq<Region>,
) -> CpdReportView {
    CpdReportView {
        filename: files[file],
        matches: regions.map_values(|m: Region| named(m, files)),
    }
}

/// The report of the first `n` files: in file order, one entry for each file
/// that has a duplicate region.
pub open spec fn report(
    files: Seq<Seq<char>>,
    file_map: Seq<Vec<Candidate>>,
    index: HashIndex,
    w: int,
    n: int,
) -> Seq<CpdReportView>
    decreases n,
{
    if n <= 0 {
        Seq::empty()
    } else {
        let earlier = report(files, file_map, index, w, n - 1);
        let regions = file_regions(n - 1, candidates_of(file_map, n - 1), index, w);
        if regions.len() > 0 {
            earlier.push(file_report(files, n - 1, regions))
        } else {
            earlier
        }
    }
}

/// The duplicate regions of one file with the paths of the files that they
/// point at.
pub fn name_matches(matches: &Vec<CopyPasteMatch>, files: &Vec<String>) -> (r: Vec<CpdMatch>)
    requires
        forall|k: int| 0 <= k < matches.len() ==> (#[trigger] matches[k]).file < files.len(),
    ensures
        match_views(r@) == region_views(matches@).map_values(|m: Region| named(m, texts(files@))),
{
    let ghost names = texts(files@);
    let ghost wanted = region_views(matches@).map_values(|m: Region| named(m, names));
    let mut out: Vec<CpdMatch> = Vec::new();
    let mut k: usize = 0;
    while k < matches.len()
        invariant
            k <= matches.len(),
            names == texts(files@),
            wanted == region_views(matches@).map_values(|m: Region| named(m, names)),
            forall|j: int| 0 <= j < matches.len() ==> (#[trigger] matches[j]).file < files.len(),
            out.len() == k,
            forall|j: int| 0 <= j < k ==> (#[trigger] out[j])@ == wanted[j],
        decreases matches.len() - k,
    {
        let m = matches[k];
        out.push(
            CpdMatch {
                start: m.start,
                end: m.end,
                matching_file: files[m.file].clone(),
                match_start: m.remote_start,
                match_end: m.remote_end,
            },
        );
        k += 1;
    }
    assert(match_views(out@) =~= wanted);
    out
}

/// The report of a run. The files are taken in the order of their ids; a
/// file with no duplicate region has no entry. The regions of each entry are
/// those of `matches_for_file`, in the order of their first line.
pub fn build_report(index: &CpdIndex, file_map: &Vec<Vec<Candidate>>, min_lines: usize) -> (r: Vec<
    CpdReport,
>)
    requires
        index.wf(),
        min_lines <= usize::MAX / 2,
        forall|f: int|
            0 <= f < file_map.len() ==> ordered(candidate_views(#[trigger] file_map[f]@)),
    ensures
        report_views(r@) == report(
            texts(index.files@),
            file_map@,
            index.lines,
            min_lines as int,
            index.files.len() as int,
        ),
{
    let ghost names = texts(index.files@);
    let ghost w = min_lines as int;
    let mut out: Vec<CpdReport> = Vec::new();
    let mut f: usize = 0;
    assert(report_views(out@) =~= report(names, file_map@, index.lines, w, 0));
    while f < index.files.len()
        invariant
            f <= index.files.len(),
            index.wf(),
            min_lines <= usize::MAX / 2,
            w == min_lines as int,
            names == texts(index.files@),
            forall|g: int|
                0 <= g < file_map.len() ==> ordered(candidate_views(#[trigger] file_map[g]@)),
            report_views(out@) == report(names, file_map@, index.lines, w, f as int),
        decreases index.files.len() - f,
    {
        let ghost candidates = candidates_of(file_map@, f as int);
        let matches = matches_for_file(f, file_map, &index.lines, min_lines);
        let ghost before = report_views(out@);
        if matches.len() > 0 {
            proof {
                lemma_file_regions_files(
                    f as int,
                    candidates,
                    index.lines,
                    w,
                    index.files.len() as int,
                );
                assert forall|k: int| 0 <= k < matches.len() implies (#[trigger] matches[k]).file
                    < index.files.len() by {
                    assert(region_views(matches@)[k] == matches[k]@);
                }
            }
            let named_matches = name_matches(&matches, &index.files);
            out.push(CpdReport { filename: index.files[f].clone(), matches: named_matches });
            assert(report_views(out@) =~= before.push(
                file_report(names, f as int, region_views(matches@)),
            ));
        }
        f += 1;
    }
    out
}

/// Whether `r` is the report of a walk that found `entries`, for windows of
/// `w` lines: the report of the index of these entries and of its candidate
/// map.
pub open spec fn is_report_of(entries: Seq<FileEntry>, w: int, r: Seq<CpdReportView>) -> bool {
    exists|index: CpdIndex, file_map: Seq<Vec<Candidate>>|
        index.is_index_of(entries, w) && #[trigger] is_dup_map(
            index.lines,
            index.files.len() as int,
            file_map,
        ) && r == report(texts(index.files@), file_map, index.lines, w, index.files.len() as int)
}

/// A whole run over the entries of a walk: the index is built, the candidate
/// map is derived from it, and the regions of every file are reported.
pub fn detect(entries: &Vec<FileEntry>, min_lines: usize) -> (r: Vec<CpdReport>)
    requires
        0 < min_lines <= usize::MAX / 2,
    ensures
        is_report_of(entries@, min_lines as int, report_views(r@)),
{
    let index = build_n_gram_index(entries, min_lines);
    let file_map = index.build_dup_map();
    build_report(&index, &file_map, min_lines)
}

} // verus!
