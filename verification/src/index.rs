//! The hash index: for each window digest, the places where a window with
//! that digest starts.

use crate::text::{
    digest_text, join_parts, joined, split_lines, text_digest, text_lines, texts, trim_text,
    trimmed,
};
use std::collections::HashMap;
use vstd::prelude::*;
use vstd::slice::slice_subrange;
use vstd::utf8::encode_utf8;

verus! {

/// A window is indexed only if its text has at least this many characters.
pub const MIN_WINDOW_LENGTH: usize = 15;

/// The most lines of one file that are indexed. Line numbers up to this
/// bound can be added to each other and to a window size without overflow.
pub const MAX_LINES: usize = usize::MAX / 4;

/// The start of one window: a file id and a 1-based line.
#[derive(Debug, Clone, Copy, PartialEq, Eq, Structural)]
pub struct Location {
    pub file: usize,
    pub line: usize,
}

/// One digest of the index with the places where it was seen, oldest first.
#[derive(Debug, Clone)]
pub struct HashEntry {
    pub hash: String,
    pub locations: Vec<Location>,
}

/// Finds the entry of a digest without looking at every entry: the positions
/// of the entries are filed under a number drawn from their digest.
#[derive(Debug, Clone)]
pub struct SlotTable {
    table: HashMap<u64, Vec<usize>>,
}

/// The number drawn from the first `n` bytes: each byte shifts the number by
/// eight bits, and what does not fit in sixty-four bits falls off.
spec fn folded(bytes: Seq<u8>, n: int) -> int
    decreases n,
{
    if n <= 0 {
        0
    } else {
        (folded(bytes, n - 1) % 0x0100_0000_0000_0000) * 256 + bytes[n - 1]
    }
}

/// The number under which the position of a digest is filed.
spec fn bucket(hash: Seq<char>) -> int {
    folded(encode_utf8(hash), encode_utf8(hash).len() as int)
}

/// The number under which the position of a digest is filed.
fn bucket_of(hash: &String) -> (key: u64)
    ensures
        key == bucket(hash@),
{
    let bytes = hash.as_str().as_bytes();
    let mut key: u64 = 0;
    let mut i: usize = 0;
    while i < bytes.len()
        invariant
            i <= bytes.len(),
            key == folded(bytes@, i as int),
        decreases bytes.len() - i,
    {
        key = (key % 0x0100_0000_0000_0000) * 256 + bytes[i] as u64;
        i += 1;
    }
    key
}

impl SlotTable {
    /// Whether the table files the positions of these entries: every
    /// position once, under the number of its digest, and nothing else.
    pub closed spec fn files(&self, entries: Seq<HashEntry>) -> bool {
        &&& forall|k: u64, p: int|
            self.table@.contains_key(k) && 0 <= p < self.table@[k]@.len() ==> (
            #[trigger] self.table@[k]@[p]) < entries.len() && bucket(
                entries[self.table@[k]@[p] as int].hash@,
            ) == k
        &&& forall|i: int|
            0 <= i < entries.len() ==> 0 <= bucket((#[trigger] entries[i]).hash@) <= u64::MAX
                && self.table@.contains_key(bucket(entries[i].hash@) as u64)
                && self.table@[bucket(entries[i].hash@) as u64]@.contains(i as usize)
    }

    /// A table that files the positions of some entries files those of any
    /// entries with the same digests.
    pub proof fn lemma_same_digests(&self, first: Seq<HashEntry>, second: Seq<HashEntry>)
        requires
            self.files(first),
            first.len() == second.len(),
            forall|i: int| 0 <= i < first.len() ==> first[i].hash@ == second[i].hash@,
        ensures
            self.files(second),
    {
        assert forall|k: u64, p: int|
            self.table@.contains_key(k) && 0 <= p < self.table@[k]@.len() implies (
        #[trigger] self.table@[k]@[p]) < second.len() && bucket(
            second[self.table@[k]@[p] as int].hash@,
        ) == k by {
            let entry = first[self.table@[k]@[p] as int];
        }
        assert forall|i: int| 0 <= i < second.len() implies 0 <= bucket(
            (#[trigger] second[i]).hash@,
        ) <= u64::MAX && self.table@.contains_key(bucket(second[i].hash@) as u64)
            && self.table@[bucket(second[i].hash@) as u64]@.contains(i as usize) by {
            let entry = first[i];
        }
    }

    /// The table of no entries.
    pub fn new() -> (r: Self)
        ensures
            r.files(Seq::empty()),
    {
        broadcast use vstd::std_specs::hash::group_hash_axioms;

        SlotTable { table: HashMap::new() }
    }

    /// The position of the entry for `hash`, or `None` when there is none.
    pub fn find(&self, entries: &Vec<HashEntry>, hash: &String) -> (r: Option<usize>)
        requires
            self.files(entries@),
        ensures
            match r {
                Some(i) => i < entries.len() && entries[i as int].hash@ == hash@,
                None => forall|i: int| 0 <= i < entries.len() ==> entries[i].hash@ != hash@,
            },
    {
        broadcast use vstd::std_specs::hash::group_hash_axioms;

        let key = bucket_of(hash);
        match self.table.get(&key) {
            Some(filed) => {
                let mut p: usize = 0;
                while p < filed.len()
                    invariant
                        p <= filed.len(),
                        self.files(entries@),
                        self.table@.contains_key(key),
                        self.table@[key] == *filed,
                        forall|q: int|
                            0 <= q < p ==> entries[(#[trigger] filed[q]) as int].hash@ != hash@,
                    decreases filed.len() - p,
                {
                    let i = filed[p];
                    assert(self.table@[key]@[p as int] == i);
                    if entries[i].hash == *hash {
                        return Some(i);
                    }
                    p += 1;
                }
                proof {
                    assert forall|i: int| 0 <= i < entries.len() implies entries[i].hash@
                        != hash@ by {
                        let entry = entries[i];
                        if entry.hash@ == hash@ {
                            let q = choose|q: int| 0 <= q < filed@.len() && filed@[q] == i as usize;
                            assert(entries[filed[q] as int].hash@ != hash@);
                        }
                    }
                }
                None
            },
            None => {
                proof {
                    assert forall|i: int| 0 <= i < entries.len() implies entries[i].hash@
                        != hash@ by {
                        let entry = entries[i];
                    }
                }
                None
            },
        }
    }

    /// Files the position of the last entry, which is new.
    pub fn file_last(&mut self, entries: &Vec<HashEntry>)
        requires
            entries.len() > 0,
            old(self).files(entries@.drop_last()),
        ensures
            final(self).files(entries@),
    {
        broadcast use vstd::std_specs::hash::group_hash_axioms;

        let position = entries.len() - 1;
        let number = bucket_of(&entries[position].hash);
        let mut filed = match self.table.remove(&number) {
            Some(filed) => filed,
            None => Vec::new(),
        };
        let ghost before = filed@;
        filed.push(position);
        self.table.insert(number, filed);
        proof {
            let earlier = entries@.drop_last();
            assert forall|k: u64, p: int|
                self.table@.contains_key(k) && 0 <= p < self.table@[k]@.len() implies (
            #[trigger] self.table@[k]@[p]) < entries.len() && bucket(
                entries[self.table@[k]@[p] as int].hash@,
            ) == k by {
                if k != number || p < before.len() {
                    let at = old(self).table@[k]@[p];
                    let entry = earlier[at as int];
                }
            }
            assert forall|i: int| 0 <= i < entries.len() implies 0 <= bucket(
                (#[trigger] entries[i]).hash@,
            ) <= u64::MAX && self.table@.contains_key(bucket(entries[i].hash@) as u64)
                && self.table@[bucket(entries[i].hash@) as u64]@.contains(i as usize) by {
                if i < position {
                    let entry = earlier[i];
                    let b = bucket(entry.hash@) as u64;
                    let list = old(self).table@[b]@;
                    let q = choose|q: int| 0 <= q < list.len() && list[q] == i as usize;
                    assert(self.table@[b]@[q] == i as usize);
                } else {
                    assert(self.table@[number]@[before.len() as int] == i as usize);
                }
            }
        }
    }
}

/// A map from digest to a non-empty list of locations. The entries stand in
/// the order in which the digests were first seen.
#[derive(Debug, Clone)]
pub struct HashIndex {
    pub entries: Vec<HashEntry>,
    pub slots: SlotTable,
}

impl HashIndex {
    /// Whether some entry has the digest `hash`.
    pub open spec fn contains(&self, hash: Seq<char>) -> bool {
        exists|i: int| 0 <= i < self.entries.len() && self.entries[i].hash@ == hash
    }

    /// The position of an entry with the digest `hash`, if there is one.
    pub open spec fn slot(&self, hash: Seq<char>) -> int {
        choose|i: int| 0 <= i < self.entries.len() && self.entries[i].hash@ == hash
    }

    /// The locations recorded under `hash`, oldest first; empty when the
    /// digest was never seen.
    pub open spec fn occurrences(&self, hash: Seq<char>) -> Seq<Location> {
        if self.contains(hash) {
            self.entries[self.slot(hash)].locations@
        } else {
            Seq::empty()
        }
    }

    /// No digest has two entries, no entry is without a location, and the
    /// positions of the entries are filed.
    pub open spec fn wf(&self) -> bool {
        &&& forall|i: int, j: int|
            0 <= i < j < self.entries.len() ==> self.entries[i].hash@ != self.entries[j].hash@
        &&& forall|i: int| 0 <= i < self.entries.len() ==> self.entries[i].locations.len() > 0
        &&& self.slots.files(self.entries@)
    }

    /// Every recorded line is a line number from 1 to `MAX_LINES`.
    pub open spec fn bounded(&self) -> bool {
        forall|h: Seq<char>, j: int|
            0 <= j < self.occurrences(h).len() ==> 1 <= (#[trigger] self.occurrences(h)[j]).line
                <= MAX_LINES
    }

    /// The index is well formed, every recorded location lies in a file below
    /// `file_count` on a line from 1 to `MAX_LINES`, and no location is
    /// recorded twice, under one digest or under two.
    pub open spec fn sound(&self, file_count: int) -> bool {
        &&& self.wf()
        &&& self.bounded()
        &&& forall|h: Seq<char>, j: int|
            0 <= j < self.occurrences(h).len() ==> (#[trigger] self.occurrences(h)[j]).file
                < file_count
        &&& forall|h1: Seq<char>, j1: int, h2: Seq<char>, j2: int|
            0 <= j1 < self.occurrences(h1).len() && 0 <= j2 < self.occurrences(h2).len() && (h1
                != h2 || j1 != j2) ==> #[trigger] self.occurrences(h1)[j1]
                != #[trigger] self.occurrences(h2)[j2]
    }

    /// In a well-formed index the entry at `i` holds all the occurrences of
    /// its digest.
    pub proof fn lemma_entry_occurrences(&self, i: int)
        requires
            self.wf(),
            0 <= i < self.entries.len(),
        ensures
            self.contains(self.entries[i].hash@),
            self.slot(self.entries[i].hash@) == i,
            self.occurrences(self.entries[i].hash@) == self.entries[i].locations@,
    {
    }

    /// The index of nothing.
    pub fn new() -> (r: Self)
        ensures
            r.entries@.len() == 0,
            r.wf(),
            forall|h: Seq<char>| r.occurrences(h) == Seq::<Location>::empty(),
    {
        HashIndex { entries: Vec::new(), slots: SlotTable::new() }
    }

    /// The position of the entry for `hash`, or `None` when there is none.
    pub fn find(&self, hash: &String) -> (r: Option<usize>)
        requires
            self.wf(),
        ensures
            match r {
                Some(i) => i < self.entries.len() && self.entries[i as int].hash@ == hash@,
                None => !self.contains(hash@),
            },
    {
        self.slots.find(&self.entries, hash)
    }

    /// The locations recorded under `hash`, or `None` when there are none.
    pub fn get(&self, hash: &String) -> (r: Option<&Vec<Location>>)
        requires
            self.wf(),
        ensures
            match r {
                Some(v) => v@ == self.occurrences(hash@) && v@.len() > 0,
                None => self.occurrences(hash@).len() == 0,
            },
    {
        match self.find(hash) {
            Some(i) => {
                proof {
                    self.lemma_entry_occurrences(i as int);
                }
                Some(&self.entries[i].locations)
            },
            None => None,
        }
    }

    /// Records `loc` as the newest occurrence of `hash`.
    pub fn record(&mut self, hash: String, loc: Location)
        requires
            old(self).wf(),
        ensures
            final(self).wf(),
            forall|h: Seq<char>|
                #[trigger] final(self).occurrences(h) == if h == hash@ {
                    old(self).occurrences(h).push(loc)
                } else {
                    old(self).occurrences(h)
                },
    {
        let ghost key = hash@;
        match self.find(&hash) {
            Some(i) => {
                self.entries[i].locations.push(loc);
                proof {
                    self.slots.lemma_same_digests(old(self).entries@, self.entries@);
                    assert forall|h: Seq<char>|
                        #[trigger] self.occurrences(h) == if h == key {
                            old(self).occurrences(h).push(loc)
                        } else {
                            old(self).occurrences(h)
                        } by {
                        if old(self).contains(h) {
                            let s = old(self).slot(h);
                            old(self).lemma_entry_occurrences(s);
                            self.lemma_entry_occurrences(s);
                        } else if self.contains(h) {
                            let s = self.slot(h);
                            assert(old(self).entries[s].hash@ == h);
                        }
                    }
                }
            },
            None => {
                let mut locations: Vec<Location> = Vec::new();
                locations.push(loc);
                self.entries.push(HashEntry { hash, locations });
                assert(self.entries@.drop_last() =~= old(self).entries@);
                self.slots.file_last(&self.entries);
                proof {
                    let last = self.entries.len() - 1;
                    assert forall|h: Seq<char>|
                        #[trigger] self.occurrences(h) == if h == key {
                            old(self).occurrences(h).push(loc)
                        } else {
                            old(self).occurrences(h)
                        } by {
                        if old(self).contains(h) {
                            let s = old(self).slot(h);
                            old(self).lemma_entry_occurrences(s);
                            self.lemma_entry_occurrences(s);
                        } else if h == key {
                            self.lemma_entry_occurrences(last);
                            assert(self.entries[last].locations@ =~= Seq::<Location>::empty().push(
                                loc,
                            ));
                        } else if self.contains(h) {
                            let s = self.slot(h);
                            assert(old(self).entries[s].hash@ == h);
                        }
                    }
                }
            },
        }
    }
}

/// The `w` lines from index `k`, each trimmed.
pub open spec fn trimmed_window(lines: Seq<Seq<char>>, k: int, w: int) -> Seq<Seq<char>> {
    lines.subrange(k, k + w).map_values(|l: Seq<char>| trimmed(l))
}

/// The text of the window of `w` lines that starts at index `k`: each line
/// trimmed, the trimmed lines joined by a newline.
pub open spec fn window_text(lines: Seq<Seq<char>>, k: int, w: int) -> Seq<char> {
    joined(trimmed_window(lines, k, w), seq!['\n'])
}

/// Whether the window at index `k` is long enough to be indexed.
pub open spec fn window_is_indexed(lines: Seq<Seq<char>>, k: int, w: int) -> bool {
    window_text(lines, k, w).len() >= MIN_WINDOW_LENGTH
}

/// The digest under which the window at index `k` is indexed: that of its
/// text as it stands.
pub open spec fn window_key(lines: Seq<Seq<char>>, k: int, w: int) -> Seq<char> {
    text_digest(window_text(lines, k, w))
}

/// The number of windows of `w` lines in a file of `n` lines.
pub open spec fn window_count(n: int, w: int) -> int {
    if 1 <= w <= n {
        n - w + 1
    } else {
        0
    }
}

/// The locations that the first `n` windows of a file add under the digest
/// `key`, in line order: window `k` adds line `k + 1` if it is long enough
/// and has that digest.
pub open spec fn window_locations(
    file: usize,
    lines: Seq<Seq<char>>,
    w: int,
    key: Seq<char>,
    n: int,
) -> Seq<Location>
    decreases n,
{
    if n <= 0 {
        Seq::empty()
    } else {
        let earlier = window_locations(file, lines, w, key, n - 1);
        if window_is_indexed(lines, n - 1, w) && window_key(lines, n - 1, w) == key {
            earlier.push(Location { file, line: n as usize })
        } else {
            earlier
        }
    }
}

/// The locations that a whole file of `lines` adds under the digest `key`.
pub open spec fn file_locations(file: usize, lines: Seq<Seq<char>>, w: int, key: Seq<char>) -> Seq<
    Location,
> {
    window_locations(file, lines, w, key, window_count(lines.len() as int, w))
}

/// What `window_locations` holds: only lines of windows that are indexed
/// under `key`, each such line among the first `n` windows, in strictly
/// increasing order.
pub proof fn lemma_window_locations(
    file: usize,
    lines: Seq<Seq<char>>,
    w: int,
    key: Seq<char>,
    n: int,
)
    requires
        0 <= n <= usize::MAX,
    ensures
        window_locations(file, lines, w, key, n).len() <= n,
        forall|j: int|
            0 <= j < window_locations(file, lines, w, key, n).len() ==> {
                let l = #[trigger] window_locations(file, lines, w, key, n)[j];
                &&& l.file == file
                &&& 1 <= l.line <= n
                &&& window_is_indexed(lines, l.line - 1, w)
                &&& window_key(lines, l.line - 1, w) == key
            },
        forall|a: int, b: int|
            0 <= a < b < window_locations(file, lines, w, key, n).len() ==> (
            #[trigger] window_locations(file, lines, w, key, n)[a]).line < (
            #[trigger] window_locations(file, lines, w, key, n)[b]).line,
        forall|k: int|
            0 <= k < n && window_is_indexed(lines, k, w) && #[trigger] window_key(lines, k, w)
                == key ==> window_locations(file, lines, w, key, n).contains(
                Location { file, line: (k + 1) as usize },
            ),
    decreases n,
{
    if n > 0 {
        lemma_window_locations(file, lines, w, key, n - 1);
        let earlier = window_locations(file, lines, w, key, n - 1);
        let all = window_locations(file, lines, w, key, n);
        assert forall|k: int|
            0 <= k < n && window_is_indexed(lines, k, w) && #[trigger] window_key(lines, k, w)
                == key implies all.contains(Location { file, line: (k + 1) as usize }) by {
            let l = Location { file, line: (k + 1) as usize };
            if k < n - 1 {
                let j = choose|j: int| 0 <= j < earlier.len() && earlier[j] == l;
                assert(all[j] == l);
            } else {
                assert(all[all.len() - 1] == l);
            }
        }
    }
}

/// Indexing one more file keeps an index sound: the new locations carry the
/// new file id and pairwise different lines.
pub proof fn lemma_file_keeps_sound(
    before: HashIndex,
    after: HashIndex,
    file: usize,
    lines: Seq<Seq<char>>,
    w: int,
)
    requires
        before.sound(file as int),
        after.wf(),
        lines.len() <= MAX_LINES,
        forall|h: Seq<char>|
            #[trigger] after.occurrences(h) == before.occurrences(h) + file_locations(
                file,
                lines,
                w,
                h,
            ),
    ensures
        after.sound(file + 1),
{
    let n = window_count(lines.len() as int, w);
    assert forall|h: Seq<char>, j: int| 0 <= j < after.occurrences(h).len() implies (
    #[trigger] after.occurrences(h)[j]).file < file + 1 && 1 <= after.occurrences(h)[j].line
        <= MAX_LINES by {
        lemma_window_locations(file, lines, w, h, n);
        let added = file_locations(file, lines, w, h);
        let m = before.occurrences(h).len() as int;
        if j < m {
            assert(after.occurrences(h)[j] == before.occurrences(h)[j]);
        } else {
            assert(after.occurrences(h)[j] == added[j - m]);
        }
    }
    assert forall|h1: Seq<char>, j1: int, h2: Seq<char>, j2: int|
        0 <= j1 < after.occurrences(h1).len() && 0 <= j2 < after.occurrences(h2).len() && (h1
            != h2 || j1 != j2) implies #[trigger] after.occurrences(h1)[j1]
        != #[trigger] after.occurrences(h2)[j2] by {
        lemma_window_locations(file, lines, w, h1, n);
        lemma_window_locations(file, lines, w, h2, n);
        let m1 = before.occurrences(h1).len() as int;
        let m2 = before.occurrences(h2).len() as int;
        let a1 = file_locations(file, lines, w, h1);
        let a2 = file_locations(file, lines, w, h2);
        if j1 < m1 {
            assert(after.occurrences(h1)[j1] == before.occurrences(h1)[j1]);
        } else {
            assert(after.occurrences(h1)[j1] == a1[j1 - m1]);
        }
        if j2 < m2 {
            assert(after.occurrences(h2)[j2] == before.occurrences(h2)[j2]);
        } else {
            assert(after.occurrences(h2)[j2] == a2[j2 - m2]);
        }
    }
}

/// Indexes the windows of `min_lines` lines of the file `file_index`, whose
/// lines are `text`. Every window whose trimmed, joined text has at least
/// `MIN_WINDOW_LENGTH` characters is recorded under its digest with its
/// 1-based start line; nothing else changes.
pub fn hash_lines(file_index: usize, text: &Vec<String>, lines: &mut HashIndex, min_lines: usize)
    requires
        min_lines > 0,
        text.len() <= MAX_LINES,
        old(lines).wf(),
    ensures
        final(lines).wf(),
        forall|h: Seq<char>|
            #[trigger] final(lines).occurrences(h) == old(lines).occurrences(h) + file_locations(
                file_index,
                texts(text@),
                min_lines as int,
                h,
            ),
        old(lines).sound(file_index as int) ==> final(lines).sound(file_index + 1),
{
    hash_windows(file_index, text, lines, min_lines);
    proof {
        if old(lines).sound(file_index as int) {
            lemma_file_keeps_sound(*old(lines), *lines, file_index, texts(text@), min_lines as int);
        }
    }
}

/// The loop of `hash_lines`.
fn hash_windows(file_index: usize, text: &Vec<String>, lines: &mut HashIndex, min_lines: usize)
    requires
        min_lines > 0,
        text.len() <= MAX_LINES,
        old(lines).wf(),
    ensures
        final(lines).wf(),
        forall|h: Seq<char>|
            #[trigger] final(lines).occurrences(h) == old(lines).occurrences(h) + file_locations(
                file_index,
                texts(text@),
                min_lines as int,
                h,
            ),
{
    let n = text.len();
    let ghost source = texts(text@);
    let ghost w = min_lines as int;
    assert forall|h: Seq<char>|
        #[trigger] lines.occurrences(h) == old(lines).occurrences(h) + window_locations(
            file_index,
            source,
            w,
            h,
            0,
        ) by {
        assert(lines.occurrences(h) =~= lines.occurrences(h) + Seq::<Location>::empty());
    }
    if n < min_lines {
        return ;
    }
    let mut stripped: Vec<String> = Vec::new();
    let mut i: usize = 0;
    while i < n
        invariant
            n == text.len(),
            i <= n,
            stripped.len() == i,
            forall|j: int| 0 <= j < i ==> (#[trigger] stripped[j])@ == trimmed(text[j]@),
        decreases n - i,
    {
        let t = trim_text(text[i].as_str());
        stripped.push(t.to_owned());
        i += 1;
    }
    let count: usize = n - min_lines + 1;
    let mut k: usize = 0;
    while k < count
        invariant
            n == text.len(),
            n <= MAX_LINES,
            min_lines > 0,
            count == n - min_lines + 1,
            k <= count,
            w == min_lines as int,
            source == texts(text@),
            stripped.len() == n,
            forall|j: int| 0 <= j < n ==> (#[trigger] stripped[j])@ == trimmed(text[j]@),
            lines.wf(),
            forall|h: Seq<char>|
                #[trigger] lines.occurrences(h) == old(lines).occurrences(h) + window_locations(
                    file_index,
                    source,
                    w,
                    h,
                    k as int,
                ),
        decreases count - k,
    {
        let window = slice_subrange(stripped.as_slice(), k, k + min_lines);
        let line = join_parts(window, "\n");
        proof {
            reveal_strlit("\n");
            assert("\n"@ =~= seq!['\n']);
            assert(texts(window@) =~= source.subrange(k as int, k + w).map_values(
                |l: Seq<char>| trimmed(l),
            ));
            assert(line@ == window_text(source, k as int, w));
        }
        let ghost before = *lines;
        if line.as_str().unicode_len() >= MIN_WINDOW_LENGTH {
            let h = digest_text(line.as_str());
            let loc = Location { file: file_index, line: k + 1 };
            lines.record(h, loc);
            proof {
                assert forall|g: Seq<char>|
                    #[trigger] lines.occurrences(g) == old(lines).occurrences(g)
                        + window_locations(file_index, source, w, g, k + 1) by {
                    let earlier = window_locations(file_index, source, w, g, k as int);
                    assert(before.occurrences(g) == old(lines).occurrences(g) + earlier);
                    if g == h@ {
                        assert((old(lines).occurrences(g) + earlier).push(loc) =~= old(
                            lines,
                        ).occurrences(g) + earlier.push(loc));
                    }
                }
            }
        } else {
            proof {
                assert forall|g: Seq<char>|
                    #[trigger] lines.occurrences(g) == old(lines).occurrences(g)
                        + window_locations(file_index, source, w, g, k + 1) by {
                    assert(before.occurrences(g) == old(lines).occurrences(g) + window_locations(
                        file_index,
                        source,
                        w,
                        g,
                        k as int,
                    ));
                }
            }
        }
        k += 1;
    }
}

/// One entry of a directory walk, as the walker found it: its path, whether
/// it is a directory, and its text if it could be read as text.
#[derive(Debug, Clone)]
pub struct FileEntry {
    pub path: String,
    pub is_dir: bool,
    pub contents: Option<String>,
}

/// The lines of an entry whose windows are indexed: those of its text, if it
/// has one with at most `MAX_LINES` lines.
pub open spec fn readable_lines(entry: FileEntry) -> Option<Seq<Seq<char>>> {
    match entry.contents {
        Some(c) => if text_lines(c@).len() <= MAX_LINES {
            Some(text_lines(c@))
        } else {
            None
        },
        None => None,
    }
}

/// The locations that an entry adds under the digest `key` when it is given
/// the file id `file`.
pub open spec fn entry_locations(file: usize, entry: FileEntry, w: int, key: Seq<char>) -> Seq<
    Location,
> {
    match readable_lines(entry) {
        Some(lines) => file_locations(file, lines, w, key),
        None => Seq::empty(),
    }
}

/// Takes one walked entry into the index. A directory changes nothing. Any
/// other entry gets the next file id, whether or not it can be read; if it
/// has text, every window of `min_lines` lines is indexed as `hash_lines`
/// does it. A text of more than `MAX_LINES` lines is treated as unreadable.
pub fn hash_file(
    entry: &FileEntry,
    files: &mut Vec<String>,
    lines: &mut HashIndex,
    min_lines: usize,
)
    requires
        min_lines > 0,
        old(lines).wf(),
    ensures
        final(lines).wf(),
        entry.is_dir ==> texts(final(files)@) == texts(old(files)@) && forall|h: Seq<char>|
            #[trigger] final(lines).occurrences(h) == old(lines).occurrences(h),
        !entry.is_dir ==> texts(final(files)@) == texts(old(files)@).push(entry.path@)
            && forall|h: Seq<char>|
            #[trigger] final(lines).occurrences(h) == old(lines).occurrences(h) + entry_locations(
                old(files).len(),
                *entry,
                min_lines as int,
                h,
            ),
        old(lines).sound(old(files).len() as int) ==> final(lines).sound(final(files).len() as int),
{
    if entry.is_dir {
        return ;
    }
    let ghost names = texts(files@);
    files.push(entry.path.clone());
    assert(texts(files@) =~= names.push(entry.path@));
    let file_index = files.len() - 1;
    proof {
        assert forall|h: Seq<char>|
            #[trigger] lines.occurrences(h) == lines.occurrences(h) + Seq::<Location>::empty() by {
            assert(lines.occurrences(h) =~= lines.occurrences(h) + Seq::<Location>::empty());
        }
    }
    match &entry.contents {
        Some(text) => {
            let split = split_lines(text.as_str());
            if split.len() <= MAX_LINES {
                hash_lines(file_index, &split, lines, min_lines);
            }
        },
        None => {},
    }
}

/// The files and the hash index of one run.
#[derive(Debug, Clone)]
pub struct CpdIndex {
    pub files: Vec<String>,
    pub lines: HashIndex,
}

/// The paths of the files among the first `n` entries, in order: every entry
/// that is no directory.
pub open spec fn scanned_files(entries: Seq<FileEntry>, n: int) -> Seq<Seq<char>>
    decreases n,
{
    if n <= 0 {
        Seq::empty()
    } else if entries[n - 1].is_dir {
        scanned_files(entries, n - 1)
    } else {
        scanned_files(entries, n - 1).push(entries[n - 1].path@)
    }
}

/// The file id of entry `e` of a walk, if it is no directory: the number of
/// files before it.
pub open spec fn file_id(entries: Seq<FileEntry>, e: int) -> int {
    scanned_files(entries, e).len() as int
}

/// The locations recorded under the digest `key` once the first `n` entries
/// are indexed: each file adds its own after those of the files before it.
pub open spec fn scanned_locations(entries: Seq<FileEntry>, w: int, key: Seq<char>, n: int) -> Seq<
    Location,
>
    decreases n,
{
    if n <= 0 {
        Seq::empty()
    } else if entries[n - 1].is_dir {
        scanned_locations(entries, w, key, n - 1)
    } else {
        scanned_locations(entries, w, key, n - 1) + entry_locations(
            scanned_files(entries, n - 1).len() as usize,
            entries[n - 1],
            w,
            key,
        )
    }
}

impl CpdIndex {
    /// The hash index is sound for the files of this index.
    pub open spec fn wf(&self) -> bool {
        self.lines.sound(self.files.len() as int)
    }

    /// Whether this is the index of a walk that found `entries`, for windows
    /// of `w` lines: its files are the entries that are no directories, and
    /// under each digest it holds the locations that these files add.
    pub open spec fn is_index_of(&self, entries: Seq<FileEntry>, w: int) -> bool {
        &&& self.wf()
        &&& texts(self.files@) == scanned_files(entries, entries.len() as int)
        &&& forall|h: Seq<char>|
            #[trigger] self.lines.occurrences(h) == scanned_locations(
                entries,
                w,
                h,
                entries.len() as int,
            )
    }
}

/// Builds the index of a walk: the entries are taken in order, each by
/// `hash_file`.
pub fn build_n_gram_index(entries: &Vec<FileEntry>, min_lines: usize) -> (index: CpdIndex)
    requires
        min_lines > 0,
    ensures
        index.is_index_of(entries@, min_lines as int),
{
    let mut files: Vec<String> = Vec::new();
    let mut lines = HashIndex::new();
    let mut i: usize = 0;
    assert(texts(files@) =~= scanned_files(entries@, 0));
    while i < entries.len()
        invariant
            i <= entries.len(),
            min_lines > 0,
            lines.sound(files.len() as int),
            texts(files@) == scanned_files(entries@, i as int),
            forall|h: Seq<char>|
                #[trigger] lines.occurrences(h) == scanned_locations(
                    entries@,
                    min_lines as int,
                    h,
                    i as int,
                ),
        decreases entries.len() - i,
    {
        let ghost count = files.len();
        assert(count == scanned_files(entries@, i as int).len());
        hash_file(&entries[i], &mut files, &mut lines, min_lines);
        i += 1;
    }
    CpdIndex { files, lines }
}

} // verus!
