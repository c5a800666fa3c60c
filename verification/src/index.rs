//! The tag index: the files that were scanned, one record per tag found in
//! them, and for each distinct name the list of its tag records.
use vstd::prelude::*;
use vstd::hash_map::StringHashMap;
use itertools::Itertools;
use crate::query::{
    table_view,
    sorted_by_name,
    table_fits,
    lookup_found,
    lookup_list,
    search,
    lemma_search_finds_present,
};

verus! {

/// One tag found in a source file: in which file, whether it defines or
/// references its name, its syntax kind, and where the name starts
/// (1-based row and column).
#[derive(Clone, Copy, Debug, PartialEq, Eq, Structural)]
pub struct TagEntry {
    pub file_index: usize,
    pub is_definition: bool,
    pub syntax_type_id: u32,
    pub row: usize,
    pub column: usize,
}

impl TagEntry {
    /// The all-zero record, whose encoded size is the size of every record.
    pub fn new() -> (e: TagEntry)
        ensures
            e == (TagEntry { file_index: 0, is_definition: false, syntax_type_id: 0, row: 0, column: 0 }),
    {
        TagEntry { file_index: 0, is_definition: false, syntax_type_id: 0, row: 0, column: 0 }
    }

    /// Whether the tag is of the kind searched for: a definition, or a
    /// reference.
    pub fn has_kind(&self, is_definition: bool) -> (r: bool)
        ensures
            r == (self.is_definition == is_definition),
    {
        self.is_definition == is_definition
    }
}

/// A scanned file: its path and its modification time in seconds since
/// the epoch.
#[derive(Clone, Debug)]
pub struct TagFile {
    pub path: String,
    pub modification: u64,
}

/// The index that a scan builds.
///
/// `name` maps each distinct tag name to the position of its list in
/// `name_entry`; `names[k]` is the name whose list is `name_entry[k]`;
/// `name_entry[k]` holds, in increasing order, the positions in `entry` of
/// the tags with that name; `owner[e]` is the list that holds entry `e`.
pub struct TagData {
    name: StringHashMap<usize>,
    names: Vec<String>,
    name_entry: Vec<Vec<usize>>,
    file: Vec<TagFile>,
    entry: Vec<TagEntry>,
    owner: Ghost<Seq<usize>>,
}

/// A sequence of positions is strictly increasing.
pub open spec fn strictly_increasing(s: Seq<usize>) -> bool {
    forall|i: int, j: int| 0 <= i < j < s.len() ==> s[i] < s[j]
}

/// The positions in `s` that hold `n`, in increasing order.
pub open spec fn positions_of(s: Seq<Seq<char>>, n: Seq<char>) -> Seq<usize>
    decreases s.len(),
{
    if s.len() == 0 {
        Seq::empty()
    } else {
        let rest = positions_of(s.drop_last(), n);
        if s.last() == n {
            rest.push((s.len() - 1) as usize)
        } else {
            rest
        }
    }
}

/// The positions of `n` after one more item: the new position joins them
/// when the item is `n`.
pub proof fn lemma_positions_of_push(s: Seq<Seq<char>>, x: Seq<char>, n: Seq<char>)
    ensures
        positions_of(s.push(x), n) == (if x == n {
            positions_of(s, n).push(s.len() as usize)
        } else {
            positions_of(s, n)
        }),
{
    assert(s.push(x).drop_last() =~= s);
}

/// A sequence without `n` has no positions of `n`.
pub proof fn lemma_positions_of_absent(s: Seq<Seq<char>>, n: Seq<char>)
    requires
        !s.contains(n),
    ensures
        positions_of(s, n) == Seq::<usize>::empty(),
    decreases s.len(),
{
    if s.len() > 0 {
        assert(s[s.len() - 1] == s.last());
        assert forall|i: int| 0 <= i < s.drop_last().len() implies s.drop_last()[i] != n by {
            assert(s[i] == s.drop_last()[i]);
        }
        lemma_positions_of_absent(s.drop_last(), n);
    }
}

impl TagData {
    /// The name of each tag record, in the order in which they were added.
    pub closed spec fn record_names(&self) -> Seq<Seq<char>> {
        Seq::new(self.entry@.len(), |e: int| self.names@[self.owner@[e] as int]@)
    }

    /// The tag records, in the order in which they were added.
    pub closed spec fn entry_seq(&self) -> Seq<TagEntry> {
        self.entry@
    }

    /// The scanned files, in the order in which they were added.
    pub closed spec fn file_seq(&self) -> Seq<TagFile> {
        self.file@
    }

    /// The distinct names, in the order in which they were first seen;
    /// position `k` is the position of the name's list.
    pub closed spec fn name_seq(&self) -> Seq<Seq<char>> {
        self.names@.map_values(|s: String| s@)
    }

    /// The lists of tag records, one per distinct name.
    pub closed spec fn list_seq(&self) -> Seq<Seq<usize>> {
        self.name_entry@.map_values(|v: Vec<usize>| v@)
    }

    /// Whether some tag has this name.
    pub closed spec fn has_name(&self, n: Seq<char>) -> bool {
        self.name@.contains_key(n)
    }

    /// The positions of the tag records with this name, in the order in
    /// which they were added; empty for a name that no tag has.
    pub closed spec fn occurrences(&self, n: Seq<char>) -> Seq<usize> {
        if self.name@.contains_key(n) {
            self.name_entry@[self.name@[n] as int]@
        } else {
            Seq::empty()
        }
    }

    /// Some name lists record `e`.
    pub open spec fn lists_record(&self, e: usize) -> bool {
        exists|n: Seq<char>| self.has_name(n) && #[trigger] self.occurrences(n).contains(e)
    }

    /// Each distinct name with the position of its list.
    pub closed spec fn table_pairs(&self) -> Seq<(Seq<char>, usize)> {
        Seq::new(self.names@.len(), |k: int| (self.names@[k]@, k as usize))
    }

    /// The index is consistent.
    pub closed spec fn wf(&self) -> bool {
        &&& self.names@.len() == self.name_entry@.len()
        &&& forall|k: int|
            0 <= k < self.names@.len() ==> #[trigger] self.name@.contains_key(self.names@[k]@)
                && self.name@[self.names@[k]@] == k
        &&& forall|n: Seq<char>|
            #[trigger] self.name@.contains_key(n) ==> self.name@[n] < self.names@.len()
                && self.names@[self.name@[n] as int]@ == n
        &&& self.owner@.len() == self.entry@.len()
        &&& forall|e: int| 0 <= e < self.entry@.len() ==> #[trigger] self.owner@[e] < self.name_entry@.len()
        &&& forall|k: int, j: int|
            0 <= k < self.name_entry@.len() && 0 <= j < self.name_entry@[k]@.len() ==> {
                &&& #[trigger] self.name_entry@[k]@[j] < self.entry@.len()
                &&& self.owner@[self.name_entry@[k]@[j] as int] == k
            }
        &&& forall|k: int| 0 <= k < self.name_entry@.len() ==> strictly_increasing(#[trigger] self.name_entry@[k]@)
        &&& forall|e: int| 0 <= e < self.entry@.len() ==> #[trigger] self.name_entry@[self.owner@[e] as int]@.contains(e as usize)
        &&& forall|k: int| 0 <= k < self.name_entry@.len() ==> #[trigger] self.name_entry@[k]@.len() > 0
        &&& forall|k: int|
            0 <= k < self.name_entry@.len() ==> #[trigger] self.name_entry@[k]@ == positions_of(
                self.record_names(),
                self.names@[k]@,
            )
        &&& forall|e: int| 0 <= e < self.entry@.len() ==> #[trigger] self.entry@[e].file_index < self.file@.len()
    }

    /// An empty index.
    pub fn new() -> (d: TagData)
        ensures
            d.wf(),
            d.entry_seq() == Seq::<TagEntry>::empty(),
            d.file_seq() == Seq::<TagFile>::empty(),
            d.name_seq() == Seq::<Seq<char>>::empty(),
            d.list_seq() == Seq::<Seq<usize>>::empty(),
            forall|n: Seq<char>| !d.has_name(n),
            forall|n: Seq<char>| d.occurrences(n) == Seq::<usize>::empty(),
            d.record_names() == Seq::<Seq<char>>::empty(),
    {
        let d = TagData {
            name: StringHashMap::new(),
            names: vec![],
            name_entry: vec![],
            file: vec![],
            entry: vec![],
            owner: Ghost(Seq::empty()),
        };
        assert(d.name_seq() =~= Seq::<Seq<char>>::empty());
        assert(d.list_seq() =~= Seq::<Seq<usize>>::empty());
        assert(d.record_names() =~= Seq::<Seq<char>>::empty());
        d
    }

    /// Records a scanned file and returns its position, by which tag
    /// records refer to it.
    pub fn add_file(&mut self, path: String, modification: u64) -> (index: usize)
        requires
            old(self).wf(),
        ensures
            final(self).wf(),
            index == old(self).file_seq().len(),
            final(self).file_seq() == old(self).file_seq().push(TagFile { path, modification }),
            final(self).entry_seq() == old(self).entry_seq(),
            final(self).name_seq() == old(self).name_seq(),
            final(self).list_seq() == old(self).list_seq(),
            forall|n: Seq<char>| #[trigger] final(self).has_name(n) == old(self).has_name(n),
            forall|n: Seq<char>| #[trigger] final(self).occurrences(n) == old(self).occurrences(n),
            final(self).record_names() == old(self).record_names(),
    {
        self.file.push(TagFile { path, modification });
        self.file.len() - 1
    }

    /// Adds the record of a tag named `name`: the record goes last, and its
    /// position goes last in the list of that name, which is created when
    /// the name is new.
    pub fn add_tag(&mut self, name: String, entry: TagEntry)
        requires
            old(self).wf(),
            entry.file_index < old(self).file_seq().len(),
        ensures
            final(self).record_names() == old(self).record_names().push(name@),
            final(self).wf(),
            final(self).entry_seq() == old(self).entry_seq().push(entry),
            final(self).file_seq() == old(self).file_seq(),
            final(self).occurrences(name@) == old(self).occurrences(name@).push(
                old(self).entry_seq().len() as usize,
            ),
            forall|n: Seq<char>|
                n != name@ ==> #[trigger] final(self).occurrences(n) == old(self).occurrences(n),
            final(self).has_name(name@),
            forall|n: Seq<char>|
                n != name@ ==> #[trigger] final(self).has_name(n) == old(self).has_name(n),
            old(self).has_name(name@) ==> final(self).name_seq() == old(self).name_seq(),
            !old(self).has_name(name@) ==> final(self).name_seq() == old(self).name_seq().push(
                name@,
            ),
    {
        let ghost old_self = *self;
        let ghost e = self.entry@.len();
        self.entry.push(entry);
        let entry_index = self.entry.len() - 1;
        if !self.name.contains_key(name.as_str()) {
            let ghost k = self.name_entry@.len();
            self.name_entry.push(vec![entry_index]);
            let name_entry_index = self.name_entry.len() - 1;
            self.names.push(name.clone());
            self.name.insert(name, name_entry_index);
            self.owner = Ghost(self.owner@.push(k as usize));
            proof {
                assert(self.name_entry@[k as int]@ =~= seq![e as usize]);
                assert forall|kk: int| 0 <= kk < self.names@.len() implies #[trigger] self.name@.contains_key(
                    self.names@[kk]@,
                ) && self.name@[self.names@[kk]@] == kk by {
                    if kk < k {
                        assert(old_self.name@.contains_key(old_self.names@[kk]@));
                    }
                }
                assert forall|ee: int| 0 <= ee < self.entry@.len() implies #[trigger] self.name_entry@[self.owner@[ee] as int]@.contains(
                    ee as usize,
                ) by {
                    if ee < e {
                        assert(old_self.name_entry@[old_self.owner@[ee] as int]@.contains(ee as usize));
                    } else {
                        assert(self.name_entry@[k as int]@[0] == ee);
                    }
                }
                assert(self.name_seq() =~= old_self.name_seq().push(name@));
                let rn = old_self.record_names();
                assert(self.record_names() =~= rn.push(name@)) by {
                    assert forall|ee: int| 0 <= ee < e implies #[trigger] self.record_names()[ee] == rn[ee] by {
                        assert(old_self.owner@[ee] < old_self.names@.len());
                    }
                }
                assert(!rn.contains(name@)) by {
                    if rn.contains(name@) {
                        let ee = choose|ee: int| 0 <= ee < rn.len() && rn[ee] == name@;
                        assert(old_self.owner@[ee] < old_self.names@.len());
                        assert(old_self.name@.contains_key(old_self.names@[old_self.owner@[ee] as int]@));
                    }
                }
                lemma_positions_of_absent(rn, name@);
                assert forall|kk: int| 0 <= kk < self.name_entry@.len() implies #[trigger] self.name_entry@[kk]@
                    == positions_of(self.record_names(), self.names@[kk]@) by {
                    lemma_positions_of_push(rn, name@, self.names@[kk]@);
                    if kk < k {
                        assert(old_self.name@.contains_key(old_self.names@[kk]@));
                        assert(old_self.name_entry@[kk]@ == positions_of(rn, old_self.names@[kk]@));
                    }
                }
                assert forall|kk: int| 0 <= kk < self.name_entry@.len() implies #[trigger] self.name_entry@[kk]@.len() > 0 by {
                    if kk < k {
                        assert(old_self.name_entry@[kk]@.len() > 0);
                    }
                }
                assert forall|ee: int| 0 <= ee < self.entry@.len() implies #[trigger] self.entry@[ee].file_index < self.file@.len() by {
                    if ee < e {
                        assert(old_self.entry@[ee].file_index < old_self.file@.len());
                    }
                }
            }
        } else {
            let name_entry_index = *self.name.get(name.as_str()).unwrap();
            proof {
                assert(name_entry_index < self.name_entry@.len());
            }
            let ghost old_list = self.name_entry@[name_entry_index as int]@;
            self.name_entry[name_entry_index].push(entry_index);
            self.owner = Ghost(self.owner@.push(name_entry_index));
            proof {
                let k = name_entry_index as int;
                assert(self.name_entry@[k]@ =~= old_list.push(e as usize));
                assert forall|kk: int, j: int|
                    0 <= kk < self.name_entry@.len() && 0 <= j < self.name_entry@[kk]@.len() implies {
                    &&& #[trigger] self.name_entry@[kk]@[j] < self.entry@.len()
                    &&& self.owner@[self.name_entry@[kk]@[j] as int] == kk
                } by {
                    if kk != k || j < old_list.len() {
                        assert(old_self.name_entry@[kk]@[j] == self.name_entry@[kk]@[j]);
                    }
                }
                assert forall|kk: int| 0 <= kk < self.name_entry@.len() implies strictly_increasing(
                    #[trigger] self.name_entry@[kk]@,
                ) by {
                    if kk == k {
                        assert forall|i: int, j: int|
                            0 <= i < j < self.name_entry@[kk]@.len() implies self.name_entry@[kk]@[i]
                            < self.name_entry@[kk]@[j] by {
                            if j < old_list.len() {
                                assert(strictly_increasing(old_self.name_entry@[kk]@));
                            } else {
                                assert(old_list[i] < e);
                            }
                        }
                    } else {
                        assert(old_self.name_entry@[kk]@ == self.name_entry@[kk]@);
                    }
                }
                assert forall|ee: int| 0 <= ee < self.entry@.len() implies #[trigger] self.name_entry@[self.owner@[ee] as int]@.contains(
                    ee as usize,
                ) by {
                    if ee < e {
                        let kk = old_self.owner@[ee] as int;
                        assert(old_self.name_entry@[kk]@.contains(ee as usize));
                        let j = choose|j: int| 0 <= j < old_self.name_entry@[kk]@.len() && old_self.name_entry@[kk]@[j] == ee as usize;
                        assert(self.name_entry@[kk]@[j] == ee as usize);
                    } else {
                        assert(self.name_entry@[k]@[old_list.len() as int] == ee);
                    }
                }
                assert(self.name_seq() =~= old_self.name_seq());
                let rn = old_self.record_names();
                assert(old_self.names@[k]@ == name@);
                assert(self.record_names() =~= rn.push(name@)) by {
                    assert forall|ee: int| 0 <= ee < e implies #[trigger] self.record_names()[ee] == rn[ee] by {
                        assert(old_self.owner@[ee] < old_self.names@.len());
                    }
                }
                assert forall|kk: int| 0 <= kk < self.name_entry@.len() implies #[trigger] self.name_entry@[kk]@
                    == positions_of(self.record_names(), self.names@[kk]@) by {
                    lemma_positions_of_push(rn, name@, self.names@[kk]@);
                    assert(old_self.name@.contains_key(old_self.names@[kk]@));
                    assert(old_self.name_entry@[kk]@ == positions_of(rn, old_self.names@[kk]@));
                    if kk != k {
                        assert(old_self.name_entry@[kk]@ == self.name_entry@[kk]@);
                    }
                }
                assert forall|kk: int| 0 <= kk < self.name_entry@.len() implies #[trigger] self.name_entry@[kk]@.len() > 0 by {
                    assert(old_self.name_entry@[kk]@.len() > 0);
                    if kk != k {
                        assert(old_self.name_entry@[kk]@ == self.name_entry@[kk]@);
                    }
                }
                assert forall|ee: int| 0 <= ee < self.entry@.len() implies #[trigger] self.entry@[ee].file_index < self.file@.len() by {
                    if ee < e {
                        assert(old_self.entry@[ee].file_index < old_self.file@.len());
                    }
                }
            }
        }
    }

    /// The name table that is saved with the index: each distinct name with
    /// the position of its list, in name order.
    pub fn name_table(&self) -> (t: Vec<(String, usize)>)
        requires
            self.wf(),
        ensures
            table_view(t@).to_multiset() == self.table_pairs().to_multiset(),
            sorted_by_name(table_view(t@)),
    {
        let mut pairs: Vec<(String, usize)> = Vec::new();
        let mut k: usize = 0;
        while k < self.names.len()
            invariant
                k <= self.names@.len(),
                pairs@.len() == k,
                table_view(pairs@) =~= self.table_pairs().take(k as int),
            decreases self.names@.len() - k,
        {
            let ghost old_pairs = pairs@;
            let name = self.names[k].clone();
            assert(name@ == self.names@[k as int]@);
            pairs.push((name, k));
            assert(forall|i: int| 0 <= i < k ==> pairs@[i] == old_pairs[i]);
            assert(forall|i: int| 0 <= i < k ==> #[trigger] table_view(pairs@)[i] == table_view(old_pairs)[i]);
            assert(table_view(pairs@) =~= self.table_pairs().take(k + 1));
            k = k + 1;
        }
        assert(self.table_pairs().take(k as int) =~= self.table_pairs());
        sort_by_name(&pairs)
    }

    /// All tag records, in the order in which they were added.
    pub fn entries(&self) -> (r: &Vec<TagEntry>)
        ensures
            r@ == self.entry_seq(),
    {
        &self.entry
    }

    /// The scanned files.
    pub fn files(&self) -> (r: &Vec<TagFile>)
        ensures
            r@ == self.file_seq(),
    {
        &self.file
    }

    /// The name lists, one per distinct name, as saved with the index.
    pub fn name_lists(&self) -> (r: &Vec<Vec<usize>>)
        ensures
            r@.map_values(|v: Vec<usize>| v@) == self.list_seq(),
    {
        &self.name_entry
    }
}

/// Law of the index: each name's list is in increasing order and points
/// only at existing records, every record is listed under some name, no
/// record is listed under two names, and every record has a `usize`
/// position.
pub proof fn lemma_records_partitioned(data: &TagData)
    requires
        data.wf(),
    ensures
        data.entry_seq().len() <= usize::MAX,
        forall|n: Seq<char>| strictly_increasing(#[trigger] data.occurrences(n)),
        forall|n: Seq<char>, j: int|
            0 <= j < data.occurrences(n).len() ==> #[trigger] data.occurrences(n)[j] < data.entry_seq().len(),
        forall|e: usize| e < data.entry_seq().len() ==> #[trigger] data.lists_record(e),
        forall|e: usize, n1: Seq<char>, n2: Seq<char>|
            #[trigger] data.occurrences(n1).contains(e) && #[trigger] data.occurrences(n2).contains(e) ==> n1
                == n2,
{
    assert(data.entry.len() == data.entry@.len());
    assert forall|n: Seq<char>| strictly_increasing(#[trigger] data.occurrences(n)) by {
        if data.name@.contains_key(n) {
            let k = data.name@[n] as int;
            assert(strictly_increasing(data.name_entry@[k]@));
        }
    }
    assert forall|n: Seq<char>, j: int|
        0 <= j < data.occurrences(n).len() implies #[trigger] data.occurrences(n)[j] < data.entry_seq().len() by {
        let k = data.name@[n] as int;
        assert(data.name_entry@[k]@[j] < data.entry@.len());
    }
    assert forall|e: usize| e < data.entry_seq().len() implies #[trigger] data.lists_record(e) by {
        let ei = e as int;
        let k = data.owner@[ei] as int;
        assert(k < data.name_entry@.len());
        assert(data.name_entry@[data.owner@[ei] as int]@.contains(ei as usize));
        let n = data.names@[k]@;
        assert(data.name@.contains_key(n));
        assert(data.name_entry@[k]@.contains(e));
        assert(data.has_name(n) && data.occurrences(n).contains(e));
    }
    assert forall|e: usize, n1: Seq<char>, n2: Seq<char>|
        #[trigger] data.occurrences(n1).contains(e) && #[trigger] data.occurrences(n2).contains(e) implies n1 == n2 by {
        let k1 = data.name@[n1] as int;
        let k2 = data.name@[n2] as int;
        let j1 = choose|j: int| 0 <= j < data.name_entry@[k1]@.len() && data.name_entry@[k1]@[j] == e;
        let j2 = choose|j: int| 0 <= j < data.name_entry@[k2]@.len() && data.name_entry@[k2]@[j] == e;
        assert(data.owner@[data.name_entry@[k1]@[j1] as int] == k1);
        assert(data.owner@[data.name_entry@[k2]@[j2] as int] == k2);
    }
}

/// Law of the saved index: a name table made by `name_table` holds each
/// name once.
pub proof fn lemma_table_names_distinct(data: &TagData, t: Seq<(Seq<char>, usize)>)
    requires
        data.wf(),
        t.to_multiset() == data.table_pairs().to_multiset(),
    ensures
        forall|i: int, j: int| 0 <= i < j < t.len() ==> #[trigger] t[i].0 != #[trigger] t[j].0,
{
    broadcast use vstd::seq_lib::group_to_multiset_ensures;

    let pairs = data.table_pairs();
    assert(data.names.len() == data.names@.len());
    assert forall|a: int, b: int| 0 <= a < pairs.len() && 0 <= b < pairs.len() && a != b implies pairs[a]
        != pairs[b] by {
        assert(pairs[a].1 == a as usize);
        assert(pairs[b].1 == b as usize);
    }
    assert(pairs.no_duplicates());
    pairs.lemma_multiset_has_no_duplicates();
    t.lemma_multiset_has_no_duplicates_conv();
    assert forall|i: int, j: int| 0 <= i < j < t.len() implies #[trigger] t[i].0 != #[trigger] t[j].0 by {
        assert(t.contains(t[i]));
        assert(t.contains(t[j]));
        assert(t.to_multiset().count(t[i]) > 0);
        assert(t.to_multiset().count(t[j]) > 0);
        assert(pairs.to_multiset().count(t[i]) > 0);
        assert(pairs.to_multiset().count(t[j]) > 0);
        assert(pairs.contains(t[i]));
        assert(pairs.contains(t[j]));
        let ki = choose|k: int| 0 <= k < pairs.len() && pairs[k] == t[i];
        let kj = choose|k: int| 0 <= k < pairs.len() && pairs[k] == t[j];
        if t[i].0 == t[j].0 {
            assert(data.name@.contains_key(data.names@[ki]@));
            assert(data.name@.contains_key(data.names@[kj]@));
            assert(ki == kj);
            assert(t[i] == t[j]);
        }
    }
}

/// Calls `Itertools::sorted_by_key` on the entries of a name table, keyed
/// by their names, and collects clones of them. The contract claims what
/// its documentation and that of `Ord for str` give: the same entries, each
/// as often as before, in nondecreasing order of the names compared byte by
/// byte.
#[verifier::external_body]
fn sort_by_name(pairs: &Vec<(String, usize)>) -> (r: Vec<(String, usize)>)
    ensures
        table_view(r@).to_multiset() == table_view(pairs@).to_multiset(),
        sorted_by_name(table_view(r@)),
{
    pairs.iter().sorted_by_key(|p| &p.0).cloned().collect()
}

/// Law of the index: the lists are, position by position, the records of
/// the names in `name_seq`, and the names present are those of `name_seq`,
/// each once; a name that no tag has has no records.
pub proof fn lemma_lists_match_names(data: &TagData)
    requires
        data.wf(),
    ensures
        data.list_seq().len() == data.name_seq().len(),
        forall|k: int| 0 <= k < data.name_seq().len() ==> #[trigger] data.list_seq()[k] == data.occurrences(
            data.name_seq()[k],
        ),
        forall|n: Seq<char>| #[trigger] data.has_name(n) <==> data.name_seq().contains(n),
        forall|n: Seq<char>| !data.has_name(n) ==> #[trigger] data.occurrences(n) == Seq::<usize>::empty(),
        data.name_seq().no_duplicates(),
{
    assert forall|k: int| 0 <= k < data.name_seq().len() implies #[trigger] data.list_seq()[k]
        == data.occurrences(data.name_seq()[k]) by {
        assert(data.name@.contains_key(data.names@[k]@));
    }
    assert forall|n: Seq<char>| #[trigger] data.has_name(n) <==> data.name_seq().contains(n) by {
        if data.has_name(n) {
            let k = data.name@[n] as int;
            assert(data.name_seq()[k] == n);
        }
        if data.name_seq().contains(n) {
            let k = choose|k: int| 0 <= k < data.name_seq().len() && data.name_seq()[k] == n;
            assert(data.name@.contains_key(data.names@[k]@));
        }
    }
    assert forall|a: int, b: int| 0 <= a < data.name_seq().len() && 0 <= b < data.name_seq().len() && a != b implies data.name_seq()[a]
        != data.name_seq()[b] by {
        assert(data.name@.contains_key(data.names@[a]@));
        assert(data.name@.contains_key(data.names@[b]@));
    }
}

/// Law of the saved index: looking up a name that some tag has, in a name
/// table made by `name_table`, shows exactly the records of that name, in
/// the order in which they were added.
pub proof fn lemma_lookup_shows_occurrences(data: &TagData, t: Seq<(Seq<char>, usize)>, n: Seq<char>)
    requires
        data.wf(),
        t.to_multiset() == data.table_pairs().to_multiset(),
        sorted_by_name(t),
        data.has_name(n),
    ensures
        lookup_found(t, n),
        lookup_list(t, data.list_seq(), n) == data.occurrences(n),
{
    broadcast use vstd::seq_lib::group_to_multiset_ensures;

    let k = data.name@[n] as int;
    let pairs = data.table_pairs();
    assert(pairs[k] == (n, k as usize));
    assert(pairs.contains((n, k as usize)));
    assert(t.to_multiset().count((n, k as usize)) > 0);
    assert(t.contains((n, k as usize)));
    let j = choose|j: int| 0 <= j < t.len() && t[j] == (n, k as usize);
    lemma_search_finds_present(t, n, j);
    let i = search(t, n);
    assert(t.contains(t[i]));
    assert(pairs.to_multiset().count(t[i]) > 0);
    assert(pairs.contains(t[i]));
    let kk = choose|kk: int| 0 <= kk < pairs.len() && pairs[kk] == t[i];
    assert(data.names@[kk]@ == n);
    assert(data.name@.contains_key(data.names@[kk]@));
    assert(kk == k);
}

/// Law of the index: the records of a name are the positions of the records
/// whose tag has that name, in increasing order; a name is present exactly
/// when some record has it, and then its list is not empty; every record
/// belongs to a scanned file.
pub proof fn lemma_records_by_name(data: &TagData)
    requires
        data.wf(),
    ensures
        data.record_names().len() == data.entry_seq().len(),
        forall|n: Seq<char>| #[trigger] data.occurrences(n) == positions_of(data.record_names(), n),
        forall|n: Seq<char>| #[trigger] data.has_name(n) <==> data.record_names().contains(n),
        forall|n: Seq<char>| data.has_name(n) ==> #[trigger] data.occurrences(n).len() > 0,
        forall|e: int|
            0 <= e < data.entry_seq().len() ==> #[trigger] data.entry_seq()[e].file_index < data.file_seq().len(),
{
    let rn = data.record_names();
    assert forall|n: Seq<char>| #[trigger] data.has_name(n) <==> rn.contains(n) by {
        if data.has_name(n) {
            let k = data.name@[n] as int;
            assert(data.name_entry@[k]@.len() > 0);
            let e = data.name_entry@[k]@[0] as int;
            assert(data.owner@[e] == k);
            assert(rn[e] == n);
        }
        if rn.contains(n) {
            let e = choose|e: int| 0 <= e < rn.len() && rn[e] == n;
            assert(data.owner@[e] < data.name_entry@.len());
            assert(data.name@.contains_key(data.names@[data.owner@[e] as int]@));
        }
    }
    assert forall|n: Seq<char>| #[trigger] data.occurrences(n) == positions_of(rn, n) by {
        if data.has_name(n) {
            let k = data.name@[n] as int;
            assert(data.name_entry@[k]@ == positions_of(rn, data.names@[k]@));
        } else {
            lemma_positions_of_absent(rn, n);
        }
    }
    assert forall|n: Seq<char>| data.has_name(n) implies #[trigger] data.occurrences(n).len() > 0 by {
        let k = data.name@[n] as int;
        assert(data.name_entry@[k]@.len() > 0);
    }
}

/// Law of finding: in a name table made by `name_table`, every entry points
/// at a list, a name is found exactly when some tag record has it, and
/// finding it gives the positions of the records with that name, in
/// increasing order.
pub proof fn lemma_find_gives_records(data: &TagData, t: Seq<(Seq<char>, usize)>, n: Seq<char>)
    requires
        data.wf(),
        t.to_multiset() == data.table_pairs().to_multiset(),
        sorted_by_name(t),
    ensures
        table_fits(t, data.list_seq()),
        lookup_found(t, n) <==> data.record_names().contains(n),
        lookup_found(t, n) ==> lookup_list(t, data.list_seq(), n) == positions_of(data.record_names(), n),
{
    broadcast use vstd::seq_lib::group_to_multiset_ensures;

    lemma_records_by_name(data);
    let pairs = data.table_pairs();
    assert forall|j: int| 0 <= j < t.len() implies #[trigger] t[j].1 < data.list_seq().len() by {
        assert(t.contains(t[j]));
        assert(pairs.to_multiset().count(t[j]) > 0);
        assert(pairs.contains(t[j]));
    }
    if data.has_name(n) {
        lemma_lookup_shows_occurrences(data, t, n);
    }
    if lookup_found(t, n) {
        let i = search(t, n);
        assert(t.contains(t[i]));
        assert(pairs.to_multiset().count(t[i]) > 0);
        assert(pairs.contains(t[i]));
        let kk = choose|kk: int| 0 <= kk < pairs.len() && pairs[kk] == t[i];
        assert(data.name@.contains_key(data.names@[kk]@));
        assert(data.has_name(n));
    }
}

} // verus!
