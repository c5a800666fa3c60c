//! Lookups in the saved index: the sorted name table, searched by binary
//! search, and the name lists that it points into.
use vstd::prelude::*;
use crate::language::str_equal;
use crate::order::{name_le, name_lt, str_less, lemma_name_lt_asymmetric, lemma_name_lt_total, lemma_name_lt_transitive};

verus! {

/// The name table as plain values: each name with the position of its list.
pub open spec fn table_view(t: Seq<(String, usize)>) -> Seq<(Seq<char>, usize)> {
    t.map_values(|p: (String, usize)| (p.0@, p.1))
}

/// The name lists as plain values.
pub open spec fn lists_view(l: Seq<Vec<usize>>) -> Seq<Seq<usize>> {
    l.map_values(|v: Vec<usize>| v@)
}

/// The table is in nondecreasing name order.
pub open spec fn sorted_by_name(t: Seq<(Seq<char>, usize)>) -> bool {
    forall|i: int, j: int| 0 <= i < j < t.len() ==> name_le(#[trigger] t[i].0, #[trigger] t[j].0)
}

/// Where binary search for `key` in `t[lo..hi]` ends: halve the range,
/// going right past every name that comes before `key`.
pub open spec fn search_from(t: Seq<(Seq<char>, usize)>, key: Seq<char>, lo: int, hi: int) -> int
    decreases hi - lo,
{
    if lo >= hi {
        lo
    } else {
        let mid = lo + (hi - lo) / 2;
        if name_lt(t[mid].0, key) {
            search_from(t, key, mid + 1, hi)
        } else {
            search_from(t, key, lo, mid)
        }
    }
}

/// Where binary search for `key` in the whole table ends.
pub open spec fn search(t: Seq<(Seq<char>, usize)>, key: Seq<char>) -> int {
    search_from(t, key, 0, t.len() as int)
}

/// On a sorted table the search ends at the first name that does not come
/// before `key`: all names before that position come before `key`.
pub proof fn lemma_search_from_sorted(t: Seq<(Seq<char>, usize)>, key: Seq<char>, lo: int, hi: int)
    requires
        sorted_by_name(t),
        0 <= lo <= hi <= t.len(),
        forall|j: int| 0 <= j < lo ==> name_lt(#[trigger] t[j].0, key),
        forall|j: int| hi <= j < t.len() ==> !name_lt(#[trigger] t[j].0, key),
    ensures
        lo <= search_from(t, key, lo, hi) <= hi,
        forall|j: int| 0 <= j < search_from(t, key, lo, hi) ==> name_lt(#[trigger] t[j].0, key),
        forall|j: int|
            search_from(t, key, lo, hi) <= j < t.len() ==> !name_lt(#[trigger] t[j].0, key),
    decreases hi - lo,
{
    if lo < hi {
        let mid = lo + (hi - lo) / 2;
        if name_lt(t[mid].0, key) {
            assert forall|j: int| 0 <= j < mid + 1 implies name_lt(#[trigger] t[j].0, key) by {
                if j < mid {
                    if t[j].0 != t[mid].0 {
                        lemma_name_lt_transitive(t[j].0, t[mid].0, key);
                    }
                }
            }
            lemma_search_from_sorted(t, key, mid + 1, hi);
        } else {
            assert forall|j: int| mid <= j < t.len() implies !name_lt(#[trigger] t[j].0, key) by {
                if j > mid && name_lt(t[j].0, key) {
                    if t[mid].0 != t[j].0 {
                        lemma_name_lt_transitive(t[mid].0, t[j].0, key);
                    }
                }
            }
            lemma_search_from_sorted(t, key, lo, mid);
        }
    }
}

/// The search ends inside the table or just past its end.
pub proof fn lemma_search_from_bounds(t: Seq<(Seq<char>, usize)>, key: Seq<char>, lo: int, hi: int)
    requires
        0 <= lo <= hi <= t.len(),
    ensures
        lo <= search_from(t, key, lo, hi) <= hi,
    decreases hi - lo,
{
    if lo < hi {
        let mid = lo + (hi - lo) / 2;
        if name_lt(t[mid].0, key) {
            lemma_search_from_bounds(t, key, mid + 1, hi);
        } else {
            lemma_search_from_bounds(t, key, lo, mid);
        }
    }
}

/// On a sorted table, the search for `key` ends at the first name that does
/// not come before `key` (the table's length when there is none).
pub proof fn lemma_search_sorted(t: Seq<(Seq<char>, usize)>, key: Seq<char>)
    requires
        sorted_by_name(t),
    ensures
        0 <= search(t, key) <= t.len(),
        forall|j: int| 0 <= j < search(t, key) ==> name_lt(#[trigger] t[j].0, key),
        forall|j: int| search(t, key) <= j < t.len() ==> !name_lt(#[trigger] t[j].0, key),
{
    lemma_search_from_sorted(t, key, 0, t.len() as int);
}

/// On a sorted table that holds `key`, the search ends at an entry for
/// `key`.
pub proof fn lemma_search_finds_present(t: Seq<(Seq<char>, usize)>, key: Seq<char>, j: int)
    requires
        sorted_by_name(t),
        0 <= j < t.len(),
        t[j].0 == key,
    ensures
        0 <= search(t, key) <= j,
        t[search(t, key)].0 == key,
{
    lemma_search_sorted(t, key);
    lemma_name_lt_asymmetric(key, key);
    let i = search(t, key);
    assert(!name_lt(t[i].0, key));
    if i < j {
        assert(name_le(t[i].0, t[j].0));
        lemma_name_lt_total(t[i].0, key);
        lemma_name_lt_asymmetric(t[i].0, key);
    }
}

/// Binary search for the position of `key` in the name table: the first
/// name that does not come before `key` when the table is sorted.
pub fn lower_bound(table: &Vec<(String, usize)>, key: &str) -> (i: usize)
    ensures
        i == search(table_view(table@), key@),
        i <= table@.len(),
{
    let ghost t = table_view(table@);
    let mut lo: usize = 0;
    let mut hi: usize = table.len();
    while lo < hi
        invariant
            t == table_view(table@),
            0 <= lo <= hi <= table@.len(),
            search(t, key@) == search_from(t, key@, lo as int, hi as int),
        decreases hi - lo,
    {
        let mid = lo + (hi - lo) / 2;
        assert(t[mid as int].0 == table@[mid as int].0@);
        if str_less(table[mid].0.as_str(), key) {
            lo = mid + 1;
        } else {
            hi = mid;
        }
    }
    lo
}

/// Every entry of the table points at an existing name list.
pub open spec fn table_fits(t: Seq<(Seq<char>, usize)>, lists: Seq<Seq<usize>>) -> bool {
    forall|j: int| 0 <= j < t.len() ==> #[trigger] t[j].1 < lists.len()
}

/// Whether every entry of the table points at an existing name list.
pub fn table_fits_lists(table: &Vec<(String, usize)>, lists: &Vec<Vec<usize>>) -> (r: bool)
    ensures
        r == table_fits(table_view(table@), lists_view(lists@)),
{
    let ghost t = table_view(table@);
    let mut j: usize = 0;
    while j < table.len()
        invariant
            t == table_view(table@),
            j <= table@.len(),
            forall|jj: int| 0 <= jj < j ==> #[trigger] t[jj].1 < lists@.len(),
        decreases table@.len() - j,
    {
        assert(t[j as int].1 == table@[j as int].1);
        if table[j].1 >= lists.len() {
            return false;
        }
        j = j + 1;
    }
    true
}

/// The search for `key` ends on an entry for `key`.
pub open spec fn lookup_found(t: Seq<(Seq<char>, usize)>, key: Seq<char>) -> bool {
    let i = search(t, key);
    0 <= i < t.len() && t[i].0 == key
}

/// The name list of the entry where the search for `key` ends.
pub open spec fn lookup_list(t: Seq<(Seq<char>, usize)>, lists: Seq<Seq<usize>>, key: Seq<char>) -> Seq<usize> {
    lists[t[search(t, key)].1 as int]
}

/// On a sorted table, the search for `key` ends on an entry for `key`
/// exactly when the table has an entry for `key`.
pub proof fn lemma_lookup_found_iff(t: Seq<(Seq<char>, usize)>, key: Seq<char>)
    requires
        sorted_by_name(t),
    ensures
        lookup_found(t, key) <==> exists|j: int| 0 <= j < t.len() && #[trigger] t[j].0 == key,
{
    lemma_search_sorted(t, key);
    if exists|j: int| 0 <= j < t.len() && #[trigger] t[j].0 == key {
        let j = choose|j: int| 0 <= j < t.len() && #[trigger] t[j].0 == key;
        lemma_search_finds_present(t, key, j);
    }
    if lookup_found(t, key) {
        assert(t[search(t, key)].0 == key);
    }
}

/// The records that a search for definitions or references of `key`
/// reads: the name list of the table entry for `key`, or none where the
/// table has no entry for `key`.
pub fn lookup<'a>(table: &Vec<(String, usize)>, lists: &'a Vec<Vec<usize>>, key: &str) -> (r: Option<&'a Vec<usize>>)
    requires
        table_fits(table_view(table@), lists_view(lists@)),
    ensures
        match r {
            Some(l) => lookup_found(table_view(table@), key@) && l@ == lookup_list(
                table_view(table@),
                lists_view(lists@),
                key@,
            ),
            None => !lookup_found(table_view(table@), key@),
        },
{
    let ghost t = table_view(table@);
    let i = lower_bound(table, key);
    if i < table.len() && str_equal(table[i].0.as_str(), key) {
        assert(t[i as int].1 < lists_view(lists@).len());
        Some(&lists[table[i].1])
    } else {
        None
    }
}

/// One tag record that completion shows: the record's position, and the
/// position in the name table of the name shown beside it.
#[derive(Clone, Copy, Debug, PartialEq, Eq)]
pub struct CompletionStep {
    pub entry: usize,
    pub name: usize,
}

/// The steps that show every record of list `l` beside the name of table
/// entry `i`.
pub open spec fn name_steps(l: Seq<usize>, i: int) -> Seq<CompletionStep> {
    Seq::new(l.len(), |k: int| CompletionStep { entry: l[k], name: i as usize })
}

/// Completion from table entry `i` after `c` names have been shown: while
/// fewer than ten names have been shown and `i` is inside the table, every
/// record of the list of entry `i` is shown beside the name of entry `i`,
/// then the walk goes on at the next entry.
pub open spec fn completion_from(t: Seq<(Seq<char>, usize)>, lists: Seq<Seq<usize>>, i: int, c: int) -> Seq<
    CompletionStep,
>
    decreases t.len() - i,
{
    if !(0 <= i < t.len() && c < 10) {
        Seq::empty()
    } else {
        name_steps(lists[t[i].1 as int], i) + completion_from(t, lists, i + 1, c + 1)
    }
}

/// Completion of `symbol`: the names of the ten table entries from where
/// the search for `symbol` ends (fewer at the end of the table), each with
/// all of its records.
pub open spec fn completion(t: Seq<(Seq<char>, usize)>, lists: Seq<Seq<usize>>, symbol: Seq<char>) -> Seq<
    CompletionStep,
> {
    completion_from(t, lists, search(t, symbol), 0)
}

/// The records that completion of `symbol` shows, each with the table
/// entry whose name is shown beside it.
pub fn completion_plan(table: &Vec<(String, usize)>, lists: &Vec<Vec<usize>>, symbol: &str) -> (r: Vec<
    CompletionStep,
>)
    requires
        table_fits(table_view(table@), lists_view(lists@)),
    ensures
        r@ == completion(table_view(table@), lists_view(lists@), symbol@),
{
    let ghost t = table_view(table@);
    let ghost ls = lists_view(lists@);
    let mut i = lower_bound(table, symbol);
    let mut c: usize = 0;
    let mut steps: Vec<CompletionStep> = Vec::new();
    while i < table.len() && c < 10
        invariant
            t == table_view(table@),
            ls == lists_view(lists@),
            table_fits(t, ls),
            i <= table@.len(),
            c <= 10,
            completion(t, ls, symbol@) == steps@ + completion_from(t, ls, i as int, c as int),
        decreases table@.len() - i,
    {
        assert(t[i as int].1 < ls.len());
        assert(t[i as int].1 == table@[i as int].1);
        let l = &lists[table[i].1];
        assert(ls[t[i as int].1 as int] == l@);
        let ghost before = steps@;
        let mut k: usize = 0;
        while k < l.len()
            invariant
                0 <= k <= l@.len(),
                steps@ == before + name_steps(l@, i as int).take(k as int),
            decreases l@.len() - k,
        {
            steps.push(CompletionStep { entry: l[k], name: i });
            assert(steps@ =~= before + name_steps(l@, i as int).take(k + 1));
            k = k + 1;
        }
        assert(name_steps(l@, i as int).take(k as int) =~= name_steps(l@, i as int));
        assert(steps@ + completion_from(t, ls, i + 1, c + 1) =~= before + completion_from(
            t,
            ls,
            i as int,
            c as int,
        ));
        i = i + 1;
        c = c + 1;
    }
    assert(completion_from(t, ls, i as int, c as int) =~= Seq::<CompletionStep>::empty());
    assert(steps@ + Seq::<CompletionStep>::empty() =~= steps@);
    steps
}

/// Law of completion: it shows the names of the table entries from where
/// the search for `symbol` ends, ten of them or as many as the table has
/// left, one after another; for each, every record of its list, in list
/// order, beside that entry's name.
pub proof fn lemma_completion_shows_ten_names(t: Seq<(Seq<char>, usize)>, lists: Seq<Seq<usize>>, symbol: Seq<char>)
    ensures
        ({
            let s = search(t, symbol);
            let m = if t.len() - s < 10 {
                t.len() - s
            } else {
                10
            };
            &&& 0 <= s <= t.len()
            &&& completion(t, lists, symbol) == Seq::new(
                m as nat,
                |j: int|
                    Seq::new(
                        lists[t[s + j].1 as int].len(),
                        |k: int| CompletionStep { entry: lists[t[s + j].1 as int][k], name: (s + j) as usize },
                    ),
            ).flatten()
        }),
{
    lemma_search_from_bounds(t, symbol, 0, t.len() as int);
    lemma_completion_from_blocks(t, lists, search(t, symbol), 0);
    let s = search(t, symbol);
    let m = if t.len() - s < 10 {
        t.len() - s
    } else {
        10
    };
    assert(Seq::new(
        m as nat,
        |j: int|
            Seq::new(
                lists[t[s + j].1 as int].len(),
                |k: int| CompletionStep { entry: lists[t[s + j].1 as int][k], name: (s + j) as usize },
            ),
    ) =~= Seq::new(
        m as nat,
        |j: int|
            Seq::new(
                lists[t[s + 0 + j].1 as int].len(),
                |k: int| CompletionStep { entry: lists[t[s + 0 + j].1 as int][k], name: (s + 0 + j) as usize },
            ),
    ));
}

/// Completion from entry `i` after `c` names shows the next `10 - c` names,
/// or as many as the table has left.
proof fn lemma_completion_from_blocks(t: Seq<(Seq<char>, usize)>, lists: Seq<Seq<usize>>, i: int, c: int)
    requires
        0 <= i <= t.len(),
        0 <= c <= 10,
    ensures
        ({
            let m = if t.len() - i < 10 - c {
                t.len() - i
            } else {
                10 - c
            };
            completion_from(t, lists, i, c) == Seq::new(
                m as nat,
                |j: int|
                    Seq::new(
                        lists[t[i + j].1 as int].len(),
                        |k: int| CompletionStep { entry: lists[t[i + j].1 as int][k], name: (i + j) as usize },
                    ),
            ).flatten()
        }),
    decreases t.len() - i,
{
    let m = if t.len() - i < 10 - c {
        t.len() - i
    } else {
        10 - c
    };
    let blocks = Seq::new(
        m as nat,
        |j: int|
            Seq::new(
                lists[t[i + j].1 as int].len(),
                |k: int| CompletionStep { entry: lists[t[i + j].1 as int][k], name: (i + j) as usize },
            ),
    );
    if i < t.len() && c < 10 {
        lemma_completion_from_blocks(t, lists, i + 1, c + 1);
        let rest = Seq::new(
            (m - 1) as nat,
            |j: int|
                Seq::new(
                    lists[t[i + 1 + j].1 as int].len(),
                    |k: int| CompletionStep { entry: lists[t[i + 1 + j].1 as int][k], name: (i + 1 + j) as usize },
                ),
        );
        assert(blocks.drop_first() =~= rest);
        assert(blocks.first() =~= name_steps(lists[t[i].1 as int], i));
    } else {
        assert(m == 0);
        assert(blocks =~= Seq::<Seq<CompletionStep>>::empty());
    }
}

} // verus!
