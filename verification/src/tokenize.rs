//! Tagging one file: its bytes are read as text, rewritten by the rules,
//! tagged by tree-sitter, and each tag is added to the index.
use vstd::prelude::*;
use vstd::utf8::{valid_utf8, decode_utf8};
use crate::index::{
    TagData,
    TagEntry,
    positions_of,
    lemma_records_by_name,
    lemma_find_gives_records,
    lemma_lists_match_names,
    lemma_lookup_shows_occurrences,
    lemma_records_partitioned,
};
use crate::query::{lookup_found, lookup_list, sorted_by_name, table_fits};
use crate::order::name_bytes;
use crate::rewrite::{Rewrite, apply_rewrites, rewrite_all, rules_view, utf8_text};
use crate::tagging::{Configuration, SourceTag, SourceTagView, tags_found};

verus! {

/// The text that `String::from_utf8_lossy` makes of some bytes.
pub uninterp spec fn utf8_lossy(bytes: Seq<u8>) -> Seq<char>;

/// Calls `String::from_utf8_lossy`. Claims, besides naming its result,
/// what its documentation gives for valid UTF-8: the text is the one the
/// bytes encode.
#[verifier::external_body]
fn lossy_text(bytes: &[u8]) -> (r: String)
    ensures
        r@ == utf8_lossy(bytes@),
        valid_utf8(bytes@) ==> r@ == decode_utf8(bytes@),
{
    String::from_utf8_lossy(bytes).to_string()
}

/// Texts as plain values.
pub open spec fn text_views(v: Seq<String>) -> Seq<Seq<char>> {
    v.map_values(|s: String| s@)
}

/// The code that is tagged: the file's text after the rules, as UTF-8.
pub open spec fn tagged_code(rules: Seq<(Seq<char>, Seq<char>)>, source: Seq<u8>) -> Seq<u8> {
    name_bytes(rewrite_all(rules, utf8_lossy(source)))
}

/// A found tag can be recorded: its name lies inside the code, and its
/// 1-based row and column fit in a `usize`.
pub open spec fn usable(t: SourceTagView, code: Seq<u8>) -> bool {
    &&& t.0 <= t.1 <= code.len()
    &&& t.2 < usize::MAX
    &&& t.3 < usize::MAX
}

/// The name of a found tag: the text of its bytes, or the empty name when
/// they are not UTF-8.
pub open spec fn tag_name(t: SourceTagView, code: Seq<u8>) -> Seq<char> {
    let bytes = code.subrange(t.0 as int, t.1 as int);
    if valid_utf8(bytes) {
        decode_utf8(bytes)
    } else {
        Seq::empty()
    }
}

/// The record of a found tag in a file.
pub open spec fn tag_record(t: SourceTagView, file_index: usize) -> TagEntry {
    TagEntry {
        file_index,
        is_definition: t.6,
        syntax_type_id: t.7,
        row: (t.2 + 1) as usize,
        column: (t.3 + 1) as usize,
    }
}

/// The number of tags, from the first, that can be recorded.
pub open spec fn usable_count(tags: Seq<SourceTagView>, code: Seq<u8>, from: int) -> int
    decreases tags.len() - from,
{
    if from < 0 || from >= tags.len() || !usable(tags[from], code) {
        from
    } else {
        usable_count(tags, code, from + 1)
    }
}

/// The positions that records get in a list of name `n` when records with
/// these names are added after `base` records.
pub open spec fn added_positions(names: Seq<Seq<char>>, n: Seq<char>, base: int) -> Seq<usize>
    decreases names.len(),
{
    if names.len() == 0 {
        Seq::empty()
    } else {
        let rest = added_positions(names.drop_last(), n, base);
        if names.last() == n {
            rest.push((base + names.len() - 1) as usize)
        } else {
            rest
        }
    }
}

/// The names of `names` that `seen` lacks, each once, in the order in
/// which they first come.
pub open spec fn new_names(seen: Seq<Seq<char>>, names: Seq<Seq<char>>) -> Seq<Seq<char>>
    decreases names.len(),
{
    if names.len() == 0 {
        Seq::empty()
    } else {
        let prev = new_names(seen, names.drop_last());
        if seen.contains(names.last()) || prev.contains(names.last()) {
            prev
        } else {
            prev.push(names.last())
        }
    }
}

/// Why tagging a file stopped before its end.
#[derive(Clone, Copy, Debug, PartialEq, Eq, Structural)]
pub enum TokenizeFailure {
    /// tree-sitter reported an error.
    Tagging,
    /// A tag's name lies outside the code.
    NameOutsideCode,
    /// A tag's row or column is too large to count from 1.
    PositionOverflow,
}

/// How tagging a file went: the tags recorded, with their names, and why
/// it stopped early, if it did.
pub struct Tokenized {
    pub tags: Vec<SourceTag>,
    pub names: Vec<String>,
    pub failure: Option<TokenizeFailure>,
}

/// Why tagging stops at the first tag that cannot be recorded.
pub open spec fn failure_of(t: SourceTagView, code: Seq<u8>) -> TokenizeFailure {
    if !(t.0 <= t.1 <= code.len()) {
        TokenizeFailure::NameOutsideCode
    } else {
        TokenizeFailure::PositionOverflow
    }
}

/// The tags before the count can be recorded, the one at the count cannot.
pub proof fn lemma_usable_count_bounds(tags: Seq<SourceTagView>, code: Seq<u8>, from: int)
    requires
        0 <= from <= tags.len(),
    ensures
        from <= usable_count(tags, code, from) <= tags.len(),
        forall|j: int| from <= j < usable_count(tags, code, from) ==> usable(#[trigger] tags[j], code),
        usable_count(tags, code, from) < tags.len() ==> !usable(tags[usable_count(tags, code, from)], code),
    decreases tags.len() - from,
{
    if from < tags.len() && usable(tags[from], code) {
        lemma_usable_count_bounds(tags, code, from + 1);
    }
}

/// A copy of a found tag.
fn copy_tag(t: &SourceTag) -> (r: SourceTag)
    ensures
        r@ == t@,
{
    SourceTag {
        name_start: t.name_start,
        name_end: t.name_end,
        start_row: t.start_row,
        start_column: t.start_column,
        end_row: t.end_row,
        end_column: t.end_column,
        is_definition: t.is_definition,
        syntax_type_id: t.syntax_type_id,
        docs: match &t.docs {
            Some(d) => Some(d.clone()),
            None => None,
        },
    }
}

/// The effect of recording the tags found in code: the recorded tags and
/// their names, why recording stopped early (if it did), and the index
/// after it, relative to the index before it.
pub open spec fn records_tags(
    code: Seq<u8>,
    found: (Seq<SourceTagView>, bool),
    file_index: usize,
    before: TagData,
    after: TagData,
    r: Tokenized,
) -> bool {
    let k = usable_count(found.0, code, 0);
    let names = Seq::new(k as nat, |j: int| tag_name(found.0[j], code));
    let base = before.entry_seq().len();
    &&& r.tags@.map_values(|t: SourceTag| t@) == found.0.take(k)
    &&& text_views(r.names@) == names
    &&& r.failure == (if k < found.0.len() {
        Some(failure_of(found.0[k], code))
    } else if found.1 {
        Some(TokenizeFailure::Tagging)
    } else {
        None
    })
    &&& after.entry_seq() == before.entry_seq() + Seq::new(
        k as nat,
        |j: int| tag_record(found.0[j], file_index),
    )
    &&& after.file_seq() == before.file_seq()
    &&& after.record_names() == before.record_names() + names
    &&& forall|n: Seq<char>|
        #[trigger] after.occurrences(n) == before.occurrences(n) + added_positions(names, n, base as int)
    &&& forall|n: Seq<char>| #[trigger] after.has_name(n) == (before.has_name(n) || names.contains(n))
    &&& after.name_seq() == before.name_seq() + new_names(before.name_seq(), names)
    &&& after.list_seq().len() == after.name_seq().len()
    &&& forall|k: int|
        0 <= k < before.name_seq().len() ==> #[trigger] after.list_seq()[k] == before.list_seq()[k]
            + added_positions(names, before.name_seq()[k], base as int)
    &&& forall|k: int|
        before.name_seq().len() <= k < after.name_seq().len() ==> #[trigger] after.list_seq()[k]
            == added_positions(names, after.name_seq()[k], base as int)
}

/// A file's code, ready to be recorded: the text after the rules, as
/// UTF-8, and the tags that tree-sitter found in it.
pub struct TaggedCode {
    pub code: Vec<u8>,
    pub tags: Vec<SourceTag>,
    pub failed: bool,
}

impl TaggedCode {
    /// The found tags as plain values, and whether an error ended them.
    pub open spec fn found(&self) -> (Seq<SourceTagView>, bool) {
        (self.tags@.map_values(|t: SourceTag| t@), self.failed)
    }
}

/// Reads a file's bytes (`source`) as text, rewrites it by the rules and
/// tags it with the configuration.
pub fn tag_source(source: &[u8], conf: &Configuration, rules: &Vec<Rewrite>) -> (t: TaggedCode)
    ensures
        t.code@ == tagged_code(rules_view(rules@), source@),
        t.found() == tags_found(conf.language(), conf.tags_query(), conf.locals_query(), t.code@),
{
    let text = lossy_text(source);
    let rewritten = apply_rewrites(rules, text.as_str());
    let code = vstd::slice::slice_to_vec(rewritten.as_str().as_bytes());
    let (tags, failed) = conf.generate_tags(code.as_slice());
    TaggedCode { code, tags, failed }
}

/// Tags the text of a file (`source`, its bytes) with a configuration,
/// after rewriting it by the rules, and adds a record for each tag to the
/// index, under the tag's name, in the order of the tags. Stops at the first
/// tag that cannot be recorded, or after the last tag when tree-sitter
/// reported an error.
pub fn tokenize(source: &[u8], file_index: usize, conf: &Configuration, rules: &Vec<Rewrite>, data: &mut TagData) -> (r:
    Tokenized)
    requires
        old(data).wf(),
        file_index < old(data).file_seq().len(),
    ensures
        final(data).wf(),
        records_tags(
            tagged_code(rules_view(rules@), source@),
            tags_found(
                conf.language(),
                conf.tags_query(),
                conf.locals_query(),
                tagged_code(rules_view(rules@), source@),
            ),
            file_index,
            *old(data),
            *final(data),
            r,
        ),
{
    let tagged = tag_source(source, conf, rules);
    record_tags(&tagged, file_index, data)
}

/// Adds a record to the index for each tag found in a file's code, under
/// the tag's name, in the order of the tags; stops at the first tag that
/// cannot be recorded.
pub fn record_tags(tagged: &TaggedCode, file_index: usize, data: &mut TagData) -> (r: Tokenized)
    requires
        old(data).wf(),
        file_index < old(data).file_seq().len(),
    ensures
        final(data).wf(),
        records_tags(tagged.code@, tagged.found(), file_index, *old(data), *final(data), r),
{
    let code = tagged.code.as_slice();
    let found = &tagged.tags;
    let failed = tagged.failed;
    let ghost tags = found@.map_values(|t: SourceTag| t@);
    let ghost base = data.entry_seq().len();
    let ghost old_data = *data;
    let mut tags_done: Vec<SourceTag> = Vec::new();
    let mut names: Vec<String> = Vec::new();
    let mut i: usize = 0;
    let mut failure: Option<TokenizeFailure> = None;
    proof {
        lemma_usable_count_bounds(tags, code@, 0);
    }
    let ghost k = usable_count(tags, code@, 0);
    while i < found.len()
        invariant_except_break
            failure is None,
        invariant
            tags == found@.map_values(|t: SourceTag| t@),
            k == usable_count(tags, code@, 0),
            0 <= k <= tags.len(),
            forall|j: int| 0 <= j < k ==> usable(#[trigger] tags[j], code@),
            k < tags.len() ==> !usable(tags[k], code@),
            i <= k,
            data.wf(),
            tags_done@.len() == i,
            names@.len() == i,
            base == old_data.entry_seq().len(),
            tags_done@.map_values(|t: SourceTag| t@) == tags.take(i as int),
            text_views(names@) == Seq::new(i as nat, |j: int| tag_name(tags[j], code@)),
            data.entry_seq() == old_data.entry_seq() + Seq::new(
                i as nat,
                |j: int| tag_record(tags[j], file_index),
            ),
            data.file_seq() == old_data.file_seq(),
            old_data.wf(),
            file_index < old_data.file_seq().len(),
            data.record_names() == old_data.record_names() + Seq::new(
                i as nat,
                |j: int| tag_name(tags[j], code@),
            ),
            data.name_seq() == old_data.name_seq() + new_names(
                old_data.name_seq(),
                Seq::new(i as nat, |j: int| tag_name(tags[j], code@)),
            ),
            forall|n: Seq<char>|
                #[trigger] data.has_name(n) == (old_data.has_name(n) || Seq::new(
                    i as nat,
                    |j: int| tag_name(tags[j], code@),
                ).contains(n)),
            forall|n: Seq<char>|
                #[trigger] data.occurrences(n) == old_data.occurrences(n) + added_positions(
                    Seq::new(i as nat, |j: int| tag_name(tags[j], code@)),
                    n,
                    base as int,
                ),
        ensures
            i <= k,
            data.wf(),
            tags_done@.map_values(|t: SourceTag| t@) == tags.take(i as int),
            text_views(names@) == Seq::new(i as nat, |j: int| tag_name(tags[j], code@)),
            data.entry_seq() == old_data.entry_seq() + Seq::new(
                i as nat,
                |j: int| tag_record(tags[j], file_index),
            ),
            data.file_seq() == old_data.file_seq(),
            old_data.wf(),
            file_index < old_data.file_seq().len(),
            data.record_names() == old_data.record_names() + Seq::new(
                i as nat,
                |j: int| tag_name(tags[j], code@),
            ),
            data.name_seq() == old_data.name_seq() + new_names(
                old_data.name_seq(),
                Seq::new(i as nat, |j: int| tag_name(tags[j], code@)),
            ),
            forall|n: Seq<char>|
                #[trigger] data.has_name(n) == (old_data.has_name(n) || Seq::new(
                    i as nat,
                    |j: int| tag_name(tags[j], code@),
                ).contains(n)),
            forall|n: Seq<char>|
                #[trigger] data.occurrences(n) == old_data.occurrences(n) + added_positions(
                    Seq::new(i as nat, |j: int| tag_name(tags[j], code@)),
                    n,
                    base as int,
                ),
            i == k || i == found@.len(),
            failure is Some <==> i < found@.len(),
            failure matches Some(f) ==> f == failure_of(tags[i as int], code@),
        decreases found@.len() - i,
    {
        let t = &found[i];
        assert(tags[i as int] == t@);
        if !(t.name_start <= t.name_end && t.name_end <= code.len()) {
            failure = Some(TokenizeFailure::NameOutsideCode);
            break;
        }
        if t.start_row == usize::MAX || t.start_column == usize::MAX {
            failure = Some(TokenizeFailure::PositionOverflow);
            break;
        }
        assert(i < k) by {
            if i == k {
                assert(!usable(tags[k], code@));
            }
        }
        let name_bytes = vstd::slice::slice_subrange(code, t.name_start, t.name_end);
        let name: String = match utf8_text(name_bytes) {
            Some(s) => s.to_owned(),
            None => String::new(),
        };
        assert(name@ == tag_name(tags[i as int], code@));
        let entry = TagEntry {
            file_index,
            is_definition: t.is_definition,
            syntax_type_id: t.syntax_type_id,
            row: t.start_row + 1,
            column: t.start_column + 1,
        };
        let ghost prev = *data;
        let ghost prev_names = Seq::new(i as nat, |j: int| tag_name(tags[j], code@));
        let ghost next_names = Seq::new((i + 1) as nat, |j: int| tag_name(tags[j], code@));
        data.add_tag(name.clone(), entry);
        proof {
            assert(next_names.drop_last() =~= prev_names);
            assert(next_names.last() == name@);
            assert(next_names =~= prev_names.push(name@));
            assert(data.record_names() =~= old_data.record_names() + next_names);
            broadcast use {
                vstd::seq_lib::lemma_seq_concat_contains_all_elements,
                vstd::seq_lib::lemma_seq_contains_after_push,
            };

            let seen = old_data.name_seq();
            let prev_new = new_names(seen, prev_names);
            lemma_lists_match_names(&prev);
            assert(prev.has_name(name@) <==> (seen + prev_new).contains(name@));
            assert(prev.has_name(name@) <==> seen.contains(name@) || prev_new.contains(name@));
            if prev.has_name(name@) {
                assert(new_names(seen, next_names) == prev_new);
            } else {
                assert(new_names(seen, next_names) == prev_new.push(name@));
                assert(data.name_seq() =~= seen + new_names(seen, next_names));
            }
            assert forall|n: Seq<char>|
                #[trigger] data.has_name(n) == (old_data.has_name(n) || next_names.contains(n)) by {
                assert(next_names.contains(n) <==> (prev_names.contains(n) || n == name@));
            }
            assert forall|n: Seq<char>|
                #[trigger] data.occurrences(n) == old_data.occurrences(n) + added_positions(
                    next_names,
                    n,
                    base as int,
                ) by {
                assert(prev.occurrences(n) == old_data.occurrences(n) + added_positions(
                    prev_names,
                    n,
                    base as int,
                ));
                if n == name@ {
                    assert(prev.entry_seq().len() == base + i);
                    assert(old_data.occurrences(n) + added_positions(next_names, n, base as int) =~= (
                    old_data.occurrences(n) + added_positions(prev_names, n, base as int)).push(
                        (base + i) as usize,
                    ));
                }
            }
            assert(data.entry_seq() =~= old_data.entry_seq() + Seq::new(
                (i + 1) as nat,
                |j: int| tag_record(tags[j], file_index),
            ));
        }
        let ghost before_tags = tags_done@;
        let ghost before_names = names@;
        let ghost name_view = name@;
        tags_done.push(copy_tag(t));
        names.push(name);
        proof {
            assert(forall|j: int| 0 <= j < i ==> tags_done@[j] == before_tags[j]);
            assert(forall|j: int| 0 <= j < i ==> names@[j] == before_names[j]);
            assert(names@[i as int]@ == name_view);
            assert forall|j: int| 0 <= j < i + 1 implies #[trigger] text_views(names@)[j]
                == next_names[j] by {
                if j < i {
                    assert(text_views(before_names)[j] == prev_names[j]);
                }
            }
            assert(tags_done@.map_values(|t: SourceTag| t@) =~= tags.take(i + 1));
            assert(text_views(names@) =~= next_names);
        }
        i = i + 1;
    }
    if failure.is_none() && failed {
        failure = Some(TokenizeFailure::Tagging);
    }
    proof {
        broadcast use vstd::seq_lib::lemma_seq_concat_contains_all_elements;

        let names_k = Seq::new(i as nat, |j: int| tag_name(tags[j], code@));
        let fin = *data;
        let seen = old_data.name_seq();
        lemma_lists_match_names(&old_data);
        lemma_lists_match_names(&fin);
        assert forall|k: int| 0 <= k < seen.len() implies #[trigger] fin.list_seq()[k]
            == old_data.list_seq()[k] + added_positions(names_k, seen[k], base as int) by {
            assert(fin.name_seq()[k] == seen[k]);
        }
        assert forall|k: int| seen.len() <= k < fin.name_seq().len() implies #[trigger] fin.list_seq()[k]
            == added_positions(names_k, fin.name_seq()[k], base as int) by {
            let n = fin.name_seq()[k];
            if seen.contains(n) {
                let kk = choose|kk: int| 0 <= kk < seen.len() && seen[kk] == n;
                assert(fin.name_seq()[kk] == n);
            }
            assert(!old_data.has_name(n));
            assert(old_data.occurrences(n) == Seq::<usize>::empty());
            assert(Seq::<usize>::empty() + added_positions(names_k, n, base as int) =~= added_positions(
                names_k,
                n,
                base as int,
            ));
        }
    }
    Tokenized { tags: tags_done, names, failure }
}

/// The positions that `added_positions` gives are those from `base` on
/// whose name is `n`.
pub proof fn lemma_added_positions_members(names: Seq<Seq<char>>, n: Seq<char>, base: int)
    requires
        0 <= base,
        base + names.len() <= usize::MAX + 1,
    ensures
        forall|p: usize|
            #[trigger] added_positions(names, n, base).contains(p) <==> (base <= p < base + names.len()
                && names[p - base] == n),
    decreases names.len(),
{
    broadcast use vstd::seq_lib::lemma_seq_contains_after_push;

    if names.len() > 0 {
        let prev = names.drop_last();
        lemma_added_positions_members(prev, n, base);
        assert forall|p: usize|
            #[trigger] added_positions(names, n, base).contains(p) <==> (base <= p < base + names.len()
                && names[p - base] == n) by {
            let rest = added_positions(prev, n, base);
            let last = (base + names.len() - 1) as usize;
            assert(last == base + names.len() - 1);
            if base <= p < base + prev.len() {
                assert(prev[p - base] == names[p - base]);
            }
            if names.last() == n {
                assert(added_positions(names, n, base) == rest.push(last));
            } else {
                assert(added_positions(names, n, base) == rest);
            }
        }
    }
}

/// The names of the tags that are recorded from a file's code, in order.
pub open spec fn recorded_names(code: Seq<u8>, found: (Seq<SourceTagView>, bool)) -> Seq<Seq<char>> {
    Seq::new(usable_count(found.0, code, 0) as nat, |j: int| tag_name(found.0[j], code))
}

/// The records of the tags that are recorded from a file's code, in order.
pub open spec fn recorded_records(code: Seq<u8>, found: (Seq<SourceTagView>, bool), file_index: usize) -> Seq<
    TagEntry,
> {
    Seq::new(usable_count(found.0, code, 0) as nat, |j: int| tag_record(found.0[j], file_index))
}

/// The names recorded from the first `m` files, one file after another.
pub open spec fn names_of_files(codes: Seq<Seq<u8>>, founds: Seq<(Seq<SourceTagView>, bool)>, m: int) -> Seq<
    Seq<char>,
>
    decreases m,
{
    if m <= 0 {
        Seq::empty()
    } else {
        names_of_files(codes, founds, m - 1) + recorded_names(codes[m - 1], founds[m - 1])
    }
}

/// The records made from the first `m` files, one file after another.
pub open spec fn records_of_files(
    codes: Seq<Seq<u8>>,
    founds: Seq<(Seq<SourceTagView>, bool)>,
    indices: Seq<usize>,
    m: int,
) -> Seq<TagEntry>
    decreases m,
{
    if m <= 0 {
        Seq::empty()
    } else {
        records_of_files(codes, founds, indices, m - 1) + recorded_records(codes[m - 1], founds[m - 1], indices[m - 1])
    }
}

/// The positions of `n` in `s` are the positions that hold `n`.
pub proof fn lemma_positions_of_members(s: Seq<Seq<char>>, n: Seq<char>)
    requires
        s.len() <= usize::MAX + 1,
    ensures
        forall|p: usize| #[trigger] positions_of(s, n).contains(p) <==> (p < s.len() && s[p as int] == n),
    decreases s.len(),
{
    broadcast use vstd::seq_lib::lemma_seq_contains_after_push;

    if s.len() > 0 {
        let prev = s.drop_last();
        lemma_positions_of_members(prev, n);
        let rest = positions_of(prev, n);
        let last = (s.len() - 1) as usize;
        assert(last == s.len() - 1);
        if s.last() == n {
            assert(positions_of(s, n) == rest.push(last));
        } else {
            assert(positions_of(s, n) == rest);
        }
        assert forall|p: usize| #[trigger] positions_of(s, n).contains(p) <==> (p < s.len() && s[p as int] == n) by {
            if p < prev.len() {
                assert(prev[p as int] == s[p as int]);
            }
        }
    }
}

/// Law of scanning and searching: after the tags found in a file's code are
/// recorded, in a name table made by `name_table` a name is found exactly
/// when an earlier record or a recorded tag of the file has it; finding it
/// shows the records that the name had before, then one record for each
/// recorded tag of the file with that name, in the order of the tags; each
/// of those is the record of its tag.
pub proof fn lemma_recorded_tags_found(
    code: Seq<u8>,
    found: (Seq<SourceTagView>, bool),
    file_index: usize,
    before: TagData,
    after: TagData,
    r: Tokenized,
    t: Seq<(Seq<char>, usize)>,
    n: Seq<char>,
)
    requires
        before.wf(),
        after.wf(),
        records_tags(code, found, file_index, before, after, r),
        t.to_multiset() == after.table_pairs().to_multiset(),
        sorted_by_name(t),
    ensures
        table_fits(t, after.list_seq()),
        lookup_found(t, n) <==> (before.record_names() + text_views(r.names@)).contains(n),
        lookup_found(t, n) ==> lookup_list(t, after.list_seq(), n) == before.occurrences(n) + added_positions(
            text_views(r.names@),
            n,
            before.entry_seq().len() as int,
        ),
        lookup_found(t, n) ==> forall|p: usize|
            #[trigger] lookup_list(t, after.list_seq(), n).contains(p) && before.entry_seq().len() <= p
                ==> after.entry_seq()[p as int] == tag_record(found.0[p - before.entry_seq().len()], file_index)
                && tag_name(found.0[p - before.entry_seq().len()], code) == n,
        forall|j: int|
            0 <= j < r.names@.len() && #[trigger] r.names@[j]@ == n ==> lookup_found(t, n) && lookup_list(
                t,
                after.list_seq(),
                n,
            ).contains((before.entry_seq().len() + j) as usize),
{
    broadcast use {vstd::seq_lib::lemma_seq_concat_contains_all_elements, vstd::seq_lib::lemma_seq_contains_after_push};

    let base = before.entry_seq().len() as int;
    let k = usable_count(found.0, code, 0);
    let names = Seq::new(k as nat, |j: int| tag_name(found.0[j], code));
    lemma_usable_count_bounds(found.0, code, 0);
    lemma_find_gives_records(&after, t, n);
    lemma_records_by_name(&after);
    lemma_records_partitioned(&before);
    lemma_records_partitioned(&after);
    assert(after.entry_seq().len() == base + k);
    assert(text_views(r.names@) == names);
    assert(r.names@.len() == names.len());
    lemma_added_positions_members(names, n, base);
    if after.has_name(n) {
        lemma_lookup_shows_occurrences(&after, t, n);
    }
    let l = lookup_list(t, after.list_seq(), n);
    if lookup_found(t, n) {
        assert forall|p: usize| #[trigger] l.contains(p) && base <= p implies after.entry_seq()[p as int]
            == tag_record(found.0[p - base], file_index) && tag_name(found.0[p - base], code) == n by {
            if before.occurrences(n).contains(p) {
                let j = choose|j: int| 0 <= j < before.occurrences(n).len() && before.occurrences(n)[j] == p;
                assert(before.occurrences(n)[j] < base);
            }
            assert(added_positions(names, n, base).contains(p));
            assert(names[p - base] == n);
        }
    }
    assert forall|j: int| 0 <= j < r.names@.len() && #[trigger] r.names@[j]@ == n implies lookup_found(t, n)
        && l.contains((base + j) as usize) by {
        assert(text_views(r.names@)[j] == r.names@[j]@);
        assert(names[j] == n);
        assert(names.contains(n));
        assert(after.record_names().contains(n));
        assert(added_positions(names, n, base).contains((base + j) as usize));
    }
}

/// Law of creating an index and finding in it: when the tags of files are
/// recorded one file after another into an index that starts with no
/// records (files may be added between files; that leaves the records as
/// they are), the index holds the records of all recorded tags, file after
/// file, in the order of the tags; and in a name table made by `name_table`
/// a name is found exactly when some recorded tag has it, and finding it
/// gives the positions of exactly the records whose tags have that name,
/// in increasing order.
pub proof fn lemma_create_then_find(
    befores: Seq<TagData>,
    afters: Seq<TagData>,
    codes: Seq<Seq<u8>>,
    founds: Seq<(Seq<SourceTagView>, bool)>,
    indices: Seq<usize>,
    outs: Seq<Tokenized>,
    t: Seq<(Seq<char>, usize)>,
    n: Seq<char>,
)
    requires
        befores.len() > 0,
        afters.len() == befores.len(),
        codes.len() == befores.len(),
        founds.len() == befores.len(),
        indices.len() == befores.len(),
        outs.len() == befores.len(),
        befores[0].entry_seq() == Seq::<TagEntry>::empty(),
        forall|i: int| 0 <= i < befores.len() ==> #[trigger] befores[i].wf(),
        forall|i: int| 0 <= i < afters.len() ==> #[trigger] afters[i].wf(),
        forall|i: int|
            0 <= i < befores.len() ==> records_tags(
                codes[i],
                founds[i],
                indices[i],
                #[trigger] befores[i],
                afters[i],
                outs[i],
            ),
        forall|i: int|
            0 < i < befores.len() ==> #[trigger] befores[i].entry_seq() == afters[i - 1].entry_seq()
                && befores[i].record_names() == afters[i - 1].record_names(),
        t.to_multiset() == afters.last().table_pairs().to_multiset(),
        sorted_by_name(t),
    ensures
        afters.last().entry_seq() == records_of_files(codes, founds, indices, befores.len() as int),
        afters.last().record_names() == names_of_files(codes, founds, befores.len() as int),
        lookup_found(t, n) <==> names_of_files(codes, founds, befores.len() as int).contains(n),
        lookup_found(t, n) ==> forall|p: usize|
            #[trigger] lookup_list(t, afters.last().list_seq(), n).contains(p) <==> (p < names_of_files(
                codes,
                founds,
                befores.len() as int,
            ).len() && names_of_files(codes, founds, befores.len() as int)[p as int] == n),
{
    let m = befores.len() as int;
    lemma_files_in_turn(befores, afters, codes, founds, indices, outs, m);
    let last = afters.last();
    assert(last == afters[m - 1]);
    assert(last.wf());
    lemma_records_by_name(&last);
    lemma_records_partitioned(&last);
    lemma_find_gives_records(&last, t, n);
    lemma_positions_of_members(last.record_names(), n);
}

/// The records and names after the first `m` files.
proof fn lemma_files_in_turn(
    befores: Seq<TagData>,
    afters: Seq<TagData>,
    codes: Seq<Seq<u8>>,
    founds: Seq<(Seq<SourceTagView>, bool)>,
    indices: Seq<usize>,
    outs: Seq<Tokenized>,
    m: int,
)
    requires
        0 < m <= befores.len(),
        afters.len() == befores.len(),
        codes.len() == befores.len(),
        founds.len() == befores.len(),
        indices.len() == befores.len(),
        outs.len() == befores.len(),
        befores[0].entry_seq() == Seq::<TagEntry>::empty(),
        forall|i: int| 0 <= i < befores.len() ==> #[trigger] befores[i].wf(),
        forall|i: int| 0 <= i < afters.len() ==> #[trigger] afters[i].wf(),
        forall|i: int|
            0 <= i < befores.len() ==> records_tags(
                codes[i],
                founds[i],
                indices[i],
                #[trigger] befores[i],
                afters[i],
                outs[i],
            ),
        forall|i: int|
            0 < i < befores.len() ==> #[trigger] befores[i].entry_seq() == afters[i - 1].entry_seq()
                && befores[i].record_names() == afters[i - 1].record_names(),
    ensures
        afters[m - 1].entry_seq() == records_of_files(codes, founds, indices, m),
        afters[m - 1].record_names() == names_of_files(codes, founds, m),
    decreases m,
{
    let i = m - 1;
    assert(befores[i].wf());
    assert(afters[i].wf());
    assert(records_tags(codes[i], founds[i], indices[i], befores[i], afters[i], outs[i]));
    lemma_records_by_name(&befores[i]);
    if m > 1 {
        lemma_files_in_turn(befores, afters, codes, founds, indices, outs, m - 1);
        assert(befores[i].entry_seq() == afters[i - 1].entry_seq());
    } else {
        assert(befores[0].record_names() =~= Seq::<Seq<char>>::empty());
    }
    let k = usable_count(founds[i].0, codes[i], 0);
    assert(records_of_files(codes, founds, indices, m) == records_of_files(codes, founds, indices, m - 1)
        + recorded_records(codes[i], founds[i], indices[i]));
    assert(names_of_files(codes, founds, m) == names_of_files(codes, founds, m - 1) + recorded_names(
        codes[i],
        founds[i],
    ));
    assert(recorded_records(codes[i], founds[i], indices[i]) =~= Seq::new(
        k as nat,
        |j: int| tag_record(founds[i].0[j], indices[i]),
    ));
    if m == 1 {
        assert(records_of_files(codes, founds, indices, 0) =~= Seq::<TagEntry>::empty());
        assert(names_of_files(codes, founds, 0) =~= Seq::<Seq<char>>::empty());
    }
    assert(recorded_names(codes[i], founds[i]) =~= Seq::new(
        usable_count(founds[i].0, codes[i], 0) as nat,
        |j: int| tag_name(founds[i].0[j], codes[i]),
    ));
    assert(afters[i].entry_seq() =~= records_of_files(codes, founds, indices, m));
    assert(afters[i].record_names() =~= names_of_files(codes, founds, m));
}

/// Law of the recorded names: each recorded tag is the found tag in its
/// place, and the name recorded for it is the text of all the code bytes
/// from its name's start to its name's end: its UTF-8 encoding is exactly
/// those bytes, whatever their number; a name whose bytes are not UTF-8 is
/// recorded as the empty name.
pub proof fn lemma_recorded_name_is_whole_text(
    code: Seq<u8>,
    found: (Seq<SourceTagView>, bool),
    file_index: usize,
    before: TagData,
    after: TagData,
    r: Tokenized,
)
    requires
        records_tags(code, found, file_index, before, after, r),
    ensures
        r.names@.len() == r.tags@.len(),
        forall|j: int| 0 <= j < r.tags@.len() ==> #[trigger] r.tags@[j]@ == found.0[j],
        forall|j: int|
            0 <= j < r.names@.len() ==> {
                let bytes = code.subrange(found.0[j].0 as int, found.0[j].1 as int);
                &&& found.0[j].0 <= found.0[j].1 <= code.len()
                &&& valid_utf8(bytes) ==> name_bytes(#[trigger] r.names@[j]@) == bytes
                &&& !valid_utf8(bytes) ==> r.names@[j]@ == Seq::<char>::empty()
            },
{
    broadcast use vstd::utf8::decode_utf8_encode_utf8;

    let k = usable_count(found.0, code, 0);
    lemma_usable_count_bounds(found.0, code, 0);
    assert(r.tags@.map_values(|t: SourceTag| t@).len() == k);
    assert forall|j: int| 0 <= j < r.tags@.len() implies #[trigger] r.tags@[j]@ == found.0[j] by {
        assert(r.tags@.map_values(|t: SourceTag| t@)[j] == found.0.take(k)[j]);
    }
    assert forall|j: int| 0 <= j < r.names@.len() implies {
        let bytes = code.subrange(found.0[j].0 as int, found.0[j].1 as int);
        &&& found.0[j].0 <= found.0[j].1 <= code.len()
        &&& valid_utf8(bytes) ==> name_bytes(#[trigger] r.names@[j]@) == bytes
        &&& !valid_utf8(bytes) ==> r.names@[j]@ == Seq::<char>::empty()
    } by {
        assert(text_views(r.names@)[j] == r.names@[j]@);
        assert(usable(found.0[j], code));
    }
}

/// Law of recording: the tags are recorded from the first up to the first
/// one whose name lies outside the code or whose row or column cannot be
/// counted from 1; each gets a record, after the records before, with the
/// file, its kind, its syntax kind, and its row and column counted from 1;
/// and why recording stopped is the reason of that tag, or tree-sitter's
/// error after the last tag, or nothing.
pub proof fn lemma_recorded_records(
    code: Seq<u8>,
    found: (Seq<SourceTagView>, bool),
    file_index: usize,
    before: TagData,
    after: TagData,
    r: Tokenized,
)
    requires
        records_tags(code, found, file_index, before, after, r),
    ensures
        r.tags@.len() <= found.0.len(),
        after.entry_seq().len() == before.entry_seq().len() + r.tags@.len(),
        forall|j: int| 0 <= j < before.entry_seq().len() ==> #[trigger] after.entry_seq()[j] == before.entry_seq()[j],
        forall|j: int|
            0 <= j < r.tags@.len() ==> #[trigger] after.entry_seq()[before.entry_seq().len() + j] == (TagEntry {
                file_index,
                is_definition: found.0[j].6,
                syntax_type_id: found.0[j].7,
                row: (found.0[j].2 + 1) as usize,
                column: (found.0[j].3 + 1) as usize,
            }),
        forall|j: int|
            0 <= j < r.tags@.len() ==> found.0[j].0 <= found.0[j].1 <= code.len() && #[trigger] found.0[j].2
                < usize::MAX && found.0[j].3 < usize::MAX,
        r.tags@.len() < found.0.len() ==> {
            let t = found.0[r.tags@.len() as int];
            if !(t.0 <= t.1 <= code.len()) {
                r.failure == Some(TokenizeFailure::NameOutsideCode)
            } else {
                r.failure == Some(TokenizeFailure::PositionOverflow) && (t.2 == usize::MAX || t.3 == usize::MAX)
            }
        },
        r.tags@.len() == found.0.len() ==> r.failure == (if found.1 {
            Some(TokenizeFailure::Tagging)
        } else {
            None
        }),
{
    let k = usable_count(found.0, code, 0);
    lemma_usable_count_bounds(found.0, code, 0);
    assert(r.tags@.map_values(|t: SourceTag| t@).len() == k);
    let base = before.entry_seq().len() as int;
    assert forall|j: int| 0 <= j < base implies #[trigger] after.entry_seq()[j] == before.entry_seq()[j] by {}
    assert forall|j: int| 0 <= j < k implies #[trigger] after.entry_seq()[base + j] == tag_record(found.0[j], file_index) by {}
    assert forall|j: int| 0 <= j < k implies found.0[j].0 <= found.0[j].1 <= code.len() && #[trigger] found.0[j].2
        < usize::MAX && found.0[j].3 < usize::MAX by {
        assert(usable(found.0[j], code));
    }
}

} // verus!
