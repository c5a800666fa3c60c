//! The SQLite store of tags: the rows that tagging a file gives, the
//! statements that insert them, and how the work and the rows are divided.
use vstd::prelude::*;
use crate::tagging::{Configuration, SourceTag, tags_found};
use crate::tokenize::{TokenizeFailure, usable, usable_count, tag_name, failure_of, lemma_usable_count_bounds};
use crate::rewrite::utf8_text;
use crate::text::decimal;
use crate::order::name_bytes;
use vstd::utf8::valid_utf8;

verus! {

/// A row of the `tags` table: a tag with the path of its file and its name.
#[derive(Debug)]
pub struct Entry {
    pub file: String,
    pub name: String,
    pub is_definition: bool,
    pub syntax_type_id: u32,
    pub row: usize,
    pub column: usize,
}

/// A row as plain values, in the order of the fields of `Entry`.
pub type EntryView = (Seq<char>, Seq<char>, bool, u32, usize, usize);

pub open spec fn entry_views(rows: Seq<Entry>) -> Seq<EntryView> {
    rows.map_values(|e: Entry| (e.file@, e.name@, e.is_definition, e.syntax_type_id, e.row, e.column))
}

/// The rows that the tags found in a file's code give: one per tag that can
/// be recorded, up to the first one that cannot.
pub open spec fn file_rows(file: Seq<char>, code: Seq<u8>, found: (Seq<crate::tagging::SourceTagView>, bool)) -> Seq<
    EntryView,
> {
    Seq::new(
        usable_count(found.0, code, 0) as nat,
        |j: int|
            (
                file,
                tag_name(found.0[j], code),
                found.0[j].6,
                found.0[j].7,
                (found.0[j].2 + 1) as usize,
                (found.0[j].3 + 1) as usize,
            ),
    )
}

/// Why tagging the file stopped early, if it did.
pub open spec fn file_failure(code: Seq<u8>, found: (Seq<crate::tagging::SourceTagView>, bool)) -> Option<
    TokenizeFailure,
> {
    let k = usable_count(found.0, code, 0);
    if k < found.0.len() {
        Some(failure_of(found.0[k], code))
    } else if found.1 {
        Some(TokenizeFailure::Tagging)
    } else {
        None
    }
}

/// Tags a file's code as it is and gives its rows for the store, and why
/// tagging stopped early, if it did.
pub fn tokenize_entries(file: &str, code: &[u8], conf: &Configuration) -> (r: (Vec<Entry>, Option<TokenizeFailure>))
    ensures
        ({
            let found = tags_found(conf.language(), conf.tags_query(), conf.locals_query(), code@);
            &&& entry_views(r.0@) == file_rows(file@, code@, found)
            &&& r.1 == file_failure(code@, found)
        }),
{
    let (found, failed) = conf.generate_tags(code);
    entries_of_tags(file, code, &found, failed)
}

/// The rows for the store that the tags found in a file's code give (`found`,
/// and whether an error ended them, `failed`), and why they stop early, if
/// they do.
pub fn entries_of_tags(file: &str, code: &[u8], found: &Vec<SourceTag>, failed: bool) -> (r: (
    Vec<Entry>,
    Option<TokenizeFailure>,
))
    ensures
        ({
            let all = (found@.map_values(|t: SourceTag| t@), failed);
            &&& entry_views(r.0@) == file_rows(file@, code@, all)
            &&& r.1 == file_failure(code@, all)
        }),
{
    let ghost tags = found@.map_values(|t: SourceTag| t@);
    let ghost all = (tags, failed);
    let ghost k = usable_count(tags, code@, 0);
    proof {
        lemma_usable_count_bounds(tags, code@, 0);
    }
    let mut rows: Vec<Entry> = Vec::new();
    let mut i: usize = 0;
    while i < found.len()
        invariant
            tags == found@.map_values(|t: SourceTag| t@),
            all == (tags, failed),
            k == usable_count(tags, code@, 0),
            k <= tags.len(),
            forall|j: int| 0 <= j < k ==> usable(#[trigger] tags[j], code@),
            k < tags.len() ==> !usable(tags[k], code@),
            i <= k,
            rows@.len() == i,
            entry_views(rows@) == file_rows(file@, code@, all).take(i as int),
        decreases found@.len() - i,
    {
        let t = &found[i];
        assert(tags[i as int] == t@);
        if !(t.name_start <= t.name_end && t.name_end <= code.len()) {
            assert(!usable(tags[i as int], code@));
            assert(i == k);
            assert(file_rows(file@, code@, all).take(i as int) =~= file_rows(file@, code@, all));
            return (rows, Some(TokenizeFailure::NameOutsideCode));
        }
        if t.start_row == usize::MAX || t.start_column == usize::MAX {
            assert(!usable(tags[i as int], code@));
            assert(i == k);
            assert(file_rows(file@, code@, all).take(i as int) =~= file_rows(file@, code@, all));
            return (rows, Some(TokenizeFailure::PositionOverflow));
        }
        let name: String = match utf8_text(vstd::slice::slice_subrange(code, t.name_start, t.name_end)) {
            Some(s) => s.to_owned(),
            None => String::new(),
        };
        let ghost before = rows@;
        rows.push(
            Entry {
                file: file.to_owned(),
                name,
                is_definition: t.is_definition,
                syntax_type_id: t.syntax_type_id,
                row: t.start_row + 1,
                column: t.start_column + 1,
            },
        );
        assert(forall|j: int| 0 <= j < i ==> rows@[j] == before[j]);
        assert(entry_views(rows@) =~= file_rows(file@, code@, all).take(i + 1));
        i = i + 1;
    }
    assert(file_rows(file@, code@, all).take(i as int) =~= file_rows(file@, code@, all));
    if failed {
        (rows, Some(TokenizeFailure::Tagging))
    } else {
        (rows, None)
    }
}

/// The number of rows that one insert statement holds at most.
pub const CHUNKS: usize = 50;

/// `s` repeated `n` times.
pub open spec fn repeat_text(s: Seq<char>, n: nat) -> Seq<char>
    decreases n,
{
    if n == 0 {
        Seq::empty()
    } else {
        repeat_text(s, (n - 1) as nat) + s
    }
}

/// The statement that inserts `rows` rows into the `tags` table: the
/// header followed by one placeholder group per row, separated by commas;
/// the text that comes of dropping the last character of the header and
/// the groups each followed by a comma.
pub open spec fn insert_sql(rows: nat) -> Seq<char> {
    ("INSERT INTO tags VALUES"@ + repeat_text(" (NULL, ?, ?, ?, ?, ?, ?),"@, rows)).drop_last()
}

/// The statement that inserts `rows` rows into the `tags` table.
pub fn insert_statement(rows: usize) -> (r: String)
    ensures
        r@ == insert_sql(rows as nat),
{
    proof {
        reveal_strlit("INSERT INTO tags VALUES");
        reveal_strlit("INSERT INTO tags VALUE");
        reveal_strlit(" (NULL, ?, ?, ?, ?, ?, ?),");
        reveal_strlit(" (NULL, ?, ?, ?, ?, ?, ?)");
    }
    if rows == 0 {
        let r = "INSERT INTO tags VALUE".to_owned();
        assert(r@ =~= insert_sql(0));
        return r;
    }
    let mut r = "INSERT INTO tags VALUES".to_owned();
    let mut i: usize = 1;
    while i < rows
        invariant
            1 <= i <= rows,
            r@ == "INSERT INTO tags VALUES"@ + repeat_text(" (NULL, ?, ?, ?, ?, ?, ?),"@, (i - 1) as nat),
        decreases rows - i,
    {
        r.append(" (NULL, ?, ?, ?, ?, ?, ?),");
        assert(r@ =~= "INSERT INTO tags VALUES"@ + repeat_text(" (NULL, ?, ?, ?, ?, ?, ?),"@, i as nat));
        i = i + 1;
    }
    r.append(" (NULL, ?, ?, ?, ?, ?, ?)");
    assert(r@ =~= insert_sql(rows as nat));
    r
}

/// One fewer than the processors, but at least one.
pub open spec fn workers_for(cpus: int) -> int {
    if cpus - 1 > 1 {
        cpus - 1
    } else {
        1
    }
}

/// The workers, but at most nine.
pub open spec fn store_parts(cpus: int) -> int {
    if workers_for(cpus) < 9 {
        workers_for(cpus)
    } else {
        9
    }
}

/// The number of worker threads for a machine with `cpus` processors:
/// one fewer than the processors, but at least one.
pub fn worker_count(cpus: usize) -> (n: usize)
    requires
        cpus >= 1,
    ensures
        n == workers_for(cpus as int),
{
    if cpus - 1 > 1 {
        cpus - 1
    } else {
        1
    }
}

/// The number of rows that each store file gets: `rows` divided, rounding
/// down, by the workers of `cpus` processors, or by nine where there are
/// more workers (SQLite attaches at most ten databases by default). The rows
/// are cut into files of this size, the last one possibly smaller.
pub fn store_chunk_size(rows: usize, cpus: usize) -> (n: usize)
    requires
        cpus >= 1,
    ensures
        n == rows as int / store_parts(cpus as int),
{
    let workers = worker_count(cpus);
    let parts = if workers < 9 {
        workers
    } else {
        9
    };
    rows / parts
}

/// The name of the store file with this number: `.ttags.<number>.db`.
pub fn store_file_name(index: usize) -> (r: String)
    ensures
        r@ == ".ttags."@ + decimal(index as nat) + ".db"@,
{
    let mut r = ".ttags.".to_owned();
    r.append(crate::text::decimal_text(index).as_str());
    r.append(".db");
    r
}

/// Law of the insert statement: for one row it is the header followed by
/// one placeholder group, and each further row adds a comma and one more
/// group of six placeholders.
pub proof fn lemma_insert_sql_groups(n: nat)
    requires
        n >= 1,
    ensures
        insert_sql(1) == "INSERT INTO tags VALUES (NULL, ?, ?, ?, ?, ?, ?)"@,
        insert_sql(n + 1) == insert_sql(n) + ", (NULL, ?, ?, ?, ?, ?, ?)"@,
{
    reveal_strlit("INSERT INTO tags VALUES");
    reveal_strlit(" (NULL, ?, ?, ?, ?, ?, ?),");
    reveal_strlit("INSERT INTO tags VALUES (NULL, ?, ?, ?, ?, ?, ?)");
    reveal_strlit(", (NULL, ?, ?, ?, ?, ?, ?)");
    let h = "INSERT INTO tags VALUES"@;
    let g = " (NULL, ?, ?, ?, ?, ?, ?),"@;
    assert(repeat_text(g, 0) =~= Seq::<char>::empty());
    assert(repeat_text(g, 1) =~= g);
    assert(insert_sql(1) =~= "INSERT INTO tags VALUES (NULL, ?, ?, ?, ?, ?, ?)"@);
    let r = repeat_text(g, n);
    assert(repeat_text(g, n + 1) == r + g);
    assert(r.len() >= g.len()) by {
        assert(repeat_text(g, n) == repeat_text(g, (n - 1) as nat) + g);
    }
    assert((h + r).last() == ',') by {
        assert(repeat_text(g, n) == repeat_text(g, (n - 1) as nat) + g);
        assert(r.last() == g.last());
    }
    assert((h + (r + g)).drop_last() =~= (h + r).drop_last() + ", (NULL, ?, ?, ?, ?, ?, ?)"@);
}

/// Law of the store's rows: each row names its tag by the text of all the
/// code bytes from the name's start to its end: the name's UTF-8 encoding is
/// exactly those bytes, whatever their number; bytes that are not UTF-8 give
/// the empty name.
pub proof fn lemma_row_name_is_whole_text(
    file: Seq<char>,
    code: Seq<u8>,
    found: (Seq<crate::tagging::SourceTagView>, bool),
)
    ensures
        forall|j: int|
            0 <= j < file_rows(file, code, found).len() ==> {
                let bytes = code.subrange(found.0[j].0 as int, found.0[j].1 as int);
                &&& found.0[j].0 <= found.0[j].1 <= code.len()
                &&& valid_utf8(bytes) ==> name_bytes(#[trigger] file_rows(file, code, found)[j].1) == bytes
                &&& !valid_utf8(bytes) ==> file_rows(file, code, found)[j].1 == Seq::<char>::empty()
            },
{
    broadcast use vstd::utf8::decode_utf8_encode_utf8;

    lemma_usable_count_bounds(found.0, code, 0);
    assert forall|j: int| 0 <= j < file_rows(file, code, found).len() implies {
        let bytes = code.subrange(found.0[j].0 as int, found.0[j].1 as int);
        &&& found.0[j].0 <= found.0[j].1 <= code.len()
        &&& valid_utf8(bytes) ==> name_bytes(#[trigger] file_rows(file, code, found)[j].1) == bytes
        &&& !valid_utf8(bytes) ==> file_rows(file, code, found)[j].1 == Seq::<char>::empty()
    } by {
        assert(usable(found.0[j], code));
    }
}

} // verus!
