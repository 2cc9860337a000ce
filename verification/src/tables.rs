//! A font as a list of tables, and the way back to a font file.
use read_fonts::{FontRef, TableProvider};
use vstd::prelude::*;
use write_fonts::types::Tag;
use write_fonts::FontBuilder;

use crate::bytes::{copy, pad4, u16_at, u32_at};
use crate::error::{read_error, write_error, Problem, SliceError};
use crate::font::{show_tag, tag_text};
use crate::sfnt::{by_tag, record_at, tables_from, tag_value, tag_values, Table};
use crate::sort::{every_index_has_its_place, ordering_is_stable, stable_order};

verus! {

/// One table of a font, under the number whose four big-endian bytes are its tag.
#[derive(Debug)]
pub struct FontTable {
    pub tag: u32,
    pub bytes: Vec<u8>,
}

/// What a [`FontTable`] holds.
#[verifier::ext_equal]
pub struct TableView {
    pub tag: u32,
    pub bytes: Seq<u8>,
}

impl View for FontTable {
    type V = TableView;

    open spec fn view(&self) -> TableView {
        TableView { tag: self.tag, bytes: self.bytes@ }
    }
}

pub open spec fn table_views(tables: Seq<FontTable>) -> Seq<TableView> {
    tables.map_values(|t: FontTable| t@)
}

pub const AVAR: u32 = 0x61766172;

pub const CFF2: u32 = 0x43464632;

pub const CVAR: u32 = 0x63766172;

pub const DSIG: u32 = 0x44534947;

pub const FVAR: u32 = 0x66766172;

pub const GDEF: u32 = 0x47444546;

pub const GLYF: u32 = 0x676c7966;

pub const GPOS: u32 = 0x47504f53;

pub const GSUB: u32 = 0x47535542;

pub const GVAR: u32 = 0x67766172;

pub const HEAD: u32 = 0x68656164;

pub const HHEA: u32 = 0x68686561;

pub const HMTX: u32 = 0x686d7478;

pub const HVAR: u32 = 0x48564152;

pub const LOCA: u32 = 0x6c6f6361;

pub const MAXP: u32 = 0x6d617870;

pub const MVAR: u32 = 0x4d564152;

pub const NAME: u32 = 0x6e616d65;

pub const OS2: u32 = 0x4f532f32;

pub const POST: u32 = 0x706f7374;

pub const STAT: u32 = 0x53544154;

pub const VHEA: u32 = 0x76686561;

pub const VMTX: u32 = 0x766d7478;

pub const VVAR: u32 = 0x56564152;

// ---------------------------------------------------------------------------- reading

/// The tags of a font's table directory, in order, each with the data that the font has
/// for it; or why the bytes are no font.
pub uninterp spec fn directory_of(data: Seq<u8>) -> Result<
    Seq<(u32, Option<Seq<u8>>)>,
    Seq<char>,
>;

/// An entry of a font's table directory.
struct DirectoryEntry {
    tag: u32,
    bytes: Option<Vec<u8>>,
}

closed spec fn entry_view(entry: DirectoryEntry) -> (u32, Option<Seq<u8>>) {
    (
        entry.tag,
        match entry.bytes {
            Some(b) => Some(b@),
            None => None,
        },
    )
}

closed spec fn entry_views(entries: Seq<DirectoryEntry>) -> Seq<(u32, Option<Seq<u8>>)> {
    entries.map_values(|e: DirectoryEntry| entry_view(e))
}

/// A table of an sfnt, as a table of a font.
pub open spec fn plain_view(table: Table) -> TableView {
    TableView { tag: tag_value(table.tag) as u32, bytes: table.bytes }
}

pub open spec fn plain_views(tables: Seq<Table>) -> Seq<TableView> {
    tables.map_values(|t: Table| plain_view(t))
}

/// The tables that the directory of an sfnt lists, in its order.
pub open spec fn listed_tables(data: Seq<u8>) -> Seq<Table> {
    match tables_from(data, 0, Seq::empty()) {
        Ok(tables) => tables,
        Err(_) => Seq::empty(),
    }
}

/// True for a file that starts as a font with TrueType or with CFF outlines does.
pub open spec fn has_sfnt_version(data: Seq<u8>) -> bool {
    data.len() >= 12 && (u32_at(data, 0) == 0x1_0000 || u32_at(data, 0) == 0x4f54_544f)
}

/// True for an sfnt whose directory is in order: it lists no tag twice, and every table lies
/// within the file and does not start where the file does.
pub open spec fn is_orderly(data: Seq<u8>) -> bool {
    &&& has_sfnt_version(data)
    &&& tables_from(data, 0, Seq::empty()) is Ok
    &&& distinct_tags(plain_views(listed_tables(data)))
    &&& forall|i: int| 0 <= i < u16_at(data, 4) ==> 0 < (#[trigger] record_at(data, i)).offset
}

/// True for such an sfnt that opens as the font of the tables that it lists.
pub open spec fn opens_as_listed(data: Seq<u8>) -> bool {
    &&& is_orderly(data)
    &&& font_tables(data) == Ok::<Seq<TableView>, Problem>(plain_views(listed_tables(data)))
}

/// Calls `read_fonts::FontRef::new`, and `FontRef::table_data` for each tag of the table
/// directory. What they give has a name: the tags in order, with the bytes of the table
/// where the font file holds them, or the message of the error. Where the directory is in
/// order, these are the tables that it lists.
#[verifier::external_body]
fn open_font(data: &[u8]) -> (r: Result<Vec<DirectoryEntry>, String>)
    ensures
        match r {
            Ok(entries) => directory_of(data@) == Ok::<
                Seq<(u32, Option<Seq<u8>>)>,
                Seq<char>,
            >(entry_views(entries@)),
            Err(text) => directory_of(data@) == Err::<
                Seq<(u32, Option<Seq<u8>>)>,
                Seq<char>,
            >(text@),
        },
        is_orderly(data@) ==> match r {
            Ok(entries) => present(entry_views(entries@)) == plain_views(listed_tables(data@)),
            Err(_) => false,
        },
{
    let font = FontRef::new(data).map_err(|e| e.to_string())?;
    let records = font.table_directory().table_records().iter();
    Ok(
        records.map(
            |r| DirectoryEntry {
                tag: u32::from_be_bytes(r.tag().to_be_bytes()),
                bytes: font.table_data(r.tag()).map(|d| d.as_bytes().to_vec()),
            },
        ).collect(),
    )
}

/// The entries that have data.
pub open spec fn present(entries: Seq<(u32, Option<Seq<u8>>)>) -> Seq<TableView>
    decreases entries.len(),
{
    if entries.len() == 0 {
        Seq::empty()
    } else {
        match entries.last().1 {
            Some(bytes) => present(entries.drop_last()).push(
                TableView { tag: entries.last().0, bytes },
            ),
            None => present(entries.drop_last()),
        }
    }
}

/// The tables of a font, in the order of its directory.
pub open spec fn font_tables(data: Seq<u8>) -> Result<Seq<TableView>, Problem> {
    match directory_of(data) {
        Ok(entries) => Ok(present(entries)),
        Err(text) => Err(Problem::Read(text)),
    }
}

/// Read the tables of a font.
pub fn read_tables(data: &[u8]) -> (r: Result<Vec<FontTable>, SliceError>)
    ensures
        match r {
            Ok(tables) => font_tables(data@) == Ok::<Seq<TableView>, Problem>(table_views(tables@)),
            Err(e) => font_tables(data@) == Err::<Seq<TableView>, Problem>(e@),
        },
        is_orderly(data@) ==> opens_as_listed(data@),
{
    let entries: Vec<DirectoryEntry> = match open_font(data) {
        Ok(entries) => entries,
        Err(text) => {
            return Err(SliceError::Read(text));
        },
    };
    let ghost views = entry_views(entries@);
    let mut out: Vec<FontTable> = Vec::new();
    assert(table_views(out@) =~= present(views.take(0)));
    for i in 0..entries.len()
        invariant
            views == entry_views(entries@),
            table_views(out@) == present(views.take(i as int)),
    {
        assert(views.take(i + 1).drop_last() =~= views.take(i as int));
        assert(views[i as int] == entry_view(entries@[i as int]));
        let ghost before = table_views(out@);
        match &entries[i].bytes {
            Some(bytes) => {
                let table: FontTable = FontTable { tag: entries[i].tag, bytes: copy(bytes) };
                let ghost added = table@;
                out.push(table);
                assert(table_views(out@) =~= before.push(added));
            },
            None => {},
        }
    }
    assert(views.take(views.len() as int) =~= views);
    Ok(out)
}

/// The data of the first table with a tag.
pub open spec fn table_bytes(tables: Seq<TableView>, tag: u32) -> Option<Seq<u8>>
    decreases tables.len(),
{
    if tables.len() == 0 {
        None
    } else if tables[0].tag == tag {
        Some(tables[0].bytes)
    } else {
        table_bytes(tables.skip(1), tag)
    }
}

/// The data of the first table with a tag.
pub fn find_table(tables: &Vec<FontTable>, tag: u32) -> (r: Option<&Vec<u8>>)
    ensures
        match r {
            Some(bytes) => table_bytes(table_views(tables@), tag) == Some(bytes@),
            None => table_bytes(table_views(tables@), tag) is None,
        },
{
    let ghost views = table_views(tables@);
    assert(views.skip(0) =~= views);
    for i in 0..tables.len()
        invariant
            views == table_views(tables@),
            table_bytes(views, tag) == table_bytes(views.skip(i as int), tag),
    {
        assert(views.skip(i as int)[0] == tables@[i as int]@);
        assert(views.skip(i as int).skip(1) =~= views.skip(i + 1));
        if tables[i].tag == tag {
            return Some(&tables[i].bytes);
        }
    }
    None
}

/// The problem of a font without a table that is needed.
pub open spec fn missing_table(tag: u32) -> Problem {
    Problem::Read("the "@ + tag_text(tag) + " table is missing"@)
}

/// The problem of a table that ends too soon.
pub open spec fn out_of_bounds() -> Problem {
    Problem::Read("An offset was out of bounds"@)
}

/// The data of a table that is needed.
pub open spec fn needed_table(tables: Seq<TableView>, tag: u32) -> Result<Seq<u8>, Problem> {
    match table_bytes(tables, tag) {
        Some(bytes) => Ok(bytes),
        None => Err(missing_table(tag)),
    }
}

/// The data of a table that is needed.
pub fn need_table(tables: &Vec<FontTable>, tag: u32) -> (r: Result<&Vec<u8>, SliceError>)
    ensures
        match r {
            Ok(bytes) => needed_table(table_views(tables@), tag) == Ok::<Seq<u8>, Problem>(bytes@),
            Err(e) => needed_table(table_views(tables@), tag) == Err::<Seq<u8>, Problem>(e@),
        },
{
    match find_table(tables, tag) {
        Some(bytes) => Ok(bytes),
        None => Err(
            SliceError::Read(
                "the ".to_owned().concat(show_tag(tag).as_str()).concat(" table is missing"),
            ),
        ),
    }
}

/// The error for [`out_of_bounds`].
pub fn bounds_error() -> (e: SliceError)
    ensures
        e@ == out_of_bounds(),
{
    read_error("An offset was out of bounds")
}

/// True when some table has the tag.
pub open spec fn has_tag(tables: Seq<TableView>, tag: u32) -> bool {
    exists|i: int| 0 <= i < tables.len() && (#[trigger] tables[i]).tag == tag
}

/// A tag is found exactly where some table has it.
pub proof fn a_tag_is_found_where_it_is(tables: Seq<TableView>, tag: u32)
    ensures
        table_bytes(tables, tag) is Some <==> has_tag(tables, tag),
    decreases tables.len(),
{
    if tables.len() > 0 {
        a_tag_is_found_where_it_is(tables.skip(1), tag);
        if tables[0].tag != tag {
            if has_tag(tables, tag) {
                let i = choose|i: int| 0 <= i < tables.len() && (#[trigger] tables[i]).tag == tag;
                assert(tables.skip(1)[i - 1] == tables[i]);
            }
            if has_tag(tables.skip(1), tag) {
                let i = choose|i: int|
                    0 <= i < tables.skip(1).len() && (#[trigger] tables.skip(1)[i]).tag == tag;
                assert(tables[i + 1].tag == tag);
            }
        }
    }
}

/// Where tags are distinct, every table is found under its own.
pub proof fn lemma_found_by_tag(tables: Seq<TableView>, i: int)
    requires
        distinct_tags(tables),
        0 <= i < tables.len(),
    ensures
        table_bytes(tables, tables[i].tag) == Some(tables[i].bytes),
    decreases tables.len(),
{
    if i > 0 {
        assert(tables[0].tag != tables[i].tag);
        let rest = tables.skip(1);
        assert forall|a: int, b: int| 0 <= a < b < rest.len() implies (#[trigger] rest[a]).tag != (
        #[trigger] rest[b]).tag by {
            assert(tables[a + 1].tag != tables[b + 1].tag);
        }
        lemma_found_by_tag(rest, i - 1);
        assert(rest[i - 1] == tables[i]);
    }
}

/// Where tags are distinct, what is found under a tag does not depend on the order of the
/// tables.
pub proof fn lemma_found_in_any_order(a: Seq<TableView>, b: Seq<TableView>, tag: u32)
    requires
        distinct_tags(a),
        distinct_tags(b),
        forall|i: int| 0 <= i < a.len() ==> b.contains(#[trigger] a[i]),
        forall|i: int| 0 <= i < b.len() ==> a.contains(#[trigger] b[i]),
    ensures
        table_bytes(a, tag) == table_bytes(b, tag),
{
    a_tag_is_found_where_it_is(a, tag);
    a_tag_is_found_where_it_is(b, tag);
    if has_tag(a, tag) {
        let i = choose|i: int| 0 <= i < a.len() && (#[trigger] a[i]).tag == tag;
        assert(b.contains(a[i]));
        let j = choose|j: int| 0 <= j < b.len() && b[j] == a[i];
        lemma_found_by_tag(a, i);
        lemma_found_by_tag(b, j);
    } else if has_tag(b, tag) {
        let j = choose|j: int| 0 <= j < b.len() && (#[trigger] b[j]).tag == tag;
        assert(a.contains(b[j]));
        let i = choose|i: int| 0 <= i < a.len() && a[i] == b[j];
        assert(a[i].tag == tag);
    }
}

/// The tables of an sfnt in the order of their tags are found as they are in its own order.
pub proof fn lemma_sorted_views(tables: Seq<Table>)
    ensures
        distinct_tags(plain_views(tables)) <==> distinct_tags(plain_views(by_tag(tables))),
        distinct_tags(plain_views(tables)) ==> forall|tag: u32| #[trigger]
            table_bytes(plain_views(by_tag(tables)), tag) == table_bytes(plain_views(tables), tag),
{
    let keys = tag_values(tables);
    let order = stable_order(keys);
    ordering_is_stable(keys);
    let a = plain_views(by_tag(tables));
    let b = plain_views(tables);
    assert forall|k: int| 0 <= k < a.len() implies #[trigger] a[k] == b[order[k]] by {}
    assert forall|k: int| 0 <= k < b.len() implies a.contains(#[trigger] b[k]) by {
        every_index_has_its_place(keys, k);
        let i = choose|i: int| 0 <= i < order.len() && order[i] == k;
        assert(a[i] == b[k]);
    }
    assert forall|k: int| 0 <= k < a.len() implies b.contains(#[trigger] a[k]) by {
        assert(b[order[k]] == a[k]);
    }
    if distinct_tags(b) {
        assert forall|i: int, j: int| 0 <= i < j < a.len() implies (#[trigger] a[i]).tag != (
        #[trigger] a[j]).tag by {
            let (p, q) = (order[i], order[j]);
            if p < q {
                assert(b[p].tag != b[q].tag);
            } else {
                assert(b[q].tag != b[p].tag);
            }
        }
        assert forall|tag: u32| #[trigger] table_bytes(a, tag) == table_bytes(b, tag) by {
            lemma_found_in_any_order(a, b, tag);
        }
    }
    if distinct_tags(a) {
        assert forall|i: int, j: int| 0 <= i < j < b.len() implies (#[trigger] b[i]).tag != (
        #[trigger] b[j]).tag by {
            every_index_has_its_place(keys, i);
            every_index_has_its_place(keys, j);
            let p = choose|p: int| 0 <= p < order.len() && order[p] == i;
            let q = choose|q: int| 0 <= q < order.len() && order[q] == j;
            if p < q {
                assert(a[p].tag != a[q].tag);
            } else {
                assert(a[q].tag != a[p].tag);
            }
        }
    }
}

// ---------------------------------------------------------------------------- writing

pub open spec fn distinct_tags(tables: Seq<TableView>) -> bool {
    forall|i: int, j: int|
        0 <= i < j < tables.len() ==> (#[trigger] tables[i]).tag != (#[trigger] tables[j]).tag
}

/// The bytes that the tables take up, each padded to a multiple of four.
pub open spec fn padded_total(tables: Seq<TableView>) -> int
    decreases tables.len(),
{
    if tables.len() == 0 {
        0
    } else {
        padded_total(tables.drop_last()) + pad4(tables.last().bytes.len() as int)
    }
}

/// True when a table directory can describe the tables: the fields for a binary search over
/// them and their offsets fit. Sixteen times the largest power of two that is not above the
/// number of tables has to fit sixteen bits.
pub open spec fn fits_font(tables: Seq<TableView>) -> bool {
    tables.len() < 4096 && 12 + 16 * tables.len() + padded_total(tables) <= 0xffff_ffff
}

/// The font file that holds the tables.
pub uninterp spec fn built_font(tables: Seq<TableView>) -> Seq<u8>;

/// True when `b` is the table `a` but for the checksum in bytes 8 to 12.
pub open spec fn same_but_checksum(a: Seq<u8>, b: Seq<u8>) -> bool {
    a.len() == b.len() && forall|i: int|
        0 <= i < a.len() && !(8 <= i < 12) ==> #[trigger] a[i] == b[i]
}

/// Calls `write_fonts::FontBuilder::add_raw` for each table, and `FontBuilder::build`. The
/// font file has a name. What is stated of it besides is that its directory is in order and
/// that it opens as the font of the tables that it lists, that these have the tags of the
/// given tables and no others, and that the data under each tag is the data of its table; in
/// `head`, `build` sets the checksum that stands in bytes 8 to 12. From 4096 tables on
/// `build` panics, as the search fields of the directory then overflow; so many are left out.
#[verifier::external_body]
fn build_font(tables: &Vec<FontTable>) -> (out: Vec<u8>)
    requires
        distinct_tags(table_views(tables@)),
        fits_font(table_views(tables@)),
    ensures
        out@ == built_font(table_views(tables@)),
        opens_as_listed(out@),
        match font_tables(out@) {
            Ok(read) => {
                &&& read.len() == tables@.len()
                &&& distinct_tags(read)
                &&& forall|i: int|
                    0 <= i < tables@.len() ==> match table_bytes(
                        read,
                        (#[trigger] tables@[i]).tag,
                    ) {
                        Some(bytes) => if tables@[i].tag == HEAD {
                            same_but_checksum(tables@[i].bytes@, bytes)
                        } else {
                            bytes == tables@[i].bytes@
                        },
                        None => false,
                    }
            },
            Err(_) => false,
        },
{
    let mut builder = FontBuilder::new();
    for table in tables {
        builder.add_raw(Tag::new(&table.tag.to_be_bytes()), &table.bytes);
    }
    builder.build()
}

/// The font file for `tables`, where a directory can describe them.
pub open spec fn assembled(tables: Seq<TableView>) -> Result<Seq<u8>, Problem> {
    if fits_font(tables) {
        Ok(built_font(tables))
    } else {
        Err(Problem::Write("the tables do not fit into a font file"@))
    }
}

/// True when `read` holds the tables of `written` and no others, under the same tags.
pub open spec fn reads_as(read: Seq<TableView>, written: Seq<TableView>) -> bool {
    &&& forall|tag: u32| #[trigger] has_tag(read, tag) <==> has_tag(written, tag)
    &&& forall|i: int|
        0 <= i < written.len() ==> match table_bytes(read, (#[trigger] written[i]).tag) {
            Some(bytes) => if written[i].tag == HEAD {
                same_but_checksum(written[i].bytes, bytes)
            } else {
                bytes == written[i].bytes
            },
            None => false,
        }
}

proof fn lemma_same_tags(read: Seq<TableView>, written: Seq<TableView>)
    requires
        distinct_tags(read),
        distinct_tags(written),
        read.len() == written.len(),
        forall|i: int|
            0 <= i < written.len() ==> table_bytes(read, (#[trigger] written[i]).tag) is Some,
    ensures
        forall|tag: u32| #[trigger] has_tag(read, tag) <==> has_tag(written, tag),
{
    // As many distinct tags on one side as on the other, and all of one among the other.
    let tags_read = Set::new(|tag: u32| has_tag(read, tag));
    let tags_written = Set::new(|tag: u32| has_tag(written, tag));
    lemma_tag_count(read);
    lemma_tag_count(written);
    assert forall|tag: u32| tags_written.contains(tag) implies tags_read.contains(tag) by {
        let i = choose|i: int| 0 <= i < written.len() && (#[trigger] written[i]).tag == tag;
        a_tag_is_found_where_it_is(read, written[i].tag);
    }
    vstd::set_lib::lemma_subset_equality(tags_written, tags_read);
    assert forall|tag: u32| #[trigger] has_tag(read, tag) <==> has_tag(written, tag) by {
        assert(tags_read.contains(tag) == tags_written.contains(tag));
    }
}

proof fn lemma_tag_count(tables: Seq<TableView>)
    requires
        distinct_tags(tables),
    ensures
        Set::new(|tag: u32| has_tag(tables, tag)).finite(),
        Set::new(|tag: u32| has_tag(tables, tag)).len() == tables.len(),
    decreases tables.len(),
{
    let tags = Set::new(|tag: u32| has_tag(tables, tag));
    if tables.len() == 0 {
        assert(tags =~= Set::empty());
    } else {
        let rest = tables.drop_last();
        let last = tables[tables.len() - 1].tag;
        assert(distinct_tags(rest)) by {
            assert forall|a: int, b: int| 0 <= a < b < rest.len() implies (
            #[trigger] rest[a]).tag != (#[trigger] rest[b]).tag by {
                assert(tables[a].tag != tables[b].tag);
            }
        }
        lemma_tag_count(rest);
        let fewer = Set::new(|tag: u32| has_tag(rest, tag));
        assert(!fewer.contains(last)) by {
            if has_tag(rest, last) {
                let i = choose|i: int| 0 <= i < rest.len() && (#[trigger] rest[i]).tag == last;
                assert(tables[i].tag == tables[tables.len() - 1].tag);
            }
        }
        assert forall|tag: u32| tags.contains(tag) == fewer.insert(last).contains(tag) by {
            if has_tag(tables, tag) {
                let i = choose|i: int| 0 <= i < tables.len() && (#[trigger] tables[i]).tag == tag;
                if i < rest.len() {
                    assert(rest[i].tag == tag);
                }
            }
            if has_tag(rest, tag) {
                let i = choose|i: int| 0 <= i < rest.len() && (#[trigger] rest[i]).tag == tag;
                assert(tables[i].tag == tag);
            }
        }
        assert(tags =~= fewer.insert(last));
    }
}

fn padded_size(tables: &Vec<FontTable>) -> (r: Option<u64>)
    ensures
        match r {
            Some(total) => total == padded_total(table_views(tables@)) && total <= 0xffff_ffff,
            None => padded_total(table_views(tables@)) > 0xffff_ffff,
        },
{
    let ghost views = table_views(tables@);
    let mut total: u64 = 0;
    for i in 0..tables.len()
        invariant
            views == table_views(tables@),
            total == padded_total(views.take(i as int)),
            total <= 0xffff_ffff,
    {
        proof {
            assert(views.take(i + 1).drop_last() =~= views.take(i as int));
            assert(views[i as int] == tables@[i as int]@);
            lemma_padded_total_grows(views, i + 1);
        }
        let len: u64 = tables[i].bytes.len() as u64;
        if len > 0xffff_ffff {
            return None;
        }
        let padded: u64 = (len + 3) / 4 * 4;
        assert(padded == pad4(len as int));
        if total + padded > 0xffff_ffff {
            return None;
        }
        total = total + padded;
    }
    assert(views.take(views.len() as int) =~= views);
    Some(total)
}

proof fn lemma_padded_total_grows(tables: Seq<TableView>, n: int)
    requires
        0 <= n <= tables.len(),
    ensures
        0 <= padded_total(tables.take(n)) <= padded_total(tables),
    decreases tables.len(),
{
    if n == tables.len() {
        assert(tables.take(n) =~= tables);
        lemma_padded_total_positive(tables);
    } else {
        assert(tables.drop_last().take(n) =~= tables.take(n));
        lemma_padded_total_grows(tables.drop_last(), n);
    }
}

proof fn lemma_padded_total_positive(tables: Seq<TableView>)
    ensures
        padded_total(tables) >= 0,
    decreases tables.len(),
{
    if tables.len() > 0 {
        lemma_padded_total_positive(tables.drop_last());
    }
}

/// Write the tables to a font file.
pub fn assemble(tables: &Vec<FontTable>) -> (r: Result<Vec<u8>, SliceError>)
    requires
        distinct_tags(table_views(tables@)),
    ensures
        match r {
            Ok(bytes) => {
                &&& assembled(table_views(tables@)) == Ok::<Seq<u8>, Problem>(bytes@)
                &&& font_tables(bytes@) matches Ok(read) && reads_as(read, table_views(tables@))
                &&& opens_as_listed(bytes@)
            },
            Err(e) => assembled(table_views(tables@)) == Err::<Seq<u8>, Problem>(e@),
        },
{
    let ghost views = table_views(tables@);
    proof {
        lemma_padded_total_positive(views);
    }
    let fits: bool = tables.len() < 4096 && match padded_size(tables) {
        Some(total) => 12 + 16 * tables.len() as u64 + total <= 0xffff_ffff,
        None => false,
    };
    if !fits {
        return Err(write_error("the tables do not fit into a font file"));
    }
    let out: Vec<u8> = build_font(tables);
    proof {
        let read = font_tables(out@)->Ok_0;
        assert forall|i: int| 0 <= i < views.len() implies match table_bytes(
            read,
            (#[trigger] views[i]).tag,
        ) {
            Some(bytes) => if views[i].tag == HEAD {
                same_but_checksum(views[i].bytes, bytes)
            } else {
                bytes == views[i].bytes
            },
            None => false,
        } by {
            assert(views[i] == tables@[i]@);
        }
        lemma_same_tags(read, views);
    }
    Ok(out)
}

/// `out` and then each table of `font` that has a tag of its own and is not skipped.
pub open spec fn with_remaining(
    out: Seq<TableView>,
    font: Seq<TableView>,
    skip: Seq<u32>,
) -> Seq<TableView>
    decreases font.len(),
{
    if font.len() == 0 {
        out
    } else {
        let before = with_remaining(out, font.drop_last(), skip);
        if has_tag(before, font.last().tag) || skip.contains(font.last().tag) {
            before
        } else {
            before.push(font.last())
        }
    }
}

fn tag_present(tables: &Vec<FontTable>, tag: u32) -> (r: bool)
    ensures
        r == has_tag(table_views(tables@), tag),
{
    let ghost views = table_views(tables@);
    for i in 0..tables.len()
        invariant
            views == table_views(tables@),
            forall|k: int| 0 <= k < i ==> (#[trigger] views[k]).tag != tag,
    {
        assert(views[i as int] == tables@[i as int]@);
        if tables[i].tag == tag {
            return true;
        }
    }
    false
}

fn is_skipped(skip: &[u32], tag: u32) -> (r: bool)
    ensures
        r == skip@.contains(tag),
{
    for i in 0..skip.len()
        invariant
            forall|k: int| 0 <= k < i ==> skip@[k] != tag,
    {
        if skip[i] == tag {
            return true;
        }
    }
    false
}

/// Copy every table that `out` does not already hold, skipping `skip`.
pub fn copy_remaining_tables(out: &mut Vec<FontTable>, font: &Vec<FontTable>, skip: &[u32])
    requires
        distinct_tags(table_views(old(out)@)),
    ensures
        table_views(final(out)@) == with_remaining(
            table_views(old(out)@),
            table_views(font@),
            skip@,
        ),
        distinct_tags(table_views(final(out)@)),
{
    let ghost first = table_views(out@);
    let ghost views = table_views(font@);
    for i in 0..font.len()
        invariant
            views == table_views(font@),
            table_views(out@) == with_remaining(first, views.take(i as int), skip@),
            distinct_tags(table_views(out@)),
    {
        assert(views.take(i + 1).drop_last() =~= views.take(i as int));
        assert(views[i as int] == font@[i as int]@);
        let tag: u32 = font[i].tag;
        if !tag_present(out, tag) && !is_skipped(skip, tag) {
            let ghost before = table_views(out@);
            let table: FontTable = FontTable { tag, bytes: copy(&font[i].bytes) };
            let ghost added = table@;
            out.push(table);
            assert(table_views(out@) =~= before.push(added));
            assert(added == views[i as int]);
        }
    }
    assert(views.take(views.len() as int) =~= views);
}

/// Copying the remaining tables leaves what was written as it is, carries every other
/// table over unless it is skipped, and adds nothing else.
pub proof fn remaining_tables_are_carried_over(
    out: Seq<TableView>,
    font: Seq<TableView>,
    skip: Seq<u32>,
    tag: u32,
)
    requires
        distinct_tags(out),
    ensures
        table_bytes(with_remaining(out, font, skip), tag) == if has_tag(out, tag) {
            table_bytes(out, tag)
        } else if skip.contains(tag) {
            None
        } else {
            table_bytes(font, tag)
        },
    decreases font.len(),
{
    a_tag_is_found_where_it_is(out, tag);
    if font.len() > 0 {
        let before = with_remaining(out, font.drop_last(), skip);
        remaining_tables_are_carried_over(out, font.drop_last(), skip, tag);
        a_tag_is_found_where_it_is(before, tag);
        a_tag_is_found_where_it_is(before, font.last().tag);
        lemma_found_after_push(font.drop_last(), font.last(), tag);
        assert(font =~= font.drop_last().push(font.last()));
        remaining_tables_are_carried_over(out, font.drop_last(), skip, font.last().tag);
        if !(has_tag(before, font.last().tag) || skip.contains(font.last().tag)) {
            lemma_found_after_push(before, font.last(), tag);
        }
    }
}

proof fn lemma_found_after_push(tables: Seq<TableView>, table: TableView, tag: u32)
    ensures
        table_bytes(tables.push(table), tag) == match table_bytes(tables, tag) {
            Some(bytes) => Some(bytes),
            None => if table.tag == tag {
                Some(table.bytes)
            } else {
                None
            },
        },
    decreases tables.len(),
{
    let all = tables.push(table);
    if tables.len() == 0 {
        assert(all.skip(1) =~= Seq::<TableView>::empty());
        assert(table_bytes(all.skip(1), tag) is None);
    } else {
        assert(all.skip(1) =~= tables.skip(1).push(table));
        assert(all[0] == tables[0]);
        lemma_found_after_push(tables.skip(1), table, tag);
    }
}

/// The tables keep distinct tags when the remaining ones are copied.
pub proof fn lemma_remaining_distinct(out: Seq<TableView>, font: Seq<TableView>, skip: Seq<u32>)
    requires
        distinct_tags(out),
    ensures
        distinct_tags(with_remaining(out, font, skip)),
    decreases font.len(),
{
    if font.len() > 0 {
        lemma_remaining_distinct(out, font.drop_last(), skip);
    }
}

/// The data under a tag reads back as it was written.
pub proof fn lemma_reads_under_tag(read: Seq<TableView>, written: Seq<TableView>, tag: u32)
    requires
        reads_as(read, written),
        distinct_tags(written),
    ensures
        match table_bytes(written, tag) {
            Some(bytes) => table_bytes(read, tag) matches Some(got) && if tag == HEAD {
                same_but_checksum(bytes, got)
            } else {
                got == bytes
            },
            None => table_bytes(read, tag) is None,
        },
{
    a_tag_is_found_where_it_is(written, tag);
    a_tag_is_found_where_it_is(read, tag);
    if has_tag(written, tag) {
        let i = choose|i: int| 0 <= i < written.len() && (#[trigger] written[i]).tag == tag;
        lemma_found_by_tag(written, i);
    }
}

/// A table that is neither replaced nor skipped is read as it was.
pub proof fn lemma_carried(
    read: Seq<TableView>,
    first: Seq<TableView>,
    font: Seq<TableView>,
    skip: Seq<u32>,
    tag: u32,
)
    requires
        distinct_tags(first),
        reads_as(read, with_remaining(first, font, skip)),
        !has_tag(first, tag),
        !skip.contains(tag),
        tag != HEAD,
    ensures
        table_bytes(read, tag) == table_bytes(font, tag),
{
    lemma_remaining_distinct(first, font, skip);
    remaining_tables_are_carried_over(first, font, skip, tag);
    lemma_reads_under_tag(read, with_remaining(first, font, skip), tag);
}

/// A table at the end is found where none before it has its tag.
pub proof fn lemma_table_at_end(tables: Seq<TableView>, t: TableView, tag: u32)
    ensures
        table_bytes(tables + seq![t], tag) == match table_bytes(tables, tag) {
            Some(bytes) => Some(bytes),
            None => if t.tag == tag {
                Some(t.bytes)
            } else {
                None
            },
        },
    decreases tables.len(),
{
    let all = tables + seq![t];
    if tables.len() > 0 {
        lemma_table_at_end(tables.skip(1), t, tag);
        assert(all.skip(1) =~= tables.skip(1) + seq![t]);
        assert(all[0] == tables[0]);
    } else {
        assert(all[0] == t);
        assert(table_bytes(all.skip(1), tag) is None);
        assert(table_bytes(tables, tag) is None);
    }
}

/// Add a table with a tag of its own.
pub fn push_table(out: &mut Vec<FontTable>, t: FontTable)
    requires
        distinct_tags(table_views(old(out)@)),
        forall|i: int| 0 <= i < old(out)@.len() ==> (#[trigger] old(out)@[i]).tag != t.tag,
    ensures
        table_views(final(out)@) == table_views(old(out)@) + seq![t@],
        distinct_tags(table_views(final(out)@)),
        final(out)@ == old(out)@.push(t),
{
    let ghost before = table_views(out@);
    let ghost added = t@;
    out.push(t);
    assert(table_views(out@) =~= before + seq![added]);
    assert forall|i: int, j: int| 0 <= i < j < table_views(out@).len() implies (
    #[trigger] table_views(out@)[i]).tag != (#[trigger] table_views(out@)[j]).tag by {
        if j < before.len() {
            assert(before[i].tag != before[j].tag);
        }
    }
}

} // verus!
