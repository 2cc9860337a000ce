//! Writing what the Name Editor and the Bit Flag Editor hold into a font.
use read_fonts::tables::name::MacRomanMapping;
use vstd::prelude::*;
use write_fonts::dump_table;
use write_fonts::tables::name::{Name, NameRecord as WrittenRecord};
use write_fonts::types::NameId;

use crate::axes::optional_text;
use crate::bits::BitFlags;
use crate::error::{write_error, Problem, SliceError};
use crate::fields::{
    built_table, finish_table, head_bytes, head_fields, os2_fields, os2_written, read_head,
    read_os2, write_head, write_os2, HeadFields, Os2Fields, FS_SELECTION_BITS, MAC_STYLE_BITS,
};
use crate::font::{
    flags_in, font_names, frame_in, is_edited, name_text, name_views, names_in, names_of, rows_in,
    tables_in, the_edited_record_is_shown, NameRecord, NameView, WIN_ENCODING, WIN_LANGUAGE,
    WIN_PLATFORM,
};
use crate::names::{
    lemma_editor_ids, lemma_planned_write, pairs, planned_writes, text_of, NameEdits,
    MANDATORY_IDS, NAME_EDITOR_IDS, OPTIONAL_IDS,
};
use crate::sort::{arranged, key_values, order_of, ordering_is_stable, stable_order};
use crate::tables::{
    a_tag_is_found_where_it_is, assemble, assembled, bounds_error, copy_remaining_tables,
    distinct_tags, find_table, font_tables, lemma_carried, lemma_found_by_tag,
    lemma_reads_under_tag, lemma_remaining_distinct, need_table, needed_table, out_of_bounds,
    read_tables, reads_as, remaining_tables_are_carried_over, table_bytes, table_views,
    with_remaining, FontTable, TableView, FVAR, HEAD, MAXP, NAME, OS2,
};

verus! {

// ------------------------------------------------------------------ writing name records

/// How the text of a record is stored.
#[derive(Clone, Copy, Debug, PartialEq, Eq, Structural)]
pub enum NameCoding {
    Utf16,
    MacRoman,
    /// A coding that cannot be written.
    Unknown,
}

pub open spec fn name_coding(platform: u16, encoding: u16) -> NameCoding {
    if platform == 0 || (platform == 3 && (encoding == 0 || encoding == 1 || encoding == 10)) {
        NameCoding::Utf16
    } else if platform == 1 && encoding == 0 {
        NameCoding::MacRoman
    } else {
        NameCoding::Unknown
    }
}

/// The bytes that a text takes up in UTF-16.
pub open spec fn utf16_size(text: Seq<char>) -> int
    decreases text.len(),
{
    if text.len() == 0 {
        0
    } else {
        utf16_size(text.drop_last()) + if text.last() as int >= 0x1_0000 {
            4int
        } else {
            2
        }
    }
}

/// True for a character of the Mac Roman character set.
pub uninterp spec fn in_mac_roman(c: char) -> bool;

/// Calls `read_fonts::tables::name::MacRomanMapping::encode`, which has a byte for the
/// characters of its table; which those are has a name.
#[verifier::external_body]
fn mac_roman(c: char) -> (r: bool)
    ensures
        r == in_mac_roman(c),
{
    MacRomanMapping.encode(c).is_some()
}

/// True for a record that the `name` table can hold: its length fits the length field, and
/// its coding has every character.
pub open spec fn is_writable(r: NameView) -> bool {
    &&& r.text matches Some(text) && utf16_size(text) <= 0xffff
    &&& match name_coding(r.platform, r.encoding) {
        NameCoding::Utf16 => true,
        NameCoding::MacRoman => forall|i: int|
            0 <= i < r.text->0.len() ==> in_mac_roman(#[trigger] r.text->0[i]),
        NameCoding::Unknown => r.text->0.len() == 0,
    }
}

/// True for records that the `name` table can hold: their offsets fit, too.
pub open spec fn are_writable(records: Seq<NameView>) -> bool {
    6 + 12 * records.len() <= 0xffff && forall|i: int|
        0 <= i < records.len() ==> is_writable(#[trigger] records[i])
}

/// The `name` table with these records, or why it cannot be written.
pub uninterp spec fn names_written(records: Seq<NameView>) -> Result<Seq<u8>, Seq<char>>;

/// Calls `write_fonts::tables::name::Name::new` and `write_fonts::dump_table`. The result
/// has a name; a table that is written reads back as its records.
#[verifier::external_body]
fn write_names(records: &Vec<NameRecord>) -> (r: Result<Vec<u8>, String>)
    requires
        are_writable(name_views(records@)),
    ensures
        match r {
            Ok(bytes) => names_written(name_views(records@)) == Ok::<Seq<u8>, Seq<char>>(bytes@)
                && names_of(bytes@) == Some(name_views(records@)),
            Err(text) => names_written(name_views(records@)) == Err::<Seq<u8>, Seq<char>>(text@),
        },
{
    let records = records.iter().map(
        |r| WrittenRecord::new(
            r.platform,
            r.encoding,
            r.language,
            NameId::new(r.name_id),
            r.text.clone().unwrap_or_default().into(),
        ),
    );
    dump_table(&Name::new(records.collect())).map_err(|e| e.to_string())
}

/// True for a character that takes two units in UTF-16.
fn is_wide(c: char) -> (r: bool)
    ensures
        r == (c as int >= 0x1_0000),
{
    c as u32 >= 0x1_0000
}

fn is_written(r: &NameRecord) -> (ok: bool)
    ensures
        ok == is_writable(r@),
{
    let text: &String = match &r.text {
        Some(text) => text,
        None => {
            return false;
        },
    };
    let chars: Vec<char> = crate::text::chars_of(text.as_str());
    let utf16: bool = r.platform == 0 || (r.platform == 3 && (r.encoding == 0 || r.encoding == 1
        || r.encoding == 10));
    let roman: bool = !utf16 && r.platform == 1 && r.encoding == 0;
    let mut size: u64 = 0;
    for i in 0..chars.len()
        invariant
            chars@ == text@,
            size == utf16_size(chars@.take(i as int)),
            size <= 0xffff,
            roman ==> forall|k: int| 0 <= k < i ==> in_mac_roman(#[trigger] chars@[k]),
            optional_text(r.text) == Some(text@),
            roman == (name_coding(r.platform, r.encoding) == NameCoding::MacRoman),
    {
        let c: char = chars[i];
        proof {
            assert(chars@.take(i + 1).drop_last() =~= chars@.take(i as int));
            assert(chars@.take(i + 1).last() == c);
            lemma_utf16_grows(chars@, i + 1);
        }
        if roman && !mac_roman(c) {
            assert(!in_mac_roman(text@[i as int]));
            return false;
        }
        size = size + if is_wide(c) {
            4
        } else {
            2
        };
        if size > 0xffff {
            return false;
        }
    }
    assert(chars@.take(chars@.len() as int) =~= chars@);
    utf16 || roman || chars.len() == 0
}

proof fn lemma_utf16_grows(text: Seq<char>, n: int)
    requires
        0 <= n <= text.len(),
    ensures
        utf16_size(text.take(n)) <= utf16_size(text),
    decreases text.len(),
{
    if n < text.len() {
        assert(text.drop_last().take(n) =~= text.take(n));
        lemma_utf16_grows(text.drop_last(), n);
    } else {
        assert(text.take(n) =~= text);
    }
}

fn all_written(records: &Vec<NameRecord>) -> (ok: bool)
    ensures
        ok == are_writable(name_views(records@)),
{
    let ghost views = name_views(records@);
    if records.len() > 5460 {
        return false;
    }
    for i in 0..records.len()
        invariant
            views == name_views(records@),
            forall|k: int| 0 <= k < i ==> is_writable(#[trigger] views[k]),
    {
        assert(views[i as int] == records@[i as int]@);
        if !is_written(&records[i]) {
            return false;
        }
    }
    true
}

/// The name table with these records, as it stands in a font.
pub open spec fn name_table(records: Seq<NameView>) -> Result<TableView, Problem> {
    if are_writable(records) {
        built_table(NAME, names_written(records))
    } else {
        Err(Problem::Write("a name record cannot be encoded"@))
    }
}

/// Write the `name` table.
pub fn build_names(records: &Vec<NameRecord>) -> (r: Result<FontTable, SliceError>)
    ensures
        match r {
            Ok(table) => name_table(name_views(records@)) == Ok::<TableView, Problem>(table@)
                && table.tag == NAME && names_of(table.bytes@) == Some(name_views(records@)),
            Err(e) => name_table(name_views(records@)) == Err::<TableView, Problem>(e@),
        },
{
    if !all_written(records) {
        return Err(write_error("a name record cannot be encoded"));
    }
    finish_table(NAME, write_names(records))
}

// ------------------------------------------------------------------------ name editing

/// True for a record that a row of the Name Editor stands for.
pub open spec fn is_row(r: NameView) -> bool {
    NAME_EDITOR_IDS@.contains(r.name_id) && is_edited(r, r.name_id)
}

/// The records that the Name Editor leaves alone: those with a text that no row stands
/// for.
pub open spec fn without_rows(records: Seq<NameView>) -> Seq<NameView> {
    records.filter(|r: NameView| r.text is Some && !is_row(r))
}

/// The record for a row of the Name Editor.
pub open spec fn row_record(row: (u16, Seq<char>)) -> NameView {
    NameView {
        platform: WIN_PLATFORM,
        encoding: WIN_ENCODING,
        language: WIN_LANGUAGE,
        name_id: row.0,
        text: Some(row.1),
    }
}

pub open spec fn row_records(rows: Seq<(u16, Seq<char>)>) -> Seq<NameView> {
    rows.map_values(|row: (u16, Seq<char>)| row_record(row))
}

/// What the records of a `name` table are sorted by: platform, encoding, language, and
/// then name ID.
pub open spec fn name_key(r: NameView) -> int {
    r.platform * 0x1_0000_0000_0000 + r.encoding * 0x1_0000_0000 + r.language * 0x1_0000
        + r.name_id
}

pub open spec fn name_keys(records: Seq<NameView>) -> Seq<int> {
    records.map_values(|r: NameView| name_key(r))
}

/// The records with the rows of the Name Editor in place of those they stand for, before
/// they are sorted.
pub open spec fn edited_records(
    records: Seq<NameView>,
    edits: Map<u16, Seq<char>>,
) -> Seq<NameView> {
    without_rows(records) + row_records(planned_writes(edits))
}

/// The records after the Name Editor's changes.
pub open spec fn renamed(records: Seq<NameView>, edits: Map<u16, Seq<char>>) -> Seq<NameView> {
    let all = edited_records(records, edits);
    arranged(all, name_keys(all))
}

fn copy_record(r: &NameRecord) -> (c: NameRecord)
    ensures
        c@ == r@,
{
    NameRecord {
        platform: r.platform,
        encoding: r.encoding,
        language: r.language,
        name_id: r.name_id,
        text: match &r.text {
            Some(text) => Some(text.as_str().to_owned()),
            None => None,
        },
    }
}

fn row(r: &NameRecord) -> (b: bool)
    ensures
        b == is_row(r@),
{
    if !(r.platform == WIN_PLATFORM && r.encoding == WIN_ENCODING && r.language == WIN_LANGUAGE) {
        return false;
    }
    for i in 0..9usize
        invariant
            forall|k: int| 0 <= k < i ==> NAME_EDITOR_IDS@[k] != r.name_id,
            r.platform == WIN_PLATFORM && r.encoding == WIN_ENCODING && r.language == WIN_LANGUAGE,
    {
        if NAME_EDITOR_IDS[i] == r.name_id {
            assert(NAME_EDITOR_IDS@[i as int] == r.name_id);
            return true;
        }
    }
    false
}

/// The records in the order of a `name` table.
pub fn sort_names(records: &Vec<NameRecord>) -> (out: Vec<NameRecord>)
    ensures
        name_views(out@) == arranged(name_views(records@), name_keys(name_views(records@))),
{
    let ghost views = name_views(records@);
    let mut keys: Vec<u64> = Vec::new();
    for i in 0..records.len()
        invariant
            views == name_views(records@),
            keys@.len() == i,
            forall|k: int| 0 <= k < i ==> #[trigger] keys@[k] == name_key(views[k]),
    {
        let r: &NameRecord = &records[i];
        assert(views[i as int] == r@);
        let key: u64 = (r.platform as u64) * 0x1_0000_0000_0000 + (r.encoding as u64)
            * 0x1_0000_0000 + (r.language as u64) * 0x1_0000 + r.name_id as u64;
        keys.push(key);
    }
    assert(key_values(keys@) =~= name_keys(views));
    let order: Vec<usize> = order_of(&keys);
    let ghost places = order@.map_values(|i: usize| i as int);
    let mut out: Vec<NameRecord> = Vec::new();
    for i in 0..order.len()
        invariant
            views == name_views(records@),
            places == order@.map_values(|i: usize| i as int),
            forall|k: int| 0 <= k < order@.len() ==> #[trigger] order@[k] < records@.len(),
            out@.len() == i,
            forall|k: int| 0 <= k < i ==> #[trigger] out@[k]@ == views[places[k]],
    {
        assert(order@[i as int] < records@.len());
        out.push(copy_record(&records[order[i]]));
        assert(views[places[i as int]] == records@[order@[i as int] as int]@);
    }
    assert(name_views(out@) =~= arranged(views, name_keys(views)));
    out
}

/// The records after the Name Editor's changes.
pub fn rename(records: &Vec<NameRecord>, edits: &NameEdits) -> (out: Vec<NameRecord>)
    ensures
        name_views(out@) == renamed(name_views(records@), edits@),
{
    let ghost views = name_views(records@);
    let ghost keep = |r: NameView| r.text is Some && !is_row(r);
    let mut all: Vec<NameRecord> = Vec::new();
    assert(name_views(all@) =~= views.take(0).filter(keep)) by {
        reveal(Seq::filter);
    }
    for i in 0..records.len()
        invariant
            views == name_views(records@),
            keep == (|r: NameView| r.text is Some && !is_row(r)),
            name_views(all@) == views.take(i as int).filter(keep),
    {
        reveal(Seq::filter);
        assert(views.take(i + 1).drop_last() =~= views.take(i as int));
        assert(views[i as int] == records@[i as int]@);
        let ghost before = name_views(all@);
        let r: &NameRecord = &records[i];
        if r.text.is_some() && !row(r) {
            all.push(copy_record(r));
            assert(name_views(all@) =~= before.push(r@));
        }
    }
    assert(views.take(views.len() as int) =~= views);
    let (writes, _deletes) = edits.plan();
    let ghost kept = name_views(all@);
    let ghost rows = pairs(writes@);
    assert(name_views(all@) =~= kept + row_records(rows.take(0)));
    for i in 0..writes.len()
        invariant
            rows == pairs(writes@),
            name_views(all@) == kept + row_records(rows.take(i as int)),
    {
        let ghost before = name_views(all@);
        let record: NameRecord = NameRecord {
            platform: WIN_PLATFORM,
            encoding: WIN_ENCODING,
            language: WIN_LANGUAGE,
            name_id: writes[i].0,
            text: Some(writes[i].1.as_str().to_owned()),
        };
        assert(record@ =~= row_record(rows[i as int]));
        let ghost added = record@;
        all.push(record);
        assert(name_views(all@) =~= before.push(added));
        assert(row_records(rows.take(i + 1)) =~= row_records(rows.take(i as int)).push(added));
        assert(name_views(all@) =~= kept + row_records(rows.take(i + 1)));
    }
    assert(rows.take(rows.len() as int) =~= rows);
    sort_names(&all)
}

/// The tables of a font after the Name Editor's changes.
pub open spec fn renamed_tables(
    font: Seq<TableView>,
    edits: Map<u16, Seq<char>>,
) -> Result<Seq<TableView>, Problem> {
    match name_table(renamed(font_names(font), edits)) {
        Ok(table) => Ok(with_remaining(seq![table], font, Seq::empty())),
        Err(e) => Err(e),
    }
}

/// The font file for the tables of a step, or the problem of the step.
pub open spec fn step_file(tables: Result<Seq<TableView>, Problem>) -> Result<Seq<u8>, Problem> {
    match tables {
        Ok(tables) => assembled(tables),
        Err(e) => Err(e),
    }
}

/// What a step that rewrites some tables of a font gives back: the font file, if the font
/// can be opened.
pub open spec fn apply_step(
    bytes: Seq<u8>,
    step: spec_fn(Seq<TableView>) -> Result<Seq<TableView>, Problem>,
) -> Result<Seq<u8>, Problem> {
    match font_tables(bytes) {
        Ok(tables) => step_file(step(tables)),
        Err(e) => Err(e),
    }
}

/// Rewrite the `name` table according to the Name Editor.
pub fn apply_names(font_bytes: &[u8], edits: &NameEdits) -> (r: Result<Vec<u8>, SliceError>)
    ensures
        match r {
            Ok(bytes) => {
                &&& apply_step(
                    font_bytes@,
                    |font: Seq<TableView>| renamed_tables(font, edits@),
                ) == Ok::<Seq<u8>, Problem>(bytes@)
                &&& font_names(tables_in(bytes@)) == renamed(
                    font_names(tables_in(font_bytes@)),
                    edits@,
                )
                &&& frame_in(bytes@) == frame_in(font_bytes@)
            },
            Err(e) => apply_step(
                font_bytes@,
                |font: Seq<TableView>| renamed_tables(font, edits@),
            ) == Err::<Seq<u8>, Problem>(e@),
        },
{
    let tables: Vec<FontTable> = match read_tables(font_bytes) {
        Ok(tables) => tables,
        Err(e) => {
            return Err(e);
        },
    };
    let ghost font = table_views(tables@);
    let records: Vec<NameRecord> = names_in(&tables);
    let changed: Vec<NameRecord> = rename(&records, edits);
    let table: FontTable = match build_names(&changed) {
        Ok(table) => table,
        Err(e) => {
            return Err(e);
        },
    };
    let ghost written = table@;
    let mut out: Vec<FontTable> = Vec::new();
    out.push(table);
    assert(table_views(out@) =~= seq![written]);
    let skip: [u32; 0] = [];
    copy_remaining_tables(&mut out, &tables, &skip);
    assert(skip@ =~= Seq::<u32>::empty());
    match assemble(&out) {
        Ok(bytes) => {
            proof {
                lemma_first_table_kept(written, font, Seq::empty());
                let all = with_remaining(seq![written], font, Seq::empty());
                assert(all[0] == written);
                let read = font_tables(bytes@)->Ok_0;
                assert(reads_as(read, all));
                assert(table_bytes(read, all[0].tag) == Some(written.bytes));
                lemma_carried(read, seq![written], font, Seq::empty(), FVAR);
                lemma_carried(read, seq![written], font, Seq::empty(), MAXP);
            }
            Ok(bytes)
        },
        Err(e) => Err(e),
    }
}

/// A table that was written first stays first.
pub proof fn lemma_first_table_kept(table: TableView, font: Seq<TableView>, skip: Seq<u32>)
    ensures
        with_remaining(seq![table], font, skip).len() > 0,
        with_remaining(seq![table], font, skip)[0] == table,
    decreases font.len(),
{
    if font.len() > 0 {
        lemma_first_table_kept(table, font.drop_last(), skip);
    }
}

// ------------------------------------------------------------------------- bit editing

/// The `OS/2` table with another fsSelection, if the font has one that can be read.
pub open spec fn flagged_os2(font: Seq<TableView>, bits: BitFlags) -> Option<
    Result<TableView, Problem>,
> {
    match table_bytes(font, OS2) {
        Some(old) => match os2_fields(old) {
            Some(f) => Some(
                built_table(
                    OS2,
                    os2_written(old, Os2Fields { fs_selection: bits.fs_selection, ..f }),
                ),
            ),
            None => None,
        },
        None => None,
    }
}

/// The tables of a font after the Bit Flag Editor's changes.
pub open spec fn flagged_tables(font: Seq<TableView>, bits: BitFlags) -> Result<
    Seq<TableView>,
    Problem,
> {
    match flagged_os2(font, bits) {
        Some(Err(e)) => Err(e),
        os2 => {
            let before = match os2 {
                Some(Ok(table)) => seq![table],
                _ => Seq::empty(),
            };
            match needed_table(font, HEAD) {
                Ok(old) => match head_fields(old) {
                    Some(f) => {
                        let head = TableView {
                            tag: HEAD,
                            bytes: head_bytes(old, HeadFields { mac_style: bits.mac_style, ..f }),
                        };
                        Ok(with_remaining(before.push(head), font, Seq::empty()))
                    },
                    None => Err(out_of_bounds()),
                },
                Err(e) => Err(e),
            }
        },
    }
}

pub open spec fn has_readable_os2(font: Seq<TableView>) -> bool {
    table_bytes(font, OS2) matches Some(old) && os2_fields(old) is Some
}

/// The flags that a font shows after the Bit Flag Editor's changes: those that the editor
/// holds, as far as they have a meaning and the font has the table for them.
pub open spec fn written_flags(font: Seq<TableView>, bits: BitFlags) -> BitFlags {
    BitFlags {
        fs_selection: if has_readable_os2(font) {
            bits.fs_selection & FS_SELECTION_BITS
        } else {
            0
        },
        mac_style: bits.mac_style & MAC_STYLE_BITS,
    }
}

/// Write the Bit Flag Editor's state into `OS/2` and `head`.
pub fn apply_bits(font_bytes: &[u8], bits: BitFlags) -> (r: Result<Vec<u8>, SliceError>)
    ensures
        match r {
            Ok(bytes) => {
                &&& apply_step(
                    font_bytes@,
                    |font: Seq<TableView>| flagged_tables(font, bits),
                ) == Ok::<Seq<u8>, Problem>(bytes@)
                &&& flags_in(tables_in(bytes@)) == written_flags(tables_in(font_bytes@), bits)
                &&& font_names(tables_in(bytes@)) == font_names(tables_in(font_bytes@))
                &&& frame_in(bytes@) == frame_in(font_bytes@)
            },
            Err(e) => apply_step(
                font_bytes@,
                |font: Seq<TableView>| flagged_tables(font, bits),
            ) == Err::<Seq<u8>, Problem>(e@),
        },
{
    let tables: Vec<FontTable> = match read_tables(font_bytes) {
        Ok(tables) => tables,
        Err(e) => {
            return Err(e);
        },
    };
    let ghost font = table_views(tables@);
    let mut out: Vec<FontTable> = Vec::new();
    assert(table_views(out@) =~= Seq::<TableView>::empty());
    match find_table(&tables, OS2) {
        Some(old) => match read_os2(old.as_slice()) {
            Some(f) => {
                let fields: Os2Fields = Os2Fields { fs_selection: bits.fs_selection, ..f };
                match finish_table(OS2, write_os2(old.as_slice(), fields)) {
                    Ok(table) => {
                        let ghost added = table@;
                        out.push(table);
                        assert(table_views(out@) =~= seq![added]);
                    },
                    Err(e) => {
                        return Err(e);
                    },
                }
            },
            None => {},
        },
        None => {},
    }
    let ghost before = table_views(out@);
    let old: &Vec<u8> = match need_table(&tables, HEAD) {
        Ok(old) => old,
        Err(e) => {
            return Err(e);
        },
    };
    let f: HeadFields = match read_head(old.as_slice()) {
        Some(f) => f,
        None => {
            return Err(bounds_error());
        },
    };
    let head: HeadFields = HeadFields { mac_style: bits.mac_style, ..f };
    match finish_table(HEAD, write_head(old.as_slice(), head)) {
        Ok(table) => {
            let ghost added = table@;
            out.push(table);
            assert(table_views(out@) =~= before.push(added));
        },
        Err(e) => {
            return Err(e);
        },
    }
    let ghost first = table_views(out@);
    proof {
        lemma_found_by_tag(first, first.len() - 1);
        if has_readable_os2(font) {
            lemma_found_by_tag(first, 0);
        } else {
            a_tag_is_found_where_it_is(first, OS2);
        }
    }
    let skip: [u32; 0] = [];
    copy_remaining_tables(&mut out, &tables, &skip);
    assert(skip@ =~= Seq::<u32>::empty());
    match assemble(&out) {
        Ok(bytes) => {
            proof {
                lemma_flags_written(font, first, tables_in(bytes@), bits);
                lemma_carried(tables_in(bytes@), first, font, Seq::empty(), FVAR);
                lemma_carried(tables_in(bytes@), first, font, Seq::empty(), MAXP);
                a_tag_is_found_where_it_is(first, NAME);
                lemma_remaining_distinct(first, font, Seq::empty());
                remaining_tables_are_carried_over(first, font, Seq::empty(), NAME);
                lemma_reads_under_tag(
                    tables_in(bytes@),
                    with_remaining(first, font, Seq::empty()),
                    NAME,
                );
            }
            Ok(bytes)
        },
        Err(e) => Err(e),
    }
}

// ------------------------------------------------------------------------------ laws

/// Arranging keeps the elements: what is in one sequence is in the other.
proof fn lemma_arranged_elements<T>(items: Seq<T>, keys: Seq<int>)
    requires
        items.len() == keys.len(),
    ensures
        arranged(items, keys).len() == items.len(),
        forall|x: T| arranged(items, keys).contains(x) <==> items.contains(x),
{
    ordering_is_stable(keys);
    let order = stable_order(keys);
    let out = arranged(items, keys);
    assert forall|x: T| out.contains(x) <==> items.contains(x) by {
        if out.contains(x) {
            let i = choose|i: int| 0 <= i < out.len() && out[i] == x;
            assert(items[order[i]] == x);
        }
        if items.contains(x) {
            let j = choose|j: int| 0 <= j < items.len() && items[j] == x;
            lemma_permutation_reaches(order, items.len() as int, j);
            let i = choose|i: int| 0 <= i < order.len() && order[i] == j;
            assert(out[i] == x);
        }
    }
}

/// Every index below `n` stands somewhere in a permutation of them.
proof fn lemma_permutation_reaches(order: Seq<int>, n: int, j: int)
    requires
        crate::sort::is_permutation(order, n),
        0 <= j < n,
    ensures
        exists|i: int| 0 <= i < order.len() && order[i] == j,
{
    let all = vstd::set_lib::set_int_range(0, n);
    let reached = order.to_set();
    vstd::set_lib::lemma_int_range(0, n);
    order.unique_seq_to_set();
    assert forall|x: int| reached.contains(x) implies all.contains(x) by {
        let i = choose|i: int| 0 <= i < order.len() && order[i] == x;
        assert(0 <= order[i] < n);
    }
    vstd::set_lib::lemma_subset_equality(reached, all);
    assert(reached.contains(j));
}

proof fn lemma_edited_record(
    records: Seq<NameView>,
    edits: Map<u16, Seq<char>>,
    r: NameView,
)
    ensures
        edited_records(records, edits).contains(r) <==> (records.contains(r) && r.text is Some
            && !is_row(r)) || row_records(planned_writes(edits)).contains(r),
{
    let keep = |r: NameView| r.text is Some && !is_row(r);
    let kept = without_rows(records);
    let rows = row_records(planned_writes(edits));
    let all = edited_records(records, edits);
    assert(kept == records.filter(keep));
    if kept.contains(r) {
        let i = choose|i: int| 0 <= i < kept.len() && kept[i] == r;
        records.lemma_filter_pred(keep, i);
        records.lemma_filter_contains_rev(keep, r);
    }
    if records.contains(r) && keep(r) {
        let i = choose|i: int| 0 <= i < records.len() && records[i] == r;
        records.lemma_filter_contains(keep, i);
    }
    if all.contains(r) {
        let i = choose|i: int| 0 <= i < all.len() && all[i] == r;
        if i < kept.len() {
            assert(kept[i] == r);
            assert(kept.contains(r));
        } else {
            assert(rows[i - kept.len()] == r);
        }
    }
    if kept.contains(r) {
        let i = choose|i: int| 0 <= i < kept.len() && kept[i] == r;
        assert(all[i] == r);
    }
    if rows.contains(r) {
        let i = choose|i: int| 0 <= i < rows.len() && rows[i] == r;
        assert(all[kept.len() + i] == r);
    }
}

/// The record of a row that is written is among the records, and it is the only edited one
/// with its ID.
proof fn lemma_row_written(records: Seq<NameView>, edits: Map<u16, Seq<char>>, id: u16)
    requires
        MANDATORY_IDS@.contains(id) || (OPTIONAL_IDS@.contains(id) && text_of(edits, id).len() > 0),
    ensures
        ({
            let out = renamed(records, edits);
            let wanted = row_record((id, text_of(edits, id)));
            &&& out.contains(wanted)
            &&& forall|j: int|
                0 <= j < out.len() && is_edited(#[trigger] out[j], id) ==> out[j] == wanted
        }),
{
    let text = text_of(edits, id);
    let wanted = row_record((id, text));
    let all = edited_records(records, edits);
    let out = renamed(records, edits);
    lemma_arranged_elements(all, name_keys(all));
    lemma_planned_write(edits, (id, text));
    lemma_editor_ids(id);
    let rows = row_records(planned_writes(edits));
    assert(rows.contains(wanted)) by {
        let k = choose|k: int|
            0 <= k < planned_writes(edits).len() && planned_writes(edits)[k] == (id, text);
        assert(rows[k] == wanted);
    }
    lemma_edited_record(records, edits, wanted);
    assert(out.contains(wanted));
    assert forall|j: int| 0 <= j < out.len() && is_edited(#[trigger] out[j], id) implies out[j]
        == wanted by {
        let r = out[j];
        assert(out.contains(r));
        lemma_edited_record(records, edits, r);
        assert(is_row(r));
        let k = choose|k: int| 0 <= k < rows.len() && rows[k] == r;
        let entry = planned_writes(edits)[k];
        assert(planned_writes(edits).contains(entry));
        lemma_planned_write(edits, entry);
        assert(r == row_record(entry));
    }
}

/// After the Name Editor's changes, the edited record of a row that is written is shown
/// with the text of the row.
pub proof fn edits_are_shown(records: Seq<NameView>, edits: Map<u16, Seq<char>>, id: u16)
    requires
        MANDATORY_IDS@.contains(id) || (OPTIONAL_IDS@.contains(id) && text_of(edits, id).len() > 0),
    ensures
        name_text(renamed(records, edits), id) == Some(text_of(edits, id)),
{
    let out = renamed(records, edits);
    lemma_row_written(records, edits, id);
    let i = choose|i: int| 0 <= i < out.len() && out[i] == row_record((id, text_of(edits, id)));
    let first = first_edited(out, id, i);
    assert(is_edited(out[first], id));
    the_edited_record_is_shown(out, id, first);
}

/// A record of the edited table has a text.
pub proof fn lemma_renamed_record(records: Seq<NameView>, edits: Map<u16, Seq<char>>, r: NameView)
    requires
        renamed(records, edits).contains(r),
    ensures
        r.text is Some,
{
    let all = edited_records(records, edits);
    lemma_arranged_elements(all, name_keys(all));
    lemma_edited_record(records, edits, r);
    let rows = row_records(planned_writes(edits));
    if rows.contains(r) {
        let k = choose|k: int| 0 <= k < rows.len() && rows[k] == r;
        assert(r == row_record(planned_writes(edits)[k]));
    }
}

/// Dropping records with other IDs does not change what is shown for a row.
pub proof fn lemma_edits_survive_pruning(
    records: Seq<NameView>,
    edits: Map<u16, Seq<char>>,
    dead: Seq<u16>,
    id: u16,
)
    requires
        MANDATORY_IDS@.contains(id) || (OPTIONAL_IDS@.contains(id) && text_of(edits, id).len() > 0),
        !dead.contains(id),
    ensures
        name_text(crate::finalize::without_ids(renamed(records, edits), dead), id) == Some(
            text_of(edits, id),
        ),
{
    let wanted = row_record((id, text_of(edits, id)));
    let all = renamed(records, edits);
    let keep = |r: NameView| !dead.contains(r.name_id);
    let out = crate::finalize::without_ids(all, dead);
    assert(out == all.filter(keep));
    lemma_row_written(records, edits, id);
    let k = choose|k: int| 0 <= k < all.len() && all[k] == wanted;
    assert(keep(all[k]));
    all.lemma_filter_contains(keep, k);
    let i = choose|i: int| 0 <= i < out.len() && out[i] == wanted;
    let first = first_edited(out, id, i);
    assert(out.contains(out[first]));
    all.lemma_filter_contains_rev(keep, out[first]);
    let j = choose|j: int| 0 <= j < all.len() && all[j] == out[first];
    assert(is_edited(all[j], id));
    the_edited_record_is_shown(out, id, first);
}

/// The first edited record with an ID, at `i` or before it.
proof fn first_edited(records: Seq<NameView>, id: u16, i: int) -> (first: int)
    requires
        0 <= i < records.len(),
        is_edited(records[i], id),
    ensures
        0 <= first <= i,
        is_edited(records[first], id),
        forall|j: int| 0 <= j < first ==> !is_edited(#[trigger] records[j], id),
    decreases i,
{
    if exists|j: int| 0 <= j < i && is_edited(#[trigger] records[j], id) {
        let j = choose|j: int| 0 <= j < i && is_edited(#[trigger] records[j], id);
        first_edited(records, id, j)
    } else {
        i
    }
}

/// A cleared optional row leaves no edited record behind.
pub proof fn cleared_rows_are_deleted(
    records: Seq<NameView>,
    edits: Map<u16, Seq<char>>,
    id: u16,
    r: NameView,
)
    requires
        OPTIONAL_IDS@.contains(id),
        text_of(edits, id).len() == 0,
        renamed(records, edits).contains(r),
    ensures
        !is_edited(r, id),
{
    let all = edited_records(records, edits);
    lemma_arranged_elements(all, name_keys(all));
    lemma_edited_record(records, edits, r);
    lemma_editor_ids(id);
    if is_edited(r, id) {
        let rows = row_records(planned_writes(edits));
        assert(is_row(r));
        let k = choose|k: int| 0 <= k < rows.len() && rows[k] == r;
        let entry = planned_writes(edits)[k];
        assert(planned_writes(edits).contains(entry));
        lemma_planned_write(edits, entry);
    }
}

/// Records that no row stands for are neither changed nor lost.
pub proof fn other_names_are_kept(
    records: Seq<NameView>,
    edits: Map<u16, Seq<char>>,
    r: NameView,
)
    requires
        records.contains(r),
        r.text is Some,
        !is_row(r),
    ensures
        renamed(records, edits).contains(r),
{
    let all = edited_records(records, edits);
    lemma_arranged_elements(all, name_keys(all));
    lemma_edited_record(records, edits, r);
}

/// The flags that a font shows after the Bit Flag Editor's changes.
proof fn lemma_flags_written(
    font: Seq<TableView>,
    first: Seq<TableView>,
    read: Seq<TableView>,
    bits: BitFlags,
)
    requires
        distinct_tags(first),
        table_bytes(font, HEAD) matches Some(old) && head_fields(old) matches Some(f)
            && table_bytes(first, HEAD) == Some(
            head_bytes(old, HeadFields { mac_style: bits.mac_style, ..f }),
        ),
        has_readable_os2(font) ==> (table_bytes(first, OS2) matches Some(b) && os2_fields(
            b,
        ) matches Some(f) && f.fs_selection == bits.fs_selection & FS_SELECTION_BITS),
        !has_readable_os2(font) ==> table_bytes(first, OS2) is None,
        reads_as(read, with_remaining(first, font, Seq::empty())),
    ensures
        flags_in(read) == written_flags(font, bits),
{
    let all = with_remaining(first, font, Seq::empty());
    lemma_remaining_distinct(first, font, Seq::empty());
    a_tag_is_found_where_it_is(first, OS2);
    a_tag_is_found_where_it_is(first, HEAD);
    remaining_tables_are_carried_over(first, font, Seq::empty(), OS2);
    remaining_tables_are_carried_over(first, font, Seq::empty(), HEAD);
    lemma_reads_under_tag(read, all, OS2);
    lemma_reads_under_tag(read, all, HEAD);
    let old = table_bytes(font, HEAD)->0;
    let f = head_fields(old)->0;
    let edited = HeadFields { mac_style: bits.mac_style, ..f };
    lemma_mac_style_written(old, edited);
    let bytes = head_bytes(old, edited);
    let got = table_bytes(read, HEAD)->0;
    assert(bytes[44] == got[44] && bytes[45] == got[45]);
}

pub proof fn lemma_mac_style_written(old: Seq<u8>, f: HeadFields)
    requires
        old.len() >= 54,
    ensures
        head_bytes(old, f).len() == 54,
        head_fields(head_bytes(old, f))->0.mac_style == f.mac_style & MAC_STYLE_BITS,
{
    reveal(head_bytes);
    let bytes = head_bytes(old, f);
    let v = f.mac_style & MAC_STYLE_BITS;
    assert(bytes.subrange(44, 46) =~= crate::bytes::be16(v as int));
    crate::bytes::lemma_be16_reads_back(bytes, 44, v as int);
    let m = f.mac_style;
    assert((m & 0x7fu16) & 0x7fu16 == m & 0x7fu16) by (bit_vector);
}

/// Leaving the Bit Flag Editor alone changes nothing: the boxes show the font's own flags.
pub proof fn an_untouched_bit_editor_changes_nothing(font: Seq<TableView>)
    ensures
        written_flags(font, flags_in(font)) == flags_in(font),
{
    match table_bytes(font, OS2) {
        Some(bytes) => {
            let raw = crate::bytes::u16_at(bytes, 62) as u16;
            assert((raw & 0x3ffu16) & 0x3ffu16 == raw & 0x3ffu16) by (bit_vector);
        },
        None => {},
    }
    match table_bytes(font, HEAD) {
        Some(bytes) => {
            let raw = crate::bytes::u16_at(bytes, 44) as u16;
            assert((raw & 0x7fu16) & 0x7fu16 == raw & 0x7fu16) by (bit_vector);
        },
        None => {},
    }
    assert(0u16 & 0x3ffu16 == 0 && 0u16 & 0x7fu16 == 0) by (bit_vector);
}

proof fn lemma_shown_row(records: Seq<NameView>, ids: Seq<u16>, id: u16)
    requires
        ids.contains(id),
        name_text(records, id) is Some,
    ensures
        rows_in(records, ids).dom().contains(id),
        rows_in(records, ids)[id] == name_text(records, id)->0,
    decreases ids.len(),
{
    if ids.last() != id {
        let i = choose|i: int| 0 <= i < ids.len() && ids[i] == id;
        assert(ids.drop_last()[i] == id);
        lemma_shown_row(records, ids.drop_last(), id);
    }
}

/// Leaving the Name Editor alone keeps what it shows: every row comes out with the text it
/// went in with, the optional ones among them.
pub proof fn an_untouched_name_editor_keeps_the_names(records: Seq<NameView>, id: u16)
    requires
        MANDATORY_IDS@.contains(id) || OPTIONAL_IDS@.contains(id),
        name_text(records, id) matches Some(text) && text.len() > 0,
    ensures
        name_text(renamed(records, rows_in(records, NAME_EDITOR_IDS@)), id) == name_text(
            records,
            id,
        ),
{
    lemma_editor_ids(id);
    lemma_shown_row(records, NAME_EDITOR_IDS@, id);
    edits_are_shown(records, rows_in(records, NAME_EDITOR_IDS@), id);
}

} // verus!
