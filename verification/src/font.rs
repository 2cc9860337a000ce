//! Loading a font and reporting what the three editors should display.
use read_fonts::tables::fvar::Fvar;
use read_fonts::tables::name::Name;
use read_fonts::{FontData, FontRead};
use vstd::prelude::*;

use crate::axes::{axis_views, optional_text, AxisSpec, AxisView};
use crate::bits::BitFlags;
use crate::coord::{is_fixed, Coord};
use crate::error::{Problem, SliceError};
use crate::fields::{glyphs_of, head_fields, os2_fields, read_glyph_count, read_head, read_os2};
use crate::names::{NameEdits, NAME_EDITOR_IDS};
use crate::settings::{hex_char, hex_digit};
use crate::sfnt::{by_tag, fits_sfnt, lemma_assembled, sfnt_bytes, split_of, tag_value, Table};
use crate::tables::{
    a_tag_is_found_where_it_is, distinct_tags, find_table, font_tables, has_sfnt_version, has_tag,
    is_orderly, lemma_found_by_tag, lemma_sorted_views, listed_tables, opens_as_listed, plain_view,
    plain_views, read_tables, same_but_checksum, table_bytes, table_views, FontTable, TableView,
    FVAR, GLYF, HEAD, MAXP, NAME, OS2,
};
use crate::text::{chars_of, copy_chars, find, find_char, string_of, trim_chars, trimmed};
use crate::woff::{
    a_woff_starts_with_its_signature, a_written_woff_unwraps_to_its_tables, decode_woff,
    inflate_again, is_woff_sized, lemma_woff_sized, woff_bytes, woff_decoded,
};
use crate::woff2::{
    a_woff2_starts_with_its_signature, comes_back, converted_head, decode_woff2, is_head,
    packed_table, packed_tables, same_font, starts_as_woff2, woff2_decoded, woff2_encoded,
};

verus! {

/// The Windows / Unicode BMP / English (US) name record triple: the one that is edited.
pub const WIN_PLATFORM: u16 = 3;

pub const WIN_ENCODING: u16 = 1;

pub const WIN_LANGUAGE: u16 = 1033;

// ----------------------------------------------------------------- what tables say

/// One axis of an `fvar` table. The coordinates count in units of 1/65536.
#[derive(Clone, Copy, Debug, PartialEq, Eq, Structural)]
pub struct AxisRecord {
    pub tag: u32,
    pub min: i32,
    pub default: i32,
    pub max: i32,
    pub flags: u16,
    pub name_id: u16,
}

/// One named instance of an `fvar` table.
#[derive(Debug)]
pub struct InstanceRecord {
    pub name_id: u16,
    pub flags: u16,
    pub coordinates: Vec<i32>,
    pub post_script_id: Option<u16>,
}

/// What an [`InstanceRecord`] holds.
#[verifier::ext_equal]
pub struct InstanceView {
    pub name_id: u16,
    pub flags: u16,
    pub coordinates: Seq<i32>,
    pub post_script_id: Option<u16>,
}

impl View for InstanceRecord {
    type V = InstanceView;

    open spec fn view(&self) -> InstanceView {
        InstanceView {
            name_id: self.name_id,
            flags: self.flags,
            coordinates: self.coordinates@,
            post_script_id: self.post_script_id,
        }
    }
}

pub open spec fn instance_views(instances: Seq<Option<InstanceRecord>>) -> Seq<
    Option<InstanceView>,
> {
    instances.map_values(
        |i: Option<InstanceRecord>|
            match i {
                Some(instance) => Some(instance@),
                None => None,
            },
    )
}

/// Why an `fvar` table gives no axes.
#[derive(Debug)]
pub enum FvarError {
    /// The table cannot be read at all.
    Unreadable,
    /// The table has no axis array, for the reason that the text gives.
    NoArrays(String),
}

/// What an [`FvarError`] says.
pub enum FvarProblem {
    Unreadable,
    NoArrays(Seq<char>),
}

impl View for FvarError {
    type V = FvarProblem;

    open spec fn view(&self) -> FvarProblem {
        match *self {
            FvarError::Unreadable => FvarProblem::Unreadable,
            FvarError::NoArrays(text) => FvarProblem::NoArrays(text@),
        }
    }
}

/// The axes of an `fvar` table.
pub uninterp spec fn fvar_axes(bytes: Seq<u8>) -> Result<Seq<AxisRecord>, FvarProblem>;

/// Calls `read_fonts::tables::fvar::Fvar::read` and `Fvar::axes`. The fields of the axis
/// records have a name.
#[verifier::external_body]
pub(crate) fn read_axes(bytes: &[u8]) -> (r: Result<Vec<AxisRecord>, FvarError>)
    ensures
        match r {
            Ok(axes) => fvar_axes(bytes@) == Ok::<Seq<AxisRecord>, FvarProblem>(axes@),
            Err(e) => fvar_axes(bytes@) == Err::<Seq<AxisRecord>, FvarProblem>(e@),
        },
{
    let fvar = Fvar::read(FontData::new(bytes)).map_err(|_| FvarError::Unreadable)?;
    let axes = fvar.axes().map_err(|e| FvarError::NoArrays(e.to_string()))?;
    Ok(
        axes.iter().map(
            |a| AxisRecord {
                tag: u32::from_be_bytes(a.axis_tag().to_be_bytes()),
                min: a.min_value().to_bits(),
                default: a.default_value().to_bits(),
                max: a.max_value().to_bits(),
                flags: a.flags(),
                name_id: a.axis_name_id().to_u16(),
            },
        ).collect(),
    )
}

/// The named instances of an `fvar` table; one that cannot be read is `None`.
pub uninterp spec fn fvar_instances(bytes: Seq<u8>) -> Seq<Option<InstanceView>>;

/// Calls `read_fonts::tables::fvar::Fvar::read` and `Fvar::instances`. The fields of the
/// instance records have a name; there are none where the table or its arrays cannot be
/// read.
#[verifier::external_body]
pub(crate) fn read_instances(bytes: &[u8]) -> (r: Vec<Option<InstanceRecord>>)
    ensures
        instance_views(r@) == fvar_instances(bytes@),
{
    let Ok(fvar) = Fvar::read(FontData::new(bytes)) else { return Vec::new() };
    let Ok(instances) = fvar.instances() else { return Vec::new() };
    instances.iter().map(|i| i.ok().map(|i| InstanceRecord {
        name_id: i.subfamily_name_id.to_u16(),
        flags: i.flags,
        coordinates: i.coordinates.iter().map(|c| c.get().to_bits()).collect(),
        post_script_id: i.post_script_name_id.map(|id| id.to_u16()),
    })).collect()
}

/// One record of a `name` table. The text is missing where the table does not hold it.
#[derive(Clone, Debug)]
pub struct NameRecord {
    pub platform: u16,
    pub encoding: u16,
    pub language: u16,
    pub name_id: u16,
    pub text: Option<String>,
}

/// What a [`NameRecord`] holds.
#[verifier::ext_equal]
pub struct NameView {
    pub platform: u16,
    pub encoding: u16,
    pub language: u16,
    pub name_id: u16,
    pub text: Option<Seq<char>>,
}

impl View for NameRecord {
    type V = NameView;

    open spec fn view(&self) -> NameView {
        NameView {
            platform: self.platform,
            encoding: self.encoding,
            language: self.language,
            name_id: self.name_id,
            text: optional_text(self.text),
        }
    }
}

pub open spec fn name_views(records: Seq<NameRecord>) -> Seq<NameView> {
    records.map_values(|r: NameRecord| r@)
}

/// The records of a `name` table.
pub uninterp spec fn names_of(bytes: Seq<u8>) -> Option<Seq<NameView>>;

/// Calls `read_fonts::tables::name::Name::read` and `Name::name_record`, and for the text
/// of each record `NameRecord::string`. The records have a name.
#[verifier::external_body]
pub(crate) fn read_names(bytes: &[u8]) -> (r: Option<Vec<NameRecord>>)
    ensures
        match r {
            Some(records) => names_of(bytes@) == Some(name_views(records@)),
            None => names_of(bytes@) is None,
        },
{
    let name = Name::read(FontData::new(bytes)).ok()?;
    let data = name.string_data();
    Some(
        name.name_record().iter().map(
            |r| NameRecord {
                platform: r.platform_id(),
                encoding: r.encoding_id(),
                language: r.language_id(),
                name_id: r.name_id().to_u16(),
                text: r.string(data).ok().map(|s| s.chars().collect()),
            },
        ).collect(),
    )
}

// -------------------------------------------------------------------------- the tag

/// One byte of a tag as it is shown: itself where it is printable, and otherwise its value
/// in braces.
pub open spec fn tag_char(b: u8) -> Seq<char> {
    if 0x20 <= b <= 0x7e {
        seq![b as char]
    } else {
        seq!['{', '0', 'x', hex_digit(b as int / 16), hex_digit(b as int % 16), '}']
    }
}

/// Byte number `i` of a tag.
pub open spec fn tag_byte(tag: u32, i: int) -> u8 {
    if i == 0 {
        (tag / 0x100_0000) as u8
    } else if i == 1 {
        (tag / 0x1_0000 % 0x100) as u8
    } else if i == 2 {
        (tag / 0x100 % 0x100) as u8
    } else {
        (tag % 0x100) as u8
    }
}

/// A tag as it is shown.
pub open spec fn tag_text(tag: u32) -> Seq<char> {
    tag_char(tag_byte(tag, 0)) + tag_char(tag_byte(tag, 1)) + tag_char(tag_byte(tag, 2)) + tag_char(
        tag_byte(tag, 3),
    )
}

fn push_tag_char(out: &mut Vec<char>, b: u8)
    ensures
        final(out)@ == old(out)@ + tag_char(b),
{
    let ghost before = out@;
    if 0x20 <= b && b <= 0x7e {
        out.push(b as char);
    } else {
        out.push('{');
        out.push('0');
        out.push('x');
        out.push(hex_char(b / 16));
        out.push(hex_char(b % 16));
        out.push('}');
    }
    assert(out@ =~= before + tag_char(b));
}

/// A tag as it is shown.
pub fn show_tag(tag: u32) -> (r: String)
    ensures
        r@ == tag_text(tag),
{
    let mut out: Vec<char> = Vec::new();
    push_tag_char(&mut out, (tag / 0x100_0000) as u8);
    push_tag_char(&mut out, (tag / 0x1_0000 % 0x100) as u8);
    push_tag_char(&mut out, (tag / 0x100 % 0x100) as u8);
    push_tag_char(&mut out, (tag % 0x100) as u8);
    string_of(&out)
}

// ----------------------------------------------------------------- picking name records

/// True for a record with the platform, encoding and language that are edited.
pub open spec fn is_edited(r: NameView, id: u16) -> bool {
    r.name_id == id && r.platform == WIN_PLATFORM && r.encoding == WIN_ENCODING && r.language
        == WIN_LANGUAGE
}

/// How well a record answers for a name ID: 0 when it is the edited record, 1 when it is
/// another Windows one, 2 when it is any other, and 3 when it names something else.
pub open spec fn name_grade(r: NameView, id: u16) -> int {
    if is_edited(r, id) {
        0
    } else if r.name_id == id && r.platform == WIN_PLATFORM {
        1
    } else if r.name_id == id {
        2
    } else {
        3
    }
}

/// True for the first of the records that answer best.
pub open spec fn is_best(records: Seq<NameView>, id: u16, i: int) -> bool {
    &&& 0 <= i < records.len()
    &&& name_grade(records[i], id) < 3
    &&& forall|j: int|
        0 <= j < records.len() ==> name_grade(records[i], id) <= name_grade(
            #[trigger] records[j],
            id,
        )
    &&& forall|j: int|
        0 <= j < i ==> name_grade(records[i], id) < name_grade(#[trigger] records[j], id)
}

/// The text that a font shows for a name ID, if it shows one.
pub open spec fn is_name_text(
    records: Seq<NameView>,
    id: u16,
    text: Option<Seq<char>>,
) -> bool {
    if exists|i: int| #[trigger] is_best(records, id, i) {
        exists|i: int| #[trigger] is_best(records, id, i) && text == records[i].text
    } else {
        text is None
    }
}

/// The text for a name ID: that of the first record which answers best, and nothing where
/// no record has the ID.
pub open spec fn name_text(records: Seq<NameView>, id: u16) -> Option<Seq<char>> {
    choose|text: Option<Seq<char>>| #[trigger] is_name_text(records, id, text)
}

pub(crate) proof fn lemma_name_text(records: Seq<NameView>, id: u16, text: Option<Seq<char>>)
    requires
        is_name_text(records, id, text),
    ensures
        name_text(records, id) == text,
{
    let chosen = name_text(records, id);
    assert(is_name_text(records, id, chosen));
    if exists|i: int| #[trigger] is_best(records, id, i) {
        let a = choose|i: int| #[trigger] is_best(records, id, i) && text == records[i].text;
        let b = choose|i: int| #[trigger] is_best(records, id, i) && chosen == records[i].text;
        assert(is_best(records, id, a) && is_best(records, id, b));
        assert(a == b) by {
            assert(name_grade(records[a], id) <= name_grade(records[b], id));
            assert(name_grade(records[b], id) <= name_grade(records[a], id));
        }
    }
}

/// The text for a name ID among the records of a `name` table.
pub fn pick_name(records: &Vec<NameRecord>, id: u16) -> (r: Option<String>)
    ensures
        optional_text(r) == name_text(name_views(records@), id),
{
    let ghost views = name_views(records@);
    let mut best: usize = records.len();
    let mut grade: u8 = 3;
    for i in 0..records.len()
        invariant
            views == name_views(records@),
            grade <= 3,
            grade == 3 <==> best == records@.len(),
            best == records@.len() || best < i,
            best < i ==> name_grade(views[best as int], id) == grade,
            forall|j: int| 0 <= j < i ==> grade <= name_grade(#[trigger] views[j], id),
            forall|j: int| 0 <= j < best && j < i ==> grade < name_grade(#[trigger] views[j], id)
                || grade == 3,
    {
        let r: &NameRecord = &records[i];
        assert(views[i as int] == records@[i as int]@);
        let g: u8 = if r.name_id != id {
            3
        } else if r.platform == WIN_PLATFORM && r.encoding == WIN_ENCODING && r.language
            == WIN_LANGUAGE {
            0
        } else if r.platform == WIN_PLATFORM {
            1
        } else {
            2
        };
        assert(g == name_grade(views[i as int], id));
        if g < grade {
            grade = g;
            best = i;
        }
    }
    if best < records.len() {
        let r: Option<String> = match &records[best].text {
            Some(text) => Some(text.as_str().to_owned()),
            None => None,
        };
        proof {
            assert(views[best as int] == records@[best as int]@);
            assert(is_best(views, id, best as int));
            lemma_name_text(views, id, optional_text(r));
        }
        r
    } else {
        proof {
            assert forall|i: int| !is_best(views, id, i) by {
                if 0 <= i < views.len() {
                    assert(3 <= name_grade(views[i], id));
                }
            }
            lemma_name_text(views, id, None);
        }
        None
    }
}

// -------------------------------------------------------------------------- the font

/// A font held in memory, with the accessors the UI needs.
///
/// The bytes are always plain sfnt: web font containers are unwrapped by
/// [`decode_container`] before they get here.
pub struct SliceFont {
    data: Vec<u8>,
}

impl View for SliceFont {
    type V = Seq<u8>;

    closed spec fn view(&self) -> Seq<u8> {
        self.data@
    }
}

/// The tables of a font; none where the bytes are no font.
pub open spec fn tables_in(data: Seq<u8>) -> Seq<TableView> {
    match font_tables(data) {
        Ok(tables) => tables,
        Err(_) => Seq::empty(),
    }
}

/// The `fvar` table of a font file, which describes its design space.
pub open spec fn fvar_in(data: Seq<u8>) -> Option<Seq<u8>> {
    table_bytes(tables_in(data), FVAR)
}

/// What a font file varies over, and how many glyphs it has.
pub open spec fn frame_in(data: Seq<u8>) -> (Option<Seq<u8>>, u16) {
    (fvar_in(data), glyph_total(tables_in(data)))
}

/// The name records of a font; none where it has no readable `name` table.
pub open spec fn font_names(tables: Seq<TableView>) -> Seq<NameView> {
    match table_bytes(tables, NAME) {
        Some(bytes) => match names_of(bytes) {
            Some(records) => records,
            None => Seq::empty(),
        },
        None => Seq::empty(),
    }
}

/// The axis that a record of `fvar` describes.
pub open spec fn is_axis(axis: AxisView, record: AxisRecord, names: Seq<NameView>) -> bool {
    &&& axis.tag == tag_text(record.tag)
    &&& is_fixed(axis.min, record.min as int)
    &&& is_fixed(axis.default, record.default as int)
    &&& is_fixed(axis.max, record.max as int)
    &&& axis.name == name_text(names, record.name_id)
    // Bit 0 of the flags is HIDDEN_AXIS.
    &&& axis.hidden == (record.flags % 2 == 1)
}

/// The axis records of a font, or why there are none.
pub open spec fn axis_records(tables: Seq<TableView>) -> Result<Seq<AxisRecord>, Problem> {
    match table_bytes(tables, FVAR) {
        Some(bytes) => match fvar_axes(bytes) {
            Ok(axes) => Ok(axes),
            Err(FvarProblem::Unreadable) => Err(Problem::NotVariable),
            Err(FvarProblem::NoArrays(text)) => Err(Problem::Read(text)),
        },
        None => Err(Problem::NotVariable),
    }
}

/// True when the font has an `fvar` table.
pub open spec fn has_fvar(tables: Seq<TableView>) -> bool {
    match table_bytes(tables, FVAR) {
        Some(bytes) => fvar_axes(bytes) != Err::<Seq<AxisRecord>, FvarProblem>(
            FvarProblem::Unreadable,
        ),
        None => false,
    }
}

/// The flags that the Bit Flag Editor starts with.
pub open spec fn flags_in(tables: Seq<TableView>) -> BitFlags {
    BitFlags {
        fs_selection: match table_bytes(tables, OS2) {
            Some(bytes) => match os2_fields(bytes) {
                Some(f) => f.fs_selection,
                None => 0,
            },
            None => 0,
        },
        mac_style: match table_bytes(tables, HEAD) {
            Some(bytes) => match head_fields(bytes) {
                Some(f) => f.mac_style,
                None => 0,
            },
            None => 0,
        },
    }
}

/// The rows that the Name Editor starts with: the shown text of each ID that has one.
pub open spec fn rows_in(names: Seq<NameView>, ids: Seq<u16>) -> Map<u16, Seq<char>>
    decreases ids.len(),
{
    if ids.len() == 0 {
        Map::empty()
    } else {
        match name_text(names, ids.last()) {
            Some(text) => rows_in(names, ids.drop_last()).insert(ids.last(), text),
            None => rows_in(names, ids.drop_last()),
        }
    }
}

/// The version as it is shown: up to the first semicolon.
pub open spec fn version_text(name: Option<Seq<char>>) -> Option<Seq<char>> {
    match name {
        Some(text) => Some(trimmed(text.take(find(text, ';')))),
        None => None,
    }
}

/// The sfnt bytes in a file that may be a web font.
pub open spec fn container_decoded(data: Seq<u8>) -> Result<Seq<u8>, Problem> {
    if data.len() >= 4 && data.take(4) == seq![0x77u8, 0x4f, 0x46, 0x46] {
        woff_decoded(data)
    } else if data.len() >= 4 && data.take(4) == seq![0x77u8, 0x4f, 0x46, 0x32] {
        woff2_decoded(data, crate::woff2::woff2_unpacked(data))
    } else {
        Ok(data)
    }
}

/// Unwrap a WOFF or WOFF2 container, or pass plain sfnt bytes through unchanged.
pub fn decode_container(data: Vec<u8>) -> (r: Result<Vec<u8>, SliceError>)
    ensures
        match r {
            Ok(bytes) => container_decoded(data@) == Ok::<Seq<u8>, Problem>(bytes@),
            Err(e) => container_decoded(data@) == Err::<Seq<u8>, Problem>(e@),
        },
        forall|file: Seq<u8>| #[trigger]
            holds_font(data@, file) ==> match r {
                Ok(bytes) => unwraps_as(file, bytes@),
                Err(_) => false,
            },
{
    proof {
        assert forall|file: Seq<u8>| #[trigger] holds_font(data@, file) implies if is_woff2_of(
            data@,
            file,
        ) {
            starts_as_woff2(data@)
        } else {
            container_decoded(data@) matches Ok(bytes) && unwraps_as(file, bytes)
        } by {
            if is_woff2_of(data@, file) {
                a_woff2_starts_with_its_signature(file);
            } else if is_woff_of(data@, file) {
                lemma_woff_unwraps(data@, file);
            } else {
                lemma_plain_sfnt(file);
            }
        }
    }
    if data.len() >= 4 && data[0] == 0x77 && data[1] == 0x4f && data[2] == 0x46 {
        if data[3] == 0x46 {
            assert(data@.take(4) =~= seq![0x77u8, 0x4f, 0x46, 0x46]);
            return decode_woff(data.as_slice());
        }
        if data[3] == 0x32 {
            assert(data@.take(4) =~= seq![0x77u8, 0x4f, 0x46, 0x32]);
            assert(data@.take(4)[3] != 0x46);
            let r: Result<Vec<u8>, SliceError> = decode_woff2(data.as_slice());
            proof {
                assert forall|file: Seq<u8>| #[trigger] holds_font(data@, file) implies match r {
                    Ok(bytes) => unwraps_as(file, bytes@),
                    Err(_) => false,
                } by {
                    if is_woff2_of(data@, file) {
                        lemma_woff2_unwraps(file, r->Ok_0@);
                    }
                }
            }
            return r;
        }
    }
    proof {
        if data@.len() >= 4 {
            assert(data@.take(4)[0] == data@[0] && data@.take(4)[1] == data@[1] && data@.take(4)[2]
                == data@[2] && data@.take(4)[3] == data@[3]);
        }
    }
    Ok(data)
}

/// True when `data` wraps a font file as WOFF, within the limits of that container.
pub open spec fn is_woff_of(data: Seq<u8>, file: Seq<u8>) -> bool {
    split_of(file) matches Ok((flavor, tables)) && data == woff_bytes(flavor, tables)
        && is_woff_sized(tables) && inflate_again(tables)
}

/// True when `data` wraps a font file as WOFF2, within the limits of the decoder.
pub open spec fn is_woff2_of(data: Seq<u8>, file: Seq<u8>) -> bool {
    woff2_encoded(file) == Ok::<Seq<u8>, Problem>(data) && comes_back(file, data)
}

/// True when `data` is a font file, or wraps it in a container.
pub open spec fn holds_font(data: Seq<u8>, file: Seq<u8>) -> bool {
    opens_as_listed(file) && (data == file || is_woff_of(data, file) || is_woff2_of(data, file))
}

/// True when two `head` tables are the same but for the checksum in bytes 8 to 12 and for the
/// upper byte of the flags, in which a container notes that it converted the font.
pub open spec fn same_head(a: Seq<u8>, b: Seq<u8>) -> bool {
    a.len() == b.len() && forall|i: int|
        0 <= i < a.len() && !(8 <= i < 12) && i != 16 ==> #[trigger] a[i] == b[i]
}

/// True when two fonts that have `x` and `y` under a tag have the same there, but for what a
/// container changes in `head`.
pub open spec fn same_under_tag(x: Option<Seq<u8>>, y: Option<Seq<u8>>, tag: u32) -> bool {
    if tag == HEAD && x is Some && y is Some {
        same_head(x->Some_0, y->Some_0)
    } else {
        x == y
    }
}

/// True when two fonts have the same tables, but for what a container changes in `head`.
pub open spec fn same_contents(a: Seq<TableView>, b: Seq<TableView>) -> bool {
    forall|tag: u32| same_under_tag(#[trigger] table_bytes(a, tag), table_bytes(b, tag), tag)
}

/// True when what was taken out of a container is an orderly sfnt with the tables of a file.
pub open spec fn unwraps_as(file: Seq<u8>, bytes: Seq<u8>) -> bool {
    is_orderly(bytes) && same_contents(
        plain_views(listed_tables(file)),
        plain_views(listed_tables(bytes)),
    )
}

proof fn lemma_woff_decodes(file: Seq<u8>, flavor: int, tables: Seq<Table>)
    requires
        split_of(file) == Ok::<(int, Seq<Table>), Problem>((flavor, tables)),
        is_woff_sized(tables),
        inflate_again(tables),
    ensures
        container_decoded(woff_bytes(flavor, tables)) == Ok::<Seq<u8>, Problem>(
            sfnt_bytes(flavor, tables),
        ),
{
    let data = woff_bytes(flavor, tables);
    lemma_woff_sized(file, flavor, tables);
    a_woff_starts_with_its_signature(flavor, tables);
    assert(data.take(4) =~= data.subrange(0, 4));
    a_written_woff_unwraps_to_its_tables(flavor, tables);
}

proof fn lemma_assembled_in_order(flavor: int, tables: Seq<Table>)
    requires
        flavor == 0x1_0000 || flavor == 0x4f54_544f,
        fits_sfnt(tables),
        distinct_tags(plain_views(tables)),
    ensures
        is_orderly(sfnt_bytes(flavor, tables)),
        listed_tables(sfnt_bytes(flavor, tables)) == tables,
{
    lemma_assembled(flavor, tables);
}

proof fn lemma_woff_unwraps(data: Seq<u8>, file: Seq<u8>)
    requires
        is_orderly(file),
        is_woff_of(data, file),
    ensures
        container_decoded(data) matches Ok(bytes) && unwraps_as(file, bytes),
{
    let (flavor, tables) = split_of(file)->Ok_0;
    let listed = listed_tables(file);
    lemma_woff_decodes(file, flavor, tables);
    lemma_woff_sized(file, flavor, tables);
    lemma_sorted_views(listed);
    assert(tables == by_tag(listed));
    lemma_assembled_in_order(flavor, tables);
    let a = plain_views(listed);
    let b = plain_views(tables);
    assert forall|tag: u32|
        same_under_tag(#[trigger] table_bytes(a, tag), table_bytes(b, tag), tag) by {
        assert(table_bytes(b, tag) == table_bytes(a, tag));
    }
}

proof fn lemma_woff2_unwraps(file: Seq<u8>, bytes: Seq<u8>)
    requires
        is_orderly(file),
        same_font(file, bytes),
        woff2_encoded(file) is Ok,
    ensures
        unwraps_as(file, bytes),
{
    let (flavor, tables) = split_of(file)->Ok_0;
    let (_, back) = split_of(bytes)->Ok_0;
    lemma_sorted_views(listed_tables(file));
    lemma_sorted_views(listed_tables(bytes));
    let packed = packed_tables(tables);
    let a = plain_views(tables);
    let b = plain_views(back);
    assert forall|i: int| 0 <= i < a.len() implies {
        &&& (#[trigger] a[i]).tag == b[i].tag
        &&& if a[i].tag == HEAD {
            same_head(a[i].bytes, b[i].bytes)
        } else {
            a[i].bytes == b[i].bytes
        }
    } by {
        assert(back[i].tag == packed[i].tag);
        assert(packed[i] == packed_table(tables[i]));
        assert(a[i] == plain_view(tables[i]) && b[i] == plain_view(back[i]));
        if is_head(tables[i].tag) {
            assert(tag_value(tables[i].tag) == HEAD);
            assert(tables[i].bytes.len() >= 18);
            assert(same_but_checksum(packed[i].bytes, back[i].bytes));
            assert(packed[i].bytes == converted_head(tables[i].bytes));
            assert forall|k: int|
                0 <= k < tables[i].bytes.len() && !(8 <= k < 12) && k != 16 implies
                #[trigger] tables[i].bytes[k] == back[i].bytes[k] by {
                assert(packed[i].bytes[k] == tables[i].bytes[k]);
            }
            assert(same_head(tables[i].bytes, back[i].bytes));
        } else {
            assert(back[i].bytes == tables[i].bytes);
            assert(same_head(tables[i].bytes, back[i].bytes));
        }
    }
    assert(distinct_tags(b)) by {
        assert forall|i: int, j: int| 0 <= i < j < b.len() implies (#[trigger] b[i]).tag != (
        #[trigger] b[j]).tag by {
            assert(a[i].tag != a[j].tag);
        }
    }
    assert(distinct_tags(plain_views(listed_tables(bytes))));
    let listed = plain_views(listed_tables(file));
    assert forall|tag: u32|
        same_under_tag(
            #[trigger] table_bytes(listed, tag),
            table_bytes(plain_views(listed_tables(bytes)), tag),
            tag,
        ) by {
        assert(table_bytes(a, tag) == table_bytes(listed, tag));
        assert(table_bytes(b, tag) == table_bytes(plain_views(listed_tables(bytes)), tag));
        a_tag_is_found_where_it_is(a, tag);
        a_tag_is_found_where_it_is(b, tag);
        if has_tag(a, tag) {
            let i = choose|i: int| 0 <= i < a.len() && (#[trigger] a[i]).tag == tag;
            lemma_found_by_tag(a, i);
            lemma_found_by_tag(b, i);
        } else if has_tag(b, tag) {
            let i = choose|i: int| 0 <= i < b.len() && (#[trigger] b[i]).tag == tag;
            assert(a[i].tag == tag);
        }
    }
}

/// What loading a file gives: the sfnt bytes in it, if a font can be read from them.
pub open spec fn loaded(data: Seq<u8>) -> Result<Seq<u8>, Problem> {
    match container_decoded(data) {
        Ok(bytes) => match font_tables(bytes) {
            Ok(_) => Ok(bytes),
            Err(e) => Err(e),
        },
        Err(e) => Err(e),
    }
}

/// A font file that starts with an sfnt version is no web font.
pub proof fn lemma_plain_sfnt(data: Seq<u8>)
    requires
        has_sfnt_version(data),
    ensures
        container_decoded(data) == Ok::<Seq<u8>, Problem>(data),
{
    let front = data.take(4);
    assert(front[0] == data[0] && front[1] == data[1] && front[2] == data[2] && front[3]
        == data[3]);
    let woff = seq![0x77u8, 0x4f, 0x46, 0x46];
    let woff2 = seq![0x77u8, 0x4f, 0x46, 0x32];
    assert(woff[0] == 0x77 && woff2[0] == 0x77);
}

fn tables_or_none(data: &[u8]) -> (r: Vec<FontTable>)
    ensures
        table_views(r@) == tables_in(data@),
{
    match read_tables(data) {
        Ok(tables) => tables,
        Err(_) => {
            let r: Vec<FontTable> = Vec::new();
            assert(table_views(r@) =~= Seq::<TableView>::empty());
            r
        },
    }
}

/// The name records of a font; none where it has no readable `name` table.
pub fn names_in(tables: &Vec<FontTable>) -> (r: Vec<NameRecord>)
    ensures
        name_views(r@) == font_names(table_views(tables@)),
{
    let none: Vec<NameRecord> = Vec::new();
    assert(name_views(none@) =~= Seq::<NameView>::empty());
    match find_table(tables, NAME) {
        Some(bytes) => match read_names(bytes.as_slice()) {
            Some(records) => records,
            None => none,
        },
        None => none,
    }
}

/// The axes that `fvar` declares, in its order.
pub fn axes_in(tables: &Vec<FontTable>) -> (r: Result<Vec<AxisSpec>, SliceError>)
    ensures
        match r {
            Ok(axes) => axis_records(table_views(tables@)) matches Ok(records) && are_axes(
                axis_views(axes@),
                records,
                font_names(table_views(tables@)),
            ),
            Err(e) => axis_records(table_views(tables@)) == Err::<Seq<AxisRecord>, Problem>(e@),
        },
{
    let records: Vec<AxisRecord> = match find_table(tables, FVAR) {
        Some(bytes) => match read_axes(bytes.as_slice()) {
            Ok(axes) => axes,
            Err(FvarError::Unreadable) => {
                return Err(SliceError::NotVariable);
            },
            Err(FvarError::NoArrays(text)) => {
                return Err(SliceError::Read(text));
            },
        },
        None => {
            return Err(SliceError::NotVariable);
        },
    };
    let names: Vec<NameRecord> = names_in(tables);
    let ghost shown = name_views(names@);
    let mut out: Vec<AxisSpec> = Vec::new();
    for i in 0..records.len()
        invariant
            shown == name_views(names@),
            out@.len() == i,
            forall|k: int| 0 <= k < i ==> is_axis(#[trigger] out@[k]@, records@[k], shown),
    {
        let record: AxisRecord = records[i];
        out.push(
            AxisSpec {
                tag: show_tag(record.tag),
                min: Coord::of_fixed(record.min),
                default: Coord::of_fixed(record.default),
                max: Coord::of_fixed(record.max),
                name: pick_name(&names, record.name_id),
                hidden: record.flags % 2 == 1,
            },
        );
        assert(is_axis(out@[i as int]@, records@[i as int], shown));
    }
    proof {
        let views = axis_views(out@);
        assert forall|k: int| 0 <= k < views.len() implies is_axis(
            #[trigger] views[k],
            records@[k],
            shown,
        ) by {
            assert(views[k] == out@[k]@);
        }
    }
    Ok(out)
}

/// One axis for each record, in order.
pub open spec fn are_axes(
    axes: Seq<AxisView>,
    records: Seq<AxisRecord>,
    names: Seq<NameView>,
) -> bool {
    axes.len() == records.len() && forall|i: int|
        0 <= i < axes.len() ==> is_axis(#[trigger] axes[i], records[i], names)
}

/// The units per em of a font; a thousand where it does not say.
pub open spec fn em_size(tables: Seq<TableView>) -> u16 {
    match table_bytes(tables, HEAD) {
        Some(bytes) => match head_fields(bytes) {
            Some(f) => f.units_per_em,
            None => 1000,
        },
        None => 1000,
    }
}

/// The number of glyphs of a font; none where it does not say.
pub open spec fn glyph_total(tables: Seq<TableView>) -> u16 {
    match table_bytes(tables, MAXP) {
        Some(bytes) => match glyphs_of(bytes) {
            Some(v) => v,
            None => 0,
        },
        None => 0,
    }
}

impl SliceFont {
    /// Read a font from `data`, which may be a bare sfnt or a WOFF/WOFF2 container.
    ///
    /// A file that is no font is rejected here rather than when it is sliced.
    pub fn load(data: Vec<u8>) -> (r: Result<SliceFont, SliceError>)
        ensures
            match r {
                Ok(font) => loaded(data@) == Ok::<Seq<u8>, Problem>(font@),
                Err(e) => loaded(data@) == Err::<Seq<u8>, Problem>(e@),
            },
            forall|file: Seq<u8>| #[trigger]
                holds_font(data@, file) ==> match r {
                    Ok(font) => same_contents(tables_in(file), tables_in(font@)),
                    Err(_) => false,
                },
    {
        let bytes: Vec<u8> = match decode_container(data) {
            Ok(bytes) => bytes,
            Err(e) => {
                return Err(e);
            },
        };
        match read_tables(bytes.as_slice()) {
            Ok(_) => Ok(SliceFont { data: bytes }),
            Err(e) => Err(e),
        }
    }

    /// The raw sfnt bytes.
    pub fn data(&self) -> (r: &[u8])
        ensures
            r@ == self@,
    {
        self.data.as_slice()
    }

    /// The tables of the font.
    pub fn font_ref(&self) -> (r: Result<Vec<FontTable>, SliceError>)
        ensures
            match r {
                Ok(tables) => font_tables(self@) == Ok::<Seq<TableView>, Problem>(
                    table_views(tables@),
                ),
                Err(e) => font_tables(self@) == Err::<Seq<TableView>, Problem>(e@),
            },
    {
        read_tables(self.data.as_slice())
    }

    /// True when the font has an `fvar` table.
    pub fn is_variable(&self) -> (r: bool)
        ensures
            r == has_fvar(tables_in(self@)),
    {
        let tables: Vec<FontTable> = tables_or_none(self.data.as_slice());
        match find_table(&tables, FVAR) {
            Some(bytes) => match read_axes(bytes.as_slice()) {
                Err(FvarError::Unreadable) => false,
                _ => true,
            },
            None => false,
        }
    }

    /// True when outlines live in `glyf` (as opposed to `CFF `/`CFF2`).
    pub fn is_truetype(&self) -> (r: bool)
        ensures
            r == (table_bytes(tables_in(self@), GLYF) is Some),
    {
        let tables: Vec<FontTable> = tables_or_none(self.data.as_slice());
        find_table(&tables, GLYF).is_some()
    }

    /// The rows of the Axis Editor, in the font's own `fvar` order.
    pub fn axes(&self) -> (r: Result<Vec<AxisSpec>, SliceError>)
        ensures
            match font_tables(self@) {
                Ok(tables) => match r {
                    Ok(axes) => axis_records(tables) matches Ok(records) && are_axes(
                        axis_views(axes@),
                        records,
                        font_names(tables),
                    ),
                    Err(e) => axis_records(tables) == Err::<Seq<AxisRecord>, Problem>(e@),
                },
                Err(e) => r matches Err(got) && got@ == e,
            },
    {
        match self.font_ref() {
            Ok(tables) => axes_in(&tables),
            Err(e) => Err(e),
        }
    }

    /// The rows of the Name Editor, prefilled from the font.
    pub fn name_edits(&self) -> (r: NameEdits)
        ensures
            r@ == rows_in(font_names(tables_in(self@)), NAME_EDITOR_IDS@),
    {
        let tables: Vec<FontTable> = tables_or_none(self.data.as_slice());
        let names: Vec<NameRecord> = names_in(&tables);
        let ghost shown = name_views(names@);
        let ghost ids = NAME_EDITOR_IDS@;
        let mut edits: NameEdits = NameEdits::new();
        for i in 0..9usize
            invariant
                ids == NAME_EDITOR_IDS@,
                shown == name_views(names@),
                edits@ == rows_in(shown, ids.take(i as int)),
        {
            let id: u16 = NAME_EDITOR_IDS[i];
            assert(ids.take(i + 1).drop_last() =~= ids.take(i as int));
            match pick_name(&names, id) {
                Some(text) => {
                    edits.set(id, text.as_str());
                },
                None => {},
            }
        }
        assert(ids.take(9) =~= ids);
        edits
    }

    /// The checkbox state of the Bit Flag Editor, prefilled from the font.
    ///
    /// Reading the real values means an untouched Bit Flag Editor is a no-op instead of a
    /// destructive edit.
    pub fn bit_flags(&self) -> (r: BitFlags)
        ensures
            r == flags_in(tables_in(self@)),
    {
        let tables: Vec<FontTable> = tables_or_none(self.data.as_slice());
        let fs_selection: u16 = match find_table(&tables, OS2) {
            Some(bytes) => match read_os2(bytes.as_slice()) {
                Some(f) => f.fs_selection,
                None => 0,
            },
            None => 0,
        };
        let mac_style: u16 = match find_table(&tables, HEAD) {
            Some(bytes) => match read_head(bytes.as_slice()) {
                Some(f) => f.mac_style,
                None => 0,
            },
            None => 0,
        };
        BitFlags { fs_selection, mac_style }
    }

    /// nameID 1, used in the status bar.
    pub fn family_name(&self) -> (r: Option<String>)
        ensures
            optional_text(r) == name_text(font_names(tables_in(self@)), 1),
    {
        self.name_string(1)
    }

    /// nameID 5 up to the first `;`.
    pub fn version(&self) -> (r: Option<String>)
        ensures
            optional_text(r) == version_text(name_text(font_names(tables_in(self@)), 5)),
    {
        match self.name_string(5) {
            Some(text) => {
                let chars: Vec<char> = chars_of(text.as_str());
                let at: usize = find_char(chars.as_slice(), ';');
                let head: Vec<char> = copy_chars(chars.as_slice(), 0, at);
                assert(head@ =~= text@.take(find(text@, ';')));
                Some(string_of(&trim_chars(head.as_slice())))
            },
            None => None,
        }
    }

    pub fn units_per_em(&self) -> (r: u16)
        ensures
            r == em_size(tables_in(self@)),
    {
        let tables: Vec<FontTable> = tables_or_none(self.data.as_slice());
        match find_table(&tables, HEAD) {
            Some(bytes) => match read_head(bytes.as_slice()) {
                Some(f) => f.units_per_em,
                None => 1000,
            },
            None => 1000,
        }
    }

    pub fn glyph_count(&self) -> (r: u16)
        ensures
            r == glyph_total(tables_in(self@)),
    {
        let tables: Vec<FontTable> = tables_or_none(self.data.as_slice());
        match find_table(&tables, MAXP) {
            Some(bytes) => match read_glyph_count(bytes.as_slice()) {
                Some(v) => v,
                None => 0,
            },
            None => 0,
        }
    }

    /// Look one name record up.
    ///
    /// Windows/Unicode/English is tried first because that is the record that is edited; a
    /// font that only carries some other Windows language would otherwise show an empty
    /// Name Editor even though it has perfectly good names.
    pub fn name_string(&self, id: u16) -> (r: Option<String>)
        ensures
            optional_text(r) == name_text(font_names(tables_in(self@)), id),
    {
        let tables: Vec<FontTable> = tables_or_none(self.data.as_slice());
        let names: Vec<NameRecord> = names_in(&tables);
        pick_name(&names, id)
    }
}

/// An untouched Name Editor shows the text of the edited record, where the font has one.
pub proof fn the_edited_record_is_shown(records: Seq<NameView>, id: u16, i: int)
    requires
        0 <= i < records.len(),
        is_edited(records[i], id),
        forall|j: int| 0 <= j < i ==> !is_edited(#[trigger] records[j], id),
    ensures
        name_text(records, id) == records[i].text,
{
    assert(is_best(records, id, i));
    lemma_name_text(records, id, records[i].text);
}

} // verus!
