//! The tables that are rewritten field by field: `head`, `hhea`, `maxp`, `OS/2` and `post`.
use read_fonts::tables::head::Head as ReadHead;
use read_fonts::tables::hhea::Hhea as ReadHhea;
use read_fonts::tables::maxp::Maxp as ReadMaxp;
use read_fonts::tables::os2::Os2 as ReadOs2;
use read_fonts::tables::post::Post as ReadPost;
use read_fonts::{FontData, FontRead};
use vstd::prelude::*;
use write_fonts::dump_table;
use write_fonts::from_obj::ToOwnedTable;
use write_fonts::tables::head::{Flags, Head, MacStyle};
use write_fonts::tables::hhea::Hhea;
use write_fonts::tables::maxp::Maxp;
use write_fonts::tables::os2::{Os2, SelectionFlags};
use write_fonts::tables::post::Post;
use write_fonts::types::{FWord, Fixed, UfWord};

use crate::bytes::{be16, u16_at, u32_at};
use crate::error::{Problem, SliceError};
use crate::font::{show_tag, tag_text};
use crate::tables::{FontTable, TableView};

verus! {

/// The signed 16-bit integer stored at `at`.
pub open spec fn i16_at(data: Seq<u8>, at: int) -> i16 {
    if u16_at(data, at) < 0x8000 {
        u16_at(data, at) as i16
    } else {
        (u16_at(data, at) - 0x1_0000) as i16
    }
}

/// The signed 32-bit integer stored at `at`.
pub open spec fn i32_at(data: Seq<u8>, at: int) -> i32 {
    if u32_at(data, at) < 0x8000_0000 {
        u32_at(data, at) as i32
    } else {
        (u32_at(data, at) - 0x1_0000_0000) as i32
    }
}

/// A signed integer that was written reads back.
pub proof fn lemma_i16_reads_back(data: Seq<u8>, at: int, v: i16)
    requires
        0 <= at,
        at + 2 <= data.len(),
        data.subrange(at, at + 2) == be16(v as int),
    ensures
        i16_at(data, at) == v,
{
    let part = data.subrange(at, at + 2);
    assert(part[0] == data[at] && part[1] == data[at + 1]);
    let n = v as int;
    if n >= 0 {
        assert(n / 256 * 256 + n % 256 == n && 0 <= n / 256 < 128);
    } else {
        let w = n + 0x1_0000;
        assert(n / 256 == w / 256 - 256 && n % 256 == w % 256);
        assert((n / 256) % 256 == w / 256);
        assert(w / 256 * 256 + w % 256 == w);
    }
}

// ------------------------------------------------------------------------------ head

/// The bits of `head` flags that have a meaning.
pub const HEAD_FLAGS_BITS: u16 = 0x781f;

/// The bits of `head` macStyle that have a meaning.
pub const MAC_STYLE_BITS: u16 = 0x7f;

/// The fields of `head` that are read or rewritten.
#[derive(Clone, Copy, Debug, PartialEq, Eq, Structural)]
pub struct HeadFields {
    pub flags: u16,
    pub units_per_em: u16,
    pub x_min: i16,
    pub y_min: i16,
    pub x_max: i16,
    pub y_max: i16,
    pub mac_style: u16,
    pub loc_format: i16,
}

/// The fields of a `head` table.
pub open spec fn head_fields(bytes: Seq<u8>) -> Option<HeadFields> {
    if bytes.len() >= 54 {
        Some(
            HeadFields {
                flags: u16_at(bytes, 16) as u16 & HEAD_FLAGS_BITS,
                units_per_em: u16_at(bytes, 18) as u16,
                x_min: i16_at(bytes, 36),
                y_min: i16_at(bytes, 38),
                x_max: i16_at(bytes, 40),
                y_max: i16_at(bytes, 42),
                mac_style: u16_at(bytes, 44) as u16 & MAC_STYLE_BITS,
                loc_format: i16_at(bytes, 50),
            },
        )
    } else {
        None
    }
}

/// Calls `read_fonts::tables::head::Head::read` and the accessors of the fields: what
/// stands at their offsets in a table of at least 54 bytes, without the flag bits that
/// have no meaning.
#[verifier::external_body]
pub(crate) fn read_head(bytes: &[u8]) -> (r: Option<HeadFields>)
    ensures
        r == head_fields(bytes@),
{
    let t = ReadHead::read(FontData::new(bytes)).ok()?;
    Some(
        HeadFields {
            flags: t.flags().bits(),
            units_per_em: t.units_per_em(),
            x_min: t.x_min(),
            y_min: t.y_min(),
            x_max: t.x_max(),
            y_max: t.y_max(),
            mac_style: t.mac_style().bits(),
            loc_format: t.index_to_loc_format(),
        },
    )
}

/// The `head` table `old` with other fields. The version and the format of the glyph data
/// are those of the only version there is.
#[verifier::opaque]
pub open spec fn head_bytes(old: Seq<u8>, f: HeadFields) -> Seq<u8> {
    seq![0u8, 1, 0, 0] + old.subrange(4, 16) + be16((f.flags & HEAD_FLAGS_BITS) as int) + be16(
        f.units_per_em as int,
    ) + old.subrange(20, 36) + be16(f.x_min as int) + be16(f.y_min as int) + be16(f.x_max as int)
        + be16(f.y_max as int) + be16((f.mac_style & MAC_STYLE_BITS) as int) + old.subrange(46, 50)
        + be16(f.loc_format as int) + seq![0u8, 0]
}

/// Converts with `ToOwnedTable`, sets the fields of `write_fonts::tables::head::Head`, and
/// calls `write_fonts::dump_table`. The table has no rule to break and no offsets to pack,
/// so it is always written: field by field, as the old table has it or as it was set.
#[verifier::external_body]
pub(crate) fn write_head(old: &[u8], f: HeadFields) -> (r: Result<Vec<u8>, String>)
    requires
        old@.len() >= 54,
    ensures
        match r {
            Ok(bytes) => bytes@ == head_bytes(old@, f),
            Err(_) => false,
        },
{
    let read = ReadHead::read(FontData::new(old)).map_err(|e| e.to_string())?;
    let mut head: Head = read.to_owned_table();
    head.flags = Flags::from_bits_truncate(f.flags);
    head.units_per_em = f.units_per_em;
    (head.x_min, head.y_min) = (f.x_min, f.y_min);
    (head.x_max, head.y_max) = (f.x_max, f.y_max);
    head.mac_style = MacStyle::from_bits_truncate(f.mac_style);
    head.index_to_loc_format = f.loc_format;
    dump_table(&head).map_err(|e| e.to_string())
}

// ------------------------------------------------------------------------------ hhea

/// The fields of `hhea`.
#[derive(Clone, Copy, Debug, PartialEq, Eq, Structural)]
pub struct HheaFields {
    pub ascender: i16,
    pub descender: i16,
    pub line_gap: i16,
    pub advance_width_max: u16,
    pub min_left_side_bearing: i16,
    pub min_right_side_bearing: i16,
    pub x_max_extent: i16,
    pub caret_slope_rise: i16,
    pub caret_slope_run: i16,
    pub caret_offset: i16,
    pub number_of_h_metrics: u16,
}

/// The fields of an `hhea` table.
pub open spec fn hhea_fields(bytes: Seq<u8>) -> Option<HheaFields> {
    if bytes.len() >= 36 {
        Some(
            HheaFields {
                ascender: i16_at(bytes, 4),
                descender: i16_at(bytes, 6),
                line_gap: i16_at(bytes, 8),
                advance_width_max: u16_at(bytes, 10) as u16,
                min_left_side_bearing: i16_at(bytes, 12),
                min_right_side_bearing: i16_at(bytes, 14),
                x_max_extent: i16_at(bytes, 16),
                caret_slope_rise: i16_at(bytes, 18),
                caret_slope_run: i16_at(bytes, 20),
                caret_offset: i16_at(bytes, 22),
                number_of_h_metrics: u16_at(bytes, 34) as u16,
            },
        )
    } else {
        None
    }
}

/// Calls `read_fonts::tables::hhea::Hhea::read` and the accessors of the fields: what
/// stands at their offsets in a table of at least 36 bytes.
#[verifier::external_body]
pub(crate) fn read_hhea(bytes: &[u8]) -> (r: Option<HheaFields>)
    ensures
        r == hhea_fields(bytes@),
{
    let t = ReadHhea::read(FontData::new(bytes)).ok()?;
    Some(
        HheaFields {
            ascender: t.ascender().to_i16(),
            descender: t.descender().to_i16(),
            line_gap: t.line_gap().to_i16(),
            advance_width_max: t.advance_width_max().to_u16(),
            min_left_side_bearing: t.min_left_side_bearing().to_i16(),
            min_right_side_bearing: t.min_right_side_bearing().to_i16(),
            x_max_extent: t.x_max_extent().to_i16(),
            caret_slope_rise: t.caret_slope_rise(),
            caret_slope_run: t.caret_slope_run(),
            caret_offset: t.caret_offset(), number_of_h_metrics: t.number_of_h_metrics(),
        },
    )
}

/// The `hhea` table with these fields.
#[verifier::opaque]
pub open spec fn hhea_bytes(f: HheaFields) -> Seq<u8> {
    seq![0u8, 1, 0, 0] + be16(f.ascender as int) + be16(f.descender as int) + be16(
        f.line_gap as int,
    ) + be16(f.advance_width_max as int) + be16(f.min_left_side_bearing as int) + be16(
        f.min_right_side_bearing as int,
    ) + be16(f.x_max_extent as int) + be16(f.caret_slope_rise as int) + be16(
        f.caret_slope_run as int,
    ) + be16(f.caret_offset as int) + seq![0u8, 0, 0, 0, 0, 0, 0, 0, 0, 0] + be16(
        f.number_of_h_metrics as int,
    )
}

/// Calls `write_fonts::tables::hhea::Hhea::new` and `write_fonts::dump_table`. The table
/// has no rule to break and no offsets to pack, so it is always written, field by field.
#[verifier::external_body]
pub(crate) fn write_hhea(f: HheaFields) -> (r: Result<Vec<u8>, String>)
    ensures
        match r {
            Ok(bytes) => bytes@ == hhea_bytes(f),
            Err(_) => false,
        },
{
    let mut t = Hhea::default();
    t.ascender = FWord::new(f.ascender);
    t.descender = FWord::new(f.descender);
    t.line_gap = FWord::new(f.line_gap);
    t.advance_width_max = UfWord::new(f.advance_width_max);
    t.min_left_side_bearing = FWord::new(f.min_left_side_bearing);
    t.min_right_side_bearing = FWord::new(f.min_right_side_bearing);
    t.x_max_extent = FWord::new(f.x_max_extent);
    t.caret_slope_rise = f.caret_slope_rise;
    t.caret_slope_run = f.caret_slope_run;
    t.caret_offset = f.caret_offset;
    t.number_of_h_metrics = f.number_of_h_metrics;
    dump_table(&t).map_err(|e| e.to_string())
}

// ------------------------------------------------------------------------------ maxp

/// The fields of `maxp` that depend on the outlines.
#[derive(Clone, Copy, Debug, PartialEq, Eq, Structural)]
pub struct MaxpFields {
    pub max_points: u16,
    pub max_contours: u16,
    pub max_composite_points: u16,
    pub max_composite_contours: u16,
    pub max_component_elements: u16,
    pub max_component_depth: u16,
}

/// True when a `maxp` table is of the version that describes outlines.
pub open spec fn has_max_points(bytes: Seq<u8>) -> bool {
    bytes.len() >= 8 && u16_at(bytes, 0) == 1
}

/// Calls `read_fonts::tables::maxp::Maxp::read` and `Maxp::max_points`, which a table has
/// where the first two bytes of its version say 1 and where it is long enough.
#[verifier::external_body]
pub(crate) fn read_max_points(bytes: &[u8]) -> (r: bool)
    ensures
        r == has_max_points(bytes@),
{
    ReadMaxp::read(FontData::new(bytes)).ok().and_then(|t| t.max_points()).is_some()
}

/// The numGlyphs field of a `maxp` table.
pub open spec fn glyphs_of(bytes: Seq<u8>) -> Option<u16> {
    if bytes.len() >= 6 {
        Some(u16_at(bytes, 4) as u16)
    } else {
        None
    }
}

/// Calls `read_fonts::tables::maxp::Maxp::read` and `Maxp::num_glyphs`: the field at offset
/// 4 of a table of at least 6 bytes.
#[verifier::external_body]
pub(crate) fn read_glyph_count(bytes: &[u8]) -> (r: Option<u16>)
    ensures
        r == glyphs_of(bytes@),
{
    ReadMaxp::read(FontData::new(bytes)).ok().map(|t| t.num_glyphs())
}

/// The `maxp` table `old` with other fields, or why it cannot be written.
pub uninterp spec fn maxp_written(old: Seq<u8>, f: MaxpFields) -> Result<Seq<u8>, Seq<char>>;

/// The `maxp` table `old` with other fields.
pub open spec fn maxp_bytes(old: Seq<u8>, f: MaxpFields) -> Seq<u8> {
    seq![0u8, 1, 0, 0] + old.subrange(4, 6) + be16(f.max_points as int) + be16(
        f.max_contours as int,
    ) + be16(f.max_composite_points as int) + be16(f.max_composite_contours as int) + old.subrange(
        14,
        28,
    ) + be16(f.max_component_elements as int) + be16(f.max_component_depth as int)
}

/// Converts with `ToOwnedTable`, sets the fields of `write_fonts::tables::maxp::Maxp`, and
/// calls `write_fonts::dump_table`. The result has a name; where the old table is long
/// enough to hold the fields that are kept, it is those fields with the ones that were set.
/// The number of glyphs is kept in any case.
#[verifier::external_body]
pub(crate) fn write_maxp(old: &[u8], f: MaxpFields) -> (r: Result<Vec<u8>, String>)
    requires
        has_max_points(old@),
    ensures
        match r {
            Ok(bytes) => {
                &&& maxp_written(old@, f) == Ok::<Seq<u8>, Seq<char>>(bytes@)
                &&& old@.len() >= 28 ==> bytes@ == maxp_bytes(old@, f)
                &&& glyphs_of(bytes@) == glyphs_of(old@)
            },
            Err(text) => {
                &&& maxp_written(old@, f) == Err::<Seq<u8>, Seq<char>>(text@)
                &&& old@.len() < 28
            },
        },
{
    let read = ReadMaxp::read(FontData::new(old)).map_err(|e| e.to_string())?;
    let mut t: Maxp = read.to_owned_table();
    t.max_points = Some(f.max_points);
    t.max_contours = Some(f.max_contours);
    t.max_composite_points = Some(f.max_composite_points);
    t.max_composite_contours = Some(f.max_composite_contours);
    t.max_component_elements = Some(f.max_component_elements);
    t.max_component_depth = Some(f.max_component_depth);
    dump_table(&t).map_err(|e| e.to_string())
}

// ------------------------------------------------------------------------------ OS/2

/// The bits of `OS/2` fsSelection that have a meaning.
pub const FS_SELECTION_BITS: u16 = 0x3ff;

/// The fields of `OS/2` that are read or rewritten.
#[derive(Clone, Copy, Debug, PartialEq, Eq, Structural)]
pub struct Os2Fields {
    pub x_avg_char_width: i16,
    pub us_weight_class: u16,
    pub us_width_class: u16,
    pub y_subscript_x_size: i16,
    pub y_subscript_y_size: i16,
    pub y_subscript_x_offset: i16,
    pub y_subscript_y_offset: i16,
    pub y_superscript_x_size: i16,
    pub y_superscript_y_size: i16,
    pub y_superscript_x_offset: i16,
    pub y_superscript_y_offset: i16,
    pub y_strikeout_size: i16,
    pub y_strikeout_position: i16,
    pub fs_selection: u16,
    pub s_typo_ascender: i16,
    pub s_typo_descender: i16,
    pub s_typo_line_gap: i16,
    pub us_win_ascent: u16,
    pub us_win_descent: u16,
    /// Only from version 2 onwards, as the next.
    pub sx_height: Option<i16>,
    pub s_cap_height: Option<i16>,
}

/// The fields of an `OS/2` table.
pub open spec fn os2_fields(bytes: Seq<u8>) -> Option<Os2Fields> {
    if bytes.len() >= 78 {
        Some(
            Os2Fields {
                x_avg_char_width: i16_at(bytes, 2),
                us_weight_class: u16_at(bytes, 4) as u16,
                us_width_class: u16_at(bytes, 6) as u16,
                y_subscript_x_size: i16_at(bytes, 10),
                y_subscript_y_size: i16_at(bytes, 12),
                y_subscript_x_offset: i16_at(bytes, 14),
                y_subscript_y_offset: i16_at(bytes, 16),
                y_superscript_x_size: i16_at(bytes, 18),
                y_superscript_y_size: i16_at(bytes, 20),
                y_superscript_x_offset: i16_at(bytes, 22),
                y_superscript_y_offset: i16_at(bytes, 24),
                y_strikeout_size: i16_at(bytes, 26),
                y_strikeout_position: i16_at(bytes, 28),
                fs_selection: u16_at(bytes, 62) as u16 & FS_SELECTION_BITS,
                s_typo_ascender: i16_at(bytes, 68),
                s_typo_descender: i16_at(bytes, 70),
                s_typo_line_gap: i16_at(bytes, 72),
                us_win_ascent: u16_at(bytes, 74) as u16,
                us_win_descent: u16_at(bytes, 76) as u16,
                sx_height: if u16_at(bytes, 0) >= 2 && bytes.len() >= 88 {
                    Some(i16_at(bytes, 86))
                } else {
                    None
                },
                s_cap_height: if u16_at(bytes, 0) >= 2 && bytes.len() >= 90 {
                    Some(i16_at(bytes, 88))
                } else {
                    None
                },
            },
        )
    } else {
        None
    }
}

/// Calls `read_fonts::tables::os2::Os2::read` and converts with `ToOwnedTable`. The fields
/// are what stands at their offsets in a table of at least 78 bytes, without the bits of
/// fsSelection that have no meaning; the heights are there from version 2 onwards, where
/// the table is long enough.
#[verifier::external_body]
pub(crate) fn read_os2(bytes: &[u8]) -> (r: Option<Os2Fields>)
    ensures
        r == os2_fields(bytes@),
{
    let t: Os2 = ReadOs2::read(FontData::new(bytes)).ok()?.to_owned_table();
    Some(Os2Fields { x_avg_char_width: t.x_avg_char_width, us_weight_class: t.us_weight_class,
        us_width_class: t.us_width_class, y_subscript_x_size: t.y_subscript_x_size,
        y_subscript_y_size: t.y_subscript_y_size, y_subscript_x_offset: t.y_subscript_x_offset,
        y_subscript_y_offset: t.y_subscript_y_offset, y_superscript_x_size: t.y_superscript_x_size,
        y_superscript_y_size: t.y_superscript_y_size,
        y_superscript_x_offset: t.y_superscript_x_offset,
        y_superscript_y_offset: t.y_superscript_y_offset, y_strikeout_size: t.y_strikeout_size,
        y_strikeout_position: t.y_strikeout_position, fs_selection: t.fs_selection.bits(),
        s_typo_ascender: t.s_typo_ascender, s_typo_descender: t.s_typo_descender,
        s_typo_line_gap: t.s_typo_line_gap, us_win_ascent: t.us_win_ascent,
        us_win_descent: t.us_win_descent, sx_height: t.sx_height, s_cap_height: t.s_cap_height })
}

/// The `OS/2` table `old` with other fields, or why it cannot be written.
pub uninterp spec fn os2_written(old: Seq<u8>, f: Os2Fields) -> Result<Seq<u8>, Seq<char>>;

/// Converts with `ToOwnedTable`, sets the fields of `write_fonts::tables::os2::Os2`, and
/// calls `write_fonts::dump_table`. The result has a name; what is written reads back as
/// the fields that were set, and the fields between them are those of the old table.
#[verifier::external_body]
pub(crate) fn write_os2(old: &[u8], f: Os2Fields) -> (r: Result<Vec<u8>, String>)
    requires
        old@.len() >= 78,
    ensures
        match r {
            Ok(bytes) => {
                &&& os2_written(old@, f) == Ok::<Seq<u8>, Seq<char>>(bytes@)
                &&& os2_fields(bytes@) == Some(
                    Os2Fields { fs_selection: f.fs_selection & FS_SELECTION_BITS, ..f },
                )
                &&& bytes@.subrange(8, 10) == old@.subrange(8, 10)
                &&& bytes@.subrange(30, 62) == old@.subrange(30, 62)
                &&& bytes@.subrange(64, 68) == old@.subrange(64, 68)
            },
            Err(text) => os2_written(old@, f) == Err::<Seq<u8>, Seq<char>>(text@),
        },
{
    let read = ReadOs2::read(FontData::new(old)).map_err(|e| e.to_string())?;
    let t: Os2 = read.to_owned_table();
    let t = Os2 { x_avg_char_width: f.x_avg_char_width, us_weight_class: f.us_weight_class,
        us_width_class: f.us_width_class, y_subscript_x_size: f.y_subscript_x_size,
        y_subscript_y_size: f.y_subscript_y_size, y_subscript_x_offset: f.y_subscript_x_offset,
        y_subscript_y_offset: f.y_subscript_y_offset, y_superscript_x_size: f.y_superscript_x_size,
        y_superscript_y_size: f.y_superscript_y_size, y_superscript_x_offset: f.y_superscript_x_offset,
        y_superscript_y_offset: f.y_superscript_y_offset, y_strikeout_size: f.y_strikeout_size,
        y_strikeout_position: f.y_strikeout_position, s_typo_ascender: f.s_typo_ascender,
        s_typo_descender: f.s_typo_descender, s_typo_line_gap: f.s_typo_line_gap,
        us_win_ascent: f.us_win_ascent, us_win_descent: f.us_win_descent, sx_height: f.sx_height,
        s_cap_height: f.s_cap_height,
        fs_selection: SelectionFlags::from_bits_truncate(f.fs_selection), ..t };
    dump_table(&t).map_err(|e| e.to_string())
}

// ------------------------------------------------------------------------------ post

/// The fields of `post` that are read or rewritten.
#[derive(Clone, Copy, Debug, PartialEq, Eq, Structural)]
pub struct PostFields {
    /// In units of 1/65536 of a degree.
    pub italic_angle: i32,
    pub underline_position: i16,
    pub underline_thickness: i16,
}

/// The fields of a `post` table.
pub open spec fn post_fields(bytes: Seq<u8>) -> Option<PostFields> {
    if bytes.len() >= 32 {
        Some(
            PostFields {
                italic_angle: i32_at(bytes, 4),
                underline_position: i16_at(bytes, 8),
                underline_thickness: i16_at(bytes, 10),
            },
        )
    } else {
        None
    }
}

/// Calls `read_fonts::tables::post::Post::read` and the accessors of the fields: what
/// stands at their offsets in a table of at least 32 bytes.
#[verifier::external_body]
pub(crate) fn read_post(bytes: &[u8]) -> (r: Option<PostFields>)
    ensures
        r == post_fields(bytes@),
{
    let t = ReadPost::read(FontData::new(bytes)).ok()?;
    Some(
        PostFields {
            italic_angle: t.italic_angle().to_bits(),
            underline_position: t.underline_position().to_i16(),
            underline_thickness: t.underline_thickness().to_i16(),
        },
    )
}

/// A `post` table in the form in which it is written.
#[verifier::external_type_specification]
#[verifier::external_body]
pub struct ExPost(Post);

/// The `post` table that is stored in some bytes.
pub uninterp spec fn post_table(bytes: Seq<u8>) -> Post;

/// The first 32 bytes of a `post` table, which every version has.
pub uninterp spec fn post_front(t: Post) -> Seq<u8>;

/// Calls `read_fonts::tables::post::Post::read`, which takes any 32 bytes, and converts with
/// `ToOwnedTable`. The table has a name; it starts as the bytes do.
#[verifier::external_body]
fn convert_post(bytes: &[u8]) -> (r: Option<Post>)
    ensures
        match r {
            Some(t) => bytes@.len() >= 32 && t == post_table(bytes@) && post_front(t)
                == bytes@.subrange(0, 32),
            None => bytes@.len() < 32,
        },
{
    Some(ReadPost::read(FontData::new(bytes)).ok()?.to_owned_table())
}

/// Whether a `post` table has a glyph count, and whether it has a string pool.
pub uninterp spec fn post_shape(t: Post) -> (bool, bool);

/// Looks at the fields `num_glyphs` and `string_data` of a
/// `write_fonts::tables::post::Post`. Which of the two are there has a name.
#[verifier::external_body]
fn look_at_post(t: &Post) -> (r: (bool, bool))
    ensures
        r == post_shape(*t),
{
    (t.num_glyphs.is_some(), t.string_data.is_some())
}

/// A `post` table whose string pool is empty.
pub uninterp spec fn with_empty_pool(t: Post) -> Post;

/// Sets the field `string_data` of a `write_fonts::tables::post::Post`. The table has a name;
/// it has a string pool, and is otherwise as it was.
#[verifier::external_body]
fn empty_pool(t: Post) -> (r: Post)
    ensures
        r == with_empty_pool(t),
        post_front(r) == post_front(t),
        post_shape(r) == (post_shape(t).0, true),
{
    Post { string_data: Some(Vec::new()), ..t }
}

/// A `post` table, ready for writing. A glyph count is what marks it as one of version 2.0;
/// a string pool that is absent beside it means that there are no names beyond the standard
/// ones, not that it is missing, so it is given an empty one.
pub open spec fn owned(t: Post) -> Post {
    if post_shape(t).0 && !post_shape(t).1 {
        with_empty_pool(t)
    } else {
        t
    }
}

/// Convert a `post` table for writing. One of version 2.0 all of whose glyphs have standard
/// names has a string pool of no length, which is legal and common, and which is read as
/// absent; without a pool it could not be written back.
pub fn owned_post(bytes: &[u8]) -> (r: Option<Post>)
    ensures
        match r {
            Some(t) => {
                &&& bytes@.len() >= 32
                &&& t == owned(post_table(bytes@))
                &&& post_front(t) == bytes@.subrange(0, 32)
                &&& post_shape(t).0 ==> post_shape(t).1
            },
            None => bytes@.len() < 32,
        },
{
    let t: Post = match convert_post(bytes) {
        Some(t) => t,
        None => {
            return None;
        },
    };
    let (has_count, has_pool): (bool, bool) = look_at_post(&t);
    if has_count && !has_pool {
        Some(empty_pool(t))
    } else {
        Some(t)
    }
}

/// A `post` table with other fields, or why it cannot be written.
pub uninterp spec fn post_written(t: Post, f: PostFields) -> Result<Seq<u8>, Seq<char>>;

/// Sets the fields of a `write_fonts::tables::post::Post` and calls
/// `write_fonts::dump_table`. The result has a name; what is written reads back as the fields
/// that were set, and the rest of the first 32 bytes is as it was.
#[verifier::external_body]
fn write_post(t: Post, f: PostFields) -> (r: Result<Vec<u8>, String>)
    ensures
        match r {
            Ok(bytes) => {
                &&& post_written(t, f) == Ok::<Seq<u8>, Seq<char>>(bytes@)
                &&& post_fields(bytes@) == Some(f)
                &&& bytes@.subrange(0, 4) == post_front(t).subrange(0, 4)
                &&& bytes@.subrange(12, 32) == post_front(t).subrange(12, 32)
            },
            Err(text) => post_written(t, f) == Err::<Seq<u8>, Seq<char>>(text@),
        },
{
    let mut t = t;
    t.italic_angle = Fixed::from_bits(f.italic_angle);
    t.underline_position = FWord::new(f.underline_position);
    t.underline_thickness = FWord::new(f.underline_thickness);
    dump_table(&t).map_err(|e| e.to_string())
}

/// The `post` table `old` with other fields, or why it cannot be written.
pub open spec fn post_rewritten(old: Seq<u8>, f: PostFields) -> Result<Seq<u8>, Seq<char>> {
    post_written(owned(post_table(old)), f)
}

/// Write a `post` table anew, with other fields.
pub(crate) fn rewrite_post(old: &[u8], f: PostFields) -> (r: Result<Vec<u8>, String>)
    requires
        old@.len() >= 32,
    ensures
        match r {
            Ok(bytes) => {
                &&& post_rewritten(old@, f) == Ok::<Seq<u8>, Seq<char>>(bytes@)
                &&& post_fields(bytes@) == Some(f)
                &&& bytes@.subrange(0, 4) == old@.subrange(0, 4)
                &&& bytes@.subrange(12, 32) == old@.subrange(12, 32)
            },
            Err(text) => post_rewritten(old@, f) == Err::<Seq<u8>, Seq<char>>(text@),
        },
{
    match owned_post(old) {
        Some(t) => {
            let ghost front = post_front(t);
            assert(front.subrange(0, 4) =~= old@.subrange(0, 4));
            assert(front.subrange(12, 32) =~= old@.subrange(12, 32));
            write_post(t, f)
        },
        None => Err("".to_owned()),
    }
}

// ---------------------------------------------------------------------------- errors

/// The problem of a table that could not be built.
pub open spec fn build_problem(tag: u32, text: Seq<char>) -> Problem {
    Problem::Write("failed to build '"@ + tag_text(tag) + "' table: '"@ + text + "'"@)
}

/// The table that was written under a tag.
pub open spec fn built_table(tag: u32, written: Result<Seq<u8>, Seq<char>>) -> Result<
    TableView,
    Problem,
> {
    match written {
        Ok(bytes) => Ok(TableView { tag, bytes }),
        Err(text) => Err(build_problem(tag, text)),
    }
}

/// What was written, as a sequence.
pub open spec fn written_view(written: Result<Vec<u8>, String>) -> Result<Seq<u8>, Seq<char>> {
    match written {
        Ok(bytes) => Ok(bytes@),
        Err(text) => Err(text@),
    }
}

/// The table that was written under a tag, or the error that says which table it was.
pub fn finish_table(tag: u32, written: Result<Vec<u8>, String>) -> (r: Result<
    FontTable,
    SliceError,
>)
    ensures
        match r {
            Ok(table) => built_table(tag, written_view(written)) == Ok::<TableView, Problem>(
                table@,
            ),
            Err(e) => built_table(tag, written_view(written)) == Err::<TableView, Problem>(e@),
        },
{
    match written {
        Ok(bytes) => Ok(FontTable { tag, bytes }),
        Err(text) => Err(
            SliceError::Write(
                "failed to build '".to_owned().concat(show_tag(tag).as_str()).concat(
                    "' table: '",
                ).concat(text.as_str()).concat("'"),
            ),
        ),
    }
}

} // verus!
