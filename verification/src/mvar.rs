//! Applying `MVAR` before it is discarded.
//!
//! `MVAR` is how a variable font says that its ascender, x-height, underline position and
//! so on move as you travel through the design space. A static instance has nowhere to
//! keep that, so the deltas have to be baked into `OS/2`, `hhea` and `post` on the way
//! out.
use read_fonts::tables::mvar::Mvar;
use read_fonts::tables::variations::DeltaSetIndex;
use read_fonts::types::F2Dot14;
use read_fonts::{FontData, FontRead};
use vstd::math::{max, min};
use vstd::prelude::*;

use crate::fields::{HheaFields, Os2Fields, PostFields};
use crate::tables::{find_table, table_bytes, table_views, FontTable, TableView, MVAR};

verus! {

/// The value tags that land in `OS/2`.
pub const HASC: u32 = 0x68617363;

pub const HDSC: u32 = 0x68647363;

pub const HLGP: u32 = 0x686c6770;

pub const HCLA: u32 = 0x68636c61;

pub const HCLD: u32 = 0x68636c64;

pub const XHGT: u32 = 0x78686774;

pub const CPHT: u32 = 0x63706874;

pub const STRS: u32 = 0x73747273;

pub const STRO: u32 = 0x7374726f;

pub const SBXS: u32 = 0x73627873;

pub const SBYS: u32 = 0x73627973;

pub const SBXO: u32 = 0x7362786f;

pub const SBYO: u32 = 0x7362796f;

pub const SPXS: u32 = 0x73707873;

pub const SPYS: u32 = 0x73707973;

pub const SPXO: u32 = 0x7370786f;

pub const SPYO: u32 = 0x7370796f;

/// The value tags that land in `hhea`.
pub const HCRS: u32 = 0x68637273;

pub const HCRN: u32 = 0x6863726e;

pub const HCOF: u32 = 0x68636f66;

/// The value tags that land in `post`.
pub const UNDO: u32 = 0x756e646f;

pub const UNDS: u32 = 0x756e6473;

/// The value tags of an `MVAR` table, each with its delta at the location `coords`, which
/// counts in units of 1/16384.
pub uninterp spec fn mvar_records(bytes: Seq<u8>, coords: Seq<i16>) -> Seq<(u32, Option<i32>)>;

/// Calls `read_fonts::tables::mvar::Mvar::read`, `Mvar::item_variation_store` and, for each
/// of `Mvar::value_records`, `ItemVariationStore::compute_delta`. The tags and deltas have
/// a name; there are none where the table or its store cannot be read.
#[verifier::external_body]
fn read_mvar(bytes: &[u8], coords: &[i16]) -> (r: Vec<(u32, Option<i32>)>)
    ensures
        r@ == mvar_records(bytes@, coords@),
{
    let Ok(mvar) = Mvar::read(FontData::new(bytes)) else { return Vec::new() };
    let Some(Ok(store)) = mvar.item_variation_store() else { return Vec::new() };
    let coords: Vec<_> = coords.iter().map(|c| F2Dot14::from_bits(*c)).collect();
    mvar.value_records().iter().map(|r| {
        let index = DeltaSetIndex {
            outer: r.delta_set_outer_index(),
            inner: r.delta_set_inner_index(),
        };
        let delta = store.compute_delta(index, &coords).map(|d| d.to_i32());
        (u32::from_be_bytes(r.value_tag().to_be_bytes()), delta)
    }).collect()
}

/// The deltas that change something.
pub open spec fn nonzero(records: Seq<(u32, Option<i32>)>) -> Seq<(u32, i32)>
    decreases records.len(),
{
    if records.len() == 0 {
        Seq::empty()
    } else {
        let before = nonzero(records.drop_last());
        match records.last().1 {
            Some(delta) if delta != 0 => before.push((records.last().0, delta)),
            _ => before,
        }
    }
}

/// The delta for each `MVAR` value tag at a location. None means the font has no `MVAR`,
/// or none of it applies there.
pub open spec fn adjustments_at(tables: Seq<TableView>, coords: Seq<i16>) -> Seq<(u32, i32)> {
    match table_bytes(tables, MVAR) {
        Some(bytes) => nonzero(mvar_records(bytes, coords)),
        None => Seq::empty(),
    }
}

/// The delta for each `MVAR` value tag at the location `coords`, which counts in units of
/// 1/16384.
pub fn metric_adjustments(tables: &Vec<FontTable>, coords: &[i16]) -> (r: Vec<(u32, i32)>)
    ensures
        r@ == adjustments_at(table_views(tables@), coords@),
{
    match find_table(tables, MVAR) {
        Some(bytes) => {
            let records: Vec<(u32, Option<i32>)> = read_mvar(bytes.as_slice(), coords);
            nonzero_deltas(&records)
        },
        None => Vec::new(),
    }
}

/// The deltas that change something.
pub fn nonzero_deltas(records: &Vec<(u32, Option<i32>)>) -> (out: Vec<(u32, i32)>)
    ensures
        out@ == nonzero(records@),
{
    let mut out: Vec<(u32, i32)> = Vec::new();
    for i in 0..records.len()
        invariant
            out@ == nonzero(records@.take(i as int)),
    {
        assert(records@.take(i + 1).drop_last() =~= records@.take(i as int));
        match records[i].1 {
            Some(delta) => {
                if delta != 0 {
                    out.push((records[i].0, delta));
                }
            },
            None => {},
        }
    }
    assert(records@.take(records@.len() as int) =~= records@);
    out
}

/// The delta for a tag: that of the last entry which has it.
pub open spec fn delta_for(adjustments: Seq<(u32, i32)>, tag: u32) -> Option<i32>
    decreases adjustments.len(),
{
    if adjustments.len() == 0 {
        None
    } else if adjustments.last().0 == tag {
        Some(adjustments.last().1)
    } else {
        delta_for(adjustments.drop_last(), tag)
    }
}

fn find_delta(adjustments: &Vec<(u32, i32)>, tag: u32) -> (r: Option<i32>)
    ensures
        r == delta_for(adjustments@, tag),
{
    let mut n: usize = adjustments.len();
    assert(adjustments@.take(n as int) =~= adjustments@);
    while n > 0
        invariant
            n <= adjustments@.len(),
            delta_for(adjustments@, tag) == delta_for(adjustments@.take(n as int), tag),
        decreases n,
    {
        assert(adjustments@.take(n as int).drop_last() =~= adjustments@.take(n - 1));
        assert(adjustments@.take(n as int).last() == adjustments@[n - 1]);
        if adjustments[n - 1].0 == tag {
            return Some(adjustments[n - 1].1);
        }
        n = n - 1;
    }
    None
}

pub open spec fn clamped(v: int, low: int, high: int) -> int {
    if v < low {
        low
    } else if v > high {
        high
    } else {
        v
    }
}

/// A signed field after its delta: it saturates rather than wrapping.
pub open spec fn adjusted_i16(field: i16, delta: Option<i32>) -> i16 {
    match delta {
        Some(d) => clamped(field + d, -0x8000, 0x7fff) as i16,
        None => field,
    }
}

/// An unsigned field after its delta: it cannot be pushed below zero.
pub open spec fn adjusted_u16(field: u16, delta: Option<i32>) -> u16 {
    match delta {
        Some(d) => clamped(field + d, 0, 0xffff) as u16,
        None => field,
    }
}

pub fn adjust_i16(field: i16, delta: Option<i32>) -> (r: i16)
    ensures
        r == adjusted_i16(field, delta),
{
    match delta {
        Some(d) => {
            let v: i64 = field as i64 + d as i64;
            if v < -0x8000 {
                -0x8000
            } else if v > 0x7fff {
                0x7fff
            } else {
                v as i16
            }
        },
        None => field,
    }
}

pub fn adjust_u16(field: u16, delta: Option<i32>) -> (r: u16)
    ensures
        r == adjusted_u16(field, delta),
{
    match delta {
        Some(d) => {
            let v: i64 = field as i64 + d as i64;
            if v < 0 {
                0
            } else if v > 0xffff {
                0xffff
            } else {
                v as u16
            }
        },
        None => field,
    }
}

/// The `OS/2` fields after their share of the adjustments.
pub open spec fn adjusted_os2(f: Os2Fields, a: Seq<(u32, i32)>) -> Os2Fields {
    Os2Fields {
        s_typo_ascender: adjusted_i16(f.s_typo_ascender, delta_for(a, HASC)),
        s_typo_descender: adjusted_i16(f.s_typo_descender, delta_for(a, HDSC)),
        s_typo_line_gap: adjusted_i16(f.s_typo_line_gap, delta_for(a, HLGP)),
        us_win_ascent: adjusted_u16(f.us_win_ascent, delta_for(a, HCLA)),
        us_win_descent: adjusted_u16(f.us_win_descent, delta_for(a, HCLD)),
        y_strikeout_size: adjusted_i16(f.y_strikeout_size, delta_for(a, STRS)),
        y_strikeout_position: adjusted_i16(f.y_strikeout_position, delta_for(a, STRO)),
        y_subscript_x_size: adjusted_i16(f.y_subscript_x_size, delta_for(a, SBXS)),
        y_subscript_y_size: adjusted_i16(f.y_subscript_y_size, delta_for(a, SBYS)),
        y_subscript_x_offset: adjusted_i16(f.y_subscript_x_offset, delta_for(a, SBXO)),
        y_subscript_y_offset: adjusted_i16(f.y_subscript_y_offset, delta_for(a, SBYO)),
        y_superscript_x_size: adjusted_i16(f.y_superscript_x_size, delta_for(a, SPXS)),
        y_superscript_y_size: adjusted_i16(f.y_superscript_y_size, delta_for(a, SPYS)),
        y_superscript_x_offset: adjusted_i16(f.y_superscript_x_offset, delta_for(a, SPXO)),
        y_superscript_y_offset: adjusted_i16(f.y_superscript_y_offset, delta_for(a, SPYO)),
        sx_height: match f.sx_height {
            Some(v) => Some(adjusted_i16(v, delta_for(a, XHGT))),
            None => None,
        },
        s_cap_height: match f.s_cap_height {
            Some(v) => Some(adjusted_i16(v, delta_for(a, CPHT))),
            None => None,
        },
        ..f
    }
}

/// Apply the `OS/2` share of the adjustments.
pub fn apply_to_os2(f: Os2Fields, a: &Vec<(u32, i32)>) -> (r: Os2Fields)
    ensures
        r == adjusted_os2(f, a@),
{
    Os2Fields {
        s_typo_ascender: adjust_i16(f.s_typo_ascender, find_delta(a, HASC)),
        s_typo_descender: adjust_i16(f.s_typo_descender, find_delta(a, HDSC)),
        s_typo_line_gap: adjust_i16(f.s_typo_line_gap, find_delta(a, HLGP)),
        us_win_ascent: adjust_u16(f.us_win_ascent, find_delta(a, HCLA)),
        us_win_descent: adjust_u16(f.us_win_descent, find_delta(a, HCLD)),
        y_strikeout_size: adjust_i16(f.y_strikeout_size, find_delta(a, STRS)),
        y_strikeout_position: adjust_i16(f.y_strikeout_position, find_delta(a, STRO)),
        y_subscript_x_size: adjust_i16(f.y_subscript_x_size, find_delta(a, SBXS)),
        y_subscript_y_size: adjust_i16(f.y_subscript_y_size, find_delta(a, SBYS)),
        y_subscript_x_offset: adjust_i16(f.y_subscript_x_offset, find_delta(a, SBXO)),
        y_subscript_y_offset: adjust_i16(f.y_subscript_y_offset, find_delta(a, SBYO)),
        y_superscript_x_size: adjust_i16(f.y_superscript_x_size, find_delta(a, SPXS)),
        y_superscript_y_size: adjust_i16(f.y_superscript_y_size, find_delta(a, SPYS)),
        y_superscript_x_offset: adjust_i16(f.y_superscript_x_offset, find_delta(a, SPXO)),
        y_superscript_y_offset: adjust_i16(f.y_superscript_y_offset, find_delta(a, SPYO)),
        // sxHeight and sCapHeight only exist from OS/2 version 2 onwards.
        sx_height: match f.sx_height {
            Some(v) => Some(adjust_i16(v, find_delta(a, XHGT))),
            None => None,
        },
        s_cap_height: match f.s_cap_height {
            Some(v) => Some(adjust_i16(v, find_delta(a, CPHT))),
            None => None,
        },
        ..f
    }
}

/// The `hhea` fields after their share of the adjustments.
pub open spec fn adjusted_hhea(f: HheaFields, a: Seq<(u32, i32)>) -> HheaFields {
    HheaFields {
        caret_slope_rise: adjusted_i16(f.caret_slope_rise, delta_for(a, HCRS)),
        caret_slope_run: adjusted_i16(f.caret_slope_run, delta_for(a, HCRN)),
        caret_offset: adjusted_i16(f.caret_offset, delta_for(a, HCOF)),
        ..f
    }
}

/// Apply the `hhea` share of the adjustments.
///
/// The ascender/descender/lineGap entries in `hhea` are deliberately *not* touched: the
/// specification maps `hasc`/`hdsc`/`hlgp` to the `OS/2` fields, and writing them into
/// both places would double-count on platforms that prefer `hhea`.
pub fn apply_to_hhea(f: HheaFields, a: &Vec<(u32, i32)>) -> (r: HheaFields)
    ensures
        r == adjusted_hhea(f, a@),
{
    HheaFields {
        caret_slope_rise: adjust_i16(f.caret_slope_rise, find_delta(a, HCRS)),
        caret_slope_run: adjust_i16(f.caret_slope_run, find_delta(a, HCRN)),
        caret_offset: adjust_i16(f.caret_offset, find_delta(a, HCOF)),
        ..f
    }
}

/// The `post` fields after their share of the adjustments.
pub open spec fn adjusted_post(f: PostFields, a: Seq<(u32, i32)>) -> PostFields {
    PostFields {
        underline_position: adjusted_i16(f.underline_position, delta_for(a, UNDO)),
        underline_thickness: adjusted_i16(f.underline_thickness, delta_for(a, UNDS)),
        ..f
    }
}

/// Apply the `post` share of the adjustments.
pub fn apply_to_post(f: PostFields, a: &Vec<(u32, i32)>) -> (r: PostFields)
    ensures
        r == adjusted_post(f, a@),
{
    PostFields {
        underline_position: adjust_i16(f.underline_position, find_delta(a, UNDO)),
        underline_thickness: adjust_i16(f.underline_thickness, find_delta(a, UNDS)),
        ..f
    }
}

// ---------------------------------------------------------------------------------- laws

/// The number that a tag of four letters stands for.
pub open spec fn tag_named(a: char, b: char, c: char, d: char) -> u32 {
    (a as int * 0x100_0000 + b as int * 0x1_0000 + c as int * 0x100 + d as int) as u32
}

/// The signed sixteen-bit number that is nearest to `v`.
pub open spec fn saturated_i16(v: int) -> i16 {
    max(-0x8000, min(v, 0x7fff)) as i16
}

/// The unsigned sixteen-bit number that is nearest to `v`.
pub open spec fn saturated_u16(v: int) -> u16 {
    max(0, min(v, 0xffff)) as u16
}

/// What counts for a tag is the last entry that has it, wherever that stands.
pub proof fn the_last_entry_for_a_tag_counts(a: Seq<(u32, i32)>, tag: u32, i: int)
    requires
        0 <= i < a.len(),
        a[i].0 == tag,
        forall|j: int| i < j < a.len() ==> (#[trigger] a[j]).0 != tag,
    ensures
        delta_for(a, tag) == Some(a[i].1),
    decreases a.len(),
{
    if i < a.len() - 1 {
        assert(a[a.len() - 1].0 != tag);
        the_last_entry_for_a_tag_counts(a.drop_last(), tag, i);
    }
}

proof fn lemma_last_entry_counts(a: Seq<(u32, i32)>, tag: u32, d: i32)
    ensures
        delta_for(a.push((tag, d)), tag) == Some(d),
        forall|other: u32|
            other != tag ==> #[trigger] delta_for(a.push((tag, d)), other) == delta_for(a, other),
{
    assert(a.push((tag, d)).drop_last() =~= a);
}

/// The deltas that are applied are those of the records that have one other than zero.
pub proof fn every_delta_comes_from_a_record(records: Seq<(u32, Option<i32>)>, tag: u32, d: i32)
    ensures
        nonzero(records).contains((tag, d)) <==> d != 0 && records.contains((tag, Some(d))),
    decreases records.len(),
{
    let out = nonzero(records);
    if records.len() > 0 {
        let rest = records.drop_last();
        let last = records[records.len() - 1];
        every_delta_comes_from_a_record(rest, tag, d);
        let before = nonzero(rest);
        if rest.contains((tag, Some(d))) {
            let i = choose|i: int| 0 <= i < rest.len() && rest[i] == (tag, Some(d));
            assert(records[i] == (tag, Some(d)));
        }
        if records.contains((tag, Some(d))) {
            let i = choose|i: int| 0 <= i < records.len() && records[i] == (tag, Some(d));
            if i < rest.len() {
                assert(rest[i] == (tag, Some(d)));
            } else if d != 0 {
                assert(out[before.len() as int] == (tag, d));
            }
        }
        if before.contains((tag, d)) {
            let i = choose|i: int| 0 <= i < before.len() && before[i] == (tag, d);
            assert(out[i] == (tag, d));
        }
        if out.contains((tag, d)) {
            let i = choose|i: int| 0 <= i < out.len() && out[i] == (tag, d);
            if i < before.len() {
                assert(before[i] == (tag, d));
            } else {
                assert(records[records.len() - 1] == (tag, Some(d)));
            }
        }
    }
}

/// One more adjustment moves the `OS/2` field that its tag stands for by its delta, as far as
/// the field goes, and leaves every other field as it is.
pub proof fn an_adjustment_moves_one_field_of_os2(
    f: Os2Fields,
    a: Seq<(u32, i32)>,
    tag: u32,
    d: i32,
)
    ensures
        ({
            let before = adjusted_os2(f, a);
            let after = adjusted_os2(f, a.push((tag, d)));
            &&& tag == tag_named('h', 'a', 's', 'c') ==> after == (Os2Fields {
                s_typo_ascender: saturated_i16(f.s_typo_ascender + d),
                ..before
            })
            &&& tag == tag_named('h', 'd', 's', 'c') ==> after == (Os2Fields {
                s_typo_descender: saturated_i16(f.s_typo_descender + d),
                ..before
            })
            &&& tag == tag_named('h', 'l', 'g', 'p') ==> after == (Os2Fields {
                s_typo_line_gap: saturated_i16(f.s_typo_line_gap + d),
                ..before
            })
            &&& tag == tag_named('h', 'c', 'l', 'a') ==> after == (Os2Fields {
                us_win_ascent: saturated_u16(f.us_win_ascent + d),
                ..before
            })
            &&& tag == tag_named('h', 'c', 'l', 'd') ==> after == (Os2Fields {
                us_win_descent: saturated_u16(f.us_win_descent + d),
                ..before
            })
            &&& tag == tag_named('s', 't', 'r', 's') ==> after == (Os2Fields {
                y_strikeout_size: saturated_i16(f.y_strikeout_size + d),
                ..before
            })
            &&& tag == tag_named('s', 't', 'r', 'o') ==> after == (Os2Fields {
                y_strikeout_position: saturated_i16(f.y_strikeout_position + d),
                ..before
            })
            &&& tag == tag_named('s', 'b', 'x', 's') ==> after == (Os2Fields {
                y_subscript_x_size: saturated_i16(f.y_subscript_x_size + d),
                ..before
            })
            &&& tag == tag_named('s', 'b', 'y', 's') ==> after == (Os2Fields {
                y_subscript_y_size: saturated_i16(f.y_subscript_y_size + d),
                ..before
            })
            &&& tag == tag_named('s', 'b', 'x', 'o') ==> after == (Os2Fields {
                y_subscript_x_offset: saturated_i16(f.y_subscript_x_offset + d),
                ..before
            })
            &&& tag == tag_named('s', 'b', 'y', 'o') ==> after == (Os2Fields {
                y_subscript_y_offset: saturated_i16(f.y_subscript_y_offset + d),
                ..before
            })
            &&& tag == tag_named('s', 'p', 'x', 's') ==> after == (Os2Fields {
                y_superscript_x_size: saturated_i16(f.y_superscript_x_size + d),
                ..before
            })
            &&& tag == tag_named('s', 'p', 'y', 's') ==> after == (Os2Fields {
                y_superscript_y_size: saturated_i16(f.y_superscript_y_size + d),
                ..before
            })
            &&& tag == tag_named('s', 'p', 'x', 'o') ==> after == (Os2Fields {
                y_superscript_x_offset: saturated_i16(f.y_superscript_x_offset + d),
                ..before
            })
            &&& tag == tag_named('s', 'p', 'y', 'o') ==> after == (Os2Fields {
                y_superscript_y_offset: saturated_i16(f.y_superscript_y_offset + d),
                ..before
            })
            &&& tag == tag_named('x', 'h', 'g', 't') ==> after == (Os2Fields {
                sx_height: match f.sx_height {
                    Some(v) => Some(saturated_i16(v + d)),
                    None => None,
                },
                ..before
            })
            &&& tag == tag_named('c', 'p', 'h', 't') ==> after == (Os2Fields {
                s_cap_height: match f.s_cap_height {
                    Some(v) => Some(saturated_i16(v + d)),
                    None => None,
                },
                ..before
            })
            &&& after == before || tag
                == tag_named('h', 'a', 's', 'c') || tag
                == tag_named('h', 'd', 's', 'c') || tag
                == tag_named('h', 'l', 'g', 'p') || tag
                == tag_named('h', 'c', 'l', 'a') || tag
                == tag_named('h', 'c', 'l', 'd') || tag
                == tag_named('s', 't', 'r', 's') || tag
                == tag_named('s', 't', 'r', 'o') || tag
                == tag_named('s', 'b', 'x', 's') || tag
                == tag_named('s', 'b', 'y', 's') || tag
                == tag_named('s', 'b', 'x', 'o') || tag
                == tag_named('s', 'b', 'y', 'o') || tag
                == tag_named('s', 'p', 'x', 's') || tag
                == tag_named('s', 'p', 'y', 's') || tag
                == tag_named('s', 'p', 'x', 'o') || tag
                == tag_named('s', 'p', 'y', 'o') || tag
                == tag_named('x', 'h', 'g', 't') || tag
                == tag_named('c', 'p', 'h', 't')
        }),
{
    let more = a.push((tag, d));
    assert(more.drop_last() =~= a);
    lemma_last_entry_counts(a, tag, d);
}

/// One more adjustment moves the `hhea` field that its tag stands for by its delta, and leaves
/// every other field as it is: line metrics are not among them.
pub proof fn an_adjustment_moves_one_field_of_hhea(
    f: HheaFields,
    a: Seq<(u32, i32)>,
    tag: u32,
    d: i32,
)
    ensures
        ({
            let before = adjusted_hhea(f, a);
            let after = adjusted_hhea(f, a.push((tag, d)));
            &&& tag == tag_named('h', 'c', 'r', 's') ==> after == (HheaFields {
                caret_slope_rise: saturated_i16(f.caret_slope_rise + d),
                ..before
            })
            &&& tag == tag_named('h', 'c', 'r', 'n') ==> after == (HheaFields {
                caret_slope_run: saturated_i16(f.caret_slope_run + d),
                ..before
            })
            &&& tag == tag_named('h', 'c', 'o', 'f') ==> after == (HheaFields {
                caret_offset: saturated_i16(f.caret_offset + d),
                ..before
            })
            &&& after == before || tag
                == tag_named('h', 'c', 'r', 's') || tag
                == tag_named('h', 'c', 'r', 'n') || tag
                == tag_named('h', 'c', 'o', 'f')
        }),
{
    let more = a.push((tag, d));
    assert(more.drop_last() =~= a);
    lemma_last_entry_counts(a, tag, d);
}

/// One more adjustment moves the `post` field that its tag stands for by its delta, and leaves
/// every other field as it is.
pub proof fn an_adjustment_moves_one_field_of_post(
    f: PostFields,
    a: Seq<(u32, i32)>,
    tag: u32,
    d: i32,
)
    ensures
        ({
            let before = adjusted_post(f, a);
            let after = adjusted_post(f, a.push((tag, d)));
            &&& tag == tag_named('u', 'n', 'd', 'o') ==> after == (PostFields {
                underline_position: saturated_i16(f.underline_position + d),
                ..before
            })
            &&& tag == tag_named('u', 'n', 'd', 's') ==> after == (PostFields {
                underline_thickness: saturated_i16(f.underline_thickness + d),
                ..before
            })
            &&& after == before || tag
                == tag_named('u', 'n', 'd', 'o') || tag
                == tag_named('u', 'n', 'd', 's')
        }),
{
    let more = a.push((tag, d));
    assert(more.drop_last() =~= a);
    lemma_last_entry_counts(a, tag, d);
}

/// Without adjustments every field stays as it is.
pub proof fn no_adjustments_change_nothing(o: Os2Fields, h: HheaFields, p: PostFields)
    ensures
        adjusted_os2(o, Seq::empty()) == o,
        adjusted_hhea(h, Seq::empty()) == h,
        adjusted_post(p, Seq::empty()) == p,
{
}

} // verus!
