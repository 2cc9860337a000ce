//! The bookkeeping a font needs after its outlines have changed: `maxp`, the `head`
//! bounding box and `hhea`'s extremes are recalculated from `glyf`, `OS/2` and `post` are
//! given the location's identity, and name records that named what is gone are dropped.
//!
//! Skipping it is not cosmetic. `maxp.maxPoints` is what a rasteriser sizes its point
//! buffers from, and `OS/2.usWeightClass` is what the operating system reads to place a
//! face in a weight menu.
use read_fonts::tables::name::Name as ReadName;
use read_fonts::{FontData, FontRead};
use vstd::prelude::*;
use write_fonts::dump_table;
use write_fonts::from_obj::ToOwnedTable;
use write_fonts::tables::name::{Name, NameRecord as StoredName};

use crate::apply::{
    apply_step, in_mac_roman, lemma_mac_style_written, name_coding, utf16_size, NameCoding,
};
use crate::bytes::u16_at;
use crate::coord::Coord;
use crate::error::{write_error, Problem, SliceError};
use crate::fields::{
    built_table, finish_table, glyphs_of, has_max_points, head_bytes, head_fields, hhea_bytes,
    hhea_fields, maxp_written, os2_fields, os2_written, post_fields, post_rewritten,
    read_glyph_count, read_head, read_hhea, read_max_points, read_os2, read_post, write_head,
    write_hhea, write_maxp, write_os2, rewrite_post, HeadFields, HheaFields, MaxpFields, Os2Fields,
    PostFields,
};
use crate::font::{
    flags_in, font_names, frame_in, fvar_axes, fvar_instances, instance_views, lemma_plain_sfnt,
    loaded, names_of, read_axes, read_instances, tables_in, AxisRecord, InstanceRecord,
    InstanceView, NameView,
};
use crate::glyphs::{
    advance_at, advance_of, bearing_at, bearing_of, field_u16, find_glyph_tables, glyph_tables,
    or_zero_i, or_zero_u, outline_of, read_outline, Component, GlyphTables, GlyphTablesView,
    Outline, OutlineView, Outlines, OutlinesView, SimpleView,
};
use crate::outline::{to_i16, wrap16};
use crate::stat::{
    read_stat_head, read_stat_values, stat_head, stat_values, value_views, StatAxis, StatValue,
    StatValueView,
};
use crate::tables::{
    a_tag_is_found_where_it_is, assemble, bounds_error, copy_remaining_tables, distinct_tags,
    find_table, has_tag, lemma_carried, lemma_found_by_tag, lemma_reads_under_tag,
    lemma_remaining_distinct, lemma_table_at_end, need_table, needed_table, opens_as_listed,
    out_of_bounds, push_table, read_tables, reads_as, remaining_tables_are_carried_over,
    table_bytes, table_views, with_remaining, FontTable, TableView, DSIG, FVAR, HEAD, HHEA, MAXP,
    NAME, OS2, POST, STAT,
};

verus! {

// ------------------------------------------------------------------------- measuring

/// Per-glyph facts gathered in one pass over `glyf`.
#[derive(Clone, Copy, Debug, PartialEq, Eq, Structural)]
pub struct GlyfStats {
    pub x_min: i16,
    pub y_min: i16,
    pub x_max: i16,
    pub y_max: i16,
    pub any_contours: bool,
    pub max_points: u16,
    pub max_contours: u16,
    pub max_composite_points: u16,
    pub max_composite_contours: u16,
    pub max_component_elements: u16,
    pub max_component_depth: u16,
    pub all_lsb_equals_x_min: bool,
    pub advance_width_max: u16,
    pub min_lsb: i16,
    pub min_rsb: i16,
    pub x_max_extent: i16,
    /// The advances that are not zero: their sum and their number.
    pub advance_total: u64,
    pub advance_count: u64,
}

/// Where measuring starts.
pub open spec fn no_stats() -> GlyfStats {
    GlyfStats {
        x_min: i16::MAX,
        y_min: i16::MAX,
        x_max: i16::MIN,
        y_max: i16::MIN,
        any_contours: false,
        max_points: 0,
        max_contours: 0,
        max_composite_points: 0,
        max_composite_contours: 0,
        max_component_elements: 0,
        max_component_depth: 0,
        all_lsb_equals_x_min: true,
        advance_width_max: 0,
        min_lsb: i16::MAX,
        min_rsb: i16::MAX,
        x_max_extent: i16::MIN,
        advance_total: 0,
        advance_count: 0,
    }
}

pub open spec fn least(a: i16, b: i16) -> i16 {
    if b < a {
        b
    } else {
        a
    }
}

pub open spec fn most(a: i16, b: i16) -> i16 {
    if b > a {
        b
    } else {
        a
    }
}

pub open spec fn most_u(a: u16, b: u16) -> u16 {
    if b > a {
        b
    } else {
        a
    }
}

pub open spec fn saturated_i16(v: int) -> i16 {
    if v < -0x8000 {
        i16::MIN
    } else if v > 0x7fff {
        i16::MAX
    } else {
        v as i16
    }
}

pub open spec fn saturated_u16(v: int) -> u16 {
    if v > 0xffff {
        0xffff
    } else {
        v as u16
    }
}

/// The number of points of a simple glyph, which its last contour end gives.
pub open spec fn point_count(s: SimpleView) -> u16 {
    if s.end_pts.len() == 0 {
        0
    } else {
        ((s.end_pts.last() + 1) % 0x1_0000) as u16
    }
}

pub open spec fn contour_number(s: SimpleView) -> u16 {
    if s.contour_count < 0 {
        0
    } else {
        s.contour_count as u16
    }
}

/// How deep composites may nest.
pub const MAX_DEPTH: u16 = 16;

/// The points and contours that are reached through a composite glyph, and how deep it
/// nests. `guard` counts the levels so far: composites that refer to each other in a circle
/// end at the depth that the specification allows.
pub open spec fn composite_totals(o: OutlinesView, gid: u32, depth: u16, guard: u16) -> (
    u16,
    u16,
    u16,
)
    decreases MAX_DEPTH + 1 - guard, 0int,
{
    if guard >= MAX_DEPTH {
        (0, 0, depth)
    } else {
        match outline_of(o, gid) {
            Some(OutlineView::Composite(c)) => totals_upto(
                o,
                c.components,
                c.components.len() as int,
                depth,
                guard,
            ),
            _ => (0, 0, depth),
        }
    }
}

/// The same through the first `n` components.
pub open spec fn totals_upto(
    o: OutlinesView,
    components: Seq<Component>,
    n: int,
    depth: u16,
    guard: u16,
) -> (u16, u16, u16)
    decreases MAX_DEPTH - guard, n,
{
    if n <= 0 || guard >= MAX_DEPTH {
        (0, 0, depth)
    } else {
        let (points, contours, deepest) = totals_upto(o, components, n - 1, depth, guard);
        match outline_of(o, components[n - 1].glyph) {
            Some(OutlineView::Simple(s)) => (
                saturated_u16(points + point_count(s)),
                saturated_u16(contours + contour_number(s)),
                deepest,
            ),
            Some(OutlineView::Composite(_)) => {
                let (p, c, d) = composite_totals(
                    o,
                    components[n - 1].glyph,
                    (depth + 1) as u16,
                    (guard + 1) as u16,
                );
                (saturated_u16(points + p), saturated_u16(contours + c), most_u(deepest, d))
            },
            _ => (points, contours, deepest),
        }
    }
}

/// Total points and contours reachable through a composite, and how deep it nests.
pub fn count_composite(o: &Outlines, gid: u32, depth: u16, guard: u16) -> (r: (u16, u16, u16))
    requires
        guard <= MAX_DEPTH,
        depth == guard + 1,
    ensures
        r == composite_totals(o@, gid, depth, guard),
    decreases MAX_DEPTH - guard,
{
    if guard >= MAX_DEPTH {
        return (0, 0, depth);
    }
    let components: Vec<Component> = match read_outline(o, gid) {
        Some(Outline::Composite(c)) => c.components,
        _ => {
            return (0, 0, depth);
        },
    };
    let mut points: u16 = 0;
    let mut contours: u16 = 0;
    let mut deepest: u16 = depth;
    for i in 0..components.len()
        invariant
            guard < MAX_DEPTH,
            depth == guard + 1,
            (points, contours, deepest) == totals_upto(o@, components@, i as int, depth, guard),
    {
        let base: u32 = components[i].glyph;
        match read_outline(o, base) {
            Some(Outline::Simple(s)) => {
                let more_points: u16 = count_points(&s.end_pts);
                let more_contours: u16 = if s.contour_count < 0 {
                    0
                } else {
                    s.contour_count as u16
                };
                assert(more_points == point_count(s@));
                points = plus(points, more_points);
                contours = plus(contours, more_contours);
            },
            Some(Outline::Composite(_)) => {
                let (p, c, d) = count_composite(o, base, depth + 1, guard + 1);
                points = plus(points, p);
                contours = plus(contours, c);
                if d > deepest {
                    deepest = d;
                }
            },
            _ => {},
        }
    }
    (points, contours, deepest)
}

fn plus(a: u16, b: u16) -> (r: u16)
    ensures
        r == saturated_u16(a + b),
{
    let sum: u32 = a as u32 + b as u32;
    if sum > 0xffff {
        0xffff
    } else {
        sum as u16
    }
}

fn count_points(end_pts: &Vec<u16>) -> (r: u16)
    ensures
        r == if end_pts@.len() == 0 {
            0
        } else {
            (end_pts@.last() + 1) % 0x1_0000
        },
{
    if end_pts.len() == 0 {
        0
    } else {
        ((end_pts[end_pts.len() - 1] as u32 + 1) % 0x1_0000) as u16
    }
}

/// What a glyph's advance adds.
pub open spec fn with_advance(s: GlyfStats, advance: u16) -> GlyfStats {
    GlyfStats {
        advance_width_max: most_u(s.advance_width_max, advance),
        advance_total: if advance > 0 {
            (s.advance_total + advance) as u64
        } else {
            s.advance_total
        },
        advance_count: if advance > 0 {
            (s.advance_count + 1) as u64
        } else {
            s.advance_count
        },
        ..s
    }
}

/// What a glyph's bounding box and metrics add.
pub open spec fn with_bounds(
    s: GlyfStats,
    b: crate::glyphs::Bounds,
    advance: u16,
    lsb: i16,
) -> GlyfStats {
    let extent = lsb + (b.x_max - b.x_min);
    GlyfStats {
        any_contours: true,
        x_min: least(s.x_min, b.x_min),
        y_min: least(s.y_min, b.y_min),
        x_max: most(s.x_max, b.x_max),
        y_max: most(s.y_max, b.y_max),
        all_lsb_equals_x_min: s.all_lsb_equals_x_min && lsb == b.x_min,
        min_lsb: least(s.min_lsb, lsb),
        x_max_extent: most(s.x_max_extent, saturated_i16(extent)),
        min_rsb: least(s.min_rsb, saturated_i16(advance - extent)),
        ..s
    }
}

/// What one glyph adds. An empty glyph, and one that cannot be read, contributes nothing
/// but its advance.
pub open spec fn with_glyph(s: GlyfStats, t: GlyphTablesView, gid: u32) -> GlyfStats {
    let advance = or_zero_u(advance_of(t.hmtx, t.h_count, gid)) as u16;
    let lsb = or_zero_i(bearing_of(t.hmtx, t.h_count, gid)) as i16;
    let first = with_advance(s, advance);
    match outline_of(t.outlines, gid) {
        Some(OutlineView::Simple(g)) => {
            let n = with_bounds(first, g.bounds, advance, lsb);
            GlyfStats {
                max_points: most_u(n.max_points, point_count(g)),
                max_contours: most_u(n.max_contours, contour_number(g)),
                ..n
            }
        },
        Some(OutlineView::Composite(g)) => {
            let n = with_bounds(first, g.bounds, advance, lsb);
            let (points, contours, depth) = composite_totals(t.outlines, gid, 1, 0);
            GlyfStats {
                max_composite_points: most_u(n.max_composite_points, points),
                max_composite_contours: most_u(n.max_composite_contours, contours),
                max_component_depth: most_u(n.max_component_depth, depth),
                max_component_elements: most_u(
                    n.max_component_elements,
                    (g.components.len() % 0x1_0000) as u16,
                ),
                ..n
            }
        },
        _ => first,
    }
}

/// What the first `n` glyphs add up to.
pub open spec fn stats_upto(t: GlyphTablesView, n: int) -> GlyfStats
    decreases n,
{
    if n <= 0 {
        no_stats()
    } else {
        with_glyph(stats_upto(t, n - 1), t, (n - 1) as u32)
    }
}

/// What is reported: zeros for the extremes where there is nothing to measure.
pub open spec fn reported(s: GlyfStats) -> GlyfStats {
    if s.any_contours {
        s
    } else {
        GlyfStats {
            x_min: 0,
            y_min: 0,
            x_max: 0,
            y_max: 0,
            min_lsb: 0,
            min_rsb: 0,
            x_max_extent: 0,
            ..s
        }
    }
}

/// The average of the advances that are not zero, rounded with halves upwards.
pub open spec fn average_width(s: GlyfStats) -> int {
    if s.advance_count > 0 {
        (2 * s.advance_total + s.advance_count) / (2 * s.advance_count as int)
    } else {
        0
    }
}

/// What a font's glyphs measure; nothing for a font without `glyf` outlines.
pub open spec fn glyf_stats(font: Seq<TableView>) -> Option<GlyfStats> {
    match (glyph_tables(font), table_bytes(font, MAXP)) {
        (Ok(t), Some(maxp)) => match glyphs_of(maxp) {
            Some(count) => Some(reported(stats_upto(t, count as int))),
            None => None,
        },
        _ => None,
    }
}

fn add_bounds(s: GlyfStats, b: crate::glyphs::Bounds, advance: u16, lsb: i16) -> (r: GlyfStats)
    ensures
        r == with_bounds(s, b, advance, lsb),
{
    let extent: i32 = lsb as i32 + (b.x_max as i32 - b.x_min as i32);
    GlyfStats {
        any_contours: true,
        x_min: lower(s.x_min, b.x_min),
        y_min: lower(s.y_min, b.y_min),
        x_max: higher(s.x_max, b.x_max),
        y_max: higher(s.y_max, b.y_max),
        all_lsb_equals_x_min: s.all_lsb_equals_x_min && lsb == b.x_min,
        min_lsb: lower(s.min_lsb, lsb),
        x_max_extent: higher(s.x_max_extent, clamp(extent)),
        min_rsb: lower(s.min_rsb, clamp(advance as i32 - extent)),
        ..s
    }
}

fn lower(a: i16, b: i16) -> (r: i16)
    ensures
        r == least(a, b),
{
    if b < a {
        b
    } else {
        a
    }
}

fn higher(a: i16, b: i16) -> (r: i16)
    ensures
        r == most(a, b),
{
    if b > a {
        b
    } else {
        a
    }
}

fn higher_u(a: u16, b: u16) -> (r: u16)
    ensures
        r == most_u(a, b),
{
    if b > a {
        b
    } else {
        a
    }
}

fn clamp(v: i32) -> (r: i16)
    ensures
        r == saturated_i16(v as int),
{
    if v < -0x8000 {
        -0x8000
    } else if v > 0x7fff {
        0x7fff
    } else {
        v as i16
    }
}

fn add_glyph(s: GlyfStats, t: &GlyphTables, gid: u32) -> (r: GlyfStats)
    requires
        s.advance_total <= 0xffff_ffff_ffff,
        s.advance_count <= 0xffff_ffff,
    ensures
        r == with_glyph(s, t@, gid),
        r.advance_total <= s.advance_total + 0xffff,
        r.advance_count <= s.advance_count + 1,
{
    let advance: u16 = advance_at(t.hmtx.as_slice(), t.h_count, gid);
    let lsb: i16 = bearing_at(t.hmtx.as_slice(), t.h_count, gid);
    let first: GlyfStats = GlyfStats {
        advance_width_max: higher_u(s.advance_width_max, advance),
        advance_total: if advance > 0 {
            s.advance_total + advance as u64
        } else {
            s.advance_total
        },
        advance_count: if advance > 0 {
            s.advance_count + 1
        } else {
            s.advance_count
        },
        ..s
    };
    assert(first == with_advance(s, advance));
    match read_outline(&t.outlines, gid) {
        Some(Outline::Simple(g)) => {
            let n: GlyfStats = add_bounds(first, g.bounds, advance, lsb);
            let contours: u16 = if g.contour_count < 0 {
                0
            } else {
                g.contour_count as u16
            };
            let points: u16 = count_points(&g.end_pts);
            assert(points == point_count(g@));
            GlyfStats {
                max_points: higher_u(n.max_points, points),
                max_contours: higher_u(n.max_contours, contours),
                ..n
            }
        },
        Some(Outline::Composite(g)) => {
            let n: GlyfStats = add_bounds(first, g.bounds, advance, lsb);
            let (points, contours, depth) = count_composite(&t.outlines, gid, 1, 0);
            let elements: u16 = (g.components.len() % 0x1_0000) as u16;
            GlyfStats {
                max_composite_points: higher_u(n.max_composite_points, points),
                max_composite_contours: higher_u(n.max_composite_contours, contours),
                max_component_depth: higher_u(n.max_component_depth, depth),
                max_component_elements: higher_u(n.max_component_elements, elements),
                ..n
            }
        },
        _ => first,
    }
}

/// One pass over `glyf` collecting everything `maxp`, `head` and `hhea` need.
pub fn collect_glyf_stats(font: &Vec<FontTable>) -> (r: Option<GlyfStats>)
    ensures
        r == glyf_stats(table_views(font@)),
        r matches Some(s) ==> s.advance_total <= 0xffff * 0xffff && s.advance_count <= 0xffff
            && s.advance_total <= 0xffff * s.advance_count,
{
    let t: GlyphTables = match find_glyph_tables(font) {
        Ok(t) => t,
        Err(_) => {
            return None;
        },
    };
    let count: u16 = match find_table(font, MAXP) {
        Some(maxp) => match read_glyph_count(maxp.as_slice()) {
            Some(count) => count,
            None => {
                return None;
            },
        },
        None => {
            return None;
        },
    };
    let mut stats: GlyfStats = GlyfStats {
        x_min: 0x7fff,
        y_min: 0x7fff,
        x_max: -0x8000,
        y_max: -0x8000,
        any_contours: false,
        max_points: 0,
        max_contours: 0,
        max_composite_points: 0,
        max_composite_contours: 0,
        max_component_elements: 0,
        max_component_depth: 0,
        all_lsb_equals_x_min: true,
        advance_width_max: 0,
        min_lsb: 0x7fff,
        min_rsb: 0x7fff,
        x_max_extent: -0x8000,
        advance_total: 0,
        advance_count: 0,
    };
    for gid in 0..count
        invariant
            stats == stats_upto(t@, gid as int),
            stats.advance_total <= 0xffff * gid,
            stats.advance_count <= gid,
            stats.advance_total <= 0xffff * stats.advance_count,
    {
        stats = add_glyph(stats, &t, gid as u32);
    }
    if !stats.any_contours {
        stats.x_min = 0;
        stats.y_min = 0;
        stats.x_max = 0;
        stats.y_max = 0;
        stats.min_lsb = 0;
        stats.min_rsb = 0;
        stats.x_max_extent = 0;
    }
    Some(stats)
}

/// The average of the advances, as `OS/2` stores it.
pub fn avg_char_width(s: GlyfStats) -> (r: i16)
    requires
        s.advance_count <= 0xffff,
        s.advance_total <= 0xffff * s.advance_count,
    ensures
        r == wrap16(average_width(s)),
{
    if s.advance_count == 0 {
        return 0;
    }
    let sum: u64 = 2 * s.advance_total + s.advance_count;
    let average: u64 = sum / (2 * s.advance_count);
    proof {
        let n = s.advance_count as int;
        let all = sum as int;
        assert(all / (2 * n) <= 0x1_0000) by (nonlinear_arith)
            requires
                0 <= all <= 2 * (0xffff * n) + n,
                n > 0,
        ;
    }
    to_i16(average as i32)
}

// ------------------------------------------------------------------------ dead names

pub open spec fn axis_ids(axes: Seq<AxisRecord>) -> Seq<u16> {
    axes.map_values(|a: AxisRecord| a.name_id)
}

/// The name IDs of the instances that can be read. An instance without a PostScript name
/// may say so by a number that is no name ID.
pub open spec fn instance_ids(instances: Seq<Option<InstanceView>>) -> Seq<u16>
    decreases instances.len(),
{
    if instances.len() == 0 {
        Seq::empty()
    } else {
        let before = instance_ids(instances.drop_last());
        match instances.last() {
            Some(i) => match i.post_script_id {
                Some(id) if id != 0xffff => before.push(i.name_id).push(id),
                _ => before.push(i.name_id),
            },
            None => before,
        }
    }
}

pub open spec fn stat_axis_ids(axes: Seq<StatAxis>) -> Seq<u16> {
    axes.map_values(|a: StatAxis| a.name_id)
}

pub open spec fn stat_value_ids(values: Seq<StatValueView>) -> Seq<u16> {
    values.map_values(|v: StatValueView| v.name_id)
}

/// The name IDs that `fvar` refers to.
pub open spec fn fvar_ids(font: Seq<TableView>) -> Seq<u16> {
    match table_bytes(font, FVAR) {
        Some(bytes) => match fvar_axes(bytes) {
            Ok(axes) => axis_ids(axes) + instance_ids(fvar_instances(bytes)),
            Err(_) => Seq::empty(),
        },
        None => Seq::empty(),
    }
}

/// The name IDs that `STAT` refers to.
pub open spec fn stat_ids(font: Seq<TableView>) -> Seq<u16> {
    match table_bytes(font, STAT) {
        Some(bytes) => match stat_head(bytes) {
            Some((axes, fallback)) => (match axes {
                Some(axes) => stat_axis_ids(axes),
                None => Seq::empty(),
            }) + stat_value_ids(stat_values(bytes)) + (match fallback {
                Some(id) => seq![id],
                None => Seq::empty(),
            }),
            None => Seq::empty(),
        },
        None => Seq::empty(),
    }
}

/// True for a name ID that the specification does not reserve.
pub open spec fn is_free(id: u16) -> bool {
    id > 255
}

/// The name IDs that a font's `fvar` and `STAT` refer to. Those below 256 are reserved for
/// meanings that have nothing to do with variation, and are not among them.
pub open spec fn variation_ids(font: Seq<TableView>) -> Seq<u16> {
    (fvar_ids(font) + stat_ids(font)).filter(|id: u16| is_free(id))
}

fn collect_fvar_ids(font: &Vec<FontTable>) -> (out: Vec<u16>)
    ensures
        out@ == fvar_ids(table_views(font@)),
{
    let mut out: Vec<u16> = Vec::new();
    let bytes: &Vec<u8> = match find_table(font, FVAR) {
        Some(bytes) => bytes,
        None => {
            return out;
        },
    };
    let axes: Vec<AxisRecord> = match read_axes(bytes.as_slice()) {
        Ok(axes) => axes,
        Err(_) => {
            return out;
        },
    };
    for i in 0..axes.len()
        invariant
            out@ == axis_ids(axes@).take(i as int),
    {
        out.push(axes[i].name_id);
        assert(out@ =~= axis_ids(axes@).take(i + 1));
    }
    assert(out@ =~= axis_ids(axes@));
    let instances: Vec<Option<InstanceRecord>> = read_instances(bytes.as_slice());
    let ghost views = instance_views(instances@);
    let ghost first = out@;
    assert(out@ =~= first + instance_ids(views.take(0)));
    for i in 0..instances.len()
        invariant
            views == instance_views(instances@),
            out@ == first + instance_ids(views.take(i as int)),
    {
        assert(views.take(i + 1).drop_last() =~= views.take(i as int));
        match &instances[i] {
            Some(instance) => {
                assert(views[i as int] == Some(instance@));
                out.push(instance.name_id);
                match instance.post_script_id {
                    Some(id) => {
                        if id != 0xffff {
                            out.push(id);
                        }
                    },
                    None => {},
                }
            },
            None => {
                assert(views[i as int] is None);
            },
        }
        assert(out@ =~= first + instance_ids(views.take(i + 1)));
    }
    assert(views.take(views.len() as int) =~= views);
    out
}

fn collect_stat_ids(font: &Vec<FontTable>) -> (out: Vec<u16>)
    ensures
        out@ == stat_ids(table_views(font@)),
{
    let mut out: Vec<u16> = Vec::new();
    let bytes: &Vec<u8> = match find_table(font, STAT) {
        Some(bytes) => bytes,
        None => {
            return out;
        },
    };
    let (axes, fallback): (Option<Vec<StatAxis>>, Option<u16>) = match read_stat_head(
        bytes.as_slice(),
    ) {
        Some(head) => head,
        None => {
            return out;
        },
    };
    match &axes {
        Some(axes) => {
            for i in 0..axes.len()
                invariant
                    out@ == stat_axis_ids(axes@).take(i as int),
            {
                out.push(axes[i].name_id);
                assert(out@ =~= stat_axis_ids(axes@).take(i + 1));
            }
            assert(out@ =~= stat_axis_ids(axes@));
        },
        None => {},
    }
    let ghost first = out@;
    let values: Vec<StatValue> = read_stat_values(bytes.as_slice());
    let ghost ids = stat_value_ids(value_views(values@));
    assert(out@ =~= first + ids.take(0));
    for i in 0..values.len()
        invariant
            ids == stat_value_ids(value_views(values@)),
            out@ == first + ids.take(i as int),
    {
        assert(ids[i as int] == values@[i as int].name_id);
        out.push(values[i].name_id);
        assert(out@ =~= first + ids.take(i + 1));
    }
    assert(ids.take(ids.len() as int) =~= ids);
    let ghost second = out@;
    match fallback {
        Some(id) => {
            out.push(id);
            assert(out@ =~= second + seq![id]);
        },
        None => {
            assert(out@ =~= second + Seq::<u16>::empty());
        },
    }
    out
}

/// The nameIDs a font's `fvar` and `STAT` refer to.
///
/// Only IDs above 255 are reported: everything below is reserved by the specification
/// for meanings that have nothing to do with variation, and must never be pruned.
pub fn variation_name_ids(font: &Vec<FontTable>) -> (out: Vec<u16>)
    ensures
        out@ == variation_ids(table_views(font@)),
{
    let mut all: Vec<u16> = collect_fvar_ids(font);
    let more: Vec<u16> = collect_stat_ids(font);
    let ghost first = all@;
    assert(all@ =~= first + more@.take(0));
    for i in 0..more.len()
        invariant
            all@ == first + more@.take(i as int),
    {
        all.push(more[i]);
        assert(all@ =~= first + more@.take(i + 1));
    }
    assert(more@.take(more@.len() as int) =~= more@);
    let ghost keep = |id: u16| is_free(id);
    let mut out: Vec<u16> = Vec::new();
    assert(out@ =~= all@.take(0).filter(keep)) by {
        reveal(Seq::filter);
    }
    for i in 0..all.len()
        invariant
            keep == (|id: u16| is_free(id)),
            out@ == all@.take(i as int).filter(keep),
    {
        reveal(Seq::filter);
        assert(all@.take(i + 1).drop_last() =~= all@.take(i as int));
        if all[i] > 255 {
            out.push(all[i]);
        }
    }
    assert(all@.take(all@.len() as int) =~= all@);
    out
}

/// The name IDs that were referred to before and no longer are.
pub open spec fn dead_ids(before: Seq<u16>, after: Seq<u16>) -> Seq<u16> {
    before.filter(|id: u16| !after.contains(id))
}

/// True when `id` is one of `ids`.
pub fn is_listed(ids: &[u16], id: u16) -> (r: bool)
    ensures
        r == ids@.contains(id),
{
    for i in 0..ids.len()
        invariant
            forall|k: int| 0 <= k < i ==> ids@[k] != id,
    {
        if ids[i] == id {
            return true;
        }
    }
    false
}

fn find_dead(before: &Vec<u16>, after: &Vec<u16>) -> (out: Vec<u16>)
    ensures
        out@ == dead_ids(before@, after@),
{
    let ghost keep = |id: u16| !after@.contains(id);
    let mut out: Vec<u16> = Vec::new();
    assert(out@ =~= before@.take(0).filter(keep)) by {
        reveal(Seq::filter);
    }
    for i in 0..before.len()
        invariant
            keep == (|id: u16| !after@.contains(id)),
            out@ == before@.take(i as int).filter(keep),
    {
        reveal(Seq::filter);
        assert(before@.take(i + 1).drop_last() =~= before@.take(i as int));
        if !is_listed(after.as_slice(), before[i]) {
            out.push(before[i]);
        }
    }
    assert(before@.take(before@.len() as int) =~= before@);
    out
}

/// How many language tags a `name` table holds: none before version 1, nor where it is too
/// short for them.
pub open spec fn language_tags(bytes: Seq<u8>) -> int {
    let end = 6 + 12 * u16_at(bytes, 2);
    if bytes.len() >= end + 2 && u16_at(bytes, 0) >= 1 && bytes.len() >= end + 2 + 4 * u16_at(
        bytes,
        end,
    ) {
        u16_at(bytes, end)
    } else {
        0
    }
}

/// True when so many records and the language tags of a `name` table leave the strings
/// within reach of a sixteen-bit offset.
pub open spec fn records_fit(bytes: Seq<u8>, count: int) -> bool {
    6 + 12 * count + 4 * language_tags(bytes) <= 0xffff
}

/// The records whose IDs are not among some others.
pub open spec fn without_ids(records: Seq<NameView>, ids: Seq<u16>) -> Seq<NameView> {
    records.filter(|r: NameView| !ids.contains(r.name_id))
}

pub open spec fn all_have_text(records: Seq<NameView>) -> bool {
    forall|i: int| 0 <= i < records.len() ==> (#[trigger] records[i]).text is Some
}

/// A record with a text: where the table does not hold it, an empty one.
pub open spec fn filled(r: NameView) -> NameView {
    NameView {
        text: match r.text {
            Some(text) => Some(text),
            None => Some(Seq::empty()),
        },
        ..r
    }
}

pub open spec fn filled_names(records: Seq<NameView>) -> Seq<NameView> {
    records.map_values(|r: NameView| filled(r))
}

/// True for a record whose text its coding can hold, in at most 65535 bytes.
pub open spec fn is_coded(r: NameView) -> bool {
    r.text matches Some(text) && match name_coding(r.platform, r.encoding) {
        NameCoding::Utf16 => utf16_size(text) <= 0xffff,
        NameCoding::MacRoman => text.len() <= 0xffff && forall|i: int|
            0 <= i < text.len() ==> in_mac_roman(#[trigger] text[i]),
        NameCoding::Unknown => text.len() == 0,
    }
}

/// A name record in the form in which it is written.
#[verifier::external_type_specification]
#[verifier::external_body]
pub struct ExStoredName(StoredName);

/// What a name record holds that is ready to be written.
pub uninterp spec fn stored_name(n: StoredName) -> NameView;

pub open spec fn stored_names(names: Seq<StoredName>) -> Seq<NameView> {
    names.map_values(|n: StoredName| stored_name(n))
}

/// Takes the ID of a `write_fonts::tables::name::NameRecord`.
#[verifier::external_body]
fn id_of(name: &StoredName) -> (id: u16)
    ensures
        id == stored_name(*name).name_id,
{
    name.name_id.to_u16()
}

/// Calls `read_fonts::tables::name::Name::read` and converts with `ToOwnedTable`. The records
/// are those of the table; one whose text is not there gets an empty one, and each text is
/// one that its coding can hold, as it was decoded from it.
#[verifier::external_body]
fn read_stored(bytes: &[u8]) -> (r: Option<Vec<StoredName>>)
    ensures
        match r {
            Some(names) => {
                &&& names_of(bytes@) matches Some(records) && stored_names(names@) == filled_names(
                    records,
                )
                &&& forall|i: int|
                    0 <= i < names@.len() ==> is_coded(#[trigger] stored_names(names@)[i])
            },
            None => names_of(bytes@) is None,
        },
{
    let name: Name = ReadName::read(FontData::new(bytes)).ok()?.to_owned_table();
    Some(name.name_record)
}

/// The `name` table `old` with other records, or why it cannot be written.
pub uninterp spec fn names_rewritten(old: Seq<u8>, records: Seq<NameView>) -> Result<
    Seq<u8>,
    Seq<char>,
>;

/// Converts with `ToOwnedTable`, sets the records of a `write_fonts::tables::name::Name`, and
/// calls `write_fonts::dump_table`. The result has a name; what is written reads back as the
/// records.
#[verifier::external_body]
fn write_stored(old: &[u8], names: Vec<StoredName>) -> (r: Result<Vec<u8>, String>)
    requires
        records_fit(old@, names@.len() as int),
        forall|i: int| 0 <= i < names@.len() ==> is_coded(#[trigger] stored_names(names@)[i]),
    ensures
        match r {
            Ok(bytes) => names_rewritten(old@, stored_names(names@)) == Ok::<Seq<u8>, Seq<char>>(
                bytes@,
            ) && names_of(bytes@) == Some(stored_names(names@)),
            Err(text) => names_rewritten(old@, stored_names(names@)) == Err::<Seq<u8>, Seq<char>>(
                text@,
            ),
        },
{
    let read = ReadName::read(FontData::new(old)).map_err(|e| e.to_string())?;
    let mut name: Name = read.to_owned_table();
    name.name_record = names;
    dump_table(&name).map_err(|e| e.to_string())
}

/// Drop the records whose IDs are dead.
fn keep_names(names: Vec<StoredName>, dead: &[u16]) -> (r: Vec<StoredName>)
    ensures
        stored_names(r@) == without_ids(stored_names(names@), dead@),
{
    let ghost all = stored_names(names@);
    let ghost keep = |r: NameView| !dead@.contains(r.name_id);
    let mut names: Vec<StoredName> = names;
    let mut i: usize = 0;
    let count: usize = names.len();
    assert(all.take(0).filter(keep) =~= Seq::<NameView>::empty()) by {
        reveal(Seq::filter);
    }
    assert(stored_names(names@) =~= all.take(0).filter(keep) + all.skip(0));
    for k in 0..count
        invariant
            count == all.len(),
            keep == (|r: NameView| !dead@.contains(r.name_id)),
            i == all.take(k as int).filter(keep).len(),
            stored_names(names@) == all.take(k as int).filter(keep) + all.skip(k as int),
    {
        let ghost front = all.take(k as int).filter(keep);
        let ghost now = stored_names(names@);
        assert(now.len() == names@.len());
        assert(now[i as int] == all[k as int]);
        assert(stored_name(names@[i as int]) == all[k as int]);
        assert(all.take(k + 1).drop_last() =~= all.take(k as int));
        reveal(Seq::filter);
        if is_listed(dead, id_of(&names[i])) {
            names.remove(i);
            assert(stored_names(names@) =~= now.remove(i as int));
            assert(now.remove(i as int) =~= front + all.skip(k + 1));
        } else {
            i = i + 1;
            assert(now =~= front.push(all[k as int]) + all.skip(k + 1));
        }
    }
    assert(all.take(all.len() as int) =~= all);
    assert(stored_names(names@) =~= without_ids(all, dead@));
    names
}

proof fn lemma_filled_kept(records: Seq<NameView>, ids: Seq<u16>)
    ensures
        without_ids(filled_names(records), ids) == filled_names(without_ids(records, ids)),
    decreases records.len(),
{
    reveal(Seq::filter);
    if records.len() == 0 {
        assert(without_ids(filled_names(records), ids) =~= filled_names(
            without_ids(records, ids),
        ));
    } else {
        let front = records.drop_last();
        lemma_filled_kept(front, ids);
        assert(filled_names(records).drop_last() =~= filled_names(front));
        assert(filled_names(records).last() == filled(records.last()));
        assert(without_ids(filled_names(records), ids) =~= filled_names(
            without_ids(records, ids),
        ));
    }
}

/// What tells a name record from the others: its platform, encoding, language and ID.
pub open spec fn name_key(r: NameView) -> (u16, u16, u16, u16) {
    (r.platform, r.encoding, r.language, r.name_id)
}

pub open spec fn name_keys(records: Seq<NameView>) -> Seq<(u16, u16, u16, u16)> {
    records.map_values(|r: NameView| name_key(r))
}

proof fn lemma_filled_names(records: Seq<NameView>, ids: Seq<u16>)
    ensures
        name_keys(filled_names(records)) == name_keys(records),
        all_have_text(records) ==> filled_names(without_ids(records, ids)) == without_ids(
            records,
            ids,
        ),
{
    assert(name_keys(filled_names(records)) =~= name_keys(records));
    if all_have_text(records) {
        let kept = without_ids(records, ids);
        let keep = |r: NameView| !ids.contains(r.name_id);
        assert forall|i: int| 0 <= i < kept.len() implies filled(#[trigger] kept[i]) == kept[i] by {
            records.lemma_filter_contains_rev(keep, kept[i]);
            let k = choose|k: int| 0 <= k < records.len() && records[k] == kept[i];
            assert(records[k].text is Some);
        }
        assert(filled_names(kept) =~= kept);
    }
}

// ------------------------------------------------------------------------- finalizing

/// What finalizing needs to know that it cannot work out from the bytes alone.
pub struct Finalize {
    /// `OS/2.usWeightClass` at the location, if the font has a weight axis.
    pub weight_class: Option<u16>,
    /// `OS/2.usWidthClass` at the location, if the font has a width axis.
    pub width_class: Option<u16>,
    /// `post.italicAngle` at the location, in units of 1/65536, if the font has a slant
    /// axis.
    pub italic_angle: Option<i32>,
    /// nameIDs the *input* font's `fvar` and `STAT` referred to.
    ///
    /// Anything in here that the output no longer refers to is dead weight and is dropped.
    pub variation_name_ids_before: Vec<u16>,
}

/// What a [`Finalize`] holds.
#[verifier::ext_equal]
pub struct FinalizeView {
    pub weight_class: Option<u16>,
    pub width_class: Option<u16>,
    pub italic_angle: Option<i32>,
    pub variation_name_ids_before: Seq<u16>,
}

impl View for Finalize {
    type V = FinalizeView;

    open spec fn view(&self) -> FinalizeView {
        FinalizeView {
            weight_class: self.weight_class,
            width_class: self.width_class,
            italic_angle: self.italic_angle,
            variation_name_ids_before: self.variation_name_ids_before@,
        }
    }
}

/// The value at which a location stands on an axis.
pub open spec fn location_value(location: Seq<(Seq<char>, Coord)>, tag: Seq<char>) -> Option<Coord>
    decreases location.len(),
{
    if location.len() == 0 {
        None
    } else if location[0].0 == tag {
        Some(location[0].1)
    } else {
        location_value(location.skip(1), tag)
    }
}

pub open spec fn location_view(location: Seq<(String, Coord)>) -> Seq<(Seq<char>, Coord)> {
    location.map_values(|l: (String, Coord)| (l.0@, l.1))
}

/// The value at which a location stands on an axis.
pub fn axis_value(location: &Vec<(String, Coord)>, tag: &str) -> (r: Option<Coord>)
    ensures
        r == location_value(location_view(location@), tag@),
{
    let ghost view = location_view(location@);
    let wanted: Vec<char> = crate::text::chars_of(tag);
    assert(view.skip(0) =~= view);
    for i in 0..location.len()
        invariant
            view == location_view(location@),
            wanted@ == tag@,
            location_value(view, tag@) == location_value(view.skip(i as int), tag@),
    {
        assert(view.skip(i as int)[0] == (location@[i as int].0@, location@[i as int].1));
        assert(view.skip(i as int).skip(1) =~= view.skip(i + 1));
        if crate::text::chars_are(wanted.as_slice(), location[i].0.as_str()) {
            return Some(location[i].1);
        }
    }
    None
}

pub open spec fn maxp_fields(s: GlyfStats) -> MaxpFields {
    MaxpFields {
        max_points: s.max_points,
        max_contours: s.max_contours,
        max_composite_points: s.max_composite_points,
        max_composite_contours: s.max_composite_contours,
        max_component_elements: s.max_component_elements,
        max_component_depth: s.max_component_depth,
    }
}

/// The `maxp` table of the measured font. The version without outline fields carries
/// nothing but the glyph count.
pub open spec fn measured_maxp(old: Seq<u8>, s: GlyfStats) -> Result<TableView, Problem> {
    if has_max_points(old) {
        built_table(MAXP, maxp_written(old, maxp_fields(s)))
    } else {
        Ok(TableView { tag: MAXP, bytes: seq![0u8, 0, 0x50, 0] + old.subrange(4, 6) })
    }
}

/// The `head` fields of the measured font. Bit 1 of the flags says that every glyph's left
/// side bearing equals its xMin, which lets a rasteriser assume the outline starts at the
/// origin.
pub open spec fn measured_head(f: HeadFields, s: GlyfStats) -> HeadFields {
    let boxed = if s.any_contours {
        HeadFields { x_min: s.x_min, y_min: s.y_min, x_max: s.x_max, y_max: s.y_max, ..f }
    } else {
        f
    };
    HeadFields {
        flags: if s.all_lsb_equals_x_min {
            f.flags | 2
        } else {
            f.flags & 0xfffd
        },
        ..boxed
    }
}

/// The `hhea` fields of the measured font.
pub open spec fn measured_hhea(f: HheaFields, s: GlyfStats) -> HheaFields {
    HheaFields {
        advance_width_max: s.advance_width_max,
        min_left_side_bearing: s.min_lsb,
        min_right_side_bearing: s.min_rsb,
        x_max_extent: s.x_max_extent,
        ..f
    }
}

/// The tables that are recalculated from the outlines; none where there are none.
#[verifier::opaque]
pub open spec fn measured_tables(font: Seq<TableView>, stats: Option<GlyfStats>) -> Result<
    Seq<TableView>,
    Problem,
> {
    match stats {
        None => Ok(Seq::empty()),
        Some(s) => match needed_table(font, MAXP) {
            Err(e) => Err(e),
            Ok(maxp) => match measured_maxp(maxp, s) {
                Err(e) => Err(e),
                Ok(first) => match (needed_table(font, HEAD), needed_table(font, HHEA)) {
                    (Ok(head), Ok(hhea)) => match (head_fields(head), hhea_fields(hhea)) {
                        (Some(h), Some(f)) => Ok(
                            seq![
                                first,
                                TableView {
                                    tag: HEAD,
                                    bytes: head_bytes(head, measured_head(h, s)),
                                },
                                TableView { tag: HHEA, bytes: hhea_bytes(measured_hhea(f, s)) },
                            ],
                        ),
                        _ => Err(out_of_bounds()),
                    },
                    (Err(e), _) => Err(e),
                    (_, Err(e)) => Err(e),
                },
            },
        },
    }
}

/// The `OS/2` fields at a location.
pub open spec fn located_os2(f: Os2Fields, stats: Option<GlyfStats>, o: FinalizeView) -> Os2Fields {
    Os2Fields {
        x_avg_char_width: match stats {
            Some(s) => wrap16(average_width(s)),
            None => f.x_avg_char_width,
        },
        us_weight_class: match o.weight_class {
            Some(v) => v,
            None => f.us_weight_class,
        },
        us_width_class: match o.width_class {
            Some(v) => v,
            None => f.us_width_class,
        },
        ..f
    }
}

/// The `OS/2` table at a location, if the font has one that can be read.
#[verifier::opaque]
pub open spec fn located_os2_table(
    font: Seq<TableView>,
    stats: Option<GlyfStats>,
    o: FinalizeView,
) -> Option<Result<TableView, Problem>> {
    match table_bytes(font, OS2) {
        Some(old) => match os2_fields(old) {
            Some(f) => Some(built_table(OS2, os2_written(old, located_os2(f, stats, o)))),
            None => None,
        },
        None => None,
    }
}

/// The `post` table at a location. It is only rewritten when there is something to change;
/// a table left alone is copied through verbatim.
#[verifier::opaque]
pub open spec fn located_post_table(font: Seq<TableView>, o: FinalizeView) -> Option<
    Result<TableView, Problem>,
> {
    match (o.italic_angle, table_bytes(font, POST)) {
        (Some(angle), Some(old)) => match post_fields(old) {
            Some(f) => Some(
                built_table(POST, post_rewritten(old, PostFields { italic_angle: angle, ..f })),
            ),
            None => None,
        },
        _ => None,
    }
}

/// The `name` table without the records that only existed to name what is gone. A name
/// that was never referred to as a variation's is not touched.
#[verifier::opaque]
pub open spec fn pruned_name_table(font: Seq<TableView>, before: Seq<u16>) -> Option<
    Result<TableView, Problem>,
> {
    let dead = dead_ids(before, variation_ids(font));
    if dead.len() == 0 {
        None
    } else {
        match table_bytes(font, NAME) {
            Some(old) => match names_of(old) {
                Some(records) => {
                    let kept = without_ids(filled_names(records), dead);
                    if records_fit(old, kept.len() as int) {
                        Some(built_table(NAME, names_rewritten(old, kept)))
                    } else {
                        Some(Err(Problem::Write("the name table is too large"@)))
                    }
                },
                None => None,
            },
            None => None,
        }
    }
}

/// A table that may have been built.
pub open spec fn built_or_none(t: Option<Result<TableView, Problem>>) -> Seq<TableView> {
    match t {
        Some(Ok(table)) => seq![table],
        _ => Seq::empty(),
    }
}

/// The tables of a finalized font. A digital signature is dropped: it signs bytes that no
/// longer exist.
pub open spec fn finalized_tables(font: Seq<TableView>, o: FinalizeView) -> Result<
    Seq<TableView>,
    Problem,
> {
    let stats = glyf_stats(font);
    match measured_tables(font, stats) {
        Err(e) => Err(e),
        Ok(measured) => match located_os2_table(font, stats, o) {
            Some(Err(e)) => Err(e),
            os2 => match located_post_table(font, o) {
                Some(Err(e)) => Err(e),
                post => match pruned_name_table(font, o.variation_name_ids_before) {
                    Some(Err(e)) => Err(e),
                    name => Ok(
                        with_remaining(
                            measured + built_or_none(os2) + built_or_none(post) + built_or_none(
                                name,
                            ),
                            font,
                            seq![DSIG],
                        ),
                    ),
                },
            },
        },
    }
}

fn build_maxp(old: &Vec<u8>, s: GlyfStats) -> (r: Result<FontTable, SliceError>)
    requires
        old@.len() >= 6,
    ensures
        match r {
            Ok(t) => {
                &&& measured_maxp(old@, s) == Ok::<TableView, Problem>(t@)
                &&& t.tag == MAXP
                &&& glyphs_of(t.bytes@) == glyphs_of(old@)
            },
            Err(e) => measured_maxp(old@, s) == Err::<TableView, Problem>(e@),
        },
{
    if read_max_points(old.as_slice()) {
        let f: MaxpFields = MaxpFields {
            max_points: s.max_points,
            max_contours: s.max_contours,
            max_composite_points: s.max_composite_points,
            max_composite_contours: s.max_composite_contours,
            max_component_elements: s.max_component_elements,
            max_component_depth: s.max_component_depth,
        };
        finish_table(MAXP, write_maxp(old.as_slice(), f))
    } else {
        let mut bytes: Vec<u8> = Vec::new();
        bytes.push(0);
        bytes.push(0);
        bytes.push(0x50);
        bytes.push(0);
        bytes.push(old[4]);
        bytes.push(old[5]);
        assert(bytes@ =~= seq![0u8, 0, 0x50, 0] + old@.subrange(4, 6));
        assert(bytes@[4] == old@[4] && bytes@[5] == old@[5]);
        Ok(FontTable { tag: MAXP, bytes })
    }
}

fn build_measured(font: &Vec<FontTable>, stats: Option<GlyfStats>) -> (r: Result<
    Vec<FontTable>,
    SliceError,
>)
    requires
        stats == glyf_stats(table_views(font@)),
    ensures
        match r {
            Ok(out) => {
                &&& measured_tables(table_views(font@), stats) == Ok::<Seq<TableView>, Problem>(
                    table_views(out@),
                )
                &&& distinct_tags(table_views(out@))
                &&& forall|i: int|
                    0 <= i < out@.len() ==> (#[trigger] out@[i]).tag == MAXP || out@[i].tag == HEAD
                        || out@[i].tag == HHEA
                &&& out@.len() > 0 ==> {
                    &&& out@[0].tag == MAXP
                    &&& table_bytes(table_views(font@), MAXP) matches Some(old) && glyphs_of(
                        out@[0].bytes@,
                    ) == glyphs_of(old)
                }
            },
            Err(e) => measured_tables(table_views(font@), stats) == Err::<
                Seq<TableView>,
                Problem,
            >(e@),
        },
{
    reveal(measured_tables);
    let mut out: Vec<FontTable> = Vec::new();
    let s: GlyfStats = match stats {
        Some(s) => s,
        None => {
            assert(table_views(out@) =~= Seq::<TableView>::empty());
            return Ok(out);
        },
    };
    let maxp: &Vec<u8> = match need_table(font, MAXP) {
        Ok(t) => t,
        Err(e) => {
            return Err(e);
        },
    };
    let first: FontTable = match build_maxp(maxp, s) {
        Ok(t) => t,
        Err(e) => {
            return Err(e);
        },
    };
    let head: &Vec<u8> = match need_table(font, HEAD) {
        Ok(t) => t,
        Err(e) => {
            return Err(e);
        },
    };
    let hhea: &Vec<u8> = match need_table(font, HHEA) {
        Ok(t) => t,
        Err(e) => {
            return Err(e);
        },
    };
    let (h, f): (HeadFields, HheaFields) = match (
        read_head(head.as_slice()),
        read_hhea(hhea.as_slice()),
    ) {
        (Some(h), Some(f)) => (h, f),
        _ => {
            return Err(bounds_error());
        },
    };
    let mut new_head: HeadFields = h;
    if s.any_contours {
        new_head.x_min = s.x_min;
        new_head.y_min = s.y_min;
        new_head.x_max = s.x_max;
        new_head.y_max = s.y_max;
    }
    new_head.flags = if s.all_lsb_equals_x_min {
        h.flags | 2
    } else {
        h.flags & 0xfffd
    };
    assert(new_head == measured_head(h, s));
    let head_table: FontTable = match finish_table(HEAD, write_head(head.as_slice(), new_head)) {
        Ok(t) => t,
        Err(e) => {
            return Err(e);
        },
    };
    let new_hhea: HheaFields = HheaFields {
        advance_width_max: s.advance_width_max,
        min_left_side_bearing: s.min_lsb,
        min_right_side_bearing: s.min_rsb,
        x_max_extent: s.x_max_extent,
        ..f
    };
    let hhea_table: FontTable = match finish_table(HHEA, write_hhea(new_hhea)) {
        Ok(t) => t,
        Err(e) => {
            return Err(e);
        },
    };
    let ghost wanted = seq![first@, head_table@, hhea_table@];
    out.push(first);
    out.push(head_table);
    out.push(hhea_table);
    assert(table_views(out@) =~= wanted);
    Ok(out)
}

fn build_located_os2(font: &Vec<FontTable>, stats: Option<GlyfStats>, o: &Finalize) -> (r: Option<
    Result<FontTable, SliceError>,
>)
    requires
        stats matches Some(s) ==> s.advance_count <= 0xffff && s.advance_total <= 0xffff
            * s.advance_count,
    ensures
        match r {
            Some(Ok(t)) => {
                &&& located_os2_table(table_views(font@), stats, o@) == Some(
                    Ok::<TableView, Problem>(t@),
                )
                &&& t.tag == OS2
                &&& os2_fields(t.bytes@) matches Some(f) && f.fs_selection == flags_in(
                    table_views(font@),
                ).fs_selection
            },
            Some(Err(e)) => located_os2_table(table_views(font@), stats, o@) == Some(
                Err::<TableView, Problem>(e@),
            ),
            None => located_os2_table(table_views(font@), stats, o@) is None && flags_in(
                table_views(font@),
            ).fs_selection == 0,
        },
{
    reveal(located_os2_table);
    let old: &Vec<u8> = match find_table(font, OS2) {
        Some(old) => old,
        None => {
            return None;
        },
    };
    let f: Os2Fields = match read_os2(old.as_slice()) {
        Some(f) => f,
        None => {
            return None;
        },
    };
    let new: Os2Fields = Os2Fields {
        x_avg_char_width: match stats {
            Some(s) => avg_char_width(s),
            None => f.x_avg_char_width,
        },
        us_weight_class: match o.weight_class {
            Some(v) => v,
            None => f.us_weight_class,
        },
        us_width_class: match o.width_class {
            Some(v) => v,
            None => f.us_width_class,
        },
        ..f
    };
    assert(new == located_os2(f, stats, o@));
    proof {
        let raw = u16_at(old@, 62) as u16;
        assert((raw & 0x3ffu16) & 0x3ffu16 == raw & 0x3ffu16) by (bit_vector);
    }
    Some(finish_table(OS2, write_os2(old.as_slice(), new)))
}

fn build_located_post(font: &Vec<FontTable>, o: &Finalize) -> (r: Option<
    Result<FontTable, SliceError>,
>)
    ensures
        match r {
            Some(Ok(t)) => located_post_table(table_views(font@), o@) == Some(
                Ok::<TableView, Problem>(t@),
            ) && t.tag == POST,
            Some(Err(e)) => located_post_table(table_views(font@), o@) == Some(
                Err::<TableView, Problem>(e@),
            ),
            None => located_post_table(table_views(font@), o@) is None,
        },
{
    reveal(located_post_table);
    let angle: i32 = match o.italic_angle {
        Some(angle) => angle,
        None => {
            return None;
        },
    };
    let old: &Vec<u8> = match find_table(font, POST) {
        Some(old) => old,
        None => {
            return None;
        },
    };
    match read_post(old.as_slice()) {
        Some(f) => Some(
            finish_table(
                POST,
                rewrite_post(old.as_slice(), PostFields { italic_angle: angle, ..f }),
            ),
        ),
        None => None,
    }
}

fn count_language_tags(bytes: &Vec<u8>) -> (n: u16)
    requires
        bytes@.len() >= 6,
    ensures
        n == language_tags(bytes@),
{
    let end: usize = 6 + 12 * field_u16(bytes.as_slice(), 2) as usize;
    if bytes.len() >= end + 2 && field_u16(bytes.as_slice(), 0) >= 1 {
        let count: u16 = field_u16(bytes.as_slice(), end);
        if bytes.len() >= end + 2 + 4 * count as usize {
            return count;
        }
    }
    0
}

fn do_records_fit(bytes: &Vec<u8>, count: usize) -> (ok: bool)
    ensures
        ok == records_fit(bytes@, count as int),
{
    let tags: u16 = if bytes.len() >= 6 {
        count_language_tags(bytes)
    } else {
        0
    };
    count <= 0xffff && 6 + 12 * count + 4 * tags as usize <= 0xffff
}

/// The name records that are left when the dead ones are dropped.
pub open spec fn left_names(font: Seq<TableView>, before: Seq<u16>) -> Seq<NameView> {
    without_ids(font_names(font), dead_ids(before, variation_ids(font)))
}

proof fn lemma_nothing_dead(records: Seq<NameView>, ids: Seq<u16>)
    requires
        ids.len() == 0 || records.len() == 0,
    ensures
        without_ids(records, ids) == records,
    decreases records.len(),
{
    reveal(Seq::filter);
    if records.len() > 0 {
        lemma_nothing_dead(records.drop_last(), ids);
        assert(!ids.contains(records.last().name_id));
        assert(records.drop_last().push(records.last()) =~= records);
    }
}

proof fn lemma_measured_head(font: Seq<TableView>, stats: Option<GlyfStats>)
    requires
        measured_tables(font, stats) is Ok,
    ensures
        ({
            let measured = measured_tables(font, stats)->Ok_0;
            &&& table_bytes(measured, OS2) is None
            &&& table_bytes(measured, NAME) is None
            &&& match table_bytes(measured, HEAD) {
                Some(bytes) => head_fields(bytes) matches Some(f) && f.mac_style == flags_in(
                    font,
                ).mac_style,
                None => true,
            }
        }),
{
    reveal(measured_tables);
    let measured = measured_tables(font, stats)->Ok_0;
    reveal_with_fuel(table_bytes, 4);
    match stats {
        Some(s) => {
            let old = table_bytes(font, HEAD)->0;
            let f = head_fields(old)->0;
            lemma_mac_style_written(old, measured_head(f, s));
            let raw = u16_at(old, 44) as u16;
            assert((raw & 0x7fu16) & 0x7fu16 == raw & 0x7fu16) by (bit_vector);
            assert(measured.skip(1)[0] == measured[1]);
            assert(measured.skip(1).skip(1)[0] == measured[2]);
            assert(measured.skip(1).skip(1).skip(1).len() == 0);
        },
        None => {},
    }
}

/// What the font shows after it was finalized.
proof fn lemma_finalized_shows(font: Seq<TableView>, first: Seq<TableView>, read: Seq<TableView>)
    requires
        distinct_tags(first),
        match table_bytes(first, OS2) {
            Some(bytes) => os2_fields(bytes) matches Some(f) && f.fs_selection == flags_in(
                font,
            ).fs_selection,
            None => flags_in(font).fs_selection == 0,
        },
        match table_bytes(first, HEAD) {
            Some(bytes) => head_fields(bytes) matches Some(f) && f.mac_style == flags_in(
                font,
            ).mac_style,
            None => true,
        },
        reads_as(read, with_remaining(first, font, seq![DSIG])),
    ensures
        flags_in(read) == flags_in(font),
        match table_bytes(first, NAME) {
            Some(bytes) => table_bytes(read, NAME) == Some(bytes),
            None => table_bytes(read, NAME) == table_bytes(font, NAME),
        },
{
    let skip = seq![DSIG];
    let all = with_remaining(first, font, skip);
    lemma_remaining_distinct(first, font, skip);
    a_tag_is_found_where_it_is(first, OS2);
    a_tag_is_found_where_it_is(first, HEAD);
    a_tag_is_found_where_it_is(first, NAME);
    assert(!skip.contains(OS2) && !skip.contains(HEAD) && !skip.contains(NAME));
    remaining_tables_are_carried_over(first, font, skip, OS2);
    remaining_tables_are_carried_over(first, font, skip, HEAD);
    remaining_tables_are_carried_over(first, font, skip, NAME);
    lemma_reads_under_tag(read, all, OS2);
    lemma_reads_under_tag(read, all, HEAD);
    lemma_reads_under_tag(read, all, NAME);
    match table_bytes(all, HEAD) {
        Some(bytes) => {
            let got = table_bytes(read, HEAD)->0;
            if bytes.len() >= 54 {
                assert(bytes[44] == got[44] && bytes[45] == got[45]);
            }
        },
        None => {},
    }
}

fn build_pruned(font: &Vec<FontTable>, before: &Vec<u16>) -> (r: Option<
    Result<FontTable, SliceError>,
>)
    ensures
        match r {
            Some(Ok(t)) => {
                &&& pruned_name_table(table_views(font@), before@) == Some(
                    Ok::<TableView, Problem>(t@),
                )
                &&& t.tag == NAME
                &&& names_of(t.bytes@) == Some(
                    filled_names(left_names(table_views(font@), before@)),
                )
            },
            Some(Err(e)) => pruned_name_table(table_views(font@), before@) == Some(
                Err::<TableView, Problem>(e@),
            ),
            None => pruned_name_table(table_views(font@), before@) is None && left_names(
                table_views(font@),
                before@,
            ) == font_names(table_views(font@)),
        },
{
    reveal(pruned_name_table);
    let dead: Vec<u16> = find_dead(before, &variation_name_ids(font));
    proof {
        if dead@.len() == 0 || font_names(table_views(font@)).len() == 0 {
            lemma_nothing_dead(font_names(table_views(font@)), dead@);
        }
    }
    if dead.len() == 0 {
        return None;
    }
    let old: &Vec<u8> = match find_table(font, NAME) {
        Some(old) => old,
        None => {
            return None;
        },
    };
    let stored: Vec<StoredName> = match read_stored(old.as_slice()) {
        Some(stored) => stored,
        None => {
            return None;
        },
    };
    let ghost all = stored_names(stored@);
    let kept: Vec<StoredName> = keep_names(stored, dead.as_slice());
    proof {
        let records = font_names(table_views(font@));
        lemma_filled_kept(records, dead@);
        let keep = |r: NameView| !dead@.contains(r.name_id);
        let left = stored_names(kept@);
        assert(left.len() == kept@.len());
        assert forall|i: int| 0 <= i < kept@.len() implies is_coded(#[trigger] left[i]) by {
            all.lemma_filter_contains_rev(keep, left[i]);
            let k = choose|k: int| 0 <= k < all.len() && all[k] == left[i];
            assert(is_coded(all[k]));
        }
    }
    if do_records_fit(old, kept.len()) {
        Some(finish_table(NAME, write_stored(old.as_slice(), kept)))
    } else {
        Some(Err(write_error("the name table is too large")))
    }
}

/// Recalculate everything that depends on the final outlines, and drop what is now dead.
///
/// The flags that the Bit Flag Editor shows stay as they are. The name records that are left
/// are those that are not dead; where the table does not hold the text of one, it is left with
/// an empty text or none.
pub fn finalize(bytes: &[u8], options: &Finalize) -> (r: Result<Vec<u8>, SliceError>)
    ensures
        match r {
            Ok(out) => {
                &&& apply_step(
                    bytes@,
                    |font: Seq<TableView>| finalized_tables(font, options@),
                ) == Ok::<Seq<u8>, Problem>(out@)
                &&& flags_in(tables_in(out@)) == flags_in(tables_in(bytes@))
                &&& frame_in(out@) == frame_in(bytes@)
                &&& loaded(out@) == Ok::<Seq<u8>, Problem>(out@)
                &&& opens_as_listed(out@)
                &&& name_keys(font_names(tables_in(out@))) == name_keys(
                    left_names(tables_in(bytes@), options@.variation_name_ids_before),
                )
                &&& all_have_text(font_names(tables_in(bytes@))) ==> font_names(tables_in(out@))
                    == left_names(tables_in(bytes@), options@.variation_name_ids_before)
            },
            Err(e) => apply_step(
                bytes@,
                |font: Seq<TableView>| finalized_tables(font, options@),
            ) == Err::<Seq<u8>, Problem>(e@),
        },
{
    let font: Vec<FontTable> = match read_tables(bytes) {
        Ok(font) => font,
        Err(e) => {
            return Err(e);
        },
    };
    let ghost view = table_views(font@);
    let stats: Option<GlyfStats> = collect_glyf_stats(&font);
    let mut out: Vec<FontTable> = match build_measured(&font, stats) {
        Ok(out) => out,
        Err(e) => {
            return Err(e);
        },
    };
    let ghost measured = table_views(out@);
    proof {
        assert(measured.len() == out@.len());
        if measured.len() > 0 {
            assert(measured[0] == out@[0]@);
        }
        lemma_measured_head(view, stats);
    }
    match build_located_os2(&font, stats, options) {
        Some(Ok(t)) => push_table(&mut out, t),
        Some(Err(e)) => {
            return Err(e);
        },
        None => {},
    }
    let ghost os2 = built_or_none(located_os2_table(view, stats, options@));
    assert(table_views(out@) =~= measured + os2);
    proof {
        if os2.len() == 1 {
            lemma_table_at_end(measured, os2[0], OS2);
            lemma_table_at_end(measured, os2[0], HEAD);
            lemma_table_at_end(measured, os2[0], NAME);
        }
    }
    match build_located_post(&font, options) {
        Some(Ok(t)) => push_table(&mut out, t),
        Some(Err(e)) => {
            return Err(e);
        },
        None => {},
    }
    let ghost post = built_or_none(located_post_table(view, options@));
    assert(table_views(out@) =~= measured + os2 + post);
    proof {
        if post.len() == 1 {
            lemma_table_at_end(measured + os2, post[0], OS2);
            lemma_table_at_end(measured + os2, post[0], HEAD);
            lemma_table_at_end(measured + os2, post[0], NAME);
        }
    }
    match build_pruned(&font, &options.variation_name_ids_before) {
        Some(Ok(t)) => push_table(&mut out, t),
        Some(Err(e)) => {
            return Err(e);
        },
        None => {},
    }
    let ghost name = built_or_none(
        pruned_name_table(view, options@.variation_name_ids_before),
    );
    assert(table_views(out@) =~= measured + os2 + post + name);
    let ghost first = table_views(out@);
    proof {
        if name.len() == 1 {
            lemma_table_at_end(measured + os2 + post, name[0], OS2);
            lemma_table_at_end(measured + os2 + post, name[0], HEAD);
            lemma_table_at_end(measured + os2 + post, name[0], NAME);
        }
    }
    let skip: [u32; 1] = [DSIG];
    copy_remaining_tables(&mut out, &font, &skip);
    assert(skip@ =~= seq![DSIG]);
    match assemble(&out) {
        Ok(file) => {
            proof {
                lemma_finalized_shows(view, first, tables_in(file@));
                lemma_measured_tags(view, stats);
                lemma_located_tags(view, stats, options@);
                assert(!has_tag(first, FVAR));
                lemma_carried(tables_in(file@), first, view, seq![DSIG], FVAR);
                let read = tables_in(file@);
                let all = with_remaining(first, view, seq![DSIG]);
                if measured.len() > 0 {
                    assert(first[0] == measured[0]);
                    assert(has_tag(first, MAXP));
                    lemma_found_by_tag(first, 0);
                    lemma_remaining_distinct(first, view, seq![DSIG]);
                    remaining_tables_are_carried_over(first, view, seq![DSIG], MAXP);
                    lemma_reads_under_tag(read, all, MAXP);
                } else {
                    assert(!has_tag(first, MAXP));
                    lemma_carried(read, first, view, seq![DSIG], MAXP);
                }
                lemma_plain_sfnt(file@);
                let before = options@.variation_name_ids_before;
                let dead = dead_ids(before, variation_ids(view));
                lemma_filled_names(left_names(view, before), dead);
                lemma_filled_names(font_names(view), dead);
            }
            Ok(file)
        },
        Err(e) => Err(e),
    }
}

/// A name ID that is still referred to, or that the specification reserves, is not dead.
pub proof fn only_dead_names_are_pruned(
    before: Seq<TableView>,
    after: Seq<TableView>,
    id: u16,
)
    ensures
        dead_ids(variation_ids(before), variation_ids(after)).contains(id) ==> id > 255
            && variation_ids(before).contains(id) && !variation_ids(after).contains(id),
        variation_ids(before).contains(id) && !variation_ids(after).contains(id) ==> dead_ids(
            variation_ids(before),
            variation_ids(after),
        ).contains(id),
{
    let b = variation_ids(before);
    let a = variation_ids(after);
    let keep = |id: u16| !a.contains(id);
    let dead = dead_ids(b, a);
    assert(dead == b.filter(keep));
    if dead.contains(id) {
        let i = choose|i: int| 0 <= i < dead.len() && dead[i] == id;
        b.lemma_filter_pred(keep, i);
        b.lemma_filter_contains_rev(keep, id);
        let all = fvar_ids(before) + stat_ids(before);
        let free = |id: u16| is_free(id);
        assert(b == all.filter(free));
        let k = choose|k: int| 0 <= k < b.len() && b[k] == id;
        all.lemma_filter_pred(free, k);
    }
    if b.contains(id) && !a.contains(id) {
        let i = choose|i: int| 0 <= i < b.len() && b[i] == id;
        b.lemma_filter_contains(keep, i);
    }
}

#[verifier::spinoff_prover]
#[verifier::rlimit(60)]
proof fn lemma_measured_tags(font: Seq<TableView>, stats: Option<GlyfStats>)
    requires
        measured_tables(font, stats) is Ok,
    ensures
        ({
            let t = measured_tables(font, stats)->Ok_0;
            t.len() == 0 || (t.len() == 3 && t[0].tag == MAXP && t[1].tag == HEAD && t[2].tag
                == HHEA)
        }),
{
    reveal(measured_tables);
    if let Some(s) = stats {
        let first = measured_maxp(needed_table(font, MAXP)->Ok_0, s)->Ok_0;
        let head = needed_table(font, HEAD)->Ok_0;
        let second = TableView {
            tag: HEAD,
            bytes: head_bytes(head, measured_head(head_fields(head)->Some_0, s)),
        };
        let third = TableView {
            tag: HHEA,
            bytes: hhea_bytes(
                measured_hhea(hhea_fields(needed_table(font, HHEA)->Ok_0)->Some_0, s),
            ),
        };
        assert(measured_tables(font, stats) == Ok::<Seq<TableView>, Problem>(
            seq![first, second, third],
        ));
        assert(first.tag == MAXP);
    }
}

proof fn lemma_located_tags(font: Seq<TableView>, stats: Option<GlyfStats>, o: FinalizeView)
    ensures
        located_os2_table(font, stats, o) matches Some(Ok(t)) ==> t.tag == OS2,
        located_post_table(font, o) matches Some(Ok(t)) ==> t.tag == POST,
        pruned_name_table(font, o.variation_name_ids_before) matches Some(Ok(t)) ==> t.tag == NAME,
{
    reveal(located_os2_table);
    reveal(located_post_table);
    reveal(pruned_name_table);
}

/// A finalized font is not signed any more: its signature would not match its contents.
pub proof fn a_finalized_font_is_not_signed(font: Seq<TableView>, o: FinalizeView)
    requires
        finalized_tables(font, o) is Ok,
    ensures
        table_bytes(finalized_tables(font, o)->Ok_0, DSIG) is None,
{
    let stats = glyf_stats(font);
    lemma_measured_tags(font, stats);
    lemma_located_tags(font, stats, o);
    let measured = measured_tables(font, stats)->Ok_0;
    let os2 = built_or_none(located_os2_table(font, stats, o));
    let post = built_or_none(located_post_table(font, o));
    let name = built_or_none(pruned_name_table(font, o.variation_name_ids_before));
    let first = measured + os2 + post + name;
    assert(distinct_tags(first));
    assert(!has_tag(first, DSIG));
    assert(seq![DSIG][0] == DSIG);
    remaining_tables_are_carried_over(first, font, seq![DSIG], DSIG);
}

} // verus!
