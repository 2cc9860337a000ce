//! What the tables of a finished font say of its glyphs, its location and its names.
use vstd::math::{max, min};
use vstd::prelude::*;

use crate::fields::{HeadFields, HheaFields, Os2Fields};
use crate::finalize::{
    average_width, composite_totals, contour_number, dead_ids, fvar_ids, instance_ids, is_free,
    located_os2, maxp_fields, measured_head, measured_hhea, no_stats, point_count, reported,
    stat_ids, stats_upto, totals_upto, variation_ids, with_advance, without_ids, FinalizeView,
    GlyfStats,
};
use crate::font::{fvar_axes, fvar_instances, InstanceView, NameView};
use crate::glyphs::{
    advance_of, bearing_of, or_zero_i, or_zero_u, outline_of, Bounds, Component, GlyphTablesView,
    OutlineView, OutlinesView,
};
use crate::stat::{stat_head, stat_values};
use crate::tables::{table_bytes, TableView, FVAR, STAT};

verus! {

/// The box of a glyph that has an outline.
pub open spec fn box_of(t: GlyphTablesView, gid: int) -> Option<Bounds> {
    match outline_of(t.outlines, gid as u32) {
        Some(OutlineView::Simple(g)) => Some(g.bounds),
        Some(OutlineView::Composite(g)) => Some(g.bounds),
        _ => None,
    }
}

pub open spec fn advance(t: GlyphTablesView, gid: int) -> int {
    or_zero_u(advance_of(t.hmtx, t.h_count, gid as u32))
}

pub open spec fn bearing(t: GlyphTablesView, gid: int) -> int {
    or_zero_i(bearing_of(t.hmtx, t.h_count, gid as u32))
}

/// How far a glyph with an outline reaches from its origin.
pub open spec fn extent(t: GlyphTablesView, gid: int) -> int {
    bearing(t, gid) + box_of(t, gid)->0.x_max - box_of(t, gid)->0.x_min
}

/// `v` within what sixteen bits with a sign can hold.
pub open spec fn in_sixteen_bits(v: int) -> int {
    max(-0x8000, min(v, 0x7fff))
}

/// True when an extreme takes in the measure of glyph `k`, if that has an outline.
spec fn takes_in(
    t: GlyphTablesView,
    extreme: spec_fn(int) -> int,
    measure: spec_fn(int) -> int,
    least: bool,
    k: int,
) -> bool {
    extreme(k + 1) == if box_of(t, k) is Some {
        if least {
            min(extreme(k), measure(k))
        } else {
            max(extreme(k), measure(k))
        }
    } else {
        extreme(k)
    }
}

proof fn lemma_least(
    t: GlyphTablesView,
    n: int,
    extreme: spec_fn(int) -> int,
    measure: spec_fn(int) -> int,
)
    requires
        0 <= n,
        forall|k: int| 0 <= k < n ==> #[trigger] takes_in(t, extreme, measure, true, k),
        forall|g: int| 0 <= g < n && (#[trigger] box_of(t, g)) is Some ==> measure(g) <= extreme(0),
    ensures
        forall|g: int| 0 <= g < n && (#[trigger] box_of(t, g)) is Some ==> extreme(n) <= measure(g),
        extreme(n) == extreme(0) || exists|g: int|
            0 <= g < n && (#[trigger] box_of(t, g)) is Some && extreme(n) == measure(g),
    decreases n,
{
    if n > 0 {
        lemma_least(t, n - 1, extreme, measure);
        assert(takes_in(t, extreme, measure, true, n - 1));
        if extreme(n) != extreme(0) {
            if box_of(t, n - 1) is Some && extreme(n) == measure(n - 1) {
                assert(0 <= n - 1 < n && box_of(t, n - 1) is Some);
            } else {
                let g = choose|g: int|
                    0 <= g < n - 1 && (#[trigger] box_of(t, g)) is Some && extreme(n - 1) == measure(
                        g,
                    );
                assert(0 <= g < n && box_of(t, g) is Some && extreme(n) == measure(g));
            }
        }
    }
}

proof fn lemma_greatest(
    t: GlyphTablesView,
    n: int,
    extreme: spec_fn(int) -> int,
    measure: spec_fn(int) -> int,
)
    requires
        0 <= n,
        forall|k: int| 0 <= k < n ==> #[trigger] takes_in(t, extreme, measure, false, k),
        forall|g: int| 0 <= g < n && (#[trigger] box_of(t, g)) is Some ==> measure(g) >= extreme(0),
    ensures
        forall|g: int| 0 <= g < n && (#[trigger] box_of(t, g)) is Some ==> extreme(n) >= measure(g),
        extreme(n) == extreme(0) || exists|g: int|
            0 <= g < n && (#[trigger] box_of(t, g)) is Some && extreme(n) == measure(g),
    decreases n,
{
    if n > 0 {
        lemma_greatest(t, n - 1, extreme, measure);
        assert(takes_in(t, extreme, measure, false, n - 1));
        if extreme(n) != extreme(0) {
            if box_of(t, n - 1) is Some && extreme(n) == measure(n - 1) {
                assert(0 <= n - 1 < n && box_of(t, n - 1) is Some);
            } else {
                let g = choose|g: int|
                    0 <= g < n - 1 && (#[trigger] box_of(t, g)) is Some && extreme(n - 1) == measure(
                        g,
                    );
                assert(0 <= g < n && box_of(t, g) is Some && extreme(n) == measure(g));
            }
        }
    }
}

/// What one glyph adds to the extremes.
proof fn lemma_extremes_step(t: GlyphTablesView, k: int)
    requires
        0 <= k < 0xffff,
    ensures
        ({
            let a = stats_upto(t, k);
            let s = stats_upto(t, k + 1);
            if box_of(t, k) is Some {
                let b = box_of(t, k)->0;
                &&& s.any_contours
                &&& s.all_lsb_equals_x_min == (a.all_lsb_equals_x_min && bearing(t, k) == b.x_min)
                &&& s.x_min == min(a.x_min as int, b.x_min as int)
                &&& s.y_min == min(a.y_min as int, b.y_min as int)
                &&& s.x_max == max(a.x_max as int, b.x_max as int)
                &&& s.y_max == max(a.y_max as int, b.y_max as int)
                &&& s.min_lsb == min(a.min_lsb as int, bearing(t, k))
                &&& s.x_max_extent == max(a.x_max_extent as int, in_sixteen_bits(extent(t, k)))
                &&& s.min_rsb == min(
                    a.min_rsb as int,
                    in_sixteen_bits(advance(t, k) - extent(t, k)),
                )
            } else {
                &&& s.any_contours == a.any_contours
                &&& s.all_lsb_equals_x_min == a.all_lsb_equals_x_min
                &&& s.x_min == a.x_min && s.y_min == a.y_min && s.x_max == a.x_max && s.y_max
                    == a.y_max
                &&& s.min_lsb == a.min_lsb && s.x_max_extent == a.x_max_extent && s.min_rsb
                    == a.min_rsb
            }
        }),
{
    assert(k as u32 as int == k);
}

proof fn lemma_any_and_all(t: GlyphTablesView, n: int)
    requires
        0 <= n <= 0xffff,
    ensures
        stats_upto(t, n).any_contours <==> exists|g: int|
            0 <= g < n && (#[trigger] box_of(t, g)) is Some,
        stats_upto(t, n).all_lsb_equals_x_min <==> forall|g: int|
            0 <= g < n && (#[trigger] box_of(t, g)) is Some ==> bearing(t, g) == box_of(
                t,
                g,
            )->0.x_min,
    decreases n,
{
    if n > 0 {
        lemma_any_and_all(t, n - 1);
        lemma_extremes_step(t, n - 1);
        if box_of(t, n - 1) is Some {
            assert(0 <= n - 1 < n && box_of(t, n - 1) is Some);
        }
        if stats_upto(t, n - 1).any_contours {
            let g = choose|g: int| 0 <= g < n - 1 && (#[trigger] box_of(t, g)) is Some;
            assert(0 <= g < n && box_of(t, g) is Some);
        }
    }
}

/// The finished `head` and `hhea` hold the extremes over all glyphs that have an outline: the
/// box that encloses them, the least bearings, and the greatest extent; bit 1 of the flags is
/// set exactly where every bearing is the left edge of its glyph. Without any outline the box
/// stays as it was. Nothing else changes in these tables.
pub proof fn the_extremes_are_those_of_the_glyphs(
    t: GlyphTablesView,
    n: int,
    f: HeadFields,
    h: HheaFields,
)
    requires
        0 <= n <= 0xffff,
        exists|g: int| 0 <= g < n && (#[trigger] box_of(t, g)) is Some,
    ensures
        ({
            let s = reported(stats_upto(t, n));
            let head = measured_head(f, s);
            let hhea = measured_hhea(h, s);
            &&& is_least_of(t, n, head.x_min as int, |g: int| box_of(t, g)->0.x_min as int)
            &&& is_least_of(t, n, head.y_min as int, |g: int| box_of(t, g)->0.y_min as int)
            &&& is_greatest_of(t, n, head.x_max as int, |g: int| box_of(t, g)->0.x_max as int)
            &&& is_greatest_of(t, n, head.y_max as int, |g: int| box_of(t, g)->0.y_max as int)
            &&& is_least_of(t, n, hhea.min_left_side_bearing as int, |g: int| bearing(t, g))
            &&& is_least_of(
                t,
                n,
                hhea.min_right_side_bearing as int,
                |g: int| in_sixteen_bits(advance(t, g) - extent(t, g)),
            )
            &&& is_greatest_of(
                t,
                n,
                hhea.x_max_extent as int,
                |g: int| in_sixteen_bits(extent(t, g)),
            )
            &&& head.flags & 2 == 2 <==> forall|g: int|
                0 <= g < n && (#[trigger] box_of(t, g)) is Some ==> bearing(t, g) == box_of(
                    t,
                    g,
                )->0.x_min
            &&& head.flags | 2 == f.flags | 2
            &&& head == (HeadFields {
                x_min: head.x_min,
                y_min: head.y_min,
                x_max: head.x_max,
                y_max: head.y_max,
                flags: head.flags,
                ..f
            })
            &&& hhea == (HheaFields {
                advance_width_max: hhea.advance_width_max,
                min_left_side_bearing: hhea.min_left_side_bearing,
                min_right_side_bearing: hhea.min_right_side_bearing,
                x_max_extent: hhea.x_max_extent,
                ..h
            })
        }),
{
    let s = stats_upto(t, n);
    lemma_any_and_all(t, n);
    lemma_all_extremes(t, n);
    let some = choose|g: int| 0 <= g < n && (#[trigger] box_of(t, g)) is Some;
    assert(box_of(t, some) is Some);
    let flags = f.flags;
    assert((flags | 2u16) & 2u16 == 2u16) by (bit_vector);
    assert((flags & 0xfffdu16) & 2u16 == 0u16) by (bit_vector);
    assert((flags & 0xfffdu16) | 2u16 == flags | 2u16) by (bit_vector);
    assert((flags | 2u16) | 2u16 == flags | 2u16) by (bit_vector);
    assert(reported(s) == s);
}

proof fn lemma_all_extremes(t: GlyphTablesView, n: int)
    requires
        0 <= n <= 0xffff,
        exists|g: int| 0 <= g < n && (#[trigger] box_of(t, g)) is Some,
    ensures
        ({
            let s = stats_upto(t, n);
            &&& is_least_of(t, n, s.x_min as int, |g: int| box_of(t, g)->0.x_min as int)
            &&& is_least_of(t, n, s.y_min as int, |g: int| box_of(t, g)->0.y_min as int)
            &&& is_greatest_of(t, n, s.x_max as int, |g: int| box_of(t, g)->0.x_max as int)
            &&& is_greatest_of(t, n, s.y_max as int, |g: int| box_of(t, g)->0.y_max as int)
            &&& is_least_of(t, n, s.min_lsb as int, |g: int| bearing(t, g))
            &&& is_least_of(
                t,
                n,
                s.min_rsb as int,
                |g: int| in_sixteen_bits(advance(t, g) - extent(t, g)),
            )
            &&& is_greatest_of(t, n, s.x_max_extent as int, |g: int| in_sixteen_bits(extent(t, g)))
        }),
{
    let some = choose|g: int| 0 <= g < n && (#[trigger] box_of(t, g)) is Some;
    let x0 = |k: int| stats_upto(t, k).x_min as int;
    let y0 = |k: int| stats_upto(t, k).y_min as int;
    let x1 = |k: int| stats_upto(t, k).x_max as int;
    let y1 = |k: int| stats_upto(t, k).y_max as int;
    let l = |k: int| stats_upto(t, k).min_lsb as int;
    let r = |k: int| stats_upto(t, k).min_rsb as int;
    let e = |k: int| stats_upto(t, k).x_max_extent as int;
    let mx0 = |g: int| box_of(t, g)->0.x_min as int;
    let my0 = |g: int| box_of(t, g)->0.y_min as int;
    let mx1 = |g: int| box_of(t, g)->0.x_max as int;
    let my1 = |g: int| box_of(t, g)->0.y_max as int;
    let ml = |g: int| bearing(t, g);
    let mr = |g: int| in_sixteen_bits(advance(t, g) - extent(t, g));
    let me = |g: int| in_sixteen_bits(extent(t, g));
    assert forall|k: int| 0 <= k < n implies #[trigger] takes_in(t, x0, mx0, true, k) by {
        lemma_extremes_step(t, k);
    }
    assert forall|k: int| 0 <= k < n implies #[trigger] takes_in(t, y0, my0, true, k) by {
        lemma_extremes_step(t, k);
    }
    assert forall|k: int| 0 <= k < n implies #[trigger] takes_in(t, x1, mx1, false, k) by {
        lemma_extremes_step(t, k);
    }
    assert forall|k: int| 0 <= k < n implies #[trigger] takes_in(t, y1, my1, false, k) by {
        lemma_extremes_step(t, k);
    }
    assert forall|k: int| 0 <= k < n implies #[trigger] takes_in(t, l, ml, true, k) by {
        lemma_extremes_step(t, k);
    }
    assert forall|k: int| 0 <= k < n implies #[trigger] takes_in(t, r, mr, true, k) by {
        lemma_extremes_step(t, k);
    }
    assert forall|k: int| 0 <= k < n implies #[trigger] takes_in(t, e, me, false, k) by {
        lemma_extremes_step(t, k);
    }
    assert(stats_upto(t, 0) == no_stats());
    lemma_least(t, n, x0, mx0);
    lemma_least(t, n, y0, my0);
    lemma_greatest(t, n, x1, mx1);
    lemma_greatest(t, n, y1, my1);
    lemma_least(t, n, l, ml);
    lemma_least(t, n, r, mr);
    lemma_greatest(t, n, e, me);
    // Where an extreme never left its start, every measure is at that start.
    assert(box_of(t, some) is Some);
}

/// True when `v` is the least measure that a glyph with an outline has.
pub open spec fn is_least_of(
    t: GlyphTablesView,
    n: int,
    v: int,
    measure: spec_fn(int) -> int,
) -> bool {
    &&& forall|g: int| 0 <= g < n && (#[trigger] box_of(t, g)) is Some ==> v <= measure(g)
    &&& exists|g: int| 0 <= g < n && (#[trigger] box_of(t, g)) is Some && v == measure(g)
}

/// True when `v` is the greatest measure that a glyph with an outline has.
pub open spec fn is_greatest_of(
    t: GlyphTablesView,
    n: int,
    v: int,
    measure: spec_fn(int) -> int,
) -> bool {
    &&& forall|g: int| 0 <= g < n && (#[trigger] box_of(t, g)) is Some ==> v >= measure(g)
    &&& exists|g: int| 0 <= g < n && (#[trigger] box_of(t, g)) is Some && v == measure(g)
}

// ----------------------------------------------------------------------------------- advances

/// What the advances of the first `n` glyphs add up to.
pub open spec fn advances(t: GlyphTablesView, n: int) -> int
    decreases n,
{
    if n <= 0 {
        0
    } else {
        advances(t, n - 1) + advance(t, n - 1)
    }
}

/// How many of the first `n` glyphs have an advance.
pub open spec fn advancing(t: GlyphTablesView, n: int) -> int
    decreases n,
{
    if n <= 0 {
        0
    } else if advance(t, n - 1) > 0 {
        advancing(t, n - 1) + 1
    } else {
        advancing(t, n - 1)
    }
}

proof fn lemma_advances(t: GlyphTablesView, n: int)
    requires
        0 <= n <= 0xffff,
    ensures
        ({
            let s = stats_upto(t, n);
            &&& s.advance_total == advances(t, n)
            &&& s.advance_count == advancing(t, n)
            &&& 0 <= advancing(t, n) <= n
            &&& 0 <= advances(t, n) <= 0xffff * n
            &&& forall|g: int| 0 <= g < n ==> s.advance_width_max >= #[trigger] advance(t, g)
            &&& s.advance_width_max == 0 || exists|g: int|
                0 <= g < n && s.advance_width_max == #[trigger] advance(t, g)
        }),
    decreases n,
{
    if n > 0 {
        lemma_advances(t, n - 1);
        let k = n - 1;
        assert(k as u32 as int == k);
        let a = stats_upto(t, k);
        let s = stats_upto(t, n);
        let v = advance(t, k) as u16;
        assert(v == advance(t, k));
        let first = with_advance(a, v);
        assert(s.advance_total == first.advance_total && s.advance_count == first.advance_count
            && s.advance_width_max == first.advance_width_max);
        if s.advance_width_max != 0 {
            if s.advance_width_max == a.advance_width_max {
                let g = choose|g: int| 0 <= g < k && a.advance_width_max == #[trigger] advance(t, g);
                assert(s.advance_width_max == advance(t, g));
            } else {
                assert(s.advance_width_max == advance(t, k));
            }
        }
    }
}

/// `hhea` holds the greatest advance, and `OS/2` the average over the glyphs that have one, to
/// the nearest unit, with halves upwards.
pub proof fn the_advances_are_those_of_the_glyphs(t: GlyphTablesView, n: int, h: HheaFields)
    requires
        0 <= n <= 0xffff,
    ensures
        ({
            let s = reported(stats_upto(t, n));
            let most = measured_hhea(h, s).advance_width_max;
            &&& forall|g: int| 0 <= g < n ==> most >= #[trigger] advance(t, g)
            &&& most == 0 || exists|g: int| 0 <= g < n && most == #[trigger] advance(t, g)
            &&& advancing(t, n) > 0 ==> -advancing(t, n) < 2 * (average_width(s) * advancing(t, n)
                - advances(t, n)) <= advancing(t, n)
            &&& advancing(t, n) == 0 ==> average_width(s) == 0
        }),
{
    lemma_advances(t, n);
    let s = stats_upto(t, n);
    let r = reported(s);
    assert(r.advance_total == s.advance_total && r.advance_count == s.advance_count
        && r.advance_width_max == s.advance_width_max);
    let c = advancing(t, n);
    let total = advances(t, n);
    if c > 0 {
        let v = (2 * total + c) / (2 * c);
        vstd::arithmetic::div_mod::lemma_fundamental_div_mod(2 * total + c, 2 * c);
        vstd::arithmetic::div_mod::lemma_mod_bound(2 * total + c, 2 * c);
        assert((2 * c) * v == 2 * (v * c)) by (nonlinear_arith);
    }
}

// ------------------------------------------------------------------------------------- counts

/// The simple glyphs of a font are counted in `maxp`: none has more points or contours.
pub proof fn no_simple_glyph_has_more(t: GlyphTablesView, n: int, g: int)
    requires
        0 <= g < n <= 0xffff,
        outline_of(t.outlines, g as u32) matches Some(OutlineView::Simple(_)),
    ensures
        ({
            let s = outline_of(t.outlines, g as u32)->0->Simple_0;
            let m = maxp_fields(reported(stats_upto(t, n)));
            &&& s.end_pts.len() > 0 && s.end_pts.last() < 0xffff ==> m.max_points
                >= s.end_pts.last() + 1
            &&& m.max_contours >= s.contour_count
        }),
    decreases n,
{
    assert((n - 1) as u32 as int == n - 1);
    if g < n - 1 {
        no_simple_glyph_has_more(t, n - 1, g);
    }
}

/// The composite glyphs of a font are counted in `maxp`: none has more components, reaches
/// more points or contours, or nests deeper.
pub proof fn no_composite_glyph_has_more(t: GlyphTablesView, n: int, g: int)
    requires
        0 <= g < n <= 0xffff,
        outline_of(t.outlines, g as u32) matches Some(OutlineView::Composite(_)),
    ensures
        ({
            let c = outline_of(t.outlines, g as u32)->0->Composite_0;
            let m = maxp_fields(reported(stats_upto(t, n)));
            let (points, contours, depth) = composite_totals(t.outlines, g as u32, 1, 0);
            &&& c.components.len() <= 0xffff ==> m.max_component_elements >= c.components.len()
            &&& m.max_composite_points >= points
            &&& m.max_composite_contours >= contours
            &&& m.max_component_depth >= depth
        }),
    decreases n,
{
    assert((n - 1) as u32 as int == n - 1);
    if g < n - 1 {
        no_composite_glyph_has_more(t, n - 1, g);
    }
}

/// True for a count that some glyph has, or that is zero.
pub open spec fn is_reached(
    t: GlyphTablesView,
    n: int,
    v: u16,
    count: spec_fn(int) -> int,
) -> bool {
    v == 0 || exists|g: int| 0 <= g < n && v == #[trigger] count(g)
}

pub open spec fn simple_points(t: GlyphTablesView, g: int) -> int {
    match outline_of(t.outlines, g as u32) {
        Some(OutlineView::Simple(s)) => point_count(s) as int,
        _ => 0,
    }
}

pub open spec fn simple_contours(t: GlyphTablesView, g: int) -> int {
    match outline_of(t.outlines, g as u32) {
        Some(OutlineView::Simple(s)) => contour_number(s) as int,
        _ => 0,
    }
}

/// The counts of simple glyphs in `maxp` are no greater than they have to be.
pub proof fn some_simple_glyph_has_as_many(t: GlyphTablesView, n: int)
    requires
        0 <= n <= 0xffff,
    ensures
        ({
            let m = maxp_fields(reported(stats_upto(t, n)));
            &&& is_reached(t, n, m.max_points, |g: int| simple_points(t, g))
            &&& is_reached(t, n, m.max_contours, |g: int| simple_contours(t, g))
        }),
    decreases n,
{
    if n > 0 {
        some_simple_glyph_has_as_many(t, n - 1);
        let k = n - 1;
        assert(k as u32 as int == k);
        let a = maxp_fields(reported(stats_upto(t, k)));
        let m = maxp_fields(reported(stats_upto(t, n)));
        let points = |g: int| simple_points(t, g);
        let contours = |g: int| simple_contours(t, g);
        if m.max_points == a.max_points {
            if m.max_points != 0 {
                let g = choose|g: int| 0 <= g < k && a.max_points == #[trigger] points(g);
                assert(0 <= g < n && m.max_points == points(g));
            }
        } else {
            assert(m.max_points == points(k));
        }
        if m.max_contours == a.max_contours {
            if m.max_contours != 0 {
                let g = choose|g: int| 0 <= g < k && a.max_contours == #[trigger] contours(g);
                assert(0 <= g < n && m.max_contours == contours(g));
            }
        } else {
            assert(m.max_contours == contours(k));
        }
    }
}

/// The points of the first `n` components, which are simple glyphs.
pub open spec fn points_of_parts(o: OutlinesView, components: Seq<Component>, n: int) -> int
    decreases n,
{
    if n <= 0 {
        0
    } else {
        points_of_parts(o, components, n - 1) + point_count(
            outline_of(o, components[n - 1].glyph)->0->Simple_0,
        )
    }
}

/// The contours of the first `n` components, which are simple glyphs.
pub open spec fn contours_of_parts(o: OutlinesView, components: Seq<Component>, n: int) -> int
    decreases n,
{
    if n <= 0 {
        0
    } else {
        contours_of_parts(o, components, n - 1) + contour_number(
            outline_of(o, components[n - 1].glyph)->0->Simple_0,
        )
    }
}

/// A composite of simple glyphs has the points and the contours of all of them, as far as
/// sixteen bits count, and nests no deeper than itself.
pub proof fn a_flat_composite_has_the_points_of_its_parts(o: OutlinesView, gid: u32)
    requires
        outline_of(o, gid) matches Some(OutlineView::Composite(_)),
        ({
            let parts = outline_of(o, gid)->0->Composite_0.components;
            forall|i: int|
                0 <= i < parts.len() ==> outline_of(o, (#[trigger] parts[i]).glyph) matches Some(
                    OutlineView::Simple(_),
                )
        }),
    ensures
        ({
            let parts = outline_of(o, gid)->0->Composite_0.components;
            let n = parts.len() as int;
            let (points, contours, depth) = composite_totals(o, gid, 1, 0);
            &&& points == min(points_of_parts(o, parts, n), 0xffff)
            &&& contours == min(contours_of_parts(o, parts, n), 0xffff)
            &&& depth == 1
        }),
{
    let parts = outline_of(o, gid)->0->Composite_0.components;
    lemma_flat_totals(o, parts, parts.len() as int, 1, 0);
}

proof fn lemma_flat_totals(
    o: OutlinesView,
    parts: Seq<Component>,
    n: int,
    depth: u16,
    guard: u16,
)
    requires
        0 <= n <= parts.len(),
        guard < 16,
        forall|i: int|
            0 <= i < n ==> outline_of(o, (#[trigger] parts[i]).glyph) matches Some(
                OutlineView::Simple(_),
            ),
    ensures
        ({
            let (points, contours, deepest) = totals_upto(o, parts, n, depth, guard);
            &&& 0 <= points_of_parts(o, parts, n) && 0 <= contours_of_parts(o, parts, n)
            &&& points == min(points_of_parts(o, parts, n), 0xffff)
            &&& contours == min(contours_of_parts(o, parts, n), 0xffff)
            &&& deepest == depth
        }),
    decreases n,
{
    if n > 0 {
        lemma_flat_totals(o, parts, n - 1, depth, guard);
        assert(outline_of(o, parts[n - 1].glyph) is Some);
    }
}

/// A composite that only refers to another composite reaches what that one reaches, one level
/// deeper.
pub proof fn a_nested_composite_is_one_level_deeper(
    o: OutlinesView,
    outer: u32,
    depth: u16,
    guard: u16,
)
    requires
        guard < 15,
        depth == guard + 1,
        outline_of(o, outer) matches Some(OutlineView::Composite(_)),
        outline_of(o, outer)->0->Composite_0.components.len() == 1,
        ({
            let inner = outline_of(o, outer)->0->Composite_0.components[0].glyph;
            outline_of(o, inner) matches Some(OutlineView::Composite(_))
        }),
    ensures
        ({
            let inner = outline_of(o, outer)->0->Composite_0.components[0].glyph;
            let through = composite_totals(o, inner, (depth + 1) as u16, (guard + 1) as u16);
            composite_totals(o, outer, depth, guard) == (
                through.0,
                through.1,
                max(depth as int, through.2 as int) as u16,
            )
        }),
{
    let parts = outline_of(o, outer)->0->Composite_0.components;
    reveal_with_fuel(totals_upto, 3);
    assert(totals_upto(o, parts, 0, depth, guard) == (0u16, 0u16, depth));
}

// ----------------------------------------------------------------------------------- location

/// What is known of the location of an instance is what `OS/2` says of it, and what is not
/// known stays: the weight and the width class each go to their own field.
pub proof fn the_location_reaches_os2(f: Os2Fields, stats: Option<GlyfStats>, o: FinalizeView)
    ensures
        ({
            let out = located_os2(f, stats, o);
            &&& o.weight_class matches Some(v) ==> out.us_weight_class == v
            &&& o.weight_class is None ==> out.us_weight_class == f.us_weight_class
            &&& o.width_class matches Some(v) ==> out.us_width_class == v
            &&& o.width_class is None ==> out.us_width_class == f.us_width_class
            &&& stats is None ==> out.x_avg_char_width == f.x_avg_char_width
            &&& stats is Some && -0x8000 <= average_width(stats->0) <= 0x7fff
                ==> out.x_avg_char_width == average_width(stats->0)
            &&& out == (Os2Fields {
                us_weight_class: out.us_weight_class,
                us_width_class: out.us_width_class,
                x_avg_char_width: out.x_avg_char_width,
                ..f
            })
        }),
{
}

// -------------------------------------------------------------------------------------- names

/// A name record is left exactly where it is not one that only named what is gone: an ID that
/// was referred to before and no longer is.
pub proof fn only_names_of_what_is_gone_are_pruned(
    records: Seq<NameView>,
    before: Seq<u16>,
    after: Seq<u16>,
    r: NameView,
)
    ensures
        without_ids(records, dead_ids(before, after)).contains(r) <==> records.contains(r) && !(
        before.contains(r.name_id) && !after.contains(r.name_id)),
{
    let dead = dead_ids(before, after);
    let gone = |id: u16| !after.contains(id);
    let keep = |r: NameView| !dead.contains(r.name_id);
    lemma_filter_has(before, gone, r.name_id);
    lemma_filter_has(records, keep, r);
}

pub(crate) proof fn lemma_filter_has<T>(s: Seq<T>, keep: spec_fn(T) -> bool, x: T)
    ensures
        s.filter(keep).contains(x) <==> s.contains(x) && keep(x),
    decreases s.len(),
{
    reveal(Seq::filter);
    if s.len() > 0 {
        let rest = s.drop_last();
        let last = s[s.len() - 1];
        lemma_filter_has(rest, keep, x);
        let out = s.filter(keep);
        let before = rest.filter(keep);
        if before.contains(x) {
            let i = choose|i: int| 0 <= i < before.len() && before[i] == x;
            assert(out[i] == x);
        }
        if rest.contains(x) {
            let i = choose|i: int| 0 <= i < rest.len() && rest[i] == x;
            assert(s[i] == x);
        }
        if out.contains(x) {
            let i = choose|i: int| 0 <= i < out.len() && out[i] == x;
            if i < before.len() {
                assert(before[i] == x);
            } else {
                assert(s[s.len() - 1] == x);
            }
        }
        if s.contains(x) && keep(x) {
            let i = choose|i: int| 0 <= i < s.len() && s[i] == x;
            if i < rest.len() {
                assert(rest[i] == x);
            } else {
                assert(out[before.len() as int] == x);
            }
        }
    }
}

/// True when `id` names an axis or an instance of `fvar`.
pub open spec fn names_in_fvar(bytes: Seq<u8>, id: u16) -> bool {
    fvar_axes(bytes) is Ok && ({
        ||| exists|i: int|
            0 <= i < fvar_axes(bytes)->Ok_0.len() && (#[trigger] fvar_axes(bytes)->Ok_0[i]).name_id
                == id
        ||| exists|i: int|
            0 <= i < fvar_instances(bytes).len() && (#[trigger] fvar_instances(bytes)[i]) is Some
                && fvar_instances(bytes)[i]->0.name_id == id
        ||| exists|i: int|
            0 <= i < fvar_instances(bytes).len() && (#[trigger] fvar_instances(bytes)[i]) is Some
                && fvar_instances(bytes)[i]->0.post_script_id == Some(id) && id != 0xffff
    })
}

proof fn lemma_instance_ids(instances: Seq<Option<InstanceView>>, id: u16)
    ensures
        instance_ids(instances).contains(id) <==> exists|i: int|
            0 <= i < instances.len() && (#[trigger] instances[i]) is Some && (
            instances[i]->0.name_id == id || (instances[i]->0.post_script_id == Some(id) && id
                != 0xffff)),
    decreases instances.len(),
{
    if instances.len() > 0 {
        let rest = instances.drop_last();
        let last = instances[instances.len() - 1];
        lemma_instance_ids(rest, id);
        let out = instance_ids(instances);
        let before = instance_ids(rest);
        if before.contains(id) {
            let i = choose|i: int| 0 <= i < before.len() && before[i] == id;
            assert(out[i] == id);
            let j = choose|i: int|
                0 <= i < rest.len() && (#[trigger] rest[i]) is Some && (rest[i]->0.name_id == id || (
                rest[i]->0.post_script_id == Some(id) && id != 0xffff));
            assert(instances[j] == rest[j]);
        }
        if last is Some {
            let x = last->0;
            assert(out[before.len() as int] == x.name_id);
            if x.post_script_id is Some && x.post_script_id->0 != 0xffff {
                assert(out[before.len() as int + 1] == x.post_script_id->0);
            }
        }
        if out.contains(id) && !before.contains(id) {
            let i = choose|i: int| 0 <= i < out.len() && out[i] == id;
            if i < before.len() {
                assert(before[i] == id);
            }
            assert(instances[instances.len() - 1] is Some);
        }
        if exists|i: int|
            0 <= i < instances.len() && (#[trigger] instances[i]) is Some && (
            instances[i]->0.name_id == id || (instances[i]->0.post_script_id == Some(id) && id
                != 0xffff)) {
            let i = choose|i: int|
                0 <= i < instances.len() && (#[trigger] instances[i]) is Some && (
                instances[i]->0.name_id == id || (instances[i]->0.post_script_id == Some(id) && id
                    != 0xffff));
            if i < rest.len() {
                assert(rest[i] == instances[i]);
            }
        }
    }
}

/// True when `id` names an axis or a value of `STAT`, or the instance that stands for all.
pub open spec fn names_in_stat(bytes: Seq<u8>, id: u16) -> bool {
    match stat_head(bytes) {
        Some((axes, fallback)) => {
            ||| axes is Some && exists|i: int|
                0 <= i < axes->0.len() && (#[trigger] axes->0[i]).name_id == id
            ||| exists|i: int|
                0 <= i < stat_values(bytes).len() && (#[trigger] stat_values(bytes)[i]).name_id
                    == id
            ||| fallback == Some(id)
        },
        None => false,
    }
}

/// The name IDs of a font's design space are those above 255 that `fvar` or `STAT` refers to.
pub proof fn variation_names_are_those_referred_to(font: Seq<TableView>, id: u16)
    ensures
        variation_ids(font).contains(id) <==> id > 255 && ((table_bytes(font, FVAR) is Some
            && names_in_fvar(table_bytes(font, FVAR)->0, id)) || (table_bytes(font, STAT) is Some
            && names_in_stat(table_bytes(font, STAT)->0, id))),
{
    lemma_filter_has(fvar_ids(font) + stat_ids(font), |id: u16| is_free(id), id);
    lemma_appended(fvar_ids(font), stat_ids(font), id);
    if let Some(bytes) = table_bytes(font, FVAR) {
        lemma_fvar_ids(font, bytes, id);
    }
    if let Some(bytes) = table_bytes(font, STAT) {
        lemma_stat_ids(font, bytes, id);
    }
}

proof fn lemma_appended(a: Seq<u16>, b: Seq<u16>, id: u16)
    ensures
        (a + b).contains(id) <==> a.contains(id) || b.contains(id),
{
    let c = a + b;
    if a.contains(id) {
        let i = choose|i: int| 0 <= i < a.len() && a[i] == id;
        assert(c[i] == id);
    }
    if b.contains(id) {
        let i = choose|i: int| 0 <= i < b.len() && b[i] == id;
        assert(c[a.len() + i] == id);
    }
    if c.contains(id) {
        let i = choose|i: int| 0 <= i < c.len() && c[i] == id;
        if i < a.len() {
            assert(a[i] == id);
        } else {
            assert(b[i - a.len()] == id);
        }
    }
}

proof fn lemma_fvar_ids(font: Seq<TableView>, bytes: Seq<u8>, id: u16)
    requires
        table_bytes(font, FVAR) == Some(bytes),
    ensures
        fvar_ids(font).contains(id) <==> names_in_fvar(bytes, id),
{
    if let Ok(axes) = fvar_axes(bytes) {
        let instances = fvar_instances(bytes);
        let ids = crate::finalize::axis_ids(axes);
        lemma_appended(ids, instance_ids(instances), id);
        lemma_instance_ids(instances, id);
        if ids.contains(id) {
            let i = choose|i: int| 0 <= i < ids.len() && ids[i] == id;
            assert(axes[i].name_id == id);
        }
        if exists|i: int| 0 <= i < axes.len() && (#[trigger] axes[i]).name_id == id {
            let i = choose|i: int| 0 <= i < axes.len() && (#[trigger] axes[i]).name_id == id;
            assert(ids[i] == id);
        }
    }
}

proof fn lemma_stat_ids(font: Seq<TableView>, bytes: Seq<u8>, id: u16)
    requires
        table_bytes(font, STAT) == Some(bytes),
    ensures
        stat_ids(font).contains(id) <==> names_in_stat(bytes, id),
{
    if let Some((axes, fallback)) = stat_head(bytes) {
        let first = match axes {
            Some(axes) => crate::finalize::stat_axis_ids(axes),
            None => Seq::empty(),
        };
        let values = stat_values(bytes);
        let middle = crate::finalize::stat_value_ids(values);
        let last = match fallback {
            Some(id) => seq![id],
            None => Seq::empty(),
        };
        lemma_appended(first, middle, id);
        lemma_appended(first + middle, last, id);
        if first.contains(id) {
            let i = choose|i: int| 0 <= i < first.len() && first[i] == id;
            assert(axes->0[i].name_id == id);
        }
        if axes is Some && exists|i: int|
            0 <= i < axes->0.len() && (#[trigger] axes->0[i]).name_id == id {
            let i = choose|i: int| 0 <= i < axes->0.len() && (#[trigger] axes->0[i]).name_id == id;
            assert(first[i] == id);
        }
        if middle.contains(id) {
            let i = choose|i: int| 0 <= i < middle.len() && middle[i] == id;
            assert(values[i].name_id == id);
        }
        if exists|i: int| 0 <= i < values.len() && (#[trigger] values[i]).name_id == id {
            let i = choose|i: int| 0 <= i < values.len() && (#[trigger] values[i]).name_id == id;
            assert(middle[i] == id);
        }
        if fallback == Some(id) {
            assert(last[0] == id);
        }
    }
}

} // verus!
