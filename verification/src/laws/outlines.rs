//! What becomes of points, boxes and metrics when glyphs are taken apart and built again.
use vstd::prelude::*;

use crate::bytes::{be16, lemma_be16_reads_back, u16_at};
use crate::fields::{
    head_bytes, head_fields, hhea_bytes, hhea_fields, lemma_i16_reads_back, HeadFields, HheaFields,
};
use crate::glyphs::{
    glyph_points, no_bounds, outline_of, phantom_metrics, points_of, union_of, Anchor, Bounds,
    Component, GlyphTablesView, OutlineView, PhantomView, Point, PointsView,
};
use crate::mvar::adjusted_hhea;
use crate::outline::{
    are_ends, bounding_boxes, built_contours, built_glyph, built_point, built_points,
    components_box, contours_stop, moved, moved_box, moved_corner, own_box, own_boxes, pass, passes,
    points_box, resolved_box, start_of, wrap16, GlyfLocaView, GlyphView,
};
use crate::statics::{boxed, hmtx_bytes, long_count, outline_tables, stored_metric};
use crate::tables::{table_bytes, TableView, GLYF, HEAD, HHEA, HMTX, LOCA};

verus! {

// ------------------------------------------------------------------------------------- points

/// True for coordinates that an outline can hold.
pub open spec fn fits_outline(c: (i32, i32)) -> bool {
    -0x8000 <= c.0 <= 0x7fff && -0x8000 <= c.1 <= 0x7fff
}

/// True when `p` is where `c` says.
pub open spec fn is_at(p: Point, c: (i32, i32)) -> bool {
    p.x == c.0 && p.y == c.1
}

proof fn lemma_contours(points: PointsView, k: int)
    requires
        points.coords.len() >= 4,
        are_ends(points.end_pts, points.coords.len() - 4),
        0 <= k <= points.end_pts.len(),
    ensures
        contours_stop(points, k) == start_of(points.end_pts, k),
        0 <= start_of(points.end_pts, k) <= points.coords.len() - 4,
        built_contours(points, k).len() == k,
        forall|c: int|
            0 <= c < k ==> #[trigger] built_contours(points, k)[c] == built_points(
                points,
                start_of(points.end_pts, c),
                start_of(points.end_pts, c + 1),
            ),
    decreases k,
{
    if k > 0 {
        lemma_contours(points, k - 1);
        assert(points.end_pts[k - 1] < points.coords.len() - 4);
        if k > 1 {
            assert(points.end_pts[k - 2] < points.end_pts[k - 1]);
        }
        let before = built_contours(points, k - 1);
        let out = built_contours(points, k);
        assert forall|c: int| 0 <= c < k implies #[trigger] out[c] == built_points(
            points,
            start_of(points.end_pts, c),
            start_of(points.end_pts, c + 1),
        ) by {
            if c < k - 1 {
                assert(out[c] == before[c]);
            }
        }
    }
}

/// Wherever its points have gone, a simple glyph is built from them in order: each contour
/// goes from behind the end of the one before up to its own end, each point stands where the
/// point list says, and each stays on or off the curve. The phantom points are no part of it.
pub proof fn a_glyph_is_built_from_its_points(points: PointsView)
    requires
        points.shape is Simple,
        points.coords.len() >= 4,
        points.end_pts.len() > 0,
        are_ends(points.end_pts, points.coords.len() - 4),
        points.shape->Simple_on_curve.len() >= points.coords.len() - 4,
        forall|i: int| 0 <= i < points.coords.len() ==> fits_outline(#[trigger] points.coords[i]),
    ensures
        ({
            let out = built_glyph(points);
            let ends = points.end_pts;
            &&& out is Simple
            &&& out->Simple_instructions == points.shape->Simple_instructions
            &&& out->overlaps == points.shape->overlaps
            &&& out->contours.len() == ends.len()
            &&& forall|c: int|
                0 <= c < ends.len() ==> (#[trigger] out->contours[c]).len() == start_of(ends, c + 1)
                    - start_of(ends, c)
            &&& forall|c: int, j: int|
                0 <= c < ends.len() && 0 <= j < start_of(ends, c + 1) - start_of(ends, c) ==> is_at(
                    #[trigger] out->contours[c][j],
                    points.coords[start_of(ends, c) + j],
                ) && out->contours[c][j].on_curve
                    == points.shape->Simple_on_curve[start_of(ends, c) + j]
        }),
{
    let ends = points.end_pts;
    let n = ends.len() as int;
    lemma_contours(points, n);
    let out = built_glyph(points);
    assert(out->contours == built_contours(points, n));
    assert forall|c: int| 0 <= c < n implies (#[trigger] out->contours[c]).len() == start_of(
        ends,
        c + 1,
    ) - start_of(ends, c) by {
        lemma_contours(points, c);
        lemma_contours(points, c + 1);
        lemma_start_rises(ends, points.coords.len() - 4, c);
    }
    assert forall|c: int, j: int|
        0 <= c < n && 0 <= j < start_of(ends, c + 1) - start_of(ends, c) implies is_at(
        #[trigger] out->contours[c][j],
        points.coords[start_of(ends, c) + j],
    ) && out->contours[c][j].on_curve == points.shape->Simple_on_curve[start_of(ends, c) + j] by {
        let at = start_of(ends, c) + j;
        lemma_contours(points, c + 1);
        assert(fits_outline(points.coords[at]));
        assert(out->contours[c] == built_points(
            points,
            start_of(ends, c),
            start_of(ends, c + 1),
        ));
        assert(out->contours[c][j] == built_point(points, at));
    }
}

proof fn lemma_start_rises(ends: Seq<u16>, points: int, c: int)
    requires
        are_ends(ends, points),
        0 <= c < ends.len(),
    ensures
        start_of(ends, c) < start_of(ends, c + 1),
{
    if c > 0 {
        assert(ends[c - 1] < ends[c]);
    }
}

/// A composite keeps its components in order, each moved to where the point list says, but
/// for those that are placed by matching points.
pub proof fn components_move_to_their_points(points: PointsView, i: int)
    requires
        points.shape is Composite,
        0 <= i < points.shape->components.len() <= points.coords.len(),
        fits_outline(points.coords[i]),
    ensures
        ({
            let out = built_glyph(points);
            let was = points.shape->components[i];
            let is = out->components[i];
            &&& out is Composite
            &&& out->Composite_instructions == points.shape->Composite_instructions
            &&& out->components.len() == points.shape->components.len()
            &&& is.glyph == was.glyph && is.flags == was.flags && is.transform == was.transform
            &&& match was.anchor {
                Anchor::Point { .. } => is.anchor == was.anchor,
                Anchor::Offset { .. } => is.anchor matches Anchor::Offset { x, y } && x
                    == points.coords[i].0 && y == points.coords[i].1,
            }
        }),
{
}

/// The point list of a glyph holds the places of its outline points, or of its components,
/// and then four phantom points: the origin, the advance, and the vertical two.
pub proof fn a_point_list_holds_the_outline(outline: OutlineView, m: PhantomView)
    requires
        -0x10_0000 <= m.advance <= 0x10_0000,
        -0x10_0000 <= m.lsb <= 0x10_0000,
        m.vertical matches Some((advance, bearing)) ==> -0x10_0000 <= advance <= 0x10_0000
            && -0x10_0000 <= bearing <= 0x10_0000,
    ensures
        ({
            let out = points_of(outline, m);
            let at = out.coords.len() - 4;
            let bounds = match outline {
                OutlineView::Empty => no_bounds(),
                OutlineView::Simple(s) => s.bounds,
                OutlineView::Composite(c) => c.bounds,
            };
            &&& match outline {
                OutlineView::Empty => at == 0,
                OutlineView::Simple(s) => {
                    &&& at == s.points.len()
                    &&& forall|i: int|
                        0 <= i < at ==> is_at(s.points[i], #[trigger] out.coords[i])
                            && out.shape->Simple_on_curve[i] == s.points[i].on_curve
                    &&& out.end_pts == s.end_pts
                },
                OutlineView::Composite(c) => {
                    &&& at == c.components.len()
                    &&& forall|i: int|
                        0 <= i < at ==> (c.components[i].anchor matches Anchor::Offset { x, y }
                            ==> (#[trigger] out.coords[i]).0 == x && out.coords[i].1 == y)
                    &&& out.shape->components == c.components
                },
            }
            &&& out.coords[at].0 == bounds.x_min - m.lsb
            &&& out.coords[at + 1].0 - out.coords[at].0 == m.advance
            &&& m.vertical matches Some((advance, bearing)) ==> out.coords[at + 2].1
                - bounds.y_max == bearing && out.coords[at + 2].1 - out.coords[at + 3].1 == advance
        }),
{
    let out = points_of(outline, m);
    match outline {
        OutlineView::Simple(s) => {
            assert forall|i: int| 0 <= i < s.points.len() implies is_at(
                s.points[i],
                #[trigger] out.coords[i],
            ) && out.shape->Simple_on_curve[i] == s.points[i].on_curve by {
                assert(out.coords[i] == crate::glyphs::point_coords(s.points)[i]);
            }
        },
        OutlineView::Composite(c) => {
            assert forall|i: int| 0 <= i < c.components.len() implies (
            c.components[i].anchor matches Anchor::Offset { x, y } ==> (#[trigger] out.coords[i]).0
                == x && out.coords[i].1 == y) by {
                assert(out.coords[i] == crate::glyphs::component_offsets(c.components)[i]);
            }
        },
        _ => {},
    }
}

// -------------------------------------------------------------------------------------- boxes

/// True when a place lies in a box.
pub open spec fn covers(b: Bounds, x: i16, y: i16) -> bool {
    b.x_min <= x <= b.x_max && b.y_min <= y <= b.y_max
}

/// The box of some points covers all of them, and is the smallest that does: each of its
/// sides goes through one of them.
pub proof fn a_box_is_as_small_as_its_points_allow(points: Seq<Point>)
    requires
        points.len() > 0,
    ensures
        ({
            let b = points_box(points);
            &&& forall|i: int|
                0 <= i < points.len() ==> covers(b, (#[trigger] points[i]).x, points[i].y)
            &&& exists|i: int| 0 <= i < points.len() && (#[trigger] points[i]).x == b.x_min
            &&& exists|i: int| 0 <= i < points.len() && (#[trigger] points[i]).x == b.x_max
            &&& exists|i: int| 0 <= i < points.len() && (#[trigger] points[i]).y == b.y_min
            &&& exists|i: int| 0 <= i < points.len() && (#[trigger] points[i]).y == b.y_max
        }),
    decreases points.len(),
{
    let b = points_box(points);
    let n = points.len() as int;
    if n == 1 {
        assert(points[0].x == b.x_min && points[0].y == b.y_min);
    } else {
        let rest = points.drop_last();
        let a = points_box(rest);
        let last = points[n - 1];
        a_box_is_as_small_as_its_points_allow(rest);
        assert forall|i: int| 0 <= i < n implies covers(b, (#[trigger] points[i]).x, points[i].y) by {
            if i < n - 1 {
                assert(covers(a, rest[i].x, rest[i].y));
            }
        }
        let i0 = choose|i: int| 0 <= i < rest.len() && (#[trigger] rest[i]).x == a.x_min;
        let i1 = choose|i: int| 0 <= i < rest.len() && (#[trigger] rest[i]).x == a.x_max;
        let i2 = choose|i: int| 0 <= i < rest.len() && (#[trigger] rest[i]).y == a.y_min;
        let i3 = choose|i: int| 0 <= i < rest.len() && (#[trigger] rest[i]).y == a.y_max;
        assert(points[i0].x == a.x_min && points[i1].x == a.x_max);
        assert(points[i2].y == a.y_min && points[i3].y == a.y_max);
        assert(points[n - 1] == last);
    }
}

/// The box of a simple glyph is that of its own points.
pub proof fn a_simple_glyph_is_boxed_by_its_points(points: PointsView)
    requires
        points.shape is Simple,
        points.coords.len() >= 4,
        points.end_pts.len() > 0,
        are_ends(points.end_pts, points.coords.len() - 4),
        forall|i: int| 0 <= i < points.coords.len() ==> fits_outline(#[trigger] points.coords[i]),
    ensures
        ({
            let out = built_glyph(points);
            let n = start_of(points.end_pts, points.end_pts.len() as int);
            let b = out->Simple_bbox;
            &&& out is Simple
            &&& forall|i: int|
                0 <= i < n ==> b.x_min <= (#[trigger] points.coords[i]).0 <= b.x_max && b.y_min
                    <= points.coords[i].1 <= b.y_max
            &&& exists|i: int| 0 <= i < n && (#[trigger] points.coords[i]).0 == b.x_min
            &&& exists|i: int| 0 <= i < n && (#[trigger] points.coords[i]).0 == b.x_max
            &&& exists|i: int| 0 <= i < n && (#[trigger] points.coords[i]).1 == b.y_min
            &&& exists|i: int| 0 <= i < n && (#[trigger] points.coords[i]).1 == b.y_max
        }),
{
    let k = points.end_pts.len() as int;
    lemma_contours(points, k);
    lemma_start_rises(points.end_pts, points.coords.len() - 4, k - 1);
    let n = start_of(points.end_pts, k);
    let all = built_points(points, 0, n);
    let b = points_box(all);
    assert(built_glyph(points)->Simple_bbox == b);
    assert(n > 0) by {
        assert(start_of(points.end_pts, k) == points.end_pts[k - 1] + 1);
    }
    assert forall|i: int| 0 <= i < n implies is_at(all[i], #[trigger] points.coords[i]) by {
        assert(fits_outline(points.coords[i]));
        assert(all[i] == built_point(points, i));
    }
    a_box_is_as_small_as_its_points_allow(all);
    assert forall|i: int| 0 <= i < n implies b.x_min <= (#[trigger] points.coords[i]).0 <= b.x_max
        && b.y_min <= points.coords[i].1 <= b.y_max by {
        assert(is_at(all[i], points.coords[i]));
        assert(covers(b, all[i].x, all[i].y));
    }
    let i0 = choose|i: int| 0 <= i < all.len() && (#[trigger] all[i]).x == b.x_min;
    let i1 = choose|i: int| 0 <= i < all.len() && (#[trigger] all[i]).x == b.x_max;
    let i2 = choose|i: int| 0 <= i < all.len() && (#[trigger] all[i]).y == b.y_min;
    let i3 = choose|i: int| 0 <= i < all.len() && (#[trigger] all[i]).y == b.y_max;
    assert(is_at(all[i0], points.coords[i0]) && is_at(all[i1], points.coords[i1]));
    assert(is_at(all[i2], points.coords[i2]) && is_at(all[i3], points.coords[i3]));
}

/// True when sixteen bits hold where a component moves `(x, y)`.
pub open spec fn stays_in_reach(c: Component, x: i16, y: i16) -> bool {
    let t = c.transform;
    let (dx, dy): (int, int) = match c.anchor {
        Anchor::Offset { x, y } => (x as int, y as int),
        Anchor::Point { .. } => (0, 0),
    };
    &&& -0x7fff * 16384 <= t.xx * x + t.xy * y + dx * 16384 <= 0x7ffe * 16384
    &&& -0x7fff * 16384 <= t.yx * x + t.yy * y + dy * 16384 <= 0x7ffe * 16384
}

/// The box of a moved component covers each corner of the box that it moves, at the place to
/// which its matrix and its offset take it, to the nearest unit, with halves upwards.
pub proof fn a_moved_box_covers_its_corners(c: Component, b: Bounds, right: bool, top: bool)
    requires
        ({
            let x = if right {
                b.x_max
            } else {
                b.x_min
            };
            let y = if top {
                b.y_max
            } else {
                b.y_min
            };
            stays_in_reach(c, x, y)
        }),
    ensures
        ({
            let x = if right {
                b.x_max
            } else {
                b.x_min
            };
            let y = if top {
                b.y_max
            } else {
                b.y_min
            };
            let t = c.transform;
            let (dx, dy): (int, int) = match c.anchor {
                Anchor::Offset { x, y } => (x as int, y as int),
                Anchor::Point { .. } => (0, 0),
            };
            exists|px: i16, py: i16|
                {
                    &&& #[trigger] covers(moved_box(c, b), px, py)
                    &&& -16384 < 2 * (px * 16384 - (t.xx * x + t.xy * y + dx * 16384)) <= 16384
                    &&& -16384 < 2 * (py * 16384 - (t.yx * x + t.yy * y + dy * 16384)) <= 16384
                }
        }),
{
    let x = if right {
        b.x_max
    } else {
        b.x_min
    };
    let y = if top {
        b.y_max
    } else {
        b.y_min
    };
    let t = c.transform;
    let (dx, dy): (int, int) = match c.anchor {
        Anchor::Offset { x, y } => (x as int, y as int),
        Anchor::Point { .. } => (0, 0),
    };
    lemma_nearest(t.xx * x + t.xy * y + dx * 16384);
    lemma_nearest(t.yx * x + t.yy * y + dy * 16384);
    let px = moved(t.xx, t.xy, x, y, dx);
    let py = moved(t.yx, t.yy, x, y, dy);
    lemma_box_covers(c, b, x, y);
    assert(covers(moved_box(c, b), px, py));
}

proof fn lemma_nearest(v: int)
    requires
        -0x7fff * 16384 <= v <= 0x7ffe * 16384,
    ensures
        -16384 < 2 * (wrap16((v + 8192) / 16384) * 16384 - v) <= 16384,
{
    let q = (v + 8192) / 16384;
    assert(-0x8000 <= q <= 0x7fff);
    assert(wrap16(q) == q);
}

proof fn lemma_box_covers(c: Component, b: Bounds, x: i16, y: i16)
    requires
        x == b.x_min || x == b.x_max,
        y == b.y_min || y == b.y_max,
    ensures
        covers(moved_box(c, b), moved_corner(c, x, y).x_min, moved_corner(c, x, y).y_min),
{
    let p = moved_corner(c, b.x_min, b.y_min);
    let q = moved_corner(c, b.x_max, b.y_min);
    let r = moved_corner(c, b.x_min, b.y_max);
    let s = moved_corner(c, b.x_max, b.y_max);
    lemma_union_encloses(p, q);
    lemma_union_encloses(union_of(p, q), r);
    lemma_union_encloses(union_of(union_of(p, q), r), s);
}

proof fn lemma_union_encloses(a: Bounds, b: Bounds)
    ensures
        encloses(union_of(a, b), a),
        encloses(union_of(a, b), b),
{
}

/// A component that is only shifted shifts its box.
pub proof fn a_shifted_component_shifts_its_box(c: Component, b: Bounds, dx: i16, dy: i16)
    requires
        c.anchor == (Anchor::Offset { x: dx, y: dy }),
        c.transform.xx == 16384 && c.transform.yy == 16384,
        c.transform.xy == 0 && c.transform.yx == 0,
        b.x_min <= b.x_max && b.y_min <= b.y_max,
        -0x8000 <= b.x_min + dx && b.x_max + dx <= 0x7fff,
        -0x8000 <= b.y_min + dy && b.y_max + dy <= 0x7fff,
    ensures
        moved_box(c, b).x_min == b.x_min + dx,
        moved_box(c, b).x_max == b.x_max + dx,
        moved_box(c, b).y_min == b.y_min + dy,
        moved_box(c, b).y_max == b.y_max + dy,
{
    assert forall|x: i16, y: i16, d: i16| -0x8000 <= x + d <= 0x7fff implies #[trigger] moved(
        16384,
        0,
        x,
        y,
        d as int,
    ) == x + d by {
        assert(16384 * x + 0 * y + d * 16384 + 8192 == (x + d) * 16384 + 8192) by (nonlinear_arith);
    }
    assert forall|x: i16, y: i16, d: i16| -0x8000 <= y + d <= 0x7fff implies #[trigger] moved(
        0,
        16384,
        x,
        y,
        d as int,
    ) == y + d by {
        assert(0 * x + 16384 * y + d * 16384 + 8192 == (y + d) * 16384 + 8192) by (nonlinear_arith);
    }
}

/// True when `outer` covers all of `inner`.
pub open spec fn encloses(outer: Bounds, inner: Bounds) -> bool {
    &&& outer.x_min <= inner.x_min && inner.x_max <= outer.x_max
    &&& outer.y_min <= inner.y_min && inner.y_max <= outer.y_max
}

/// True for a component that refers to another glyph of the font.
pub open spec fn is_real(c: Component, gid: int, count: int) -> bool {
    c.glyph < count && c.glyph != gid
}

/// The box of a composite encloses each of its components, moved into place, and no smaller
/// one does: each of its sides is that of a component.
pub proof fn a_composite_is_boxed_by_its_components(
    components: Seq<Component>,
    n: int,
    gid: int,
    bounds: Seq<Bounds>,
)
    requires
        0 <= n <= components.len(),
    ensures
        ({
            let r = components_box(components, n, gid, bounds);
            &&& r is Some <==> exists|i: int|
                0 <= i < n && is_real(#[trigger] components[i], gid, bounds.len() as int)
            &&& r matches Some(b) ==> {
                &&& forall|i: int|
                    0 <= i < n && is_real(#[trigger] components[i], gid, bounds.len() as int)
                        ==> encloses(
                        b,
                        moved_box(components[i], bounds[components[i].glyph as int]),
                    )
                &&& forall|other: Bounds|
                    (forall|i: int|
                        0 <= i < n && is_real(#[trigger] components[i], gid, bounds.len() as int)
                            ==> encloses(
                            other,
                            moved_box(components[i], bounds[components[i].glyph as int]),
                        )) ==> #[trigger] encloses(other, b)
            }
        }),
    decreases n,
{
    if n > 0 {
        a_composite_is_boxed_by_its_components(components, n - 1, gid, bounds);
        let c = components[n - 1];
        let count = bounds.len() as int;
        let before = components_box(components, n - 1, gid, bounds);
        let r = components_box(components, n, gid, bounds);
        if is_real(c, gid, count) {
            assert(is_real(components[n - 1], gid, count));
            let m = moved_box(c, bounds[c.glyph as int]);
            let b = r->Some_0;
            assert forall|i: int| 0 <= i < n && is_real(#[trigger] components[i], gid, count) implies
                encloses(b, moved_box(components[i], bounds[components[i].glyph as int])) by {
                if i < n - 1 {
                    assert(before is Some);
                    assert(encloses(
                        before->Some_0,
                        moved_box(components[i], bounds[components[i].glyph as int]),
                    ));
                }
            }
            assert forall|other: Bounds|
                (forall|i: int|
                    0 <= i < n && is_real(#[trigger] components[i], gid, count) ==> encloses(
                        other,
                        moved_box(components[i], bounds[components[i].glyph as int]),
                    )) implies #[trigger] encloses(other, b) by {
                assert(encloses(other, m));
                if before is Some {
                    assert(encloses(other, before->Some_0));
                }
            }
        } else {
            if exists|i: int| 0 <= i < n && is_real(#[trigger] components[i], gid, count) {
                let i = choose|i: int| 0 <= i < n && is_real(#[trigger] components[i], gid, count);
                assert(i < n - 1);
            }
            if let Some(b) = r {
                assert forall|other: Bounds|
                    (forall|i: int|
                        0 <= i < n && is_real(#[trigger] components[i], gid, count) ==> encloses(
                            other,
                            moved_box(components[i], bounds[components[i].glyph as int]),
                        )) implies #[trigger] encloses(other, b) by {
                    assert(forall|i: int|
                        0 <= i < n - 1 && is_real(#[trigger] components[i], gid, count)
                            ==> encloses(
                            other,
                            moved_box(components[i], bounds[components[i].glyph as int]),
                        ));
                }
            }
        }
    }
}

proof fn lemma_pass(glyphs: Seq<GlyphView>, bounds: Seq<Bounds>, n: int)
    requires
        0 <= n <= glyphs.len(),
        bounds.len() == glyphs.len(),
        forall|i: int|
            0 <= i < glyphs.len() && !(glyphs[i] is Composite) ==> #[trigger] bounds[i] == own_box(
                glyphs[i],
            ),
    ensures
        ({
            let out = pass(glyphs, bounds, n);
            &&& out.len() == glyphs.len()
            &&& forall|i: int|
                0 <= i < glyphs.len() && !(glyphs[i] is Composite) ==> #[trigger] out[i] == own_box(
                    glyphs[i],
                )
            &&& forall|i: int|
                0 <= i < n && #[trigger] is_flat(glyphs, i) ==> out[i] == resolved_box(
                    glyphs[i],
                    i,
                    own_boxes(glyphs),
                )
        }),
    decreases n,
{
    if n > 0 {
        lemma_pass(glyphs, bounds, n - 1);
        let before = pass(glyphs, bounds, n - 1);
        let out = pass(glyphs, bounds, n);
        assert forall|i: int| 0 <= i < n && #[trigger] is_flat(glyphs, i) implies out[i]
            == resolved_box(glyphs[i], i, own_boxes(glyphs)) by {
            if i == n - 1 {
                lemma_flat_box(glyphs, i, before, glyphs[i]->components.len() as int);
            } else {
                assert(out[i] == before[i]);
            }
        }
    }
}

/// True for a composite glyph none of whose components is one.
pub open spec fn is_flat(glyphs: Seq<GlyphView>, gid: int) -> bool {
    &&& glyphs[gid] is Composite
    &&& forall|i: int|
        0 <= i < glyphs[gid]->components.len() && (#[trigger] glyphs[gid]->components[i]).glyph
            < glyphs.len() && glyphs[gid]->components[i].glyph != gid ==> !(
        glyphs[glyphs[gid]->components[i].glyph as int] is Composite)
}

proof fn lemma_flat_box(glyphs: Seq<GlyphView>, gid: int, bounds: Seq<Bounds>, n: int)
    requires
        0 <= gid < glyphs.len(),
        is_flat(glyphs, gid),
        0 <= n <= glyphs[gid]->components.len(),
        bounds.len() == glyphs.len(),
        forall|i: int|
            0 <= i < glyphs.len() && !(glyphs[i] is Composite) ==> #[trigger] bounds[i] == own_box(
                glyphs[i],
            ),
    ensures
        components_box(glyphs[gid]->components, n, gid, bounds) == components_box(
            glyphs[gid]->components,
            n,
            gid,
            own_boxes(glyphs),
        ),
    decreases n,
{
    if n > 0 {
        lemma_flat_box(glyphs, gid, bounds, n - 1);
        let c = glyphs[gid]->components[n - 1];
        if c.glyph < glyphs.len() && c.glyph != gid {
            assert(bounds[c.glyph as int] == own_boxes(glyphs)[c.glyph as int]);
        }
    }
}

proof fn lemma_passes(glyphs: Seq<GlyphView>, n: int)
    requires
        0 <= n,
    ensures
        ({
            let out = passes(glyphs, own_boxes(glyphs), n);
            &&& out.len() == glyphs.len()
            &&& forall|i: int|
                0 <= i < glyphs.len() && !(glyphs[i] is Composite) ==> #[trigger] out[i] == own_box(
                    glyphs[i],
                )
            &&& n > 0 ==> forall|i: int|
                0 <= i < glyphs.len() && #[trigger] is_flat(glyphs, i) ==> out[i] == resolved_box(
                    glyphs[i],
                    i,
                    own_boxes(glyphs),
                )
        }),
    decreases n,
{
    if n > 0 {
        lemma_passes(glyphs, n - 1);
        lemma_pass(glyphs, passes(glyphs, own_boxes(glyphs), n - 1), glyphs.len() as int);
    }
}

/// A simple glyph keeps its box. A composite of simple glyphs has the smallest box that
/// encloses all of them, moved into place.
pub proof fn composites_are_boxed_by_simple_glyphs(glyphs: Seq<GlyphView>, gid: int)
    requires
        0 <= gid < glyphs.len(),
    ensures
        boxed(glyphs).len() == glyphs.len(),
        !(glyphs[gid] is Composite) ==> boxed(glyphs)[gid] == glyphs[gid],
        is_flat(glyphs, gid) ==> {
            let parts = glyphs[gid]->components;
            let out = boxed(glyphs)[gid];
            &&& out is Composite && out->components == parts
            &&& out->Composite_instructions == glyphs[gid]->Composite_instructions
            &&& forall|i: int|
                0 <= i < parts.len() && is_real(#[trigger] parts[i], gid, glyphs.len() as int)
                    ==> encloses(
                    out->Composite_bbox,
                    moved_box(parts[i], own_box(glyphs[parts[i].glyph as int])),
                )
        },
{
    lemma_passes(glyphs, crate::outline::MAX_PASSES as int);
    if is_flat(glyphs, gid) {
        let parts = glyphs[gid]->components;
        a_composite_is_boxed_by_its_components(parts, parts.len() as int, gid, own_boxes(glyphs));
    }
}

// ------------------------------------------------------------------------------------ metrics

/// Metrics that fit their fields are stored as they are, and a negative advance is stored as
/// none.
pub proof fn metrics_are_stored_as_they_are(advance: int, lsb: int)
    requires
        advance <= 0xffff,
        -0x8000 <= lsb <= 0x7fff,
    ensures
        stored_metric(advance, lsb).0 == if advance > 0 {
            advance
        } else {
            0
        },
        stored_metric(advance, lsb).1 == lsb,
{
}

/// A glyph that does not move keeps its advance and its side bearing.
pub proof fn a_glyph_that_does_not_move_keeps_its_metrics(t: GlyphTablesView, gid: u32)
    requires
        glyph_points(t, gid) is Ok,
    ensures
        ({
            let points = glyph_points(t, gid)->Ok_0;
            let at = points.coords.len() - 4;
            let m = phantom_metrics(t, gid);
            let x_min: int = match outline_of(t.outlines, gid)->0 {
                OutlineView::Empty => 0,
                OutlineView::Simple(s) => s.bounds.x_min as int,
                OutlineView::Composite(c) => c.bounds.x_min as int,
            };
            let kept = stored_metric(
                points.coords[at + 1].0 - points.coords[at].0,
                x_min - points.coords[at].0,
            );
            kept.0 == m.advance && kept.1 == m.lsb
        }),
{
    crate::glyphs::phantom_points_carry_the_metrics(t, gid);
}

pub(crate) proof fn lemma_hhea_count(f: HheaFields)
    ensures
        hhea_bytes(f).len() == 36,
        hhea_fields(hhea_bytes(f)) matches Some(read) && read.number_of_h_metrics
            == f.number_of_h_metrics,
{
    reveal(hhea_bytes);
    let b = hhea_bytes(f);
    assert(b.len() == 36);
    assert(b.subrange(34, 36) =~= be16(f.number_of_h_metrics as int));
    lemma_be16_reads_back(b, 34, f.number_of_h_metrics as int);
}

proof fn lemma_head_format(old: Seq<u8>, f: HeadFields)
    requires
        old.len() >= 54,
    ensures
        head_bytes(old, f).len() == 54,
        head_fields(head_bytes(old, f)) matches Some(read) && read.loc_format == f.loc_format,
{
    reveal(head_bytes);
    let b = head_bytes(old, f);
    assert(b.len() == 54);
    assert(b.subrange(50, 52) =~= be16(f.loc_format as int));
    lemma_i16_reads_back(b, 50, f.loc_format);
}

/// The tables of the outlines agree with each other: `hhea` says how many long metrics `hmtx`
/// has, so that every glyph has the advance and the bearing that it was given, and `head` says
/// which form the offsets in `loca` have.
#[verifier::rlimit(60)]
#[verifier::spinoff_prover]
pub proof fn the_outline_tables_agree(
    font: Seq<TableView>,
    g: GlyfLocaView,
    metrics: Seq<(u16, i16)>,
    adjustments: Seq<(u32, i32)>,
    gid: u32,
)
    requires
        outline_tables(font, g, metrics, adjustments) is Ok,
        gid < metrics.len() <= 0xffff,
    ensures
        ({
            let out = outline_tables(font, g, metrics, adjustments)->Ok_0;
            let hmtx = table_bytes(out, HMTX);
            let hhea = hhea_fields(table_bytes(out, HHEA)->0);
            let head = head_fields(table_bytes(out, HEAD)->0);
            &&& table_bytes(out, GLYF) == Some(g.glyf) && table_bytes(out, LOCA) == Some(g.loca)
            &&& hmtx is Some && table_bytes(out, HHEA) is Some && table_bytes(out, HEAD) is Some
            &&& hhea is Some && head is Some
            &&& crate::glyphs::advance_of(hmtx->0, hhea->0.number_of_h_metrics, gid) == Some(
                metrics[gid as int].0,
            )
            &&& crate::glyphs::bearing_of(hmtx->0, hhea->0.number_of_h_metrics, gid) == Some(
                metrics[gid as int].1,
            )
            &&& head->0.loc_format == if g.is_long {
                1int
            } else {
                0
            }
        }),
{
    let out = outline_tables(font, g, metrics, adjustments)->Ok_0;
    let (old, head, counted) = lemma_outline_tables(font, g, metrics, adjustments);
    lemma_all_found(out);
    lemma_head_format(old, head);
    lemma_metrics_read(metrics, counted.number_of_h_metrics, gid);
    lemma_hhea_count(adjusted_hhea(counted, adjustments));
    assert(table_bytes(out, out[0].tag) == Some(g.glyf));
    assert(table_bytes(out, out[1].tag) == Some(g.loca));
    assert(table_bytes(out, out[2].tag) == Some(hmtx_bytes(metrics)));
    assert(table_bytes(out, out[3].tag) == Some(head_bytes(old, head)));
    assert(table_bytes(out, out[4].tag) == Some(hhea_bytes(adjusted_hhea(counted, adjustments))));
}

proof fn lemma_metrics_read(metrics: Seq<(u16, i16)>, count: u16, gid: u32)
    requires
        gid < metrics.len() <= 0xffff,
        count == long_count(metrics) % 0x1_0000,
    ensures
        crate::glyphs::advance_of(hmtx_bytes(metrics), count, gid) == Some(metrics[gid as int].0),
        crate::glyphs::bearing_of(hmtx_bytes(metrics), count, gid) == Some(metrics[gid as int].1),
{
    crate::statics::metrics_survive_compression(metrics, gid);
    crate::statics::lemma_long_count(metrics, metrics.len() as int);
    assert(count == long_count(metrics) as u16);
}

proof fn lemma_all_found(out: Seq<TableView>)
    requires
        crate::tables::distinct_tags(out),
    ensures
        forall|i: int|
            0 <= i < out.len() ==> table_bytes(out, (#[trigger] out[i]).tag) == Some(out[i].bytes),
{
    assert forall|i: int| 0 <= i < out.len() implies table_bytes(out, (#[trigger] out[i]).tag)
        == Some(out[i].bytes) by {
        crate::tables::lemma_found_by_tag(out, i);
    }
}

proof fn lemma_outline_tables(
    font: Seq<TableView>,
    g: GlyfLocaView,
    metrics: Seq<(u16, i16)>,
    adjustments: Seq<(u32, i32)>,
) -> (parts: (Seq<u8>, HeadFields, HheaFields))
    requires
        outline_tables(font, g, metrics, adjustments) is Ok,
    ensures
        ({
            let out = outline_tables(font, g, metrics, adjustments)->Ok_0;
            let (old, head, counted) = parts;
            &&& out.len() == 5
            &&& crate::tables::distinct_tags(out)
            &&& out[0].tag == GLYF && out[0].bytes == g.glyf
            &&& out[1].tag == LOCA && out[1].bytes == g.loca
            &&& out[2].tag == HMTX && out[2].bytes == hmtx_bytes(metrics)
            &&& out[3].tag == HEAD && out[3].bytes == head_bytes(old, head)
            &&& out[4].tag == HHEA && out[4].bytes == hhea_bytes(
                adjusted_hhea(counted, adjustments),
            )
            &&& old.len() >= 54
            &&& head.loc_format == if g.is_long {
                1int
            } else {
                0
            }
            &&& counted.number_of_h_metrics == long_count(metrics) % 0x1_0000
        }),
{
    reveal(outline_tables);
    let old = table_bytes(font, HEAD)->0;
    let h = head_fields(old)->0;
    let head = HeadFields {
        loc_format: if g.is_long {
            1
        } else {
            0
        },
        ..h
    };
    let f = hhea_fields(table_bytes(font, HHEA)->0)->0;
    let counted = HheaFields {
        number_of_h_metrics: (long_count(metrics) % 0x1_0000) as u16,
        ..f
    };
    (old, head, counted)
}

/// The vertical metrics of a font are those of `vmtx`, of which `vhea` says at byte 34 how many
/// are long.
pub proof fn vertical_metrics_are_counted_in_vhea(
    tables: Seq<TableView>,
    vhea: Seq<u8>,
    vmtx: Seq<u8>,
)
    requires
        table_bytes(tables, crate::tables::VHEA) == Some(vhea),
        table_bytes(tables, crate::tables::VMTX) == Some(vmtx),
        vhea.len() >= 36,
    ensures
        crate::glyphs::vertical_in(tables) matches Some((table, count)) && table == vmtx && count
            == u16_at(vhea, 34),
{
}

// ------------------------------------------------------------------------------ nested boxes

/// True for a glyph that nests no deeper than `d` levels of composites.
pub open spec fn nests_within(glyphs: Seq<GlyphView>, gid: int, d: int) -> bool
    decreases d,
{
    !(glyphs[gid] is Composite) || (d > 0 && forall|i: int|
        0 <= i < glyphs[gid]->components.len() && is_real(
            #[trigger] glyphs[gid]->components[i],
            gid,
            glyphs.len() as int,
        ) ==> nests_within(glyphs, glyphs[gid]->components[i].glyph as int, d - 1))
}

proof fn lemma_nests_more(glyphs: Seq<GlyphView>, gid: int, d: int, e: int)
    requires
        d <= e,
        nests_within(glyphs, gid, d),
    ensures
        nests_within(glyphs, gid, e),
    decreases e,
{
    if glyphs[gid] is Composite {
        let parts = glyphs[gid]->components;
        assert forall|i: int|
            0 <= i < parts.len() && is_real(
                #[trigger] parts[i],
                gid,
                glyphs.len() as int,
            ) implies nests_within(glyphs, parts[i].glyph as int, e - 1) by {
            lemma_nests_more(glyphs, parts[i].glyph as int, d - 1, e - 1);
        }
    }
}

/// True when two lists of boxes agree on all glyphs that nest no deeper than `d`.
spec fn agree_within(glyphs: Seq<GlyphView>, a: Seq<Bounds>, b: Seq<Bounds>, d: int) -> bool {
    &&& a.len() == glyphs.len() && b.len() == glyphs.len()
    &&& forall|g: int|
        0 <= g < glyphs.len() && #[trigger] nests_within(glyphs, g, d) ==> a[g] == b[g]
}

/// The box of a glyph depends only on the boxes of what nests less deeply.
proof fn lemma_same_box(
    glyphs: Seq<GlyphView>,
    gid: int,
    a: Seq<Bounds>,
    b: Seq<Bounds>,
    d: int,
    n: int,
)
    requires
        0 <= gid < glyphs.len(),
        glyphs[gid] is Composite,
        nests_within(glyphs, gid, d),
        agree_within(glyphs, a, b, d - 1),
        0 <= n <= glyphs[gid]->components.len(),
    ensures
        components_box(glyphs[gid]->components, n, gid, a) == components_box(
            glyphs[gid]->components,
            n,
            gid,
            b,
        ),
    decreases n,
{
    if n > 0 {
        lemma_same_box(glyphs, gid, a, b, d, n - 1);
        let c = glyphs[gid]->components[n - 1];
        if is_real(c, gid, glyphs.len() as int) {
            assert(is_real(glyphs[gid]->components[n - 1], gid, glyphs.len() as int));
            assert(nests_within(glyphs, c.glyph as int, d - 1));
        }
    }
}

/// True when every glyph that nests no deeper than `d` has the box that its components give it.
spec fn is_settled(glyphs: Seq<GlyphView>, boxes: Seq<Bounds>, d: int) -> bool {
    &&& boxes.len() == glyphs.len()
    &&& forall|g: int|
        0 <= g < glyphs.len() && #[trigger] nests_within(glyphs, g, d) ==> boxes[g]
            == resolved_box(glyphs[g], g, boxes)
}

/// A pass leaves what is settled as it is, and settles one level more.
proof fn lemma_pass_settles(glyphs: Seq<GlyphView>, boxes: Seq<Bounds>, d: int, n: int)
    requires
        0 <= n <= glyphs.len(),
        0 <= d,
        is_settled(glyphs, boxes, d),
    ensures
        ({
            let out = pass(glyphs, boxes, n);
            &&& agree_within(glyphs, boxes, out, d)
            &&& forall|g: int|
                0 <= g < n && #[trigger] nests_within(glyphs, g, d + 1) ==> out[g] == resolved_box(
                    glyphs[g],
                    g,
                    boxes,
                )
        }),
    decreases n,
{
    if n > 0 {
        lemma_pass_settles(glyphs, boxes, d, n - 1);
        let before = pass(glyphs, boxes, n - 1);
        let out = pass(glyphs, boxes, n);
        let k = n - 1;
        if nests_within(glyphs, k, d + 1) {
            if glyphs[k] is Composite {
                lemma_same_box(
                    glyphs,
                    k,
                    boxes,
                    before,
                    d + 1,
                    glyphs[k]->components.len() as int,
                );
            } else {
                lemma_nests_more(glyphs, k, 0, d);
                assert(nests_within(glyphs, k, d));
                assert(before[k] == boxes[k]);
            }
            assert(out[k] == resolved_box(glyphs[k], k, boxes));
        }
        assert forall|g: int| 0 <= g < glyphs.len() && #[trigger] nests_within(glyphs, g, d) implies
            boxes[g] == out[g] by {
            if g == k {
                lemma_nests_more(glyphs, g, d, d + 1);
            } else {
                assert(out[g] == before[g]);
            }
        }
        assert forall|g: int| 0 <= g < n && #[trigger] nests_within(glyphs, g, d + 1) implies out[g]
            == resolved_box(glyphs[g], g, boxes) by {
            if g < k {
                assert(out[g] == before[g]);
            }
        }
    }
}

proof fn lemma_passes_settle_levels(glyphs: Seq<GlyphView>, d: int)
    requires
        0 <= d,
    ensures
        is_settled(glyphs, passes(glyphs, own_boxes(glyphs), d), d),
    decreases d,
{
    let out = passes(glyphs, own_boxes(glyphs), d);
    lemma_passes(glyphs, d);
    if d == 0 {
        assert forall|g: int| 0 <= g < glyphs.len() && #[trigger] nests_within(glyphs, g, 0) implies
            out[g] == resolved_box(glyphs[g], g, out) by {}
    } else {
        lemma_passes_settle_levels(glyphs, d - 1);
        let before = passes(glyphs, own_boxes(glyphs), d - 1);
        lemma_pass_settles(glyphs, before, d - 1, glyphs.len() as int);
        assert forall|g: int| 0 <= g < glyphs.len() && #[trigger] nests_within(glyphs, g, d) implies
            out[g] == resolved_box(glyphs[g], g, out) by {
            let e = d - 1;
            assert(nests_within(glyphs, g, e + 1));
            assert(out[g] == resolved_box(glyphs[g], g, before));
            if glyphs[g] is Composite {
                lemma_same_box(glyphs, g, before, out, d, glyphs[g]->components.len() as int);
            }
        }
    }
}

/// However composites nest, up to eight levels, each has the smallest box that encloses the
/// boxes of its components, moved into place.
pub proof fn nested_composites_are_boxed_by_their_components(glyphs: Seq<GlyphView>, gid: int)
    requires
        0 <= gid < glyphs.len(),
        nests_within(glyphs, gid, 8),
        glyphs[gid] is Composite,
    ensures
        ({
            let boxes = bounding_boxes(glyphs);
            let parts = glyphs[gid]->components;
            &&& boxes.len() == glyphs.len()
            &&& boxed(glyphs)[gid]->Composite_bbox == boxes[gid]
            &&& forall|i: int|
                0 <= i < parts.len() && is_real(#[trigger] parts[i], gid, glyphs.len() as int)
                    ==> encloses(
                    boxes[gid],
                    moved_box(parts[i], boxes[parts[i].glyph as int]),
                )
            &&& forall|other: Bounds|
                (exists|i: int|
                    0 <= i < parts.len() && is_real(
                        #[trigger] parts[i],
                        gid,
                        glyphs.len() as int,
                    )) && (forall|i: int|
                    0 <= i < parts.len() && is_real(#[trigger] parts[i], gid, glyphs.len() as int)
                        ==> encloses(
                        other,
                        moved_box(parts[i], boxes[parts[i].glyph as int]),
                    )) ==> #[trigger] encloses(other, boxes[gid])
        }),
{
    let boxes = bounding_boxes(glyphs);
    let parts = glyphs[gid]->components;
    lemma_passes_settle_levels(glyphs, 8);
    assert(boxes == passes(glyphs, own_boxes(glyphs), 8));
    a_composite_is_boxed_by_its_components(parts, parts.len() as int, gid, boxes);
    assert(boxes[gid] == resolved_box(glyphs[gid], gid, boxes));
}

/// Long metrics are written for no more glyphs than need them: behind the last one that has its
/// own advance, all share the advance of the last long metric.
pub proof fn equal_advances_at_the_end_are_written_once(metrics: Seq<(u16, i16)>)
    requires
        metrics.len() > 0,
    ensures
        1 <= long_count(metrics) <= metrics.len(),
        forall|i: int|
            long_count(metrics) <= i < metrics.len() ==> (#[trigger] metrics[i]).0
                == metrics[long_count(metrics) - 1].0,
        long_count(metrics) > 1 ==> metrics[long_count(metrics) - 2].0 != metrics[long_count(
            metrics,
        ) - 1].0,
{
    let n = metrics.len() as int;
    crate::statics::lemma_long_count(metrics, n);
    lemma_long_count_least(metrics, n);
    let k = long_count(metrics);
    assert(metrics[k - 1].0 == metrics.last().0);
    assert forall|i: int| k <= i < metrics.len() implies (#[trigger] metrics[i]).0 == metrics[k
        - 1].0 by {
        assert(metrics[i].0 == metrics.last().0);
    }
}

proof fn lemma_long_count_least(metrics: Seq<(u16, i16)>, n: int)
    requires
        1 <= n <= metrics.len(),
    ensures
        crate::statics::long_count_of(metrics, n) > 1 ==> metrics[crate::statics::long_count_of(
            metrics,
            n,
        ) - 2].0 != metrics.last().0,
    decreases n,
{
    if n > 1 && metrics[n - 2].0 == metrics.last().0 {
        lemma_long_count_least(metrics, n - 1);
    }
}

/// Offsets to glyphs are written in the short form as long as it can hold them.
pub proof fn offsets_are_short_where_they_can_be(data: Seq<Seq<u8>>)
    ensures
        crate::outline::glyf_loca(data).is_long <==> crate::bytes::total_len(data) > 2 * 0xffff + 1,
{
}

} // verus!
