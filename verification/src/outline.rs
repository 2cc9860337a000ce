//! Turning point sets back into glyphs, and glyphs into `glyf` and `loca`.
use read_fonts::tables::glyf::{CompositeGlyphFlags, CurvePoint};
use vstd::prelude::*;
use write_fonts::dump_table;
use write_fonts::tables::glyf::{
    Anchor as WrittenAnchor, Bbox, Component as WrittenComponent, CompositeGlyph, Contour,
    SimpleGlyph, Transform as WrittenTransform,
};
use write_fonts::types::{F2Dot14, GlyphId};

use crate::bytes::{be16, be32, concat, push_all, push_u16, push_u32, total_len};
use crate::glyphs::{
    component_offsets, no_bounds, on_curve_flags, point_coords, points_of, union_of, Anchor,
    Bounds, Component, GlyphPoints, GlyphShape, OutlineView, PhantomView, Point, PointsView,
    ShapeView, PHANTOM_COUNT,
};

verus! {

/// A glyph, ready to be written.
#[derive(Debug)]
pub enum Glyph {
    Empty,
    Simple(SimpleShape),
    Composite(CompositeShape),
}

/// A simple glyph, ready to be written.
#[derive(Debug)]
pub struct SimpleShape {
    pub bbox: Bounds,
    pub contours: Vec<Vec<Point>>,
    pub instructions: Vec<u8>,
    pub overlaps: bool,
}

/// A composite glyph, ready to be written.
#[derive(Debug)]
pub struct CompositeShape {
    pub bbox: Bounds,
    pub components: Vec<Component>,
    pub instructions: Vec<u8>,
}

/// What a [`Glyph`] holds.
pub enum GlyphView {
    Empty,
    Simple { bbox: Bounds, contours: Seq<Seq<Point>>, instructions: Seq<u8>, overlaps: bool },
    Composite { bbox: Bounds, components: Seq<Component>, instructions: Seq<u8> },
}

pub open spec fn contour_views(contours: Seq<Vec<Point>>) -> Seq<Seq<Point>> {
    contours.map_values(|c: Vec<Point>| c@)
}

impl View for Glyph {
    type V = GlyphView;

    open spec fn view(&self) -> GlyphView {
        match *self {
            Glyph::Empty => GlyphView::Empty,
            Glyph::Simple(s) => GlyphView::Simple {
                bbox: s.bbox,
                contours: contour_views(s.contours@),
                instructions: s.instructions@,
                overlaps: s.overlaps,
            },
            Glyph::Composite(c) => GlyphView::Composite {
                bbox: c.bbox,
                components: c.components@,
                instructions: c.instructions@,
            },
        }
    }
}

pub open spec fn glyph_views(glyphs: Seq<Glyph>) -> Seq<GlyphView> {
    glyphs.map_values(|g: Glyph| g@)
}

// -------------------------------------------------------------------- building glyphs

/// `v` in sixteen bits, as a truncation leaves it.
pub open spec fn wrap16(v: int) -> i16 {
    ((v + 0x8000) % 0x1_0000 - 0x8000) as i16
}

pub fn to_i16(v: i32) -> (r: i16)
    ensures
        r == wrap16(v as int),
{
    let shifted: i64 = (v as i64 + 0x8000_0000_8000) % 0x1_0000;
    assert((v + 0x8000) % 0x1_0000 == (v + 0x8000_0000_8000) % 0x1_0000);
    (shifted - 0x8000) as i16
}

/// Point number `i` of a simple glyph.
pub open spec fn built_point(points: PointsView, i: int) -> Point {
    let on_curve = points.shape->Simple_on_curve;
    Point {
        x: wrap16(points.coords[i].0 as int),
        y: wrap16(points.coords[i].1 as int),
        on_curve: if i < on_curve.len() {
            on_curve[i]
        } else {
            true
        },
    }
}

/// The points from `from` up to `to`.
pub open spec fn built_points(points: PointsView, from: int, to: int) -> Seq<Point> {
    Seq::new((to - from) as nat, |i: int| built_point(points, from + i))
}

/// Where the contour that ends at `end_pts[k]` stops, if there are that many points.
pub open spec fn contour_end(points: PointsView, k: int) -> int {
    let outline_len = points.coords.len() - PHANTOM_COUNT;
    if points.end_pts[k] + 1 <= outline_len {
        points.end_pts[k] + 1
    } else {
        outline_len
    }
}

/// Where the first `k` contours stop. A contour that ends before it starts is left out.
pub open spec fn contours_stop(points: PointsView, k: int) -> int
    decreases k,
{
    if k <= 0 {
        0
    } else {
        let before = contours_stop(points, k - 1);
        if contour_end(points, k - 1) <= before {
            before
        } else {
            contour_end(points, k - 1)
        }
    }
}

/// The first `k` contours.
pub open spec fn built_contours(points: PointsView, k: int) -> Seq<Seq<Point>>
    decreases k,
{
    if k <= 0 {
        Seq::empty()
    } else {
        let before = contours_stop(points, k - 1);
        let end = contour_end(points, k - 1);
        if end <= before {
            built_contours(points, k - 1)
        } else {
            built_contours(points, k - 1).push(built_points(points, before, end))
        }
    }
}

pub open spec fn point_box(p: Point) -> Bounds {
    Bounds { x_min: p.x, y_min: p.y, x_max: p.x, y_max: p.y }
}

/// The smallest box that covers all points.
pub open spec fn points_box(points: Seq<Point>) -> Bounds
    decreases points.len(),
{
    if points.len() == 0 {
        no_bounds()
    } else if points.len() == 1 {
        point_box(points[0])
    } else {
        union_of(points_box(points.drop_last()), point_box(points.last()))
    }
}

/// A component with its place taken from the point list. One that is placed by matching
/// points stays as it is.
pub open spec fn placed(points: PointsView, i: int) -> Component {
    let c = points.shape->Composite_components[i];
    match c.anchor {
        Anchor::Point { .. } => c,
        Anchor::Offset { .. } => Component {
            anchor: Anchor::Offset {
                x: wrap16(points.coords[i].0 as int),
                y: wrap16(points.coords[i].1 as int),
            },
            ..c
        },
    }
}

/// The glyph that a point set describes. The box of a composite depends on the glyphs it
/// refers to, and is left blank.
pub open spec fn built_glyph(points: PointsView) -> GlyphView {
    match points.shape {
        ShapeView::Empty => GlyphView::Empty,
        ShapeView::Simple { instructions, overlaps, .. } => {
            let k = points.end_pts.len() as int;
            if built_contours(points, k).len() == 0 {
                GlyphView::Empty
            } else {
                GlyphView::Simple {
                    bbox: points_box(built_points(points, 0, contours_stop(points, k))),
                    contours: built_contours(points, k),
                    instructions,
                    overlaps,
                }
            }
        },
        ShapeView::Composite { components, instructions } => if components.len() == 0 {
            GlyphView::Empty
        } else {
            GlyphView::Composite {
                bbox: no_bounds(),
                components: Seq::new(components.len(), |i: int| placed(points, i)),
                instructions,
            }
        },
    }
}

/// True for a point set whose list is long enough: the phantom points are there, and each
/// component has its place.
pub open spec fn has_places(points: PointsView) -> bool {
    points.coords.len() >= PHANTOM_COUNT && (points.shape matches ShapeView::Composite {
        components,
        ..
    } ==> components.len() <= points.coords.len())
}

/// Turn a point set, with its coordinates rounded to integers, back into a glyph.
pub fn build_glyph(points: &GlyphPoints) -> (r: Glyph)
    requires
        has_places(points@),
    ensures
        r@ == built_glyph(points@),
{
    match &points.shape {
        GlyphShape::Empty => Glyph::Empty,
        GlyphShape::Simple { on_curve, instructions, overlaps } => {
            build_simple(points, on_curve, instructions, *overlaps)
        },
        GlyphShape::Composite { components, instructions } => {
            if components.len() == 0 {
                return Glyph::Empty;
            }
            let ghost view = points@;
            let mut built: Vec<Component> = Vec::new();
            for i in 0..components.len()
                invariant
                    view == points@,
                    has_places(view),
                    view.shape matches ShapeView::Composite { components: cs, .. } && cs
                        == components@,
                    built@.len() == i,
                    forall|k: int| 0 <= k < i ==> #[trigger] built@[k] == placed(view, k),
            {
                let c: Component = components[i];
                let anchor: Anchor = match c.anchor {
                    Anchor::Point { base, component } => Anchor::Point { base, component },
                    Anchor::Offset { .. } => Anchor::Offset {
                        x: to_i16(points.coords[i].0),
                        y: to_i16(points.coords[i].1),
                    },
                };
                built.push(
                    Component { glyph: c.glyph, anchor, flags: c.flags, transform: c.transform },
                );
            }
            assert(built@ =~= Seq::new(components@.len(), |i: int| placed(view, i)));
            Glyph::Composite(
                CompositeShape {
                    bbox: Bounds { x_min: 0, y_min: 0, x_max: 0, y_max: 0 },
                    components: built,
                    instructions: crate::bytes::copy(instructions),
                },
            )
        },
    }
}

fn build_simple(
    points: &GlyphPoints,
    on_curve: &Vec<bool>,
    instructions: &Vec<u8>,
    overlaps: bool,
) -> (r: Glyph)
    requires
        has_places(points@),
        points@.shape == (ShapeView::Simple {
            on_curve: on_curve@,
            instructions: instructions@,
            overlaps,
        }),
    ensures
        r@ == built_glyph(points@),
{
    let ghost view = points@;
    let outline_len: usize = points.coords.len() - PHANTOM_COUNT;
    let mut contours: Vec<Vec<Point>> = Vec::new();
    let mut bbox: Bounds = Bounds { x_min: 0, y_min: 0, x_max: 0, y_max: 0 };
    let mut start: usize = 0;
    assert(contour_views(contours@) =~= built_contours(view, 0));
    for k in 0..points.end_pts.len()
        invariant
            view == points@,
            has_places(view),
            outline_len == view.coords.len() - PHANTOM_COUNT,
            view.shape matches ShapeView::Simple { on_curve: flags, .. } && flags == on_curve@,
            start == contours_stop(view, k as int),
            start <= outline_len,
            contour_views(contours@) == built_contours(view, k as int),
            bbox == points_box(built_points(view, 0, start as int)),
            contours@.len() == 0 <==> start == 0,
    {
        let wanted: usize = points.end_pts[k] as usize + 1;
        let end: usize = if wanted <= outline_len {
            wanted
        } else {
            outline_len
        };
        if end > start {
            let ghost before = contour_views(contours@);
            let mut contour: Vec<Point> = Vec::new();
            let from: usize = start;
            assert(contour@ =~= built_points(view, from as int, from as int));
            for i in from..end
                invariant
                    view == points@,
                    from <= end <= outline_len,
                    outline_len == view.coords.len() - PHANTOM_COUNT,
                    view.shape matches ShapeView::Simple { on_curve: flags, .. } && flags
                        == on_curve@,
                    contour@ == built_points(view, from as int, i as int),
                    bbox == points_box(built_points(view, 0, i as int)),
            {
                let p: Point = Point {
                    x: to_i16(points.coords[i].0),
                    y: to_i16(points.coords[i].1),
                    on_curve: if i < on_curve.len() {
                        on_curve[i]
                    } else {
                        true
                    },
                };
                assert(p == built_point(view, i as int));
                contour.push(p);
                assert(contour@ =~= built_points(view, from as int, i + 1));
                let one: Bounds = Bounds { x_min: p.x, y_min: p.y, x_max: p.x, y_max: p.y };
                proof {
                    let all = built_points(view, 0, i + 1);
                    assert(all.drop_last() =~= built_points(view, 0, i as int));
                    assert(all.last() == p);
                }
                bbox = if i == 0 {
                    one
                } else {
                    bbox.union(one)
                };
            }
            let ghost added = contour@;
            contours.push(contour);
            assert(contour_views(contours@) =~= before.push(added));
            start = end;
        }
    }
    if contours.len() == 0 {
        return Glyph::Empty;
    }
    Glyph::Simple(
        SimpleShape { bbox, contours, instructions: crate::bytes::copy(instructions), overlaps },
    )
}

/// All points of the contours, one contour after another.
pub open spec fn all_points(contours: Seq<Seq<Point>>) -> Seq<Point>
    decreases contours.len(),
{
    if contours.len() == 0 {
        Seq::empty()
    } else {
        all_points(contours.drop_last()) + contours.last()
    }
}

/// The contours hold the points of the outline in order, each once, up to where the last
/// contour ends.
pub proof fn contours_hold_the_points(points: PointsView, k: int)
    requires
        has_places(points),
        0 <= k <= points.end_pts.len(),
    ensures
        all_points(built_contours(points, k)) == built_points(points, 0, contours_stop(points, k)),
        0 <= contours_stop(points, k) <= points.coords.len() - PHANTOM_COUNT,
        forall|i: int|
            0 <= i < built_contours(points, k).len() ==> (#[trigger] built_contours(
                points,
                k,
            )[i]).len() > 0,
    decreases k,
{
    if k > 0 {
        contours_hold_the_points(points, k - 1);
        let before = contours_stop(points, k - 1);
        let end = contour_end(points, k - 1);
        if end > before {
            let more = built_contours(points, k);
            assert(more.drop_last() =~= built_contours(points, k - 1));
            assert(built_points(points, 0, end) =~= built_points(points, 0, before) + built_points(
                points,
                before,
                end,
            ));
            assert(built_points(points, before, end).len() > 0);
        }
    } else {
        assert(all_points(built_contours(points, k)) =~= built_points(points, 0, 0));
    }
}

// ----------------------------------------------------------------------- bounding boxes

/// A corner of a box, moved by a component: the exact place, rounded with halves upwards.
pub open spec fn moved(a: i16, b: i16, x: i16, y: i16, offset: int) -> i16 {
    wrap16((a * x + b * y + offset * 16384 + 8192) / 16384)
}

pub open spec fn moved_corner(c: Component, x: i16, y: i16) -> Bounds {
    let (dx, dy): (int, int) = match c.anchor {
        Anchor::Offset { x, y } => (x as int, y as int),
        Anchor::Point { .. } => (0, 0),
    };
    let t = c.transform;
    let tx = moved(t.xx, t.xy, x, y, dx);
    let ty = moved(t.yx, t.yy, x, y, dy);
    Bounds { x_min: tx, y_min: ty, x_max: tx, y_max: ty }
}

/// The box that covers the four corners of `b`, moved by a component.
pub open spec fn moved_box(c: Component, b: Bounds) -> Bounds {
    union_of(
        union_of(
            union_of(moved_corner(c, b.x_min, b.y_min), moved_corner(c, b.x_max, b.y_min)),
            moved_corner(c, b.x_min, b.y_max),
        ),
        moved_corner(c, b.x_max, b.y_max),
    )
}

/// The box that covers the first `n` components of glyph `gid`, where every glyph has the
/// box that `bounds` gives. A component that refers to no glyph, or to the glyph itself,
/// adds nothing.
pub open spec fn components_box(
    components: Seq<Component>,
    n: int,
    gid: int,
    bounds: Seq<Bounds>,
) -> Option<Bounds>
    decreases n,
{
    if n <= 0 {
        None
    } else {
        let before = components_box(components, n - 1, gid, bounds);
        let c = components[n - 1];
        if c.glyph >= bounds.len() || c.glyph == gid {
            before
        } else {
            let b = moved_box(c, bounds[c.glyph as int]);
            Some(
                match before {
                    None => b,
                    Some(acc) => union_of(acc, b),
                },
            )
        }
    }
}

/// The box of a glyph, where every other has the box that `bounds` gives.
pub open spec fn resolved_box(glyph: GlyphView, gid: int, bounds: Seq<Bounds>) -> Bounds {
    match glyph {
        GlyphView::Composite { components, .. } => match components_box(
            components,
            components.len() as int,
            gid,
            bounds,
        ) {
            Some(b) => b,
            None => no_bounds(),
        },
        _ => bounds[gid],
    }
}

/// The boxes after the first `n` glyphs have been resolved, one after another.
pub open spec fn pass(glyphs: Seq<GlyphView>, bounds: Seq<Bounds>, n: int) -> Seq<Bounds>
    decreases n,
{
    if n <= 0 {
        bounds
    } else {
        let before = pass(glyphs, bounds, n - 1);
        before.update(n - 1, resolved_box(glyphs[n - 1], n - 1, before))
    }
}

/// The boxes after `n` passes over all glyphs.
pub open spec fn passes(glyphs: Seq<GlyphView>, bounds: Seq<Bounds>, n: int) -> Seq<Bounds>
    decreases n,
{
    if n <= 0 {
        bounds
    } else {
        let before = passes(glyphs, bounds, n - 1);
        pass(glyphs, before, glyphs.len() as int)
    }
}

/// The box that a glyph starts with: its own if it is simple, and otherwise a blank one.
pub open spec fn own_box(glyph: GlyphView) -> Bounds {
    match glyph {
        GlyphView::Simple { bbox, .. } => bbox,
        _ => no_bounds(),
    }
}

pub open spec fn own_boxes(glyphs: Seq<GlyphView>) -> Seq<Bounds> {
    glyphs.map_values(|g: GlyphView| own_box(g))
}

/// How many passes are made. Composites nest, and each pass reaches one level further.
pub const MAX_PASSES: usize = 8;

/// The bounding boxes of all glyphs, composites resolved against their components.
pub open spec fn bounding_boxes(glyphs: Seq<GlyphView>) -> Seq<Bounds> {
    passes(glyphs, own_boxes(glyphs), MAX_PASSES as int)
}

/// Once a pass changes nothing, no later one does.
proof fn lemma_passes_settle(glyphs: Seq<GlyphView>, bounds: Seq<Bounds>, n: int, m: int)
    requires
        0 <= n <= m,
        pass(glyphs, passes(glyphs, bounds, n), glyphs.len() as int) == passes(glyphs, bounds, n),
    ensures
        passes(glyphs, bounds, m) == passes(glyphs, bounds, n),
    decreases m,
{
    if n < m {
        lemma_passes_settle(glyphs, bounds, n, m - 1);
    }
}

fn moved_to(a: i16, b: i16, x: i16, y: i16, offset: i16) -> (r: i16)
    ensures
        r == moved(a, b, x, y, offset as int),
{
    proof {
        assert(-0x4000_0000 <= a * x <= 0x4000_0000) by (nonlinear_arith)
            requires
                -0x8000 <= a <= 0x7fff,
                -0x8000 <= x <= 0x7fff,
        ;
        assert(-0x4000_0000 <= b * y <= 0x4000_0000) by (nonlinear_arith)
            requires
                -0x8000 <= b <= 0x7fff,
                -0x8000 <= y <= 0x7fff,
        ;
    }
    let sum: i64 = (a as i64) * (x as i64) + (b as i64) * (y as i64) + (offset as i64) * 16384
        + 8192;
    // Rounded down, for which the sum is made positive by a multiple of the divisor.
    let lifted: i64 = sum + 0x10_0000_0000;
    let q: i64 = lifted / 16384 - 0x40_0000;
    assert(q == sum / 16384);
    to_i16(q as i32)
}

fn corner(c: &Component, x: i16, y: i16) -> (r: Bounds)
    ensures
        r == moved_corner(*c, x, y),
{
    let (dx, dy): (i16, i16) = match c.anchor {
        Anchor::Offset { x, y } => (x, y),
        Anchor::Point { .. } => (0, 0),
    };
    let tx: i16 = moved_to(c.transform.xx, c.transform.xy, x, y, dx);
    let ty: i16 = moved_to(c.transform.yx, c.transform.yy, x, y, dy);
    Bounds { x_min: tx, y_min: ty, x_max: tx, y_max: ty }
}

fn resolve(components: &Vec<Component>, gid: usize, bounds: &Vec<Bounds>) -> (r: Bounds)
    ensures
        r == match components_box(components@, components@.len() as int, gid as int, bounds@) {
            Some(b) => b,
            None => no_bounds(),
        },
{
    let mut acc: Option<Bounds> = None;
    for i in 0..components.len()
        invariant
            acc == components_box(components@, i as int, gid as int, bounds@),
    {
        let c: Component = components[i];
        let base: u64 = c.glyph as u64;
        if base < bounds.len() as u64 && base != gid as u64 {
            let b: Bounds = bounds[c.glyph as usize];
            let moved: Bounds = corner(&c, b.x_min, b.y_min).union(
                corner(&c, b.x_max, b.y_min),
            ).union(corner(&c, b.x_min, b.y_max)).union(corner(&c, b.x_max, b.y_max));
            acc = Some(
                match acc {
                    None => moved,
                    Some(so_far) => so_far.union(moved),
                },
            );
        }
    }
    match acc {
        Some(b) => b,
        None => Bounds { x_min: 0, y_min: 0, x_max: 0, y_max: 0 },
    }
}

/// Bounding boxes for every glyph, resolving composites against their components.
///
/// Composites can nest, so this repeats until nothing changes rather than recursing; that
/// also means a cyclic composite reference terminates.
pub fn compute_bounding_boxes(shapes: &Vec<Glyph>) -> (r: Vec<Bounds>)
    ensures
        r@ == bounding_boxes(glyph_views(shapes@)),
        r@.len() == shapes@.len(),
{
    let ghost views = glyph_views(shapes@);
    let ghost start = own_boxes(views);
    let mut bounds: Vec<Bounds> = Vec::new();
    for i in 0..shapes.len()
        invariant
            views == glyph_views(shapes@),
            start == own_boxes(views),
            bounds@ == start.take(i as int),
    {
        assert(views[i as int] == shapes@[i as int]@);
        let b: Bounds = match &shapes[i] {
            Glyph::Simple(s) => s.bbox,
            _ => Bounds { x_min: 0, y_min: 0, x_max: 0, y_max: 0 },
        };
        bounds.push(b);
        assert(bounds@ =~= start.take(i + 1));
    }
    assert(bounds@ =~= start);
    for p in 0..MAX_PASSES
        invariant
            views == glyph_views(shapes@),
            start == own_boxes(views),
            bounds@ == passes(views, start, p as int),
            bounds@.len() == shapes@.len(),
    {
        let ghost before = bounds@;
        let mut changed: bool = false;
        for gid in 0..shapes.len()
            invariant
                views == glyph_views(shapes@),
                before.len() == shapes@.len(),
                bounds@ == pass(views, before, gid as int),
                bounds@.len() == shapes@.len(),
                !changed ==> bounds@ == before,
        {
            assert(views[gid as int] == shapes@[gid as int]@);
            let ghost now = bounds@;
            match &shapes[gid] {
                Glyph::Composite(c) => {
                    let new: Bounds = resolve(&c.components, gid, &bounds);
                    let old: Bounds = bounds[gid];
                    let same: bool = old.x_min == new.x_min && old.y_min == new.y_min && old.x_max
                        == new.x_max && old.y_max == new.y_max;
                    if !same {
                        changed = true;
                    }
                    bounds.set(gid, new);
                    proof {
                        if same {
                            assert(bounds@ =~= now);
                        }
                    }
                },
                _ => {
                    assert(now.update(gid as int, now[gid as int]) =~= now);
                },
            }
        }
        if !changed {
            proof {
                lemma_passes_settle(views, start, p as int, MAX_PASSES as int);
            }
            return bounds;
        }
    }
    bounds
}

// ------------------------------------------------------------------------------ writing

/// True when the step to point number `i`, from the one before or from the origin, fits
/// sixteen bits.
pub open spec fn step_fits(points: Seq<Point>, i: int) -> bool {
    let x: int = if i == 0 {
        0
    } else {
        points[i - 1].x as int
    };
    let y: int = if i == 0 {
        0
    } else {
        points[i - 1].y as int
    };
    -0x8000 <= points[i].x - x <= 0x7fff && -0x8000 <= points[i].y - y <= 0x7fff
}

/// True for points that a simple glyph can store: each step from one to the next fits.
pub open spec fn steps_fit(points: Seq<Point>) -> bool {
    forall|i: int| 0 <= i < points.len() ==> #[trigger] step_fits(points, i)
}

/// True for contours and instructions that a simple glyph can store: their numbers fit its
/// fields.
pub open spec fn is_storable(contours: Seq<Seq<Point>>, instructions: Seq<u8>) -> bool {
    &&& contours.len() < 0x7fff
    &&& instructions.len() < 0xffff
    &&& all_points(contours).len() <= 0xffff
    &&& forall|i: int| 0 <= i < contours.len() ==> (#[trigger] contours[i]).len() > 0
    &&& steps_fit(all_points(contours))
}

/// The data of a simple glyph, or why it cannot be written.
pub uninterp spec fn simple_written(
    bbox: Bounds,
    contours: Seq<Seq<Point>>,
    instructions: Seq<u8>,
    overlaps: bool,
) -> Result<Seq<u8>, Seq<char>>;

/// Calls `write_fonts::dump_table` on a `write_fonts::tables::glyf::SimpleGlyph`. The
/// result has a name; its length is even, as glyphs are padded to two bytes.
#[verifier::external_body]
fn write_simple(s: &SimpleShape) -> (r: Result<Vec<u8>, String>)
    requires
        is_storable(contour_views(s.contours@), s.instructions@),
    ensures
        match r {
            Ok(bytes) => simple_written(
                s.bbox,
                contour_views(s.contours@),
                s.instructions@,
                s.overlaps,
            ) == Ok::<Seq<u8>, Seq<char>>(bytes@) && bytes@.len() % 2 == 0,
            Err(text) => simple_written(
                s.bbox,
                contour_views(s.contours@),
                s.instructions@,
                s.overlaps,
            ) == Err::<Seq<u8>, Seq<char>>(text@),
        },
{
    let points = |c: &Vec<Point>| -> Contour {
        let points: Vec<_> = c.iter().map(|p| CurvePoint::new(p.x, p.y, p.on_curve)).collect();
        points.into()
    };
    let (x_min, y_min, x_max, y_max) = (s.bbox.x_min, s.bbox.y_min, s.bbox.x_max, s.bbox.y_max);
    let glyph = SimpleGlyph {
        bbox: Bbox { x_min, y_min, x_max, y_max },
        contours: s.contours.iter().map(points).collect(),
        instructions: s.instructions.clone(),
        overlaps: s.overlaps,
    };
    dump_table(&glyph).map_err(|e| e.to_string())
}

/// A component in the form in which it is written.
#[verifier::external_type_specification]
#[verifier::external_body]
pub struct ExWrittenComponent(WrittenComponent);

/// What a component holds that is ready to be written.
pub uninterp spec fn written_component(c: WrittenComponent) -> Component;

/// The flags of a component that are kept when it is written: `ROUND_XY_TO_GRID`,
/// `USE_MY_METRICS`, `OVERLAP_COMPOUND` and the two on scaled offsets. The others follow from
/// the rest of the glyph.
pub const KEPT_FLAGS: u16 = 0x1e04;

/// A component with no flags but those that are kept.
pub open spec fn kept_component(c: Component) -> Component {
    Component { flags: c.flags & KEPT_FLAGS, ..c }
}

pub open spec fn kept_components(components: Seq<Component>) -> Seq<Component> {
    components.map_values(|c: Component| kept_component(c))
}

/// Calls `write_fonts::tables::glyf::Component::new`. What it holds has a name: it is the
/// component that it was made from, with five of its flags; the others are lost.
#[verifier::external_body]
fn make_component(c: &Component) -> (r: WrittenComponent)
    ensures
        written_component(r) == kept_component(*c),
{
    let bit = F2Dot14::from_bits;
    let anchor = match c.anchor {
        Anchor::Offset { x, y } => WrittenAnchor::Offset { x, y },
        Anchor::Point { base, component } => WrittenAnchor::Point { base, component },
    };
    let t = &c.transform;
    let t = WrittenTransform { xx: bit(t.xx), yx: bit(t.yx), xy: bit(t.xy), yy: bit(t.yy) };
    let flags = CompositeGlyphFlags::from_bits_truncate(c.flags);
    WrittenComponent::new(GlyphId::new(c.glyph), anchor, t, flags)
}

/// The data of a composite glyph, or why it cannot be written.
pub uninterp spec fn composite_written(
    bbox: Bounds,
    components: Seq<Component>,
    instructions: Seq<u8>,
) -> Result<Seq<u8>, Seq<char>>;

pub open spec fn written_components(parts: Seq<WrittenComponent>) -> Seq<Component> {
    parts.map_values(|p: WrittenComponent| written_component(p))
}

/// Calls `write_fonts::tables::glyf::CompositeGlyph::try_from_iter` and
/// `write_fonts::dump_table`. The result has a name; its length is even, as glyphs are
/// padded to two bytes.
#[verifier::external_body]
fn write_composite(bbox: Bounds, parts: Vec<WrittenComponent>, instructions: &[u8]) -> (r: Result<
    Vec<u8>,
    String,
>)
    requires
        parts@.len() > 0,
    ensures
        match r {
            Ok(bytes) => composite_written(bbox, written_components(parts@), instructions@) == Ok::<
                Seq<u8>,
                Seq<char>,
            >(bytes@) && bytes@.len() % 2 == 0,
            Err(text) => composite_written(bbox, written_components(parts@), instructions@) == Err::<
                Seq<u8>,
                Seq<char>,
            >(text@),
        },
{
    let Bounds { x_min, y_min, x_max, y_max } = bbox;
    let bbox = Bbox { x_min, y_min, x_max, y_max };
    let parts = parts.into_iter().map(|part| (part, bbox));
    let mut glyph = CompositeGlyph::try_from_iter(parts).map_err(|e| e.to_string())?;
    glyph.set_instructions(instructions);
    dump_table(&glyph).map_err(|e| e.to_string())
}

fn write_composite_shape(g: &CompositeShape) -> (r: Result<Vec<u8>, String>)
    requires
        g.components@.len() > 0,
    ensures
        match r {
            Ok(bytes) => composite_written(
                g.bbox,
                kept_components(g.components@),
                g.instructions@,
            ) == Ok::<Seq<u8>, Seq<char>>(bytes@) && bytes@.len() % 2 == 0,
            Err(text) => composite_written(
                g.bbox,
                kept_components(g.components@),
                g.instructions@,
            ) == Err::<Seq<u8>, Seq<char>>(text@),
        },
{
    let ghost kept = kept_components(g.components@);
    let mut parts: Vec<WrittenComponent> = Vec::new();
    assert(written_components(parts@) =~= kept.take(0));
    for i in 0..g.components.len()
        invariant
            kept == kept_components(g.components@),
            written_components(parts@) == kept.take(i as int),
    {
        let ghost before = written_components(parts@);
        let part: WrittenComponent = make_component(&g.components[i]);
        parts.push(part);
        assert(written_components(parts@) =~= before.push(kept[i as int]));
        assert(kept.take(i + 1) =~= before.push(kept[i as int]));
    }
    assert(written_components(parts@) =~= kept);
    write_composite(g.bbox, parts, g.instructions.as_slice())
}

/// The data of a glyph, or why it cannot be written.
pub open spec fn glyph_data(g: GlyphView) -> Result<Seq<u8>, Seq<char>> {
    match g {
        GlyphView::Empty => Ok(Seq::empty()),
        GlyphView::Simple { bbox, contours, instructions, overlaps } => if is_storable(
            contours,
            instructions,
        ) {
            simple_written(bbox, contours, instructions, overlaps)
        } else {
            Err("an outline has more than a glyph can store"@)
        },
        GlyphView::Composite { bbox, components, instructions } => if components.len() > 0 {
            composite_written(bbox, kept_components(components), instructions)
        } else {
            Err("a composite glyph has no components"@)
        },
    }
}

/// All points of the contours, one contour after another, unless there are more than a
/// simple glyph can store.
fn flatten(contours: &Vec<Vec<Point>>) -> (r: Option<Vec<Point>>)
    ensures
        match r {
            Some(points) => points@ == all_points(contour_views(contours@)) && points@.len()
                <= 0xffff,
            None => all_points(contour_views(contours@)).len() > 0xffff,
        },
{
    let ghost views = contour_views(contours@);
    let mut all: Vec<Point> = Vec::new();
    assert(all@ =~= all_points(views.take(0)));
    for i in 0..contours.len()
        invariant
            views == contour_views(contours@),
            all@ == all_points(views.take(i as int)),
            all@.len() <= 0xffff,
    {
        let contour: &Vec<Point> = &contours[i];
        let ghost before = all@;
        proof {
            assert(views.take(i + 1).drop_last() =~= views.take(i as int));
            assert(views[i as int] == contour@);
            lemma_all_points_len(views, i + 1);
        }
        if contour.len() > 0xffff - all.len() {
            return None;
        }
        for j in 0..contour.len()
            invariant
                all@ == before + contour@.take(j as int),
        {
            all.push(contour[j]);
            assert(all@ =~= before + contour@.take(j + 1));
        }
        assert(contour@.take(contour@.len() as int) =~= contour@);
    }
    assert(views.take(views.len() as int) =~= views);
    Some(all)
}

proof fn lemma_all_points_len(contours: Seq<Seq<Point>>, n: int)
    requires
        0 <= n <= contours.len(),
    ensures
        all_points(contours.take(n)).len() <= all_points(contours).len(),
    decreases contours.len(),
{
    if n < contours.len() {
        lemma_all_points_len(contours.drop_last(), n);
        assert(contours.drop_last().take(n) =~= contours.take(n));
    } else {
        assert(contours.take(n) =~= contours);
    }
}

fn all_steps_fit(points: &Vec<Point>) -> (ok: bool)
    ensures
        ok == steps_fit(points@),
{
    let mut last: (i32, i32) = (0, 0);
    for i in 0..points.len()
        invariant
            forall|k: int| 0 <= k < i ==> #[trigger] step_fits(points@, k),
            i == 0 ==> last == (0i32, 0i32),
            i > 0 ==> last == (points@[i - 1].x as i32, points@[i - 1].y as i32),
    {
        let p: Point = points[i];
        let dx: i32 = p.x as i32 - last.0;
        let dy: i32 = p.y as i32 - last.1;
        let ok: bool = -0x8000 <= dx && dx <= 0x7fff && -0x8000 <= dy && dy <= 0x7fff;
        assert(ok == step_fits(points@, i as int));
        if !ok {
            return false;
        }
        last = (p.x as i32, p.y as i32);
    }
    true
}

fn storable(s: &SimpleShape) -> (ok: bool)
    ensures
        ok == is_storable(contour_views(s.contours@), s.instructions@),
{
    let ghost views = contour_views(s.contours@);
    if s.contours.len() >= 0x7fff || s.instructions.len() >= 0xffff {
        return false;
    }
    for i in 0..s.contours.len()
        invariant
            views == contour_views(s.contours@),
            forall|k: int| 0 <= k < i ==> (#[trigger] views[k]).len() > 0,
    {
        assert(views[i as int] == s.contours@[i as int]@);
        if s.contours[i].len() == 0 {
            return false;
        }
    }
    match flatten(&s.contours) {
        Some(points) => all_steps_fit(&points),
        None => false,
    }
}

fn write_glyph(g: &Glyph) -> (r: Result<Vec<u8>, String>)
    ensures
        match r {
            Ok(bytes) => glyph_data(g@) == Ok::<Seq<u8>, Seq<char>>(bytes@) && bytes@.len() % 2
                == 0,
            Err(text) => glyph_data(g@) == Err::<Seq<u8>, Seq<char>>(text@),
        },
{
    match g {
        Glyph::Empty => {
            let none: Vec<u8> = Vec::new();
            assert(none@ =~= Seq::<u8>::empty());
            Ok(none)
        },
        Glyph::Simple(s) => if storable(s) {
            write_simple(s)
        } else {
            Err("an outline has more than a glyph can store".to_owned())
        },
        Glyph::Composite(c) => if c.components.len() > 0 {
            write_composite_shape(c)
        } else {
            Err("a composite glyph has no components".to_owned())
        },
    }
}

/// The data of the glyphs, one after another, or why one cannot be written.
pub open spec fn glyf_data(glyphs: Seq<GlyphView>) -> Result<Seq<Seq<u8>>, Seq<char>>
    decreases glyphs.len(),
{
    if glyphs.len() == 0 {
        Ok(Seq::empty())
    } else {
        match glyf_data(glyphs.drop_last()) {
            Ok(before) => match glyph_data(glyphs.last()) {
                Ok(bytes) => Ok(before.push(bytes)),
                Err(text) => Err(text),
            },
            Err(text) => Err(text),
        }
    }
}

/// The bytes of the `loca` entries up to number `n`, inclusive: where each glyph starts,
/// and where the last one ends.
pub open spec fn loca_entries(data: Seq<Seq<u8>>, is_long: bool, n: int) -> Seq<u8>
    decreases n + 1,
{
    if n < 0 {
        Seq::empty()
    } else {
        let offset = total_len(data.take(n));
        loca_entries(data, is_long, n - 1) + if is_long {
            be32(offset)
        } else {
            be16(offset / 2)
        }
    }
}

/// True when the offsets need the long format of `loca`.
pub open spec fn needs_long(data: Seq<Seq<u8>>) -> bool {
    total_len(data) >= 0x2_0000
}

/// The `glyf` and `loca` tables.
#[derive(Debug)]
pub struct GlyfLoca {
    pub glyf: Vec<u8>,
    pub loca: Vec<u8>,
    pub is_long: bool,
}

/// What [`GlyfLoca`] holds.
#[verifier::ext_equal]
pub struct GlyfLocaView {
    pub glyf: Seq<u8>,
    pub loca: Seq<u8>,
    pub is_long: bool,
}

impl View for GlyfLoca {
    type V = GlyfLocaView;

    open spec fn view(&self) -> GlyfLocaView {
        GlyfLocaView { glyf: self.glyf@, loca: self.loca@, is_long: self.is_long }
    }
}

/// The tables for glyphs with this data: the data of all glyphs, and their offsets.
pub open spec fn glyf_loca(data: Seq<Seq<u8>>) -> GlyfLocaView {
    GlyfLocaView {
        glyf: concat(data),
        loca: loca_entries(data, needs_long(data), data.len() as int),
        is_long: needs_long(data),
    }
}

/// The `glyf` and `loca` tables for the glyphs, or why they cannot be written.
pub open spec fn glyphs_written(glyphs: Seq<GlyphView>) -> Result<GlyfLocaView, Seq<char>> {
    match glyf_data(glyphs) {
        Ok(data) => if total_len(data) <= 0xffff_ffff {
            Ok(glyf_loca(data))
        } else {
            Err("the outlines do not fit into a font file"@)
        },
        Err(text) => Err(text),
    }
}

/// Write the `glyf` and `loca` tables.
pub fn write_glyphs(glyphs: &Vec<Glyph>) -> (r: Result<GlyfLoca, String>)
    ensures
        match r {
            Ok(tables) => glyphs_written(glyph_views(glyphs@)) == Ok::<GlyfLocaView, Seq<char>>(
                tables@,
            ),
            Err(text) => glyphs_written(glyph_views(glyphs@)) == Err::<GlyfLocaView, Seq<char>>(
                text@,
            ),
        },
{
    let ghost views = glyph_views(glyphs@);
    let mut data: Vec<Vec<u8>> = Vec::new();
    assert(crate::bytes::views(data@) =~= Seq::<Seq<u8>>::empty());
    for i in 0..glyphs.len()
        invariant
            views == glyph_views(glyphs@),
            glyf_data(views.take(i as int)) == Ok::<Seq<Seq<u8>>, Seq<char>>(
                crate::bytes::views(data@),
            ),
            forall|k: int| 0 <= k < data@.len() ==> (#[trigger] data@[k])@.len() % 2 == 0,
            data@.len() == i,
    {
        assert(views.take(i + 1).drop_last() =~= views.take(i as int));
        assert(views[i as int] == glyphs@[i as int]@);
        let ghost before = crate::bytes::views(data@);
        match write_glyph(&glyphs[i]) {
            Ok(bytes) => {
                let ghost added = bytes@;
                data.push(bytes);
                assert(crate::bytes::views(data@) =~= before.push(added));
            },
            Err(text) => {
                proof {
                    lemma_glyf_data_fails(views, i + 1);
                }
                return Err(text);
            },
        }
    }
    assert(views.take(views.len() as int) =~= views);
    let ghost all = crate::bytes::views(data@);
    match crate::bytes::total_within(&data, 0xffff_ffff) {
        Some(total) => Ok(join_glyphs(&data, total)),
        None => Err("the outlines do not fit into a font file".to_owned()),
    }
}

proof fn lemma_glyf_data_fails(glyphs: Seq<GlyphView>, n: int)
    requires
        0 <= n <= glyphs.len(),
        glyf_data(glyphs.take(n)) is Err,
    ensures
        glyf_data(glyphs) == glyf_data(glyphs.take(n)),
    decreases glyphs.len(),
{
    if n < glyphs.len() {
        assert(glyphs.drop_last().take(n) =~= glyphs.take(n));
        lemma_glyf_data_fails(glyphs.drop_last(), n);
    } else {
        assert(glyphs.take(n) =~= glyphs);
    }
}

fn join_glyphs(data: &Vec<Vec<u8>>, total: usize) -> (r: GlyfLoca)
    requires
        total == total_len(crate::bytes::views(data@)),
        total <= 0xffff_ffff,
    ensures
        r@ == glyf_loca(crate::bytes::views(data@)),
{
    let ghost all = crate::bytes::views(data@);
    let is_long: bool = total >= 0x2_0000;
    let mut glyf: Vec<u8> = Vec::new();
    let mut loca: Vec<u8> = Vec::new();
    let mut offset: u32 = 0;
    assert(all.take(0) =~= Seq::<Seq<u8>>::empty());
    push_entry(&mut loca, 0, is_long);
    assert(loca_entries(all, is_long, -1) =~= Seq::<u8>::empty());
    assert(loca@ =~= loca_entries(all, is_long, 0));
    for i in 0..data.len()
        invariant
            all == crate::bytes::views(data@),
            total_len(all) <= 0xffff_ffff,
            is_long == needs_long(all),
            glyf@ == concat(all.take(i as int)),
            loca@ == loca_entries(all, is_long, i as int),
            offset == total_len(all.take(i as int)),
    {
        proof {
            crate::bytes::lemma_take_step(all, i as int);
            crate::bytes::lemma_total_len_prefix(all, i + 1);
            assert(all.take(i + 1).drop_last() =~= all.take(i as int));
            assert(all.take(i + 1).last() == data@[i as int]@);
        }
        push_all(&mut glyf, data[i].as_slice());
        offset = offset + data[i].len() as u32;
        push_entry(&mut loca, offset, is_long);
        assert(total_len(all.take(i + 1)) == offset);
    }
    assert(all.take(all.len() as int) =~= all);
    GlyfLoca { glyf, loca, is_long }
}

fn push_entry(loca: &mut Vec<u8>, offset: u32, is_long: bool)
    requires
        !is_long ==> offset < 0x2_0000,
    ensures
        final(loca)@ == old(loca)@ + if is_long {
            be32(offset as int)
        } else {
            be16(offset as int / 2)
        },
{
    if is_long {
        push_u32(loca, offset);
    } else {
        push_u16(loca, (offset / 2) as u16);
    }
}

/// The offset that `loca` holds as entry number `n`.
pub open spec fn loca_offset(t: GlyfLocaView, n: int) -> int {
    if t.is_long {
        crate::bytes::u32_at(t.loca, 4 * n)
    } else {
        2 * crate::bytes::u16_at(t.loca, 2 * n)
    }
}

proof fn lemma_loca_entry(data: Seq<Seq<u8>>, is_long: bool, k: int, n: int)
    requires
        0 <= k <= n <= data.len(),
    ensures
        ({
            let size: int = if is_long {
                4
            } else {
                2
            };
            let entries = loca_entries(data, is_long, n);
            &&& entries.len() == size * (n + 1)
            &&& entries.subrange(size * k, size * (k + 1)) == if is_long {
                be32(total_len(data.take(k)))
            } else {
                be16(total_len(data.take(k)) / 2)
            }
        }),
    decreases n,
{
    let entries = loca_entries(data, is_long, n);
    let before = loca_entries(data, is_long, n - 1);
    if n == 0 {
        assert(before =~= Seq::<u8>::empty());
    } else {
        lemma_loca_entry(data, is_long, if k < n {
            k
        } else {
            n - 1
        }, n - 1);
    }
    let size: int = if is_long {
        4
    } else {
        2
    };
    assert(before.len() == size * n);
    if k < n {
        assert(entries.subrange(size * k, size * (k + 1)) =~= before.subrange(
            size * k,
            size * (k + 1),
        ));
    } else {
        assert(entries.subrange(size * k, size * (k + 1)) =~= entries.subrange(
            before.len() as int,
            entries.len() as int,
        ));
        assert(entries.subrange(before.len() as int, entries.len() as int) =~= if is_long {
            be32(total_len(data.take(k)))
        } else {
            be16(total_len(data.take(k)) / 2)
        });
    }
}

/// Every glyph stands in `glyf` between the two offsets that `loca` holds for it.
pub proof fn every_glyph_is_where_loca_says(data: Seq<Seq<u8>>, n: int)
    requires
        0 <= n < data.len(),
        total_len(data) <= 0xffff_ffff,
        forall|i: int| 0 <= i < data.len() ==> (#[trigger] data[i]).len() % 2 == 0,
    ensures
        ({
            let t = glyf_loca(data);
            let from = loca_offset(t, n);
            let to = loca_offset(t, n + 1);
            0 <= from <= to <= t.glyf.len() && t.glyf.subrange(from, to) == data[n]
        }),
{
    let t = glyf_loca(data);
    let count = data.len() as int;
    lemma_loca_entry(data, t.is_long, n, count);
    lemma_loca_entry(data, t.is_long, n + 1, count);
    crate::bytes::lemma_total_len_prefix(data, n);
    crate::bytes::lemma_total_len_prefix(data, n + 1);
    crate::bytes::lemma_concat_slice(data, n);
    crate::bytes::lemma_take_step(data, n);
    lemma_even(data, n);
    lemma_even(data, n + 1);
    let from = total_len(data.take(n));
    let to = total_len(data.take(n + 1));
    if t.is_long {
        crate::bytes::lemma_be32_reads_back(t.loca, 4 * n, from);
        crate::bytes::lemma_be32_reads_back(t.loca, 4 * (n + 1), to);
    } else {
        crate::bytes::lemma_be16_reads_back(t.loca, 2 * n, from / 2);
        crate::bytes::lemma_be16_reads_back(t.loca, 2 * (n + 1), to / 2);
    }
}

proof fn lemma_even(data: Seq<Seq<u8>>, n: int)
    requires
        0 <= n <= data.len(),
        forall|i: int| 0 <= i < data.len() ==> (#[trigger] data[i]).len() % 2 == 0,
    ensures
        total_len(data.take(n)) % 2 == 0,
    decreases n,
{
    if n > 0 {
        lemma_even(data, n - 1);
        crate::bytes::lemma_take_step(data, n - 1);
    } else {
        assert(data.take(0) =~= Seq::<Seq<u8>>::empty());
    }
}

/// True for contour ends that rise and stay within the points.
pub open spec fn are_ends(ends: Seq<u16>, points: int) -> bool {
    forall|i: int| 0 <= i < ends.len() ==> (#[trigger] ends[i]) < points && (i > 0 ==> ends[i - 1]
        < ends[i])
}

/// Where the contour before number `k` ends.
pub open spec fn start_of(ends: Seq<u16>, k: int) -> int {
    if k <= 0 {
        0
    } else {
        ends[k - 1] + 1
    }
}

#[verifier::rlimit(60)]
#[verifier::spinoff_prover]
proof fn lemma_ends_stop(outline: OutlineView, m: PhantomView, k: int)
    requires
        outline matches OutlineView::Simple(s) && are_ends(s.end_pts, s.points.len() as int) && 0
            <= k <= s.end_pts.len(),
    ensures
        ({
            let s = outline->Simple_0;
            let points = points_of(outline, m);
            &&& contours_stop(points, k) == start_of(s.end_pts, k)
            &&& built_contours(points, k) == Seq::new(
                k as nat,
                |i: int| s.points.subrange(start_of(s.end_pts, i), start_of(s.end_pts, i + 1)),
            )
        }),
    decreases k,
{
    let s = outline->Simple_0;
    let points = points_of(outline, m);
    let wanted = Seq::new(
        k as nat,
        |i: int| s.points.subrange(start_of(s.end_pts, i), start_of(s.end_pts, i + 1)),
    );
    if k > 0 {
        lemma_ends_stop(outline, m, k - 1);
        let before = start_of(s.end_pts, k - 1);
        let end = start_of(s.end_pts, k);
        assert(points.coords.len() == s.points.len() + PHANTOM_COUNT);
        assert(s.end_pts[k - 1] < s.points.len());
        assert(before < end) by {
            if k > 1 {
                assert(s.end_pts[k - 2] < s.end_pts[k - 1]);
            }
        }
        assert forall|i: int| before <= i < end implies built_point(points, i) == s.points[i] by {
            assert(points.coords[i] == point_coords(s.points)[i]);
            assert(on_curve_flags(s.points)[i] == s.points[i].on_curve);
        }
        assert(built_points(points, before, end) =~= s.points.subrange(before, end));
        assert(built_contours(points, k) =~= wanted);
    } else {
        assert(built_contours(points, k) =~= wanted);
    }
}

/// A glyph that no delta moves comes out as it went in: a simple glyph keeps its contours
/// point by point, and a composite its components.
pub proof fn instancing_at_the_default_preserves_the_outlines(outline: OutlineView, m: PhantomView)
    requires
        match outline {
            OutlineView::Empty => true,
            OutlineView::Simple(s) => s.end_pts.len() > 0 && are_ends(
                s.end_pts,
                s.points.len() as int,
            ),
            OutlineView::Composite(c) => c.components.len() > 0,
        },
    ensures
        match (outline, built_glyph(points_of(outline, m))) {
            (OutlineView::Empty, GlyphView::Empty) => true,
            (
                OutlineView::Simple(s),
                GlyphView::Simple { contours, instructions, overlaps, .. },
            ) => {
                &&& contours == Seq::new(
                    s.end_pts.len(),
                    |i: int| s.points.subrange(start_of(s.end_pts, i), start_of(s.end_pts, i + 1)),
                )
                &&& instructions == s.instructions
                &&& overlaps == s.overlaps
            },
            (
                OutlineView::Composite(c),
                GlyphView::Composite { components, instructions, .. },
            ) => components == c.components && instructions == c.instructions,
            _ => false,
        },
{
    match outline {
        OutlineView::Empty => {},
        OutlineView::Simple(s) => {
            lemma_ends_stop(outline, m, s.end_pts.len() as int);
        },
        OutlineView::Composite(c) => {
            let points = points_of(outline, m);
            assert forall|i: int| 0 <= i < c.components.len() implies placed(points, i)
                == c.components[i] by {
                assert(points.coords[i] == component_offsets(c.components)[i]);
            }
            assert(Seq::new(c.components.len(), |i: int| placed(points, i)) =~= c.components);
        },
    }
}

} // verus!
