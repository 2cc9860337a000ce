//! Reading a glyph as a point set, and turning a point set back into a glyph.
//!
//! Every glyph is handled as a flat list of points followed by four *phantom points*,
//! which is how the OpenType variation machinery sees it:
//!
//! | index | meaning |
//! |---|---|
//! | `0 .. n` | contour points (simple glyph) or component offsets (composite) |
//! | `n`   | left side bearing point: `(xMin - lsb, 0)` |
//! | `n+1` | right side bearing point: `(pp1.x + advanceWidth, 0)` |
//! | `n+2` | top side bearing point |
//! | `n+3` | bottom side bearing point |
//!
//! The phantom points are what let a variation change a glyph's advance width, so they
//! have to travel with the outline and be read back out afterwards.
use read_fonts::tables::glyf::{Anchor as FontAnchor, Glyf, Glyph as FontGlyph};
use read_fonts::tables::loca::Loca;
use read_fonts::types::GlyphId;
use read_fonts::{FontData, FontRead};
use vstd::prelude::*;

use crate::bytes::u16_at;
use crate::error::{read_error, Problem, SliceError};
use crate::fields::{head_fields, hhea_fields, i16_at, read_head, read_hhea};
use crate::tables::{
    bounds_error, find_table, need_table, needed_table, out_of_bounds, table_bytes, table_views,
    FontTable, TableView, GLYF, HEAD, HHEA, HMTX, LOCA, VHEA, VMTX,
};

verus! {

/// How many phantom points every glyph carries.
pub const PHANTOM_COUNT: usize = 4;

/// A glyph's bounding box.
#[derive(Clone, Copy, Debug, PartialEq, Eq, Structural)]
pub struct Bounds {
    pub x_min: i16,
    pub y_min: i16,
    pub x_max: i16,
    pub y_max: i16,
}

pub open spec fn min16(a: i16, b: i16) -> i16 {
    if a <= b {
        a
    } else {
        b
    }
}

pub open spec fn max16(a: i16, b: i16) -> i16 {
    if a >= b {
        a
    } else {
        b
    }
}

/// The smallest box that covers both.
pub open spec fn union_of(a: Bounds, b: Bounds) -> Bounds {
    Bounds {
        x_min: min16(a.x_min, b.x_min),
        y_min: min16(a.y_min, b.y_min),
        x_max: max16(a.x_max, b.x_max),
        y_max: max16(a.y_max, b.y_max),
    }
}

/// The box of a glyph without an outline.
pub open spec fn no_bounds() -> Bounds {
    Bounds { x_min: 0, y_min: 0, x_max: 0, y_max: 0 }
}

impl Bounds {
    /// The smallest box that covers both.
    pub fn union(self, other: Bounds) -> (r: Bounds)
        ensures
            r == union_of(self, other),
    {
        Bounds {
            x_min: if self.x_min <= other.x_min {
                self.x_min
            } else {
                other.x_min
            },
            y_min: if self.y_min <= other.y_min {
                self.y_min
            } else {
                other.y_min
            },
            x_max: if self.x_max >= other.x_max {
                self.x_max
            } else {
                other.x_max
            },
            y_max: if self.y_max >= other.y_max {
                self.y_max
            } else {
                other.y_max
            },
        }
    }
}

impl Default for Bounds {
    fn default() -> (r: Bounds)
        ensures
            r == no_bounds(),
    {
        Bounds { x_min: 0, y_min: 0, x_max: 0, y_max: 0 }
    }
}

/// One point of an outline.
#[derive(Clone, Copy, Debug, PartialEq, Eq, Structural)]
pub struct Point {
    pub x: i16,
    pub y: i16,
    pub on_curve: bool,
}

/// How a component of a composite glyph is placed.
#[derive(Clone, Copy, Debug, PartialEq, Eq, Structural)]
pub enum Anchor {
    /// Moved by an offset.
    Offset { x: i16, y: i16 },
    /// Moved so that two points meet. There is no offset for a delta to move.
    Point { base: u16, component: u16 },
}

/// The matrix of a component, in units of 1/16384.
#[derive(Clone, Copy, Debug, PartialEq, Eq, Structural)]
pub struct Transform {
    pub xx: i16,
    pub yx: i16,
    pub xy: i16,
    pub yy: i16,
}

/// A component of a composite glyph.
#[derive(Clone, Copy, Debug, PartialEq, Eq, Structural)]
pub struct Component {
    pub glyph: u32,
    pub anchor: Anchor,
    /// The bits of the flags. Those that follow from the other fields are set anew when the
    /// component is written.
    pub flags: u16,
    pub transform: Transform,
}

// ------------------------------------------------------------------------ what glyf holds

/// A simple glyph as `glyf` holds it.
#[derive(Debug)]
pub struct SimpleOutline {
    pub bounds: Bounds,
    pub contour_count: i16,
    pub end_pts: Vec<u16>,
    pub points: Vec<Point>,
    pub instructions: Vec<u8>,
    pub overlaps: bool,
}

/// What a [`SimpleOutline`] holds.
#[verifier::ext_equal]
pub struct SimpleView {
    pub bounds: Bounds,
    pub contour_count: i16,
    pub end_pts: Seq<u16>,
    pub points: Seq<Point>,
    pub instructions: Seq<u8>,
    pub overlaps: bool,
}

impl View for SimpleOutline {
    type V = SimpleView;

    open spec fn view(&self) -> SimpleView {
        SimpleView {
            bounds: self.bounds,
            contour_count: self.contour_count,
            end_pts: self.end_pts@,
            points: self.points@,
            instructions: self.instructions@,
            overlaps: self.overlaps,
        }
    }
}

/// A composite glyph as `glyf` holds it.
#[derive(Debug)]
pub struct CompositeOutline {
    pub bounds: Bounds,
    pub components: Vec<Component>,
    pub instructions: Vec<u8>,
}

/// What a [`CompositeOutline`] holds.
#[verifier::ext_equal]
pub struct CompositeView {
    pub bounds: Bounds,
    pub components: Seq<Component>,
    pub instructions: Seq<u8>,
}

impl View for CompositeOutline {
    type V = CompositeView;

    open spec fn view(&self) -> CompositeView {
        CompositeView {
            bounds: self.bounds,
            components: self.components@,
            instructions: self.instructions@,
        }
    }
}

/// The outline of a glyph as `glyf` holds it.
#[derive(Debug)]
pub enum Outline {
    Empty,
    Simple(SimpleOutline),
    Composite(CompositeOutline),
}

/// What an [`Outline`] holds.
pub enum OutlineView {
    Empty,
    Simple(SimpleView),
    Composite(CompositeView),
}

impl View for Outline {
    type V = OutlineView;

    open spec fn view(&self) -> OutlineView {
        match *self {
            Outline::Empty => OutlineView::Empty,
            Outline::Simple(s) => OutlineView::Simple(s@),
            Outline::Composite(c) => OutlineView::Composite(c@),
        }
    }
}

/// The parts of a simple glyph besides its points.
#[derive(Debug)]
pub struct SimpleFrame {
    pub bounds: Bounds,
    pub contour_count: i16,
    pub instructions: Vec<u8>,
    pub overlaps: bool,
}

/// What a [`SimpleFrame`] holds.
#[verifier::ext_equal]
pub struct FrameView {
    pub bounds: Bounds,
    pub contour_count: i16,
    pub instructions: Seq<u8>,
    pub overlaps: bool,
}

impl View for SimpleFrame {
    type V = FrameView;

    open spec fn view(&self) -> FrameView {
        FrameView {
            bounds: self.bounds,
            contour_count: self.contour_count,
            instructions: self.instructions@,
            overlaps: self.overlaps,
        }
    }
}

/// The simple glyph that `loca` and `glyf` hold under a glyph ID, besides its points:
/// nothing where the glyph is empty or composite, and no result at all where it cannot be
/// read.
pub uninterp spec fn simple_frame(
    loca: Seq<u8>,
    is_long: bool,
    glyf: Seq<u8>,
    gid: u32,
) -> Option<Option<FrameView>>;

/// Calls `read_fonts::tables::loca::Loca::get_glyf`. What it gives for a simple glyph,
/// besides the points, has a name.
#[verifier::external_body]
fn read_simple(loca: &[u8], is_long: bool, glyf: &[u8], gid: u32) -> (r: Option<
    Option<SimpleFrame>,
>)
    ensures
        match r {
            Some(Some(s)) => simple_frame(loca@, is_long, glyf@, gid) == Some(Some(s@)),
            Some(None) => simple_frame(loca@, is_long, glyf@, gid) == Some(None::<FrameView>),
            None => simple_frame(loca@, is_long, glyf@, gid) is None,
        },
{
    let loca = Loca::read(FontData::new(loca), is_long).ok()?;
    let glyf = Glyf::read(FontData::new(glyf)).ok()?;
    let Some(FontGlyph::Simple(g)) = loca.get_glyf(GlyphId::new(gid), &glyf).ok()? else {
        return Some(None);
    };
    let (x_min, y_min, x_max, y_max) = (g.x_min(), g.y_min(), g.x_max(), g.y_max());
    let bounds = Bounds { x_min, y_min, x_max, y_max };
    let (contour_count, overlaps) = (g.number_of_contours(), g.has_overlapping_contours());
    let instructions = g.instructions().to_vec();
    Some(Some(SimpleFrame { bounds, contour_count, instructions, overlaps }))
}

/// Where the contours of the simple glyph that `loca` and `glyf` hold under a glyph ID end,
/// and its points.
pub uninterp spec fn simple_points(
    loca: Seq<u8>,
    is_long: bool,
    glyf: Seq<u8>,
    gid: u32,
) -> (Seq<u16>, Seq<Point>);

/// Calls `read_fonts::tables::loca::Loca::get_glyf`, `SimpleGlyph::end_pts_of_contours` and
/// `SimpleGlyph::points`. The contour ends and the points have a name; there are none where
/// the glyph is not simple.
#[verifier::external_body]
fn read_points(loca: &[u8], is_long: bool, glyf: &[u8], gid: u32) -> (r: (Vec<u16>, Vec<Point>))
    ensures
        (r.0@, r.1@) == simple_points(loca@, is_long, glyf@, gid),
{
    let none = (Vec::new(), Vec::new());
    let Ok(loca) = Loca::read(FontData::new(loca), is_long) else { return none };
    let Ok(glyf) = Glyf::read(FontData::new(glyf)) else { return none };
    let Ok(Some(FontGlyph::Simple(g))) = loca.get_glyf(GlyphId::new(gid), &glyf) else {
        return none;
    };
    let points = g.points().map(|p| Point { x: p.x, y: p.y, on_curve: p.on_curve });
    (g.end_pts_of_contours().iter().map(|v| v.get()).collect(), points.collect())
}

/// The bounding box and the instructions of the composite glyph that `loca` and `glyf`
/// hold under a glyph ID.
pub uninterp spec fn composite_frame(
    loca: Seq<u8>,
    is_long: bool,
    glyf: Seq<u8>,
    gid: u32,
) -> Option<(Bounds, Seq<u8>)>;

/// Calls `read_fonts::tables::loca::Loca::get_glyf`. The box and the instructions of a
/// composite glyph have a name.
#[verifier::external_body]
fn read_frame(loca: &[u8], is_long: bool, glyf: &[u8], gid: u32) -> (r: Option<(Bounds, Vec<u8>)>)
    ensures
        match r {
            Some((b, i)) => composite_frame(loca@, is_long, glyf@, gid) == Some((b, i@)),
            None => composite_frame(loca@, is_long, glyf@, gid) is None,
        },
{
    let loca = Loca::read(FontData::new(loca), is_long).ok()?;
    let glyf = Glyf::read(FontData::new(glyf)).ok()?;
    let Some(FontGlyph::Composite(g)) = loca.get_glyf(GlyphId::new(gid), &glyf).ok()? else {
        return None;
    };
    let (x_min, y_min, x_max, y_max) = (g.x_min(), g.y_min(), g.x_max(), g.y_max());
    let instructions = g.instructions().unwrap_or_default().to_vec();
    Some((Bounds { x_min, y_min, x_max, y_max }, instructions))
}

/// The components of the composite glyph that `loca` and `glyf` hold under a glyph ID,
/// besides their places: the glyph, the flags and the matrix of each.
pub uninterp spec fn component_parts(
    loca: Seq<u8>,
    is_long: bool,
    glyf: Seq<u8>,
    gid: u32,
) -> Seq<(u32, u16, Transform)>;

/// Calls `read_fonts::tables::loca::Loca::get_glyf` and `CompositeGlyph::components`. What
/// the components hold besides their places has a name; there are none where the glyph is
/// not composite.
#[verifier::external_body]
fn read_parts(loca: &[u8], is_long: bool, glyf: &[u8], gid: u32) -> (r: Vec<(u32, u16, Transform)>)
    ensures
        r@ == component_parts(loca@, is_long, glyf@, gid),
{
    let Ok(loca) = Loca::read(FontData::new(loca), is_long) else { return Vec::new() };
    let Ok(glyf) = Glyf::read(FontData::new(glyf)) else { return Vec::new() };
    let Ok(Some(FontGlyph::Composite(g))) = loca.get_glyf(GlyphId::new(gid), &glyf) else {
        return Vec::new();
    };
    g.components().map(|c| {
        let t = c.transform;
        let (xx, yx, xy, yy) = (t.xx.to_bits(), t.yx.to_bits(), t.xy.to_bits(), t.yy.to_bits());
        (c.glyph.to_u32(), c.flags.bits(), Transform { xx, yx, xy, yy })
    }).collect()
}

/// The places of the components of the composite glyph that `loca` and `glyf` hold under a
/// glyph ID.
pub uninterp spec fn component_anchors(
    loca: Seq<u8>,
    is_long: bool,
    glyf: Seq<u8>,
    gid: u32,
) -> Seq<Anchor>;

/// Calls `read_fonts::tables::loca::Loca::get_glyf` and `CompositeGlyph::components`. The
/// places of the components have a name; there are none where the glyph is not composite.
#[verifier::external_body]
fn read_anchors(loca: &[u8], is_long: bool, glyf: &[u8], gid: u32) -> (r: Vec<Anchor>)
    ensures
        r@ == component_anchors(loca@, is_long, glyf@, gid),
{
    let Ok(loca) = Loca::read(FontData::new(loca), is_long) else { return Vec::new() };
    let Ok(glyf) = Glyf::read(FontData::new(glyf)) else { return Vec::new() };
    let Ok(Some(FontGlyph::Composite(g))) = loca.get_glyf(GlyphId::new(gid), &glyf) else {
        return Vec::new();
    };
    g.components().map(|c| match c.anchor {
        FontAnchor::Offset { x, y } => Anchor::Offset { x, y },
        FontAnchor::Point { base, component } => Anchor::Point { base, component },
    }).collect()
}

/// The components that the parts and the places of a composite glyph make up.
pub open spec fn joined_components(
    parts: Seq<(u32, u16, Transform)>,
    anchors: Seq<Anchor>,
) -> Seq<Component> {
    Seq::new(
        if parts.len() <= anchors.len() {
            parts.len()
        } else {
            anchors.len()
        },
        |i: int|
            Component {
                glyph: parts[i].0,
                anchor: anchors[i],
                flags: parts[i].1,
                transform: parts[i].2,
            },
    )
}

/// The components of the composite glyph that `loca` and `glyf` hold under a glyph ID.
pub open spec fn components_of(
    loca: Seq<u8>,
    is_long: bool,
    glyf: Seq<u8>,
    gid: u32,
) -> Seq<Component> {
    joined_components(
        component_parts(loca, is_long, glyf, gid),
        component_anchors(loca, is_long, glyf, gid),
    )
}

fn read_components(loca: &[u8], is_long: bool, glyf: &[u8], gid: u32) -> (r: Vec<Component>)
    ensures
        r@ == components_of(loca@, is_long, glyf@, gid),
{
    let parts: Vec<(u32, u16, Transform)> = read_parts(loca, is_long, glyf, gid);
    let anchors: Vec<Anchor> = read_anchors(loca, is_long, glyf, gid);
    let ghost wanted = joined_components(parts@, anchors@);
    let mut out: Vec<Component> = Vec::new();
    let mut i: usize = 0;
    while i < parts.len() && i < anchors.len()
        invariant
            wanted == joined_components(parts@, anchors@),
            i <= wanted.len(),
            out@ == wanted.take(i as int),
        decreases parts@.len() - i,
    {
        let (glyph, flags, transform) = parts[i];
        out.push(Component { glyph, anchor: anchors[i], flags, transform });
        assert(out@ =~= wanted.take(i + 1));
        i = i + 1;
    }
    assert(out@ =~= wanted);
    out
}

/// The outlines of a font: `loca`, in its short or its long format, and `glyf`.
pub struct Outlines<'a> {
    pub loca: &'a Vec<u8>,
    pub is_long: bool,
    pub glyf: &'a Vec<u8>,
}

/// What [`Outlines`] hold.
#[verifier::ext_equal]
pub struct OutlinesView {
    pub loca: Seq<u8>,
    pub is_long: bool,
    pub glyf: Seq<u8>,
}

impl<'a> View for Outlines<'a> {
    type V = OutlinesView;

    open spec fn view(&self) -> OutlinesView {
        OutlinesView { loca: self.loca@, is_long: self.is_long, glyf: self.glyf@ }
    }
}

/// The outline under a glyph ID, where it can be read.
pub open spec fn outline_of(o: OutlinesView, gid: u32) -> Option<OutlineView> {
    match simple_frame(o.loca, o.is_long, o.glyf, gid) {
        Some(Some(f)) => {
            let (end_pts, points) = simple_points(o.loca, o.is_long, o.glyf, gid);
            Some(
                OutlineView::Simple(
                    SimpleView {
                        bounds: f.bounds,
                        contour_count: f.contour_count,
                        end_pts,
                        points,
                        instructions: f.instructions,
                        overlaps: f.overlaps,
                    },
                ),
            )
        },
        Some(None) => match composite_frame(o.loca, o.is_long, o.glyf, gid) {
            Some((bounds, instructions)) => Some(
                OutlineView::Composite(
                    CompositeView {
                        bounds,
                        components: components_of(o.loca, o.is_long, o.glyf, gid),
                        instructions,
                    },
                ),
            ),
            None => Some(OutlineView::Empty),
        },
        None => None,
    }
}

/// The outline under a glyph ID, where it can be read.
pub fn read_outline(o: &Outlines, gid: u32) -> (r: Option<Outline>)
    ensures
        match r {
            Some(outline) => outline_of(o@, gid) == Some(outline@),
            None => outline_of(o@, gid) is None,
        },
{
    let loca: &[u8] = o.loca.as_slice();
    let glyf: &[u8] = o.glyf.as_slice();
    match read_simple(loca, o.is_long, glyf, gid) {
        Some(Some(f)) => {
            let (end_pts, points) = read_points(loca, o.is_long, glyf, gid);
            Some(
                Outline::Simple(
                    SimpleOutline {
                        bounds: f.bounds,
                        contour_count: f.contour_count,
                        end_pts,
                        points,
                        instructions: f.instructions,
                        overlaps: f.overlaps,
                    },
                ),
            )
        },
        Some(None) => match read_frame(loca, o.is_long, glyf, gid) {
            Some((bounds, instructions)) => Some(
                Outline::Composite(
                    CompositeOutline {
                        bounds,
                        components: read_components(loca, o.is_long, glyf, gid),
                        instructions,
                    },
                ),
            ),
            None => Some(Outline::Empty),
        },
        None => None,
    }
}

// --------------------------------------------------------------------------- metrics

/// How many long metrics an `hmtx` or `vmtx` table holds: the number that its header
/// gives, where the table is long enough for them.
pub open spec fn long_metrics(table: Seq<u8>, count: u16) -> int {
    if table.len() >= 4 * count {
        count as int
    } else {
        0
    }
}

/// The advance of a glyph: that of its own metric, or of the last one.
pub open spec fn advance_of(table: Seq<u8>, count: u16, gid: u32) -> Option<u16> {
    let long = long_metrics(table, count);
    if gid < long {
        Some(u16_at(table, 4 * gid as int) as u16)
    } else if long > 0 {
        Some(u16_at(table, 4 * (long - 1)) as u16)
    } else {
        None
    }
}

/// The side bearing of a glyph: that of its own metric, or among the bearings that follow.
pub open spec fn bearing_of(table: Seq<u8>, count: u16, gid: u32) -> Option<i16> {
    let long = long_metrics(table, count);
    let at = 4 * count + 2 * (gid - long);
    if gid < long {
        Some(i16_at(table, 4 * gid + 2))
    } else if at + 2 <= table.len() {
        Some(i16_at(table, at))
    } else {
        None
    }
}

/// The unsigned 16-bit integer stored at `at`.
pub fn field_u16(table: &[u8], at: usize) -> (r: u16)
    requires
        at + 2 <= table@.len(),
    ensures
        r == u16_at(table@, at as int),
{
    (table[at] as u16) * 256 + table[at + 1] as u16
}

fn be_i16(table: &[u8], at: usize) -> (r: i16)
    requires
        at + 2 <= table@.len(),
    ensures
        r == i16_at(table@, at as int),
{
    let v: u32 = (table[at] as u32) * 256 + table[at + 1] as u32;
    if v < 0x8000 {
        v as i16
    } else {
        (v as i32 - 0x1_0000) as i16
    }
}

/// The advance of a glyph; zero where the table has none.
pub fn advance_at(table: &[u8], count: u16, gid: u32) -> (r: u16)
    ensures
        r == match advance_of(table@, count, gid) {
            Some(v) => v,
            None => 0,
        },
{
    let long: usize = if table.len() >= 4 * count as usize {
        count as usize
    } else {
        0
    };
    if (gid as usize) < long {
        field_u16(table, 4 * gid as usize)
    } else if long > 0 {
        field_u16(table, 4 * (long - 1))
    } else {
        0
    }
}

/// The side bearing of a glyph; zero where the table has none.
pub fn bearing_at(table: &[u8], count: u16, gid: u32) -> (r: i16)
    ensures
        r == match bearing_of(table@, count, gid) {
            Some(v) => v,
            None => 0,
        },
{
    let long: usize = if table.len() >= 4 * count as usize {
        count as usize
    } else {
        0
    };
    if (gid as usize) < long {
        return be_i16(table, 4 * gid as usize + 2);
    }
    let at: u64 = 4 * count as u64 + 2 * (gid as u64 - long as u64);
    if at + 2 <= table.len() as u64 {
        be_i16(table, at as usize)
    } else {
        0
    }
}

// ------------------------------------------------------------------ reading a point set

/// The structural part of a glyph: everything except the point coordinates.
#[derive(Debug)]
pub enum GlyphShape {
    /// No outline. Still has phantom points, so its advance can still vary.
    Empty,
    Simple { on_curve: Vec<bool>, instructions: Vec<u8>, overlaps: bool },
    Composite { components: Vec<Component>, instructions: Vec<u8> },
}

/// What a [`GlyphShape`] holds.
pub enum ShapeView {
    Empty,
    Simple { on_curve: Seq<bool>, instructions: Seq<u8>, overlaps: bool },
    Composite { components: Seq<Component>, instructions: Seq<u8> },
}

impl View for GlyphShape {
    type V = ShapeView;

    open spec fn view(&self) -> ShapeView {
        match *self {
            GlyphShape::Empty => ShapeView::Empty,
            GlyphShape::Simple { on_curve, instructions, overlaps } => ShapeView::Simple {
                on_curve: on_curve@,
                instructions: instructions@,
                overlaps,
            },
            GlyphShape::Composite { components, instructions } => ShapeView::Composite {
                components: components@,
                instructions: instructions@,
            },
        }
    }
}

/// A glyph decomposed into structure plus points, ready to have deltas applied.
#[derive(Debug)]
pub struct GlyphPoints {
    pub shape: GlyphShape,
    /// Outline points followed by the four phantom points.
    pub coords: Vec<(i32, i32)>,
    /// Contour end indices. Empty for composites and empty glyphs.
    pub end_pts: Vec<u16>,
}

/// What [`GlyphPoints`] hold.
#[verifier::ext_equal]
pub struct PointsView {
    pub shape: ShapeView,
    pub coords: Seq<(i32, i32)>,
    pub end_pts: Seq<u16>,
}

impl View for GlyphPoints {
    type V = PointsView;

    open spec fn view(&self) -> PointsView {
        PointsView { shape: self.shape@, coords: self.coords@, end_pts: self.end_pts@ }
    }
}

/// The points of an outline.
pub open spec fn point_coords(points: Seq<Point>) -> Seq<(i32, i32)> {
    points.map_values(|p: Point| (p.x as i32, p.y as i32))
}

pub open spec fn on_curve_flags(points: Seq<Point>) -> Seq<bool> {
    points.map_values(|p: Point| p.on_curve)
}

/// Where a component stands in the point list. One that is placed by matching points has
/// a placeholder there.
pub open spec fn component_offset(c: Component) -> (i32, i32) {
    match c.anchor {
        Anchor::Offset { x, y } => (x as i32, y as i32),
        Anchor::Point { .. } => (0, 0),
    }
}

pub open spec fn component_offsets(components: Seq<Component>) -> Seq<(i32, i32)> {
    components.map_values(|c: Component| component_offset(c))
}

/// The metrics that the phantom points of a glyph are made from.
pub struct PhantomView {
    pub advance: int,
    pub lsb: int,
    /// The vertical advance and top side bearing, where the font has them.
    pub vertical: Option<(int, int)>,
}

/// The four phantom points.
pub open spec fn phantoms_of(x_min: int, y_max: int, m: PhantomView) -> Seq<(i32, i32)> {
    let left = x_min - m.lsb;
    let (top, bottom) = match m.vertical {
        Some((advance, bearing)) => (bearing + y_max, bearing + y_max - advance),
        None => (0, 0),
    };
    seq![
        (left as i32, 0i32),
        ((left + m.advance) as i32, 0i32),
        (0i32, top as i32),
        (0i32, bottom as i32),
    ]
}

/// A glyph as points plus structure.
pub open spec fn points_of(outline: OutlineView, m: PhantomView) -> PointsView {
    match outline {
        OutlineView::Empty => PointsView {
            shape: ShapeView::Empty,
            coords: phantoms_of(0, 0, m),
            end_pts: Seq::empty(),
        },
        OutlineView::Simple(s) => PointsView {
            shape: ShapeView::Simple {
                on_curve: on_curve_flags(s.points),
                instructions: s.instructions,
                overlaps: s.overlaps,
            },
            coords: point_coords(s.points) + phantoms_of(
                s.bounds.x_min as int,
                s.bounds.y_max as int,
                m,
            ),
            end_pts: s.end_pts,
        },
        OutlineView::Composite(c) => PointsView {
            shape: ShapeView::Composite {
                components: c.components,
                instructions: c.instructions,
            },
            coords: component_offsets(c.components) + phantoms_of(
                c.bounds.x_min as int,
                c.bounds.y_max as int,
                m,
            ),
            end_pts: Seq::empty(),
        },
    }
}

/// The tables that glyphs are read from.
pub struct GlyphTables<'a> {
    pub outlines: Outlines<'a>,
    pub hmtx: &'a Vec<u8>,
    pub h_count: u16,
    /// `vmtx` and the number of its long metrics.
    pub vertical: Option<(&'a Vec<u8>, u16)>,
}

/// What [`GlyphTables`] hold.
#[verifier::ext_equal]
pub struct GlyphTablesView {
    pub outlines: OutlinesView,
    pub hmtx: Seq<u8>,
    pub h_count: u16,
    pub vertical: Option<(Seq<u8>, u16)>,
}

impl<'a> View for GlyphTables<'a> {
    type V = GlyphTablesView;

    open spec fn view(&self) -> GlyphTablesView {
        GlyphTablesView {
            outlines: self.outlines@,
            hmtx: self.hmtx@,
            h_count: self.h_count,
            vertical: match self.vertical {
                Some((table, count)) => Some((table@, count)),
                None => None,
            },
        }
    }
}

/// The outlines of a font, or what is missing.
pub open spec fn outlines_in(tables: Seq<TableView>) -> Result<OutlinesView, Problem> {
    match needed_table(tables, HEAD) {
        Err(e) => Err(e),
        Ok(head) => match head_fields(head) {
            None => Err(out_of_bounds()),
            Some(f) => match needed_table(tables, LOCA) {
                Err(e) => Err(e),
                Ok(loca) => {
                    let is_long = f.loc_format == 1;
                    if loca.len() % (if is_long {
                        4nat
                    } else {
                        2
                    }) != 0 {
                        Err(
                            Problem::Read("Specified array length not a multiple of item size"@),
                        )
                    } else {
                        match needed_table(tables, GLYF) {
                            Err(e) => Err(e),
                            Ok(glyf) => Ok(OutlinesView { loca, is_long, glyf }),
                        }
                    }
                },
            },
        },
    }
}

/// The tables that glyphs are read from, or what is missing.
pub open spec fn glyph_tables(tables: Seq<TableView>) -> Result<GlyphTablesView, Problem> {
    match outlines_in(tables) {
        Err(e) => Err(e),
        Ok(outlines) => match needed_table(tables, HHEA) {
            Err(e) => Err(e),
            Ok(hhea) => match hhea_fields(hhea) {
                None => Err(out_of_bounds()),
                Some(f) => match needed_table(tables, HMTX) {
                    Err(e) => Err(e),
                    Ok(hmtx) => Ok(
                        GlyphTablesView {
                            outlines,
                            hmtx,
                            h_count: f.number_of_h_metrics,
                            vertical: vertical_in(tables),
                        },
                    ),
                },
            },
        },
    }
}

/// The `vmtx` table and the number of its long metrics, where the font has both tables.
pub open spec fn vertical_in(tables: Seq<TableView>) -> Option<(Seq<u8>, u16)> {
    match (table_bytes(tables, VHEA), table_bytes(tables, VMTX)) {
        (Some(vhea), Some(vmtx)) => if vhea.len() >= 36 {
            Some((vmtx, u16_at(vhea, 34) as u16))
        } else {
            None
        },
        _ => None,
    }
}

/// The outlines of a font.
pub fn find_outlines(tables: &Vec<FontTable>) -> (r: Result<Outlines<'_>, SliceError>)
    ensures
        match r {
            Ok(o) => outlines_in(table_views(tables@)) == Ok::<OutlinesView, Problem>(o@),
            Err(e) => outlines_in(table_views(tables@)) == Err::<OutlinesView, Problem>(e@),
        },
{
    let head: &Vec<u8> = match need_table(tables, HEAD) {
        Ok(t) => t,
        Err(e) => {
            return Err(e);
        },
    };
    let is_long: bool = match read_head(head.as_slice()) {
        Some(f) => f.loc_format == 1,
        None => {
            return Err(bounds_error());
        },
    };
    let loca: &Vec<u8> = match need_table(tables, LOCA) {
        Ok(t) => t,
        Err(e) => {
            return Err(e);
        },
    };
    let size: usize = if is_long {
        4
    } else {
        2
    };
    if loca.len() % size != 0 {
        return Err(read_error("Specified array length not a multiple of item size"));
    }
    let glyf: &Vec<u8> = match need_table(tables, GLYF) {
        Ok(t) => t,
        Err(e) => {
            return Err(e);
        },
    };
    Ok(Outlines { loca, is_long, glyf })
}

/// The tables that glyphs are read from.
pub fn find_glyph_tables(tables: &Vec<FontTable>) -> (r: Result<GlyphTables<'_>, SliceError>)
    ensures
        match r {
            Ok(t) => glyph_tables(table_views(tables@)) == Ok::<GlyphTablesView, Problem>(t@),
            Err(e) => glyph_tables(table_views(tables@)) == Err::<GlyphTablesView, Problem>(e@),
        },
{
    let outlines: Outlines = match find_outlines(tables) {
        Ok(o) => o,
        Err(e) => {
            return Err(e);
        },
    };
    let hhea: &Vec<u8> = match need_table(tables, HHEA) {
        Ok(t) => t,
        Err(e) => {
            return Err(e);
        },
    };
    let h_count: u16 = match read_hhea(hhea.as_slice()) {
        Some(f) => f.number_of_h_metrics,
        None => {
            return Err(bounds_error());
        },
    };
    let hmtx: &Vec<u8> = match need_table(tables, HMTX) {
        Ok(t) => t,
        Err(e) => {
            return Err(e);
        },
    };
    let vertical: Option<(&Vec<u8>, u16)> = match find_table(tables, VHEA) {
        Some(vhea) => match find_table(tables, VMTX) {
            Some(vmtx) => if vhea.len() >= 36 {
                Some((vmtx, field_u16(vhea.as_slice(), 34)))
            } else {
                None
            },
            None => None,
        },
        None => None,
    };
    Ok(GlyphTables { outlines, hmtx, h_count, vertical })
}

pub open spec fn or_zero_u(v: Option<u16>) -> int {
    match v {
        Some(v) => v as int,
        None => 0,
    }
}

pub open spec fn or_zero_i(v: Option<i16>) -> int {
    match v {
        Some(v) => v as int,
        None => 0,
    }
}

/// The metrics of a glyph; what a table does not say is zero.
pub open spec fn phantom_metrics(t: GlyphTablesView, gid: u32) -> PhantomView {
    PhantomView {
        advance: or_zero_u(advance_of(t.hmtx, t.h_count, gid)),
        lsb: or_zero_i(bearing_of(t.hmtx, t.h_count, gid)),
        vertical: match t.vertical {
            Some((table, count)) => Some(
                (
                    or_zero_u(advance_of(table, count, gid)),
                    or_zero_i(bearing_of(table, count, gid)),
                ),
            ),
            None => None,
        },
    }
}

/// One glyph as points plus structure, or why it cannot be read.
pub open spec fn glyph_points(t: GlyphTablesView, gid: u32) -> Result<PointsView, Problem> {
    match outline_of(t.outlines, gid) {
        Some(outline) => Ok(points_of(outline, phantom_metrics(t, gid))),
        None => Err(out_of_bounds()),
    }
}

/// Read one glyph as points plus structure.
pub fn read_glyph(t: &GlyphTables, gid: u32) -> (r: Result<GlyphPoints, SliceError>)
    ensures
        match r {
            Ok(points) => glyph_points(t@, gid) == Ok::<PointsView, Problem>(points@),
            Err(e) => glyph_points(t@, gid) == Err::<PointsView, Problem>(e@),
        },
{
    let ghost metrics = phantom_metrics(t@, gid);
    let advance: u16 = advance_at(t.hmtx.as_slice(), t.h_count, gid);
    let lsb: i16 = bearing_at(t.hmtx.as_slice(), t.h_count, gid);
    let vertical: Option<(u16, i16)> = match t.vertical {
        Some((table, count)) => Some(
            (
                advance_at(table.as_slice(), count, gid),
                bearing_at(table.as_slice(), count, gid),
            ),
        ),
        None => None,
    };
    let outline: Outline = match read_outline(&t.outlines, gid) {
        Some(outline) => outline,
        None => {
            return Err(bounds_error());
        },
    };
    let ghost wanted = points_of(outline@, metrics);
    let mut coords: Vec<(i32, i32)> = Vec::new();
    match outline {
        Outline::Empty => {
            push_phantoms(&mut coords, 0, 0, advance, lsb, vertical, Ghost(metrics));
            let out: GlyphPoints = GlyphPoints {
                shape: GlyphShape::Empty,
                coords,
                end_pts: Vec::new(),
            };
            assert(out@ =~= wanted);
            Ok(out)
        },
        Outline::Simple(s) => {
            let mut on_curve: Vec<bool> = Vec::new();
            for i in 0..s.points.len()
                invariant
                    coords@ == point_coords(s.points@).take(i as int),
                    on_curve@ == on_curve_flags(s.points@).take(i as int),
            {
                let p: Point = s.points[i];
                coords.push((p.x as i32, p.y as i32));
                on_curve.push(p.on_curve);
                assert(coords@ =~= point_coords(s.points@).take(i + 1));
                assert(on_curve@ =~= on_curve_flags(s.points@).take(i + 1));
            }
            assert(coords@ =~= point_coords(s.points@));
            assert(on_curve@ =~= on_curve_flags(s.points@));
            push_phantoms(
                &mut coords,
                s.bounds.x_min,
                s.bounds.y_max,
                advance,
                lsb,
                vertical,
                Ghost(metrics),
            );
            let out: GlyphPoints = GlyphPoints {
                shape: GlyphShape::Simple {
                    on_curve,
                    instructions: s.instructions,
                    overlaps: s.overlaps,
                },
                coords,
                end_pts: s.end_pts,
            };
            assert(out@ =~= wanted);
            Ok(out)
        },
        Outline::Composite(c) => {
            for i in 0..c.components.len()
                invariant
                    coords@ == component_offsets(c.components@).take(i as int),
            {
                let offset: (i32, i32) = match c.components[i].anchor {
                    Anchor::Offset { x, y } => (x as i32, y as i32),
                    Anchor::Point { .. } => (0, 0),
                };
                coords.push(offset);
                assert(coords@ =~= component_offsets(c.components@).take(i + 1));
            }
            assert(coords@ =~= component_offsets(c.components@));
            push_phantoms(
                &mut coords,
                c.bounds.x_min,
                c.bounds.y_max,
                advance,
                lsb,
                vertical,
                Ghost(metrics),
            );
            let out: GlyphPoints = GlyphPoints {
                shape: GlyphShape::Composite {
                    components: c.components,
                    instructions: c.instructions,
                },
                coords,
                end_pts: Vec::new(),
            };
            assert(out@ =~= wanted);
            Ok(out)
        },
    }
}

fn push_phantoms(
    coords: &mut Vec<(i32, i32)>,
    x_min: i16,
    y_max: i16,
    advance: u16,
    lsb: i16,
    vertical: Option<(u16, i16)>,
    Ghost(m): Ghost<PhantomView>,
)
    requires
        m.advance == advance,
        m.lsb == lsb,
        m.vertical == match vertical {
            Some((a, b)) => Some((a as int, b as int)),
            None => None,
        },
    ensures
        final(coords)@ == old(coords)@ + phantoms_of(x_min as int, y_max as int, m),
{
    let ghost before = coords@;
    let left: i32 = x_min as i32 - lsb as i32;
    let (top, bottom): (i32, i32) = match vertical {
        Some((a, b)) => (b as i32 + y_max as i32, b as i32 + y_max as i32 - a as i32),
        None => (0, 0),
    };
    coords.push((left, 0));
    coords.push((left + advance as i32, 0));
    coords.push((0, top));
    coords.push((0, bottom));
    assert(coords@ =~= before + phantoms_of(x_min as int, y_max as int, m));
}

/// Every glyph has the four phantom points after its outline points, and the horizontal
/// ones say what its metrics say.
pub proof fn phantom_points_carry_the_metrics(t: GlyphTablesView, gid: u32)
    requires
        glyph_points(t, gid) is Ok,
    ensures
        ({
            let points = glyph_points(t, gid)->Ok_0;
            let at = points.coords.len() - PHANTOM_COUNT;
            let m = phantom_metrics(t, gid);
            let x_min: int = match outline_of(t.outlines, gid)->0 {
                OutlineView::Empty => 0,
                OutlineView::Simple(s) => s.bounds.x_min as int,
                OutlineView::Composite(c) => c.bounds.x_min as int,
            };
            &&& at >= 0
            &&& points.coords[at + 1].0 - points.coords[at].0 == m.advance
            &&& x_min - points.coords[at].0 == m.lsb
        }),
{
}

} // verus!
