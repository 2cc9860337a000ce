//! Producing a static instance: every axis pinned, all variation data resolved away.
use vstd::prelude::*;

use crate::apply::step_file;
use crate::bytes::{be16, push_i16, push_u16};
use crate::error::{unsupported, Problem, SliceError};
use crate::fields::{
    built_table, finish_table, glyphs_of, head_bytes, head_fields, hhea_bytes, hhea_fields,
    lemma_i16_reads_back, os2_fields, os2_written, read_glyph_count, read_head, read_hhea,
    read_os2, write_head, write_hhea, write_os2, HeadFields, HheaFields,
};
use crate::glyphs::{
    advance_of, bearing_of, find_glyph_tables, glyph_points, glyph_tables, read_glyph, Bounds,
    GlyphPoints, GlyphTables, GlyphTablesView, PointsView,
};
use crate::mvar::{adjusted_hhea, adjusted_os2, apply_to_hhea, apply_to_os2};
use crate::outline::{
    bounding_boxes, build_glyph, built_glyph, compute_bounding_boxes, glyph_views, glyphs_written,
    has_places, wrap16, write_glyphs, GlyfLoca, GlyfLocaView, Glyph, GlyphView,
};
use crate::font::{frame_in, tables_in};
use crate::tables::{
    assemble, bounds_error, copy_remaining_tables, distinct_tags, find_table, font_tables, has_tag,
    lemma_carried, lemma_reads_under_tag, lemma_remaining_distinct, need_table, needed_table,
    out_of_bounds, reads_as, table_bytes, table_views, with_remaining, FontTable, TableView, AVAR,
    CVAR, FVAR, GLYF, GVAR, HEAD, HHEA, HMTX, HVAR, LOCA, MAXP, MVAR, OS2, STAT, VVAR,
};

verus! {

/// Tables that describe variation and therefore have no place in a static instance.
///
/// `cvar` and the metric variation tables go because there is nothing left to vary. The
/// `STAT` of the source goes with `fvar`: what it says describes axes the font no longer
/// has.
pub const VARIATION_TABLES: [u32; 8] = [
    0x66766172,  // fvar
    0x61766172,  // avar
    0x67766172,  // gvar
    0x63766172,  // cvar
    0x48564152,  // HVAR
    0x56564152,  // VVAR
    0x4d564152,  // MVAR
    0x53544154,  // STAT
];

// -------------------------------------------------------------------- reading all glyphs

pub open spec fn points_views(points: Seq<GlyphPoints>) -> Seq<PointsView> {
    points.map_values(|p: GlyphPoints| p@)
}

/// The points of the first `n` glyphs, or why one cannot be read.
pub open spec fn all_glyph_points(t: GlyphTablesView, n: int) -> Result<Seq<PointsView>, Problem>
    decreases n,
{
    if n <= 0 {
        Ok(Seq::empty())
    } else {
        match all_glyph_points(t, n - 1) {
            Ok(before) => match glyph_points(t, (n - 1) as u32) {
                Ok(points) => Ok(before.push(points)),
                Err(e) => Err(e),
            },
            Err(e) => Err(e),
        }
    }
}

/// The text that refuses a font without TrueType outlines.
pub open spec fn truetype_text() -> Seq<char> {
    "Only TrueType outlines (a 'glyf' table) can be instanced at the moment. This font uses CFF outlines."@
}

pub(crate) fn truetype_error() -> (e: SliceError)
    ensures
        e@ == Problem::Unsupported(truetype_text()),
{
    unsupported(
        "Only TrueType outlines (a 'glyf' table) can be instanced at the moment. This font uses CFF outlines.",
    )
}

/// The points of all glyphs of a font that is to be instanced, or why they cannot be read.
pub open spec fn instancing_points(tables: Seq<TableView>) -> Result<Seq<PointsView>, Problem> {
    if table_bytes(tables, GLYF) is None {
        Err(Problem::Unsupported(truetype_text()))
    } else {
        match needed_table(tables, MAXP) {
            Err(e) => Err(e),
            Ok(maxp) => match glyphs_of(maxp) {
                None => Err(out_of_bounds()),
                Some(count) => if count == 0 {
                    Ok(Seq::empty())
                } else {
                    match glyph_tables(tables) {
                        Err(e) => Err(e),
                        Ok(t) => all_glyph_points(t, count as int),
                    }
                },
            },
        }
    }
}

/// Read all glyphs of a font that is to be instanced.
pub fn read_glyphs(tables: &Vec<FontTable>) -> (r: Result<Vec<GlyphPoints>, SliceError>)
    ensures
        match r {
            Ok(points) => instancing_points(table_views(tables@)) == Ok::<
                Seq<PointsView>,
                Problem,
            >(points_views(points@)),
            Err(e) => instancing_points(table_views(tables@)) == Err::<Seq<PointsView>, Problem>(
                e@,
            ),
        },
{
    if find_table(tables, GLYF).is_none() {
        return Err(truetype_error());
    }
    let maxp: &Vec<u8> = match need_table(tables, MAXP) {
        Ok(t) => t,
        Err(e) => {
            return Err(e);
        },
    };
    let count: u16 = match read_glyph_count(maxp.as_slice()) {
        Some(count) => count,
        None => {
            return Err(bounds_error());
        },
    };
    let mut out: Vec<GlyphPoints> = Vec::new();
    assert(points_views(out@) =~= Seq::<PointsView>::empty());
    if count == 0 {
        return Ok(out);
    }
    let t: GlyphTables = match find_glyph_tables(tables) {
        Ok(t) => t,
        Err(e) => {
            return Err(e);
        },
    };
    let ghost whole = all_glyph_points(t@, count as int);
    for gid in 0..count
        invariant
            whole == all_glyph_points(t@, count as int),
            instancing_points(table_views(tables@)) == whole,
            all_glyph_points(t@, gid as int) == Ok::<Seq<PointsView>, Problem>(points_views(out@)),
    {
        let ghost before = points_views(out@);
        match read_glyph(&t, gid as u32) {
            Ok(points) => {
                let ghost added = points@;
                out.push(points);
                assert(points_views(out@) =~= before.push(added));
            },
            Err(e) => {
                proof {
                    lemma_points_fail(t@, gid + 1, count as int);
                }
                return Err(e);
            },
        }
    }
    Ok(out)
}

proof fn lemma_points_fail(t: GlyphTablesView, n: int, m: int)
    requires
        0 < n <= m,
        all_glyph_points(t, n) is Err,
    ensures
        all_glyph_points(t, m) == all_glyph_points(t, n),
    decreases m,
{
    if n < m {
        lemma_points_fail(t, n, m - 1);
    }
}

// --------------------------------------------------------------------- building all glyphs

pub open spec fn all_have_places(points: Seq<PointsView>) -> bool {
    forall|i: int| 0 <= i < points.len() ==> has_places(#[trigger] points[i])
}

pub open spec fn built_glyphs(points: Seq<PointsView>) -> Seq<GlyphView> {
    points.map_values(|p: PointsView| built_glyph(p))
}

/// A glyph with a bounding box, if it is composite. The others have theirs already.
pub open spec fn with_box(glyph: GlyphView, b: Bounds) -> GlyphView {
    match glyph {
        GlyphView::Composite { components, instructions, .. } => GlyphView::Composite {
            bbox: b,
            components,
            instructions,
        },
        _ => glyph,
    }
}

/// The glyphs, with the boxes of composites resolved against their components.
pub open spec fn boxed(glyphs: Seq<GlyphView>) -> Seq<GlyphView> {
    let boxes = bounding_boxes(glyphs);
    Seq::new(glyphs.len(), |i: int| with_box(glyphs[i], boxes[i]))
}

/// Turn the point sets of all glyphs, with their coordinates rounded to integers, back into
/// glyphs. A composite's bounding box depends on the glyphs it references, so it is
/// computed once every simple glyph is final.
pub fn build_shapes(points: &Vec<GlyphPoints>) -> (r: Vec<Glyph>)
    requires
        all_have_places(points_views(points@)),
    ensures
        glyph_views(r@) == boxed(built_glyphs(points_views(points@))),
{
    let ghost views = points_views(points@);
    let ghost glyphs = built_glyphs(views);
    let mut shapes: Vec<Glyph> = Vec::new();
    assert(glyph_views(shapes@) =~= glyphs.take(0));
    for i in 0..points.len()
        invariant
            views == points_views(points@),
            all_have_places(views),
            glyphs == built_glyphs(views),
            glyph_views(shapes@) == glyphs.take(i as int),
    {
        let ghost before = glyph_views(shapes@);
        assert(views[i as int] == points@[i as int]@);
        assert(has_places(views[i as int]));
        let g: Glyph = build_glyph(&points[i]);
        let ghost added = g@;
        shapes.push(g);
        assert(glyph_views(shapes@) =~= before.push(added));
        assert(glyphs.take(i + 1) =~= before.push(added));
    }
    assert(glyph_views(shapes@) =~= glyphs);
    let boxes: Vec<Bounds> = compute_bounding_boxes(&shapes);
    let mut out: Vec<Glyph> = Vec::new();
    let ghost wanted = boxed(glyphs);
    let count: usize = shapes.len();
    while shapes.len() > 0
        invariant
            wanted == boxed(glyphs),
            boxes@ == bounding_boxes(glyphs),
            boxes@.len() == count,
            glyphs.len() == count,
            out@.len() + shapes@.len() == count,
            forall|k: int|
                0 <= k < shapes@.len() ==> (#[trigger] shapes@[k])@ == glyphs[k],
            forall|k: int|
                0 <= k < out@.len() ==> (#[trigger] out@[k])@ == wanted[count - 1 - k],
        decreases shapes@.len(),
    {
        let ghost last = shapes@.len() - 1;
        let at: usize = shapes.len() - 1;
        assert(shapes@[last]@ == glyphs[last]);
        let b: Bounds = boxes[at];
        let g: Glyph = match shapes.pop() {
            Some(g) => g,
            None => Glyph::Empty,
        };
        let g: Glyph = match g {
            Glyph::Composite(mut c) => {
                c.bbox = b;
                Glyph::Composite(c)
            },
            other => other,
        };
        assert(g@ == wanted[last]);
        out.push(g);
    }
    let mut ordered: Vec<Glyph> = Vec::new();
    while out.len() > 0
        invariant
            wanted.len() == count,
            out@.len() + ordered@.len() == count,
            forall|k: int|
                0 <= k < out@.len() ==> (#[trigger] out@[k])@ == wanted[count - 1 - k],
            forall|k: int| 0 <= k < ordered@.len() ==> (#[trigger] ordered@[k])@ == wanted[k],
        decreases out@.len(),
    {
        let ghost last = out@.len() - 1;
        assert(out@[last]@ == wanted[count - 1 - last]);
        match out.pop() {
            Some(g) => {
                ordered.push(g);
            },
            None => {},
        }
    }
    assert(glyph_views(ordered@) =~= wanted);
    ordered
}

/// The left edge of a glyph, from which its side bearing is measured.
pub open spec fn left_edge(glyph: GlyphView) -> i16 {
    match glyph {
        GlyphView::Empty => 0,
        GlyphView::Simple { bbox, .. } => bbox.x_min,
        GlyphView::Composite { bbox, .. } => bbox.x_min,
    }
}

pub fn x_min(glyph: &Glyph) -> (r: i16)
    ensures
        r == left_edge(glyph@),
{
    match glyph {
        Glyph::Empty => 0,
        Glyph::Simple(s) => s.bbox.x_min,
        Glyph::Composite(c) => c.bbox.x_min,
    }
}

// -------------------------------------------------------------------------------- hmtx

/// The metrics of a glyph from its rounded advance and left side bearing. An advance is
/// never negative.
pub open spec fn stored_metric(advance: int, lsb: int) -> (u16, i16) {
    (
        if advance < 0 {
            0
        } else {
            (advance % 0x1_0000) as u16
        },
        wrap16(lsb),
    )
}

pub fn glyph_metric(advance: i32, lsb: i32) -> (r: (u16, i16))
    ensures
        r == stored_metric(advance as int, lsb as int),
{
    (
        if advance < 0 {
            0
        } else {
            (advance % 0x1_0000) as u16
        },
        crate::outline::to_i16(lsb),
    )
}

impl GlyphPoints {
    /// The advance width and left side bearing implied by the phantom points.
    ///
    /// `x_min` must be the bound of the glyph *after* deltas were applied, because the
    /// side bearing is measured from the new outline, not the old one.
    pub fn metrics(&self, x_min: i16) -> (r: (u16, i16))
        requires
            self@.coords.len() >= 4,
            forall|i: int|
                0 <= i < self@.coords.len() ==> -0x1000_0000 <= (#[trigger] self@.coords[i]).0
                    <= 0x1000_0000,
        ensures
            ({
                let at = self@.coords.len() - 4;
                r == stored_metric(
                    self@.coords[at + 1].0 - self@.coords[at].0,
                    x_min - self@.coords[at].0,
                )
            }),
    {
        let at: usize = self.coords.len() - 4;
        assert(self@.coords[at as int] == self.coords@[at as int]);
        assert(self@.coords[at + 1] == self.coords@[at + 1]);
        let pp1: i32 = self.coords[at].0;
        let pp2: i32 = self.coords[at + 1].0;
        glyph_metric(pp2 - pp1, x_min as i32 - pp1)
    }
}

/// How many long records the first `n` metrics need: all but those at the end which repeat
/// the advance `last`, and at least one.
pub open spec fn long_count_of(metrics: Seq<(u16, i16)>, n: int) -> int
    decreases n,
{
    if n > 1 && metrics[n - 2].0 == metrics.last().0 {
        long_count_of(metrics, n - 1)
    } else {
        n
    }
}

/// How many `longHorMetric` records `hmtx` needs.
pub open spec fn long_count(metrics: Seq<(u16, i16)>) -> int {
    long_count_of(metrics, metrics.len() as int)
}

/// How many `longHorMetric` records `hmtx` needs.
///
/// Glyphs at the end that all share the last advance width can be stored as bare side
/// bearings. At least one record is required.
pub fn long_metric_count(metrics: &Vec<(u16, i16)>) -> (r: usize)
    ensures
        r == long_count(metrics@),
        r <= metrics@.len(),
        metrics@.len() > 0 ==> r > 0,
{
    if metrics.len() == 0 {
        return 0;
    }
    let last: u16 = metrics[metrics.len() - 1].0;
    let mut count: usize = metrics.len();
    while count > 1 && metrics[count - 2].0 == last
        invariant
            1 <= count <= metrics@.len(),
            last == metrics@.last().0,
            long_count(metrics@) == long_count_of(metrics@, count as int),
        decreases count,
    {
        count = count - 1;
    }
    count
}

/// The first `n` long records.
pub open spec fn long_records(metrics: Seq<(u16, i16)>, n: int) -> Seq<u8>
    decreases n,
{
    if n <= 0 {
        Seq::empty()
    } else {
        long_records(metrics, n - 1) + be16(metrics[n - 1].0 as int) + be16(
            metrics[n - 1].1 as int,
        )
    }
}

/// The side bearings from `from` up to `n`.
pub open spec fn bare_bearings(metrics: Seq<(u16, i16)>, from: int, n: int) -> Seq<u8>
    decreases n - from,
{
    if n <= from {
        Seq::empty()
    } else {
        bare_bearings(metrics, from, n - 1) + be16(metrics[n - 1].1 as int)
    }
}

/// The `hmtx` table, with the trailing run of equal advances compressed.
pub open spec fn hmtx_bytes(metrics: Seq<(u16, i16)>) -> Seq<u8> {
    long_records(metrics, long_count(metrics)) + bare_bearings(
        metrics,
        long_count(metrics),
        metrics.len() as int,
    )
}

/// Pack per-glyph metrics into an `hmtx`, compressing the trailing run of equal advances.
pub fn build_hmtx(metrics: &Vec<(u16, i16)>) -> (out: Vec<u8>)
    ensures
        out@ == hmtx_bytes(metrics@),
{
    let count: usize = long_metric_count(metrics);
    let mut out: Vec<u8> = Vec::new();
    for i in 0..count
        invariant
            count <= metrics@.len(),
            out@ == long_records(metrics@, i as int),
    {
        push_u16(&mut out, metrics[i].0);
        push_i16(&mut out, metrics[i].1);
    }
    let ghost long = out@;
    assert(out@ =~= long + bare_bearings(metrics@, count as int, count as int));
    for i in count..metrics.len()
        invariant
            count <= metrics@.len(),
            out@ == long + bare_bearings(metrics@, count as int, i as int),
    {
        push_i16(&mut out, metrics[i].1);
        assert(out@ =~= long + bare_bearings(metrics@, count as int, i + 1));
    }
    out
}

proof fn lemma_long_record(metrics: Seq<(u16, i16)>, k: int, n: int)
    requires
        0 <= k < n <= metrics.len(),
    ensures
        long_records(metrics, n).len() == 4 * n,
        long_records(metrics, n).subrange(4 * k, 4 * k + 2) == be16(metrics[k].0 as int),
        long_records(metrics, n).subrange(4 * k + 2, 4 * k + 4) == be16(metrics[k].1 as int),
    decreases n,
{
    let before = long_records(metrics, n - 1);
    let all = long_records(metrics, n);
    if n == 1 {
        assert(before =~= Seq::<u8>::empty());
    } else {
        lemma_long_record(metrics, if k < n - 1 {
            k
        } else {
            n - 2
        }, n - 1);
    }
    if k < n - 1 {
        assert(all.subrange(4 * k, 4 * k + 2) =~= before.subrange(4 * k, 4 * k + 2));
        assert(all.subrange(4 * k + 2, 4 * k + 4) =~= before.subrange(4 * k + 2, 4 * k + 4));
    } else {
        assert(all.subrange(4 * k, 4 * k + 2) =~= be16(metrics[k].0 as int));
        assert(all.subrange(4 * k + 2, 4 * k + 4) =~= be16(metrics[k].1 as int));
    }
}

proof fn lemma_bare_bearing(metrics: Seq<(u16, i16)>, from: int, k: int, n: int)
    requires
        0 <= from <= k < n <= metrics.len(),
    ensures
        bare_bearings(metrics, from, n).len() == 2 * (n - from),
        bare_bearings(metrics, from, n).subrange(2 * (k - from), 2 * (k - from) + 2) == be16(
            metrics[k].1 as int,
        ),
    decreases n,
{
    let before = bare_bearings(metrics, from, n - 1);
    let all = bare_bearings(metrics, from, n);
    if n - 1 == from {
        assert(before =~= Seq::<u8>::empty());
    } else {
        lemma_bare_bearing(metrics, from, if k < n - 1 {
            k
        } else {
            n - 2
        }, n - 1);
    }
    let at = 2 * (k - from);
    if k < n - 1 {
        assert(all.subrange(at, at + 2) =~= before.subrange(at, at + 2));
    } else {
        assert(all.subrange(at, at + 2) =~= be16(metrics[k].1 as int));
    }
}

pub(crate) proof fn lemma_long_count(metrics: Seq<(u16, i16)>, n: int)
    requires
        1 <= n <= metrics.len(),
        forall|i: int| n - 1 <= i < metrics.len() ==> metrics[i].0 == metrics.last().0,
    ensures
        1 <= long_count_of(metrics, n) <= n,
        forall|i: int|
            long_count_of(metrics, n) - 1 <= i < metrics.len() ==> metrics[i].0
                == metrics.last().0,
    decreases n,
{
    if n > 1 && metrics[n - 2].0 == metrics.last().0 {
        lemma_long_count(metrics, n - 1);
    }
}

/// Every glyph's metrics read back from the compressed table.
pub proof fn metrics_survive_compression(metrics: Seq<(u16, i16)>, gid: u32)
    requires
        gid < metrics.len() <= 0xffff,
    ensures
        advance_of(hmtx_bytes(metrics), long_count(metrics) as u16, gid) == Some(metrics[gid as int].0),
        bearing_of(hmtx_bytes(metrics), long_count(metrics) as u16, gid) == Some(metrics[gid as int].1),
{
    let n = metrics.len() as int;
    let count = long_count(metrics);
    lemma_long_count(metrics, n);
    let bytes = hmtx_bytes(metrics);
    let long = long_records(metrics, count);
    let bare = bare_bearings(metrics, count, n);
    let k = gid as int;
    lemma_long_record(metrics, if k < count {
        k
    } else {
        count - 1
    }, count);
    let at = if k < count {
        k
    } else {
        count - 1
    };
    assert(bytes.subrange(4 * at, 4 * at + 2) =~= long.subrange(4 * at, 4 * at + 2));
    crate::bytes::lemma_be16_reads_back(bytes, 4 * at, metrics[at].0 as int);
    if k < count {
        assert(bytes.subrange(4 * k + 2, 4 * k + 4) =~= long.subrange(4 * k + 2, 4 * k + 4));
        lemma_i16_reads_back(bytes, 4 * k + 2, metrics[k].1);
    } else {
        lemma_bare_bearing(metrics, count, k, n);
        let b = 2 * (k - count);
        assert(bytes.subrange(4 * count + b, 4 * count + b + 2) =~= bare.subrange(b, b + 2));
        lemma_i16_reads_back(bytes, 4 * count + b, metrics[k].1);
    }
}

// ---------------------------------------------------------------------- the new tables

/// The tables that depend on the outlines and the metrics: `glyf`, `loca`, `hmtx`, `head`,
/// which records the format of `loca`, and `hhea`, which records how many long metrics
/// `hmtx` holds.
#[verifier::opaque]
pub open spec fn outline_tables(
    font: Seq<TableView>,
    g: GlyfLocaView,
    metrics: Seq<(u16, i16)>,
    adjustments: Seq<(u32, i32)>,
) -> Result<Seq<TableView>, Problem> {
    match needed_table(font, HEAD) {
        Err(e) => Err(e),
        Ok(head) => match head_fields(head) {
            None => Err(out_of_bounds()),
            Some(h) => match needed_table(font, HHEA) {
                Err(e) => Err(e),
                Ok(hhea) => match hhea_fields(hhea) {
                    None => Err(out_of_bounds()),
                    Some(f) => {
                        let loc_format: i16 = if g.is_long {
                            1
                        } else {
                            0
                        };
                        let counted = HheaFields {
                            number_of_h_metrics: (long_count(metrics) % 0x1_0000) as u16,
                            ..f
                        };
                        Ok(
                            seq![
                                TableView { tag: GLYF, bytes: g.glyf },
                                TableView { tag: LOCA, bytes: g.loca },
                                TableView { tag: HMTX, bytes: hmtx_bytes(metrics) },
                                TableView {
                                    tag: HEAD,
                                    bytes: head_bytes(head, HeadFields { loc_format, ..h }),
                                },
                                TableView {
                                    tag: HHEA,
                                    bytes: hhea_bytes(adjusted_hhea(counted, adjustments)),
                                },
                            ],
                        )
                    },
                },
            },
        },
    }
}

/// Build the tables that depend on the outlines and the metrics.
pub fn build_outline_tables(
    font: &Vec<FontTable>,
    g: GlyfLoca,
    metrics: &Vec<(u16, i16)>,
    adjustments: &Vec<(u32, i32)>,
) -> (r: Result<Vec<FontTable>, SliceError>)
    ensures
        match r {
            Ok(tables) => outline_tables(table_views(font@), g@, metrics@, adjustments@) == Ok::<
                Seq<TableView>,
                Problem,
            >(table_views(tables@)),
            Err(e) => outline_tables(table_views(font@), g@, metrics@, adjustments@) == Err::<
                Seq<TableView>,
                Problem,
            >(e@),
        },
{
    reveal(outline_tables);
    let head: &Vec<u8> = match need_table(font, HEAD) {
        Ok(t) => t,
        Err(e) => {
            return Err(e);
        },
    };
    let h: HeadFields = match read_head(head.as_slice()) {
        Some(h) => h,
        None => {
            return Err(bounds_error());
        },
    };
    let hhea: &Vec<u8> = match need_table(font, HHEA) {
        Ok(t) => t,
        Err(e) => {
            return Err(e);
        },
    };
    let f: HheaFields = match read_hhea(hhea.as_slice()) {
        Some(f) => f,
        None => {
            return Err(bounds_error());
        },
    };
    let loc_format: i16 = if g.is_long {
        1
    } else {
        0
    };
    let head_table: FontTable = match finish_table(
        HEAD,
        write_head(head.as_slice(), HeadFields { loc_format, ..h }),
    ) {
        Ok(t) => t,
        Err(e) => {
            return Err(e);
        },
    };
    let counted: HheaFields = HheaFields {
        number_of_h_metrics: (long_metric_count(metrics) % 0x1_0000) as u16,
        ..f
    };
    let hhea_table: FontTable = match finish_table(
        HHEA,
        write_hhea(apply_to_hhea(counted, adjustments)),
    ) {
        Ok(t) => t,
        Err(e) => {
            return Err(e);
        },
    };
    let ghost wanted = outline_tables(table_views(font@), g@, metrics@, adjustments@)->Ok_0;
    let mut out: Vec<FontTable> = Vec::new();
    out.push(FontTable { tag: GLYF, bytes: g.glyf });
    out.push(FontTable { tag: LOCA, bytes: g.loca });
    out.push(FontTable { tag: HMTX, bytes: build_hmtx(metrics) });
    out.push(head_table);
    out.push(hhea_table);
    assert(table_views(out@) =~= wanted);
    Ok(out)
}

/// The tags of the tables that depend on the outlines.
pub proof fn lemma_outline_tags(
    font: Seq<TableView>,
    g: GlyfLocaView,
    metrics: Seq<(u16, i16)>,
    adjustments: Seq<(u32, i32)>,
)
    ensures
        outline_tables(font, g, metrics, adjustments) matches Ok(first) ==> {
            &&& first.len() == 5
            &&& first[0].tag == GLYF
            &&& first[1].tag == LOCA
            &&& first[2].tag == HMTX
            &&& first[3].tag == HEAD
            &&& first[4].tag == HHEA
        },
{
    reveal(outline_tables);
}

/// The `OS/2` table after its share of the adjustments, if the font has one that can be
/// read.
#[verifier::opaque]
pub open spec fn adjusted_os2_table(
    font: Seq<TableView>,
    adjustments: Seq<(u32, i32)>,
) -> Option<Result<TableView, Problem>> {
    match table_bytes(font, OS2) {
        Some(old) => match os2_fields(old) {
            Some(f) => Some(built_table(OS2, os2_written(old, adjusted_os2(f, adjustments)))),
            None => None,
        },
        None => None,
    }
}

/// Build the `OS/2` table after its share of the adjustments.
pub fn build_adjusted_os2(font: &Vec<FontTable>, adjustments: &Vec<(u32, i32)>) -> (r: Option<
    Result<FontTable, SliceError>,
>)
    ensures
        match r {
            Some(Ok(t)) => adjusted_os2_table(table_views(font@), adjustments@) == Some(
                Ok::<TableView, Problem>(t@),
            ) && t.tag == OS2,
            Some(Err(e)) => adjusted_os2_table(table_views(font@), adjustments@) == Some(
                Err::<TableView, Problem>(e@),
            ),
            None => adjusted_os2_table(table_views(font@), adjustments@) is None,
        },
{
    reveal(adjusted_os2_table);
    match find_table(font, OS2) {
        Some(old) => match read_os2(old.as_slice()) {
            Some(f) => Some(
                finish_table(OS2, write_os2(old.as_slice(), apply_to_os2(f, adjustments))),
            ),
            None => None,
        },
        None => None,
    }
}

pub proof fn lemma_os2_tag(font: Seq<TableView>, adjustments: Seq<(u32, i32)>)
    ensures
        adjusted_os2_table(font, adjustments) matches Some(Ok(t)) ==> t.tag == OS2,
{
    reveal(adjusted_os2_table);
}

/// The tables of a static instance: the new ones, and the rest of the font without what
/// describes variation.
pub open spec fn static_tables(
    font: Seq<TableView>,
    shapes: Seq<GlyphView>,
    metrics: Seq<(u16, i16)>,
    adjustments: Seq<(u32, i32)>,
    stat: Option<Seq<u8>>,
) -> Result<Seq<TableView>, Problem> {
    match glyphs_written(shapes) {
        Err(text) => Err(Problem::Write("could not write a glyph: "@ + text)),
        Ok(g) => match outline_tables(font, g, metrics, adjustments) {
            Err(e) => Err(e),
            Ok(first) => match adjusted_os2_table(font, adjustments) {
                Some(Err(e)) => Err(e),
                os2 => {
                    let with_os2 = match os2 {
                        Some(Ok(t)) => first.push(t),
                        _ => first,
                    };
                    let with_stat = match stat {
                        Some(bytes) => with_os2.push(TableView { tag: STAT, bytes }),
                        None => with_os2,
                    };
                    Ok(with_remaining(with_stat, font, VARIATION_TABLES@))
                },
            },
        },
    }
}

/// Build a static instance of a font.
///
/// `shapes` and `metrics` are the glyphs at the pinned location and what they measure,
/// `adjustments` what `MVAR` says there, and `stat` is the `STAT` table that the instance
/// is to have, if any. Everything else is copied across verbatim, minus the variation
/// tables. Name records and bit flags are *not* applied here; the caller does that
/// afterwards.
pub fn instantiate_static(
    font: &Vec<FontTable>,
    shapes: &Vec<Glyph>,
    metrics: &Vec<(u16, i16)>,
    adjustments: &Vec<(u32, i32)>,
    stat: Option<Vec<u8>>,
) -> (r: Result<Vec<u8>, SliceError>)
    ensures
        ({
            let stat_view = match stat {
                Some(b) => Some(b@),
                None => None,
            };
            let tables = static_tables(
                table_views(font@),
                glyph_views(shapes@),
                metrics@,
                adjustments@,
                stat_view,
            );
            match r {
                Ok(bytes) => {
                    &&& step_file(tables) == Ok::<Seq<u8>, Problem>(bytes@)
                    &&& font_tables(bytes@) matches Ok(read) && reads_as(read, tables->Ok_0)
                    &&& frame_in(bytes@) == (
                        None::<Seq<u8>>,
                        crate::font::glyph_total(table_views(font@)),
                    )
                },
                Err(e) => step_file(tables) == Err::<Seq<u8>, Problem>(e@),
            }
        }),
{
    let ghost stat_view = crate::cff2::read::opt_view(stat);
    let written: GlyfLoca = match write_glyphs(shapes) {
        Ok(g) => g,
        Err(text) => {
            return Err(
                SliceError::Write("could not write a glyph: ".to_owned().concat(text.as_str())),
            );
        },
    };
    let ghost g = written@;
    let mut out: Vec<FontTable> = match build_outline_tables(font, written, metrics, adjustments) {
        Ok(out) => out,
        Err(e) => {
            return Err(e);
        },
    };
    let ghost first = table_views(out@);
    proof {
        lemma_outline_tags(table_views(font@), g, metrics@, adjustments@);
    }
    match build_adjusted_os2(font, adjustments) {
        Some(Ok(t)) => {
            let ghost added = t@;
            out.push(t);
            assert(table_views(out@) =~= first.push(added));
        },
        Some(Err(e)) => {
            return Err(e);
        },
        None => {},
    }
    let ghost second = table_views(out@);
    assert(distinct_tags(second));
    match stat {
        Some(bytes) => {
            let ghost added = TableView { tag: STAT, bytes: bytes@ };
            out.push(FontTable { tag: STAT, bytes });
            assert(table_views(out@) =~= second.push(added));
        },
        None => {},
    }
    let ghost third = table_views(out@);
    assert(distinct_tags(third));
    copy_remaining_tables(&mut out, font, &VARIATION_TABLES);
    match assemble(&out) {
        Ok(bytes) => {
            proof {
                let view = table_views(font@);
                a_static_instance_has_no_variations(
                    view,
                    glyph_views(shapes@),
                    metrics@,
                    adjustments@,
                    stat_view,
                    0,
                );
                lemma_remaining_distinct(third, view, VARIATION_TABLES@);
                lemma_reads_under_tag(
                    tables_in(bytes@),
                    with_remaining(third, view, VARIATION_TABLES@),
                    FVAR,
                );
                assert(!has_tag(third, MAXP));
                assert(!VARIATION_TABLES@.contains(MAXP));
                lemma_carried(tables_in(bytes@), third, view, VARIATION_TABLES@, MAXP);
            }
            Ok(bytes)
        },
        Err(e) => Err(e),
    }
}

/// A static instance describes no variation: it has none of the variation tables, but for
/// the `STAT` that was made for it.
pub proof fn a_static_instance_has_no_variations(
    font: Seq<TableView>,
    shapes: Seq<GlyphView>,
    metrics: Seq<(u16, i16)>,
    adjustments: Seq<(u32, i32)>,
    stat: Option<Seq<u8>>,
    i: int,
)
    requires
        static_tables(font, shapes, metrics, adjustments, stat) is Ok,
        0 <= i < VARIATION_TABLES@.len(),
    ensures
        table_bytes(
            static_tables(font, shapes, metrics, adjustments, stat)->Ok_0,
            VARIATION_TABLES@[i],
        ) == if VARIATION_TABLES@[i] == STAT {
            stat
        } else {
            None
        },
{
    let tag = VARIATION_TABLES@[i];
    let g = glyphs_written(shapes)->Ok_0;
    let first = outline_tables(font, g, metrics, adjustments)->Ok_0;
    let with_os2 = match adjusted_os2_table(font, adjustments) {
        Some(Ok(t)) => first.push(t),
        _ => first,
    };
    let with_stat = match stat {
        Some(bytes) => with_os2.push(TableView { tag: STAT, bytes }),
        None => with_os2,
    };
    lemma_outline_tags(font, g, metrics, adjustments);
    lemma_os2_tag(font, adjustments);
    assert(VARIATION_TABLES@.contains(tag));
    assert(VARIATION_TABLES@ =~= seq![FVAR, AVAR, GVAR, CVAR, HVAR, VVAR, MVAR, STAT]);
    crate::tables::remaining_tables_are_carried_over(with_stat, font, VARIATION_TABLES@, tag);
    crate::tables::a_tag_is_found_where_it_is(with_stat, tag);
    if stat is Some && tag == STAT {
        crate::tables::lemma_found_by_tag(with_stat, with_stat.len() - 1);
    }
}

} // verus!
