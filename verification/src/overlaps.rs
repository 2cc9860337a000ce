//! Merging overlapping contours.
//!
//! The union of a glyph's contours is a matter of floating-point geometry and is done by
//! the caller. What is here is everything around it: which fonts can be simplified at all,
//! what becomes of each glyph, and what the font looks like afterwards.
//!
//! A glyph that does not need modifying keeps its outline, and so does one that could not be
//! handled. Removing overlaps invalidates hinting, because the point numbers it refers to no
//! longer mean anything. It is dropped from every glyph, on the grounds that a half-hinted font
//! looks worse than an unhinted one.
//!
//! What goes for TrueType outlines is here, and what goes for CFF2 outlines is in
//! [`crate::cff2::draw`].
use vstd::prelude::*;

use crate::apply::{apply_step, step_file};
use crate::cff2::draw::{
    check_redrawable, cubic_merge_views, outcomes, redrawable, redrawn_tables, remove_overlaps_cff2,
    CubicMerge, CubicMergeView,
};
use crate::cff2::font::OutlineKind;
use crate::cff2::read::{read, table_of};
use crate::error::{text_views, unsupported, wording, Problem, SliceError};
use crate::fields::{
    finish_table, glyphs_of, head_bytes, head_fields, read_glyph_count, read_head, write_head,
    HeadFields,
};
use crate::font::tables_in;
use crate::glyphs::{
    find_outlines, outline_of, outlines_in, read_outline, union_of, Bounds, Outline, OutlineView,
    Outlines, OutlinesView, Point,
};
use crate::outline::{
    all_points, contour_views, glyph_views, glyphs_written, point_box, points_box, write_glyphs,
    CompositeShape, GlyfLoca, GlyfLocaView, Glyph, GlyphView, SimpleShape,
};
use crate::tables::{
    assemble, bounds_error, copy_remaining_tables, distinct_tags, find_table, font_tables, has_tag,
    lemma_carried, lemma_found_by_tag, lemma_reads_under_tag, lemma_remaining_distinct, need_table,
    needed_table, out_of_bounds, read_tables, reads_as, remaining_tables_are_carried_over,
    table_bytes, table_views, with_remaining, FontTable, TableView, CFF2, GLYF, GVAR, HEAD, LOCA,
    MAXP,
};
use crate::text::{decimal, decimal_of};

verus! {

/// What happened to a font when overlaps were removed.
#[derive(Debug)]
pub struct OverlapReport {
    /// Glyphs whose contours were actually merged.
    pub modified: Vec<u16>,
    /// Glyphs that were examined and found not to need it.
    pub untouched: usize,
    /// Glyphs the boolean operation could not handle, left as they were.
    pub failed: Vec<(u16, String)>,
}

/// What an [`OverlapReport`] holds.
#[verifier::ext_equal]
pub struct ReportView {
    pub modified: Seq<u16>,
    pub untouched: int,
    pub failed: Seq<(u16, Seq<char>)>,
}

pub open spec fn failure_views(failed: Seq<(u16, String)>) -> Seq<(u16, Seq<char>)> {
    failed.map_values(|f: (u16, String)| (f.0, f.1@))
}

impl View for OverlapReport {
    type V = ReportView;

    open spec fn view(&self) -> ReportView {
        ReportView {
            modified: self.modified@,
            untouched: self.untouched as int,
            failed: failure_views(self.failed@),
        }
    }
}

/// The report in one line.
pub open spec fn summary_text(r: ReportView) -> Seq<char> {
    let counts = decimal(r.modified.len()) + " glyph"@ + (if r.modified.len() == 1 {
        ""@
    } else {
        "s"@
    }) + " simplified, "@ + decimal(r.untouched as nat) + " left as they were"@;
    if r.failed.len() == 0 {
        counts
    } else {
        counts + ", "@ + decimal(r.failed.len()) + " could not be processed"@
    }
}

impl OverlapReport {
    pub fn summary(&self) -> (r: String)
        ensures
            r@ == summary_text(self@),
    {
        let plural: &str = if self.modified.len() == 1 {
            ""
        } else {
            "s"
        };
        let counts: String = decimal_of(self.modified.len() as u64).concat(" glyph").concat(
            plural,
        ).concat(" simplified, ").concat(decimal_of(self.untouched as u64).as_str()).concat(
            " left as they were",
        );
        if self.failed.len() == 0 {
            return counts;
        }
        counts.concat(", ").concat(decimal_of(self.failed.len() as u64).as_str()).concat(
            " could not be processed",
        )
    }
}

// ------------------------------------------------------------------- glyphs as they are

/// Where the first `k` contours of a glyph stop among its `len` points. Each takes as many
/// points as its end lies beyond the end before it; one whose end lies before that takes
/// all that are left.
pub open spec fn read_stop(ends: Seq<u16>, len: int, k: int) -> int
    decreases k,
{
    if k <= 0 {
        0
    } else {
        let last = if k == 1 {
            0
        } else {
            ends[k - 2] + 1
        };
        let wanted = read_stop(ends, len, k - 1) + (ends[k - 1] + 1 - last);
        if ends[k - 1] + 1 < last || wanted > len {
            len
        } else {
            wanted
        }
    }
}

/// The first `k` contours of a glyph.
pub open spec fn read_contours(points: Seq<Point>, ends: Seq<u16>, k: int) -> Seq<Seq<Point>>
    decreases k,
{
    if k <= 0 {
        Seq::empty()
    } else {
        read_contours(points, ends, k - 1).push(
            points.subrange(
                read_stop(ends, points.len() as int, k - 1),
                read_stop(ends, points.len() as int, k),
            ),
        )
    }
}

proof fn lemma_read_stop(ends: Seq<u16>, len: int, k: int)
    requires
        len >= 0,
        0 <= k <= ends.len(),
    ensures
        0 <= read_stop(ends, len, k) <= len,
        k > 0 ==> read_stop(ends, len, k - 1) <= read_stop(ends, len, k),
    decreases k,
{
    if k > 0 {
        lemma_read_stop(ends, len, k - 1);
    }
}

/// A glyph as it is written when its outline stays as it is. Its hinting does not.
pub open spec fn kept_glyph(outline: Option<OutlineView>) -> GlyphView {
    match outline {
        Some(OutlineView::Simple(s)) => GlyphView::Simple {
            bbox: s.bounds,
            contours: read_contours(s.points, s.end_pts, s.end_pts.len() as int),
            instructions: Seq::empty(),
            overlaps: s.overlaps,
        },
        Some(OutlineView::Composite(c)) => GlyphView::Composite {
            bbox: c.bounds,
            components: c.components,
            instructions: Seq::empty(),
        },
        _ => GlyphView::Empty,
    }
}

fn split_points(points: &Vec<Point>, ends: &Vec<u16>) -> (out: Vec<Vec<Point>>)
    ensures
        contour_views(out@) == read_contours(points@, ends@, ends@.len() as int),
{
    let mut out: Vec<Vec<Point>> = Vec::new();
    let mut last: usize = 0;
    let mut stop: usize = 0;
    assert(contour_views(out@) =~= read_contours(points@, ends@, 0));
    for k in 0..ends.len()
        invariant
            stop == read_stop(ends@, points@.len() as int, k as int),
            stop <= points@.len(),
            last == if k == 0 {
                0
            } else {
                ends@[k - 1] + 1
            },
            contour_views(out@) == read_contours(points@, ends@, k as int),
    {
        proof {
            lemma_read_stop(ends@, points@.len() as int, k + 1);
        }
        let end: usize = ends[k] as usize + 1;
        let next: usize = if end < last || end - last > points.len() - stop {
            points.len()
        } else {
            stop + (end - last)
        };
        let mut contour: Vec<Point> = Vec::new();
        for i in stop..next
            invariant
                stop <= next <= points@.len(),
                contour@ == points@.subrange(stop as int, i as int),
        {
            contour.push(points[i]);
            assert(contour@ =~= points@.subrange(stop as int, i + 1));
        }
        assert(contour@ =~= points@.subrange(stop as int, next as int));
        let ghost before = contour_views(out@);
        let ghost added = contour@;
        out.push(contour);
        assert(contour_views(out@) =~= before.push(added));
        last = end;
        stop = next;
    }
    out
}

/// A glyph as it is written when its outline stays as it is. Its hinting is dropped.
pub fn keep_glyph(outline: Option<Outline>) -> (g: Glyph)
    ensures
        g@ == kept_glyph(
            match outline {
                Some(o) => Some(o@),
                None => None,
            },
        ),
{
    let instructions: Vec<u8> = Vec::new();
    assert(instructions@ =~= Seq::<u8>::empty());
    match outline {
        Some(Outline::Simple(s)) => Glyph::Simple(
            SimpleShape {
                bbox: s.bounds,
                contours: split_points(&s.points, &s.end_pts),
                instructions,
                overlaps: s.overlaps,
            },
        ),
        Some(Outline::Composite(c)) => Glyph::Composite(
            CompositeShape { bbox: c.bounds, components: c.components, instructions },
        ),
        _ => Glyph::Empty,
    }
}

// -------------------------------------------------------------------- glyphs that change

/// What the union of a glyph's contours came to.
#[derive(Debug)]
pub enum Merge {
    /// There was nothing to merge.
    Unneeded,
    /// The merged contours, as they were drawn.
    Merged(Vec<Vec<Point>>),
    /// The glyph could not be handled.
    Failed(String),
}

/// What a [`Merge`] holds.
pub enum MergeView {
    Unneeded,
    Merged(Seq<Seq<Point>>),
    Failed(Seq<char>),
}

impl View for Merge {
    type V = MergeView;

    open spec fn view(&self) -> MergeView {
        match *self {
            Merge::Unneeded => MergeView::Unneeded,
            Merge::Merged(contours) => MergeView::Merged(contour_views(contours@)),
            Merge::Failed(text) => MergeView::Failed(text@),
        }
    }
}

pub open spec fn merge_views(merges: Seq<Merge>) -> Seq<MergeView> {
    merges.map_values(|m: Merge| m@)
}

/// Does a glyph with so many contours have anything to merge? `crosses` tells whether one of
/// them crosses itself, and `boxes_meet` whether the boxes of two of them share some area.
pub open spec fn needs_merging(contours: int, crosses: bool, boxes_meet: bool) -> bool {
    crosses || (contours >= 2 && boxes_meet)
}

/// Does a glyph have anything to merge? See [`needs_merging`].
///
/// A single contour that does not cross itself has nothing to merge, and neither have
/// contours that lie apart.
pub fn contours_can_overlap(contours: usize, crosses: bool, boxes_meet: bool) -> (r: bool)
    ensures
        r == needs_merging(contours as int, crosses, boxes_meet),
{
    if contours < 2 {
        return crosses;
    }
    boxes_meet || crosses
}

/// What comes of a merge that turned `before` contours into others.
pub open spec fn merge_result(before: int, merged: Seq<Seq<Point>>, same_area: bool) -> MergeView {
    if merged.len() == 0 {
        MergeView::Failed("the merge produced no contours"@)
    } else if same_area && merged.len() == before {
        MergeView::Unneeded
    } else {
        MergeView::Merged(merged)
    }
}

/// What comes of a merge that turned `before` contours into others.
///
/// Where it changed nothing meaningful, the outline stays as it was rather than paying for
/// a refit of its curves that would only add points.
pub fn simplify_glyph(before: usize, merged: Vec<Vec<Point>>, same_area: bool) -> (r: Merge)
    ensures
        r@ == merge_result(before as int, contour_views(merged@), same_area),
{
    if merged.len() == 0 {
        return Merge::Failed("the merge produced no contours".to_owned());
    }
    if same_area && merged.len() == before {
        return Merge::Unneeded;
    }
    Merge::Merged(merged)
}

/// A contour without the points at its end that repeat its start: contours close
/// implicitly.
pub open spec fn without_closing(points: Seq<Point>) -> Seq<Point>
    decreases points.len(),
{
    if points.len() > 1 && points.last().on_curve && points.last().x == points[0].x
        && points.last().y == points[0].y {
        without_closing(points.drop_last())
    } else {
        points
    }
}

/// The contours that are left of some that were drawn: those that have two points or more.
pub open spec fn closed_contours(contours: Seq<Seq<Point>>) -> Seq<Seq<Point>>
    decreases contours.len(),
{
    if contours.len() == 0 {
        Seq::empty()
    } else {
        let last = without_closing(contours.last());
        if last.len() >= 2 {
            closed_contours(contours.drop_last()).push(last)
        } else {
            closed_contours(contours.drop_last())
        }
    }
}

/// The simple glyph with contours that were drawn like this.
pub open spec fn drawn_glyph(contours: Seq<Seq<Point>>) -> GlyphView {
    let kept = closed_contours(contours);
    if kept.len() == 0 {
        GlyphView::Empty
    } else {
        GlyphView::Simple {
            bbox: points_box(all_points(kept)),
            contours: kept,
            instructions: Seq::empty(),
            overlaps: false,
        }
    }
}

fn close_contour(points: &Vec<Point>) -> (out: Vec<Point>)
    ensures
        out@ == without_closing(points@),
{
    let mut len: usize = points.len();
    assert(points@.take(len as int) =~= points@);
    while len > 1 && points[len - 1].on_curve && points[len - 1].x == points[0].x && points[len
        - 1].y == points[0].y
        invariant
            len <= points@.len(),
            without_closing(points@.take(len as int)) == without_closing(points@),
        decreases len,
    {
        assert(points@.take(len as int).drop_last() =~= points@.take(len - 1));
        len = len - 1;
    }
    let mut out: Vec<Point> = Vec::new();
    for i in 0..len
        invariant
            len <= points@.len(),
            out@ == points@.take(i as int),
    {
        out.push(points[i]);
        assert(out@ =~= points@.take(i + 1));
    }
    out
}

proof fn lemma_box_grows(points: Seq<Point>, p: Point)
    ensures
        points_box(points.push(p)) == if points.len() == 0 {
            point_box(p)
        } else {
            union_of(points_box(points), point_box(p))
        },
{
    assert(points.push(p).drop_last() =~= points);
}

fn box_of(contours: &Vec<Vec<Point>>) -> (bbox: Bounds)
    ensures
        bbox == points_box(all_points(contour_views(contours@))),
{
    let ghost views = contour_views(contours@);
    let mut bbox: Bounds = Bounds { x_min: 0, y_min: 0, x_max: 0, y_max: 0 };
    let mut any: bool = false;
    assert(all_points(views.take(0)) =~= Seq::<Point>::empty());
    for k in 0..contours.len()
        invariant
            views == contour_views(contours@),
            any == (all_points(views.take(k as int)).len() > 0),
            bbox == points_box(all_points(views.take(k as int))),
    {
        let contour: &Vec<Point> = &contours[k];
        let ghost before = all_points(views.take(k as int));
        assert(views[k as int] == contour@);
        assert(views.take(k + 1).drop_last() =~= views.take(k as int));
        assert(before + contour@.take(0) =~= before);
        for i in 0..contour.len()
            invariant
                any == ((before + contour@.take(i as int)).len() > 0),
                bbox == points_box(before + contour@.take(i as int)),
        {
            let p: Point = contour[i];
            let own: Bounds = Bounds { x_min: p.x, y_min: p.y, x_max: p.x, y_max: p.y };
            proof {
                lemma_box_grows(before + contour@.take(i as int), p);
                assert(before + contour@.take(i + 1) =~= (before + contour@.take(i as int)).push(
                    p,
                ));
            }
            bbox = if any {
                bbox.union(own)
            } else {
                own
            };
            any = true;
        }
        assert(contour@.take(contour@.len() as int) =~= contour@);
    }
    assert(views.take(views.len() as int) =~= views);
    bbox
}

/// Write contours back out as a simple glyph.
pub fn paths_to_simple_glyph(contours: &Vec<Vec<Point>>) -> (g: Glyph)
    ensures
        g@ == drawn_glyph(contour_views(contours@)),
{
    let ghost views = contour_views(contours@);
    let mut kept: Vec<Vec<Point>> = Vec::new();
    assert(contour_views(kept@) =~= closed_contours(views.take(0)));
    for i in 0..contours.len()
        invariant
            views == contour_views(contours@),
            contour_views(kept@) == closed_contours(views.take(i as int)),
    {
        assert(views.take(i + 1).drop_last() =~= views.take(i as int));
        assert(views[i as int] == contours@[i as int]@);
        let closed: Vec<Point> = close_contour(&contours[i]);
        if closed.len() >= 2 {
            let ghost before = contour_views(kept@);
            let ghost added = closed@;
            kept.push(closed);
            assert(contour_views(kept@) =~= before.push(added));
        }
    }
    assert(views.take(views.len() as int) =~= views);
    if kept.len() == 0 {
        return Glyph::Empty;
    }
    let bbox: Bounds = box_of(&kept);
    let instructions: Vec<u8> = Vec::new();
    assert(instructions@ =~= Seq::<u8>::empty());
    Glyph::Simple(SimpleShape { bbox, contours: kept, instructions, overlaps: false })
}

// ------------------------------------------------------------------------ the whole font

/// What became of the glyph, among some merges that may stop early.
pub open spec fn merge_of(merges: Seq<MergeView>, gid: int) -> MergeView {
    if 0 <= gid < merges.len() {
        merges[gid]
    } else {
        MergeView::Unneeded
    }
}

/// The first `n` glyphs of the simplified font.
pub open spec fn simplified_glyphs(o: OutlinesView, merges: Seq<MergeView>, n: int) -> Seq<
    GlyphView,
> {
    Seq::new(
        n as nat,
        |gid: int|
            match merge_of(merges, gid) {
                MergeView::Merged(contours) => drawn_glyph(contours),
                _ => kept_glyph(outline_of(o, gid as u32)),
            },
    )
}

/// The message about a glyph that could not be handled.
pub open spec fn failure_text(gid: int, reason: Seq<char>) -> Seq<char> {
    wording(Problem::RemoveOverlaps { glyph: decimal(gid as nat), reason }, Seq::empty())
}

/// What is reported of the first `n` glyphs.
pub open spec fn report_upto(merges: Seq<MergeView>, n: int) -> ReportView
    decreases n,
{
    if n <= 0 {
        ReportView { modified: Seq::empty(), untouched: 0, failed: Seq::empty() }
    } else {
        let before = report_upto(merges, n - 1);
        match merge_of(merges, n - 1) {
            MergeView::Merged(_) => ReportView {
                modified: before.modified.push((n - 1) as u16),
                ..before
            },
            MergeView::Unneeded => ReportView { untouched: before.untouched + 1, ..before },
            MergeView::Failed(reason) => ReportView {
                failed: before.failed.push(((n - 1) as u16, failure_text(n - 1, reason))),
                ..before
            },
        }
    }
}

/// The text that refuses a font whose outlines are of neither kind.
pub open spec fn no_outlines_text() -> Seq<char> {
    "Overlap removal handles TrueType outlines (a 'glyf' table) and CFF2 outlines; this font has neither."@
}

/// Report a glyph that could not be handled.
pub(crate) fn note_failure(report: &mut OverlapReport, gid: u16, reason: &String)
    ensures
        final(report)@ == (ReportView {
            failed: old(report)@.failed.push((gid, failure_text(gid as int, reason@))),
            ..old(report)@
        }),
        final(report).untouched == old(report).untouched,
{
    let ghost before = report@;
    let shown: Vec<String> = Vec::new();
    let e: SliceError = SliceError::RemoveOverlaps {
        glyph: decimal_of(gid as u64),
        reason: reason.as_str().to_owned(),
    };
    let text: String = e.message(&shown);
    assert(text@ == failure_text(gid as int, reason@)) by {
        assert(text_views(shown@) =~= Seq::<Seq<char>>::empty());
    }
    let ghost added = (gid, text@);
    report.failed.push((gid, text));
    assert(report@.failed =~= before.failed.push(added));
}

pub open spec fn variable_text() -> Seq<char> {
    "Overlap removal needs a static font: gvar deltas are indexed by point number, and merging contours renumbers the points. Pin every axis, or turn overlap removal off."@
}

/// True when the font has a `gvar` table that can be read, which takes its header of twenty
/// bytes.
pub open spec fn has_gvar(font: Seq<TableView>) -> bool {
    match table_bytes(font, GVAR) {
        Some(gvar) => gvar.len() >= 20,
        None => false,
    }
}

/// The number of glyphs of a font whose TrueType outlines can be simplified, and the outlines,
/// or why they cannot.
pub open spec fn simplifiable(font: Seq<TableView>) -> Result<(u16, OutlinesView), Problem> {
    if has_gvar(font) {
        Err(Problem::Unsupported(variable_text()))
    } else {
        match needed_table(font, MAXP) {
            Err(e) => Err(e),
            Ok(maxp) => match glyphs_of(maxp) {
                None => Err(out_of_bounds()),
                Some(count) => match outlines_in(font) {
                    Err(e) => Err(e),
                    Ok(o) => Ok((count, o)),
                },
            },
        }
    }
}

/// The number of glyphs of a font whose TrueType outlines can be simplified, and the outlines.
///
/// The font must already be static: overlap removal rewrites outlines, and a `gvar` table's
/// deltas are indexed by point number, so they would no longer line up.
fn find_simplifiable(font: &Vec<FontTable>) -> (r: Result<(u16, Outlines<'_>), SliceError>)
    ensures
        match r {
            Ok((count, o)) => simplifiable(table_views(font@)) == Ok::<
                (u16, OutlinesView),
                Problem,
            >((count, o@)),
            Err(e) => simplifiable(table_views(font@)) == Err::<(u16, OutlinesView), Problem>(e@),
        },
{
    match find_table(font, GVAR) {
        Some(gvar) => {
            if gvar.len() >= 20 {
                return Err(
                    unsupported(
                        "Overlap removal needs a static font: gvar deltas are indexed by point number, and merging contours renumbers the points. Pin every axis, or turn overlap removal off.",
                    ),
                );
            }
        },
        None => {},
    }
    let maxp: &Vec<u8> = match need_table(font, MAXP) {
        Ok(t) => t,
        Err(e) => {
            return Err(e);
        },
    };
    let count: u16 = match read_glyph_count(maxp.as_slice()) {
        Some(count) => count,
        None => {
            return Err(bounds_error());
        },
    };
    match find_outlines(font) {
        Ok(o) => Ok((count, o)),
        Err(e) => Err(e),
    }
}

/// The tables that simplified glyphs go into: their data, where each starts, and `head`,
/// which records the format of that.
pub open spec fn simplified_tables(font: Seq<TableView>, g: GlyfLocaView) -> Result<
    Seq<TableView>,
    Problem,
> {
    match needed_table(font, HEAD) {
        Err(e) => Err(e),
        Ok(head) => match head_fields(head) {
            None => Err(out_of_bounds()),
            Some(h) => Ok(
                with_remaining(
                    seq![
                        TableView { tag: GLYF, bytes: g.glyf },
                        TableView { tag: LOCA, bytes: g.loca },
                        TableView {
                            tag: HEAD,
                            bytes: head_bytes(
                                head,
                                HeadFields {
                                    loc_format: if g.is_long {
                                        1
                                    } else {
                                        0
                                    },
                                    ..h
                                },
                            ),
                        },
                    ],
                    font,
                    Seq::empty(),
                ),
            ),
        },
    }
}

/// The tables of a font with TrueType outlines after its overlaps were removed.
pub open spec fn merged_glyf_tables(font: Seq<TableView>, merges: Seq<MergeView>) -> Result<
    Seq<TableView>,
    Problem,
> {
    match simplifiable(font) {
        Err(e) => Err(e),
        Ok((count, o)) => match glyphs_written(simplified_glyphs(o, merges, count as int)) {
            Err(text) => Err(Problem::Write(text)),
            Ok(g) => simplified_tables(font, g),
        },
    }
}

fn build_simplified(font: &Vec<FontTable>, g: GlyfLoca) -> (r: Result<Vec<FontTable>, SliceError>)
    ensures
        match r {
            Ok(tables) => simplified_tables(table_views(font@), g@) == Ok::<
                Seq<TableView>,
                Problem,
            >(table_views(tables@)) && distinct_tags(table_views(tables@)),
            Err(e) => simplified_tables(table_views(font@), g@) == Err::<
                Seq<TableView>,
                Problem,
            >(e@),
        },
{
    let head: &Vec<u8> = match need_table(font, HEAD) {
        Ok(t) => t,
        Err(e) => {
            return Err(e);
        },
    };
    let h: HeadFields = match read_head(head.as_slice()) {
        Some(h) => h,
        None => {
            return Err(bounds_error());
        },
    };
    let loc_format: i16 = if g.is_long {
        1
    } else {
        0
    };
    let head_table: FontTable = match finish_table(
        HEAD,
        write_head(head.as_slice(), HeadFields { loc_format, ..h }),
    ) {
        Ok(t) => t,
        Err(e) => {
            return Err(e);
        },
    };
    let ghost wanted = seq![
        TableView { tag: GLYF, bytes: g.glyf@ },
        TableView { tag: LOCA, bytes: g.loca@ },
        head_table@,
    ];
    let mut out: Vec<FontTable> = Vec::new();
    out.push(FontTable { tag: GLYF, bytes: g.glyf });
    out.push(FontTable { tag: LOCA, bytes: g.loca });
    out.push(head_table);
    assert(table_views(out@) =~= wanted);
    let skip: [u32; 0] = [];
    assert(skip@ =~= Seq::<u32>::empty());
    copy_remaining_tables(&mut out, font, &skip);
    proof {
        crate::tables::lemma_remaining_distinct(wanted, table_views(font@), skip@);
    }
    Ok(out)
}

/// What came of the unions of the contours of a font's glyphs, as the kind of its outlines
/// asks for them.
#[derive(Debug)]
pub enum Merges {
    /// For TrueType outlines.
    Quadratic(Vec<Merge>),
    /// For CFF2 outlines.
    Cubic(Vec<CubicMerge>),
}

/// What a [`Merges`] holds.
pub enum MergesView {
    Quadratic(Seq<MergeView>),
    Cubic(Seq<CubicMergeView>),
}

impl View for Merges {
    type V = MergesView;

    open spec fn view(&self) -> MergesView {
        match *self {
            Merges::Quadratic(merges) => MergesView::Quadratic(merge_views(merges@)),
            Merges::Cubic(merges) => MergesView::Cubic(cubic_merge_views(merges@)),
        }
    }
}

/// The merges for TrueType outlines, of which there are none among those for CFF2 outlines.
pub open spec fn quadratic(merges: MergesView) -> Seq<MergeView> {
    match merges {
        MergesView::Quadratic(list) => list,
        MergesView::Cubic(_) => Seq::empty(),
    }
}

/// The merges for CFF2 outlines, of which there are none among those for TrueType outlines.
pub open spec fn cubic(merges: MergesView) -> Seq<CubicMergeView> {
    match merges {
        MergesView::Quadratic(_) => Seq::empty(),
        MergesView::Cubic(list) => list,
    }
}

/// The kind of a font's outlines and the number of its glyphs, where its overlaps can be
/// removed, or why they cannot.
pub open spec fn overlap_target(font: Seq<TableView>) -> Result<(OutlineKind, u16), Problem> {
    if table_bytes(font, GLYF) is Some {
        match simplifiable(font) {
            Ok((count, _)) => Ok((OutlineKind::Glyf, count)),
            Err(e) => Err(e),
        }
    } else {
        match table_bytes(font, CFF2) {
            Some(bytes) => match table_of(bytes) {
                Ok(source) => match redrawable(source) {
                    Ok(count) => Ok((OutlineKind::Cff2, count)),
                    Err(e) => Err(e),
                },
                Err(e) => Err(e),
            },
            None => Err(Problem::Unsupported(no_outlines_text())),
        }
    }
}

/// The tables of a font after its overlaps were removed. A glyph without an entry among the
/// merges stays as it is.
pub open spec fn merged_tables(font: Seq<TableView>, merges: MergesView) -> Result<
    Seq<TableView>,
    Problem,
> {
    if table_bytes(font, GLYF) is Some {
        merged_glyf_tables(font, quadratic(merges))
    } else {
        match table_bytes(font, CFF2) {
            Some(bytes) => match table_of(bytes) {
                Ok(source) => redrawn_tables(font, source, cubic(merges)),
                Err(e) => Err(e),
            },
            None => Err(Problem::Unsupported(no_outlines_text())),
        }
    }
}

/// What is reported of a font whose overlaps were removed.
pub open spec fn merged_report(font: Seq<TableView>, merges: MergesView) -> ReportView {
    match overlap_target(font) {
        Ok((OutlineKind::Glyf, count)) => report_upto(quadratic(merges), count as int),
        Ok((OutlineKind::Cff2, count)) => report_upto(outcomes(cubic(merges)), count as int),
        Err(_) => report_upto(Seq::empty(), 0),
    }
}

/// True for the tables that removing overlaps may touch.
pub open spec fn is_outline_table(tag: u32) -> bool {
    tag == GLYF || tag == LOCA || tag == HEAD || tag == CFF2
}

/// True when two fonts differ in nothing but their outlines: the other tables are the same,
/// and so is the kind of the outlines.
pub open spec fn only_outlines_differ(before: Seq<TableView>, after: Seq<TableView>) -> bool {
    &&& forall|tag: u32|
        !is_outline_table(tag) ==> #[trigger] table_bytes(after, tag) == table_bytes(before, tag)
    &&& (table_bytes(after, GLYF) is Some) == (table_bytes(before, GLYF) is Some)
    &&& (table_bytes(after, CFF2) is Some) == (table_bytes(before, CFF2) is Some)
}

/// The kind of a font's outlines and the number of its glyphs, where its overlaps can be
/// removed.
pub fn check_simplifiable(font: &Vec<FontTable>) -> (r: Result<(OutlineKind, u16), SliceError>)
    ensures
        match r {
            Ok(target) => overlap_target(table_views(font@)) == Ok::<
                (OutlineKind, u16),
                Problem,
            >(target),
            Err(e) => overlap_target(table_views(font@)) == Err::<(OutlineKind, u16), Problem>(e@),
        },
{
    if find_table(font, GLYF).is_some() {
        return match find_simplifiable(font) {
            Ok((count, _)) => Ok((OutlineKind::Glyf, count)),
            Err(e) => Err(e),
        };
    }
    match find_table(font, CFF2) {
        Some(bytes) => match read(bytes.as_slice()) {
            Ok(source) => match check_redrawable(&source) {
                Ok(count) => Ok((OutlineKind::Cff2, count)),
                Err(e) => Err(e),
            },
            Err(e) => Err(e),
        },
        None => Err(no_outlines()),
    }
}

fn no_outlines() -> (e: SliceError)
    ensures
        e@ == Problem::Unsupported(no_outlines_text()),
{
    unsupported(
        "Overlap removal handles TrueType outlines (a 'glyf' table) and CFF2 outlines; this font has neither.",
    )
}

proof fn lemma_simplified_carries(
    font: Seq<TableView>,
    g: GlyfLocaView,
    read: Seq<TableView>,
)
    requires
        table_bytes(font, GLYF) is Some,
        simplified_tables(font, g) matches Ok(tables) && reads_as(read, tables),
    ensures
        only_outlines_differ(font, read),
{
    let head = needed_table(font, HEAD)->Ok_0;
    let h = head_fields(head)->Some_0;
    let loc_format: i16 = if g.is_long {
        1
    } else {
        0
    };
    let first = seq![
        TableView { tag: GLYF, bytes: g.glyf },
        TableView { tag: LOCA, bytes: g.loca },
        TableView { tag: HEAD, bytes: head_bytes(head, HeadFields { loc_format, ..h }) },
    ];
    assert(first[0].tag == GLYF && first[1].tag == LOCA && first[2].tag == HEAD);
    let all = with_remaining(first, font, Seq::empty());
    assert(simplified_tables(font, g)->Ok_0 == all);
    assert forall|tag: u32| !is_outline_table(tag) || tag == CFF2 implies #[trigger] table_bytes(
        read,
        tag,
    ) == table_bytes(font, tag) by {
        lemma_carried(read, first, font, Seq::empty(), tag);
    }
    lemma_remaining_distinct(first, font, Seq::empty());
    remaining_tables_are_carried_over(first, font, Seq::empty(), GLYF);
    assert(has_tag(first, GLYF));
    lemma_found_by_tag(first, 0);
    lemma_reads_under_tag(read, all, GLYF);
}

/// Merge overlapping contours throughout a font, given what came of the union of each
/// glyph's contours. A glyph without an entry stays as it is.
pub fn remove_overlaps(font_bytes: &[u8], merges: &Merges) -> (r: Result<
    (Vec<u8>, OverlapReport),
    SliceError,
>)
    ensures
        ({
            let step = apply_step(
                font_bytes@,
                |font: Seq<TableView>| merged_tables(font, merges@),
            );
            match r {
                Ok((bytes, report)) => {
                    &&& step == Ok::<Seq<u8>, Problem>(bytes@)
                    &&& overlap_target(tables_in(font_bytes@)) is Ok
                    &&& report@ == merged_report(tables_in(font_bytes@), merges@)
                    &&& font_tables(bytes@) is Ok
                    &&& only_outlines_differ(tables_in(font_bytes@), tables_in(bytes@))
                },
                Err(e) => step == Err::<Seq<u8>, Problem>(e@),
            }
        }),
{
    let font: Vec<FontTable> = match read_tables(font_bytes) {
        Ok(font) => font,
        Err(e) => {
            return Err(e);
        },
    };
    if find_table(&font, GLYF).is_some() {
        let none: Vec<Merge> = Vec::new();
        assert(merge_views(none@) =~= Seq::<MergeView>::empty());
        let list: &Vec<Merge> = match merges {
            Merges::Quadratic(list) => list,
            Merges::Cubic(_) => &none,
        };
        return remove_overlaps_glyf(&font, list);
    }
    let none: Vec<CubicMerge> = Vec::new();
    assert(cubic_merge_views(none@) =~= Seq::<CubicMergeView>::empty());
    let list: &Vec<CubicMerge> = match merges {
        Merges::Quadratic(_) => &none,
        Merges::Cubic(list) => list,
    };
    match find_table(&font, CFF2) {
        Some(bytes) => match read(bytes.as_slice()) {
            Ok(source) => remove_overlaps_cff2(&font, &source, list),
            Err(e) => Err(e),
        },
        None => Err(no_outlines()),
    }
}

/// Merge overlapping contours throughout a font with TrueType outlines.
fn remove_overlaps_glyf(font: &Vec<FontTable>, merges: &Vec<Merge>) -> (r: Result<
    (Vec<u8>, OverlapReport),
    SliceError,
>)
    requires
        table_bytes(table_views(font@), GLYF) is Some,
    ensures
        ({
            let tables = merged_glyf_tables(table_views(font@), merge_views(merges@));
            match r {
                Ok((bytes, report)) => {
                    &&& step_file(tables) == Ok::<Seq<u8>, Problem>(bytes@)
                    &&& simplifiable(table_views(font@)) matches Ok((count, _)) && report@
                        == report_upto(merge_views(merges@), count as int)
                    &&& font_tables(bytes@) is Ok
                    &&& only_outlines_differ(table_views(font@), tables_in(bytes@))
                },
                Err(e) => step_file(tables) == Err::<Seq<u8>, Problem>(e@),
            }
        }),
{
    let ghost views = merge_views(merges@);
    let (count, o): (u16, Outlines) = match find_simplifiable(font) {
        Ok(parts) => parts,
        Err(e) => {
            return Err(e);
        },
    };
    let ghost ov = o@;
    let mut report: OverlapReport = OverlapReport {
        modified: Vec::new(),
        untouched: 0,
        failed: Vec::new(),
    };
    let mut glyphs: Vec<Glyph> = Vec::new();
    proof {
        assert(report@ =~= report_upto(views, 0));
        assert(glyph_views(glyphs@) =~= simplified_glyphs(ov, views, 0));
    }
    for gid in 0..count
        invariant
            views == merge_views(merges@),
            ov == o@,
            report@ == report_upto(views, gid as int),
            report.untouched <= gid,
            glyph_views(glyphs@) == simplified_glyphs(ov, views, gid as int),
    {
        let ghost before = glyph_views(glyphs@);
        let at: usize = gid as usize;
        let glyph: Glyph = if at < merges.len() {
            assert(views[at as int] == merges@[at as int]@);
            match &merges[at] {
                Merge::Merged(contours) => {
                    report.modified.push(gid);
                    assert(report@ =~= report_upto(views, gid + 1));
                    paths_to_simple_glyph(contours)
                },
                Merge::Unneeded => {
                    report.untouched = report.untouched + 1;
                    assert(report@ =~= report_upto(views, gid + 1));
                    keep_glyph(read_outline(&o, gid as u32))
                },
                Merge::Failed(reason) => {
                    note_failure(&mut report, gid, reason);
                    assert(report@ =~= report_upto(views, gid + 1));
                    keep_glyph(read_outline(&o, gid as u32))
                },
            }
        } else {
            report.untouched = report.untouched + 1;
            assert(report@ =~= report_upto(views, gid + 1));
            keep_glyph(read_outline(&o, gid as u32))
        };
        let ghost added = glyph@;
        glyphs.push(glyph);
        assert(glyph_views(glyphs@) =~= before.push(added));
        assert(simplified_glyphs(ov, views, gid + 1) =~= before.push(added));
    }
    let written: GlyfLoca = match write_glyphs(&glyphs) {
        Ok(g) => g,
        Err(text) => {
            return Err(SliceError::Write(text));
        },
    };
    let ghost written_view = written@;
    let out: Vec<FontTable> = match build_simplified(font, written) {
        Ok(out) => out,
        Err(e) => {
            return Err(e);
        },
    };
    match assemble(&out) {
        Ok(bytes) => {
            proof {
                lemma_simplified_carries(table_views(font@), written_view, tables_in(bytes@));
            }
            Ok((bytes, report))
        },
        Err(e) => Err(e),
    }
}

proof fn lemma_report_total(merges: Seq<MergeView>, n: int)
    requires
        0 <= n,
    ensures
        report_upto(merges, n).modified.len() + report_upto(merges, n).untouched + report_upto(
            merges,
            n,
        ).failed.len() == n,
        report_upto(merges, n).untouched >= 0,
    decreases n,
{
    if n > 0 {
        lemma_report_total(merges, n - 1);
    }
}

/// A report accounts for every glyph once: each was simplified, left as it was, or could not
/// be handled.
pub proof fn every_glyph_is_accounted_for(merges: Seq<MergeView>, count: u16)
    ensures
        ({
            let r = report_upto(merges, count as int);
            r.modified.len() + r.untouched + r.failed.len() == count
        }),
{
    lemma_report_total(merges, count as int);
}

/// A simplified font is consistently unhinted: no glyph keeps its instructions, whether its
/// outline changed or not.
pub proof fn no_glyph_keeps_its_hinting(o: OutlinesView, merges: Seq<MergeView>, n: int, gid: int)
    requires
        0 <= gid < n,
    ensures
        match simplified_glyphs(o, merges, n)[gid] {
            GlyphView::Empty => true,
            GlyphView::Simple { instructions, .. } => instructions.len() == 0,
            GlyphView::Composite { instructions, .. } => instructions.len() == 0,
        },
{
}

} // verus!
