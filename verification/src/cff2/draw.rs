//! Drawing outlines as CFF2 charstrings, and what becomes of a font whose overlaps were
//! removed that way.
//!
//! The merged curves are cubic already and go straight into a charstring. A glyph that had
//! nothing to merge, or that could not be handled, keeps the charstring it has: its
//! subroutines are inlined, since the ones of the font go, and its hints are taken out, since
//! a half-hinted font looks worse than an unhinted one.
use vstd::prelude::*;

use crate::apply::step_file;
use crate::bytes::views;
use crate::error::{read_error, unsupported, Problem, SliceError};
use crate::font::tables_in;
use crate::overlaps::{
    merge_of, note_failure, only_outlines_differ, report_upto, MergeView, OverlapReport,
};
use crate::tables::{
    assemble, copy_remaining_tables, font_tables, lemma_carried, lemma_found_by_tag,
    lemma_reads_under_tag, lemma_remaining_distinct, remaining_tables_are_carried_over, reads_as,
    table_views, with_remaining, FontTable, TableView, CFF2, GLYF,
};
use super::charstring::{
    a_static_charstring_has_no_blend, program, rewritten, scan, Outcome, Resolved, Rewritten,
};
use super::hints::{drawing, hints_draw_nothing, strip_hints, unhinted};
use super::instance::{
    dict_of_glyph, glyph_env, instance_parts, instantiate, rewrite_glyph, Cff2Instance,
};
use super::num::{charstring_number, write_charstring_number};
use super::read::{
    private_dict_without_subrs, private_without_subrs, Cff2Table, TableView as Cff2View,
};
use super::table::{table_bytes, table_len, too_large, Parts};

verus! {

pub const RLINETO: u8 = 5;

pub const RRCURVETO: u8 = 8;

pub const RMOVETO: u8 = 21;

/// A piece of a contour, with absolute coordinates in units of 1/65536.
#[derive(Clone, Copy, Debug, PartialEq, Eq, Structural)]
pub enum Segment {
    Line { x: i32, y: i32 },
    Curve { x1: i32, y1: i32, x2: i32, y2: i32, x: i32, y: i32 },
}

/// A closed contour. It closes implicitly.
#[derive(Debug)]
pub struct CubicContour {
    pub start: (i32, i32),
    pub segments: Vec<Segment>,
}

/// What a [`CubicContour`] holds.
#[verifier::ext_equal]
pub struct CubicView {
    pub start: (i32, i32),
    pub segments: Seq<Segment>,
}

impl View for CubicContour {
    type V = CubicView;

    open spec fn view(&self) -> CubicView {
        CubicView { start: self.start, segments: self.segments@ }
    }
}

pub open spec fn cubic_views(contours: Seq<CubicContour>) -> Seq<CubicView> {
    contours.map_values(|c: CubicContour| c@)
}

/// Where a segment ends.
pub open spec fn segment_end(s: Segment) -> (i32, i32) {
    match s {
        Segment::Line { x, y } => (x, y),
        Segment::Curve { x, y, .. } => (x, y),
    }
}

/// The step from one point to another.
#[verifier::opaque]
pub open spec fn step_bytes(from: (i32, i32), to: (i32, i32)) -> Seq<u8> {
    charstring_number(to.0 - from.0) + charstring_number(to.1 - from.1)
}

/// A segment as it is drawn from a point.
pub open spec fn segment_bytes(from: (i32, i32), s: Segment) -> Seq<u8> {
    match s {
        Segment::Line { x, y } => step_bytes(from, (x, y)) + seq![RLINETO],
        Segment::Curve { x1, y1, x2, y2, x, y } => step_bytes(from, (x1, y1)) + step_bytes(
            (x1, y1),
            (x2, y2),
        ) + step_bytes((x2, y2), (x, y)) + seq![RRCURVETO],
    }
}

/// Where the first `n` segments of a contour end.
pub open spec fn pen_after(c: CubicView, n: int) -> (i32, i32) {
    if n <= 0 {
        c.start
    } else {
        segment_end(c.segments[n - 1])
    }
}

/// A contour with its first `n` segments as it is drawn from a point.
pub open spec fn contour_bytes(from: (i32, i32), c: CubicView, n: int) -> Seq<u8>
    decreases n,
{
    if n <= 0 {
        step_bytes(from, c.start) + seq![RMOVETO]
    } else {
        contour_bytes(from, c, n - 1) + segment_bytes(pen_after(c, n - 1), c.segments[n - 1])
    }
}

/// Where the pen stands after the first `n` contours. It starts at the origin.
pub open spec fn pen_upto(contours: Seq<CubicView>, n: int) -> (i32, i32) {
    if n <= 0 {
        (0, 0)
    } else {
        pen_after(contours[n - 1], contours[n - 1].segments.len() as int)
    }
}

/// The charstring that draws the first `n` contours.
pub open spec fn drawn_upto(contours: Seq<CubicView>, n: int) -> Seq<u8>
    decreases n,
{
    if n <= 0 {
        Seq::empty()
    } else {
        drawn_upto(contours, n - 1) + contour_bytes(
            pen_upto(contours, n - 1),
            contours[n - 1],
            contours[n - 1].segments.len() as int,
        )
    }
}

/// The charstring that draws some contours.
pub open spec fn drawn(contours: Seq<CubicView>) -> Seq<u8> {
    drawn_upto(contours, contours.len() as int)
}

fn push_step(out: &mut Vec<u8>, from: (i32, i32), to: (i32, i32))
    ensures
        final(out)@ == old(out)@ + step_bytes(from, to),
{
    reveal(step_bytes);
    let ghost before = out@;
    write_charstring_number(to.0 as i64 - from.0 as i64, out);
    write_charstring_number(to.1 as i64 - from.1 as i64, out);
    assert(out@ =~= before + step_bytes(from, to));
}

fn push_segment(out: &mut Vec<u8>, pen: (i32, i32), s: Segment) -> (end: (i32, i32))
    ensures
        final(out)@ == old(out)@ + segment_bytes(pen, s),
        end == segment_end(s),
{
    let ghost before = out@;
    match s {
        Segment::Line { x, y } => {
            push_step(out, pen, (x, y));
            out.push(RLINETO);
            assert(out@ =~= before + segment_bytes(pen, s));
            (x, y)
        },
        Segment::Curve { x1, y1, x2, y2, x, y } => {
            push_step(out, pen, (x1, y1));
            push_step(out, (x1, y1), (x2, y2));
            push_step(out, (x2, y2), (x, y));
            out.push(RRCURVETO);
            assert(out@ =~= before + segment_bytes(pen, s));
            (x, y)
        },
    }
}

fn push_contour(out: &mut Vec<u8>, from: (i32, i32), c: &CubicContour) -> (pen: (i32, i32))
    ensures
        final(out)@ == old(out)@ + contour_bytes(from, c@, c@.segments.len() as int),
        pen == pen_after(c@, c@.segments.len() as int),
{
    let ghost before = out@;
    push_step(out, from, c.start);
    out.push(RMOVETO);
    assert(out@ =~= before + contour_bytes(from, c@, 0));
    let mut pen: (i32, i32) = c.start;
    for i in 0..c.segments.len()
        invariant
            out@ == before + contour_bytes(from, c@, i as int),
            pen == pen_after(c@, i as int),
    {
        pen = push_segment(out, pen, c.segments[i]);
        assert(out@ =~= before + contour_bytes(from, c@, i + 1));
    }
    pen
}

/// Draw contours as a charstring.
pub fn draw_charstring(contours: &Vec<CubicContour>) -> (out: Vec<u8>)
    ensures
        out@ == drawn(cubic_views(contours@)),
{
    let ghost all = cubic_views(contours@);
    let mut out: Vec<u8> = Vec::new();
    let mut pen: (i32, i32) = (0, 0);
    assert(out@ =~= drawn_upto(all, 0));
    for i in 0..contours.len()
        invariant
            all == cubic_views(contours@),
            out@ == drawn_upto(all, i as int),
            pen == pen_upto(all, i as int),
    {
        assert(all[i as int] == contours@[i as int]@);
        pen = push_contour(&mut out, pen, &contours[i]);
    }
    out
}

// -------------------------------------------------------------------- removing overlaps

/// What the union of a glyph's contours came to.
#[derive(Debug)]
pub enum CubicMerge {
    /// There was nothing to merge.
    Unneeded,
    /// The merged contours.
    Merged(Vec<CubicContour>),
    /// The glyph could not be handled.
    Failed(String),
}

/// What a [`CubicMerge`] holds.
pub enum CubicMergeView {
    Unneeded,
    Merged(Seq<CubicView>),
    Failed(Seq<char>),
}

impl View for CubicMerge {
    type V = CubicMergeView;

    open spec fn view(&self) -> CubicMergeView {
        match *self {
            CubicMerge::Unneeded => CubicMergeView::Unneeded,
            CubicMerge::Merged(contours) => CubicMergeView::Merged(cubic_views(contours@)),
            CubicMerge::Failed(text) => CubicMergeView::Failed(text@),
        }
    }
}

pub open spec fn cubic_merge_views(merges: Seq<CubicMerge>) -> Seq<CubicMergeView> {
    merges.map_values(|m: CubicMerge| m@)
}

/// What comes of a merge that turned `before` contours into others.
pub open spec fn cubic_result(
    before: int,
    merged: Seq<CubicView>,
    same_area: bool,
) -> CubicMergeView {
    if merged.len() == 0 {
        CubicMergeView::Failed("the merge produced no contours"@)
    } else if same_area && merged.len() == before {
        CubicMergeView::Unneeded
    } else {
        CubicMergeView::Merged(merged)
    }
}

/// What comes of a merge that turned `before` contours into others. Where it changed nothing
/// meaningful, the glyph stays as it was.
pub fn simplify_cubic(before: usize, merged: Vec<CubicContour>, same_area: bool) -> (r: CubicMerge)
    ensures
        r@ == cubic_result(before as int, cubic_views(merged@), same_area),
{
    if merged.len() == 0 {
        return CubicMerge::Failed("the merge produced no contours".to_owned());
    }
    if same_area && merged.len() == before {
        return CubicMerge::Unneeded;
    }
    CubicMerge::Merged(merged)
}

/// How a merge is reported.
pub open spec fn outcome_of(m: CubicMergeView) -> MergeView {
    match m {
        CubicMergeView::Unneeded => MergeView::Unneeded,
        CubicMergeView::Merged(_) => MergeView::Merged(Seq::empty()),
        CubicMergeView::Failed(text) => MergeView::Failed(text),
    }
}

pub open spec fn outcomes(merges: Seq<CubicMergeView>) -> Seq<MergeView> {
    merges.map_values(|m: CubicMergeView| outcome_of(m))
}

/// What became of the glyph, among some merges that may stop early.
pub open spec fn cubic_merge_of(merges: Seq<CubicMergeView>, gid: int) -> CubicMergeView {
    if 0 <= gid < merges.len() {
        merges[gid]
    } else {
        CubicMergeView::Unneeded
    }
}

/// The charstring of a glyph of a static font with its subroutines inlined, or why that
/// cannot be done.
pub open spec fn inlined(source: Cff2View, gid: int) -> Result<Seq<u8>, Problem> {
    match dict_of_glyph(source.fd_select, source.font_dicts.len() as int, gid as u32) {
        Err(e) => Err(e),
        Ok(fd) => {
            let env = glyph_env(source, fd, Seq::empty(), Seq::empty());
            match rewritten(source.charstrings[gid], env) {
                Outcome::Done(m) => Ok(program(m, env)),
                Outcome::Failed(p) => Err(p),
                Outcome::Ask { .. } => Err(Problem::Unsupported(blended_text())),
            }
        },
    }
}

/// The charstring of a glyph whose outline stays as it is.
pub open spec fn kept_charstring(source: Cff2View, gid: int) -> Result<Seq<u8>, Problem> {
    match inlined(source, gid) {
        Ok(bytes) => Ok(unhinted(bytes)),
        Err(e) => Err(e),
    }
}

fn blended_error() -> (e: SliceError)
    ensures
        e@ == Problem::Unsupported(blended_text()),
{
    unsupported(
        "Overlap removal needs a static font: a CFF2 charstring's blends are stated against the variation store, and merging contours throws the operators that carry them away. Pin every axis, or turn overlap removal off.",
    )
}

/// The charstring of a glyph whose outline stays as it is.
pub fn keep_charstring(source: &Cff2Table, gid: usize) -> (r: Result<Vec<u8>, SliceError>)
    requires
        gid < source@.charstrings.len(),
        gid <= u32::MAX,
    ensures
        match r {
            Ok(bytes) => kept_charstring(source@, gid as int) == Ok::<Seq<u8>, Problem>(bytes@),
            Err(e) => kept_charstring(source@, gid as int) == Err::<Seq<u8>, Problem>(e@),
        },
{
    let no_regions: Vec<usize> = Vec::new();
    let no_values: Vec<Resolved> = Vec::new();
    assert(no_regions@ =~= Seq::<usize>::empty());
    assert(no_values@ =~= Seq::<Resolved>::empty());
    match rewrite_glyph(source, gid, &no_regions, &no_values) {
        Ok(Rewritten::Done(bytes)) => {
            proof {
                let fd = dict_of_glyph(
                    source@.fd_select,
                    source@.font_dicts.len() as int,
                    gid as u32,
                )->Ok_0;
                let env = glyph_env(source@, fd, Seq::empty(), Seq::empty());
                a_static_charstring_has_no_blend(source@.charstrings[gid as int], env);
            }
            Ok(strip_hints(bytes.as_slice()))
        },
        Ok(Rewritten::NeedsBlend { .. }) => Err(blended_error()),
        Err(e) => Err(e),
    }
}

/// The charstrings of the first `n` glyphs: a merged one is drawn anew, any other stays as it
/// is.
pub open spec fn redrawn_upto(source: Cff2View, merges: Seq<CubicMergeView>, n: int) -> Result<
    Seq<Seq<u8>>,
    Problem,
>
    decreases n,
{
    if n <= 0 {
        Ok(Seq::empty())
    } else {
        match redrawn_upto(source, merges, n - 1) {
            Err(e) => Err(e),
            Ok(before) => match cubic_merge_of(merges, n - 1) {
                CubicMergeView::Merged(contours) => Ok(before.push(drawn(contours))),
                _ => match kept_charstring(source, n - 1) {
                    Ok(bytes) => Ok(before.push(bytes)),
                    Err(e) => Err(e),
                },
            },
        }
    }
}

pub open spec fn blended_text() -> Seq<char> {
    "Overlap removal needs a static font: a CFF2 charstring's blends are stated against the variation store, and merging contours throws the operators that carry them away. Pin every axis, or turn overlap removal off."@
}

/// The Private DICTs as they stand, without their subroutines.
pub open spec fn plain_privates(source: Cff2View) -> Seq<Seq<u8>> {
    source.font_dicts.map_values(
        |fd: super::read::FontDictView| private_without_subrs(fd.private),
    )
}

/// The parts of the table with other charstrings.
pub open spec fn redrawn_parts(source: Cff2View, charstrings: Seq<Seq<u8>>) -> Parts {
    instance_parts(source, charstrings, plain_privates(source), None)
}

/// The number of glyphs of a CFF2 table whose outlines can be simplified, or why they cannot.
pub open spec fn redrawable(source: Cff2View) -> Result<u16, Problem> {
    if source.var_store is Some {
        Err(Problem::Unsupported(blended_text()))
    } else if source.charstrings.len() > 0xffff {
        Err(Problem::Read("the CFF2 table has too many glyphs"@))
    } else {
        Ok(source.charstrings.len() as u16)
    }
}

/// The number of glyphs of a CFF2 table whose outlines can be simplified.
///
/// The font must already be static: its deltas live in the charstrings' blends, which a
/// redrawn outline no longer has.
pub fn check_redrawable(source: &Cff2Table) -> (r: Result<u16, SliceError>)
    ensures
        match r {
            Ok(count) => redrawable(source@) == Ok::<u16, Problem>(count),
            Err(e) => redrawable(source@) == Err::<u16, Problem>(e@),
        },
{
    if source.var_store.is_some() {
        return Err(blended_error());
    }
    if source.charstrings.len() > 0xffff {
        return Err(read_error("the CFF2 table has too many glyphs"));
    }
    Ok(source.charstrings.len() as u16)
}

/// The tables of a font with CFF2 outlines after its overlaps were removed.
pub open spec fn redrawn_tables(
    font: Seq<TableView>,
    source: Cff2View,
    merges: Seq<CubicMergeView>,
) -> Result<Seq<TableView>, Problem> {
    match redrawable(source) {
        Err(e) => Err(e),
        Ok(count) => match redrawn_upto(source, merges, count as int) {
            Err(e) => Err(e),
            Ok(charstrings) => {
                let p = redrawn_parts(source, charstrings);
                if table_len(p) > i32::MAX {
                    Err(too_large())
                } else {
                    Ok(
                        with_remaining(
                            seq![TableView { tag: CFF2, bytes: table_bytes(p) }],
                            font,
                            Seq::empty(),
                        ),
                    )
                }
            },
        },
    }
}

fn copy_privates(source: &Cff2Table) -> (out: Vec<Vec<u8>>)
    ensures
        views(out@) == plain_privates(source@),
{
    let ghost wanted = plain_privates(source@);
    let mut out: Vec<Vec<u8>> = Vec::new();
    assert(views(out@) =~= wanted.take(0));
    for i in 0..source.font_dicts.len()
        invariant
            wanted == plain_privates(source@),
            wanted.len() == source.font_dicts@.len(),
            views(out@) == wanted.take(i as int),
    {
        let ghost before = views(out@);
        assert(source@.font_dicts[i as int] == source.font_dicts@[i as int]@);
        let private: Vec<u8> = private_dict_without_subrs(&source.font_dicts[i].private);
        assert(private@ == wanted[i as int]);
        out.push(private);
        assert(views(out@) =~= before.push(wanted[i as int]));
        assert(wanted.take(i + 1) =~= before.push(wanted[i as int]));
    }
    assert(views(out@) =~= wanted);
    out
}

proof fn lemma_redrawn_fails(source: Cff2View, merges: Seq<CubicMergeView>, n: int, m: int)
    requires
        0 <= n <= m,
        redrawn_upto(source, merges, n) is Err,
    ensures
        redrawn_upto(source, merges, m) == redrawn_upto(source, merges, n),
    decreases m,
{
    if n < m {
        lemma_redrawn_fails(source, merges, n, m - 1);
    }
}

/// Draw the merged glyphs anew, keep the others, and report on all of them.
fn redraw_glyphs(source: &Cff2Table, merges: &Vec<CubicMerge>, count: u16) -> (r: Result<
    (Vec<Vec<u8>>, OverlapReport),
    SliceError,
>)
    requires
        count == source@.charstrings.len(),
    ensures
        ({
            let list = cubic_merge_views(merges@);
            match r {
                Ok((charstrings, report)) => {
                    &&& redrawn_upto(source@, list, count as int) == Ok::<Seq<Seq<u8>>, Problem>(
                        views(charstrings@),
                    )
                    &&& report@ == report_upto(outcomes(list), count as int)
                },
                Err(e) => redrawn_upto(source@, list, count as int) == Err::<
                    Seq<Seq<u8>>,
                    Problem,
                >(e@),
            }
        }),
{
    let ghost list = cubic_merge_views(merges@);
    let ghost noted = outcomes(list);
    let mut report: OverlapReport = OverlapReport {
        modified: Vec::new(),
        untouched: 0,
        failed: Vec::new(),
    };
    let mut charstrings: Vec<Vec<u8>> = Vec::new();
    proof {
        assert(report@ =~= report_upto(noted, 0));
        assert(views(charstrings@) =~= Seq::<Seq<u8>>::empty());
    }
    for gid in 0..count
        invariant
            count == source@.charstrings.len(),
            list == cubic_merge_views(merges@),
            noted == outcomes(list),
            report@ == report_upto(noted, gid as int),
            report.untouched <= gid,
            redrawn_upto(source@, list, gid as int) == Ok::<Seq<Seq<u8>>, Problem>(
                views(charstrings@),
            ),
    {
        let ghost before = views(charstrings@);
        let at: usize = gid as usize;
        let ghost merge = cubic_merge_of(list, gid as int);
        assert(merge_of(noted, gid as int) == outcome_of(merge));
        let mut redrawn: Option<Vec<u8>> = None;
        if at < merges.len() {
            assert(list[at as int] == merges@[at as int]@);
            match &merges[at] {
                CubicMerge::Merged(contours) => {
                    report.modified.push(gid);
                    assert(report@ =~= report_upto(noted, gid + 1));
                    redrawn = Some(draw_charstring(contours));
                },
                CubicMerge::Unneeded => {
                    report.untouched = report.untouched + 1;
                    assert(report@ =~= report_upto(noted, gid + 1));
                },
                CubicMerge::Failed(reason) => {
                    note_failure(&mut report, gid, reason);
                    assert(report@ =~= report_upto(noted, gid + 1));
                },
            }
        } else {
            report.untouched = report.untouched + 1;
            assert(report@ =~= report_upto(noted, gid + 1));
        }
        let charstring: Vec<u8> = match redrawn {
            Some(bytes) => bytes,
            None => match keep_charstring(source, at) {
                Ok(bytes) => bytes,
                Err(e) => {
                    proof {
                        lemma_redrawn_fails(source@, list, gid + 1, count as int);
                    }
                    return Err(e);
                },
            },
        };
        let ghost added = charstring@;
        charstrings.push(charstring);
        assert(views(charstrings@) =~= before.push(added));
    }
    Ok((charstrings, report))
}

/// Merge overlapping contours throughout a font with CFF2 outlines, given what came of the
/// union of each glyph's contours. A glyph without an entry stays as it is.
pub(crate) fn remove_overlaps_cff2(
    font: &Vec<FontTable>,
    source: &Cff2Table,
    merges: &Vec<CubicMerge>,
) -> (r: Result<(Vec<u8>, OverlapReport), SliceError>)
    requires
        crate::tables::table_bytes(table_views(font@), GLYF) is None,
        crate::tables::table_bytes(table_views(font@), CFF2) is Some,
    ensures
        ({
            let list = cubic_merge_views(merges@);
            let tables = redrawn_tables(table_views(font@), source@, list);
            match r {
                Ok((bytes, report)) => {
                    &&& step_file(tables) == Ok::<Seq<u8>, Problem>(bytes@)
                    &&& redrawable(source@) matches Ok(count) && report@ == report_upto(
                        outcomes(list),
                        count as int,
                    )
                    &&& font_tables(bytes@) is Ok
                    &&& only_outlines_differ(table_views(font@), tables_in(bytes@))
                },
                Err(e) => step_file(tables) == Err::<Seq<u8>, Problem>(e@),
            }
        }),
{
    let count: u16 = match check_redrawable(source) {
        Ok(count) => count,
        Err(e) => {
            return Err(e);
        },
    };
    let (charstrings, report): (Vec<Vec<u8>>, OverlapReport) = match redraw_glyphs(
        source,
        merges,
        count,
    ) {
        Ok(done) => done,
        Err(e) => {
            return Err(e);
        },
    };
    let privates: Vec<Vec<u8>> = copy_privates(source);
    assert(privates@.len() == views(privates@).len());
    let instance: Cff2Instance = match instantiate(source, charstrings, privates, None) {
        Ok(instance) => instance,
        Err(e) => {
            return Err(e);
        },
    };
    let ghost added = TableView { tag: CFF2, bytes: instance.table@ };
    let ghost first = seq![added];
    let mut out: Vec<FontTable> = Vec::new();
    out.push(FontTable { tag: CFF2, bytes: instance.table });
    assert(table_views(out@) =~= first);
    let skip: [u32; 0] = [];
    assert(skip@ =~= Seq::<u32>::empty());
    copy_remaining_tables(&mut out, font, &skip);
    match assemble(&out) {
        Ok(bytes) => {
            proof {
                lemma_only_cff2_differs(table_views(font@), added, tables_in(bytes@));
            }
            Ok((bytes, report))
        },
        Err(e) => Err(e),
    }
}

proof fn lemma_only_cff2_differs(font: Seq<TableView>, added: TableView, read: Seq<TableView>)
    requires
        added.tag == CFF2,
        crate::tables::table_bytes(font, GLYF) is None,
        crate::tables::table_bytes(font, CFF2) is Some,
        reads_as(read, with_remaining(seq![added], font, Seq::empty())),
    ensures
        only_outlines_differ(font, read),
        crate::tables::table_bytes(read, CFF2) == Some(added.bytes),
{
    let first = seq![added];
    assert forall|tag: u32|
        !crate::overlaps::is_outline_table(tag) implies #[trigger] crate::tables::table_bytes(
        read,
        tag,
    ) == crate::tables::table_bytes(font, tag) by {
        lemma_carried(read, first, font, Seq::empty(), tag);
    }
    lemma_carried(read, first, font, Seq::empty(), GLYF);
    lemma_remaining_distinct(first, font, Seq::empty());
    remaining_tables_are_carried_over(first, font, Seq::empty(), CFF2);
    assert(first[0].tag == CFF2);
    assert(crate::tables::has_tag(first, CFF2));
    lemma_found_by_tag(first, 0);
    lemma_reads_under_tag(read, with_remaining(first, font, Seq::empty()), CFF2);
}

/// A glyph that is not merged draws what it drew before, operator by operator, and has no
/// hints any more.
pub proof fn an_unmerged_glyph_keeps_its_outline(source: Cff2View, gid: int)
    ensures
        kept_charstring(source, gid) matches Ok(kept) ==> {
            &&& inlined(source, gid) matches Ok(before) && drawing(kept) == drawing(before)
            &&& scan(kept, 0, 0, 0) matches Some((stems, _)) && stems == 0
        },
{
    match dict_of_glyph(source.fd_select, source.font_dicts.len() as int, gid as u32) {
        Ok(fd) => {
            let env = glyph_env(source, fd, Seq::empty(), Seq::empty());
            a_static_charstring_has_no_blend(source.charstrings[gid], env);
            if let Ok(before) = inlined(source, gid) {
                hints_draw_nothing(before);
            }
        },
        Err(_) => {},
    }
}

/// Removing overlaps leaves a charstring for every glyph, under its number: the drawing of
/// the merged contours where it was merged, and its own where it was not.
pub proof fn every_glyph_keeps_its_place(
    source: Cff2View,
    merges: Seq<CubicMergeView>,
    n: int,
    gid: int,
)
    requires
        0 <= gid < n,
        redrawn_upto(source, merges, n) is Ok,
    ensures
        ({
            let out = redrawn_upto(source, merges, n)->Ok_0;
            &&& out.len() == n
            &&& match cubic_merge_of(merges, gid) {
                CubicMergeView::Merged(contours) => out[gid] == drawn(contours),
                _ => kept_charstring(source, gid) == Ok::<Seq<u8>, Problem>(out[gid]),
            }
        }),
    decreases n,
{
    lemma_redrawn_len(source, merges, n - 1);
    if gid < n - 1 {
        every_glyph_keeps_its_place(source, merges, n - 1, gid);
    }
}

proof fn lemma_redrawn_len(source: Cff2View, merges: Seq<CubicMergeView>, n: int)
    requires
        0 <= n,
    ensures
        redrawn_upto(source, merges, n) matches Ok(out) ==> out.len() == n,
    decreases n,
{
    if n > 0 {
        lemma_redrawn_len(source, merges, n - 1);
    }
}

} // verus!
