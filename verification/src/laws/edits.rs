//! What overlap removal, the Name Editor and a job do to a font.
use vstd::prelude::*;

use crate::apply::{name_keys, renamed};
use crate::axes::{AxisLimit, AxisView};
use crate::bytes::{be16, be32, lemma_be16_reads_back, lemma_be32_reads_back, pad4, u16_at, u32_at};
use crate::coord::rank;
use crate::font::{name_text, NameView};
use crate::glyphs::{outline_of, OutlineView, OutlinesView, Point, SimpleView};
use crate::job::{instancing_for, plans_for, settled_location, Instancing};
use crate::outline::{all_points, are_ends, points_box, start_of, GlyphView};
use crate::overlaps::{
    closed_contours, merge_of, merge_result, needs_merging, read_contours, read_stop, report_upto,
    simplified_glyphs, without_closing, MergeView,
};
use crate::sfnt::{body, log2, power_of_two, search_fields, table_offset, Table};
use crate::sort::{ordering_is_stable, stable_order};
use crate::stat::PlanView;

verus! {

// ----------------------------------------------------------------------------------- overlaps

proof fn lemma_read_stops(s: SimpleView, k: int)
    requires
        are_ends(s.end_pts, s.points.len() as int),
        0 <= k <= s.end_pts.len(),
    ensures
        read_stop(s.end_pts, s.points.len() as int, k) == start_of(s.end_pts, k),
        read_contours(s.points, s.end_pts, k).len() == k,
        forall|c: int|
            0 <= c < k ==> #[trigger] read_contours(s.points, s.end_pts, k)[c] == s.points.subrange(
                start_of(s.end_pts, c),
                start_of(s.end_pts, c + 1),
            ),
    decreases k,
{
    if k > 0 {
        lemma_read_stops(s, k - 1);
        assert(s.end_pts[k - 1] < s.points.len());
        if k > 1 {
            assert(s.end_pts[k - 2] < s.end_pts[k - 1]);
        }
        let before = read_contours(s.points, s.end_pts, k - 1);
        let out = read_contours(s.points, s.end_pts, k);
        assert forall|c: int| 0 <= c < k implies #[trigger] out[c] == s.points.subrange(
            start_of(s.end_pts, c),
            start_of(s.end_pts, c + 1),
        ) by {
            if c < k - 1 {
                assert(out[c] == before[c]);
            }
        }
    }
}

/// A glyph that is not merged keeps its outline, point by point and contour by contour, or its
/// components, and its box; its hinting is gone.
pub proof fn a_glyph_that_is_not_merged_keeps_its_outline(
    o: OutlinesView,
    merges: Seq<MergeView>,
    n: int,
    gid: int,
)
    requires
        0 <= gid < n <= 0xffff,
        !(merge_of(merges, gid) is Merged),
        outline_of(o, gid as u32) matches Some(OutlineView::Simple(s)) ==> are_ends(
            s.end_pts,
            s.points.len() as int,
        ),
    ensures
        simplified_glyphs(o, merges, n).len() == n,
        match (outline_of(o, gid as u32), simplified_glyphs(o, merges, n)[gid]) {
            (
                Some(OutlineView::Simple(s)),
                GlyphView::Simple { bbox, contours, instructions, overlaps },
            ) => {
                &&& bbox == s.bounds && overlaps == s.overlaps && instructions.len() == 0
                &&& contours.len() == s.end_pts.len()
                &&& forall|c: int|
                    0 <= c < contours.len() ==> #[trigger] contours[c] == s.points.subrange(
                        start_of(s.end_pts, c),
                        start_of(s.end_pts, c + 1),
                    )
            },
            (
                Some(OutlineView::Composite(c)),
                GlyphView::Composite { bbox, components, instructions },
            ) => bbox == c.bounds && components == c.components && instructions.len() == 0,
            (Some(OutlineView::Empty), GlyphView::Empty) => true,
            (None, GlyphView::Empty) => true,
            _ => false,
        },
{
    if let Some(OutlineView::Simple(s)) = outline_of(o, gid as u32) {
        lemma_read_stops(s, s.end_pts.len() as int);
    }
}

/// What a drawn contour comes to: its points in order, without those at the end that repeat
/// its start.
pub proof fn a_drawn_contour_is_closed(points: Seq<Point>)
    ensures
        ({
            let out = without_closing(points);
            &&& out.len() <= points.len()
            &&& out == points.take(out.len() as int)
            &&& points.len() > 0 ==> out.len() > 0
            &&& out.len() > 1 ==> !(out.last().on_curve && out.last().x == out[0].x && out.last().y
                == out[0].y)
            &&& forall|i: int|
                out.len() <= i < points.len() ==> (#[trigger] points[i]).on_curve && points[i].x
                    == points[0].x && points[i].y == points[0].y
        }),
    decreases points.len(),
{
    if points.len() > 1 && points.last().on_curve && points.last().x == points[0].x
        && points.last().y == points[0].y {
        let rest = points.drop_last();
        a_drawn_contour_is_closed(rest);
        let out = without_closing(points);
        assert(out =~= points.take(out.len() as int));
        assert forall|i: int| out.len() <= i < points.len() implies (#[trigger] points[i]).on_curve
            && points[i].x == points[0].x && points[i].y == points[0].y by {
            if i < rest.len() {
                assert(rest[i] == points[i]);
            }
        }
    } else {
        assert(points.take(points.len() as int) =~= points);
    }
}

proof fn lemma_closed(contours: Seq<Seq<Point>>) -> (from: Seq<int>)
    ensures
        ({
            let out = closed_contours(contours);
            &&& from.len() == out.len()
            &&& forall|k: int|
                0 <= k < out.len() ==> 0 <= #[trigger] from[k] < contours.len() && out[k]
                    == without_closing(contours[from[k]]) && out[k].len() >= 2
            &&& forall|j: int, k: int|
                0 <= j < k < from.len() ==> #[trigger] from[j] < #[trigger] from[k]
            &&& forall|i: int|
                0 <= i < contours.len() && without_closing(#[trigger] contours[i]).len() >= 2
                    ==> from.contains(i)
        }),
    decreases contours.len(),
{
    if contours.len() == 0 {
        Seq::empty()
    } else {
        let n = contours.len() as int;
        let rest = contours.drop_last();
        let fewer = lemma_closed(rest);
        let last = without_closing(contours.last());
        let from = if last.len() >= 2 {
            fewer.push(n - 1)
        } else {
            fewer
        };
        let before = closed_contours(rest);
        let out = closed_contours(contours);
        assert forall|k: int| 0 <= k < out.len() implies 0 <= #[trigger] from[k] < contours.len()
            && out[k] == without_closing(contours[from[k]]) && out[k].len() >= 2 by {
            if k < before.len() {
                assert(from[k] == fewer[k] && out[k] == before[k]);
                assert(rest[fewer[k]] == contours[fewer[k]]);
            }
        }
        assert forall|j: int, k: int| 0 <= j < k < from.len() implies #[trigger] from[j]
            < #[trigger] from[k] by {
            assert(from[j] == fewer[j]);
            if k < fewer.len() {
                assert(fewer[j] < fewer[k]);
            }
        }
        assert forall|i: int|
            0 <= i < contours.len() && without_closing(
                #[trigger] contours[i],
            ).len() >= 2 implies from.contains(i) by {
            if i < n - 1 {
                assert(rest[i] == contours[i]);
                assert(fewer.contains(i));
                let k = choose|k: int| 0 <= k < fewer.len() && fewer[k] == i;
                assert(from[k] == i);
            } else {
                assert(from[fewer.len() as int] == i);
            }
        }
        from
    }
}

/// A merged glyph has the contours that were merged for it, in order, without those that have
/// no extent; it has no hinting, and nothing in it overlaps. `from` says which contour each of
/// its own is.
pub proof fn a_merged_glyph_has_its_merged_contours(
    o: OutlinesView,
    merges: Seq<MergeView>,
    n: int,
    gid: int,
) -> (from: Seq<int>)
    requires
        0 <= gid < n <= 0xffff,
        gid < merges.len(),
        merges[gid] is Merged,
    ensures
        ({
            let drawn = merges[gid]->Merged_0;
            let out = simplified_glyphs(o, merges, n)[gid];
            &&& forall|k: int| 0 <= k < from.len() ==> 0 <= #[trigger] from[k] < drawn.len()
            &&& forall|j: int, k: int|
                0 <= j < k < from.len() ==> #[trigger] from[j] < #[trigger] from[k]
            &&& forall|i: int|
                0 <= i < drawn.len() && without_closing(#[trigger] drawn[i]).len() >= 2
                    ==> from.contains(i)
            &&& from.len() == 0 ==> out is Empty
            &&& from.len() > 0 ==> {
                &&& out is Simple && !out->overlaps && out->Simple_instructions.len() == 0
                &&& out->contours.len() == from.len()
                &&& forall|k: int|
                    0 <= k < from.len() ==> #[trigger] out->contours[k] == without_closing(
                        drawn[from[k]],
                    )
                &&& out->Simple_bbox == points_box(all_points(out->contours))
            }
        }),
{
    lemma_closed(merges[gid]->Merged_0)
}

/// The report speaks of every glyph once, in order: a glyph is among the modified ones exactly
/// where it was merged, and among the failed ones exactly where it could not be handled.
pub proof fn the_report_says_what_became_of_each_glyph(merges: Seq<MergeView>, n: int, g: u16)
    requires
        0 <= n <= 0xffff,
    ensures
        ({
            let r = report_upto(merges, n);
            &&& r.modified.contains(g) <==> g < n && merge_of(merges, g as int) is Merged
            &&& (exists|k: int| 0 <= k < r.failed.len() && (#[trigger] r.failed[k]).0 == g) <==> g
                < n && merge_of(merges, g as int) is Failed
            &&& r.modified.len() + r.untouched + r.failed.len() == n
            &&& r.untouched >= 0
        }),
    decreases n,
{
    if n > 0 {
        the_report_says_what_became_of_each_glyph(merges, n - 1, g);
        let before = report_upto(merges, n - 1);
        let r = report_upto(merges, n);
        if before.modified.contains(g) {
            let k = choose|k: int| 0 <= k < before.modified.len() && before.modified[k] == g;
            assert(r.modified[k] == g);
        }
        if r.modified.contains(g) {
            let k = choose|k: int| 0 <= k < r.modified.len() && r.modified[k] == g;
            if k < before.modified.len() {
                assert(before.modified[k] == g);
            }
        }
        if g == n - 1 && merge_of(merges, n - 1) is Merged {
            assert(r.modified[before.modified.len() as int] == g);
        }
        if exists|k: int| 0 <= k < before.failed.len() && (#[trigger] before.failed[k]).0 == g {
            let k = choose|k: int|
                0 <= k < before.failed.len() && (#[trigger] before.failed[k]).0 == g;
            assert(r.failed[k].0 == g);
        }
        if exists|k: int| 0 <= k < r.failed.len() && (#[trigger] r.failed[k]).0 == g {
            let k = choose|k: int| 0 <= k < r.failed.len() && (#[trigger] r.failed[k]).0 == g;
            if k < before.failed.len() {
                assert(before.failed[k].0 == g);
            }
        }
        if g == n - 1 && merge_of(merges, n - 1) is Failed {
            assert(r.failed[before.failed.len() as int].0 == g);
        }
    }
}

/// Contours that lie apart, and none of which crosses itself, have nothing to merge; neither
/// has one alone. Any others may have.
pub proof fn only_contours_that_meet_are_merged(contours: int, crosses: bool, boxes_meet: bool)
    ensures
        !crosses && !boxes_meet ==> !needs_merging(contours, crosses, boxes_meet),
        !crosses && contours < 2 ==> !needs_merging(contours, crosses, boxes_meet),
        crosses ==> needs_merging(contours, crosses, boxes_meet),
        contours >= 2 && boxes_meet ==> needs_merging(contours, crosses, boxes_meet),
{
}

/// A merge that yields nothing has failed; one that leaves as many contours over the same area
/// was not needed; any other counts.
pub proof fn a_merge_counts_where_it_changed_something(
    before: int,
    merged: Seq<Seq<Point>>,
    same_area: bool,
)
    ensures
        ({
            let r = merge_result(before, merged, same_area);
            &&& r is Failed <==> merged.len() == 0
            &&& r is Unneeded <==> merged.len() > 0 && same_area && merged.len() == before
            &&& r matches MergeView::Merged(contours) ==> contours == merged
        }),
{
}

// ------------------------------------------------------------------------------------- names

/// True when the name record `a` may stand before `b`: records go by platform, then by
/// encoding, then by language, then by name ID.
pub open spec fn may_precede(a: NameView, b: NameView) -> bool {
    if a.platform != b.platform {
        a.platform < b.platform
    } else if a.encoding != b.encoding {
        a.encoding < b.encoding
    } else if a.language != b.language {
        a.language < b.language
    } else {
        a.name_id <= b.name_id
    }
}

/// The records of an edited `name` table stand in the order that the table asks for.
pub proof fn name_records_are_in_order(
    records: Seq<NameView>,
    edits: Map<u16, Seq<char>>,
    i: int,
    j: int,
)
    requires
        0 <= i < j < renamed(records, edits).len(),
    ensures
        may_precede(renamed(records, edits)[i], renamed(records, edits)[j]),
{
    let all = crate::apply::edited_records(records, edits);
    let keys = name_keys(all);
    ordering_is_stable(keys);
    let order = stable_order(keys);
    let (a, b) = (all[order[i]], all[order[j]]);
    assert(keys[order[i]] <= keys[order[j]]);
    assert(keys[order[i]] == crate::apply::name_key(a) && keys[order[j]] == crate::apply::name_key(
        b,
    ));
}

// -------------------------------------------------------------------------------------- jobs

/// A job pins, restricts or copies: it makes a static instance exactly where every axis is
/// pinned, a smaller variable font where some axis is limited but not all are pinned, and
/// leaves the design space as it is where none is limited.
pub proof fn a_job_is_as_its_limits_are(limits: Seq<AxisLimit>)
    ensures
        instancing_for(limits) == Instancing::Static <==> limits.len() > 0 && forall|i: int|
            0 <= i < limits.len() ==> (#[trigger] limits[i]) is Pin,
        instancing_for(limits) == Instancing::Copy ==> forall|i: int|
            0 <= i < limits.len() ==> (#[trigger] limits[i]) is Full,
        instancing_for(limits) == Instancing::Partial ==> exists|i: int|
            0 <= i < limits.len() && !((#[trigger] limits[i]) is Full),
{
}

/// The plan for an axis has that axis and its own limit.
pub proof fn every_axis_gets_its_own_limit(
    axes: Seq<AxisView>,
    limits: Seq<AxisLimit>,
    i: int,
)
    requires
        axes.len() == limits.len(),
        0 <= i < axes.len(),
    ensures
        plans_for(axes, limits).len() == axes.len(),
        plans_for(axes, limits)[i].spec == axes[i],
        plans_for(axes, limits)[i].limit == limits[i],
{
}

/// The output sits at the pin of a pinned axis, and otherwise at the default of the axis as
/// far as its range reaches.
pub proof fn the_output_sits_where_it_opens(plans: Seq<PlanView>, i: int)
    requires
        0 <= i < plans.len(),
        plans[i].limit matches AxisLimit::Range { min, max } ==> rank(min) <= rank(max),
    ensures
        ({
            let plan = plans[i];
            let (tag, place) = settled_location(plans)[i];
            &&& settled_location(plans).len() == plans.len()
            &&& tag == plan.spec.tag
            &&& match plan.limit {
                AxisLimit::Pin(v) => place == v,
                AxisLimit::Full => place == plan.spec.default,
                AxisLimit::Range { min, max } => {
                    &&& rank(min) <= rank(place) <= rank(max)
                    &&& rank(min) <= rank(plan.spec.default) <= rank(max) ==> place
                        == plan.spec.default
                    &&& place == plan.spec.default || place == min || place == max
                },
            }
        }),
{
}

// ------------------------------------------------------------------------------ table search

proof fn lemma_power(n: int)
    requires
        n >= 1,
    ensures
        power_of_two(log2(n)) <= n < 2 * power_of_two(log2(n)),
        log2(n) >= 0,
        power_of_two(log2(n)) >= 1,
    decreases n,
{
    if n > 1 {
        lemma_power(n / 2);
    }
}

/// The fields for a binary search over the tables: sixteen times the largest power of two that
/// is not above their number, its exponent, and what is left of sixteen times the number.
pub proof fn the_search_fields_fit_the_number_of_tables(n: int)
    requires
        1 <= n < 4096,
    ensures
        ({
            let (range, selector, shift) = search_fields(n);
            &&& range == 16 * power_of_two(selector)
            &&& power_of_two(selector) <= n < 2 * power_of_two(selector)
            &&& range + shift == 16 * n
        }),
{
    reveal(search_fields);
    lemma_power(n);
}

// --------------------------------------------------------------------------------- shown names

/// The text that is shown for a name is that of a record for it: of the one for Windows in US
/// English where there is one, else of another for Windows where there is one, and else of
/// any. No record for it means no text.
pub proof fn the_best_record_is_shown(records: Seq<NameView>, id: u16)
    ensures
        (forall|i: int| 0 <= i < records.len() ==> (#[trigger] records[i]).name_id != id)
            ==> name_text(records, id) is None,
        (exists|i: int| 0 <= i < records.len() && (#[trigger] records[i]).name_id == id) ==> exists|
            i: int,
        |
            {
                &&& 0 <= i < records.len() && (#[trigger] records[i]).name_id == id
                &&& name_text(records, id) == records[i].text
                &&& (exists|j: int|
                    0 <= j < records.len() && (#[trigger] records[j]).name_id == id
                        && records[j].platform == 3) ==> records[i].platform == 3
                &&& (exists|j: int|
                    0 <= j < records.len() && (#[trigger] records[j]).name_id == id
                        && is_for_windows_in_english(records[j])) ==> is_for_windows_in_english(
                    records[i],
                )
            },
{
    if exists|i: int| 0 <= i < records.len() && (#[trigger] records[i]).name_id == id {
        let first = choose|i: int| 0 <= i < records.len() && (#[trigger] records[i]).name_id == id;
        let b = lemma_some_best(records, id, first);
        crate::font::lemma_name_text(records, id, records[b].text);
        assert(records[b].name_id == id);
    } else {
        assert forall|i: int| !crate::font::is_best(records, id, i) by {
            if 0 <= i < records.len() {
                assert(records[i].name_id != id);
            }
        }
        crate::font::lemma_name_text(records, id, None);
    }
}

/// True for a record for Windows, in Unicode and in US English.
pub open spec fn is_for_windows_in_english(r: NameView) -> bool {
    r.platform == 3 && r.encoding == 1 && r.language == 0x409
}

proof fn lemma_some_best(records: Seq<NameView>, id: u16, first: int) -> (b: int)
    requires
        0 <= first < records.len(),
        records[first].name_id == id,
    ensures
        crate::font::is_best(records, id, b),
{
    let best = lemma_best_among(records, id, records.len() as int);
    assert(crate::font::name_grade(records[first], id) < 3);
    best
}

proof fn lemma_best_among(records: Seq<NameView>, id: u16, n: int) -> (b: int)
    requires
        0 < n <= records.len(),
    ensures
        0 <= b < n,
        forall|j: int|
            0 <= j < n ==> crate::font::name_grade(records[b], id) <= crate::font::name_grade(
                #[trigger] records[j],
                id,
            ),
        forall|j: int|
            0 <= j < b ==> crate::font::name_grade(records[b], id) < crate::font::name_grade(
                #[trigger] records[j],
                id,
            ),
    decreases n,
{
    if n == 1 {
        0
    } else {
        let before = lemma_best_among(records, id, n - 1);
        if crate::font::name_grade(records[n - 1], id) < crate::font::name_grade(
            records[before],
            id,
        ) {
            n - 1
        } else {
            before
        }
    }
}

// --------------------------------------------------------------------------------- containers

/// The flags of a repacked font say that it was converted, by bit 11, and are otherwise as they
/// were; no other byte of `head` is touched.
pub proof fn a_repacked_font_says_so(head: Seq<u8>)
    requires
        head.len() >= 18,
    ensures
        ({
            let out = crate::woff2::converted_head(head);
            &&& out.len() == head.len()
            &&& u16_at(out, 16) as u16 == (u16_at(head, 16) as u16) | 0x800
            &&& forall|i: int| 0 <= i < head.len() && i != 16 ==> #[trigger] out[i] == head[i]
        }),
{
    let (a, b) = (head[16], head[17]);
    assert(((a | 8u8) as u16 * 256u16 + b as u16) as u16 == ((a as u16 * 256u16 + b as u16) as u16
        | 0x800u16)) by (bit_vector);
    let out = crate::woff2::converted_head(head);
    assert(out[16] == a | 8u8 && out[17] == b);
    assert(u16_at(head, 16) as u16 == (a as u16 * 256u16 + b as u16) as u16);
    assert(u16_at(out, 16) as u16 == ((a | 8u8) as u16 * 256u16 + b as u16) as u16);
}

proof fn lemma_padding(n: int)
    requires
        0 <= n,
    ensures
        n <= pad4(n) < n + 4,
        pad4(n) % 4 == 0,
{
}

/// Every table of an sfnt starts at a multiple of four, behind the directory and the tables
/// before it.
pub proof fn tables_are_aligned(tables: Seq<Table>, i: int)
    requires
        0 <= i <= tables.len(),
    ensures
        body(tables.take(i)).len() % 4 == 0,
        table_offset(tables, i) % 4 == 0,
        i < tables.len() ==> body(tables.take(i + 1)).len() < body(tables.take(i)).len()
            + tables[i].bytes.len() + 4,
    decreases i,
{
    if i > 0 {
        tables_are_aligned(tables, i - 1);
        assert(tables.take(i).drop_last() =~= tables.take(i - 1));
        lemma_padding(tables[i - 1].bytes.len() as int);
    }
    if i < tables.len() {
        assert(tables.take(i + 1).drop_last() =~= tables.take(i));
        lemma_padding(tables[i].bytes.len() as int);
    }
}

/// Every stored table of a WOFF file starts at a multiple of four.
pub proof fn stored_tables_are_aligned(tables: Seq<Table>, i: int)
    requires
        0 <= i <= tables.len(),
    ensures
        crate::woff::woff_offset(tables, i) % 4 == 0,
{
    lemma_padding(crate::woff::woff_body(tables, i).len() as int);
}

/// What is stored of a table is no longer than the table.
pub proof fn nothing_grows_in_a_woff(bytes: Seq<u8>)
    ensures
        crate::woff::stored(bytes).len() <= bytes.len(),
        crate::woff::stored(bytes) == bytes || crate::woff::stored(bytes)
            == crate::woff::deflated(bytes),
{
}

/// A WOFF file says of itself what flavor it has, how long it is, how many tables it holds, and
/// how long the sfnt is that it wraps.
#[verifier::rlimit(60)]
#[verifier::spinoff_prover]
pub proof fn a_woff_says_what_it_holds(flavor: int, tables: Seq<Table>)
    requires
        0 <= flavor <= u32::MAX,
        tables.len() <= u16::MAX,
        crate::woff::woff_len(tables) <= u32::MAX,
        12 + 16 * (tables.len() as int) + body(tables).len() <= u32::MAX,
    ensures
        ({
            let file = crate::woff::woff_bytes(flavor, tables);
            &&& u32_at(file, 4) == flavor
            &&& u32_at(file, 8) == crate::woff::woff_len(tables)
            &&& u16_at(file, 12) == tables.len()
            &&& u32_at(file, 16) == 12 + 16 * (tables.len() as int) + body(tables).len()
        }),
{
    let n = tables.len() as int;
    let file = crate::woff::woff_bytes(flavor, tables);
    let h = crate::woff::woff_header(flavor, tables);
    let size = 12 + 16 * n + body(tables).len();
    assert(h.len() == 44 && h.subrange(4, 8) == be32(flavor) && h.subrange(8, 12) == be32(
        crate::woff::woff_len(tables),
    ) && h.subrange(12, 14) == be16(n) && h.subrange(16, 20) == be32(size)) by {
        reveal(crate::woff::woff_header);
        assert(h.subrange(4, 8) =~= be32(flavor));
        assert(h.subrange(8, 12) =~= be32(crate::woff::woff_len(tables)));
        assert(h.subrange(12, 14) =~= be16(n));
        assert(h.subrange(16, 20) =~= be32(size));
    }
    assert(file.subrange(4, 8) =~= h.subrange(4, 8));
    assert(file.subrange(8, 12) =~= h.subrange(8, 12));
    assert(file.subrange(12, 14) =~= h.subrange(12, 14));
    assert(file.subrange(16, 20) =~= h.subrange(16, 20));
    lemma_be32_reads_back(file, 4, flavor);
    lemma_be32_reads_back(file, 8, crate::woff::woff_len(tables));
    lemma_be16_reads_back(file, 12, n);
    lemma_be32_reads_back(file, 16, size);
}

} // verus!
