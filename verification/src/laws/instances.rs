//! Which tables an instance has, and where they come from.
use vstd::prelude::*;

use crate::error::Problem;
use crate::outline::{glyphs_written, GlyphView};
use crate::partial::{
    built_tables, is_rebuilt, lemma_built_step, lemma_rebuilt_distinct, lemma_variation_tags,
    new_avar, new_fvar, restricted_tables, variation_tables, SpaceView,
};
use crate::stat::{
    extent_for, extent_of, filtered_stat, fixed_coord, is_outside, is_reachable, stat_head,
    stat_table, stat_values, tag_of_text, PlanView, StatValueView,
};
use crate::axes::{limit_problem, sorted_range, AxisLimit, AxisView};
use crate::coord::{rank, Coord};
use crate::statics::{
    adjusted_os2_table, lemma_os2_tag, lemma_outline_tags, outline_tables, static_tables,
    VARIATION_TABLES,
};
use crate::tables::{
    a_tag_is_found_where_it_is, distinct_tags, has_tag, lemma_found_by_tag,
    remaining_tables_are_carried_over, table_bytes, TableView, AVAR, CVAR, FVAR, GLYF, GVAR, HEAD,
    HHEA, HMTX, HVAR, LOCA, MVAR, OS2, POST, STAT, VVAR,
};

verus! {

/// True for the tables that say how a font varies, but for the one that names its axes.
pub open spec fn says_how_to_vary(tag: u32) -> bool {
    tag == FVAR || tag == AVAR || tag == GVAR || tag == CVAR || tag == HVAR || tag == VVAR || tag
        == MVAR
}

/// True for the tables that hold outlines and their metrics.
pub open spec fn is_of_outlines(tag: u32) -> bool {
    tag == GLYF || tag == LOCA || tag == HMTX || tag == HEAD || tag == HHEA
}

/// A static instance has none of the tables that say how to vary; it has the outlines and the
/// metrics that were made for it, the `STAT` that it was given, `OS/2` as it was adjusted, and
/// every other table as the font has it.
pub proof fn a_static_instance_has_the_tables_it_needs(
    font: Seq<TableView>,
    shapes: Seq<GlyphView>,
    metrics: Seq<(u16, i16)>,
    adjustments: Seq<(u32, i32)>,
    stat: Option<Seq<u8>>,
    tag: u32,
)
    requires
        static_tables(font, shapes, metrics, adjustments, stat) is Ok,
    ensures
        ({
            let out = static_tables(font, shapes, metrics, adjustments, stat)->Ok_0;
            let g = glyphs_written(shapes);
            &&& g is Ok && outline_tables(font, g->Ok_0, metrics, adjustments) is Ok
            &&& says_how_to_vary(tag) ==> table_bytes(out, tag) is None
            &&& tag == STAT ==> table_bytes(out, tag) == stat
            &&& is_of_outlines(tag) ==> table_bytes(out, tag) == table_bytes(
                outline_tables(font, g->Ok_0, metrics, adjustments)->Ok_0,
                tag,
            )
            &&& tag == OS2 ==> table_bytes(out, tag) == match adjusted_os2_table(
                font,
                adjustments,
            ) {
                Some(Ok(t)) => Some(t.bytes),
                _ => table_bytes(font, tag),
            }
            &&& !says_how_to_vary(tag) && !is_of_outlines(tag) && tag != STAT && tag != OS2
                ==> table_bytes(out, tag) == table_bytes(font, tag)
        }),
{
    let g = glyphs_written(shapes)->Ok_0;
    let first = outline_tables(font, g, metrics, adjustments)->Ok_0;
    lemma_outline_tags(font, g, metrics, adjustments);
    lemma_os2_tag(font, adjustments);
    let with_os2 = match adjusted_os2_table(font, adjustments) {
        Some(Ok(t)) => first.push(t),
        _ => first,
    };
    let with_stat = match stat {
        Some(bytes) => with_os2.push(TableView { tag: STAT, bytes }),
        None => with_os2,
    };
    assert(VARIATION_TABLES@ =~= seq![FVAR, AVAR, GVAR, CVAR, HVAR, VVAR, MVAR, STAT]);
    let v = VARIATION_TABLES@;
    assert(v[0] == FVAR && v[1] == AVAR && v[2] == GVAR && v[3] == CVAR && v[4] == HVAR && v[5]
        == VVAR && v[6] == MVAR && v[7] == STAT);
    assert(distinct_tags(with_stat));
    remaining_tables_are_carried_over(with_stat, font, v, tag);
    a_tag_is_found_where_it_is(with_stat, tag);
    assert(distinct_tags(with_os2));
    if with_os2.len() > first.len() {
        assert(with_os2.drop_last() =~= first);
    }
    if stat is Some {
        assert(with_stat.drop_last() =~= with_os2);
    }
    lemma_one_more(first, with_os2, tag);
    lemma_one_more(with_os2, with_stat, tag);
    if with_os2.len() > first.len() {
        lemma_found_by_tag(with_os2, first.len() as int);
    }
    if stat is Some {
        lemma_found_by_tag(with_stat, with_os2.len() as int);
    }
    a_tag_is_found_where_it_is(first, tag);
    a_tag_is_found_where_it_is(with_os2, tag);
    if is_of_outlines(tag) {
        assert(first[0].tag == GLYF && first[1].tag == LOCA && first[2].tag == HMTX
            && first[3].tag == HEAD && first[4].tag == HHEA);
        assert(has_tag(first, tag));
    }
}

proof fn lemma_one_more(before: Seq<TableView>, after: Seq<TableView>, tag: u32)
    requires
        after == before || (after.len() == before.len() + 1 && after.drop_last() == before
            && distinct_tags(after)),
    ensures
        after.len() > before.len() && after.last().tag == tag || table_bytes(after, tag)
            == table_bytes(before, tag),
{
    if after.len() > before.len() && after.last().tag != tag {
        a_tag_is_found_where_it_is(after, tag);
        a_tag_is_found_where_it_is(before, tag);
        if has_tag(after, tag) {
            let i = choose|i: int| 0 <= i < after.len() && (#[trigger] after[i]).tag == tag;
            assert(after.drop_last()[i] == after[i]);
            assert(distinct_tags(before)) by {
                assert forall|a: int, b: int| 0 <= a < b < before.len() implies (
                #[trigger] before[a]).tag != (#[trigger] before[b]).tag by {
                    assert(after.drop_last()[a] == after[a] && after.drop_last()[b] == after[b]);
                }
            }
            lemma_found_by_tag(after, i);
            lemma_found_by_tag(before, i);
        } else if has_tag(before, tag) {
            let i = choose|i: int| 0 <= i < before.len() && (#[trigger] before[i]).tag == tag;
            assert(after.drop_last()[i] == after[i]);
        }
    }
}

/// A restricted font has each table that was made for the new design space under its tag, and
/// what was not made anew as the font has it, unless it speaks of the old design space.
pub proof fn a_restricted_font_has_the_tables_made_for_it(
    font: Seq<TableView>,
    first: Seq<TableView>,
    source: Option<(Seq<Seq<(i16, i16)>>, bool)>,
    space: SpaceView,
    outlines: Option<Result<TableView, Problem>>,
    tag: u32,
)
    requires
        distinct_tags(first),
        forall|i: int|
            0 <= i < first.len() ==> !is_rebuilt((#[trigger] first[i]).tag) && !says_how_to_vary(
                first[i].tag,
            ),
        outlines matches Some(Ok(t)) ==> t.tag == GVAR || t.tag == HVAR,
        restricted_tables(font, first, variation_tables(font, source, space, outlines)) is Ok,
    ensures
        ({
            let out = restricted_tables(
                font,
                first,
                variation_tables(font, source, space, outlines),
            )->Ok_0;
            &&& tag == FVAR ==> table_bytes(out, tag) == made(
                Some(new_fvar(font, space.plans, space.extents)),
            )
            &&& tag == AVAR ==> table_bytes(out, tag) == made(
                new_avar(source, space.plans, space.changes),
            )
            &&& tag == STAT ==> table_bytes(out, tag) == made(stat_table(font, space.plans))
            &&& has_tag(first, tag) ==> table_bytes(out, tag) == table_bytes(first, tag)
            &&& !has_tag(first, tag) && !is_rebuilt(tag) && !says_how_to_vary(tag) && tag != STAT
                ==> table_bytes(out, tag) == table_bytes(font, tag)
        }),
{
    let more = variation_tables(font, source, space, outlines);
    let built = built_tables(more);
    let all = first + built;
    lemma_variation_tags(font, source, space, outlines);
    reveal(variation_tables);
    let made_first = match outlines {
        Some(Ok(t)) => t.tag,
        _ => GVAR,
    };
    let tags = seq![made_first, FVAR, AVAR, STAT, OS2, POST];
    assert(tags[0] == made_first && tags[1] == FVAR && tags[2] == AVAR && tags[3] == STAT && tags[4]
        == OS2 && tags[5] == POST);
    assert(are_tagged(more, tags));
    lemma_built(more, tags, 6);
    assert(more.take(6) =~= more);
    assert forall|i: int| 0 <= i < built.len() implies is_rebuilt((#[trigger] built[i]).tag) by {
        let k = choose|k: int| 0 <= k < 6 && (#[trigger] tags[k]) == built[i].tag;
        assert(tags[k] == built[i].tag);
    }
    lemma_rebuilt_distinct(first, built);
    assert(more[1] == Some(new_fvar(font, space.plans, space.extents)));
    assert(more[2] == new_avar(source, space.plans, space.changes));
    assert(more[3] == stat_table(font, space.plans));
    let skip = crate::partial::REPLACED@;
    assert(skip =~= seq![FVAR, AVAR, GVAR, CVAR, STAT, HVAR, VVAR, MVAR]);
    assert(skip[0] == FVAR && skip[1] == AVAR && skip[4] == STAT);
    remaining_tables_are_carried_over(all, font, skip, tag);
    a_tag_is_found_where_it_is(all, tag);
    a_tag_is_found_where_it_is(first, tag);
    if has_tag(first, tag) {
        let i = choose|i: int| 0 <= i < first.len() && (#[trigger] first[i]).tag == tag;
        assert(all[i] == first[i]);
        lemma_found_by_tag(all, i);
        lemma_found_by_tag(first, i);
    }
    assert(!has_tag(first, FVAR) && !has_tag(first, AVAR) && !has_tag(first, STAT));
    assert(table_bytes(all, tag) is Some <==> has_tag(all, tag));
    if tag == FVAR {
        lemma_made(more, tags, first, 1);
    } else if tag == AVAR {
        lemma_made(more, tags, first, 2);
    } else if tag == STAT {
        lemma_made(more, tags, first, 3);
    } else if !has_tag(first, tag) && has_tag(all, tag) {
        let i = choose|i: int| 0 <= i < all.len() && (#[trigger] all[i]).tag == tag;
        assert(i >= first.len());
        assert(all[i] == built[i - first.len()]);
        assert(is_rebuilt(tag));
    }
}

/// The data of a table that may have been made.
pub open spec fn made(t: Option<Result<TableView, Problem>>) -> Option<Seq<u8>> {
    match t {
        Some(Ok(t)) => Some(t.bytes),
        _ => None,
    }
}

/// True when the tables that were made have these tags.
spec fn are_tagged(more: Seq<Option<Result<TableView, Problem>>>, tags: Seq<u32>) -> bool {
    &&& more.len() == tags.len()
    &&& forall|i: int|
        0 <= i < more.len() ==> ((#[trigger] more[i]) matches Some(Ok(t)) ==> t.tag == tags[i])
    &&& forall|i: int, j: int| 0 <= i < j < tags.len() ==> #[trigger] tags[i] != #[trigger] tags[j]
}

proof fn lemma_built(more: Seq<Option<Result<TableView, Problem>>>, tags: Seq<u32>, n: int)
    requires
        are_tagged(more, tags),
        0 <= n <= more.len(),
    ensures
        ({
            let built = built_tables(more.take(n));
            &&& distinct_tags(built)
            &&& forall|j: int|
                0 <= j < built.len() ==> exists|i: int|
                    0 <= i < n && (#[trigger] tags[i]) == (#[trigger] built[j]).tag
            &&& forall|i: int|
                0 <= i < n && ((#[trigger] more[i]) matches Some(Ok(_))) ==> built.contains(
                    more[i]->0->Ok_0,
                )
            &&& forall|i: int|
                0 <= i < n && !((#[trigger] more[i]) matches Some(Ok(_))) ==> !has_tag(
                    built,
                    tags[i],
                )
        }),
    decreases n,
{
    if n > 0 {
        lemma_built(more, tags, n - 1);
        lemma_built_step(more, n - 1);
        let before = built_tables(more.take(n - 1));
        let built = built_tables(more.take(n));
        assert forall|j: int| 0 <= j < before.len() implies built[j] == #[trigger] before[j] by {}
        assert forall|i: int| 0 <= i < n && ((#[trigger] more[i]) matches Some(Ok(_))) implies
            built.contains(more[i]->0->Ok_0) by {
            if i < n - 1 {
                assert(before.contains(more[i]->0->Ok_0));
                let j = choose|j: int| 0 <= j < before.len() && before[j] == more[i]->0->Ok_0;
                assert(built[j] == before[j]);
            } else {
                assert(built[before.len() as int] == more[i]->0->Ok_0);
            }
        }
        assert forall|j: int| 0 <= j < built.len() implies exists|i: int|
            0 <= i < n && (#[trigger] tags[i]) == (#[trigger] built[j]).tag by {
            if j < before.len() {
                assert(built[j] == before[j]);
                let i = choose|i: int| 0 <= i < n - 1 && (#[trigger] tags[i]) == before[j].tag;
                assert(tags[i] == built[j].tag);
            } else {
                assert(tags[n - 1] == built[j].tag);
            }
        }
        assert forall|a: int, b: int| 0 <= a < b < built.len() implies (#[trigger] built[a]).tag
            != (#[trigger] built[b]).tag by {
            assert(built[a] == before[a]);
            if b < before.len() {
                assert(built[b] == before[b]);
            } else {
                let i = choose|i: int| 0 <= i < n - 1 && (#[trigger] tags[i]) == before[a].tag;
                assert(tags[i] != tags[n - 1]);
            }
        }
        assert forall|i: int| 0 <= i < n && !((#[trigger] more[i]) matches Some(Ok(_))) implies
            !has_tag(built, tags[i]) by {
            if has_tag(built, tags[i]) {
                let j = choose|j: int| 0 <= j < built.len() && (#[trigger] built[j]).tag == tags[i];
                if j < before.len() {
                    assert(before[j].tag == tags[i]);
                    if i < n - 1 {
                        assert(!has_tag(before, tags[i]));
                    } else {
                        let k = choose|k: int|
                            0 <= k < n - 1 && (#[trigger] tags[k]) == before[j].tag;
                        assert(tags[k] != tags[n - 1]);
                    }
                } else {
                    assert(tags[n - 1] == built[j].tag);
                    if i < n - 1 {
                        assert(tags[i] != tags[n - 1]);
                    }
                }
            }
        }
    }
}

/// Table number `k` of those that were made is found behind the first ones.
proof fn lemma_made(
    more: Seq<Option<Result<TableView, Problem>>>,
    tags: Seq<u32>,
    first: Seq<TableView>,
    k: int,
)
    requires
        are_tagged(more, tags),
        0 <= k < more.len(),
        distinct_tags(first + built_tables(more)),
        !has_tag(first, tags[k]),
    ensures
        table_bytes(first + built_tables(more), tags[k]) == made(more[k]),
{
    let built = built_tables(more);
    let all = first + built;
    lemma_built(more, tags, more.len() as int);
    assert(more.take(more.len() as int) =~= more);
    a_tag_is_found_where_it_is(all, tags[k]);
    match more[k] {
        Some(Ok(t)) => {
            assert(built.contains(more[k]->0->Ok_0));
            let j = choose|j: int| 0 <= j < built.len() && built[j] == t;
            assert(all[first.len() + j] == t);
            lemma_found_by_tag(all, first.len() + j);
        },
        _ => {
            assert(!has_tag(built, tags[k]));
            if has_tag(all, tags[k]) {
                let i = choose|i: int| 0 <= i < all.len() && (#[trigger] all[i]).tag == tags[k];
                if i < first.len() {
                    assert(first[i].tag == tags[k]);
                } else {
                    assert(built[i - first.len()].tag == tags[k]);
                }
            }
        },
    }
}

// ------------------------------------------------------------------------------ axis values

/// True when a place lies within what is left of an axis.
pub open spec fn lies_within(plan: PlanView, place: Coord) -> bool {
    match plan.limit {
        AxisLimit::Full => rank(plan.spec.min) <= rank(place) <= rank(plan.spec.max),
        AxisLimit::Pin(v) => rank(place) == rank(v),
        AxisLimit::Range { min, max } => rank(min) <= rank(place) <= rank(max),
    }
}

/// True when number `p` is the first plan for a tag.
pub open spec fn is_plan_for(plans: Seq<PlanView>, tag: u32, p: int) -> bool {
    &&& 0 <= p < plans.len()
    &&& tag_of_text(plans[p].spec.tag) == Some(tag)
    &&& forall|q: int| 0 <= q < p ==> tag_of_text((#[trigger] plans[q]).spec.tag) != Some(tag)
}

proof fn lemma_extent_for(plans: Seq<PlanView>, tag: u32, p: int)
    requires
        is_plan_for(plans, tag, p),
    ensures
        extent_for(plans, tag) == Some((extent_of(plans[p]).0, extent_of(plans[p]).2)),
    decreases plans.len(),
{
    if p > 0 {
        let rest = plans.skip(1);
        assert(tag_of_text(plans[0].spec.tag) != Some(tag));
        assert forall|q: int| 0 <= q < p - 1 implies tag_of_text((#[trigger] rest[q]).spec.tag)
            != Some(tag) by {
            assert(rest[q] == plans[q + 1]);
        }
        lemma_extent_for(rest, tag, p - 1);
    }
}

/// An axis value of `STAT` is kept exactly where it names a place, every axis that it speaks of
/// exists, and on each of them its place lies within what is left. The design axes all stay,
/// and so does the fallback name.
pub proof fn axis_values_within_reach_are_kept(
    font: Seq<TableView>,
    plans: Seq<PlanView>,
    v: StatValueView,
)
    requires
        filtered_stat(font, plans) is Some,
    ensures
        ({
            let bytes = table_bytes(font, STAT)->0;
            let out = filtered_stat(font, plans)->0;
            &&& stat_head(bytes) matches Some((Some(axes), fallback)) && out.axes == axes && (
            fallback matches Some(id) ==> out.fallback == id)
            &&& out.values.contains(v) <==> stat_values(bytes).contains(v) && v.points.len() > 0
                && forall|i: int|
                0 <= i < v.points.len() ==> (#[trigger] v.points[i]).0 < out.axes.len()
                    && forall|p: int| #[trigger]
                    is_plan_for(plans, out.axes[v.points[i].0 as int].tag, p) ==> lies_within(
                        plans[p],
                        fixed_coord(v.points[i].1),
                    )
        }),
{
    let bytes = table_bytes(font, STAT)->0;
    let out = filtered_stat(font, plans)->0;
    let axes = out.axes;
    let values = stat_values(bytes);
    let keep = |v: StatValueView| is_reachable(axes, plans, v);
    crate::laws::measures::lemma_filter_has(values, keep, v);
    assert forall|i: int| 0 <= i < v.points.len() implies !is_outside(
        axes,
        plans,
        (#[trigger] v.points[i]).0,
        v.points[i].1,
    ) == (v.points[i].0 < axes.len() && forall|p: int| #[trigger]
        is_plan_for(plans, axes[v.points[i].0 as int].tag, p) ==> lies_within(
            plans[p],
            fixed_coord(v.points[i].1),
        )) by {
        if v.points[i].0 < axes.len() {
            let tag = axes[v.points[i].0 as int].tag;
            lemma_first_plan(plans, tag);
            if extent_for(plans, tag) is Some {
                let p = choose|p: int| is_plan_for(plans, tag, p);
                lemma_extent_for(plans, tag, p);
                assert forall|q: int| #[trigger] is_plan_for(plans, tag, q) implies q == p by {
                    if q < p {
                        assert(tag_of_text(plans[q].spec.tag) != Some(tag));
                    } else if p < q {
                        assert(tag_of_text(plans[p].spec.tag) != Some(tag));
                    }
                }
            }
        }
    }
}

proof fn lemma_first_plan(plans: Seq<PlanView>, tag: u32)
    ensures
        extent_for(plans, tag) is Some <==> exists|p: int| is_plan_for(plans, tag, p),
    decreases plans.len(),
{
    if plans.len() > 0 {
        let rest = plans.skip(1);
        lemma_first_plan(rest, tag);
        if tag_of_text(plans[0].spec.tag) == Some(tag) {
            assert(is_plan_for(plans, tag, 0));
        } else {
            if extent_for(rest, tag) is Some {
                let p = choose|p: int| is_plan_for(rest, tag, p);
                assert forall|q: int| 0 <= q < p + 1 implies tag_of_text(
                    (#[trigger] plans[q]).spec.tag,
                ) != Some(tag) by {
                    if q > 0 {
                        assert(rest[q - 1] == plans[q]);
                    }
                }
                assert(is_plan_for(plans, tag, p + 1));
            }
            if exists|p: int| is_plan_for(plans, tag, p) {
                let p = choose|p: int| is_plan_for(plans, tag, p);
                assert(p > 0);
                assert forall|q: int| 0 <= q < p - 1 implies tag_of_text(
                    (#[trigger] rest[q]).spec.tag,
                ) != Some(tag) by {
                    assert(rest[q] == plans[q + 1]);
                }
                assert(is_plan_for(rest, tag, p - 1));
            }
        }
    }
}

// ----------------------------------------------------------------------------------- limits

/// A limit is accepted exactly where the axis can take it: a pin lies on the axis, and a range
/// lies on it and contains its default.
pub proof fn a_limit_is_accepted_where_the_axis_can_take_it(axis: AxisView, limit: AxisLimit)
    ensures
        limit_problem(axis, limit) is None <==> match limit {
            AxisLimit::Full => true,
            AxisLimit::Pin(v) => rank(axis.min) <= rank(v) <= rank(axis.max),
            AxisLimit::Range { min, max } => {
                &&& rank(axis.min) <= rank(min) <= rank(axis.default)
                &&& rank(axis.default) <= rank(max) <= rank(axis.max)
            },
        },
{
}

/// A range has the two numbers that were typed as its ends, the smaller one first.
pub proof fn a_range_goes_from_its_smaller_end(start: Coord, end: Coord)
    ensures
        sorted_range(start, end) matches AxisLimit::Range { min, max } && rank(min) <= rank(max) && (
        (min == start && max == end) || (min == end && max == start)),
{
}

/// The extent that is written for an axis is the range that was asked for, around the default
/// of the axis, and the whole axis where nothing was.
pub proof fn an_axis_gets_the_extent_that_was_asked_for(plan: PlanView)
    ensures
        ({
            let (min, default, max) = extent_of(plan);
            match plan.limit {
                AxisLimit::Full => min == plan.spec.min && default == plan.spec.default && max
                    == plan.spec.max,
                AxisLimit::Range { min: low, max: high } => min == low && default
                    == plan.spec.default && max == high,
                AxisLimit::Pin(v) => min == v && default == v && max == v,
            }
        }),
{
}

} // verus!
