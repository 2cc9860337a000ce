//! What becomes of the regions that deltas are for.
use vstd::prelude::*;

use crate::cff2::instance::{grouped, regions_by_data, shared_list};
use crate::laws::restriction::{
    a_surviving_axis_lands_in_its_slot, the_axes_that_are_not_pinned_survive,
};
use crate::partial::{kept_axes, output_slot, AxisTent};
use crate::regions::{
    all_distinct, dense_region, dense_upto, interning_merges_equal_regions, lemma_position_bounds,
    participating, placed_regions, position, referred, shares_of, tents_of, Share, StoreDataView,
};
use crate::stat::PlanView;
use crate::varstore::{merged, taken_apart};

verus! {

/// The tents of a region are those of the axes on which it peaks away from zero, in the order
/// of the axes, each with its start, peak and end.
pub proof fn a_region_has_a_tent_for_each_axis_it_peaks_on(region: Seq<(i16, i16, i16)>)
    requires
        region.len() <= usize::MAX,
    ensures
        ({
            let out = tents_of(region);
            &&& forall|k: int|
                0 <= k < out.len() ==> {
                    let t = #[trigger] out[k];
                    &&& t.axis < region.len()
                    &&& t.peak != 0
                    &&& (t.start, t.peak, t.end) == region[t.axis as int]
                }
            &&& forall|j: int, k: int|
                0 <= j < k < out.len() ==> (#[trigger] out[j]).axis < (#[trigger] out[k]).axis
            &&& forall|a: int|
                0 <= a < region.len() && (#[trigger] region[a]).1 != 0 ==> exists|k: int|
                    0 <= k < out.len() && (#[trigger] out[k]).axis == a
        }),
{
    let n = region.len() as int;
    let out = tents_of(region);
    lemma_participating(region, n);
    assert(out == participating(region, n));
    assert forall|a: int| 0 <= a < region.len() && (#[trigger] region[a]).1 != 0 implies exists|
        k: int,
    | 0 <= k < out.len() && (#[trigger] out[k]).axis == a by {
        let k = choose|k: int|
            0 <= k < out.len() && (#[trigger] participating(region, n)[k]).axis == a;
        assert(out[k].axis == a);
    }
}

proof fn lemma_participating(region: Seq<(i16, i16, i16)>, n: int)
    requires
        0 <= n <= region.len(),
        region.len() <= usize::MAX,
    ensures
        ({
            let out = participating(region, n);
            &&& forall|k: int|
                0 <= k < out.len() ==> {
                    let t = #[trigger] out[k];
                    &&& t.axis < n
                    &&& t.peak != 0
                    &&& (t.start, t.peak, t.end) == region[t.axis as int]
                }
            &&& forall|j: int, k: int|
                0 <= j < k < out.len() ==> (#[trigger] out[j]).axis < (#[trigger] out[k]).axis
            &&& forall|a: int|
                0 <= a < n && (#[trigger] region[a]).1 != 0 ==> exists|k: int|
                    0 <= k < out.len() && (#[trigger] out[k]).axis == a
        }),
    decreases n,
{
    if n > 0 {
        lemma_participating(region, n - 1);
        let before = participating(region, n - 1);
        let out = participating(region, n);
        assert forall|a: int| 0 <= a < n && (#[trigger] region[a]).1 != 0 implies exists|k: int|
            0 <= k < out.len() && (#[trigger] out[k]).axis == a by {
            if a < n - 1 {
                let k = choose|k: int| 0 <= k < before.len() && (#[trigger] before[k]).axis == a;
                assert(out[k].axis == a);
            } else {
                assert(out[before.len() as int].axis == a);
            }
        }
    }
}

/// The regions that a subtable refers to stand in the order of its deltas.
pub proof fn regions_stand_in_the_order_of_the_deltas(
    regions: Seq<Seq<(i16, i16, i16)>>,
    indexes: Seq<u16>,
    k: int,
)
    requires
        0 <= k < indexes.len(),
        indexes[k] < regions.len(),
    ensures
        referred(regions, indexes).len() == indexes.len(),
        referred(regions, indexes)[k] == tents_of(regions[indexes[k] as int]),
{
}

/// A region is written where all its axes survive: each tent on the slot of its axis, as it
/// is, and nothing on the other slots.
pub proof fn a_region_is_written_on_the_surviving_axes(plans: Seq<PlanView>, tents: Seq<AxisTent>)
    requires
        forall|j: int, k: int|
            0 <= j < k < tents.len() ==> (#[trigger] tents[j]).axis != (#[trigger] tents[k]).axis,
    ensures
        dense_region(plans, tents) is Some <==> (forall|k: int|
            0 <= k < tents.len() ==> (#[trigger] tents[k]).axis < plans.len() && !(
            plans[tents[k].axis as int].limit is Pin)),
        dense_region(plans, tents) matches Some(out) ==> {
            let kept = kept_axes(plans, plans.len() as int);
            &&& out.len() == kept.len()
            &&& forall|s: int, k: int|
                0 <= s < kept.len() && 0 <= k < tents.len() && (#[trigger] tents[k]).axis
                    == #[trigger] kept[s] ==> out[s] == (
                    tents[k].start,
                    tents[k].peak,
                    tents[k].end,
                )
            &&& forall|s: int|
                0 <= s < kept.len() && (forall|k: int|
                    0 <= k < tents.len() ==> (#[trigger] tents[k]).axis != kept[s])
                    ==> #[trigger] out[s] == (0i16, 0i16, 0i16)
        },
{
    lemma_dense(plans, tents, tents.len() as int);
}

proof fn lemma_dense(plans: Seq<PlanView>, tents: Seq<AxisTent>, n: int)
    requires
        0 <= n <= tents.len(),
        forall|j: int, k: int|
            0 <= j < k < tents.len() ==> (#[trigger] tents[j]).axis != (#[trigger] tents[k]).axis,
    ensures
        dense_upto(plans, tents, n) is Some <==> (forall|k: int|
            0 <= k < n ==> (#[trigger] tents[k]).axis < plans.len() && !(
            plans[tents[k].axis as int].limit is Pin)),
        dense_upto(plans, tents, n) matches Some(out) ==> {
            let kept = kept_axes(plans, plans.len() as int);
            &&& out.len() == kept.len()
            &&& forall|s: int, k: int|
                0 <= s < kept.len() && 0 <= k < n && (#[trigger] tents[k]).axis
                    == #[trigger] kept[s] ==> out[s] == (
                    tents[k].start,
                    tents[k].peak,
                    tents[k].end,
                )
            &&& forall|s: int|
                0 <= s < kept.len() && (forall|k: int|
                    0 <= k < n ==> (#[trigger] tents[k]).axis != kept[s]) ==> #[trigger] out[s] == (
                    0i16,
                    0i16,
                    0i16,
                )
        },
    decreases n,
{
    let kept = kept_axes(plans, plans.len() as int);
    if n > 0 {
        lemma_dense(plans, tents, n - 1);
        a_surviving_axis_lands_in_its_slot(plans, tents[n - 1].axis as int);
        the_axes_that_are_not_pinned_survive(plans, plans.len() as int);
        if let (Some(before), Some(slot)) = (
            dense_upto(plans, tents, n - 1),
            output_slot(plans, tents[n - 1].axis as int),
        ) {
            let out = dense_upto(plans, tents, n)->Some_0;
            assert forall|s: int, k: int|
                0 <= s < kept.len() && 0 <= k < n && (#[trigger] tents[k]).axis
                    == #[trigger] kept[s] implies out[s] == (
                tents[k].start,
                tents[k].peak,
                tents[k].end,
            ) by {
                if k == n - 1 {
                    if s < slot {
                        assert(kept[s] < kept[slot]);
                    } else if slot < s {
                        assert(kept[slot] < kept[s]);
                    }
                } else {
                    assert(tents[k].axis != tents[n - 1].axis);
                    assert(s != slot);
                    assert(out[s] == before[s]);
                }
            }
            assert forall|s: int|
                0 <= s < kept.len() && (forall|k: int|
                    0 <= k < n ==> (#[trigger] tents[k]).axis != kept[s]) implies #[trigger] out[s]
                == (0i16, 0i16, 0i16) by {
                assert(tents[n - 1].axis != kept[s]);
                assert(s != slot);
                assert(out[s] == before[s]);
            }
        }
    }
}

proof fn lemma_placed(plans: Seq<PlanView>, pieces: Seq<Seq<AxisTent>>, n: int, m: int)
    requires
        0 <= n <= m <= pieces.len(),
    ensures
        all_distinct(placed_regions(plans, pieces, m)),
        placed_regions(plans, pieces, n).len() <= placed_regions(plans, pieces, m).len(),
        forall|i: int|
            0 <= i < placed_regions(plans, pieces, n).len() ==> placed_regions(plans, pieces, m)[i]
                == #[trigger] placed_regions(plans, pieces, n)[i],
    decreases m,
{
    if m > 0 {
        if n < m {
            lemma_placed(plans, pieces, n, m - 1);
        } else {
            lemma_placed(plans, pieces, m - 1, m - 1);
        }
        let before = placed_regions(plans, pieces, m - 1);
        if pieces[m - 1].len() > 0 {
            if let Some(region) = dense_region(plans, pieces[m - 1]) {
                interning_merges_equal_regions(before, region);
                lemma_position_bounds(before, region);
            }
        }
    }
}

/// Where the design space is narrowed, the delta of a piece goes where the piece goes: one
/// that depends on no axis is gained at the new default, one on an axis that is gone is lost,
/// and any other goes to the column of the very region that it is over the surviving axes.
pub proof fn every_share_goes_to_its_region(
    plans: Seq<PlanView>,
    pieces: Seq<Seq<AxisTent>>,
    i: int,
)
    requires
        0 <= i < pieces.len() <= usize::MAX,
    ensures
        ({
            let n = pieces.len() as int;
            let regions = placed_regions(plans, pieces, n);
            let share = shares_of(plans, pieces, n)[i];
            &&& pieces[i].len() == 0 <==> share == Share::Gain
            &&& pieces[i].len() > 0 ==> match dense_region(plans, pieces[i]) {
                Some(region) => share matches Share::Column(c) && c < regions.len() && regions[c as int]
                    == region,
                None => share == Share::Lost,
            }
        }),
{
    let n = pieces.len() as int;
    if pieces[i].len() > 0 {
        if let Some(region) = dense_region(plans, pieces[i]) {
            let before = placed_regions(plans, pieces, i);
            lemma_placed(plans, pieces, i, i);
            lemma_placed(plans, pieces, i + 1, n);
            lemma_placed_count(plans, pieces, n);
            interning_merges_equal_regions(before, region);
            lemma_position_bounds(before, region);
            let at = position(before, region);
            assert(placed_regions(plans, pieces, i + 1)[at] == region);
        }
    }
}

proof fn lemma_placed_count(plans: Seq<PlanView>, pieces: Seq<Seq<AxisTent>>, n: int)
    requires
        0 <= n <= pieces.len(),
    ensures
        placed_regions(plans, pieces, n).len() <= n,
    decreases n,
{
    if n > 0 {
        lemma_placed_count(plans, pieces, n - 1);
    }
}

proof fn lemma_merged_all(
    shared: Seq<Seq<(i16, i16, i16)>>,
    own: Seq<Seq<(i16, i16, i16)>>,
    n: int,
)
    requires
        0 <= n <= own.len(),
        all_distinct(shared),
    ensures
        ({
            let out = merged(shared, own, n);
            &&& all_distinct(out)
            &&& shared.len() <= out.len()
            &&& forall|i: int| 0 <= i < shared.len() ==> #[trigger] out[i] == shared[i]
            &&& forall|j: int|
                0 <= j < n ==> {
                    let at = #[trigger] position(merged(shared, own, j), own[j]);
                    0 <= at < out.len() && out[at] == own[j]
                }
        }),
    decreases n,
{
    if n > 0 {
        lemma_merged_all(shared, own, n - 1);
        let before = merged(shared, own, n - 1);
        interning_merges_equal_regions(before, own[n - 1]);
        lemma_position_bounds(before, own[n - 1]);
        let out = merged(shared, own, n);
        assert forall|j: int| 0 <= j < n implies {
            let at = #[trigger] position(merged(shared, own, j), own[j]);
            0 <= at < out.len() && out[at] == own[j]
        } by {
            let at = position(merged(shared, own, j), own[j]);
            if j < n - 1 {
                assert(before[at] == own[j]);
                assert(out[at] == before[at]);
            }
        }
    }
}

proof fn lemma_shared_front(lists: Seq<Seq<Seq<(i16, i16, i16)>>>, i: int, n: int)
    requires
        0 <= i <= n <= lists.len(),
    ensures
        all_distinct(shared_list(lists, n)),
        shared_list(lists, i).len() <= shared_list(lists, n).len(),
        forall|k: int|
            0 <= k < shared_list(lists, i).len() ==> #[trigger] shared_list(lists, n)[k]
                == shared_list(lists, i)[k],
    decreases n,
{
    if n > 0 {
        if i < n {
            lemma_shared_front(lists, i, n - 1);
        } else {
            lemma_shared_front(lists, n - 1, n - 1);
        }
        let before = shared_list(lists, n - 1);
        lemma_merged_all(before, lists[n - 1], lists[n - 1].len() as int);
        if i < n {
            let first = shared_list(lists, i);
            let out = shared_list(lists, n);
            assert forall|k: int| 0 <= k < first.len() implies #[trigger] out[k] == first[k] by {
                assert(before[k] == first[k]);
                assert(out[k] == before[k]);
            }
        }
    }
}

/// The subtables of a new CFF2 store refer to their own regions, in order, and hold no region
/// twice between them.
pub proof fn every_subtable_refers_to_its_regions(
    lists: Seq<Seq<Seq<(i16, i16, i16)>>>,
    i: int,
    j: int,
)
    requires
        0 <= i < lists.len(),
        0 <= j < lists[i].len(),
        shared_list(lists, lists.len() as int).len() <= 0xffff,
    ensures
        ({
            let n = lists.len() as int;
            let regions = shared_list(lists, n);
            let data = grouped(lists, n);
            &&& data.len() == n
            &&& data[i] is Some
            &&& data[i]->0.region_indexes.len() == lists[i].len()
            &&& data[i]->0.region_indexes[j] < regions.len()
            &&& regions[data[i]->0.region_indexes[j] as int] == lists[i][j]
            &&& all_distinct(regions)
        }),
{
    let n = lists.len() as int;
    let before = shared_list(lists, i);
    lemma_shared_front(lists, i, i);
    lemma_shared_front(lists, i + 1, n);
    lemma_merged_all(before, lists[i], lists[i].len() as int);
    let at = position(merged(before, lists[i], j), lists[i][j]);
    assert(shared_list(lists, i + 1)[at] == lists[i][j]);
    assert(shared_list(lists, n)[at] == shared_list(lists, i + 1)[at]);
}

/// A store comes apart subtable by subtable: each has its own rows, and the regions that its
/// deltas are for, in order. One that cannot be read stays in its place.
pub proof fn a_store_comes_apart_by_subtable(
    regions: Seq<Seq<(i16, i16, i16)>>,
    data: Seq<Option<StoreDataView>>,
    i: int,
)
    requires
        0 <= i < data.len(),
    ensures
        taken_apart(regions, data).len() == data.len(),
        regions_by_data(regions, data).len() == data.len(),
        data[i] is None <==> taken_apart(regions, data)[i] is None,
        data[i] matches Some(d) ==> {
            let part = taken_apart(regions, data)[i]->0;
            &&& part.rows == d.rows
            &&& part.regions == referred(regions, d.region_indexes)
            &&& regions_by_data(regions, data)[i] == referred(regions, d.region_indexes)
        },
        data[i] is None ==> regions_by_data(regions, data)[i].len() == 0,
{
}

} // verus!
