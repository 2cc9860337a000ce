//! What restricting a design space keeps of `fvar`, `avar` and `gvar`.
use vstd::math::{max, min};
use vstd::prelude::*;

use crate::axes::AxisLimit;
use crate::coord::{rank, Coord};
use crate::error::Problem;
use crate::font::{AxisRecord, InstanceView};
use crate::outline::GlyphView;
use crate::partial::{
    all_placed, are_groups, carried, fate_of, gvar_written, has_own_ends, has_variable_positioning,
    instance_place, instance_survives, is_group, is_list_of, is_rising, kept_axes, kept_coordinates,
    key_before, left_instance, lemma_mapping, mapping_of, new_avar, new_axes, new_gvar,
    new_instances, new_map, new_maps, output_slot, partial_tables, placed_tents, placed_tuple,
    placed_tuples, run_ends, runs_of, runs_upto, sparse_deltas, sparse_tuple, stored_tuple,
    tents_of, whole_lists, whole_tent, whole_tuple, with_fixed_points, AxisTent, MapChangeView,
    PlacedView, RebasedView, SpaceView, TentFate, TupleView,
};
use crate::stat::PlanView;
use crate::tables::{table_bytes, TableView, GLYF, GVAR};

verus! {

// ------------------------------------------------------------------------ which axes survive

/// The surviving axes are those that are not pinned, in the order of the source, and each
/// lands behind as many others as survive before it.
pub proof fn the_axes_that_are_not_pinned_survive(plans: Seq<PlanView>, n: int)
    requires
        0 <= n <= plans.len(),
    ensures
        ({
            let kept = kept_axes(plans, n);
            &&& forall|i: int| 0 <= i < n && !(plans[i].limit is Pin) ==> kept.contains(i)
            &&& forall|k: int|
                0 <= k < kept.len() ==> 0 <= #[trigger] kept[k] < n && !(plans[kept[k]].limit is Pin)
            &&& forall|j: int, k: int|
                0 <= j < k < kept.len() ==> #[trigger] kept[j] < #[trigger] kept[k]
        }),
    decreases n,
{
    if n > 0 {
        the_axes_that_are_not_pinned_survive(plans, n - 1);
        let before = kept_axes(plans, n - 1);
        let kept = kept_axes(plans, n);
        assert forall|i: int| 0 <= i < n && !(plans[i].limit is Pin) implies kept.contains(i) by {
            if i < n - 1 {
                assert(before.contains(i));
                let k = choose|k: int| 0 <= k < before.len() && before[k] == i;
                assert(kept[k] == i);
            } else {
                assert(kept[before.len() as int] == i);
            }
        }
    }
}

pub(crate) proof fn lemma_kept_count(plans: Seq<PlanView>, n: int)
    requires
        0 <= n,
    ensures
        kept_axes(plans, n).len() <= n,
    decreases n,
{
    if n > 0 {
        lemma_kept_count(plans, n - 1);
    }
}

/// An axis has a place in the output exactly where it is not pinned, and the place is how many
/// axes survive before it.
pub proof fn a_surviving_axis_lands_in_its_slot(plans: Seq<PlanView>, axis: int)
    ensures
        ({
            let kept = kept_axes(plans, plans.len() as int);
            &&& output_slot(plans, axis) is Some <==> 0 <= axis < plans.len() && !(
            plans[axis].limit is Pin)
            &&& output_slot(plans, axis) matches Some(slot) ==> 0 <= slot < kept.len()
                && kept[slot] == axis
        }),
{
    if 0 <= axis < plans.len() {
        crate::partial::surviving_axes_keep_their_order(plans, axis);
    }
}

/// Each axis of the output is the axis of the source that survives in its place, with its tag,
/// its name and its flags, and with the extent that was asked for it.
pub proof fn the_output_has_the_surviving_axes(
    records: Seq<AxisRecord>,
    plans: Seq<PlanView>,
    extents: Seq<(i32, i32, i32)>,
    n: int,
)
    requires
        0 <= n <= plans.len(),
    ensures
        ({
            let kept = kept_axes(plans, n);
            let axes = new_axes(records, plans, extents, n);
            &&& axes.len() == kept.len()
            &&& forall|k: int|
                0 <= k < axes.len() ==> {
                    let source = records[kept[k]];
                    let axis = #[trigger] axes[k];
                    &&& axis.tag == source.tag && axis.name_id == source.name_id && axis.flags
                        == source.flags
                    &&& (axis.min, axis.default, axis.max) == extents[kept[k]]
                }
        }),
    decreases n,
{
    if n > 0 {
        the_output_has_the_surviving_axes(records, plans, extents, n - 1);
        let before = kept_axes(plans, n - 1);
        let kept = kept_axes(plans, n);
        let list = new_axes(records, plans, extents, n - 1);
        let axes = new_axes(records, plans, extents, n);
        assert forall|k: int| 0 <= k < axes.len() implies {
            let source = records[kept[k]];
            let axis = #[trigger] axes[k];
            &&& axis.tag == source.tag && axis.name_id == source.name_id && axis.flags
                == source.flags
            &&& (axis.min, axis.default, axis.max) == extents[kept[k]]
        } by {
            if k < list.len() {
                assert(axes[k] == list[k] && kept[k] == before[k]);
            }
        }
    }
}

proof fn lemma_kept_coordinates(
    instance: InstanceView,
    records: Seq<AxisRecord>,
    plans: Seq<PlanView>,
    n: int,
)
    requires
        0 <= n <= plans.len(),
    ensures
        ({
            let kept = kept_axes(plans, n);
            let out = kept_coordinates(instance, records, plans, n);
            &&& out.len() == kept.len()
            &&& forall|k: int|
                0 <= k < out.len() ==> #[trigger] out[k] == if kept[k]
                    < instance.coordinates.len() {
                    instance.coordinates[kept[k]]
                } else {
                    records[kept[k]].default
                }
        }),
    decreases n,
{
    if n > 0 {
        lemma_kept_coordinates(instance, records, plans, n - 1);
        let before = kept_axes(plans, n - 1);
        let kept = kept_axes(plans, n);
        let list = kept_coordinates(instance, records, plans, n - 1);
        let out = kept_coordinates(instance, records, plans, n);
        assert forall|k: int| 0 <= k < out.len() implies #[trigger] out[k] == if kept[k]
            < instance.coordinates.len() {
            instance.coordinates[kept[k]]
        } else {
            records[kept[k]].default
        } by {
            if k < list.len() {
                assert(out[k] == list[k] && kept[k] == before[k]);
            }
        }
    }
}

/// True when an instance can still be reached in a design space: on a pinned axis it sits at
/// the pin, and on a restricted one within the range.
pub open spec fn sits_within(instance: InstanceView, plans: Seq<PlanView>) -> bool {
    forall|i: int|
        0 <= i < plans.len() ==> {
            let place = rank(instance_place(instance, #[trigger] plans[i], i));
            &&& plans[i].limit matches AxisLimit::Pin(v) ==> place == rank(v)
            &&& plans[i].limit matches AxisLimit::Range { min, max } ==> rank(min) <= place
                && place <= rank(max)
        }
}

/// An instance that is left has the name of one of the source, that can still be reached, and
/// its coordinates on the surviving axes. Every one that can be reached is left.
pub proof fn instances_keep_their_names_and_places(
    instances: Seq<Option<InstanceView>>,
    records: Seq<AxisRecord>,
    plans: Seq<PlanView>,
)
    ensures
        ({
            let out = new_instances(instances, records, plans);
            &&& forall|x: InstanceView| #[trigger]
                out.contains(x) ==> exists|j: int|
                    0 <= j < instances.len() && is_left(
                        #[trigger] instances[j],
                        x,
                        records,
                        plans,
                    )
            &&& forall|j: int|
                0 <= j < instances.len() && (#[trigger] instances[j]) is Some && sits_within(
                    instances[j]->0,
                    plans,
                ) ==> exists|k: int|
                    0 <= k < out.len() && is_left(instances[j], #[trigger] out[k], records, plans)
        }),
{
    let out = new_instances(instances, records, plans);
    assert forall|x: InstanceView| #[trigger] out.contains(x) implies exists|j: int|
        0 <= j < instances.len() && is_left(#[trigger] instances[j], x, records, plans) by {
        crate::partial::named_instances_stay_within_reach(instances, records, plans, x);
        let j = choose|j: int|
            0 <= j < instances.len() && (#[trigger] instances[j]) is Some && instance_survives(
                instances[j]->0,
                plans,
            ) && x == left_instance(instances[j]->0, records, plans);
        lemma_kept_coordinates(instances[j]->0, records, plans, plans.len() as int);
        lemma_sits_within(instances[j]->0, plans);
        assert(is_left(instances[j], x, records, plans));
    }
    assert forall|j: int|
        0 <= j < instances.len() && (#[trigger] instances[j]) is Some && sits_within(
            instances[j]->0,
            plans,
        ) implies exists|k: int|
        0 <= k < out.len() && is_left(instances[j], #[trigger] out[k], records, plans) by {
        let x = left_instance(instances[j]->0, records, plans);
        lemma_sits_within(instances[j]->0, plans);
        assert(instances[j] is Some && instance_survives(instances[j]->0, plans));
        crate::partial::named_instances_stay_within_reach(instances, records, plans, x);
        let k = choose|k: int| 0 <= k < out.len() && out[k] == x;
        lemma_kept_coordinates(instances[j]->0, records, plans, plans.len() as int);
        assert(is_left(instances[j], out[k], records, plans));
    }
}

proof fn lemma_sits_within(instance: InstanceView, plans: Seq<PlanView>)
    ensures
        sits_within(instance, plans) <==> instance_survives(instance, plans),
{
    if instance_survives(instance, plans) {
        assert forall|i: int| 0 <= i < plans.len() implies {
            let place = rank(instance_place(instance, #[trigger] plans[i], i));
            &&& plans[i].limit matches AxisLimit::Pin(v) ==> place == rank(v)
            &&& plans[i].limit matches AxisLimit::Range { min, max } ==> rank(min) <= place
                && place <= rank(max)
        } by {
            assert(crate::partial::reaches(
                plans[i].limit,
                instance_place(instance, plans[i], i),
            ));
        }
    }
}

/// True when `left` is what remains of an instance that can be reached.
pub open spec fn is_left(
    source: Option<InstanceView>,
    left: InstanceView,
    records: Seq<AxisRecord>,
    plans: Seq<PlanView>,
) -> bool {
    let kept = kept_axes(plans, plans.len() as int);
    &&& source is Some
    &&& sits_within(source->0, plans)
    &&& left.name_id == source->0.name_id
    &&& left.flags == source->0.flags
    &&& left.post_script_id == source->0.post_script_id
    &&& left.coordinates.len() == kept.len()
    &&& forall|k: int|
        0 <= k < kept.len() ==> #[trigger] left.coordinates[k] == if kept[k]
            < source->0.coordinates.len() {
            source->0.coordinates[kept[k]]
        } else {
            records[kept[k]].default
        }
}

// ------------------------------------------------------------------------------ segment maps

/// A list with rising inputs takes in one more pair, in place of one with the same input.
proof fn lemma_pair_put(pairs: Seq<(i16, i16)>, from: i16, to: i16) -> (out: Seq<(i16, i16)>)
    requires
        is_rising(pairs),
    ensures
        is_rising(out),
        out.contains((from, to)),
        forall|p: (i16, i16)|
            p.0 != from ==> (#[trigger] out.contains(p) <==> pairs.contains(p)),
        mapping_of(out) == mapping_of(pairs).insert(from, to),
    decreases pairs.len(),
{
    if pairs.len() == 0 {
        let out = pairs.push((from, to));
        assert(out.drop_last() =~= pairs);
        assert(out[0] == (from, to));
        assert forall|p: (i16, i16)| p.0 != from implies !#[trigger] out.contains(p) by {
            if out.contains(p) {
                let k = choose|k: int| 0 <= k < out.len() && out[k] == p;
                assert(out[k] == (from, to));
            }
        }
        out
    } else {
        let n = pairs.len() as int;
        let last = pairs[n - 1];
        let rest = pairs.drop_last();
        assert(is_rising(rest)) by {
            assert forall|i: int, j: int| 0 <= i < j < rest.len() implies (#[trigger] rest[i]).0 < (
            #[trigger] rest[j]).0 by {
                assert(pairs[i].0 < pairs[j].0);
            }
        }
        assert forall|i: int| 0 <= i < rest.len() implies (#[trigger] rest[i]).0 < last.0 by {
            assert(pairs[i].0 < pairs[n - 1].0);
        }
        if last.0 < from {
            let out = pairs.push((from, to));
            assert(out.drop_last() =~= pairs);
            assert forall|i: int, j: int| 0 <= i < j < out.len() implies (#[trigger] out[i]).0 < (
            #[trigger] out[j]).0 by {
                if j < n {
                    assert(pairs[i].0 < pairs[j].0);
                } else if i < n - 1 {
                    assert(rest[i].0 < last.0);
                }
            }
            assert(out[n] == (from, to));
            lemma_pushed(pairs, (from, to));
            out
        } else if last.0 == from {
            let out = rest.push((from, to));
            assert(out.drop_last() =~= rest);
            assert forall|i: int, j: int| 0 <= i < j < out.len() implies (#[trigger] out[i]).0 < (
            #[trigger] out[j]).0 by {
                assert(pairs[i].0 < pairs[j].0);
            }
            assert(out[n - 1] == (from, to));
            lemma_pushed(rest, (from, to));
            lemma_pushed(rest, last);
            assert(rest.push(last) =~= pairs);
            assert(mapping_of(out) =~= mapping_of(pairs).insert(from, to));
            out
        } else {
            let less = lemma_pair_put(rest, from, to);
            let out = less.push(last);
            assert(out.drop_last() =~= less);
            assert forall|i: int| 0 <= i < less.len() implies (#[trigger] less[i]).0 < last.0 by {
                if less[i].0 != from {
                    assert(less.contains(less[i]));
                    assert(rest.contains(less[i]));
                    let k = choose|k: int| 0 <= k < rest.len() && rest[k] == less[i];
                    assert(rest[k].0 < last.0);
                }
            }
            assert forall|i: int, j: int| 0 <= i < j < out.len() implies (#[trigger] out[i]).0 < (
            #[trigger] out[j]).0 by {
                assert(out[i] == less[i]);
                assert(less[i].0 < last.0);
                if j < less.len() {
                    assert(out[j] == less[j]);
                    assert(less[i].0 < less[j].0);
                }
            }
            lemma_pushed(less, last);
            lemma_pushed(rest, last);
            assert(rest.push(last) =~= pairs);
            assert(mapping_of(out) =~= mapping_of(pairs).insert(from, to));
            out
        }
    }
}

proof fn lemma_pushed(list: Seq<(i16, i16)>, x: (i16, i16))
    ensures
        forall|p: (i16, i16)| #[trigger]
            list.push(x).contains(p) <==> list.contains(p) || p == x,
{
    let out = list.push(x);
    assert forall|p: (i16, i16)| #[trigger] out.contains(p) <==> list.contains(p) || p == x by {
        if out.contains(p) {
            let k = choose|k: int| 0 <= k < out.len() && out[k] == p;
            if k < list.len() {
                assert(list[k] == p);
            }
        }
        if list.contains(p) {
            let k = choose|k: int| 0 <= k < list.len() && list[k] == p;
            assert(out[k] == p);
        }
        assert(out[list.len() as int] == x);
    }
}

/// True when number `i` of a map's pairs has its input in the range that is left.
pub open spec fn is_in_range(map: Seq<(i16, i16)>, change: MapChangeView, i: int) -> bool {
    change.min <= map[i].0 <= change.max
}

/// True when no later pair, among the first `n`, is renormalized to the same input.
pub open spec fn is_last_of_its_input(
    map: Seq<(i16, i16)>,
    change: MapChangeView,
    i: int,
    n: int,
) -> bool {
    forall|j: int|
        i < j < n && is_in_range(map, change, j) ==> (#[trigger] change.pairs[j]).0
            != change.pairs[i].0
}

proof fn lemma_carried_list(map: Seq<(i16, i16)>, change: MapChangeView, n: int) -> (out: Seq<
    (i16, i16),
>)
    requires
        0 <= n <= map.len(),
        change.pairs.len() == map.len(),
    ensures
        is_list_of(out, carried(map, change, n)),
        forall|i: int|
            0 <= i < n && is_in_range(map, change, i) && is_last_of_its_input(map, change, i, n)
                ==> out.contains(#[trigger] change.pairs[i]),
        forall|p: (i16, i16)| #[trigger]
            out.contains(p) ==> exists|i: int|
                0 <= i < n && is_in_range(map, change, i) && #[trigger] change.pairs[i] == p,
    decreases n,
{
    if n == 0 {
        let out = Seq::<(i16, i16)>::empty();
        assert(mapping_of(out) =~= carried(map, change, 0));
        out
    } else {
        let before = lemma_carried_list(map, change, n - 1);
        let (from, to) = change.pairs[n - 1];
        let out = if is_in_range(map, change, n - 1) {
            lemma_pair_put(before, from, to)
        } else {
            before
        };
        assert forall|i: int|
            0 <= i < n && is_in_range(map, change, i) && is_last_of_its_input(
                map,
                change,
                i,
                n,
            ) implies out.contains(#[trigger] change.pairs[i]) by {
            if i < n - 1 {
                assert(is_last_of_its_input(map, change, i, n - 1));
                assert(before.contains(change.pairs[i]));
                if is_in_range(map, change, n - 1) {
                    assert(change.pairs[n - 1].0 != change.pairs[i].0);
                }
            }
        }
        assert forall|p: (i16, i16)| #[trigger] out.contains(p) implies exists|i: int|
            0 <= i < n && is_in_range(map, change, i) && #[trigger] change.pairs[i] == p by {
            if before.contains(p) {
                let i = choose|i: int|
                    0 <= i < n - 1 && is_in_range(map, change, i) && #[trigger] change.pairs[i] == p;
                assert(change.pairs[i] == p);
            } else {
                assert(p.0 == from);
                let k = choose|k: int| 0 <= k < out.len() && out[k] == p;
                lemma_mapping(out);
                assert(mapping_of(out)[out[k].0] == out[k].1);
                assert(p == (from, to));
                assert(change.pairs[n - 1] == p);
            }
        }
        out
    }
}

/// What becomes of the segment map of a restricted axis. Every pair whose input is in the
/// range that is left is written as its renormalized input and its renormalized output, unless
/// it falls on one of the three fixed points or a later pair has the same input. Besides these
/// there are the three fixed points and nothing else, with rising inputs.
pub proof fn a_restricted_map_holds_renormalized_pairs(
    maps: Seq<Seq<(i16, i16)>>,
    plan: PlanView,
    change: MapChangeView,
    axis: int,
)
    requires
        0 <= axis < maps.len(),
        !(plan.limit is Full),
        maps[axis].len() >= 3,
        change.pairs.len() == maps[axis].len(),
    ensures
        ({
            let map = maps[axis];
            let out = new_map(maps, plan, change, axis);
            &&& is_rising(out)
            &&& out.contains(((-16384) as i16, (-16384) as i16))
            &&& out.contains((0i16, 0i16))
            &&& out.contains((16384i16, 16384i16))
            &&& forall|i: int|
                {
                    &&& 0 <= i < map.len() && is_in_range(map, change, i)
                    &&& is_last_of_its_input(map, change, i, map.len() as int)
                    &&& change.pairs[i].0 != -16384 && change.pairs[i].0 != 0 && change.pairs[i].0
                        != 16384
                } ==> out.contains(#[trigger] change.pairs[i])
            &&& forall|p: (i16, i16)| #[trigger]
                out.contains(p) ==> p == ((-16384) as i16, (-16384) as i16) || p == (0i16, 0i16)
                    || p == (16384i16, 16384i16) || exists|i: int|
                    0 <= i < map.len() && is_in_range(map, change, i) && #[trigger] change.pairs[i]
                        == p
        }),
{
    let map = maps[axis];
    let n = map.len() as int;
    let m = carried(map, change, n);
    let a = lemma_carried_list(map, change, n);
    let b = lemma_pair_put(a, (-16384) as i16, (-16384) as i16);
    let c = lemma_pair_put(b, 0, 0);
    let d = lemma_pair_put(c, 16384, 16384);
    assert(is_list_of(d, with_fixed_points(m)));
    crate::partial::lemma_rising_list(d, with_fixed_points(m));
    assert(new_map(maps, plan, change, axis) == d);
    assert(c.contains(((-16384) as i16, (-16384) as i16)));
    assert(d.contains(((-16384) as i16, (-16384) as i16)));
    assert forall|i: int|
        {
            &&& 0 <= i < map.len() && is_in_range(map, change, i)
            &&& is_last_of_its_input(map, change, i, map.len() as int)
            &&& change.pairs[i].0 != -16384 && change.pairs[i].0 != 0 && change.pairs[i].0 != 16384
        } implies d.contains(#[trigger] change.pairs[i]) by {
        assert(a.contains(change.pairs[i]));
        assert(b.contains(change.pairs[i]));
        assert(c.contains(change.pairs[i]));
    }
    assert forall|p: (i16, i16)| #[trigger] d.contains(p) implies p == (
        (-16384) as i16,
        (-16384) as i16,
    ) || p == (0i16, 0i16) || p == (16384i16, 16384i16) || exists|i: int|
        0 <= i < map.len() && is_in_range(map, change, i) && #[trigger] change.pairs[i] == p by {
        lemma_one_output(d, p, (16384, 16384));
        if p.0 != 16384 {
            assert(c.contains(p));
            lemma_one_output(c, p, (0, 0));
            if p.0 != 0 {
                assert(b.contains(p));
                lemma_one_output(b, p, ((-16384) as i16, (-16384) as i16));
                if p.0 != -16384 {
                    assert(a.contains(p));
                }
            }
        }
    }
}

/// A list with rising inputs has one output for each.
proof fn lemma_one_output(list: Seq<(i16, i16)>, p: (i16, i16), q: (i16, i16))
    requires
        is_rising(list),
        list.contains(p),
        list.contains(q),
    ensures
        p.0 == q.0 ==> p == q,
{
    let i = choose|i: int| 0 <= i < list.len() && list[i] == p;
    let j = choose|j: int| 0 <= j < list.len() && list[j] == q;
    if i < j {
        assert(list[i].0 < list[j].0);
    } else if j < i {
        assert(list[j].0 < list[i].0);
    }
}

/// An axis that nobody restricted keeps its segment map, and so does one whose map says too
/// little to be carried over; one that had none has the three fixed points.
pub proof fn an_untouched_axis_keeps_its_map(
    maps: Seq<Seq<(i16, i16)>>,
    plan: PlanView,
    change: MapChangeView,
    axis: int,
)
    requires
        0 <= axis,
    ensures
        axis < maps.len() && plan.limit is Full ==> new_map(maps, plan, change, axis) == maps[axis],
        axis < maps.len() && maps[axis].len() < 3 ==> new_map(maps, plan, change, axis)
            == maps[axis],
        axis >= maps.len() ==> new_map(maps, plan, change, axis) == seq![
            ((-16384) as i16, (-16384) as i16),
            (0i16, 0i16),
            (16384i16, 16384i16),
        ],
{
}

/// The segment maps of the output are those of the surviving axes, in order.
pub proof fn every_surviving_axis_keeps_a_map(
    maps: Seq<Seq<(i16, i16)>>,
    plans: Seq<PlanView>,
    changes: Seq<MapChangeView>,
    n: int,
)
    requires
        0 <= n <= plans.len(),
    ensures
        ({
            let kept = kept_axes(plans, n);
            let out = new_maps(maps, plans, changes, n);
            &&& out.len() == kept.len()
            &&& forall|k: int|
                0 <= k < out.len() ==> #[trigger] out[k] == new_map(
                    maps,
                    plans[kept[k]],
                    changes[kept[k]],
                    kept[k],
                )
        }),
    decreases n,
{
    if n > 0 {
        every_surviving_axis_keeps_a_map(maps, plans, changes, n - 1);
        let before = kept_axes(plans, n - 1);
        let kept = kept_axes(plans, n);
        let list = new_maps(maps, plans, changes, n - 1);
        let out = new_maps(maps, plans, changes, n);
        assert forall|k: int| 0 <= k < out.len() implies #[trigger] out[k] == new_map(
            maps,
            plans[kept[k]],
            changes[kept[k]],
            kept[k],
        ) by {
            if k < list.len() {
                assert(out[k] == list[k] && kept[k] == before[k]);
            }
        }
    }
}

// ------------------------------------------------------------------------------------ tuples

/// The support of a tuple has a tent for each axis on which it peaks away from zero, and no
/// other, in the order of the axes. A tuple without an intermediate region starts or ends at
/// zero on either side of it: from zero up to a positive peak, and from a negative peak up to
/// zero. One with such a region starts and ends where it says.
pub proof fn a_tuple_peaks_between_its_ends(t: TupleView, count: nat)
    requires
        t.peak.len() <= usize::MAX,
    ensures
        ({
            let axes = sparse_tuple(t, count).axes;
            &&& forall|k: int|
                0 <= k < axes.len() ==> {
                    let tent = #[trigger] axes[k];
                    &&& 0 <= tent.axis < t.peak.len()
                    &&& tent.peak == t.peak[tent.axis as int]
                    &&& tent.peak != 0
                    &&& t.start is None || t.end is None ==> tent.start == min(0, tent.peak as int)
                        && tent.end == max(0, tent.peak as int)
                    &&& t.start is Some && t.end is Some && tent.axis < t.start->0.len()
                        && tent.axis < t.end->0.len() ==> tent.start == t.start->0[tent.axis as int]
                        && tent.end == t.end->0[tent.axis as int]
                }
            &&& forall|j: int, k: int|
                0 <= j < k < axes.len() ==> (#[trigger] axes[j]).axis < (#[trigger] axes[k]).axis
            &&& forall|a: int|
                0 <= a < t.peak.len() && #[trigger] t.peak[a] != 0 ==> exists|k: int|
                    0 <= k < axes.len() && (#[trigger] axes[k]).axis == a
        }),
{
    let n = t.peak.len() as int;
    let axes = sparse_tuple(t, count).axes;
    lemma_tents(t, n);
    assert(axes == tents_of(t, n));
    assert forall|a: int| 0 <= a < t.peak.len() && #[trigger] t.peak[a] != 0 implies exists|k: int|
        0 <= k < axes.len() && (#[trigger] axes[k]).axis == a by {
        let k = choose|k: int| 0 <= k < axes.len() && (#[trigger] tents_of(t, n)[k]).axis == a;
        assert(axes[k].axis == a);
    }
}

proof fn lemma_tents(t: TupleView, n: int)
    requires
        0 <= n <= t.peak.len(),
        t.peak.len() <= usize::MAX,
    ensures
        ({
            let axes = tents_of(t, n);
            &&& forall|k: int|
                0 <= k < axes.len() ==> {
                    let tent = #[trigger] axes[k];
                    &&& 0 <= tent.axis < n
                    &&& tent.peak == t.peak[tent.axis as int]
                    &&& tent.peak != 0
                    &&& t.start is None || t.end is None ==> tent.start == min(0, tent.peak as int)
                        && tent.end == max(0, tent.peak as int)
                    &&& t.start is Some && t.end is Some && tent.axis < t.start->0.len()
                        && tent.axis < t.end->0.len() ==> tent.start == t.start->0[tent.axis as int]
                        && tent.end == t.end->0[tent.axis as int]
                }
            &&& forall|j: int, k: int|
                0 <= j < k < axes.len() ==> (#[trigger] axes[j]).axis < (#[trigger] axes[k]).axis
            &&& forall|a: int|
                0 <= a < n && #[trigger] t.peak[a] != 0 ==> exists|k: int|
                    0 <= k < axes.len() && (#[trigger] axes[k]).axis == a
        }),
    decreases n,
{
    if n > 0 {
        lemma_tents(t, n - 1);
        let before = tents_of(t, n - 1);
        let axes = tents_of(t, n);
        assert forall|a: int| 0 <= a < n && #[trigger] t.peak[a] != 0 implies exists|k: int|
            0 <= k < axes.len() && (#[trigger] axes[k]).axis == a by {
            if a < n - 1 {
                let k = choose|k: int| 0 <= k < before.len() && (#[trigger] before[k]).axis == a;
                assert(axes[k].axis == a);
            } else {
                assert(axes[before.len() as int].axis == a);
            }
        }
    }
}

/// A point has the delta that the tuple gives it last, and none where it gives it none.
pub proof fn a_point_has_its_last_delta(t: TupleView, count: nat, point: int)
    requires
        0 <= point < count,
    ensures
        ({
            let out = sparse_tuple(t, count).deltas;
            &&& out.len() == count
            &&& forall|i: int|
                0 <= i < t.deltas.len() && (#[trigger] t.deltas[i]).0 == point && (forall|j: int|
                    i < j < t.deltas.len() ==> (#[trigger] t.deltas[j]).0 != point) ==> out[point]
                    == Some((t.deltas[i].1, t.deltas[i].2))
            &&& (forall|i: int| 0 <= i < t.deltas.len() ==> (#[trigger] t.deltas[i]).0 != point)
                ==> out[point] is None
        }),
{
    lemma_deltas(t.deltas, count, point, t.deltas.len() as int);
}

proof fn lemma_deltas(deltas: Seq<(u16, i32, i32)>, count: nat, point: int, n: int)
    requires
        0 <= point < count,
        0 <= n <= deltas.len(),
    ensures
        ({
            let out = sparse_deltas(deltas, count, n);
            &&& out.len() == count
            &&& forall|i: int|
                0 <= i < n && (#[trigger] deltas[i]).0 == point && (forall|j: int|
                    i < j < n ==> (#[trigger] deltas[j]).0 != point) ==> out[point] == Some(
                    (deltas[i].1, deltas[i].2),
                )
            &&& (forall|i: int| 0 <= i < n ==> (#[trigger] deltas[i]).0 != point)
                ==> out[point] is None
        }),
    decreases n,
{
    if n > 0 {
        lemma_deltas(deltas, count, point, n - 1);
        let out = sparse_deltas(deltas, count, n);
        let before = sparse_deltas(deltas, count, n - 1);
        let last = deltas[n - 1];
        assert(last.0 != point ==> out[point] == before[point]);
        assert(last.0 == point ==> out[point] == Some((last.1, last.2)));
        assert forall|i: int|
            0 <= i < n && (#[trigger] deltas[i]).0 == point && (forall|j: int|
                i < j < n ==> (#[trigger] deltas[j]).0 != point) implies out[point] == Some(
            (deltas[i].1, deltas[i].2),
        ) by {
            if i < n - 1 {
                assert(deltas[n - 1].0 != point);
                assert(forall|j: int| i < j < n - 1 ==> (#[trigger] deltas[j]).0 != point);
            }
        }
        if forall|i: int| 0 <= i < n ==> (#[trigger] deltas[i]).0 != point {
            assert(deltas[n - 1].0 != point);
        }
    }
}

/// A tuple that is written has its tents on the slots of their axes, with peak, start and end
/// as they are, and peaks at zero on every other slot. It is written where all its axes
/// survive and it moves some point, with the deltas that it had, as far as they fit.
pub proof fn a_tuple_is_written_on_the_surviving_axes(plans: Seq<PlanView>, t: RebasedView)
    requires
        forall|j: int, k: int|
            0 <= j < k < t.axes.len() ==> (#[trigger] t.axes[j]).axis != (#[trigger] t.axes[k]).axis,
        forall|i: int|
            0 <= i < t.deltas.len() ==> -0x8000 <= (#[trigger] t.deltas[i]).0 <= 0x7fff && -0x8000
                <= t.deltas[i].1 <= 0x7fff,
    ensures
        placed_tuple(plans, t) is Some <==> (forall|k: int|
            0 <= k < t.axes.len() ==> (#[trigger] t.axes[k]).axis < plans.len() && !(
            plans[t.axes[k].axis as int].limit is Pin)) && (exists|i: int|
            0 <= i < t.deltas.len() && #[trigger] t.deltas[i] != (0i32, 0i32)),
        placed_tuple(plans, t) matches Some(out) ==> {
            let kept = kept_axes(plans, plans.len() as int);
            &&& out.tents.len() == kept.len()
            &&& forall|s: int, k: int|
                0 <= s < kept.len() && 0 <= k < t.axes.len() && (#[trigger] t.axes[k]).axis
                    == #[trigger] kept[s] ==> out.tents[s] == (
                    t.axes[k].peak,
                    Some((t.axes[k].start, t.axes[k].end)),
                )
            &&& forall|s: int|
                0 <= s < kept.len() && (forall|k: int|
                    0 <= k < t.axes.len() ==> (#[trigger] t.axes[k]).axis != kept[s])
                    ==> (#[trigger] out.tents[s]).0 == 0
            &&& out.deltas.len() == t.deltas.len()
            &&& forall|i: int|
                0 <= i < t.deltas.len() ==> (#[trigger] out.deltas[i]).0 == t.deltas[i].0
                    && out.deltas[i].1 == t.deltas[i].1
        },
{
    lemma_placed_tents(plans, t.axes, t.axes.len() as int);
    let deltas = crate::partial::rounded_deltas(t.deltas);
    assert forall|i: int| 0 <= i < t.deltas.len() implies (#[trigger] deltas[i]).0 == t.deltas[i].0
        && deltas[i].1 == t.deltas[i].1 by {
        assert(t.deltas[i].0 == t.deltas[i].0);
    }
    if exists|i: int| 0 <= i < t.deltas.len() && #[trigger] t.deltas[i] != (0i32, 0i32) {
        let i = choose|i: int| 0 <= i < t.deltas.len() && #[trigger] t.deltas[i] != (0i32, 0i32);
        assert(deltas[i] != (0i16, 0i16));
    } else {
        assert forall|i: int| 0 <= i < deltas.len() implies #[trigger] deltas[i] == (
            0i16,
            0i16,
        ) by {
            assert(t.deltas[i] == (0i32, 0i32));
        }
    }
}

proof fn lemma_placed_tents(plans: Seq<PlanView>, axes: Seq<AxisTent>, n: int)
    requires
        0 <= n <= axes.len(),
        forall|j: int, k: int|
            0 <= j < k < axes.len() ==> (#[trigger] axes[j]).axis != (#[trigger] axes[k]).axis,
    ensures
        placed_tents(plans, axes, n) is Some <==> (forall|k: int|
            0 <= k < n ==> (#[trigger] axes[k]).axis < plans.len() && !(
            plans[axes[k].axis as int].limit is Pin)),
        placed_tents(plans, axes, n) matches Some(out) ==> {
            let kept = kept_axes(plans, plans.len() as int);
            &&& out.len() == kept.len()
            &&& forall|s: int, k: int|
                0 <= s < kept.len() && 0 <= k < n && (#[trigger] axes[k]).axis == #[trigger] kept[s]
                    ==> out[s] == (axes[k].peak, Some((axes[k].start, axes[k].end)))
            &&& forall|s: int|
                0 <= s < kept.len() && (forall|k: int|
                    0 <= k < n ==> (#[trigger] axes[k]).axis != kept[s]) ==> (#[trigger] out[s]).0
                    == 0
        },
    decreases n,
{
    let kept = kept_axes(plans, plans.len() as int);
    if n > 0 {
        lemma_placed_tents(plans, axes, n - 1);
        a_surviving_axis_lands_in_its_slot(plans, axes[n - 1].axis as int);
        the_axes_that_are_not_pinned_survive(plans, plans.len() as int);
        if let (Some(before), Some(slot)) = (
            placed_tents(plans, axes, n - 1),
            output_slot(plans, axes[n - 1].axis as int),
        ) {
            let out = placed_tents(plans, axes, n)->Some_0;
            assert forall|s: int, k: int|
                0 <= s < kept.len() && 0 <= k < n && (#[trigger] axes[k]).axis
                    == #[trigger] kept[s] implies out[s] == (
                axes[k].peak,
                Some((axes[k].start, axes[k].end)),
            ) by {
                if k == n - 1 {
                    if s < slot {
                        assert(kept[s] < kept[slot]);
                    } else if slot < s {
                        assert(kept[slot] < kept[s]);
                    }
                } else {
                    assert(axes[k].axis != axes[n - 1].axis);
                    assert(s != slot);
                    assert(out[s] == before[s]);
                }
            }
            assert forall|s: int|
                0 <= s < kept.len() && (forall|k: int|
                    0 <= k < n ==> (#[trigger] axes[k]).axis != kept[s]) implies (
            #[trigger] out[s]).0 == 0 by {
                assert(axes[n - 1].axis != kept[s]);
                assert(s != slot);
                assert(out[s] == before[s]);
            }
        }
    }
}

// -------------------------------------------------------------------------------------- runs

/// Missing deltas are interpolated within contours: the runs are the contours, one after
/// another, and then each of the four phantom points for itself.
pub proof fn runs_are_contours_and_phantom_points(end_pts: Seq<u16>, points: int)
    requires
        points >= 4,
        end_pts.len() > 0,
        forall|i: int, j: int|
            0 <= i < j < end_pts.len() ==> #[trigger] end_pts[i] < #[trigger] end_pts[j],
        end_pts[end_pts.len() - 1] == points - 5,
    ensures
        ({
            let n = end_pts.len() as int;
            let runs = runs_of(end_pts, points);
            &&& runs.len() == n + 4
            &&& forall|k: int|
                0 <= k < n ==> (#[trigger] runs[k]).1 == end_pts[k] + 1 && runs[k].0 == if k == 0 {
                    0
                } else {
                    end_pts[k - 1] + 1
                }
            &&& forall|k: int|
                n <= k < n + 4 ==> #[trigger] runs[k] == (points - 4 + k - n, points - 3 + k - n)
        }),
{
    let n = end_pts.len() as int;
    let ends = run_ends(end_pts, points);
    assert forall|k: int| 0 <= k < n implies #[trigger] ends[k] == end_pts[k] + 1 && ends[k]
        <= points - 4 by {
        if k < n - 1 {
            assert(end_pts[k] < end_pts[n - 1]);
        }
    }
    assert forall|j: int, k: int| 0 <= j < k < ends.len() implies #[trigger] ends[j]
        < #[trigger] ends[k] by {
        if k < n {
            assert(end_pts[j] < end_pts[k]);
        }
    }
    lemma_runs(ends, points, ends.len() as int);
}

/// The component offsets of a composite glyph, and the phantom points behind them, are not
/// interpolated between: each is a run of its own.
pub proof fn component_offsets_are_runs_of_their_own(points: int)
    requires
        points >= 4,
    ensures
        runs_of(Seq::empty(), points) == Seq::new(points as nat, |k: int| (k, k + 1)),
{
    let ends = run_ends(Seq::empty(), points);
    assert forall|k: int| 0 <= k < ends.len() implies #[trigger] ends[k] == k + 1 by {}
    lemma_runs(ends, points, ends.len() as int);
    assert(runs_of(Seq::empty(), points) =~= Seq::new(points as nat, |k: int| (k, k + 1)));
}

proof fn lemma_runs(ends: Seq<int>, points: int, n: int)
    requires
        0 <= n <= ends.len(),
        forall|k: int| 0 <= k < ends.len() ==> 0 < #[trigger] ends[k] <= points,
        forall|j: int, k: int|
            0 <= j < k < ends.len() ==> #[trigger] ends[j] < #[trigger] ends[k],
    ensures
        ({
            let runs = runs_upto(ends, points, n);
            &&& runs.len() == n
            &&& forall|k: int|
                0 <= k < n ==> #[trigger] runs[k] == (
                    if k == 0 {
                        0
                    } else {
                        ends[k - 1]
                    },
                    ends[k],
                )
        }),
    decreases n,
{
    if n > 0 {
        lemma_runs(ends, points, n - 1);
        let before = runs_upto(ends, points, n - 1);
        if n > 1 {
            assert(before[n - 2].1 == ends[n - 2]);
            assert(ends[n - 2] < ends[n - 1]);
        }
        assert(ends[n - 1] <= points);
    }
}

// -------------------------------------------------------------------------------- tents, groups

/// On a limited axis, a tent that peaks at the default leaves the tuple, one that is out of
/// order or straddles the default takes the tuple with it, and every other is rebased.
pub proof fn a_tent_is_rebased_on_its_side_of_the_default(lower: Coord, peak: Coord, upper: Coord)
    ensures
        ({
            let fate = fate_of(lower, peak, upper);
            let (l, p, u) = (rank(lower), rank(peak), rank(upper));
            &&& fate == TentFate::AxisDropped <==> p == 0
            &&& fate == TentFate::Rebased <==> p != 0 && l <= p <= u && (0 <= l || u <= 0)
        }),
{
}

/// Two tuples are in one group exactly where they have the same support, and every tuple is in
/// one group only.
pub proof fn tuples_with_one_support_share_a_group(
    keys: Seq<Seq<AxisTent>>,
    groups: Seq<Seq<usize>>,
    g: int,
    a: int,
    h: int,
    b: int,
)
    requires
        are_groups(keys, groups, keys.len() as int),
        0 <= g < groups.len(),
        0 <= a < groups[g].len(),
        0 <= h < groups.len(),
        0 <= b < groups[h].len(),
    ensures
        g == h <==> keys[groups[g][a] as int] == keys[groups[h][b] as int],
        g == h && a < b ==> groups[g][a] < groups[h][b],
{
    assert(is_group(keys, groups[g], keys.len() as int));
    assert(is_group(keys, groups[h], keys.len() as int));
    assert(keys[groups[g][a] as int] == keys[groups[g][0] as int]);
    assert(keys[groups[h][b] as int] == keys[groups[h][0] as int]);
    let x = keys[groups[g][0] as int];
    let y = keys[groups[h][0] as int];
    crate::partial::lemma_key_order(x, y);
    if g < h {
        assert(key_before(x, y));
    } else if h < g {
        assert(key_before(y, x));
    }
}

/// The part of a glyph that no longer depends on any axis comes first among the groups.
pub proof fn the_fixed_part_comes_first(
    keys: Seq<Seq<AxisTent>>,
    groups: Seq<Seq<usize>>,
    g: int,
)
    requires
        are_groups(keys, groups, keys.len() as int),
        0 <= g < groups.len(),
        keys[groups[g][0] as int].len() == 0,
    ensures
        g == 0,
{
    if g > 0 {
        assert(key_before(keys[groups[0][0] as int], keys[groups[g][0] as int]));
    }
}

// --------------------------------------------------------------------------- what is refused

/// An `avar` that goes beyond segment maps is refused; without one the output has none, and so
/// it has where no axis survives.
pub proof fn only_plain_segment_maps_are_carried_over(
    source: Option<(Seq<Seq<(i16, i16)>>, bool)>,
    plans: Seq<PlanView>,
    changes: Seq<MapChangeView>,
)
    ensures
        source is None ==> new_avar(source, plans, changes) is None,
        source matches Some((_, extended)) && extended ==> (new_avar(source, plans, changes)
            matches Some(Err(Problem::Unsupported(_)))),
        source matches Some((_, extended)) && !extended && (forall|i: int|
            0 <= i < plans.len() ==> (#[trigger] plans[i]).limit is Pin) ==> new_avar(
            source,
            plans,
            changes,
        ) is None,
{
    if let Some((maps, extended)) = source {
        every_surviving_axis_keeps_a_map(maps, plans, changes, plans.len() as int);
        the_axes_that_are_not_pinned_survive(plans, plans.len() as int);
        if forall|i: int| 0 <= i < plans.len() ==> (#[trigger] plans[i]).limit is Pin {
            let kept = kept_axes(plans, plans.len() as int);
            if kept.len() > 0 {
                assert(plans[kept[0]].limit is Pin);
            }
        }
    }
}

/// A font with variable kerning or anchors, or without TrueType outlines, is not restricted as
/// one with TrueType outlines.
pub proof fn what_cannot_be_rewritten_is_refused(
    font: Seq<TableView>,
    source: Option<(Seq<Seq<(i16, i16)>>, bool)>,
    space: SpaceView,
    shapes: Seq<GlyphView>,
    metrics: Seq<(u16, i16)>,
    tuples: Seq<Seq<RebasedView>>,
)
    ensures
        table_bytes(font, GLYF) is None || has_variable_positioning(font) ==> (partial_tables(
            font,
            source,
            space,
            shapes,
            metrics,
            tuples,
        ) matches Err(Problem::Unsupported(_))),
{
}

/// The tuples of a glyph that are written are those that can be and that move something, in
/// order. `from` says which each is.
pub proof fn tuples_are_written_in_order(
    plans: Seq<PlanView>,
    tuples: Seq<RebasedView>,
) -> (from: Seq<int>)
    ensures
        ({
            let out = placed_tuples(plans, tuples);
            &&& from.len() == out.len()
            &&& forall|k: int|
                0 <= k < out.len() ==> 0 <= #[trigger] from[k] < tuples.len() && placed_tuple(
                    plans,
                    tuples[from[k]],
                ) == Some(out[k])
            &&& forall|j: int, k: int|
                0 <= j < k < from.len() ==> #[trigger] from[j] < #[trigger] from[k]
            &&& forall|i: int|
                0 <= i < tuples.len() && placed_tuple(plans, #[trigger] tuples[i]) is Some
                    ==> from.contains(i)
        }),
    decreases tuples.len(),
{
    if tuples.len() == 0 {
        Seq::empty()
    } else {
        let n = tuples.len() as int;
        let rest = tuples.drop_last();
        let fewer = tuples_are_written_in_order(plans, rest);
        let from = if placed_tuple(plans, tuples.last()) is Some {
            fewer.push(n - 1)
        } else {
            fewer
        };
        let before = placed_tuples(plans, rest);
        let out = placed_tuples(plans, tuples);
        assert forall|k: int| 0 <= k < out.len() implies 0 <= #[trigger] from[k] < tuples.len()
            && placed_tuple(plans, tuples[from[k]]) == Some(out[k]) by {
            if k < before.len() {
                assert(from[k] == fewer[k] && out[k] == before[k]);
                assert(rest[fewer[k]] == tuples[fewer[k]]);
            }
        }
        assert forall|j: int, k: int| 0 <= j < k < from.len() implies #[trigger] from[j]
            < #[trigger] from[k] by {
            assert(from[j] == fewer[j]);
            if k < fewer.len() {
                assert(fewer[j] < fewer[k]);
            }
        }
        assert forall|i: int|
            0 <= i < tuples.len() && placed_tuple(plans, #[trigger] tuples[i]) is Some implies
            from.contains(i) by {
            if i < n - 1 {
                assert(rest[i] == tuples[i]);
                assert(fewer.contains(i));
                let k = choose|k: int| 0 <= k < fewer.len() && fewer[k] == i;
                assert(from[k] == i);
            } else {
                assert(from[fewer.len() as int] == i);
            }
        }
        from
    }
}

/// Every glyph keeps its own tuples.
pub proof fn every_glyph_keeps_its_own_tuples(
    plans: Seq<PlanView>,
    glyphs: Seq<Seq<RebasedView>>,
    g: int,
)
    requires
        0 <= g < glyphs.len(),
    ensures
        all_placed(plans, glyphs).len() == glyphs.len(),
        all_placed(plans, glyphs)[g] == placed_tuples(plans, glyphs[g]),
{
}

// -------------------------------------------------------------------------- what reads back

/// True for a tent that a tuple can have: none at all, or one with a peak and with ends.
pub open spec fn is_written_tent(t: (i16, Option<(i16, i16)>)) -> bool {
    t.0 == 0 <==> t.1 is None
}

/// What was written as a tuple is read as the same: on each axis on which it has a tent, with
/// the same start, peak and end, and with the same delta for each point.
pub proof fn a_written_tuple_is_read_as_it_was(t: PlacedView, i: int, point: int)
    requires
        t.tents.len() <= 0xffff,
        t.deltas.len() <= 0x1_0000,
        forall|k: int| 0 <= k < t.tents.len() ==> is_written_tent(#[trigger] t.tents[k]),
        0 <= i < t.tents.len(),
        0 <= point < t.deltas.len(),
    ensures
        ({
            let read = sparse_tuple(stored_tuple(t), t.deltas.len());
            let (peak, ends) = t.tents[i];
            &&& peak != 0 <==> exists|k: int|
                0 <= k < read.axes.len() && (#[trigger] read.axes[k]).axis == i
            &&& forall|k: int|
                0 <= k < read.axes.len() && (#[trigger] read.axes[k]).axis == i ==> {
                    &&& read.axes[k].peak == peak
                    &&& Some((read.axes[k].start, read.axes[k].end)) == ends
                }
            &&& read.deltas[point] matches Some((x, y)) && x == t.deltas[point].0 && y
                == t.deltas[point].1
        }),
{
    let stored = stored_tuple(t);
    let n = t.deltas.len();
    let read = sparse_tuple(stored, n);
    let tents = whole_tuple(t).tents;
    a_tuple_peaks_between_its_ends(stored, n);
    a_point_has_its_last_delta(stored, n, point);
    assert(stored.deltas[point].0 == point);
    assert forall|j: int| point < j < stored.deltas.len() implies (#[trigger] stored.deltas[j]).0
        != point by {}
    assert(stored.peak[i] == t.tents[i].0);
    assert forall|k: int|
        0 <= k < read.axes.len() && (#[trigger] read.axes[k]).axis == i implies {
        &&& read.axes[k].peak == t.tents[i].0
        &&& Some((read.axes[k].start, read.axes[k].end)) == t.tents[i].1
    } by {
        assert(is_written_tent(t.tents[i]));
        assert(tents[i] == whole_tent(t.tents[i]));
        assert(tents[i] == t.tents[i]);
        if stored.start is None {
            assert(!has_own_ends(tents[i]));
        } else {
            assert(stored.start->0[i] == (tents[i].1->Some_0).0);
            assert(stored.end->0[i] == (tents[i].1->Some_0).1);
        }
    }
}

/// There is a `gvar` exactly where some glyph has a tuple that is written, and it holds all of
/// them over as many axes as survive.
pub proof fn gvar_is_over_the_surviving_axes(plans: Seq<PlanView>, glyphs: Seq<Seq<RebasedView>>)
    requires
        plans.len() <= 0xffff,
    ensures
        new_gvar(plans, glyphs) is None <==> forall|g: int|
            0 <= g < glyphs.len() ==> placed_tuples(plans, #[trigger] glyphs[g]).len() == 0,
        new_gvar(plans, glyphs) matches Some(Ok(t)) ==> t.tag == GVAR && gvar_written(
            whole_lists(all_placed(plans, glyphs)),
            kept_axes(plans, plans.len() as int).len() as u16,
        ) == Ok::<Seq<u8>, Seq<char>>(t.bytes),
{
    reveal(new_gvar);
    lemma_kept_count(plans, plans.len() as int);
    let placed = all_placed(plans, glyphs);
    if forall|g: int| 0 <= g < glyphs.len() ==> placed_tuples(plans, #[trigger] glyphs[g]).len() == 0 {
        assert forall|g: int| 0 <= g < placed.len() implies (#[trigger] placed[g]).len() == 0 by {
            assert(placed[g] == placed_tuples(plans, glyphs[g]));
        }
    } else {
        let g = choose|g: int|
            0 <= g < glyphs.len() && placed_tuples(plans, #[trigger] glyphs[g]).len() != 0;
        assert(placed[g].len() > 0);
    }
}

} // verus!
