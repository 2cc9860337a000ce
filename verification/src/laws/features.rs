//! What resolving feature variations leaves of a `GSUB` or `GPOS` table.
use vstd::math::{max, min};
use vstd::prelude::*;
use write_fonts::tables::layout::Feature;

use crate::feature_vars::{
    conditions_of, distinct_features, folded, holds_at_default, is_new, is_sorted, judged,
    kept_conditions, resolved, span_for, spans_for, swapped, triple_for, verdict_on,
    LayoutCondition, LayoutView, RecordView, Span, Triple,
};
use crate::laws::restriction::a_surviving_axis_lands_in_its_slot;
use crate::partial::kept_axes;
use crate::stat::PlanView;

verus! {

/// Where an axis has its default in the new design space, in the coordinates of the old one:
/// where its plan puts it, and at zero where nobody restricted it.
pub open spec fn new_default(plans: Seq<PlanView>, triples: Seq<Triple>, axis: int) -> int {
    if 0 <= axis < plans.len() && axis < triples.len() && !(plans[axis].limit is Full) {
        triples[axis].default as int
    } else {
        0
    }
}

/// True when all conditions of a record hold at the new default. One that cannot be evaluated
/// is taken not to.
pub open spec fn holds(r: RecordView, plans: Seq<PlanView>, triples: Seq<Triple>) -> bool {
    forall|i: int|
        0 <= i < conditions_of(r).len() ==> match #[trigger] conditions_of(r)[i] {
            LayoutCondition::Range { axis, min, max } => min <= new_default(
                plans,
                triples,
                axis as int,
            ) && new_default(plans, triples, axis as int) <= max,
            LayoutCondition::Other(_) => false,
        }
}

/// True when a record has substitutions, and its conditions hold at the new default.
pub open spec fn takes_effect(r: RecordView, plans: Seq<PlanView>, triples: Seq<Triple>) -> bool {
    r.substitutions is Some && holds(r, plans, triples)
}

/// True when a record takes effect and none before it does.
pub open spec fn is_first_in_effect(
    l: LayoutView,
    plans: Seq<PlanView>,
    triples: Seq<Triple>,
    k: int,
) -> bool {
    &&& 0 <= k < l.records.len()
    &&& takes_effect(l.records[k], plans, triples)
    &&& forall|j: int| 0 <= j < k ==> !takes_effect(#[trigger] l.records[j], plans, triples)
}

/// The conditions that are left of record number `i`.
#[verifier::opaque]
pub open spec fn left_of(
    l: LayoutView,
    plans: Seq<PlanView>,
    triples: Seq<Triple>,
    spans: Seq<Seq<Span>>,
    i: int,
) -> Option<Seq<LayoutCondition>> {
    kept_conditions(verdict_on(l.records[i], plans, triples, spans_for(spans, i)))
}

/// True when a record is left without any condition, and so holds everywhere.
pub open spec fn is_universal(
    l: LayoutView,
    plans: Seq<PlanView>,
    triples: Seq<Triple>,
    spans: Seq<Seq<Span>>,
    i: int,
) -> bool {
    left_of(l, plans, triples, spans, i) matches Some(c) && c.len() == 0
}

/// True when `after` is the feature list `before` with substitutions made: each feature that is
/// substituted is the last alternate for it, and every other stays as it was.
pub open spec fn is_substituted(
    before: Seq<Feature>,
    subs: Seq<(u16, Feature)>,
    after: Seq<Feature>,
) -> bool {
    &&& after.len() == before.len()
    &&& forall|k: int|
        0 <= k < subs.len() && (#[trigger] subs[k]).0 < before.len() && (forall|j: int|
            k < j < subs.len() ==> (#[trigger] subs[j]).0 != subs[k].0)
            ==> after[subs[k].0 as int] == subs[k].1
    &&& forall|f: int|
        0 <= f < before.len() && (forall|k: int|
            0 <= k < subs.len() ==> (#[trigger] subs[k]).0 != f) ==> #[trigger] after[f]
            == before[f]
}

proof fn lemma_substituted_at(
    features: Seq<Feature>,
    subs: Seq<(u16, Feature)>,
    n: int,
    f: int,
)
    requires
        0 <= n <= subs.len(),
        0 <= f < features.len(),
    ensures
        ({
            let out = swapped(features, subs, n).0;
            &&& out.len() == features.len()
            &&& forall|k: int|
                0 <= k < n && (#[trigger] subs[k]).0 == f && (forall|j: int|
                    k < j < n ==> (#[trigger] subs[j]).0 != f) ==> out[f] == subs[k].1
            &&& (forall|k: int| 0 <= k < n ==> (#[trigger] subs[k]).0 != f) ==> out[f]
                == features[f]
        }),
    decreases n,
{
    if n > 0 {
        lemma_substituted_at(features, subs, n - 1, f);
        let before = swapped(features, subs, n - 1).0;
        let out = swapped(features, subs, n).0;
        let last = subs[n - 1];
        assert(last.0 != f ==> out[f] == before[f]);
        assert(last.0 == f ==> out[f] == last.1);
        assert forall|k: int|
            0 <= k < n && (#[trigger] subs[k]).0 == f && (forall|j: int|
                k < j < n ==> (#[trigger] subs[j]).0 != f) implies out[f] == subs[k].1 by {
            if k < n - 1 {
                assert(subs[n - 1].0 != f);
                assert(forall|j: int| k < j < n - 1 ==> (#[trigger] subs[j]).0 != f);
            }
        }
        if forall|k: int| 0 <= k < n ==> (#[trigger] subs[k]).0 != f {
            assert(subs[n - 1].0 != f);
        }
    }
}

proof fn lemma_swapped_len(features: Seq<Feature>, subs: Seq<(u16, Feature)>, n: int)
    ensures
        swapped(features, subs, n).0.len() == features.len(),
    decreases n,
{
    if n > 0 {
        lemma_swapped_len(features, subs, n - 1);
    }
}

proof fn lemma_substituted(features: Seq<Feature>, subs: Seq<(u16, Feature)>)
    ensures
        is_substituted(features, subs, swapped(features, subs, subs.len() as int).0),
{
    let n = subs.len() as int;
    let after = swapped(features, subs, n).0;
    lemma_swapped_len(features, subs, n);
    assert forall|k: int|
        0 <= k < subs.len() && (#[trigger] subs[k]).0 < features.len() && (forall|j: int|
            k < j < subs.len() ==> (#[trigger] subs[j]).0 != subs[k].0) implies after[subs[k].0 as int]
        == subs[k].1 by {
        lemma_substituted_at(features, subs, n, subs[k].0 as int);
    }
    assert forall|f: int|
        0 <= f < features.len() && (forall|k: int|
            0 <= k < subs.len() ==> (#[trigger] subs[k]).0 != f) implies #[trigger] after[f]
        == features[f] by {
        lemma_substituted_at(features, subs, n, f);
    }
}

proof fn lemma_holds(r: RecordView, plans: Seq<PlanView>, triples: Seq<Triple>, spans: Seq<Span>)
    requires
        forall|i: int| 0 <= i < triples.len() ==> is_sorted(#[trigger] triples[i]),
    ensures
        verdict_on(r, plans, triples, spans).applies <==> holds(r, plans, triples),
{
    crate::feature_vars::a_record_applies_where_its_conditions_hold(r, plans, triples, spans);
    let c = conditions_of(r);
    assert forall|i: int| 0 <= i < c.len() implies holds_at_default(
        #[trigger] c[i],
        plans,
        triples,
    ) == match c[i] {
        LayoutCondition::Range { axis, min, max } => min <= new_default(
            plans,
            triples,
            axis as int,
        ) && new_default(plans, triples, axis as int) <= max,
        LayoutCondition::Other(_) => false,
    } by {}
    if verdict_on(r, plans, triples, spans).applies {
        assert forall|i: int| 0 <= i < c.len() implies match #[trigger] c[i] {
            LayoutCondition::Range { axis, min, max } => min <= new_default(
                plans,
                triples,
                axis as int,
            ) && new_default(plans, triples, axis as int) <= max,
            LayoutCondition::Other(_) => false,
        } by {
            assert(holds_at_default(c[i], plans, triples));
        }
    }
    if holds(r, plans, triples) {
        assert forall|i: int| 0 <= i < c.len() implies #[trigger] holds_at_default(
            c[i],
            plans,
            triples,
        ) by {
            assert(match c[i] {
                LayoutCondition::Range { axis, min, max } => min <= new_default(
                    plans,
                    triples,
                    axis as int,
                ) && new_default(plans, triples, axis as int) <= max,
                LayoutCondition::Other(_) => false,
            });
        }
    }
}

/// How the features stand once the first `n` records were worked through.
proof fn lemma_folded_features(
    l: LayoutView,
    plans: Seq<PlanView>,
    triples: Seq<Triple>,
    spans: Seq<Seq<Span>>,
    n: int,
)
    requires
        0 <= n <= l.records.len(),
        forall|i: int| 0 <= i < triples.len() ==> is_sorted(#[trigger] triples[i]),
        forall|i: int| 0 <= i < n ==> !#[trigger] is_universal(l, plans, triples, spans, i),
    ensures
        ({
            let s = folded(l, plans, triples, spans, n);
            &&& !s.stopped
            &&& (forall|j: int|
                0 <= j < n ==> !takes_effect(#[trigger] l.records[j], plans, triples))
                ==> s.defaults is None && s.features == l.features
            &&& forall|k: int|
                #![trigger is_first_in_effect(l, plans, triples, k)]
                k < n && is_first_in_effect(l, plans, triples, k) ==> {
                    let subs = l.records[k].substitutions->0;
                    let (features, undo) = swapped(l.features, subs, subs.len() as int);
                    s.features == features && s.defaults == Some(undo)
                }
        }),
    decreases n,
{
    reveal(left_of);
    if n > 0 {
        lemma_folded_features(l, plans, triples, spans, n - 1);
        let s = folded(l, plans, triples, spans, n - 1);
        let after = folded(l, plans, triples, spans, n);
        let r = l.records[n - 1];
        let v = verdict_on(r, plans, triples, spans_for(spans, n - 1));
        lemma_holds(r, plans, triples, spans_for(spans, n - 1));
        assert(!is_universal(l, plans, triples, spans, n - 1));
        if forall|j: int| 0 <= j < n ==> !takes_effect(#[trigger] l.records[j], plans, triples) {
            assert(!takes_effect(l.records[n - 1], plans, triples));
        }
        assert forall|k: int|
            #![trigger is_first_in_effect(l, plans, triples, k)]
            k < n && is_first_in_effect(l, plans, triples, k) implies {
            let subs = l.records[k].substitutions->0;
            let (features, undo) = swapped(l.features, subs, subs.len() as int);
            after.features == features && after.defaults == Some(undo)
        } by {
            if k == n - 1 {
                assert(forall|j: int|
                    0 <= j < n - 1 ==> !takes_effect(#[trigger] l.records[j], plans, triples));
            }
        }
    }
}

/// The features of the output are those of the source with the substitutions of one record
/// made: of the first that has any and whose conditions all hold at the new default. Where
/// there is no such record they are the source's own.
///
/// A record that holds everywhere ends the table, and is left out here.
pub proof fn the_first_record_that_holds_is_made_permanent(
    l: LayoutView,
    plans: Seq<PlanView>,
    triples: Seq<Triple>,
    spans: Seq<Seq<Span>>,
)
    requires
        forall|i: int| 0 <= i < triples.len() ==> is_sorted(#[trigger] triples[i]),
        forall|i: int|
            0 <= i < l.records.len() ==> !#[trigger] is_universal(l, plans, triples, spans, i),
    ensures
        ({
            let features = resolved(l, plans, triples, spans).0;
            &&& forall|k: int| #[trigger]
                is_first_in_effect(l, plans, triples, k) ==> is_substituted(
                    l.features,
                    l.records[k].substitutions->0,
                    features,
                )
            &&& (forall|j: int|
                0 <= j < l.records.len() ==> !takes_effect(
                    #[trigger] l.records[j],
                    plans,
                    triples,
                )) ==> features == l.features
        }),
{
    lemma_folded_features(l, plans, triples, spans, l.records.len() as int);
    assert forall|k: int| #[trigger] is_first_in_effect(l, plans, triples, k) implies
        is_substituted(
        l.features,
        l.records[k].substitutions->0,
        resolved(l, plans, triples, spans).0,
    ) by {
        let subs = l.records[k].substitutions->0;
        lemma_substituted(l.features, subs);
    }
}

/// Where every axis is pinned, the features of the output are those of the source with the
/// substitutions made of the first record that has any and whose conditions all hold at the
/// pins, and the source's own where there is none. There are no records left.
pub proof fn a_static_font_has_the_features_of_its_location(
    l: LayoutView,
    plans: Seq<PlanView>,
    triples: Seq<Triple>,
    spans: Seq<Seq<Span>>,
)
    requires
        forall|i: int| 0 <= i < triples.len() ==> is_sorted(#[trigger] triples[i]),
        forall|i: int| 0 <= i < plans.len() ==> (#[trigger] plans[i]).limit is Pin,
    ensures
        ({
            let (features, records) = resolved(l, plans, triples, spans);
            &&& forall|k: int| #[trigger]
                is_first_in_effect(l, plans, triples, k) ==> is_substituted(
                    l.features,
                    l.records[k].substitutions->0,
                    features,
                )
            &&& (forall|j: int|
                0 <= j < l.records.len() ==> !takes_effect(
                    #[trigger] l.records[j],
                    plans,
                    triples,
                )) ==> features == l.features
            &&& records is None
        }),
{
    assert forall|i: int| 0 <= i < l.records.len() implies !#[trigger] is_universal(
        l,
        plans,
        triples,
        spans,
        i,
    ) by {
        reveal(left_of);
        let r = l.records[i];
        lemma_left_conditions(r, plans, triples, spans_for(spans, i), conditions_of(r).len() as int);
    }
    the_first_record_that_holds_is_made_permanent(l, plans, triples, spans);
    crate::feature_vars::pinning_every_axis_leaves_no_conditions(l, plans, triples, spans);
}

/// Where records are left beside one that was made permanent, the last of them holds
/// everywhere and puts the original features back.
pub proof fn elsewhere_the_original_features_come_back(
    l: LayoutView,
    plans: Seq<PlanView>,
    triples: Seq<Triple>,
    spans: Seq<Seq<Span>>,
    k: int,
)
    requires
        forall|i: int| 0 <= i < triples.len() ==> is_sorted(#[trigger] triples[i]),
        forall|i: int|
            0 <= i < l.records.len() ==> !#[trigger] is_universal(l, plans, triples, spans, i),
        is_first_in_effect(l, plans, triples, k),
        distinct_features(l.records[k].substitutions->0),
        resolved(l, plans, triples, spans).1 is Some,
    ensures
        ({
            let (features, records) = resolved(l, plans, triples, spans);
            let last = records->0.last();
            &&& conditions_of(last).len() == 0
            &&& last.substitutions is Some
            &&& forall|after: Seq<Feature>| #[trigger]
                is_substituted(features, last.substitutions->0, after) ==> after == l.features
        }),
{
    let n = l.records.len() as int;
    lemma_folded_features(l, plans, triples, spans, n);
    let s = folded(l, plans, triples, spans, n);
    let subs = l.records[k].substitutions->0;
    let (features, undo) = swapped(l.features, subs, subs.len() as int);
    let last = resolved(l, plans, triples, spans).1->0.last();
    assert(last.substitutions == Some(undo));
    lemma_undo(l.features, subs, subs.len() as int);
    assert forall|after: Seq<Feature>| #[trigger]
        is_substituted(features, undo, after) implies after == l.features by {
        assert forall|f: int| 0 <= f < after.len() implies after[f] == l.features[f] by {
            if exists|j: int| 0 <= j < subs.len() && (#[trigger] subs[j]).0 == f {
                let j = choose|j: int| 0 <= j < subs.len() && (#[trigger] subs[j]).0 == f;
                assert(undo[j].0 == subs[j].0);
                assert forall|i: int| j < i < undo.len() implies (#[trigger] undo[i]).0
                    != undo[j].0 by {
                    assert(undo[i].0 == subs[i].0);
                    assert(subs[j].0 != subs[i].0);
                }
                assert(after[undo[j].0 as int] == undo[j].1);
            } else {
                assert forall|i: int| 0 <= i < undo.len() implies (#[trigger] undo[i]).0 != f by {
                    assert(undo[i].0 == subs[i].0);
                }
                assert(after[f] == features[f]);
                lemma_substituted(l.features, subs);
                assert(features[f] == l.features[f]);
            }
        }
        assert(after =~= l.features);
    }
}

proof fn lemma_undo(features: Seq<Feature>, subs: Seq<(u16, Feature)>, n: int)
    requires
        0 <= n <= subs.len(),
        distinct_features(subs),
    ensures
        ({
            let (list, undo) = swapped(features, subs, n);
            &&& list.len() == features.len()
            &&& undo.len() == n
            &&& forall|k: int|
                0 <= k < n ==> (#[trigger] undo[k]).0 == subs[k].0 && (undo[k].0 < features.len()
                    ==> undo[k].1 == features[undo[k].0 as int])
        }),
    decreases n,
{
    if n > 0 {
        lemma_undo(features, subs, n - 1);
        let (list, undo) = swapped(features, subs, n - 1);
        let more = swapped(features, subs, n).1;
        assert forall|k: int| 0 <= k < n implies (#[trigger] more[k]).0 == subs[k].0 && (more[k].0
            < features.len() ==> more[k].1 == features[more[k].0 as int]) by {
            if k < n - 1 {
                assert(more[k] == undo[k]);
            } else if subs[k].0 < features.len() {
                lemma_substituted_at(features, subs, n - 1, subs[k].0 as int);
                assert forall|j: int| 0 <= j < n - 1 implies (#[trigger] subs[j]).0 != subs[k].0 by {
                    assert(subs[j].0 != subs[n - 1].0);
                }
                assert(list[subs[k].0 as int] == features[subs[k].0 as int]);
            }
        }
    }
}

// --------------------------------------------------------------------- what is left of a record

/// True for a condition on an axis that survives.
pub open spec fn is_on_surviving_axis(c: LayoutCondition, plans: Seq<PlanView>) -> bool {
    c matches LayoutCondition::Range { axis, .. } && axis < plans.len() && !(
    plans[axis as int].limit is Pin)
}

/// True when a condition can hold somewhere in the new design space. One that cannot be
/// evaluated is taken to.
pub open spec fn can_hold(c: LayoutCondition, plans: Seq<PlanView>, triples: Seq<Triple>) -> bool {
    match c {
        LayoutCondition::Range { axis, min, max } => {
            let t = triple_for(plans, triples, axis as int);
            &&& min <= t.max && t.min <= max
            &&& is_on_surviving_axis(c, plans) ==> min <= max
        },
        LayoutCondition::Other(_) => true,
    }
}

/// The range that is left for condition number `k` of a record.
pub open spec fn left_span(
    c: LayoutCondition,
    plans: Seq<PlanView>,
    triples: Seq<Triple>,
    spans: Seq<Span>,
    k: int,
) -> Span {
    let t = triple_for(plans, triples, c->axis as int);
    span_for(
        spans,
        k,
        crate::feature_vars::moved_into(c->min, t),
        crate::feature_vars::moved_into(c->max, t),
    )
}

/// True when `left` is what remains of condition number `k`: a range on a surviving axis is
/// renumbered to its slot and renormalized, and one that cannot be evaluated stays as it is.
pub open spec fn is_what_remains(
    left: LayoutCondition,
    c: LayoutCondition,
    plans: Seq<PlanView>,
    triples: Seq<Triple>,
    spans: Seq<Span>,
    k: int,
) -> bool {
    match c {
        LayoutCondition::Other(_) => left == c,
        LayoutCondition::Range { axis, .. } => {
            let s = left_span(c, plans, triples, spans, k);
            &&& is_on_surviving_axis(c, plans)
            &&& !s.is_whole
            &&& left is Range
            &&& left->min == s.low
            &&& left->max == s.high
            &&& kept_axes(plans, plans.len() as int)[left->axis as int] == axis
        },
    }
}

/// A record survives exactly where it has a condition on a surviving axis and each of its
/// conditions can hold somewhere. Its conditions are then what remains of those on surviving
/// axes, and of those that cannot be evaluated; conditions on pinned axes, and those that span
/// their whole axis, are gone.
pub proof fn what_is_left_of_a_record(
    r: RecordView,
    plans: Seq<PlanView>,
    triples: Seq<Triple>,
    spans: Seq<Span>,
)
    requires
        plans.len() <= 0x1_0000,
    ensures
        ({
            let c = conditions_of(r);
            let kept = kept_conditions(verdict_on(r, plans, triples, spans));
            &&& kept is Some <==> (forall|i: int|
                0 <= i < c.len() ==> can_hold(#[trigger] c[i], plans, triples)) && (exists|i: int|
                0 <= i < c.len() && is_on_surviving_axis(#[trigger] c[i], plans))
            &&& kept matches Some(list) ==> {
                &&& forall|j: int|
                    0 <= j < list.len() ==> remains_of_some(
                        #[trigger] list[j],
                        c,
                        plans,
                        triples,
                        spans,
                    )
                &&& forall|i: int|
                    0 <= i < c.len() && leaves_something(
                        #[trigger] c[i],
                        plans,
                        triples,
                        spans,
                        i,
                    ) ==> exists|j: int|
                        0 <= j < list.len() && is_what_remains(
                            #[trigger] list[j],
                            c[i],
                            plans,
                            triples,
                            spans,
                            i,
                        )
            }
        }),
{
    let c = conditions_of(r);
    lemma_left_conditions(r, plans, triples, spans, c.len() as int);
    lemma_left_list(c, plans, triples, spans, c.len() as int);
    if let Some(list) = kept_conditions(verdict_on(r, plans, triples, spans)) {
        assert(c.take(c.len() as int) =~= c);
    }
}

/// True when something remains of condition number `k`.
pub open spec fn leaves_something(
    c: LayoutCondition,
    plans: Seq<PlanView>,
    triples: Seq<Triple>,
    spans: Seq<Span>,
    k: int,
) -> bool {
    c is Other || (is_on_surviving_axis(c, plans) && !left_span(
        c,
        plans,
        triples,
        spans,
        k,
    ).is_whole)
}

/// True for what remains of one of some conditions.
pub open spec fn remains_of_some(
    left: LayoutCondition,
    c: Seq<LayoutCondition>,
    plans: Seq<PlanView>,
    triples: Seq<Triple>,
    spans: Seq<Span>,
) -> bool {
    exists|i: int|
        0 <= i < c.len() && is_what_remains(left, #[trigger] c[i], plans, triples, spans, i)
}

proof fn lemma_left_list(
    c: Seq<LayoutCondition>,
    plans: Seq<PlanView>,
    triples: Seq<Triple>,
    spans: Seq<Span>,
    n: int,
)
    requires
        0 <= n <= c.len(),
        plans.len() <= 0x1_0000,
    ensures
        judged(c, plans, triples, spans, n).conditions matches Some(list) ==> {
            &&& forall|j: int|
                0 <= j < list.len() ==> remains_of_some(
                    #[trigger] list[j],
                    c.take(n),
                    plans,
                    triples,
                    spans,
                )
            &&& forall|i: int|
                0 <= i < n && leaves_something(#[trigger] c[i], plans, triples, spans, i)
                    ==> exists|j: int|
                    0 <= j < list.len() && is_what_remains(
                        #[trigger] list[j],
                        c[i],
                        plans,
                        triples,
                        spans,
                        i,
                    )
        },
    decreases n,
{
    if n > 0 {
        lemma_left_list(c, plans, triples, spans, n - 1);
        let v = judged(c, plans, triples, spans, n);
        let before = judged(c, plans, triples, spans, n - 1);
        if let Some(list) = v.conditions {
            assert(before.conditions is Some);
            let fewer = before.conditions->0;
            let last = c[n - 1];
            let grows = leaves_something(last, plans, triples, spans, n - 1);
            if let LayoutCondition::Range { axis, min, max } = last {
                a_surviving_axis_lands_in_its_slot(plans, axis as int);
                crate::laws::restriction::lemma_kept_count(plans, plans.len() as int);
            }
            assert(!grows ==> list == fewer);
            assert(grows ==> list.len() == fewer.len() + 1 && list.drop_last() == fewer
                && is_what_remains(list.last(), last, plans, triples, spans, n - 1)) by {
                if grows {
                    assert(list.drop_last() =~= fewer);
                }
            }
            assert forall|j: int| 0 <= j < list.len() implies remains_of_some(
                #[trigger] list[j],
                c.take(n),
                plans,
                triples,
                spans,
            ) by {
                if j < fewer.len() {
                    assert(fewer[j] == list[j]);
                    assert(remains_of_some(fewer[j], c.take(n - 1), plans, triples, spans));
                    let i = choose|i: int|
                        0 <= i < c.take(n - 1).len() && is_what_remains(
                            fewer[j],
                            #[trigger] c.take(n - 1)[i],
                            plans,
                            triples,
                            spans,
                            i,
                        );
                    assert(c.take(n)[i] == c.take(n - 1)[i]);
                } else {
                    assert(c.take(n)[n - 1] == last);
                }
            }
            assert forall|i: int|
                0 <= i < n && leaves_something(
                    #[trigger] c[i],
                    plans,
                    triples,
                    spans,
                    i,
                ) implies exists|j: int|
                0 <= j < list.len() && is_what_remains(
                    #[trigger] list[j],
                    c[i],
                    plans,
                    triples,
                    spans,
                    i,
                ) by {
                if i < n - 1 {
                    let j = choose|j: int|
                        0 <= j < fewer.len() && is_what_remains(
                            #[trigger] fewer[j],
                            c[i],
                            plans,
                            triples,
                            spans,
                            i,
                        );
                    assert(list[j] == fewer[j]);
                } else {
                    assert(is_what_remains(
                        list[list.len() - 1],
                        c[i],
                        plans,
                        triples,
                        spans,
                        i,
                    ));
                }
            }
        }
    }
}

proof fn lemma_left_conditions(
    r: RecordView,
    plans: Seq<PlanView>,
    triples: Seq<Triple>,
    spans: Seq<Span>,
    n: int,
)
    requires
        0 <= n <= conditions_of(r).len(),
    ensures
        ({
            let c = conditions_of(r);
            let v = judged(c, plans, triples, spans, n);
            &&& v.conditions is Some <==> (forall|i: int|
                0 <= i < n ==> can_hold(#[trigger] c[i], plans, triples))
            &&& v.conditions is Some ==> (v.keeps <==> exists|i: int|
                0 <= i < n && is_on_surviving_axis(#[trigger] c[i], plans))
            &&& v.keeps ==> exists|i: int|
                0 <= i < n && is_on_surviving_axis(#[trigger] c[i], plans)
        }),
    decreases n,
{
    if n > 0 {
        lemma_left_conditions(r, plans, triples, spans, n - 1);
        let c = conditions_of(r);
        let before = judged(c, plans, triples, spans, n - 1);
        let v = judged(c, plans, triples, spans, n);
        let last = c[n - 1];
        assert(before.conditions is Some ==> (v.conditions is Some <==> can_hold(
            last,
            plans,
            triples,
        )));
        if is_on_surviving_axis(last, plans) {
            assert(0 <= n - 1 < n && is_on_surviving_axis(c[n - 1], plans));
        }
        if v.conditions is Some {
            assert forall|i: int| 0 <= i < n implies can_hold(
                #[trigger] c[i],
                plans,
                triples,
            ) by {
                if i == n - 1 {
                    assert(can_hold(last, plans, triples));
                }
            }
        } else if before.conditions is Some {
            assert(!can_hold(c[n - 1], plans, triples));
        }
    }
}

/// An axis that nobody restricted reaches from -1 over 0 to 1, in units of 1/16384, and so does
/// one that is unknown. Any other has the extent that was worked out for it.
pub proof fn a_restricted_axis_has_its_own_extent(
    plans: Seq<PlanView>,
    triples: Seq<Triple>,
    axis: int,
)
    ensures
        0 <= axis < plans.len() && axis < triples.len() && !(plans[axis].limit is Full)
            ==> triple_for(plans, triples, axis) == triples[axis],
        0 <= axis < plans.len() && plans[axis].limit is Full || axis >= plans.len() ==> {
            let t = triple_for(plans, triples, axis);
            t.min == -16384 && t.default == 0 && t.max == 16384
        },
{
}

/// What is handed over to be renormalized is, for each range, its axis and its two ends, cut to
/// what is left of the axis.
pub proof fn the_ends_of_a_range_are_cut_to_the_axis(
    l: LayoutView,
    plans: Seq<PlanView>,
    triples: Seq<Triple>,
    i: int,
    k: int,
)
    requires
        0 <= i < l.records.len(),
        0 <= k < conditions_of(l.records[i]).len(),
        forall|i: int| 0 <= i < triples.len() ==> is_sorted(#[trigger] triples[i]),
    ensures
        ({
            let ends = crate::feature_vars::layout_ends(l, plans, triples);
            &&& ends.len() == l.records.len()
            &&& ends[i].len() == conditions_of(l.records[i]).len()
            &&& match conditions_of(l.records[i])[k] {
                LayoutCondition::Range { axis, min: low, max: high } => {
                    let t = triple_for(plans, triples, axis as int);
                    ends[i][k] matches Some((a, from, to)) && a == axis && from == max(
                        t.min as int,
                        min(low as int, t.max as int),
                    ) && to == max(t.min as int, min(high as int, t.max as int))
                },
                LayoutCondition::Other(_) => ends[i][k] is None,
            }
        }),
{
    if let LayoutCondition::Range { axis, .. } = conditions_of(l.records[i])[k] {
        let t = triple_for(plans, triples, axis as int);
        assert(is_sorted(t));
    }
}

/// True when records that are left come from the first `n` of the source, in order: each with
/// the substitutions of the record that `from` names for it, and with the conditions that are
/// left of that one, as `left` says. Every record of which conditions are left is among them,
/// or an earlier one with the same.
pub open spec fn is_traced(
    out: Seq<RecordView>,
    from: Seq<int>,
    records: Seq<RecordView>,
    left: Seq<Option<Seq<LayoutCondition>>>,
    n: int,
) -> bool {
    &&& from.len() == out.len()
    &&& forall|k: int|
        0 <= k < out.len() ==> 0 <= #[trigger] from[k] < n && out[k].substitutions
            == records[from[k]].substitutions && left[from[k]] == Some(conditions_of(out[k]))
    &&& forall|j: int, k: int| 0 <= j < k < from.len() ==> #[trigger] from[j] < #[trigger] from[k]
    &&& forall|i: int|
        0 <= i < n && (#[trigger] left[i]) is Some ==> exists|k: int|
            0 <= k < out.len() && from[k] <= i && conditions_of(#[trigger] out[k]) == left[i]->0
}

#[verifier::rlimit(60)]
#[verifier::spinoff_prover]
proof fn lemma_traced(
    before: Seq<RecordView>,
    fewer: Seq<int>,
    out: Seq<RecordView>,
    records: Seq<RecordView>,
    left: Seq<Option<Seq<LayoutCondition>>>,
    n: int,
) -> (from: Seq<int>)
    requires
        0 < n <= records.len(),
        left.len() == records.len(),
        is_traced(before, fewer, records, left, n - 1),
        if left[n - 1] is Some && is_new(before, left[n - 1]->0) {
            &&& out.len() == before.len() + 1
            &&& out.drop_last() == before
            &&& out.last().substitutions == records[n - 1].substitutions
            &&& conditions_of(out.last()) == left[n - 1]->0
        } else {
            out == before
        },
    ensures
        is_traced(out, from, records, left, n),
{
    let grows = left[n - 1] is Some && is_new(before, left[n - 1]->0);
    let from = if grows {
        fewer.push(n - 1)
    } else {
        fewer
    };
    assert forall|k: int| 0 <= k < before.len() implies out[k] == #[trigger] before[k] && from[k]
        == fewer[k] by {
        if grows {
            assert(out.drop_last()[k] == out[k]);
        }
    }
    assert forall|k: int| 0 <= k < out.len() implies 0 <= #[trigger] from[k] < n
        && out[k].substitutions == records[from[k]].substitutions && left[from[k]] == Some(
        conditions_of(out[k]),
    ) by {
        if k < before.len() {
            assert(out[k] == before[k] && from[k] == fewer[k]);
        }
    }
    assert forall|j: int, k: int| 0 <= j < k < from.len() implies #[trigger] from[j]
        < #[trigger] from[k] by {
        assert(from[j] == fewer[j]);
        if k < fewer.len() {
            assert(fewer[j] < fewer[k]);
        }
    }
    assert forall|i: int| 0 <= i < n && (#[trigger] left[i]) is Some implies exists|k: int|
        0 <= k < out.len() && from[k] <= i && conditions_of(#[trigger] out[k]) == left[i]->0 by {
        if i < n - 1 {
            let k = choose|k: int|
                0 <= k < before.len() && fewer[k] <= i && conditions_of(#[trigger] before[k])
                    == left[i]->0;
            assert(out[k] == before[k] && from[k] == fewer[k]);
        } else if grows {
            assert(from[out.len() - 1] == i);
            assert(conditions_of(out[out.len() - 1]) == left[i]->0);
        } else {
            let k = choose|k: int|
                0 <= k < before.len() && conditions_of(#[trigger] before[k]) == left[i]->0;
            assert(out[k] == before[k]);
            assert(0 <= fewer[k] < n - 1);
        }
    }
    from
}

/// The records that are left come in the order of the source, each with the substitutions of
/// the record that it comes from and with what is left of that one's conditions. `from` says
/// where each comes from.
pub proof fn records_are_left_in_order(
    l: LayoutView,
    plans: Seq<PlanView>,
    triples: Seq<Triple>,
    spans: Seq<Seq<Span>>,
    n: int,
) -> (from: Seq<int>)
    requires
        0 <= n <= l.records.len(),
        forall|i: int| 0 <= i < n ==> !#[trigger] is_universal(l, plans, triples, spans, i),
    ensures
        !folded(l, plans, triples, spans, n).stopped,
        is_traced(
            folded(l, plans, triples, spans, n).records,
            from,
            l.records,
            all_left(l, plans, triples, spans),
            n,
        ),
    decreases n,
{
    if n == 0 {
        Seq::empty()
    } else {
        let fewer = records_are_left_in_order(l, plans, triples, spans, n - 1);
        assert(!is_universal(l, plans, triples, spans, n - 1));
        lemma_records_step(l, plans, triples, spans, n);
        lemma_traced(
            folded(l, plans, triples, spans, n - 1).records,
            fewer,
            folded(l, plans, triples, spans, n).records,
            l.records,
            all_left(l, plans, triples, spans),
            n,
        )
    }
}

/// The conditions that are left of each record.
pub open spec fn all_left(
    l: LayoutView,
    plans: Seq<PlanView>,
    triples: Seq<Triple>,
    spans: Seq<Seq<Span>>,
) -> Seq<Option<Seq<LayoutCondition>>> {
    Seq::new(l.records.len(), |i: int| left_of(l, plans, triples, spans, i))
}

proof fn lemma_records_step(
    l: LayoutView,
    plans: Seq<PlanView>,
    triples: Seq<Triple>,
    spans: Seq<Seq<Span>>,
    n: int,
)
    requires
        0 < n <= l.records.len(),
        !folded(l, plans, triples, spans, n - 1).stopped,
        !is_universal(l, plans, triples, spans, n - 1),
    ensures
        ({
            let before = folded(l, plans, triples, spans, n - 1).records;
            let after = folded(l, plans, triples, spans, n);
            let kept = left_of(l, plans, triples, spans, n - 1);
            &&& !after.stopped
            &&& if kept is Some && is_new(before, kept->0) {
                &&& after.records.len() == before.len() + 1
                &&& after.records.drop_last() == before
                &&& after.records.last().substitutions == l.records[n - 1].substitutions
                &&& conditions_of(after.records.last()) == kept->0
            } else {
                after.records == before
            }
        }),
{
    reveal(left_of);
    let before = folded(l, plans, triples, spans, n - 1).records;
    let after = folded(l, plans, triples, spans, n);
    let kept = left_of(l, plans, triples, spans, n - 1);
    if kept is Some && is_new(before, kept->0) {
        assert(after.records.drop_last() =~= before);
        assert(conditions_of(after.records.last()) =~= kept->0);
    }
}

/// The output has the records that are left, and the one that puts the original features back
/// behind them where some record was made permanent and any is left.
pub proof fn the_output_has_what_is_left(
    l: LayoutView,
    plans: Seq<PlanView>,
    triples: Seq<Triple>,
    spans: Seq<Seq<Span>>,
)
    requires
        forall|i: int| 0 <= i < triples.len() ==> is_sorted(#[trigger] triples[i]),
        forall|i: int|
            0 <= i < l.records.len() ==> !#[trigger] is_universal(l, plans, triples, spans, i),
    ensures
        ({
            let left = folded(l, plans, triples, spans, l.records.len() as int).records;
            let records = resolved(l, plans, triples, spans).1;
            &&& records is None <==> left.len() == 0
            &&& records matches Some(list) ==> list.take(left.len() as int) == left
            &&& records is Some && (exists|k: int| #[trigger]
                is_first_in_effect(l, plans, triples, k)) ==> records->0.len() == left.len() + 1
            &&& records is Some && (forall|j: int|
                0 <= j < l.records.len() ==> !takes_effect(
                    #[trigger] l.records[j],
                    plans,
                    triples,
                )) ==> records->0 == left
        }),
{
    let left = folded(l, plans, triples, spans, l.records.len() as int).records;
    lemma_folded_features(l, plans, triples, spans, l.records.len() as int);
    if let Some(list) = resolved(l, plans, triples, spans).1 {
        assert(list.take(left.len() as int) =~= left);
    }
}

// ------------------------------------------------------------------------ where a table ends

/// Nothing behind a record that holds everywhere can be reached: the table is resolved as if it
/// ended there.
pub proof fn nothing_behind_a_universal_record_is_reached(
    l: LayoutView,
    plans: Seq<PlanView>,
    triples: Seq<Triple>,
    spans: Seq<Seq<Span>>,
    u: int,
)
    requires
        0 <= u < l.records.len(),
        is_universal(l, plans, triples, spans, u),
        forall|i: int| 0 <= i < u ==> !#[trigger] is_universal(l, plans, triples, spans, i),
    ensures
        resolved(l, plans, triples, spans) == resolved(
            LayoutView { records: l.records.take(u + 1), ..l },
            plans,
            triples,
            spans,
        ),
{
    let n = l.records.len() as int;
    let cut = LayoutView { records: l.records.take(u + 1), ..l };
    lemma_same_front(l, cut, plans, triples, spans, u + 1);
    records_are_left_in_order(l, plans, triples, spans, u);
    reveal(left_of);
    assert(folded(l, plans, triples, spans, u + 1).stopped);
    lemma_stays_stopped(l, plans, triples, spans, u + 1, n);
}

proof fn lemma_same_front(
    a: LayoutView,
    b: LayoutView,
    plans: Seq<PlanView>,
    triples: Seq<Triple>,
    spans: Seq<Seq<Span>>,
    n: int,
)
    requires
        0 <= n <= a.records.len(),
        n <= b.records.len(),
        a.features == b.features,
        forall|i: int| 0 <= i < n ==> a.records[i] == #[trigger] b.records[i],
    ensures
        folded(a, plans, triples, spans, n) == folded(b, plans, triples, spans, n),
    decreases n,
{
    if n > 0 {
        lemma_same_front(a, b, plans, triples, spans, n - 1);
        assert(a.records[n - 1] == b.records[n - 1]);
    }
}

proof fn lemma_stays_stopped(
    l: LayoutView,
    plans: Seq<PlanView>,
    triples: Seq<Triple>,
    spans: Seq<Seq<Span>>,
    n: int,
    m: int,
)
    requires
        0 <= n <= m <= l.records.len(),
        folded(l, plans, triples, spans, n).stopped,
    ensures
        folded(l, plans, triples, spans, m) == folded(l, plans, triples, spans, n),
    decreases m,
{
    if n < m {
        lemma_stays_stopped(l, plans, triples, spans, n, m - 1);
    }
}

/// Where the last record of a table holds everywhere, the record that takes effect before it,
/// or it itself, is made permanent all the same; and it ends the output, so that nothing has
/// to put the original features back.
pub proof fn a_universal_record_ends_the_output(
    l: LayoutView,
    plans: Seq<PlanView>,
    triples: Seq<Triple>,
    spans: Seq<Seq<Span>>,
)
    requires
        l.records.len() > 0,
        forall|i: int| 0 <= i < triples.len() ==> is_sorted(#[trigger] triples[i]),
        is_universal(l, plans, triples, spans, l.records.len() - 1),
        forall|i: int|
            0 <= i < l.records.len() - 1 ==> !#[trigger] is_universal(l, plans, triples, spans, i),
    ensures
        ({
            let n = l.records.len() as int;
            let (features, records) = resolved(l, plans, triples, spans);
            &&& forall|k: int| #[trigger]
                is_first_in_effect(l, plans, triples, k) ==> is_substituted(
                    l.features,
                    l.records[k].substitutions->0,
                    features,
                )
            &&& (forall|j: int|
                0 <= j < n ==> !takes_effect(#[trigger] l.records[j], plans, triples)) ==> features
                == l.features
            &&& records matches Some(list) && list.len() > 0 && conditions_of(list.last()).len() == 0
                && list.last().substitutions == l.records[n - 1].substitutions
        }),
{
    let n = l.records.len() as int;
    lemma_folded_features(l, plans, triples, spans, n - 1);
    let from = records_are_left_in_order(l, plans, triples, spans, n - 1);
    lemma_universal_step(l, plans, triples, spans, from);
    assert forall|k: int| #[trigger] is_first_in_effect(l, plans, triples, k) implies
        is_substituted(
        l.features,
        l.records[k].substitutions->0,
        resolved(l, plans, triples, spans).0,
    ) by {
        let subs = l.records[k].substitutions->0;
        lemma_substituted(l.features, subs);
        if k == n - 1 {
            assert(forall|j: int|
                0 <= j < n - 1 ==> !takes_effect(#[trigger] l.records[j], plans, triples));
        }
    }
    if forall|j: int| 0 <= j < n ==> !takes_effect(#[trigger] l.records[j], plans, triples) {
        assert(!takes_effect(l.records[n - 1], plans, triples));
    }
}

proof fn lemma_universal_step(
    l: LayoutView,
    plans: Seq<PlanView>,
    triples: Seq<Triple>,
    spans: Seq<Seq<Span>>,
    from: Seq<int>,
)
    requires
        l.records.len() > 0,
        forall|i: int| 0 <= i < triples.len() ==> is_sorted(#[trigger] triples[i]),
        is_universal(l, plans, triples, spans, l.records.len() - 1),
        forall|i: int|
            0 <= i < l.records.len() - 1 ==> !#[trigger] is_universal(l, plans, triples, spans, i),
        !folded(l, plans, triples, spans, l.records.len() - 1).stopped,
        is_traced(
            folded(l, plans, triples, spans, l.records.len() - 1).records,
            from,
            l.records,
            all_left(l, plans, triples, spans),
            l.records.len() - 1,
        ),
    ensures
        ({
            let n = l.records.len() as int;
            let r = l.records[n - 1];
            let before = folded(l, plans, triples, spans, n - 1);
            let after = folded(l, plans, triples, spans, n);
            &&& after.stopped
            &&& after.records.len() == before.records.len() + 1
            &&& conditions_of(after.records.last()).len() == 0
            &&& after.records.last().substitutions == r.substitutions
            &&& before.defaults is Some || !takes_effect(r, plans, triples) ==> after.features
                == before.features
            &&& before.defaults is None && takes_effect(r, plans, triples) ==> after.features
                == swapped(before.features, r.substitutions->0, r.substitutions->0.len() as int).0
        }),
{
    let n = l.records.len() as int;
    let r = l.records[n - 1];
    let before = folded(l, plans, triples, spans, n - 1);
    let left = left_of(l, plans, triples, spans, n - 1)->0;
    assert(is_new(before.records, left)) by {
        assert forall|k: int| 0 <= k < before.records.len() implies conditions_of(
            #[trigger] before.records[k],
        ) != left by {
            let i = from[k];
            assert(all_left(l, plans, triples, spans)[i] == Some(conditions_of(before.records[k])));
            assert(!is_universal(l, plans, triples, spans, i));
        }
    }
    lemma_holds(r, plans, triples, spans_for(spans, n - 1));
    reveal(left_of);
}

} // verus!
