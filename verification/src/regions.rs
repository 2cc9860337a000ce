//! The regions of an ItemVariationStore, and how they come to stand in the store of a
//! restricted font.
//!
//! CFF2's blends and an `HVAR` delta set are the same idea as `gvar`'s tuple variations: a
//! set of regions, and a delta per region. Moving one region onto a narrower axis is a
//! matter of floating-point arithmetic and is done by the caller. What is here is which
//! regions there are, and which column of the new store each of the pieces ends up in.
//!
//! Coordinates are in units of 1/16384, the precision at which they are written: two regions
//! that differ only below it are the same region on disk.
use read_fonts::tables::variations::{ItemVariationStore, RegionAxisCoordinates};
use read_fonts::{FontData, FontRead};
use vstd::prelude::*;

use crate::partial::{
    kept_axes, kept_count, output_slot, slot_of, surviving_axes_keep_their_order, AxisTent,
};
use crate::stat::{plan_views, AxisPlan, PlanView};

verus! {

// ---------------------------------------------------------------------- reading a store

/// The regions of an ItemVariationStore, each as start, peak and end per axis, or why they
/// cannot be read. A region that cannot be read has no axes.
pub uninterp spec fn store_regions(store: Seq<u8>) -> Result<Seq<Seq<(i16, i16, i16)>>, Seq<char>>;

pub open spec fn region_views(regions: Seq<Vec<(i16, i16, i16)>>) -> Seq<Seq<(i16, i16, i16)>> {
    regions.map_values(|r: Vec<(i16, i16, i16)>| r@)
}

/// Calls `read_fonts::tables::variations::ItemVariationStore::read` and
/// `ItemVariationStore::variation_region_list`. The regions have a name.
#[verifier::external_body]
pub(crate) fn read_store_regions(store: &[u8]) -> (r: Result<Vec<Vec<(i16, i16, i16)>>, String>)
    ensures
        match r {
            Ok(regions) => store_regions(store@) == Ok::<Seq<Seq<(i16, i16, i16)>>, Seq<char>>(
                region_views(regions@),
            ),
            Err(text) => store_regions(store@) == Err::<Seq<Seq<(i16, i16, i16)>>, Seq<char>>(
                text@,
            ),
        },
{
    let store = ItemVariationStore::read(FontData::new(store)).map_err(|e| e.to_string())?;
    let list = store.variation_region_list().map_err(|e| e.to_string())?;
    let tent = |c: &RegionAxisCoordinates| {
        (c.start_coord().to_bits(), c.peak_coord().to_bits(), c.end_coord().to_bits())
    };
    let regions = list.variation_regions();
    let axes = |r: read_fonts::tables::variations::VariationRegion| {
        r.region_axes().iter().map(tent).collect()
    };
    Ok(regions.iter().map(|r| r.map(axes).unwrap_or_default()).collect())
}

/// One subtable of an ItemVariationStore: the regions its deltas are for, by index, and a
/// row of deltas per item.
#[derive(Debug)]
pub struct StoreData {
    pub region_indexes: Vec<u16>,
    pub rows: Vec<Vec<i32>>,
}

/// What a [`StoreData`] holds.
#[verifier::ext_equal]
pub struct StoreDataView {
    pub region_indexes: Seq<u16>,
    pub rows: Seq<Seq<i32>>,
}

pub open spec fn row_views(rows: Seq<Vec<i32>>) -> Seq<Seq<i32>> {
    rows.map_values(|r: Vec<i32>| r@)
}

impl View for StoreData {
    type V = StoreDataView;

    open spec fn view(&self) -> StoreDataView {
        StoreDataView { region_indexes: self.region_indexes@, rows: row_views(self.rows@) }
    }
}

pub open spec fn data_views(data: Seq<Option<StoreData>>) -> Seq<Option<StoreDataView>> {
    data.map_values(
        |d: Option<StoreData>|
            match d {
                Some(d) => Some(d@),
                None => None,
            },
    )
}

/// The subtables of an ItemVariationStore. One that is missing or cannot be read still
/// counts, since the others are addressed by their place.
pub uninterp spec fn store_data(store: Seq<u8>) -> Seq<Option<StoreDataView>>;

/// Calls `read_fonts::tables::variations::ItemVariationStore::item_variation_data`,
/// `ItemVariationData::region_indexes` and `ItemVariationData::delta_set`. What they give
/// has a name; there are no subtables where the store cannot be read.
#[verifier::external_body]
pub(crate) fn read_store_data(store: &[u8]) -> (r: Vec<Option<StoreData>>)
    ensures
        data_views(r@) == store_data(store@),
{
    let Ok(store) = ItemVariationStore::read(FontData::new(store)) else { return Vec::new() };
    store.item_variation_data().iter().map(|data| {
        let data = data?.ok()?;
        let rows = (0..data.item_count()).map(|item| data.delta_set(item).collect()).collect();
        let region_indexes = data.region_indexes().iter().map(|i| i.get()).collect();
        Some(StoreData { region_indexes, rows })
    }).collect()
}

/// The axes that the first `n` axes of a region actually depend on. A peak of zero means
/// that the axis does not participate, which is not the same as a tent of three zeros.
pub open spec fn participating(region: Seq<(i16, i16, i16)>, n: int) -> Seq<AxisTent>
    decreases n,
{
    if n <= 0 {
        Seq::empty()
    } else {
        let before = participating(region, n - 1);
        let (start, peak, end) = region[n - 1];
        if peak == 0 {
            before
        } else {
            before.push(AxisTent { axis: (n - 1) as usize, start, peak, end })
        }
    }
}

pub open spec fn tents_of(region: Seq<(i16, i16, i16)>) -> Seq<AxisTent> {
    participating(region, region.len() as int)
}

fn find_tents(region: &Vec<(i16, i16, i16)>) -> (out: Vec<AxisTent>)
    ensures
        out@ == tents_of(region@),
{
    let mut out: Vec<AxisTent> = Vec::new();
    for axis in 0..region.len()
        invariant
            out@ == participating(region@, axis as int),
    {
        let (start, peak, end) = region[axis];
        if peak != 0 {
            out.push(AxisTent { axis, start, peak, end });
        }
    }
    out
}

pub open spec fn tent_lists(regions: Seq<Vec<AxisTent>>) -> Seq<Seq<AxisTent>> {
    regions.map_values(|r: Vec<AxisTent>| r@)
}

/// The regions that a subtable refers to, in its order. One that does not exist depends on
/// no axis.
pub open spec fn referred(regions: Seq<Seq<(i16, i16, i16)>>, indexes: Seq<u16>) -> Seq<
    Seq<AxisTent>,
> {
    indexes.map_values(
        |i: u16|
            if i < regions.len() {
                tents_of(regions[i as int])
            } else {
                Seq::empty()
            },
    )
}

/// The regions that a subtable refers to, in the order in which its deltas are stored.
pub fn referred_regions(regions: &Vec<Vec<(i16, i16, i16)>>, indexes: &Vec<u16>) -> (out: Vec<
    Vec<AxisTent>,
>)
    ensures
        tent_lists(out@) == referred(region_views(regions@), indexes@),
{
    let ghost wanted = referred(region_views(regions@), indexes@);
    let mut out: Vec<Vec<AxisTent>> = Vec::new();
    assert(tent_lists(out@) =~= wanted.take(0));
    for k in 0..indexes.len()
        invariant
            wanted == referred(region_views(regions@), indexes@),
            tent_lists(out@) == wanted.take(k as int),
    {
        let i: usize = indexes[k] as usize;
        let tents: Vec<AxisTent> = if i < regions.len() {
            assert(region_views(regions@)[i as int] == regions@[i as int]@);
            find_tents(&regions[i])
        } else {
            Vec::new()
        };
        let ghost before = tent_lists(out@);
        let ghost added = tents@;
        assert(added =~= wanted[k as int]);
        out.push(tents);
        assert(tent_lists(out@) =~= before.push(added));
        assert(wanted.take(k + 1) =~= before.push(added));
    }
    assert(tent_lists(out@) =~= wanted);
    out
}

// -------------------------------------------------------------------- collecting regions

/// Where a region first stands in a list; the length of the list where it does not.
pub open spec fn position(regions: Seq<Seq<(i16, i16, i16)>>, region: Seq<(i16, i16, i16)>) -> int
    decreases regions.len(),
{
    if regions.len() == 0 {
        0
    } else if regions[0] == region {
        0
    } else {
        1 + position(regions.skip(1), region)
    }
}

proof fn lemma_position(
    regions: Seq<Seq<(i16, i16, i16)>>,
    region: Seq<(i16, i16, i16)>,
    i: int,
)
    requires
        0 <= i <= regions.len(),
        forall|k: int| 0 <= k < i ==> #[trigger] regions[k] != region,
        i < regions.len() ==> regions[i] == region,
    ensures
        position(regions, region) == i,
    decreases regions.len(),
{
    if i > 0 {
        let rest = regions.skip(1);
        assert(regions[0] != region);
        assert forall|k: int| 0 <= k < i - 1 implies #[trigger] rest[k] != region by {
            assert(rest[k] == regions[k + 1]);
        }
        lemma_position(rest, region, i - 1);
    }
}

pub proof fn lemma_position_bounds(regions: Seq<Seq<(i16, i16, i16)>>, region: Seq<(i16, i16, i16)>)
    ensures
        0 <= position(regions, region) <= regions.len(),
        position(regions, region) < regions.len() ==> regions[position(regions, region)] == region,
    decreases regions.len(),
{
    if regions.len() > 0 && regions[0] != region {
        lemma_position_bounds(regions.skip(1), region);
    }
}

/// The list after a region was looked up in it: it is added unless it is there.
pub open spec fn interned(regions: Seq<Seq<(i16, i16, i16)>>, region: Seq<(i16, i16, i16)>) -> Seq<
    Seq<(i16, i16, i16)>,
> {
    if position(regions, region) < regions.len() {
        regions
    } else {
        regions.push(region)
    }
}

/// The region list an output ItemVariationStore needs, built by interning regions.
///
/// Each subtable comes with its own list of regions, but the store has one shared list that
/// the subtables index into. Interning is what merges them.
#[derive(Debug)]
pub struct RegionList {
    regions: Vec<Vec<(i16, i16, i16)>>,
}

impl View for RegionList {
    type V = Seq<Seq<(i16, i16, i16)>>;

    closed spec fn view(&self) -> Seq<Seq<(i16, i16, i16)>> {
        region_views(self.regions@)
    }
}

impl Default for RegionList {
    fn default() -> (r: RegionList)
        ensures
            r@ == Seq::<Seq<(i16, i16, i16)>>::empty(),
    {
        let r: RegionList = RegionList { regions: Vec::new() };
        assert(r@ =~= Seq::<Seq<(i16, i16, i16)>>::empty());
        r
    }
}

fn same_region(a: &Vec<(i16, i16, i16)>, b: &Vec<(i16, i16, i16)>) -> (r: bool)
    ensures
        r == (a@ == b@),
{
    if a.len() != b.len() {
        return false;
    }
    for i in 0..a.len()
        invariant
            a@.len() == b@.len(),
            forall|k: int| 0 <= k < i ==> a@[k] == b@[k],
    {
        if a[i].0 != b[i].0 || a[i].1 != b[i].1 || a[i].2 != b[i].2 {
            assert(a@[i as int] != b@[i as int]);
            return false;
        }
    }
    assert(a@ =~= b@);
    true
}

fn copy_region(region: &Vec<(i16, i16, i16)>) -> (out: Vec<(i16, i16, i16)>)
    ensures
        out@ == region@,
{
    let mut out: Vec<(i16, i16, i16)> = Vec::new();
    for i in 0..region.len()
        invariant
            out@ == region@.take(i as int),
    {
        out.push(region[i]);
        assert(out@ =~= region@.take(i + 1));
    }
    assert(out@ =~= region@);
    out
}

impl RegionList {
    /// Where `region` stands in the list, adding it if it is not already there.
    fn place(&mut self, region: &Vec<(i16, i16, i16)>) -> (at: usize)
        ensures
            at == position(old(self)@, region@),
            at < final(self)@.len(),
            final(self)@[at as int] == region@,
            final(self)@ == interned(old(self)@, region@),
    {
        let ghost before = self@;
        for i in 0..self.regions.len()
            invariant
                before == self@,
                forall|k: int| 0 <= k < i ==> #[trigger] before[k] != region@,
        {
            assert(before[i as int] == self.regions@[i as int]@);
            if same_region(&self.regions[i], region) {
                proof {
                    lemma_position(before, region@, i as int);
                }
                return i;
            }
        }
        let at: usize = self.regions.len();
        proof {
            lemma_position(before, region@, before.len() as int);
        }
        self.regions.push(copy_region(region));
        assert(self@ =~= before.push(region@));
        at
    }

    /// The index of `region` in the list, adding it if it is not already there. An index has
    /// sixteen bits.
    pub fn intern(&mut self, region: &Vec<(i16, i16, i16)>) -> (index: u16)
        ensures
            index == position(old(self)@, region@) % 0x1_0000,
            final(self)@ == interned(old(self)@, region@),
    {
        (self.place(region) % 0x1_0000) as u16
    }

    pub fn is_empty(&self) -> (r: bool)
        ensures
            r == (self@.len() == 0),
    {
        self.regions.len() == 0
    }

    /// The regions, in the order in which they were added.
    pub fn regions(&self) -> (r: &Vec<Vec<(i16, i16, i16)>>)
        ensures
            region_views(r@) == self@,
    {
        &self.regions
    }
}

pub open spec fn all_distinct(regions: Seq<Seq<(i16, i16, i16)>>) -> bool {
    forall|i: int, j: int| 0 <= i < j < regions.len() ==> regions[i] != regions[j]
}

/// A list never holds a region twice, whatever is interned in it, and what was interned
/// stands at the index that was given for it.
pub proof fn interning_merges_equal_regions(
    regions: Seq<Seq<(i16, i16, i16)>>,
    region: Seq<(i16, i16, i16)>,
)
    requires
        all_distinct(regions),
    ensures
        all_distinct(interned(regions, region)),
        interned(regions, region)[position(regions, region)] == region,
        forall|i: int| 0 <= i < regions.len() ==> interned(regions, region)[i] == regions[i],
        position(interned(regions, region), region) == position(regions, region),
{
    lemma_position_bounds(regions, region);
    let after = interned(regions, region);
    let at = position(regions, region);
    if at == regions.len() {
        lemma_absent(regions, region);
        assert forall|i: int, j: int| 0 <= i < j < after.len() implies after[i] != after[j] by {
            if j == regions.len() {
                assert(regions[i] != region);
            }
        }
        lemma_position(after, region, at);
    }
}

proof fn lemma_absent(regions: Seq<Seq<(i16, i16, i16)>>, region: Seq<(i16, i16, i16)>)
    requires
        position(regions, region) == regions.len(),
    ensures
        forall|k: int| 0 <= k < regions.len() ==> #[trigger] regions[k] != region,
    decreases regions.len(),
{
    if regions.len() > 0 {
        let rest = regions.skip(1);
        lemma_position_bounds(rest, region);
        lemma_absent(rest, region);
        assert forall|k: int| 0 <= k < regions.len() implies #[trigger] regions[k] != region by {
            if k > 0 {
                assert(rest[k - 1] == regions[k]);
            }
        }
    }
}

/// The list after the first `n` of some regions were interned, starting from none.
pub open spec fn after_calls(calls: Seq<Seq<(i16, i16, i16)>>, n: int) -> Seq<
    Seq<(i16, i16, i16)>,
>
    decreases n,
{
    if n <= 0 {
        Seq::empty()
    } else {
        interned(after_calls(calls, n - 1), calls[n - 1])
    }
}

/// The index that interning number `i` of these regions gives.
pub open spec fn call_index(calls: Seq<Seq<(i16, i16, i16)>>, i: int) -> u16 {
    (position(after_calls(calls, i), calls[i]) % 0x1_0000) as u16
}

proof fn lemma_calls(calls: Seq<Seq<(i16, i16, i16)>>, n: int)
    requires
        0 <= n <= calls.len(),
    ensures
        all_distinct(after_calls(calls, n)),
        forall|j: int|
            0 <= j < n ==> {
                let at = #[trigger] position(after_calls(calls, j), calls[j]);
                0 <= at < after_calls(calls, n).len() && after_calls(calls, n)[at] == calls[j]
            },
        forall|r: Seq<(i16, i16, i16)>| #[trigger]
            after_calls(calls, n).contains(r) <==> calls.take(n).contains(r),
    decreases n,
{
    let after = after_calls(calls, n);
    if n > 0 {
        lemma_calls(calls, n - 1);
        let before = after_calls(calls, n - 1);
        let last = calls[n - 1];
        interning_merges_equal_regions(before, last);
        lemma_position_bounds(before, last);
        assert forall|j: int| 0 <= j < n implies {
            let at = #[trigger] position(after_calls(calls, j), calls[j]);
            0 <= at < after.len() && after[at] == calls[j]
        } by {
            if j < n - 1 {
                let at = position(after_calls(calls, j), calls[j]);
                assert(before[at] == calls[j]);
                assert(after[at] == before[at]);
            }
        }
        let earlier = calls.take(n - 1);
        let all = calls.take(n);
        assert(all =~= earlier.push(last));
        assert forall|r: Seq<(i16, i16, i16)>| #[trigger]
            after.contains(r) <==> all.contains(r) by {
            if after.contains(r) {
                let k = choose|k: int| 0 <= k < after.len() && after[k] == r;
                if k < before.len() {
                    assert(before[k] == r);
                    assert(before.contains(r));
                    let i = choose|i: int| 0 <= i < earlier.len() && earlier[i] == r;
                    assert(all[i] == r);
                } else {
                    assert(all[n - 1] == r);
                }
            }
            if all.contains(r) {
                let i = choose|i: int| 0 <= i < n && all[i] == r;
                if i < n - 1 {
                    assert(earlier[i] == r);
                    assert(before.contains(r));
                    let k = choose|k: int| 0 <= k < before.len() && before[k] == r;
                    assert(after[k] == r);
                } else {
                    assert(after[position(before, last)] == r);
                }
            }
        }
    } else {
        assert(calls.take(0) =~= Seq::<Seq<(i16, i16, i16)>>::empty());
    }
}

/// Over any sequence of calls, starting from an empty list, equal regions share an index and
/// different ones do not. A region that is new gets the number of those before it, and is
/// added behind them; one that is there already leaves the list unchanged.
pub proof fn equal_regions_share_an_index(calls: Seq<Seq<(i16, i16, i16)>>, i: int, j: int)
    requires
        0 <= i < calls.len(),
        0 <= j < calls.len(),
        after_calls(calls, calls.len() as int).len() <= 0x1_0000,
    ensures
        call_index(calls, i) == call_index(calls, j) <==> calls[i] == calls[j],
        if calls.take(i).contains(calls[i]) {
            after_calls(calls, i + 1) == after_calls(calls, i)
        } else {
            &&& call_index(calls, i) == after_calls(calls, i).len()
            &&& after_calls(calls, i + 1) == after_calls(calls, i).push(calls[i])
        },
        all_distinct(after_calls(calls, i)),
        forall|r: Seq<(i16, i16, i16)>| #[trigger]
            after_calls(calls, i).contains(r) <==> calls.take(i).contains(r),
{
    let n = calls.len() as int;
    let all = after_calls(calls, n);
    lemma_calls(calls, n);
    lemma_calls(calls, i);
    let a = position(after_calls(calls, i), calls[i]);
    let b = position(after_calls(calls, j), calls[j]);
    assert(0 <= a < all.len() && all[a] == calls[i]);
    assert(0 <= b < all.len() && all[b] == calls[j]);
    assert(call_index(calls, i) == a && call_index(calls, j) == b);
    let before = after_calls(calls, i);
    lemma_position_bounds(before, calls[i]);
    if before.contains(calls[i]) {
        if a == before.len() {
            lemma_absent(before, calls[i]);
        }
    } else if a < before.len() {
        interning_merges_equal_regions(before, calls[i]);
        assert(before[a] == calls[i]);
    }
}

// ---------------------------------------------------------------------- placing regions

/// What becomes of the share of an old region that one piece of it carries.
#[derive(Clone, Copy, Debug, PartialEq, Eq, Structural)]
pub enum Share {
    /// It no longer depends on any axis, and applies unconditionally.
    Gain,
    /// It depends on an axis that is gone: the font's regions disagree with its own `fvar`.
    Lost,
    /// It lands on this new region.
    Column(usize),
}

/// The first `n` tents of a region over the surviving axes. Nothing where one is on an axis
/// that does not survive.
pub open spec fn dense_upto(plans: Seq<PlanView>, tents: Seq<AxisTent>, n: int) -> Option<
    Seq<(i16, i16, i16)>,
>
    decreases n,
{
    if n <= 0 {
        Some(Seq::new(kept_axes(plans, plans.len() as int).len(), |i: int| (0i16, 0i16, 0i16)))
    } else {
        let t = tents[n - 1];
        match (dense_upto(plans, tents, n - 1), output_slot(plans, t.axis as int)) {
            (Some(before), Some(slot)) => Some(before.update(slot, (t.start, t.peak, t.end))),
            _ => None,
        }
    }
}

pub open spec fn dense_region(plans: Seq<PlanView>, tents: Seq<AxisTent>) -> Option<
    Seq<(i16, i16, i16)>,
> {
    dense_upto(plans, tents, tents.len() as int)
}

proof fn lemma_dense_fails(plans: Seq<PlanView>, tents: Seq<AxisTent>, n: int, m: int)
    requires
        0 <= n <= m,
        dense_upto(plans, tents, n) is None,
    ensures
        dense_upto(plans, tents, m) is None,
    decreases m,
{
    if n < m {
        lemma_dense_fails(plans, tents, n, m - 1);
    }
}

fn make_dense(plans: &Vec<AxisPlan>, tents: &Vec<AxisTent>) -> (r: Option<Vec<(i16, i16, i16)>>)
    ensures
        match r {
            Some(region) => dense_region(plan_views(plans@), tents@) == Some(region@),
            None => dense_region(plan_views(plans@), tents@) is None,
        },
{
    let ghost views = plan_views(plans@);
    let count: usize = kept_count(plans);
    let mut region: Vec<(i16, i16, i16)> = Vec::new();
    for i in 0..count
        invariant
            region@.len() == i,
            forall|k: int| 0 <= k < i ==> region@[k] == (0i16, 0i16, 0i16),
    {
        region.push((0, 0, 0));
    }
    assert(region@ =~= dense_upto(views, tents@, 0)->0);
    for i in 0..tents.len()
        invariant
            views == plan_views(plans@),
            count == kept_axes(views, views.len() as int).len(),
            region@.len() == count,
            dense_upto(views, tents@, i as int) == Some(region@),
    {
        let t: AxisTent = tents[i];
        match slot_of(plans, t.axis) {
            Some(slot) => {
                proof {
                    surviving_axes_keep_their_order(views, t.axis as int);
                }
                region.set(slot, (t.start, t.peak, t.end));
            },
            None => {
                proof {
                    lemma_dense_fails(views, tents@, i + 1, tents@.len() as int);
                }
                return None;
            },
        }
    }
    Some(region)
}

/// The new regions after the first `n` pieces have been placed.
pub open spec fn placed_regions(plans: Seq<PlanView>, pieces: Seq<Seq<AxisTent>>, n: int) -> Seq<
    Seq<(i16, i16, i16)>,
>
    decreases n,
{
    if n <= 0 {
        Seq::empty()
    } else {
        let before = placed_regions(plans, pieces, n - 1);
        if pieces[n - 1].len() == 0 {
            before
        } else {
            match dense_region(plans, pieces[n - 1]) {
                Some(region) => interned(before, region),
                None => before,
            }
        }
    }
}

/// What becomes of piece number `i`.
pub open spec fn share_of(plans: Seq<PlanView>, pieces: Seq<Seq<AxisTent>>, i: int) -> Share {
    if pieces[i].len() == 0 {
        Share::Gain
    } else {
        match dense_region(plans, pieces[i]) {
            Some(region) => Share::Column(
                position(placed_regions(plans, pieces, i), region) as usize,
            ),
            None => Share::Lost,
        }
    }
}

pub open spec fn shares_of(plans: Seq<PlanView>, pieces: Seq<Seq<AxisTent>>, n: int) -> Seq<Share> {
    Seq::new(n as nat, |i: int| share_of(plans, pieces, i))
}

/// Place the pieces that the regions of a subtable fall into when the design space is
/// narrowed: the new regions, and what becomes of each piece's share. A piece that
/// contributes nothing is not among them.
pub fn restricted_remap(plans: &Vec<AxisPlan>, pieces: &Vec<Vec<AxisTent>>) -> (r: (
    RegionList,
    Vec<Share>,
))
    ensures
        r.0@ == placed_regions(
            plan_views(plans@),
            tent_lists(pieces@),
            pieces@.len() as int,
        ),
        r.1@ == shares_of(plan_views(plans@), tent_lists(pieces@), pieces@.len() as int),
{
    let ghost views = plan_views(plans@);
    let ghost lists = tent_lists(pieces@);
    let mut list: RegionList = RegionList::default();
    let mut shares: Vec<Share> = Vec::new();
    assert(shares@ =~= shares_of(views, lists, 0));
    for i in 0..pieces.len()
        invariant
            views == plan_views(plans@),
            lists == tent_lists(pieces@),
            list@ == placed_regions(views, lists, i as int),
            shares@ == shares_of(views, lists, i as int),
    {
        assert(lists[i as int] == pieces@[i as int]@);
        let share: Share = if pieces[i].len() == 0 {
            Share::Gain
        } else {
            match make_dense(plans, &pieces[i]) {
                Some(region) => Share::Column(list.place(&region)),
                None => Share::Lost,
            }
        };
        shares.push(share);
        assert(shares@ =~= shares_of(views, lists, i + 1));
    }
    (list, shares)
}

} // verus!
