//! Rebuilding an ItemVariationStore that carries its own deltas.
//!
//! [`crate::regions`] works out which regions are left; this writes a store over them. Its
//! main user is `HVAR` on a CFF2 font, where it is not optional: a CFF2 glyph has no phantom
//! points, so `HVAR` is the only place its advance width varies.
//!
//! The addresses of the delta sets are deliberately preserved. Every map and every index in
//! the font points at one of them, so renumbering would mean rewriting all of those too: the
//! number of subtables, and the number of items within each, are not modified.
use vstd::prelude::*;
use write_fonts::dump_table;
use write_fonts::tables::variations::{
    ItemVariationData, ItemVariationStore, RegionAxisCoordinates, VariationRegion,
    VariationRegionList,
};
use write_fonts::types::F2Dot14;

use crate::bytes::{be16, be32, push_i16, push_i32};
use crate::error::{Problem, SliceError};
use crate::fields::{i16_at, i32_at, lemma_i16_reads_back};
use crate::partial::{kept_axes, kept_count};
use crate::regions::{
    all_distinct, interned, interning_merges_equal_regions, position, read_store_data,
    read_store_regions, referred, referred_regions, region_views, row_views, store_data,
    store_regions, tent_lists, RegionList, StoreData, StoreDataView,
};
use crate::stat::{plan_views, AxisPlan};
use crate::text::join2;

verus! {

// ------------------------------------------------------------------------ packing deltas

/// One subtable of a store that is about to be written.
#[derive(Debug)]
pub struct PackedData {
    pub item_count: u16,
    pub word_delta_count: u16,
    pub region_indexes: Vec<u16>,
    pub delta_sets: Vec<u8>,
}

/// What a [`PackedData`] holds.
#[verifier::ext_equal]
pub struct PackedView {
    pub item_count: u16,
    pub word_delta_count: u16,
    pub region_indexes: Seq<u16>,
    pub delta_sets: Seq<u8>,
}

impl View for PackedData {
    type V = PackedView;

    open spec fn view(&self) -> PackedView {
        PackedView {
            item_count: self.item_count,
            word_delta_count: self.word_delta_count,
            region_indexes: self.region_indexes@,
            delta_sets: self.delta_sets@,
        }
    }
}

pub open spec fn fits_word(d: i32) -> bool {
    -0x8000 <= d <= 0x7fff
}

/// All deltas of some rows, in order.
pub open spec fn all_deltas(rows: Seq<Seq<i32>>) -> Seq<i32>
    decreases rows.len(),
{
    if rows.len() == 0 {
        Seq::empty()
    } else {
        all_deltas(rows.drop_last()) + rows.last()
    }
}

/// True when some delta does not fit in sixteen bits.
pub open spec fn needs_long(deltas: Seq<i32>) -> bool {
    exists|i: int| 0 <= i < deltas.len() && !fits_word(#[trigger] deltas[i])
}

/// Deltas as they are stored, in four bytes each or in two.
pub open spec fn delta_bytes(deltas: Seq<i32>, long: bool) -> Seq<u8>
    decreases deltas.len(),
{
    if deltas.len() == 0 {
        Seq::empty()
    } else {
        delta_bytes(deltas.drop_last(), long) + if long {
            be32(deltas.last() as int)
        } else {
            be16(deltas.last() as int)
        }
    }
}

/// A subtable with these deltas. Every delta is long, which costs a byte per short delta and
/// cannot encode a value wrongly; the form with four bytes doubles the whole subtable and is
/// used only where something does not fit in sixteen bits. The flag for it is the top bit of
/// the count of long deltas.
pub open spec fn packed(item_count: u16, indexes: Seq<u16>, rows: Seq<Seq<i32>>) -> PackedView {
    let deltas = all_deltas(rows);
    let long = needs_long(deltas);
    let count = (indexes.len() % 0x1_0000) as u16;
    PackedView {
        item_count,
        word_delta_count: if long {
            count | 0x8000
        } else {
            count
        },
        region_indexes: indexes,
        delta_sets: delta_bytes(deltas, long),
    }
}

fn flatten(rows: &Vec<Vec<i32>>) -> (out: Vec<i32>)
    ensures
        out@ == all_deltas(row_views(rows@)),
{
    let ghost views = row_views(rows@);
    let mut out: Vec<i32> = Vec::new();
    assert(out@ =~= all_deltas(views.take(0)));
    for i in 0..rows.len()
        invariant
            views == row_views(rows@),
            out@ == all_deltas(views.take(i as int)),
    {
        let row: &Vec<i32> = &rows[i];
        let ghost before = out@;
        assert(views.take(i + 1).drop_last() =~= views.take(i as int));
        assert(views[i as int] == row@);
        for k in 0..row.len()
            invariant
                out@ == before + row@.take(k as int),
        {
            out.push(row[k]);
            assert(out@ =~= before + row@.take(k + 1));
        }
        assert(out@ =~= before + row@);
    }
    assert(views.take(views.len() as int) =~= views);
    out
}

fn any_long(deltas: &Vec<i32>) -> (r: bool)
    ensures
        r == needs_long(deltas@),
{
    for i in 0..deltas.len()
        invariant
            forall|k: int| 0 <= k < i ==> fits_word(#[trigger] deltas@[k]),
    {
        if deltas[i] < -0x8000 || deltas[i] > 0x7fff {
            assert(!fits_word(deltas@[i as int]));
            return true;
        }
    }
    false
}

/// Pack delta rows into a subtable.
pub fn pack(item_count: u16, region_indexes: Vec<u16>, rows: &Vec<Vec<i32>>) -> (r: PackedData)
    ensures
        r@ == packed(item_count, region_indexes@, row_views(rows@)),
{
    let deltas: Vec<i32> = flatten(rows);
    let long: bool = any_long(&deltas);
    let mut delta_sets: Vec<u8> = Vec::new();
    assert(delta_sets@ =~= delta_bytes(deltas@.take(0), long));
    for i in 0..deltas.len()
        invariant
            long == needs_long(deltas@),
            delta_sets@ == delta_bytes(deltas@.take(i as int), long),
    {
        assert(deltas@.take(i + 1).drop_last() =~= deltas@.take(i as int));
        let d: i32 = deltas[i];
        if long {
            push_i32(&mut delta_sets, d);
        } else {
            assert(fits_word(deltas@[i as int]));
            push_i16(&mut delta_sets, d as i16);
        }
    }
    assert(deltas@.take(deltas@.len() as int) =~= deltas@);
    let count: u16 = (region_indexes.len() % 0x1_0000) as u16;
    let word_delta_count: u16 = if long {
        count | 0x8000
    } else {
        count
    };
    PackedData { item_count, word_delta_count, region_indexes, delta_sets }
}

proof fn lemma_delta_bytes_len(deltas: Seq<i32>, long: bool)
    ensures
        delta_bytes(deltas, long).len() == deltas.len() * if long {
            4int
        } else {
            2
        },
    decreases deltas.len(),
{
    if deltas.len() > 0 {
        lemma_delta_bytes_len(deltas.drop_last(), long);
    }
}

proof fn lemma_delta_at(deltas: Seq<i32>, long: bool, i: int)
    requires
        0 <= i < deltas.len(),
    ensures
        ({
            let width = if long {
                4int
            } else {
                2
            };
            delta_bytes(deltas, long).subrange(width * i, width * i + width) == if long {
                be32(deltas[i] as int)
            } else {
                be16(deltas[i] as int)
            }
        }),
    decreases deltas.len(),
{
    let width = if long {
        4int
    } else {
        2
    };
    let all = delta_bytes(deltas, long);
    let before = delta_bytes(deltas.drop_last(), long);
    lemma_delta_bytes_len(deltas, long);
    lemma_delta_bytes_len(deltas.drop_last(), long);
    if i < deltas.len() - 1 {
        lemma_delta_at(deltas.drop_last(), long, i);
        assert(all.subrange(width * i, width * i + width) =~= before.subrange(
            width * i,
            width * i + width,
        ));
    } else {
        assert(all.subrange(width * i, width * i + width) =~= if long {
            be32(deltas[i] as int)
        } else {
            be16(deltas[i] as int)
        });
    }
}

proof fn lemma_i32_reads_back(data: Seq<u8>, at: int, v: i32)
    requires
        0 <= at,
        at + 4 <= data.len(),
        data.subrange(at, at + 4) == be32(v as int),
    ensures
        i32_at(data, at) == v,
{
    let part = data.subrange(at, at + 4);
    assert(part[0] == data[at] && part[1] == data[at + 1] && part[2] == data[at + 2] && part[3]
        == data[at + 3]);
    crate::bytes::lemma_be32_wraps(v as int);
    if v >= 0 {
        crate::bytes::lemma_be32_reads_back(data, at, v as int);
    } else {
        crate::bytes::lemma_be32_reads_back(data, at, v + 0x1_0000_0000);
    }
}

/// Packed deltas read back at either width: each stands at its place, and the top bit of the
/// count tells which width it is.
pub proof fn packed_deltas_read_back(
    item_count: u16,
    indexes: Seq<u16>,
    rows: Seq<Seq<i32>>,
    i: int,
)
    requires
        0 <= i < all_deltas(rows).len(),
        indexes.len() < 0x8000,
    ensures
        ({
            let p = packed(item_count, indexes, rows);
            if p.word_delta_count >= 0x8000 {
                i32_at(p.delta_sets, 4 * i) == all_deltas(rows)[i]
            } else {
                i16_at(p.delta_sets, 2 * i) == all_deltas(rows)[i]
            }
        }),
{
    let p = packed(item_count, indexes, rows);
    let deltas = all_deltas(rows);
    let long = needs_long(deltas);
    let count = (indexes.len() % 0x1_0000) as u16;
    assert(count | 0x8000 >= 0x8000) by (bit_vector);
    lemma_delta_bytes_len(deltas, long);
    lemma_delta_at(deltas, long, i);
    if long {
        lemma_i32_reads_back(p.delta_sets, 4 * i, deltas[i]);
    } else {
        assert(fits_word(deltas[i]));
        lemma_i16_reads_back(p.delta_sets, 2 * i, deltas[i] as i16);
    }
}

// ------------------------------------------------------------------------ writing a store

pub open spec fn packed_views(data: Seq<Option<PackedData>>) -> Seq<Option<PackedView>> {
    data.map_values(
        |d: Option<PackedData>|
            match d {
                Some(d) => Some(d@),
                None => None,
            },
    )
}

/// The ItemVariationStore with these regions and subtables, or why it cannot be written.
pub uninterp spec fn store_written(
    axis_count: u16,
    regions: Seq<Seq<(i16, i16, i16)>>,
    data: Seq<Option<PackedView>>,
) -> Result<Seq<u8>, Seq<char>>;

/// How many bytes each delta of a subtable takes, where all of them are long.
pub open spec fn delta_width(p: PackedView) -> int {
    if p.word_delta_count >= 0x8000 {
        4
    } else {
        2
    }
}

/// True when every delta of a subtable is long, and there is one for each item and region.
pub open spec fn all_long(p: PackedView) -> bool {
    let columns = p.region_indexes.len() as int;
    &&& columns < 0x8000
    &&& p.word_delta_count % 0x8000 == columns
    &&& p.delta_sets.len() == delta_width(p) * (p.item_count * columns)
}

/// The delta of a subtable in this place, counted row by row.
pub open spec fn stored_delta(p: PackedView, at: int) -> i32 {
    if delta_width(p) == 4 {
        i32_at(p.delta_sets, 4 * at)
    } else {
        i16_at(p.delta_sets, 2 * at) as i32
    }
}

/// A subtable whose deltas are all long, as it is read.
pub open spec fn stored(p: PackedView) -> StoreDataView {
    let columns = p.region_indexes.len() as int;
    StoreDataView {
        region_indexes: p.region_indexes,
        rows: Seq::new(
            p.item_count as nat,
            |k: int| Seq::new(columns as nat, |j: int| stored_delta(p, k * columns + j)),
        ),
    }
}

/// What the first `n` subtables take in the table, with their offsets.
pub open spec fn data_size(data: Seq<Option<PackedView>>, n: int) -> int
    decreases n,
{
    if n <= 0 {
        0
    } else {
        data_size(data, n - 1) + match data[n - 1] {
            Some(p) => 10 + 2 * p.region_indexes.len() + p.delta_sets.len(),
            None => 4,
        }
    }
}

/// True for a store that is below 2 GiB, whose regions all have `axis_count` axes, and whose
/// deltas are all long.
pub open spec fn is_plain(
    axis_count: u16,
    regions: Seq<Seq<(i16, i16, i16)>>,
    data: Seq<Option<PackedView>>,
) -> bool {
    &&& axis_count > 0
    &&& forall|i: int| 0 <= i < regions.len() ==> (#[trigger] regions[i]).len() == axis_count
    &&& forall|i: int|
        0 <= i < data.len() ==> ((#[trigger] data[i]) matches Some(p) ==> all_long(p))
    &&& 12 + 6 * (axis_count * regions.len()) + data_size(data, data.len() as int) <= 0x7fff_ffff
}

/// True when `bytes` are read as these regions and subtables.
pub open spec fn reads_as_store(
    bytes: Seq<u8>,
    regions: Seq<Seq<(i16, i16, i16)>>,
    data: Seq<Option<PackedView>>,
) -> bool {
    &&& store_regions(bytes) == Ok::<Seq<Seq<(i16, i16, i16)>>, Seq<char>>(regions)
    &&& store_data(bytes) == data.map_values(
        |d: Option<PackedView>|
            match d {
                Some(p) => Some(stored(p)),
                None => None,
            },
    )
}

/// Calls `write_fonts::dump_table` on a
/// `write_fonts::tables::variations::ItemVariationStore`. The result has a name; a plain
/// store that is written reads back as its regions and its subtables, a missing one
/// included.
#[verifier::external_body]
pub(crate) fn write_store(
    axis_count: u16,
    regions: &Vec<Vec<(i16, i16, i16)>>,
    data: Vec<Option<PackedData>>,
) -> (r: Result<Vec<u8>, String>)
    ensures
        match r {
            Ok(bytes) => {
                &&& store_written(axis_count, region_views(regions@), packed_views(data@)) == Ok::<
                    Seq<u8>,
                    Seq<char>,
                >(bytes@)
                &&& is_plain(axis_count, region_views(regions@), packed_views(data@))
                    ==> reads_as_store(bytes@, region_views(regions@), packed_views(data@))
            },
            Err(text) => store_written(axis_count, region_views(regions@), packed_views(data@))
                == Err::<Seq<u8>, Seq<char>>(text@),
        },
{
    let bit = F2Dot14::from_bits;
    let tent = |t: &(i16, i16, i16)| RegionAxisCoordinates::new(bit(t.0), bit(t.1), bit(t.2));
    let region = |r: &Vec<(i16, i16, i16)>| VariationRegion::new(r.iter().map(tent).collect());
    let list = VariationRegionList::new(axis_count, regions.iter().map(region).collect());
    let table = |d: PackedData| {
        ItemVariationData::new(d.item_count, d.word_delta_count, d.region_indexes, d.delta_sets)
    };
    let data = data.into_iter().map(|d| d.map(table)).collect();
    dump_table(&ItemVariationStore::new(list, data)).map_err(|e| e.to_string())
}

/// What is left of one subtable: the new regions its deltas are for, and a row of deltas per
/// item, rounded to integers.
#[derive(Debug)]
pub struct Subtable {
    pub item_count: u16,
    pub regions: Vec<Vec<(i16, i16, i16)>>,
    pub rows: Vec<Vec<i32>>,
}

/// What a [`Subtable`] holds.
#[verifier::ext_equal]
pub struct SubtableView {
    pub item_count: u16,
    pub regions: Seq<Seq<(i16, i16, i16)>>,
    pub rows: Seq<Seq<i32>>,
}

impl View for Subtable {
    type V = SubtableView;

    open spec fn view(&self) -> SubtableView {
        SubtableView {
            item_count: self.item_count,
            regions: region_views(self.regions@),
            rows: row_views(self.rows@),
        }
    }
}

pub open spec fn subtable_views(subtables: Seq<Option<Subtable>>) -> Seq<Option<SubtableView>> {
    subtables.map_values(
        |s: Option<Subtable>|
            match s {
                Some(s) => Some(s@),
                None => None,
            },
    )
}

/// A shared list of regions after the first `n` regions of a subtable were interned in it.
pub open spec fn merged(
    shared: Seq<Seq<(i16, i16, i16)>>,
    own: Seq<Seq<(i16, i16, i16)>>,
    n: int,
) -> Seq<Seq<(i16, i16, i16)>>
    decreases n,
{
    if n <= 0 {
        shared
    } else {
        interned(merged(shared, own, n - 1), own[n - 1])
    }
}

/// The indexes under which the regions of a subtable stand in the shared list.
pub open spec fn merged_indexes(
    shared: Seq<Seq<(i16, i16, i16)>>,
    own: Seq<Seq<(i16, i16, i16)>>,
    n: int,
) -> Seq<u16> {
    Seq::new(
        n as nat,
        |i: int| (position(merged(shared, own, i), own[i]) % 0x1_0000) as u16,
    )
}

/// Merge the regions of a subtable into a shared list.
pub fn merge_regions(shared: &mut RegionList, own: &Vec<Vec<(i16, i16, i16)>>) -> (indexes: Vec<
    u16,
>)
    ensures
        final(shared)@ == merged(old(shared)@, region_views(own@), own@.len() as int),
        indexes@ == merged_indexes(old(shared)@, region_views(own@), own@.len() as int),
{
    let ghost start = shared@;
    let ghost views = region_views(own@);
    let mut indexes: Vec<u16> = Vec::new();
    assert(indexes@ =~= merged_indexes(start, views, 0));
    for i in 0..own.len()
        invariant
            views == region_views(own@),
            shared@ == merged(start, views, i as int),
            indexes@ == merged_indexes(start, views, i as int),
    {
        assert(views[i as int] == own@[i as int]@);
        let index: u16 = shared.intern(&own[i]);
        indexes.push(index);
        assert(indexes@ =~= merged_indexes(start, views, i + 1));
    }
    indexes
}

/// The shared region list of the first `n` subtables.
pub open spec fn shared_regions(subtables: Seq<Option<SubtableView>>, n: int) -> Seq<
    Seq<(i16, i16, i16)>,
>
    decreases n,
{
    if n <= 0 {
        Seq::empty()
    } else {
        let before = shared_regions(subtables, n - 1);
        match subtables[n - 1] {
            Some(s) => merged(before, s.regions, s.regions.len() as int),
            None => before,
        }
    }
}

/// The first `n` subtables as they are written. A missing one is still there.
pub open spec fn packed_subtables(subtables: Seq<Option<SubtableView>>, n: int) -> Seq<
    Option<PackedView>,
> {
    Seq::new(
        n as nat,
        |i: int|
            match subtables[i] {
                Some(s) => Some(
                    packed(
                        s.item_count,
                        merged_indexes(
                            shared_regions(subtables, i),
                            s.regions,
                            s.regions.len() as int,
                        ),
                        s.rows,
                    ),
                ),
                None => None,
            },
    )
}

/// The store over what is left, or none where nothing varies over the remaining axes.
pub open spec fn rebuilt_store(axis_count: u16, subtables: Seq<Option<SubtableView>>) -> Option<
    Result<Seq<u8>, Seq<char>>,
> {
    let n = subtables.len() as int;
    let regions = shared_regions(subtables, n);
    if regions.len() == 0 {
        None
    } else {
        Some(store_written(axis_count, regions, packed_subtables(subtables, n)))
    }
}

/// True when a subtable has a row for each item, with a delta for each of its regions, and
/// each region speaks of every axis.
pub open spec fn is_regular(axis_count: u16, s: SubtableView) -> bool {
    &&& s.rows.len() == s.item_count
    &&& s.regions.len() < 0x8000
    &&& forall|k: int| 0 <= k < s.rows.len() ==> (#[trigger] s.rows[k]).len() == s.regions.len()
    &&& forall|j: int| 0 <= j < s.regions.len() ==> (#[trigger] s.regions[j]).len() == axis_count
}

/// True when all subtables are regular, and the store over them is within the limits of the
/// format and below 2 GiB.
pub open spec fn are_regular(axis_count: u16, subtables: Seq<Option<SubtableView>>) -> bool {
    let n = subtables.len() as int;
    let regions = shared_regions(subtables, n);
    &&& axis_count > 0
    &&& forall|i: int|
        0 <= i < n ==> ((#[trigger] subtables[i]) matches Some(s) ==> is_regular(axis_count, s))
    &&& regions.len() <= 0xffff
    &&& 12 + 6 * (axis_count * regions.len()) + data_size(packed_subtables(subtables, n), n)
        <= 0x7fff_ffff
}

/// True when a subtable that was read holds the rows of `s`, for the same regions.
pub open spec fn holds_subtable(
    regions: Seq<Seq<(i16, i16, i16)>>,
    d: StoreDataView,
    s: SubtableView,
) -> bool {
    &&& d.rows == s.rows
    &&& d.region_indexes.len() == s.regions.len()
    &&& forall|j: int|
        0 <= j < s.regions.len() ==> (#[trigger] d.region_indexes[j]) < regions.len()
            && regions[d.region_indexes[j] as int] == s.regions[j]
}

/// True when `bytes` are read as a store with these subtables.
pub open spec fn holds_subtables(bytes: Seq<u8>, subtables: Seq<Option<SubtableView>>) -> bool {
    store_regions(bytes) matches Ok(regions) && {
        &&& store_data(bytes).len() == subtables.len()
        &&& forall|i: int|
            0 <= i < subtables.len() ==> match (#[trigger] store_data(bytes)[i], subtables[i]) {
                (Some(d), Some(s)) => holds_subtable(regions, d, s),
                (None, None) => true,
                _ => false,
            }
    }
}

proof fn lemma_delta_place(rows: Seq<Seq<i32>>, columns: int, k: int, j: int)
    requires
        forall|r: int| 0 <= r < rows.len() ==> (#[trigger] rows[r]).len() == columns,
        0 <= k < rows.len(),
        0 <= j < columns,
    ensures
        all_deltas(rows).len() == rows.len() * columns,
        0 <= k * columns + j < all_deltas(rows).len(),
        all_deltas(rows)[k * columns + j] == rows[k][j],
    decreases rows.len(),
{
    let front = rows.drop_last();
    let last = rows.len() - 1;
    lemma_delta_count(rows, columns);
    lemma_delta_count(front, columns);
    assert(rows[last].len() == columns);
    assert((last + 1) * columns == last * columns + columns) by (nonlinear_arith);
    assert(0 <= k * columns) by (nonlinear_arith)
        requires
            0 <= k,
            0 <= columns,
    ;
    if k < last {
        assert(k * columns + columns <= last * columns) by (nonlinear_arith)
            requires
                k + 1 <= last,
                0 <= columns,
        ;
        lemma_delta_place(front, columns, k, j);
        assert(front[k] == rows[k]);
    }
}

proof fn lemma_delta_count(rows: Seq<Seq<i32>>, columns: int)
    requires
        forall|r: int| 0 <= r < rows.len() ==> (#[trigger] rows[r]).len() == columns,
    ensures
        all_deltas(rows).len() == rows.len() * columns,
    decreases rows.len(),
{
    if rows.len() > 0 {
        let front = rows.drop_last();
        lemma_delta_count(front, columns);
        let last = rows.len() - 1;
        assert(rows[last].len() == columns);
        assert((last + 1) * columns == last * columns + columns) by (nonlinear_arith);
    }
}

/// A regular subtable is packed in long deltas, and reads back as its rows.
proof fn lemma_regular_packed(axis_count: u16, s: SubtableView, indexes: Seq<u16>)
    requires
        is_regular(axis_count, s),
        indexes.len() == s.regions.len(),
    ensures
        all_long(packed(s.item_count, indexes, s.rows)),
        stored(packed(s.item_count, indexes, s.rows)).rows == s.rows,
{
    let p = packed(s.item_count, indexes, s.rows);
    let columns = indexes.len() as int;
    let deltas = all_deltas(s.rows);
    let long = needs_long(deltas);
    let count = (indexes.len() % 0x1_0000) as u16;
    assert(count < 0x8000 ==> count | 0x8000 == count + 0x8000) by (bit_vector);
    lemma_delta_count(s.rows, columns);
    lemma_delta_bytes_len(deltas, long);
    assert(delta_width(p) * (p.item_count * columns) == deltas.len() * delta_width(p))
        by (nonlinear_arith)
        requires
            deltas.len() == p.item_count * columns,
    ;
    let rows = stored(p).rows;
    assert forall|k: int| 0 <= k < rows.len() implies #[trigger] rows[k] == s.rows[k] by {
        assert forall|j: int| 0 <= j < columns implies rows[k][j] == s.rows[k][j] by {
            lemma_delta_place(s.rows, columns, k, j);
            packed_deltas_read_back(s.item_count, indexes, s.rows, k * columns + j);
        }
        assert(rows[k] =~= s.rows[k]);
    }
    assert(rows =~= s.rows);
}

/// Merging keeps what is in the shared list, and finds each region under its index. Every
/// region has as many axes as those that went in.
proof fn lemma_merged(
    shared: Seq<Seq<(i16, i16, i16)>>,
    own: Seq<Seq<(i16, i16, i16)>>,
    n: int,
    axes: int,
)
    requires
        0 <= n <= own.len(),
        all_distinct(shared),
        forall|i: int| 0 <= i < shared.len() ==> (#[trigger] shared[i]).len() == axes,
        forall|i: int| 0 <= i < own.len() ==> (#[trigger] own[i]).len() == axes,
    ensures
        ({
            let after = merged(shared, own, n);
            &&& all_distinct(after)
            &&& is_front(shared, after)
            &&& forall|i: int| 0 <= i < after.len() ==> (#[trigger] after[i]).len() == axes
            &&& forall|j: int|
                0 <= j < n ==> {
                    let at = #[trigger] position(merged(shared, own, j), own[j]);
                    0 <= at < after.len() && after[at] == own[j]
                }
        }),
    decreases n,
{
    if n > 0 {
        lemma_merged(shared, own, n - 1, axes);
        let before = merged(shared, own, n - 1);
        let after = merged(shared, own, n);
        interning_merges_equal_regions(before, own[n - 1]);
        crate::regions::lemma_position_bounds(before, own[n - 1]);
        assert forall|j: int| 0 <= j < n implies {
            let at = #[trigger] position(merged(shared, own, j), own[j]);
            0 <= at < after.len() && after[at] == own[j]
        } by {
            if j < n - 1 {
                let at = position(merged(shared, own, j), own[j]);
                assert(0 <= at < before.len() && before[at] == own[j]);
                assert(after[at] == before[at]);
            }
        }
    }
}

/// True when `after` starts with `before`.
pub open spec fn is_front(
    before: Seq<Seq<(i16, i16, i16)>>,
    after: Seq<Seq<(i16, i16, i16)>>,
) -> bool {
    before.len() <= after.len() && forall|i: int|
        0 <= i < before.len() ==> #[trigger] after[i] == before[i]
}

proof fn lemma_shared(axis_count: u16, subtables: Seq<Option<SubtableView>>, i: int, n: int)
    requires
        0 <= i <= n <= subtables.len(),
        forall|k: int|
            0 <= k < subtables.len() ==> ((#[trigger] subtables[k]) matches Some(s) ==> is_regular(
                axis_count,
                s,
            )),
    ensures
        ({
            let all = shared_regions(subtables, n);
            &&& all_distinct(all)
            &&& is_front(shared_regions(subtables, i), all)
            &&& forall|k: int| 0 <= k < all.len() ==> (#[trigger] all[k]).len() == axis_count
        }),
    decreases n,
{
    if n > 0 {
        if i < n {
            lemma_shared(axis_count, subtables, i, n - 1);
        } else {
            lemma_shared(axis_count, subtables, n - 1, n - 1);
        }
        let before = shared_regions(subtables, n - 1);
        let after = shared_regions(subtables, n);
        if let Some(s) = subtables[n - 1] {
            lemma_merged(before, s.regions, s.regions.len() as int, axis_count as int);
        }
        if i < n {
            let first = shared_regions(subtables, i);
            assert forall|k: int| 0 <= k < first.len() implies #[trigger] after[k] == first[k] by {
                assert(before[k] == first[k]);
                assert(after[k] == before[k]);
            }
        }
    }
}

/// What a rebuilt store is read as, where it reads back as what was packed.
proof fn lemma_rebuilt(axis_count: u16, subtables: Seq<Option<SubtableView>>, bytes: Seq<u8>)
    requires
        are_regular(axis_count, subtables),
        ({
            let n = subtables.len() as int;
            let regions = shared_regions(subtables, n);
            let data = packed_subtables(subtables, n);
            is_plain(axis_count, regions, data) ==> reads_as_store(bytes, regions, data)
        }),
    ensures
        holds_subtables(bytes, subtables),
{
    let n = subtables.len() as int;
    let regions = shared_regions(subtables, n);
    let data = packed_subtables(subtables, n);
    lemma_shared(axis_count, subtables, n, n);
    assert forall|i: int| 0 <= i < data.len() implies ((#[trigger] data[i]) matches Some(p)
        ==> all_long(p)) by {
        if let Some(s) = subtables[i] {
            let own = merged_indexes(
                shared_regions(subtables, i),
                s.regions,
                s.regions.len() as int,
            );
            lemma_regular_packed(axis_count, s, own);
        }
    }
    assert(is_plain(axis_count, regions, data));
    assert forall|i: int| 0 <= i < subtables.len() implies match (
        #[trigger] store_data(bytes)[i],
        subtables[i],
    ) {
        (Some(d), Some(s)) => holds_subtable(regions, d, s),
        (None, None) => true,
        _ => false,
    } by {
        if let Some(s) = subtables[i] {
            let before = shared_regions(subtables, i);
            let count = s.regions.len() as int;
            let own = merged_indexes(before, s.regions, count);
            lemma_regular_packed(axis_count, s, own);
            lemma_shared(axis_count, subtables, i, i);
            lemma_shared(axis_count, subtables, i + 1, n);
            lemma_merged(before, s.regions, count, axis_count as int);
            let after = merged(before, s.regions, count);
            assert(after == shared_regions(subtables, i + 1));
            let d = stored(data[i]->Some_0);
            assert(d.region_indexes == own);
            assert forall|j: int| 0 <= j < count implies (#[trigger] d.region_indexes[j])
                < regions.len() && regions[d.region_indexes[j] as int] == s.regions[j] by {
                let at = position(merged(before, s.regions, j), s.regions[j]);
                assert(0 <= at < after.len() && after[at] == s.regions[j]);
                assert(regions[at] == after[at]);
                assert(d.region_indexes[j] == at);
            }
        }
    }
}

/// Build the store of a restricted font from what is left of its subtables. There is none
/// where nothing varies over the remaining axes. What is written reads back as the subtables
/// that went in: the same deltas, for the same regions, under the same addresses.
pub fn rebuild(plans: &Vec<AxisPlan>, subtables: Vec<Option<Subtable>>) -> (r: Result<
    Option<Vec<u8>>,
    SliceError,
>)
    ensures
        ({
            let kept = kept_axes(plan_views(plans@), plans@.len() as int).len();
            let store = rebuilt_store(
                (kept % 0x1_0000) as u16,
                subtable_views(subtables@),
            );
            match r {
                Ok(Some(bytes)) => {
                    &&& store == Some(Ok::<Seq<u8>, Seq<char>>(bytes@))
                    &&& are_regular((kept % 0x1_0000) as u16, subtable_views(subtables@))
                        ==> holds_subtables(bytes@, subtable_views(subtables@))
                },
                Ok(None) => store is None,
                Err(e) => store matches Some(Err(text)) && e@ == Problem::Write(text),
            }
        }),
{
    let ghost views = subtable_views(subtables@);
    let axis_count: u16 = (kept_count(plans) % 0x1_0000) as u16;
    let mut shared: RegionList = RegionList::default();
    let mut data: Vec<Option<PackedData>> = Vec::new();
    assert(packed_views(data@) =~= packed_subtables(views, 0));
    for i in 0..subtables.len()
        invariant
            views == subtable_views(subtables@),
            shared@ == shared_regions(views, i as int),
            packed_views(data@) == packed_subtables(views, i as int),
    {
        let ghost before = packed_views(data@);
        let ghost wanted = packed_subtables(views, i + 1);
        assert(views[i as int] == match subtables@[i as int] {
            Some(s) => Some(s@),
            None => None,
        });
        match &subtables[i] {
            Some(s) => {
                let indexes: Vec<u16> = merge_regions(&mut shared, &s.regions);
                let p: PackedData = pack(s.item_count, indexes, &s.rows);
                let ghost added = p@;
                data.push(Some(p));
                assert(packed_views(data@) =~= before.push(Some(added)));
                assert(wanted =~= before.push(Some(added)));
            },
            None => {
                data.push(None);
                assert(packed_views(data@) =~= before.push(None));
                assert(wanted =~= before.push(None));
            },
        }
    }
    if shared.is_empty() {
        return Ok(None);
    }
    match write_store(axis_count, shared.regions(), data) {
        Ok(bytes) => {
            proof {
                if are_regular(axis_count, views) {
                    lemma_rebuilt(axis_count, views, bytes@);
                }
            }
            Ok(Some(bytes))
        },
        Err(text) => Err(SliceError::Write(text)),
    }
}

/// The addresses of the delta sets are preserved: there are as many subtables as before, each
/// with as many items, and one that is missing stays missing.
pub proof fn addresses_are_preserved(subtables: Seq<Option<SubtableView>>, i: int)
    requires
        0 <= i < subtables.len(),
    ensures
        packed_subtables(subtables, subtables.len() as int).len() == subtables.len(),
        match (packed_subtables(subtables, subtables.len() as int)[i], subtables[i]) {
            (Some(p), Some(s)) => p.item_count == s.item_count && p.region_indexes.len()
                == s.regions.len(),
            (None, None) => true,
            _ => false,
        },
{
}

// ------------------------------------------------------------------------ reading a store

/// A subtable as it is taken apart: its regions, in the order of its deltas, and its rows.
#[derive(Debug)]
pub struct OldSubtable {
    pub regions: Vec<Vec<crate::partial::AxisTent>>,
    pub rows: Vec<Vec<i32>>,
}

/// What an [`OldSubtable`] holds.
#[verifier::ext_equal]
pub struct OldView {
    pub regions: Seq<Seq<crate::partial::AxisTent>>,
    pub rows: Seq<Seq<i32>>,
}

impl View for OldSubtable {
    type V = OldView;

    open spec fn view(&self) -> OldView {
        OldView { regions: tent_lists(self.regions@), rows: row_views(self.rows@) }
    }
}

pub open spec fn old_views(subtables: Seq<Option<OldSubtable>>) -> Seq<Option<OldView>> {
    subtables.map_values(
        |s: Option<OldSubtable>|
            match s {
                Some(s) => Some(s@),
                None => None,
            },
    )
}

pub open spec fn taken_apart(
    regions: Seq<Seq<(i16, i16, i16)>>,
    data: Seq<Option<StoreDataView>>,
) -> Seq<Option<OldView>> {
    data.map_values(
        |d: Option<StoreDataView>|
            match d {
                Some(d) => Some(
                    OldView { regions: referred(regions, d.region_indexes), rows: d.rows },
                ),
                None => None,
            },
    )
}

/// Take a store apart into what its deltas are for and the deltas themselves, subtable by
/// subtable.
pub fn read_subtables(store: &[u8]) -> (r: Result<Vec<Option<OldSubtable>>, SliceError>)
    ensures
        match r {
            Ok(subtables) => store_regions(store@) matches Ok(regions) && old_views(subtables@)
                == taken_apart(regions, store_data(store@)),
            Err(e) => store_regions(store@) matches Err(text) && e@ == Problem::Read(
                "an item variation store is malformed: "@ + text,
            ),
        },
{
    let regions: Vec<Vec<(i16, i16, i16)>> = match read_store_regions(store) {
        Ok(regions) => regions,
        Err(text) => {
            return Err(
                SliceError::Read(join2("an item variation store is malformed: ", text.as_str())),
            );
        },
    };
    let mut data: Vec<Option<StoreData>> = read_store_data(store);
    let ghost all = crate::regions::data_views(data@);
    let ghost wanted = taken_apart(region_views(regions@), all);
    let mut out: Vec<Option<OldSubtable>> = Vec::new();
    assert(old_views(out@) =~= wanted.take(0));
    for i in 0..data.len()
        invariant
            all == crate::regions::data_views(data@),
            wanted == taken_apart(region_views(regions@), all),
            old_views(out@) == wanted.take(i as int),
    {
        let ghost before = old_views(out@);
        assert(all[i as int] == match data@[i as int] {
            Some(d) => Some(d@),
            None => None,
        });
        match &data[i] {
            Some(d) => {
                let s: OldSubtable = OldSubtable {
                    regions: referred_regions(&regions, &d.region_indexes),
                    rows: copy_rows(&d.rows),
                };
                let ghost added = s@;
                assert(wanted[i as int] == Some(added));
                out.push(Some(s));
                assert(old_views(out@) =~= before.push(Some(added)));
            },
            None => {
                assert(wanted[i as int] is None);
                out.push(None);
                assert(old_views(out@) =~= before.push(None));
            },
        }
        assert(wanted.take(i + 1) =~= before.push(wanted[i as int]));
    }
    assert(old_views(out@) =~= wanted);
    Ok(out)
}

fn copy_rows(rows: &Vec<Vec<i32>>) -> (out: Vec<Vec<i32>>)
    ensures
        row_views(out@) == row_views(rows@),
{
    let ghost views = row_views(rows@);
    let mut out: Vec<Vec<i32>> = Vec::new();
    assert(row_views(out@) =~= views.take(0));
    for i in 0..rows.len()
        invariant
            views == row_views(rows@),
            row_views(out@) == views.take(i as int),
    {
        let ghost before = row_views(out@);
        let source: &Vec<i32> = &rows[i];
        let mut row: Vec<i32> = Vec::new();
        for k in 0..source.len()
            invariant
                row@ == source@.take(k as int),
        {
            row.push(source[k]);
            assert(row@ =~= source@.take(k + 1));
        }
        assert(row@ =~= views[i as int]);
        out.push(row);
        assert(row_views(out@) =~= before.push(views[i as int]));
        assert(views.take(i + 1) =~= before.push(views[i as int]));
    }
    assert(row_views(out@) =~= views);
    out
}

} // verus!
