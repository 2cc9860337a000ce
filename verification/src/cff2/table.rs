//! Reading and writing the CFF2 table itself.
//!
//! DICT offsets are absolute and point forward past the DICT that contains them, so the
//! size of a DICT would depend on values that depend on its size. Every offset written
//! here uses the five-byte `29` form regardless of magnitude, which makes each DICT's
//! length known before its contents are, and turns the layout into a single forward pass.
use vstd::prelude::*;

use crate::bytes::{
    be16, concat, lemma_append, lemma_take_step, lemma_total_len_is_concat_len, push_all, push_u16,
    total_len, total_within, views,
};
use crate::error::{write_error, Problem, SliceError};
use super::dict::{
    dict_entries, dict_operator, entries_from, lemma_entries_extend, lemma_offset_entry_reads,
    write_dict_operator, DictValue, Entry,
};
use super::num::{
    dict_offset, fits_index, index_bytes, index_length_is_known, index_size, offset_size,
    offset_width, write_dict_offset, write_index,
};

verus! {

/// Top DICT: the CharStrings INDEX.
pub const CHARSTRINGS: u16 = 17;

/// Top DICT: the ItemVariationStore.
pub const VAR_STORE: u16 = 24;

/// Top DICT: the FDArray INDEX.
pub const FD_ARRAY: u16 = 1236;

/// Top DICT: the FDSelect.
pub const FD_SELECT: u16 = 1237;

/// Font DICT: the Private DICT's size and offset, as a pair.
pub const PRIVATE: u16 = 18;

/// Private DICT: the offset of the local subroutine INDEX, relative to the DICT.
pub const SUBRS: u16 = 19;

/// Private DICT: the ItemVariationData its blends index.
pub const PRIVATE_VSINDEX: u16 = 22;

/// The pieces of a CFF2 table that is about to be written.
#[derive(Debug, Default)]
pub struct Cff2Builder {
    /// Top DICT entries other than the offsets, copied verbatim from the input.
    pub top_dict_extra: Vec<Vec<u8>>,
    pub global_subrs: Vec<Vec<u8>>,
    pub charstrings: Vec<Vec<u8>>,
    /// The ItemVariationStore, without the two-byte length.
    pub var_store: Option<Vec<u8>>,
    pub fd_select: Option<Vec<u8>>,
    pub font_dicts: Vec<FontDictBuilder>,
}

/// One entry of the FDArray that is about to be written.
#[derive(Debug, Default)]
pub struct FontDictBuilder {
    /// Font DICT entries other than `Private`, copied verbatim.
    pub other_entries: Vec<Vec<u8>>,
    /// The Private DICT with its `Subrs` entry removed; the writer adds its own.
    pub private: Vec<u8>,
    pub local_subrs: Vec<Vec<u8>>,
}

// ------------------------------------------------------------------------------ model

/// What a [`FontDictBuilder`] holds.
pub struct FontParts {
    pub other_entries: Seq<Seq<u8>>,
    pub private: Seq<u8>,
    pub local_subrs: Seq<Seq<u8>>,
}

/// What a [`Cff2Builder`] holds.
pub struct Parts {
    pub top_dict_extra: Seq<Seq<u8>>,
    pub global_subrs: Seq<Seq<u8>>,
    pub charstrings: Seq<Seq<u8>>,
    pub var_store: Option<Seq<u8>>,
    pub fd_select: Option<Seq<u8>>,
    pub font_dicts: Seq<FontParts>,
}

impl View for FontDictBuilder {
    type V = FontParts;

    open spec fn view(&self) -> FontParts {
        FontParts {
            other_entries: views(self.other_entries@),
            private: self.private@,
            local_subrs: views(self.local_subrs@),
        }
    }
}

impl View for Cff2Builder {
    type V = Parts;

    open spec fn view(&self) -> Parts {
        Parts {
            top_dict_extra: views(self.top_dict_extra@),
            global_subrs: views(self.global_subrs@),
            charstrings: views(self.charstrings@),
            var_store: match self.var_store {
                Some(store) => Some(store@),
                None => None,
            },
            fd_select: match self.fd_select {
                Some(select) => Some(select@),
                None => None,
            },
            font_dicts: self.font_dicts@.map_values(|fd: FontDictBuilder| fd@),
        }
    }
}

/// A DICT entry that holds an offset: the offset, and the operator.
pub open spec fn offset_entry(at: int, operator: u16) -> Seq<u8> {
    dict_offset(at) + dict_operator(operator as int)
}

/// DICT entries that hold offsets, one after another.
pub open spec fn offset_entries(list: Seq<(int, u16)>) -> Seq<u8>
    decreases list.len(),
{
    if list.len() == 0 {
        Seq::empty()
    } else {
        offset_entries(list.drop_last()) + offset_entry(list.last().0, list.last().1)
    }
}

/// Every offset operand is five bytes wide whatever it holds.
pub open spec fn top_dict_len(p: Parts) -> int {
    total_len(p.top_dict_extra) + 6 + 7 + (if p.var_store is Some {
        6int
    } else {
        0
    }) + (if p.fd_select is Some {
        7int
    } else {
        0
    })
}

#[verifier::opaque]
pub open spec fn charstrings_at(p: Parts) -> int {
    5 + top_dict_len(p) + index_bytes(p.global_subrs).len()
}

#[verifier::opaque]
pub open spec fn var_store_at(p: Parts) -> int {
    charstrings_at(p) + index_bytes(p.charstrings).len()
}

/// The ItemVariationStore with its two-byte length in front.
pub open spec fn var_store_bytes(p: Parts) -> Seq<u8> {
    match p.var_store {
        Some(store) => be16(store.len() as int) + store,
        None => Seq::empty(),
    }
}

#[verifier::opaque]
pub open spec fn fd_select_at(p: Parts) -> int {
    var_store_at(p) + var_store_bytes(p).len()
}

pub open spec fn fd_select_bytes(p: Parts) -> Seq<u8> {
    match p.fd_select {
        Some(select) => select,
        None => Seq::empty(),
    }
}

#[verifier::opaque]
pub open spec fn fd_array_at(p: Parts) -> int {
    fd_select_at(p) + fd_select_bytes(p).len()
}

/// The Private DICT, which gains a `Subrs` entry when there are local subroutines; they
/// sit immediately after it.
#[verifier::opaque]
pub open spec fn private_bytes(fd: FontParts) -> Seq<u8> {
    if fd.local_subrs.len() == 0 {
        fd.private
    } else {
        fd.private + offset_entry(fd.private.len() as int + 6, SUBRS)
    }
}

/// The Private DICT and its local subroutines.
pub open spec fn private_block(fd: FontParts) -> Seq<u8> {
    private_bytes(fd) + index_bytes(fd.local_subrs)
}

/// The length of a Font DICT: its `Private` entry has two offset operands.
pub open spec fn font_dict_len(fd: FontParts) -> int {
    total_len(fd.other_entries) + 11
}

pub open spec fn font_dict_lens(fds: Seq<FontParts>) -> int
    decreases fds.len(),
{
    if fds.len() == 0 {
        0
    } else {
        font_dict_lens(fds.drop_last()) + font_dict_len(fds.last())
    }
}

#[verifier::opaque]
pub open spec fn fd_array_len(p: Parts) -> int {
    index_size(p.font_dicts.len() as int, font_dict_lens(p.font_dicts))
}

pub open spec fn private_blocks(fds: Seq<FontParts>) -> Seq<u8>
    decreases fds.len(),
{
    if fds.len() == 0 {
        Seq::empty()
    } else {
        private_blocks(fds.drop_last()) + private_block(fds.last())
    }
}

/// Where the Private DICT with number `i` goes.
pub open spec fn private_at(p: Parts, i: int) -> int {
    fd_array_at(p) + fd_array_len(p) + private_blocks(p.font_dicts.take(i)).len()
}

#[verifier::opaque]
pub open spec fn font_dict_bytes(p: Parts, i: int) -> Seq<u8> {
    concat(p.font_dicts[i].other_entries) + dict_offset(
        private_bytes(p.font_dicts[i]).len() as int,
    ) + dict_offset(private_at(p, i)) + seq![PRIVATE as u8]
}

pub open spec fn font_dicts_bytes(p: Parts) -> Seq<Seq<u8>> {
    Seq::new(p.font_dicts.len(), |i: int| font_dict_bytes(p, i))
}

/// The offsets that the Top DICT holds, and their operators.
#[verifier::opaque]
pub open spec fn top_offsets(p: Parts) -> Seq<(int, u16)> {
    seq![(charstrings_at(p), CHARSTRINGS)] + (if p.var_store is Some {
        seq![(var_store_at(p), VAR_STORE)]
    } else {
        Seq::empty()
    }) + (if p.fd_select is Some {
        seq![(fd_select_at(p), FD_SELECT)]
    } else {
        Seq::empty()
    }) + seq![(fd_array_at(p), FD_ARRAY)]
}

/// The Top DICT: the entries that are copied, and the offsets.
pub open spec fn top_dict_bytes(p: Parts) -> Seq<u8> {
    concat(p.top_dict_extra) + offset_entries(top_offsets(p))
}

/// How long the whole table is.
pub open spec fn table_len(p: Parts) -> int {
    private_at(p, p.font_dicts.len() as int)
}

/// The table up to the FDArray, part by part in the order of the file.
#[verifier::opaque]
pub open spec fn front_bytes(p: Parts) -> Seq<u8> {
    seq![2u8, 0u8, 5u8] + be16(top_dict_len(p)) + top_dict_bytes(p) + index_bytes(p.global_subrs)
        + index_bytes(p.charstrings) + var_store_bytes(p) + fd_select_bytes(p)
}

/// The whole table.
pub open spec fn table_bytes(p: Parts) -> Seq<u8> {
    front_bytes(p) + index_bytes(font_dicts_bytes(p)) + private_blocks(p.font_dicts)
}

pub open spec fn too_large() -> Problem {
    Problem::Write("the CFF2 table would be larger than its offsets can address"@)
}

pub open spec fn store_too_large() -> Problem {
    Problem::Write("the CFF2 variation store is larger than 64KB"@)
}

// --------------------------------------------------------------------------- building

pub proof fn lemma_blocks_prefix(fds: Seq<FontParts>, n: int)
    requires
        0 <= n <= fds.len(),
    ensures
        private_blocks(fds.take(n)).len() <= private_blocks(fds).len(),
        font_dict_lens(fds.take(n)) <= font_dict_lens(fds),
        0 <= font_dict_lens(fds.take(n)),
        11 * n <= font_dict_lens(fds.take(n)),
    decreases fds.len(),
{
    if n < fds.len() {
        lemma_blocks_prefix(fds.drop_last(), n);
        assert(fds.drop_last().take(n) =~= fds.take(n));
        lemma_total_len_is_concat_len(fds.last().other_entries);
    } else {
        assert(fds.take(n) =~= fds);
        if n > 0 {
            lemma_blocks_prefix(fds.drop_last(), n - 1);
            assert(fds.drop_last().take(n - 1) =~= fds.drop_last());
            lemma_total_len_is_concat_len(fds.last().other_entries);
        }
    }
}

proof fn lemma_blocks_step(fds: Seq<FontParts>, n: int)
    requires
        0 <= n < fds.len(),
    ensures
        private_blocks(fds.take(n + 1)) == private_blocks(fds.take(n)) + private_block(fds[n]),
        font_dict_lens(fds.take(n + 1)) == font_dict_lens(fds.take(n)) + font_dict_len(fds[n]),
{
    assert(fds.take(n + 1).drop_last() =~= fds.take(n));
}

/// The parts come one after another.
pub proof fn lemma_front_grows(p: Parts)
    ensures
        5 <= charstrings_at(p) <= var_store_at(p) <= fd_select_at(p) <= fd_array_at(p),
        0 <= top_dict_len(p) <= charstrings_at(p),
{
    lemma_total_len_is_concat_len(p.top_dict_extra);
    reveal(charstrings_at);
    reveal(var_store_at);
    reveal(fd_select_at);
    reveal(fd_array_at);
}

pub proof fn lemma_font_dict_total(p: Parts, n: int)
    requires
        0 <= n <= p.font_dicts.len(),
    ensures
        total_len(font_dicts_bytes(p).take(n)) == font_dict_lens(p.font_dicts.take(n)),
    decreases n,
{
    if n > 0 {
        lemma_font_dict_total(p, n - 1);
        lemma_take_step(font_dicts_bytes(p), n - 1);
        lemma_blocks_step(p.font_dicts, n - 1);
        lemma_total_len_is_concat_len(p.font_dicts[n - 1].other_entries);
        reveal(font_dict_bytes);
    }
}

/// The largest table that the offsets can address.
const LIMIT: usize = 0x7fff_ffff;

/// `a + b`, unless it is over the limit.
fn within(a: usize, b: usize) -> (r: Option<usize>)
    requires
        a <= LIMIT,
    ensures
        match r {
            Some(c) => c == a + b && c <= LIMIT,
            None => a + b > LIMIT,
        },
{
    if b > LIMIT - a {
        None
    } else {
        Some(a + b)
    }
}

/// How long the INDEX holding items of these lengths will be.
///
/// The FDArray's own size has to be known before the Private DICTs that follow it can be
/// placed, and its contents are not built until after that, so its length is computed
/// from the item lengths alone.
pub fn index_length(item_lengths: &Vec<usize>) -> (r: usize)
    requires
        index_size(item_lengths@.len() as int, sum(item_lengths@)) <= usize::MAX,
    ensures
        r == index_size(item_lengths@.len() as int, sum(item_lengths@)),
{
    if item_lengths.len() == 0 {
        return 4;
    }
    proof {
        let w = offset_width(sum(item_lengths@) + 1);
        assert((item_lengths@.len() + 1) * w >= item_lengths@.len() + 1) by (nonlinear_arith)
            requires
                1 <= w <= 4,
        ;
    }
    let mut total: usize = 0;
    for i in 0..item_lengths.len()
        invariant
            sum(item_lengths@) <= usize::MAX,
            total == sum(item_lengths@.take(i as int)),
    {
        proof {
            lemma_sum_step(item_lengths@, i as int);
            lemma_sum_prefix(item_lengths@, i + 1);
        }
        total = total + item_lengths[i];
    }
    assert(item_lengths@.take(item_lengths@.len() as int) =~= item_lengths@);
    4 + 1 + (item_lengths.len() + 1) * offset_size(total + 1) + total
}

/// The sum of `lengths`.
pub open spec fn sum(lengths: Seq<usize>) -> int
    decreases lengths.len(),
{
    if lengths.len() == 0 {
        0
    } else {
        sum(lengths.drop_last()) + lengths.last()
    }
}

proof fn lemma_sum_step(lengths: Seq<usize>, n: int)
    requires
        0 <= n < lengths.len(),
    ensures
        sum(lengths.take(n + 1)) == sum(lengths.take(n)) + lengths[n],
{
    assert(lengths.take(n + 1).drop_last() =~= lengths.take(n));
}

proof fn lemma_sum_prefix(lengths: Seq<usize>, n: int)
    requires
        0 <= n <= lengths.len(),
    ensures
        0 <= sum(lengths.take(n)) <= sum(lengths),
    decreases lengths.len(),
{
    if n == lengths.len() {
        assert(lengths.take(n) =~= lengths);
        if n > 0 {
            lemma_sum_prefix(lengths.drop_last(), n - 1);
            assert(lengths.drop_last().take(n - 1) =~= lengths.drop_last());
        }
    } else {
        lemma_sum_prefix(lengths.drop_last(), n);
        assert(lengths.drop_last().take(n) =~= lengths.take(n));
    }
}

/// The length that is computed from the lengths of the items is that of the INDEX that is
/// written for them.
pub proof fn the_length_of_an_index_is_known_beforehand(items: Seq<Seq<u8>>, lengths: Seq<usize>)
    requires
        lengths.len() == items.len(),
        forall|i: int| 0 <= i < items.len() ==> lengths[i] == (#[trigger] items[i]).len(),
    ensures
        index_size(lengths.len() as int, sum(lengths)) == index_bytes(items).len(),
        lengths.len() == 0 ==> index_size(lengths.len() as int, sum(lengths)) == 4,
{
    lemma_lengths_add_up(items, lengths);
    index_length_is_known(items);
}

proof fn lemma_lengths_add_up(items: Seq<Seq<u8>>, lengths: Seq<usize>)
    requires
        lengths.len() == items.len(),
        forall|i: int| 0 <= i < items.len() ==> lengths[i] == (#[trigger] items[i]).len(),
    ensures
        sum(lengths) == total_len(items),
    decreases items.len(),
{
    if items.len() > 0 {
        lemma_lengths_add_up(items.drop_last(), lengths.drop_last());
        assert(lengths.last() == items[items.len() - 1].len());
    }
}

/// The length of the INDEX of `items`, unless it is over the limit.
fn index_len_within(items: &Vec<Vec<u8>>) -> (r: Option<usize>)
    ensures
        match r {
            Some(n) => n == index_bytes(views(items@)).len() && n <= LIMIT && fits_index(
                views(items@),
            ),
            None => index_bytes(views(items@)).len() > LIMIT,
        },
{
    proof {
        index_length_is_known(views(items@));
        lemma_total_len_is_concat_len(views(items@));
        let w = offset_width(total_len(views(items@)) + 1);
        assert((items@.len() + 1) * w >= items@.len() + 1) by (nonlinear_arith)
            requires
                1 <= w <= 4,
        ;
        assert((items@.len() + 1) * w <= (items@.len() + 1) * 4) by (nonlinear_arith)
            requires
                1 <= w <= 4,
        ;
    }
    if items.len() == 0 {
        return Some(4);
    }
    if items.len() > LIMIT {
        return None;
    }
    let total: usize = match total_within(items, LIMIT) {
        Some(total) => total,
        None => {
            return None;
        },
    };
    let size: u64 = 5 + (items.len() as u64 + 1) * offset_size(total + 1) as u64 + total as u64;
    if size > LIMIT as u64 {
        None
    } else {
        Some(size as usize)
    }
}

/// Where the parts of the table go.
struct Layout {
    top_dict_len: usize,
    charstrings: usize,
    var_store: usize,
    fd_select: usize,
    fd_array: usize,
    /// The size and the offset of each Private DICT.
    privates: Vec<(usize, usize)>,
}

/// The size and the offset of the Private DICT with number `i`.
spec fn places(size_and_offset: (usize, usize), p: Parts, i: int) -> bool {
    let (size, at) = size_and_offset;
    &&& size == private_bytes(p.font_dicts[i]).len()
    &&& size <= LIMIT
    &&& at == private_at(p, i)
    &&& at <= LIMIT
    &&& fits_index(p.font_dicts[i].local_subrs)
}

spec fn lays_out(layout: Layout, p: Parts) -> bool {
    &&& table_len(p) <= LIMIT
    &&& layout.top_dict_len == top_dict_len(p)
    &&& layout.charstrings == charstrings_at(p)
    &&& layout.var_store == var_store_at(p)
    &&& layout.fd_select == fd_select_at(p)
    &&& layout.fd_array == fd_array_at(p)
    &&& layout.privates@.len() == p.font_dicts.len()
    &&& forall|i: int|
        0 <= i < p.font_dicts.len() ==> places(#[trigger] layout.privates@[i], p, i)
    &&& fits_index(p.global_subrs)
    &&& fits_index(p.charstrings)
}

impl FontDictBuilder {
    /// The length of the Private DICT as it will be written.
    fn private_len(&self) -> (r: Option<usize>)
        ensures
            match r {
                Some(n) => n == private_bytes(self@).len() && n <= LIMIT,
                None => private_bytes(self@).len() > LIMIT,
            },
    {
        reveal(private_bytes);
        if self.private.len() > LIMIT {
            None
        } else if self.local_subrs.len() == 0 {
            Some(self.private.len())
        } else {
            within(self.private.len(), 6)
        }
    }
}

impl Cff2Builder {
    /// The lengths of the Font DICTs, unless their INDEX is over the limit.
    fn font_dict_lengths(&self) -> (r: Option<Vec<usize>>)
        ensures
            match r {
                Some(lengths) => lengths@.len() == self@.font_dicts.len() && sum(lengths@)
                    == font_dict_lens(self@.font_dicts) && sum(lengths@) <= LIMIT && (forall|i: int|
                    0 <= i < lengths@.len() ==> total_len(
                        (#[trigger] self@.font_dicts[i]).other_entries,
                    ) <= LIMIT),
                None => font_dict_lens(self@.font_dicts) > LIMIT,
            },
    {
        let mut lengths: Vec<usize> = Vec::new();
        let mut all: usize = 0;
        let ghost fds = self@.font_dicts;
        for i in 0..self.font_dicts.len()
            invariant
                fds == self@.font_dicts,
                lengths@.len() == i,
                all == sum(lengths@),
                all == font_dict_lens(fds.take(i as int)),
                all <= LIMIT,
                forall|k: int|
                    0 <= k < i ==> total_len((#[trigger] fds[k]).other_entries) <= LIMIT,
        {
            let fd: &FontDictBuilder = &self.font_dicts[i];
            proof {
                assert(fds[i as int] == fd@);
                lemma_blocks_step(fds, i as int);
                lemma_blocks_prefix(fds, i + 1);
            }
            let other: usize = match total_within(&fd.other_entries, LIMIT) {
                Some(n) => n,
                None => {
                    return None;
                },
            };
            let len: usize = other + 11;
            all = match within(all, len) {
                Some(n) => n,
                None => {
                    return None;
                },
            };
            let ghost before = lengths@;
            lengths.push(len);
            assert(lengths@.drop_last() =~= before);
        }
        assert(fds.take(fds.len() as int) =~= fds);
        Some(lengths)
    }

    /// The length of the Top DICT, unless it is over the limit.
    fn top_dict_length(&self) -> (r: Option<usize>)
        ensures
            match r {
                Some(n) => n == top_dict_len(self@) && n <= LIMIT,
                None => top_dict_len(self@) > LIMIT,
            },
    {
        proof {
            lemma_total_len_is_concat_len(self@.top_dict_extra);
        }
        let extra: usize = match total_within(&self.top_dict_extra, LIMIT) {
            Some(n) => n,
            None => {
                return None;
            },
        };
        let store: usize = if self.var_store.is_some() {
            6
        } else {
            0
        };
        let select: usize = if self.fd_select.is_some() {
            7
        } else {
            0
        };
        within(extra, 13 + store + select)
    }

    /// Where the parts up to the FDArray go; nothing when the FDArray would start past the
    /// limit.
    fn front(&self) -> (r: Option<Layout>)
        ensures
            match r {
                Some(layout) => layout.top_dict_len == top_dict_len(self@) && layout.charstrings
                    == charstrings_at(self@) && layout.var_store == var_store_at(self@)
                    && layout.fd_select == fd_select_at(self@) && layout.fd_array == fd_array_at(
                    self@,
                ) && layout.fd_array <= LIMIT && layout.privates@.len() == 0 && fits_index(
                    self@.global_subrs,
                ) && fits_index(self@.charstrings),
                None => fd_array_at(self@) > LIMIT,
            },
    {
        proof {
            lemma_total_len_is_concat_len(self@.top_dict_extra);
            reveal(charstrings_at);
            reveal(var_store_at);
            reveal(fd_select_at);
            reveal(fd_array_at);
        }
        let top_dict_len: usize = match self.top_dict_length() {
            Some(n) => n,
            None => {
                return None;
            },
        };
        let globals: usize = match index_len_within(&self.global_subrs) {
            Some(n) => n,
            None => {
                return None;
            },
        };
        let programs: usize = match index_len_within(&self.charstrings) {
            Some(n) => n,
            None => {
                return None;
            },
        };
        // The parts are each within the limit, so `u64` holds their sum.
        let charstrings: u64 = 5 + top_dict_len as u64 + globals as u64;
        let var_store: u64 = charstrings + programs as u64;
        let store_len: u64 = match &self.var_store {
            Some(store) => {
                if store.len() > LIMIT {
                    return None;
                }
                2 + store.len() as u64
            },
            None => 0,
        };
        let fd_select: u64 = var_store + store_len;
        let select_len: u64 = match &self.fd_select {
            Some(select) => {
                if select.len() > LIMIT {
                    return None;
                }
                select.len() as u64
            },
            None => 0,
        };
        let fd_array: u64 = fd_select + select_len;
        if fd_array > LIMIT as u64 {
            return None;
        }
        Some(
            Layout {
                top_dict_len,
                charstrings: charstrings as usize,
                var_store: var_store as usize,
                fd_select: fd_select as usize,
                fd_array: fd_array as usize,
                privates: Vec::new(),
            },
        )
    }

    /// Where everything goes, or nothing when the table would be too large.
    fn layout(&self) -> (r: Option<Layout>)
        ensures
            match r {
                Some(layout) => lays_out(layout, self@),
                None => table_len(self@) > LIMIT,
            },
    {
        let ghost p = self@;
        let ghost fds = p.font_dicts;
        proof {
            lemma_blocks_prefix(fds, fds.len() as int);
            assert(fds.take(fds.len() as int) =~= fds);
            let w = offset_width(font_dict_lens(fds) + 1);
            assert(fds.len() + 1 <= (fds.len() + 1) * w <= (fds.len() + 1) * 4)
                by (nonlinear_arith)
                requires
                    1 <= w <= 4,
            ;
            lemma_front_grows(p);
            reveal(fd_array_len);
        }
        let front: Layout = match self.front() {
            Some(front) => front,
            None => {
                return None;
            },
        };
        if self.font_dicts.len() > LIMIT / 11 {
            return None;
        }
        let lengths: Vec<usize> = match self.font_dict_lengths() {
            Some(lengths) => lengths,
            None => {
                return None;
            },
        };
        let mut cursor: usize = match within(front.fd_array, index_length(&lengths)) {
            Some(n) => n,
            None => {
                return None;
            },
        };
        assert(private_blocks(fds.take(0)) =~= Seq::<u8>::empty());
        let mut privates: Vec<(usize, usize)> = Vec::new();
        for i in 0..self.font_dicts.len()
            invariant
                p == self@,
                fds == p.font_dicts,
                cursor == private_at(p, i as int),
                cursor <= LIMIT,
                privates@.len() == i,
                forall|k: int| 0 <= k < i ==> places(#[trigger] privates@[k], p, k),
        {
            let fd: &FontDictBuilder = &self.font_dicts[i];
            proof {
                assert(fds[i as int] == fd@);
                assert(fds.take(fds.len() as int) =~= fds);
                lemma_blocks_step(fds, i as int);
                lemma_blocks_prefix(fds, i + 1);
            }
            let size: usize = match fd.private_len() {
                Some(n) => n,
                None => {
                    return None;
                },
            };
            let subrs: usize = match index_len_within(&fd.local_subrs) {
                Some(n) => n,
                None => {
                    return None;
                },
            };
            privates.push((size, cursor));
            cursor = match within(cursor, size) {
                Some(n) => n,
                None => {
                    return None;
                },
            };
            cursor = match within(cursor, subrs) {
                Some(n) => n,
                None => {
                    return None;
                },
            };
        }
        Some(
            Layout {
                top_dict_len: front.top_dict_len,
                charstrings: front.charstrings,
                var_store: front.var_store,
                fd_select: front.fd_select,
                fd_array: front.fd_array,
                privates,
            },
        )
    }

    /// The Font DICT with number `i`.
    fn font_dict(&self, layout: &Layout, i: usize) -> (dict: Vec<u8>)
        requires
            lays_out(*layout, self@),
            i < self.font_dicts@.len(),
        ensures
            dict@ == font_dict_bytes(self@, i as int),
    {
        let fd: &FontDictBuilder = &self.font_dicts[i];
        reveal(font_dict_bytes);
        assert(self@.font_dicts[i as int] == fd@);
        assert(places(layout.privates@[i as int], self@, i as int));
        let mut dict: Vec<u8> = Vec::new();
        push_items(&fd.other_entries, &mut dict);
        let (size, at): (usize, usize) = layout.privates[i];
        write_dict_offset(size as i32, &mut dict);
        write_dict_offset(at as i32, &mut dict);
        dict.push(PRIVATE as u8);
        assert(dict@ =~= font_dict_bytes(self@, i as int));
        dict
    }

    /// Append the Top DICT.
    fn write_top_dict(&self, layout: &Layout, out: &mut Vec<u8>)
        requires
            lays_out(*layout, self@),
            fd_array_at(self@) <= LIMIT,
        ensures
            final(out)@ == old(out)@ + top_dict_bytes(self@),
    {
        let ghost p = self@;
        proof {
            lemma_front_grows(p);
        }
        let ghost before = out@ + concat(p.top_dict_extra);
        let ghost list = Seq::<(int, u16)>::empty();
        push_items(&self.top_dict_extra, out);
        assert(out@ =~= before + offset_entries(list));
        write_offset_entry(layout.charstrings, CHARSTRINGS, out, Ghost(before), Ghost(list));
        let ghost list = list.push((charstrings_at(p), CHARSTRINGS));
        if self.var_store.is_some() {
            write_offset_entry(layout.var_store, VAR_STORE, out, Ghost(before), Ghost(list));
        }
        let ghost list = if p.var_store is Some {
            list.push((var_store_at(p), VAR_STORE))
        } else {
            list
        };
        if self.fd_select.is_some() {
            write_offset_entry(layout.fd_select, FD_SELECT, out, Ghost(before), Ghost(list));
        }
        let ghost list = if p.fd_select is Some {
            list.push((fd_select_at(p), FD_SELECT))
        } else {
            list
        };
        write_offset_entry(layout.fd_array, FD_ARRAY, out, Ghost(before), Ghost(list));
        proof {
            let list = list.push((fd_array_at(p), FD_ARRAY));
            reveal(top_offsets);
            assert(list =~= top_offsets(p));
            assert(out@ =~= old(out)@ + top_dict_bytes(p));
        }
    }

    /// The table up to the FDArray.
    #[verifier::rlimit(60)]
    #[verifier::spinoff_prover]
    fn write_front(&self, layout: &Layout) -> (out: Vec<u8>)
        requires
            lays_out(*layout, self@),
            fd_array_at(self@) <= LIMIT,
            self@.var_store matches Some(store) ==> store.len() <= u16::MAX,
        ensures
            out@ == front_bytes(self@),
    {
        reveal(front_bytes);
        let ghost p = self@;
        let mut out: Vec<u8> = Vec::new();
        out.push(2);
        out.push(0);
        out.push(5);
        assert(out@ =~= seq![2u8, 0u8, 5u8]);
        // Two bytes hold the length of the Top DICT.
        push_u16(&mut out, (layout.top_dict_len % 0x1_0000) as u16);
        assert(be16(top_dict_len(p) % 0x1_0000) =~= be16(top_dict_len(p)));
        self.write_top_dict(layout, &mut out);
        push_all(&mut out, write_index(&self.global_subrs).as_slice());
        push_all(&mut out, write_index(&self.charstrings).as_slice());
        let ghost before = out@;
        if let Some(store) = &self.var_store {
            push_u16(&mut out, store.len() as u16);
            push_all(&mut out, store.as_slice());
        }
        assert(out@ =~= before + var_store_bytes(p));
        let ghost before = out@;
        if let Some(select) = &self.fd_select {
            push_all(&mut out, select.as_slice());
        }
        assert(out@ =~= before + fd_select_bytes(p));
        out
    }

    /// Append the Private DICTs, each with its local subroutines.
    fn write_privates(&self, out: &mut Vec<u8>)
        requires
            forall|i: int|
                0 <= i < self@.font_dicts.len() ==> fits_index(
                    (#[trigger] self@.font_dicts[i]).local_subrs,
                ) && private_bytes(self@.font_dicts[i]).len() <= LIMIT,
        ensures
            final(out)@ == old(out)@ + private_blocks(self@.font_dicts),
    {
        let ghost before = out@;
        let ghost fds = self@.font_dicts;
        assert(private_blocks(fds.take(0)) =~= Seq::<u8>::empty());
        for i in 0..self.font_dicts.len()
            invariant
                fds == self@.font_dicts,
                out@ == before + private_blocks(fds.take(i as int)),
                forall|k: int|
                    0 <= k < fds.len() ==> fits_index((#[trigger] fds[k]).local_subrs)
                        && private_bytes(fds[k]).len() <= LIMIT,
        {
            let fd: &FontDictBuilder = &self.font_dicts[i];
            let ghost so_far = out@;
            reveal(private_bytes);
            assert(fds[i as int] == fd@);
            push_all(out, fd.private.as_slice());
            if fd.local_subrs.len() > 0 {
                write_dict_offset((fd.private.len() + 6) as i32, out);
                write_dict_operator(SUBRS, out);
            }
            assert(out@ =~= so_far + private_bytes(fd@));
            push_all(out, write_index(&fd.local_subrs).as_slice());
            proof {
                lemma_blocks_step(fds, i as int);
            }
            assert(out@ =~= before + private_blocks(fds.take(i + 1)));
        }
        assert(fds.take(fds.len() as int) =~= fds);
    }

    /// Serialise the table.
    pub fn build(&self) -> (r: Result<Vec<u8>, SliceError>)
        ensures
            match r {
                Ok(bytes) => table_len(self@) <= i32::MAX && (self@.var_store matches Some(store)
                    ==> store.len() <= u16::MAX) && bytes@ == table_bytes(self@),
                Err(e) => if table_len(self@) > i32::MAX {
                    e@ == too_large()
                } else {
                    (self@.var_store matches Some(store) && store.len() > u16::MAX) && e@
                        == store_too_large()
                },
            },
    {
        let ghost p = self@;
        let layout: Layout = match self.layout() {
            Some(layout) => layout,
            None => {
                return Err(
                    write_error("the CFF2 table would be larger than its offsets can address"),
                );
            },
        };
        if let Some(store) = &self.var_store {
            if store.len() > 0xffff {
                return Err(write_error("the CFF2 variation store is larger than 64KB"));
            }
        }
        proof {
            let fds = p.font_dicts;
            lemma_blocks_prefix(fds, fds.len() as int);
            assert(fds.take(fds.len() as int) =~= fds);
            index_length_is_known(font_dicts_bytes(p));
            lemma_font_dict_total(p, fds.len() as int);
            assert(font_dicts_bytes(p).take(fds.len() as int) =~= font_dicts_bytes(p));
            let w = offset_width(font_dict_lens(fds) + 1);
            assert(fds.len() + 1 <= (fds.len() + 1) * w) by (nonlinear_arith)
                requires
                    1 <= w <= 4,
            ;
            lemma_front_grows(p);
            reveal(fd_array_len);
        }
        let mut out: Vec<u8> = self.write_front(&layout);
        let mut dicts: Vec<Vec<u8>> = Vec::new();
        for i in 0..self.font_dicts.len()
            invariant
                p == self@,
                lays_out(layout, p),
                dicts@.len() == i,
                forall|k: int| 0 <= k < i ==> (#[trigger] dicts@[k])@ == font_dict_bytes(p, k),
        {
            dicts.push(self.font_dict(&layout, i));
        }
        assert(views(dicts@) =~= font_dicts_bytes(p));
        push_all(&mut out, write_index(&dicts).as_slice());
        proof {
            assert forall|i: int| 0 <= i < p.font_dicts.len() implies fits_index(
                (#[trigger] p.font_dicts[i]).local_subrs,
            ) && private_bytes(p.font_dicts[i]).len() <= LIMIT by {
                assert(places(layout.privates@[i], p, i));
            }
        }
        self.write_privates(&mut out);
        Ok(out)
    }
}

/// Append one offset entry behind those of `list`.
fn write_offset_entry(
    at: usize,
    operator: u16,
    out: &mut Vec<u8>,
    Ghost(before): Ghost<Seq<u8>>,
    Ghost(list): Ghost<Seq<(int, u16)>>,
)
    requires
        at <= LIMIT,
        old(out)@ == before + offset_entries(list),
    ensures
        final(out)@ == before + offset_entries(list.push((at as int, operator))),
{
    write_dict_offset(at as i32, out);
    write_dict_operator(operator, out);
    assert(list.push((at as int, operator)).drop_last() =~= list);
    assert(out@ =~= before + offset_entries(list.push((at as int, operator))));
}

/// Append all of `items`.
fn push_items(items: &Vec<Vec<u8>>, out: &mut Vec<u8>)
    ensures
        final(out)@ == old(out)@ + concat(views(items@)),
{
    let ghost all = views(items@);
    let ghost before = out@;
    for i in 0..items.len()
        invariant
            all == views(items@),
            out@ == before + concat(all.take(i as int)),
    {
        push_all(out, items[i].as_slice());
        proof {
            lemma_take_step(all, i as int);
        }
        assert(out@ =~= before + concat(all.take(i + 1)));
    }
    assert(all.take(all.len() as int) =~= all);
}

// ------------------------------------------------------------------------------- laws

pub proof fn lemma_front_len(p: Parts)
    ensures
        front_bytes(p).len() == fd_array_at(p),
        top_dict_bytes(p).len() == top_dict_len(p),
        5 + top_dict_len(p) <= fd_array_at(p),
        front_bytes(p).subrange(0, 3) == seq![2u8, 0u8, 5u8],
        front_bytes(p).subrange(3, 5) == be16(top_dict_len(p)),
        front_bytes(p).subrange(5, 5 + top_dict_len(p)) == top_dict_bytes(p),
        charstrings_at(p) <= var_store_at(p) <= fd_select_at(p) <= fd_array_at(p),
        front_bytes(p).subrange(5 + top_dict_len(p), charstrings_at(p)) == index_bytes(
            p.global_subrs,
        ),
        front_bytes(p).subrange(charstrings_at(p), var_store_at(p)) == index_bytes(p.charstrings),
        front_bytes(p).subrange(var_store_at(p), fd_select_at(p)) == var_store_bytes(p),
        front_bytes(p).subrange(fd_select_at(p), fd_array_at(p)) == fd_select_bytes(p),
{
    reveal(front_bytes);
    reveal(charstrings_at);
    reveal(var_store_at);
    reveal(fd_select_at);
    reveal(fd_array_at);
    lemma_top_dict_len(p);
    lemma_total_len_is_concat_len(p.top_dict_extra);
    let head = seq![2u8, 0u8, 5u8];
    let sized = head + be16(top_dict_len(p));
    let dict = sized + top_dict_bytes(p);
    let globals = dict + index_bytes(p.global_subrs);
    let programs = globals + index_bytes(p.charstrings);
    let store = programs + var_store_bytes(p);
    lemma_append(head, be16(top_dict_len(p)));
    lemma_append(sized, top_dict_bytes(p));
    lemma_append(dict, index_bytes(p.global_subrs));
    lemma_append(globals, index_bytes(p.charstrings));
    lemma_append(programs, var_store_bytes(p));
    lemma_append(store, fd_select_bytes(p));
    assert(front_bytes(p) == store + fd_select_bytes(p));
    assert(head.subrange(0, 3) =~= head);
}

proof fn lemma_top_dict_len(p: Parts)
    ensures
        top_dict_bytes(p).len() == top_dict_len(p),
{
    lemma_total_len_is_concat_len(p.top_dict_extra);
    lemma_offset_entries_len(top_offsets(p));
    lemma_offset_lens(p);
}

/// How long offset entries are together.
spec fn offset_lens(list: Seq<(int, u16)>) -> int
    decreases list.len(),
{
    if list.len() == 0 {
        0
    } else {
        offset_lens(list.drop_last()) + 5 + dict_operator(list.last().1 as int).len()
    }
}

proof fn lemma_offset_entries_len(list: Seq<(int, u16)>)
    ensures
        offset_entries(list).len() == offset_lens(list),
    decreases list.len(),
{
    if list.len() > 0 {
        lemma_offset_entries_len(list.drop_last());
    }
}

proof fn lemma_offset_lens(p: Parts)
    ensures
        offset_lens(top_offsets(p)) == top_dict_len(p) - total_len(p.top_dict_extra),
{
    reveal(top_offsets);
    let l0 = Seq::<(int, u16)>::empty();
    let l1 = l0.push((charstrings_at(p), CHARSTRINGS));
    assert(l1.drop_last() =~= l0);
    let l2 = if p.var_store is Some {
        l1.push((var_store_at(p), VAR_STORE))
    } else {
        l1
    };
    assert(p.var_store is Some ==> l2.drop_last() =~= l1);
    let l3 = if p.fd_select is Some {
        l2.push((fd_select_at(p), FD_SELECT))
    } else {
        l2
    };
    assert(p.fd_select is Some ==> l3.drop_last() =~= l2);
    let l4 = l3.push((fd_array_at(p), FD_ARRAY));
    assert(l4.drop_last() =~= l3);
    assert(l4 =~= top_offsets(p));
    assert(offset_lens(l0) == 0);
    assert(offset_lens(l1) == 6);
    assert(offset_lens(l2) == 6 + (if p.var_store is Some {
        6int
    } else {
        0
    }));
    assert(offset_lens(l3) == offset_lens(l2) + (if p.fd_select is Some {
        7int
    } else {
        0
    }));
    assert(offset_lens(l4) == offset_lens(l3) + 7);
}

proof fn lemma_blocks_slice(fds: Seq<FontParts>, i: int)
    requires
        0 <= i < fds.len(),
    ensures
        private_blocks(fds.take(i)).len() + private_block(fds[i]).len() <= private_blocks(
            fds,
        ).len(),
        private_blocks(fds).subrange(
            private_blocks(fds.take(i)).len() as int,
            (private_blocks(fds.take(i)).len() + private_block(fds[i]).len()) as int,
        ) == private_block(fds[i]),
    decreases fds.len(),
{
    let at = private_blocks(fds.take(i)).len() as int;
    let len = private_block(fds[i]).len() as int;
    if i == fds.len() - 1 {
        assert(fds.take(i) =~= fds.drop_last());
        assert(private_blocks(fds).subrange(at, at + len) =~= private_block(fds[i]));
    } else {
        lemma_blocks_slice(fds.drop_last(), i);
        assert(fds.drop_last().take(i) =~= fds.take(i));
        assert(private_blocks(fds).subrange(at, at + len) =~= private_blocks(
            fds.drop_last(),
        ).subrange(at, at + len));
    }
}

/// The layout is worked out before anything is written, and the written table is exactly
/// as long and has every part exactly where the layout says.
pub proof fn every_part_is_where_the_layout_says(p: Parts)
    ensures
        table_bytes(p).len() == table_len(p),
        0 <= charstrings_at(p) <= var_store_at(p) <= fd_select_at(p) <= fd_array_at(p)
            <= table_len(p),
        table_bytes(p).subrange(5, 5 + top_dict_len(p)) == top_dict_bytes(p),
        table_bytes(p).subrange(charstrings_at(p), var_store_at(p)) == index_bytes(p.charstrings),
        table_bytes(p).subrange(var_store_at(p), fd_select_at(p)) == var_store_bytes(p),
        table_bytes(p).subrange(fd_select_at(p), fd_array_at(p)) == fd_select_bytes(p),
        fd_array_at(p) + fd_array_len(p) <= table_len(p),
        table_bytes(p).subrange(fd_array_at(p), fd_array_at(p) + fd_array_len(p)) == index_bytes(
            font_dicts_bytes(p),
        ),
        forall|i: int|
            0 <= i < p.font_dicts.len() ==> #[trigger] private_at(p, i) + private_block(
                p.font_dicts[i],
            ).len() <= table_len(p) && table_bytes(p).subrange(
                private_at(p, i),
                private_at(p, i) + private_block(p.font_dicts[i]).len(),
            ) == private_block(p.font_dicts[i]),
{
    let fds = p.font_dicts;
    let t = table_bytes(p);
    let f = front_bytes(p);
    lemma_front_len(p);
    lemma_front_grows(p);
    index_length_is_known(font_dicts_bytes(p));
    lemma_font_dict_total(p, fds.len() as int);
    assert(font_dicts_bytes(p).take(fds.len() as int) =~= font_dicts_bytes(p));
    assert(fds.take(fds.len() as int) =~= fds);
    reveal(fd_array_len);
    assert(t.subrange(5, 5 + top_dict_len(p)) =~= f.subrange(5, 5 + top_dict_len(p)));
    assert(t.subrange(charstrings_at(p), var_store_at(p)) =~= f.subrange(
        charstrings_at(p),
        var_store_at(p),
    ));
    assert(t.subrange(var_store_at(p), fd_select_at(p)) =~= f.subrange(
        var_store_at(p),
        fd_select_at(p),
    ));
    assert(t.subrange(fd_select_at(p), fd_array_at(p)) =~= f.subrange(
        fd_select_at(p),
        fd_array_at(p),
    ));
    assert(t.subrange(fd_array_at(p), fd_array_at(p) + fd_array_len(p)) =~= index_bytes(
        font_dicts_bytes(p),
    ));
    assert forall|i: int| 0 <= i < fds.len() implies #[trigger] private_at(p, i) + private_block(
        fds[i],
    ).len() <= table_len(p) && t.subrange(
        private_at(p, i),
        private_at(p, i) + private_block(fds[i]).len(),
    ) == private_block(fds[i]) by {
        lemma_blocks_slice(fds, i);
        let at = private_blocks(fds.take(i)).len() as int;
        let len = private_block(fds[i]).len() as int;
        assert(t.subrange(private_at(p, i), private_at(p, i) + len) =~= private_blocks(
            fds,
        ).subrange(at, at + len));
    }
}

/// The entries that offsets and their operators read as.
pub open spec fn offset_entry_views(list: Seq<(int, u16)>) -> Seq<Entry> {
    list.map_values(
        |e: (int, u16)|
            Entry {
                operator: e.1 as int,
                operands: seq![DictValue::Integer(e.0)],
                raw: offset_entry(e.0, e.1),
            },
    )
}

pub proof fn lemma_offset_entries_read(d: Seq<u8>, pos: int, list: Seq<(int, u16)>, out: Seq<Entry>)
    requires
        0 <= pos,
        pos + offset_entries(list).len() <= d.len(),
        d.subrange(pos, pos + offset_entries(list).len()) == offset_entries(list),
        forall|i: int|
            0 <= i < list.len() ==> i32::MIN <= (#[trigger] list[i]).0 <= i32::MAX && (list[i].1
                <= 27 && list[i].1 != 12 || 1200 <= list[i].1 < 1456),
    ensures
        entries_from(d, pos, pos, Seq::empty(), out) == entries_from(
            d,
            pos + offset_entries(list).len(),
            pos + offset_entries(list).len(),
            Seq::empty(),
            out + offset_entry_views(list),
        ),
    decreases list.len(),
{
    if list.len() == 0 {
        assert(out + offset_entry_views(list) =~= out);
    } else {
        let front = list.drop_last();
        let (at, operator) = list.last();
        let a = offset_entries(front);
        let e = offset_entry(at, operator);
        lemma_append(a, e);
        let whole = d.subrange(pos, pos + (a + e).len());
        let next = pos + a.len();
        assert(d.subrange(pos, next) =~= whole.subrange(0, a.len() as int));
        assert((a + e).subrange(0, a.len() as int) =~= a);
        assert(d.subrange(next, next + e.len()) =~= whole.subrange(
            a.len() as int,
            (a.len() + e.len()) as int,
        ));
        assert forall|i: int| 0 <= i < front.len() implies i32::MIN <= (#[trigger] front[i]).0
            <= i32::MAX && (front[i].1 <= 27 && front[i].1 != 12 || 1200 <= front[i].1 < 1456) by {
            assert(front[i] == list[i]);
        }
        lemma_offset_entries_read(d, pos, front, out);
        let last = list.len() - 1;
        assert(list[last] == list.last());
        let so_far = out + offset_entry_views(front);
        lemma_offset_entry_reads(d, next, at, dict_operator(operator as int), so_far);
        assert(so_far.push(
            Entry {
                operator: operator as int,
                operands: seq![DictValue::Integer(at)],
                raw: offset_entry(at, operator),
            },
        ) =~= out + offset_entry_views(list));
    }
}

/// The Top DICT reads back as the entries that were copied, followed by the offsets of
/// the parts.
pub proof fn the_top_dict_names_every_part(p: Parts, extra: Seq<Entry>)
    requires
        table_len(p) <= i32::MAX,
        dict_entries(concat(p.top_dict_extra)) == Ok::<Seq<Entry>, Problem>(extra),
    ensures
        dict_entries(top_dict_bytes(p)) == Ok::<Seq<Entry>, Problem>(
            extra + offset_entry_views(top_offsets(p)),
        ),
{
    every_part_is_where_the_layout_says(p);
    let list = top_offsets(p);
    let a = concat(p.top_dict_extra);
    let b = offset_entries(list);
    let d = a + b;
    lemma_append(a, b);
    lemma_entries_extend(a, b, 0, 0, Seq::empty(), Seq::empty());
    assert forall|i: int| 0 <= i < list.len() implies i32::MIN <= (#[trigger] list[i]).0
        <= i32::MAX && (list[i].1 <= 27 && list[i].1 != 12 || 1200 <= list[i].1 < 1456) by {
        reveal(top_offsets);
    }
    lemma_offset_entries_read(d, a.len() as int, list, extra);
}

} // verus!
