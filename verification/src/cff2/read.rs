//! Taking a CFF2 table apart.
use vstd::prelude::*;

use read_fonts::ps::cff::index::Index;
use read_fonts::tables::cff2::Cff2;
use read_fonts::{FontData, FontRead};

use crate::bytes::{copy, copy_range, push_all, u16_at, u32_at, views};
use crate::error::{Problem, SliceError};
use crate::text::{decimal, decimal_of, join2, join3};
use super::dict::{
    dict_entries, entries_view, numbers, parse_dict, DictEntry, DictNumber, DictValue, Entry,
};
use super::num::{be_value, malformed, malformed_table};
use super::table::{
    CHARSTRINGS, FD_ARRAY, FD_SELECT, PRIVATE, PRIVATE_VSINDEX, SUBRS, VAR_STORE,
};

verus! {

/// A CFF2 table taken apart into the pieces instancing needs.
pub struct Cff2Table {
    pub top_dict: Vec<DictEntry>,
    pub global_subrs: Vec<Vec<u8>>,
    pub charstrings: Vec<Vec<u8>>,
    /// The ItemVariationStore, without the two-byte length that precedes it in the file.
    pub var_store: Option<Vec<u8>>,
    /// FDSelect exactly as stored. Glyph order does not change, so neither does this.
    pub fd_select: Option<Vec<u8>>,
    pub font_dicts: Vec<FontDict>,
}

/// One entry of the FDArray: a Font DICT and the Private DICT it points at.
pub struct FontDict {
    /// Everything except the `Private` entry, which is rebuilt.
    pub other_entries: Vec<DictEntry>,
    pub private: Vec<DictEntry>,
    pub local_subrs: Vec<Vec<u8>>,
}

/// What a [`FontDict`] holds.
pub struct FontDictView {
    pub other_entries: Seq<Entry>,
    pub private: Seq<Entry>,
    pub local_subrs: Seq<Seq<u8>>,
}

/// What a [`Cff2Table`] holds.
pub struct TableView {
    pub top_dict: Seq<Entry>,
    pub global_subrs: Seq<Seq<u8>>,
    pub charstrings: Seq<Seq<u8>>,
    pub var_store: Option<Seq<u8>>,
    pub fd_select: Option<Seq<u8>>,
    pub font_dicts: Seq<FontDictView>,
}

impl View for FontDict {
    type V = FontDictView;

    open spec fn view(&self) -> FontDictView {
        FontDictView {
            other_entries: entries_view(self.other_entries@),
            private: entries_view(self.private@),
            local_subrs: views(self.local_subrs@),
        }
    }
}

pub open spec fn opt_view(bytes: Option<Vec<u8>>) -> Option<Seq<u8>> {
    match bytes {
        Some(bytes) => Some(bytes@),
        None => None,
    }
}

impl View for Cff2Table {
    type V = TableView;

    open spec fn view(&self) -> TableView {
        TableView {
            top_dict: entries_view(self.top_dict@),
            global_subrs: views(self.global_subrs@),
            charstrings: views(self.charstrings@),
            var_store: opt_view(self.var_store),
            fd_select: opt_view(self.fd_select),
            font_dicts: self.font_dicts@.map_values(|fd: FontDict| fd@),
        }
    }
}

// ------------------------------------------------------------------------------ INDEX

/// True when `data` starts with an INDEX: it holds a count and an offset width, or a bare
/// count of zero.
pub open spec fn has_index(data: Seq<u8>) -> bool {
    data.len() >= 5 || (data.len() == 4 && u32_at(data, 0) == 0)
}

/// How many items the INDEX that starts `data` has.
pub open spec fn index_count(data: Seq<u8>) -> int {
    u32_at(data, 0)
}

/// Where the items of the INDEX that starts `data` begin.
pub open spec fn index_base(data: Seq<u8>) -> int {
    5 + (index_count(data) + 1) * data[4]
}

/// The offset with number `i`, counted from zero; none when it is missing or when the
/// width is not one the format has.
pub open spec fn index_offset(data: Seq<u8>, i: int) -> Option<int> {
    let width = data[4] as int;
    if data.len() < 5 || i > index_count(data) || !(1 <= width <= 4) || index_base(data)
        > data.len() {
        None
    } else {
        let v = be_value(data.subrange(5 + i * width, 5 + (i + 1) * width));
        if v == 0 {
            None
        } else {
            Some(v - 1)
        }
    }
}

/// The item with number `i` of the INDEX that starts `data`, if the INDEX has it.
pub open spec fn index_get(data: Seq<u8>, i: int) -> Option<Seq<u8>> {
    match (index_offset(data, i), index_offset(data, i + 1)) {
        (Some(from), Some(to)) => if from <= to && index_base(data) + to <= data.len() {
            Some(data.subrange(index_base(data) + from, index_base(data) + to))
        } else {
            None
        },
        _ => None,
    }
}

/// Calls `Index::new` and `Index::count` of `read_fonts`. The count is the first four
/// bytes; there is none when the data is too short for an INDEX.
#[verifier::external_body]
fn count_of(data: &[u8]) -> (r: Option<u32>)
    ensures
        match r {
            Some(n) => has_index(data@) && n == index_count(data@),
            None => !has_index(data@),
        },
{
    Index::new(data, true).ok().map(|index| index.count())
}

/// Calls `Index::get` of `read_fonts`, which gives the bytes between one offset and the
/// next, or nothing when either is missing, they are out of order, or they reach past the
/// end of the data.
#[verifier::external_body]
fn item_of(data: &[u8], i: usize) -> (r: Option<Vec<u8>>)
    requires
        has_index(data@),
        i < usize::MAX,
    ensures
        match r {
            Some(item) => index_get(data@, i as int) == Some(item@),
            None => index_get(data@, i as int) is None,
        },
{
    let index = Index::new(data, true).ok()?;
    index.get(i).map(|item| item.to_vec())
}

/// The items of the INDEX that starts `tail`, from number `i` on, after `items`.
pub open spec fn items_from(tail: Seq<u8>, i: int, items: Seq<Seq<u8>>) -> Result<
    Seq<Seq<u8>>,
    Problem,
>
    decreases index_count(tail) - i,
{
    if i >= index_count(tail) {
        Ok(items)
    } else {
        match index_get(tail, i) {
            Some(item) => items_from(tail, i + 1, items.push(item)),
            None => Err(malformed_table("bad INDEX entry "@ + decimal(i as nat))),
        }
    }
}

/// The items of the INDEX at `at`.
pub open spec fn items_at(data: Seq<u8>, at: int) -> Result<Seq<Seq<u8>>, Problem> {
    if at > data.len() {
        Err(malformed_table("an INDEX offset is out of bounds"@))
    } else if !has_index(data.skip(at)) {
        Err(malformed_table("bad INDEX"@))
    } else {
        items_from(data.skip(at), 0, Seq::empty())
    }
}

/// The items of the INDEX at `at`.
pub fn index_items(data: &[u8], at: usize) -> (r: Result<Vec<Vec<u8>>, SliceError>)
    ensures
        match r {
            Ok(items) => items_at(data@, at as int) == Ok::<Seq<Seq<u8>>, Problem>(
                views(items@),
            ),
            Err(e) => items_at(data@, at as int) == Err::<Seq<Seq<u8>>, Problem>(e@),
        },
{
    if at > data.len() {
        return Err(malformed("an INDEX offset is out of bounds"));
    }
    let tail: &[u8] = vstd::slice::slice_subrange(data, at, data.len());
    assert(tail@ =~= data@.skip(at as int));
    let count: u32 = match count_of(tail) {
        Some(count) => count,
        None => {
            return Err(malformed("bad INDEX"));
        },
    };
    let mut items: Vec<Vec<u8>> = Vec::new();
    assert(views(items@) =~= Seq::<Seq<u8>>::empty());
    let mut i: u32 = 0;
    while i < count
        invariant
            i <= count,
            has_index(tail@),
            count == index_count(tail@),
            items_at(data@, at as int) == items_from(tail@, i as int, views(items@)),
        decreases count - i,
    {
        // A number of items that does not fit the address space has none past its end.
        if i as u64 >= usize::MAX as u64 {
            proof {
                lemma_no_item(tail@, i as int);
            }
            return Err(malformed(join2("bad INDEX entry ", decimal_of(i as u64).as_str()).as_str()));
        }
        match item_of(tail, i as usize) {
            Some(item) => {
                let ghost before = views(items@);
                items.push(item);
                assert(views(items@) =~= before.push(item@));
            },
            None => {
                return Err(
                    malformed(join2("bad INDEX entry ", decimal_of(i as u64).as_str()).as_str()),
                );
            },
        }
        i = i + 1;
    }
    Ok(items)
}

/// An INDEX cannot hold more offsets than it has bytes.
proof fn lemma_no_item(data: Seq<u8>, i: int)
    requires
        data.len() <= usize::MAX,
        usize::MAX <= i,
        i < index_count(data),
    ensures
        index_get(data, i) is None,
{
    let width = data[4] as int;
    if 1 <= width {
        assert((index_count(data) + 1) * width >= index_count(data) + 1) by (nonlinear_arith)
            requires
                1 <= width,
                index_count(data) + 1 >= 0,
        ;
    }
}

// ----------------------------------------------------------------------------- header

/// The header of a CFF2 table: its size, the length of the Top DICT, and the Top DICT. There
/// is none unless the Top DICT is followed by the five bytes an INDEX starts with.
pub open spec fn header_of(data: Seq<u8>) -> Option<(int, int, Seq<u8>)> {
    if data.len() < 5 {
        None
    } else {
        let start: int = if data[2] > 5 {
            data[2] as int
        } else {
            5
        };
        let end = start + u16_at(data, 3);
        if end + 5 > data.len() {
            None
        } else {
            Some((data[2] as int, u16_at(data, 3), data.subrange(start, end)))
        }
    }
}

/// Calls `Cff2::read` of `read_fonts` and takes the header fields and the Top DICT from
/// it. They are where the format puts them; reading fails when the table is too short for
/// them and for the start of the INDEX that follows.
#[verifier::external_body]
fn read_header(data: &[u8]) -> (r: Option<(u8, u16, Vec<u8>)>)
    ensures
        match r {
            Some((size, len, top)) => header_of(data@) == Some(
                (size as int, len as int, top@),
            ),
            None => header_of(data@) is None,
        },
{
    let cff2 = Cff2::read(FontData::new(data)).ok()?;
    let header = cff2.header();
    Some((header.header_size(), header.top_dict_length(), cff2.top_dict_data().to_vec()))
}

// --------------------------------------------------------------------------- FDSelect

/// The length of the FDSelect at `at`, which follows from its format.
pub open spec fn fd_select_len(data: Seq<u8>, at: int, num_glyphs: int) -> Result<int, Problem> {
    if at >= data.len() {
        Err(malformed_table("the FDSelect offset is out of bounds"@))
    } else if data[at] == 0 {
        // Format 0 has one byte per glyph and stores no count of its own.
        Ok(1 + num_glyphs)
    } else if data[at] == 3 {
        if at + 3 > data.len() {
            Err(malformed_table("FDSelect runs past the table"@))
        } else {
            Ok(3 + u16_at(data, at + 1) * 3 + 2)
        }
    } else if data[at] == 4 {
        if at + 5 > data.len() {
            Err(malformed_table("FDSelect runs past the table"@))
        } else {
            Ok(5 + u32_at(data, at + 1) * 6 + 4)
        }
    } else {
        Err(malformed_table("FDSelect format "@ + decimal(data[at] as nat) + " is not defined"@))
    }
}

/// The FDSelect at `at`, exactly as stored.
pub open spec fn fd_select_at(data: Seq<u8>, at: int, num_glyphs: int) -> Result<
    Seq<u8>,
    Problem,
> {
    match fd_select_len(data, at, num_glyphs) {
        Err(p) => Err(p),
        Ok(len) => if at + len > data.len() {
            Err(malformed_table("FDSelect runs past the table"@))
        } else {
            Ok(data.subrange(at, at + len))
        },
    }
}

/// FDSelect exactly as stored, which needs its length worked out from its format.
pub fn read_fd_select(data: &[u8], at: usize, num_glyphs: usize) -> (r: Result<
    Vec<u8>,
    SliceError,
>)
    ensures
        match r {
            Ok(select) => fd_select_at(data@, at as int, num_glyphs as int) == Ok::<
                Seq<u8>,
                Problem,
            >(select@),
            Err(e) => fd_select_at(data@, at as int, num_glyphs as int) == Err::<
                Seq<u8>,
                Problem,
            >(e@),
        },
{
    if at >= data.len() {
        return Err(malformed("the FDSelect offset is out of bounds"));
    }
    let left: usize = data.len() - at;
    let format: u8 = data[at];
    let length: u128 = if format == 0 {
        1 + num_glyphs as u128
    } else if format == 3 {
        if left < 3 {
            return Err(malformed("FDSelect runs past the table"));
        }
        3 + (data[at + 1] as u128 * 256 + data[at + 2] as u128) * 3 + 2
    } else if format == 4 {
        if left < 5 {
            return Err(malformed("FDSelect runs past the table"));
        }
        5 + (data[at + 1] as u128 * 0x100_0000 + data[at + 2] as u128 * 0x1_0000 + data[at
            + 3] as u128 * 256 + data[at + 4] as u128) * 6 + 4
    } else {
        return Err(
            malformed(
                join3(
                    "FDSelect format ",
                    decimal_of(format as u64).as_str(),
                    " is not defined",
                ).as_str(),
            ),
        );
    };
    if length > left as u128 {
        return Err(malformed("FDSelect runs past the table"));
    }
    Ok(copy_range(data, at, at + length as usize))
}

// ----------------------------------------------------------------------- DICT lookups

/// The first entry from `i` on that has this operator.
pub open spec fn entry_with(entries: Seq<Entry>, operator: int, i: int) -> Option<Entry>
    decreases entries.len() - i,
{
    if i < 0 || i >= entries.len() {
        None
    } else if entries[i].operator == operator {
        Some(entries[i])
    } else {
        entry_with(entries, operator, i + 1)
    }
}

/// The first operand of the first entry with this operator.
pub open spec fn operand_of(entries: Seq<Entry>, operator: int) -> Option<DictValue> {
    match entry_with(entries, operator, 0) {
        Some(entry) => if entry.operands.len() > 0 {
            Some(entry.operands[0])
        } else {
            None
        },
        None => None,
    }
}

/// The integer operand of the first entry with this operator. A DICT offset is an integer:
/// a real number in its place is refused.
pub open spec fn integer_of(entries: Seq<Entry>, operator: int) -> Result<Option<int>, Problem> {
    match operand_of(entries, operator) {
        Some(DictValue::Integer(v)) => Ok(Some(v)),
        Some(DictValue::Real(_)) => Err(malformed_table("an offset is not an integer"@)),
        None => Ok(None),
    }
}

fn find_integer(entries: &Vec<DictEntry>, operator: u16) -> (r: Result<Option<i32>, SliceError>)
    ensures
        match r {
            Ok(Some(v)) => integer_of(entries_view(entries@), operator as int) == Ok::<
                Option<int>,
                Problem,
            >(Some(v as int)),
            Ok(None) => integer_of(entries_view(entries@), operator as int) == Ok::<
                Option<int>,
                Problem,
            >(None),
            Err(e) => integer_of(entries_view(entries@), operator as int) == Err::<
                Option<int>,
                Problem,
            >(e@),
        },
{
    let ghost all = entries_view(entries@);
    for i in 0..entries.len()
        invariant
            all == entries_view(entries@),
            entry_with(all, operator as int, 0) == entry_with(all, operator as int, i as int),
    {
        let entry: &DictEntry = &entries[i];
        assert(all[i as int] == entry@);
        if entry.operator == operator {
            if entry.operands.len() == 0 {
                return Ok(None);
            }
            assert(entry@.operands[0] == entry.operands@[0]@);
            return match &entry.operands[0] {
                DictNumber::Integer(v) => Ok(Some(*v)),
                DictNumber::Real(_) => Err(malformed("an offset is not an integer")),
            };
        }
    }
    Ok(None)
}

/// An offset that the Top DICT holds: the operand, unless it is negative.
pub open spec fn offset_of(entries: Seq<Entry>, operator: int) -> Result<Option<int>, Problem> {
    match integer_of(entries, operator) {
        Ok(Some(v)) if v < 0 => Ok(None),
        other => other,
    }
}

fn find_offset(entries: &Vec<DictEntry>, operator: u16) -> (r: Result<Option<usize>, SliceError>)
    ensures
        match r {
            Ok(Some(v)) => offset_of(entries_view(entries@), operator as int) == Ok::<
                Option<int>,
                Problem,
            >(Some(v as int)) && v <= i32::MAX,
            Ok(None) => offset_of(entries_view(entries@), operator as int) == Ok::<
                Option<int>,
                Problem,
            >(None),
            Err(e) => offset_of(entries_view(entries@), operator as int) == Err::<
                Option<int>,
                Problem,
            >(e@),
        },
{
    match find_integer(entries, operator) {
        Ok(Some(v)) => if v < 0 {
            Ok(None)
        } else {
            Ok(Some(v as usize))
        },
        Ok(None) => Ok(None),
        Err(e) => Err(e),
    }
}

// -------------------------------------------------------------------------- Font DICTs

impl DictEntry {
    pub fn duplicate(&self) -> (r: DictEntry)
        ensures
            r@ == self@,
    {
        let mut operands: Vec<DictNumber> = Vec::new();
        for i in 0..self.operands.len()
            invariant
                operands@.len() == i,
                forall|k: int| 0 <= k < i ==> (#[trigger] operands@[k])@ == self.operands@[k]@,
        {
            operands.push(self.operands[i].duplicate());
        }
        assert(numbers(operands@) =~= numbers(self.operands@));
        DictEntry { operator: self.operator, operands, raw: copy(self.raw.as_slice()) }
    }
}

/// The local subroutines that a Private DICT at `at` names; those found before where it
/// names none.
pub open spec fn subrs_of(
    data: Seq<u8>,
    at: int,
    private: Seq<Entry>,
    before: Seq<Seq<u8>>,
) -> Result<Seq<Seq<u8>>, Problem> {
    match integer_of(private, SUBRS as int) {
        Err(p) => Err(p),
        Ok(Some(v)) if v > 0 => items_at(data, at + v),
        Ok(_) => Ok(before),
    }
}

/// A Font DICT with the Private DICT that one of its entries points at.
pub open spec fn with_private(data: Seq<u8>, entry: Entry, before: FontDictView) -> Result<
    FontDictView,
    Problem,
> {
    if entry.operands.len() != 2 {
        Err(malformed_table("a Private entry needs a size and an offset"@))
    } else {
        match (entry.operands[0], entry.operands[1]) {
            (DictValue::Integer(size), DictValue::Integer(at)) => if size < 0 || at < 0 {
                Err(malformed_table("a Private entry has a negative size or offset"@))
            } else if at + size > data.len() {
                Err(malformed_table("a Private DICT runs past the table"@))
            } else {
                match dict_entries(data.subrange(at, at + size)) {
                    Err(p) => Err(p),
                    Ok(private) => match subrs_of(data, at, private, before.local_subrs) {
                        Err(p) => Err(p),
                        Ok(local_subrs) => Ok(FontDictView { private, local_subrs, ..before }),
                    },
                }
            },
            _ => Err(malformed_table("an offset is not an integer"@)),
        }
    }
}

/// The Font DICT with these entries, from number `i` on.
pub open spec fn font_dict_from(
    data: Seq<u8>,
    entries: Seq<Entry>,
    i: int,
    so_far: FontDictView,
) -> Result<FontDictView, Problem>
    decreases entries.len() - i,
{
    if i < 0 || i >= entries.len() {
        Ok(so_far)
    } else if entries[i].operator != PRIVATE {
        font_dict_from(
            data,
            entries,
            i + 1,
            FontDictView { other_entries: so_far.other_entries.push(entries[i]), ..so_far },
        )
    } else {
        match with_private(data, entries[i], so_far) {
            Ok(next) => font_dict_from(data, entries, i + 1, next),
            Err(p) => Err(p),
        }
    }
}

pub open spec fn empty_font_dict() -> FontDictView {
    FontDictView {
        other_entries: Seq::empty(),
        private: Seq::empty(),
        local_subrs: Seq::empty(),
    }
}

/// The Font DICT that the bytes of `dict` spell.
pub open spec fn font_dict_of(data: Seq<u8>, dict: Seq<u8>) -> Result<FontDictView, Problem> {
    match dict_entries(dict) {
        Ok(entries) => font_dict_from(data, entries, 0, empty_font_dict()),
        Err(p) => Err(p),
    }
}

/// Take on the Private DICT that `entry` points at.
fn read_private(data: &[u8], entry: &DictEntry, fd: &mut FontDict) -> (r: Result<(), SliceError>)
    ensures
        match r {
            Ok(_) => with_private(data@, entry@, old(fd)@) == Ok::<FontDictView, Problem>(
                final(fd)@,
            ),
            Err(e) => with_private(data@, entry@, old(fd)@) == Err::<FontDictView, Problem>(e@),
        },
{
    if entry.operands.len() != 2 {
        return Err(malformed("a Private entry needs a size and an offset"));
    }
    assert(entry@.operands[0] == entry.operands@[0]@ && entry@.operands[1]
        == entry.operands@[1]@);
    let (size, at): (i32, i32) = match (&entry.operands[0], &entry.operands[1]) {
        (DictNumber::Integer(size), DictNumber::Integer(at)) => (*size, *at),
        _ => {
            return Err(malformed("an offset is not an integer"));
        },
    };
    if size < 0 || at < 0 {
        return Err(malformed("a Private entry has a negative size or offset"));
    }
    let at: usize = at as usize;
    let end: usize = at + size as usize;
    if end > data.len() {
        return Err(malformed("a Private DICT runs past the table"));
    }
    let private: Vec<DictEntry> = match parse_dict(vstd::slice::slice_subrange(data, at, end)) {
        Ok(private) => private,
        Err(e) => {
            return Err(e);
        },
    };
    // The Subrs offset is relative to the start of the Private DICT, which is the one
    // relative offset left in the format.
    match find_integer(&private, SUBRS) {
        Err(e) => {
            return Err(e);
        },
        Ok(Some(v)) => {
            if v > 0 {
                match index_items(data, at + v as usize) {
                    Ok(items) => {
                        fd.local_subrs = items;
                    },
                    Err(e) => {
                        return Err(e);
                    },
                }
            }
        },
        Ok(None) => {},
    }
    fd.private = private;
    Ok(())
}

/// Read one Font DICT and the Private DICT it points at.
pub fn read_font_dict(data: &[u8], dict: &[u8]) -> (r: Result<FontDict, SliceError>)
    ensures
        match r {
            Ok(fd) => font_dict_of(data@, dict@) == Ok::<FontDictView, Problem>(fd@),
            Err(e) => font_dict_of(data@, dict@) == Err::<FontDictView, Problem>(e@),
        },
{
    let entries: Vec<DictEntry> = match parse_dict(dict) {
        Ok(entries) => entries,
        Err(e) => {
            return Err(e);
        },
    };
    let mut fd: FontDict = FontDict {
        other_entries: Vec::new(),
        private: Vec::new(),
        local_subrs: Vec::new(),
    };
    let ghost all = entries_view(entries@);
    assert(entries_view(fd.other_entries@) =~= Seq::<Entry>::empty());
    assert(entries_view(fd.private@) =~= Seq::<Entry>::empty());
    assert(views(fd.local_subrs@) =~= Seq::<Seq<u8>>::empty());
    for i in 0..entries.len()
        invariant
            all == entries_view(entries@),
            font_dict_of(data@, dict@) == font_dict_from(data@, all, i as int, fd@),
    {
        let entry: &DictEntry = &entries[i];
        assert(all[i as int] == entry@);
        if entry.operator != PRIVATE {
            let ghost before = fd@;
            fd.other_entries.push(entry.duplicate());
            assert(fd@.other_entries =~= before.other_entries.push(entry@));
        } else {
            match read_private(data, entry, &mut fd) {
                Ok(_) => {},
                Err(e) => {
                    return Err(e);
                },
            }
        }
    }
    Ok(fd)
}

impl FontDict {
    /// The `vsindex` this Private DICT sets, which its glyphs start out using.
    pub fn vsindex(&self) -> (r: u16)
        ensures
            r == initial_vsindex(self@),
    {
        match find_integer(&self.private, PRIVATE_VSINDEX) {
            Ok(Some(v)) => if v < 0 {
                0
            } else if v > 65535 {
                65535
            } else {
                v as u16
            },
            _ => 0,
        }
    }
}

/// The `vsindex` a Private DICT sets, moved into the range of one; zero where it sets
/// none, or sets one that is not an integer.
pub open spec fn initial_vsindex(fd: FontDictView) -> int {
    match integer_of(fd.private, PRIVATE_VSINDEX as int) {
        Ok(Some(v)) => if v < 0 {
            0
        } else if v > 65535 {
            65535
        } else {
            v
        },
        _ => 0,
    }
}

// -------------------------------------------------------------------------- the table

/// The ItemVariationStore at `at`, without the two-byte length in front of it.
pub open spec fn var_store_of(data: Seq<u8>, at: int) -> Result<Seq<u8>, Problem> {
    if at + 2 > data.len() {
        Err(malformed_table("the VariationStore offset is out of bounds"@))
    } else if at + 2 + u16_at(data, at) > data.len() {
        Err(malformed_table("the VariationStore runs past the table"@))
    } else {
        Ok(data.subrange(at + 2, at + 2 + u16_at(data, at)))
    }
}

/// The Font DICTs that `items` spell, from number `i` on.
pub open spec fn font_dicts_from(
    data: Seq<u8>,
    items: Seq<Seq<u8>>,
    i: int,
    so_far: Seq<FontDictView>,
) -> Result<Seq<FontDictView>, Problem>
    decreases items.len() - i,
{
    if i < 0 || i >= items.len() {
        Ok(so_far)
    } else {
        match font_dict_of(data, items[i]) {
            Ok(fd) => font_dicts_from(data, items, i + 1, so_far.push(fd)),
            Err(p) => Err(p),
        }
    }
}

/// The part that an optional offset points at.
pub open spec fn optional_part(
    offset: Result<Option<int>, Problem>,
    part: spec_fn(int) -> Result<Seq<u8>, Problem>,
) -> Result<Option<Seq<u8>>, Problem> {
    match offset {
        Err(p) => Err(p),
        Ok(None) => Ok(None),
        Ok(Some(at)) => match part(at) {
            Ok(bytes) => Ok(Some(bytes)),
            Err(p) => Err(p),
        },
    }
}

/// The INDEX that a required offset points at.
pub open spec fn required_items(
    data: Seq<u8>,
    offset: Result<Option<int>, Problem>,
    missing: Seq<char>,
) -> Result<Seq<Seq<u8>>, Problem> {
    match offset {
        Err(p) => Err(p),
        Ok(None) => Err(malformed_table(missing)),
        Ok(Some(at)) => items_at(data, at),
    }
}

/// The Font DICTs of the FDArray that the Top DICT names; there is at least one.
pub open spec fn fd_array_of(data: Seq<u8>, top_dict: Seq<Entry>) -> Result<
    Seq<FontDictView>,
    Problem,
> {
    match required_items(data, offset_of(top_dict, FD_ARRAY as int), "no FDArray offset"@) {
        Err(p) => Err(p),
        Ok(items) => match font_dicts_from(data, items, 0, Seq::empty()) {
            Err(p) => Err(p),
            Ok(font_dicts) => if font_dicts.len() == 0 {
                Err(malformed_table("the FDArray is empty"@))
            } else {
                Ok(font_dicts)
            },
        },
    }
}

/// A CFF2 table, taken apart.
pub open spec fn table_of(data: Seq<u8>) -> Result<TableView, Problem> {
    match header_of(data) {
        None => Err(malformed_table("the header is cut short"@)),
        Some((size, len, top)) => match dict_entries(top) {
            Err(p) => Err(p),
            Ok(top_dict) => match items_at(data, size + len) {
                Err(p) => Err(p),
                Ok(global_subrs) => match required_items(
                    data,
                    offset_of(top_dict, CHARSTRINGS as int),
                    "no CharStrings offset"@,
                ) {
                    Err(p) => Err(p),
                    Ok(charstrings) => match optional_part(
                        offset_of(top_dict, VAR_STORE as int),
                        |at: int| var_store_of(data, at),
                    ) {
                        Err(p) => Err(p),
                        Ok(var_store) => match optional_part(
                            offset_of(top_dict, FD_SELECT as int),
                            |at: int| fd_select_at(data, at, charstrings.len() as int),
                        ) {
                            Err(p) => Err(p),
                            Ok(fd_select) => match fd_array_of(data, top_dict) {
                                Err(p) => Err(p),
                                Ok(font_dicts) => Ok(
                                    TableView {
                                        top_dict,
                                        global_subrs,
                                        charstrings,
                                        var_store,
                                        fd_select,
                                        font_dicts,
                                    },
                                ),
                            },
                        },
                    },
                },
            },
        },
    }
}

fn read_items(data: &[u8], top_dict: &Vec<DictEntry>, operator: u16, missing: &str) -> (r: Result<
    Vec<Vec<u8>>,
    SliceError,
>)
    ensures
        match r {
            Ok(items) => required_items(
                data@,
                offset_of(entries_view(top_dict@), operator as int),
                missing@,
            ) == Ok::<Seq<Seq<u8>>, Problem>(views(items@)),
            Err(e) => required_items(
                data@,
                offset_of(entries_view(top_dict@), operator as int),
                missing@,
            ) == Err::<Seq<Seq<u8>>, Problem>(e@),
        },
{
    match find_offset(top_dict, operator) {
        Ok(Some(at)) => index_items(data, at),
        Ok(None) => Err(malformed(missing)),
        Err(e) => Err(e),
    }
}

fn read_var_store(data: &[u8], at: usize) -> (r: Result<Vec<u8>, SliceError>)
    requires
        at <= i32::MAX,
    ensures
        match r {
            Ok(store) => var_store_of(data@, at as int) == Ok::<Seq<u8>, Problem>(store@),
            Err(e) => var_store_of(data@, at as int) == Err::<Seq<u8>, Problem>(e@),
        },
{
    if at + 2 > data.len() {
        return Err(malformed("the VariationStore offset is out of bounds"));
    }
    let length: usize = data[at] as usize * 256 + data[at + 1] as usize;
    if length > data.len() - at - 2 {
        return Err(malformed("the VariationStore runs past the table"));
    }
    Ok(copy_range(data, at + 2, at + 2 + length))
}

fn read_fd_array(data: &[u8], top_dict: &Vec<DictEntry>) -> (r: Result<Vec<FontDict>, SliceError>)
    ensures
        match r {
            Ok(fds) => fd_array_of(data@, entries_view(top_dict@)) == Ok::<
                Seq<FontDictView>,
                Problem,
            >(fds@.map_values(|fd: FontDict| fd@)),
            Err(e) => fd_array_of(data@, entries_view(top_dict@)) == Err::<
                Seq<FontDictView>,
                Problem,
            >(e@),
        },
{
    let items: Vec<Vec<u8>> = match read_items(data, top_dict, FD_ARRAY, "no FDArray offset") {
        Ok(items) => items,
        Err(e) => {
            return Err(e);
        },
    };
    let ghost all = views(items@);
    let ghost outcome = font_dicts_from(data@, all, 0, Seq::empty());
    let mut fds: Vec<FontDict> = Vec::new();
    assert(fds@.map_values(|fd: FontDict| fd@) =~= Seq::<FontDictView>::empty());
    for i in 0..items.len()
        invariant
            all == views(items@),
            outcome == font_dicts_from(
                data@,
                all,
                i as int,
                fds@.map_values(|fd: FontDict| fd@),
            ),
            outcome matches Err(p) ==> fd_array_of(data@, entries_view(top_dict@)) == Err::<
                Seq<FontDictView>,
                Problem,
            >(p),
    {
        assert(all[i as int] == items@[i as int]@);
        match read_font_dict(data, items[i].as_slice()) {
            Ok(fd) => {
                let ghost before = fds@.map_values(|fd: FontDict| fd@);
                fds.push(fd);
                assert(fds@.map_values(|fd: FontDict| fd@) =~= before.push(fd@));
            },
            Err(e) => {
                return Err(e);
            },
        }
    }
    if fds.len() == 0 {
        return Err(malformed("the FDArray is empty"));
    }
    Ok(fds)
}

/// Read a `CFF2` table.
pub fn read(data: &[u8]) -> (r: Result<Cff2Table, SliceError>)
    ensures
        match r {
            Ok(table) => table_of(data@) == Ok::<TableView, Problem>(table@),
            Err(e) => table_of(data@) == Err::<TableView, Problem>(e@),
        },
{
    let (size, len, top): (u8, u16, Vec<u8>) = match read_header(data) {
        Some(header) => header,
        None => {
            return Err(malformed("the header is cut short"));
        },
    };
    let top_dict: Vec<DictEntry> = match parse_dict(top.as_slice()) {
        Ok(top_dict) => top_dict,
        Err(e) => {
            return Err(e);
        },
    };
    let global_subrs: Vec<Vec<u8>> = match index_items(data, size as usize + len as usize) {
        Ok(items) => items,
        Err(e) => {
            return Err(e);
        },
    };
    let charstrings: Vec<Vec<u8>> = match read_items(
        data,
        &top_dict,
        CHARSTRINGS,
        "no CharStrings offset",
    ) {
        Ok(items) => items,
        Err(e) => {
            return Err(e);
        },
    };
    let var_store: Option<Vec<u8>> = match find_offset(&top_dict, VAR_STORE) {
        Ok(None) => None,
        Ok(Some(at)) => match read_var_store(data, at) {
            Ok(store) => Some(store),
            Err(e) => {
                return Err(e);
            },
        },
        Err(e) => {
            return Err(e);
        },
    };
    let fd_select: Option<Vec<u8>> = match find_offset(&top_dict, FD_SELECT) {
        Ok(None) => None,
        Ok(Some(at)) => match read_fd_select(data, at, charstrings.len()) {
            Ok(select) => Some(select),
            Err(e) => {
                return Err(e);
            },
        },
        Err(e) => {
            return Err(e);
        },
    };
    let font_dicts: Vec<FontDict> = match read_fd_array(data, &top_dict) {
        Ok(font_dicts) => font_dicts,
        Err(e) => {
            return Err(e);
        },
    };
    Ok(Cff2Table { top_dict, global_subrs, charstrings, var_store, fd_select, font_dicts })
}

/// The entries of a Top DICT that survive as they are: all but the offsets, which are
/// recomputed.
pub open spec fn kept_top_entries(top_dict: Seq<Entry>) -> Seq<Seq<u8>>
    decreases top_dict.len(),
{
    if top_dict.len() == 0 {
        Seq::empty()
    } else {
        let kept = kept_top_entries(top_dict.drop_last());
        let operator = top_dict.last().operator;
        if operator == CHARSTRINGS || operator == VAR_STORE || operator == FD_ARRAY || operator
            == FD_SELECT {
            kept
        } else {
            kept.push(top_dict.last().raw)
        }
    }
}

/// Copy the Top DICT entries that survive, dropping the offsets the writer recomputes.
pub fn top_dict_extra(top_dict: &Vec<DictEntry>) -> (out: Vec<Vec<u8>>)
    ensures
        views(out@) == kept_top_entries(entries_view(top_dict@)),
{
    let mut out: Vec<Vec<u8>> = Vec::new();
    let ghost all = entries_view(top_dict@);
    assert(views(out@) =~= Seq::<Seq<u8>>::empty());
    for i in 0..top_dict.len()
        invariant
            all == entries_view(top_dict@),
            views(out@) == kept_top_entries(all.take(i as int)),
    {
        let entry: &DictEntry = &top_dict[i];
        assert(all.take(i + 1).drop_last() =~= all.take(i as int));
        assert(all.take(i + 1).last() == entry@);
        if !(entry.operator == CHARSTRINGS || entry.operator == VAR_STORE || entry.operator
            == FD_ARRAY || entry.operator == FD_SELECT) {
            let ghost before = views(out@);
            out.push(copy(entry.raw.as_slice()));
            assert(views(out@) =~= before.push(entry.raw@));
        }
    }
    assert(all.take(all.len() as int) =~= all);
    out
}

/// A Private DICT verbatim, without its `Subrs` entries.
pub open spec fn private_without_subrs(entries: Seq<Entry>) -> Seq<u8>
    decreases entries.len(),
{
    if entries.len() == 0 {
        Seq::empty()
    } else if entries.last().operator == SUBRS {
        private_without_subrs(entries.drop_last())
    } else {
        private_without_subrs(entries.drop_last()) + entries.last().raw
    }
}

/// A Private DICT copied through verbatim, minus the `Subrs` offset the writer recomputes
/// from where it actually puts the local subroutines.
///
/// Copying the raw bytes rather than re-encoding keeps binary-coded-decimal reals such as
/// `BlueScale` exactly as the designer set them.
pub fn private_dict_without_subrs(entries: &Vec<DictEntry>) -> (out: Vec<u8>)
    ensures
        out@ == private_without_subrs(entries_view(entries@)),
{
    let mut out: Vec<u8> = Vec::new();
    let ghost all = entries_view(entries@);
    for i in 0..entries.len()
        invariant
            all == entries_view(entries@),
            out@ == private_without_subrs(all.take(i as int)),
    {
        let entry: &DictEntry = &entries[i];
        assert(all.take(i + 1).drop_last() =~= all.take(i as int));
        assert(all.take(i + 1).last() == entry@);
        if entry.operator != SUBRS {
            push_all(&mut out, entry.raw.as_slice());
        }
    }
    assert(all.take(all.len() as int) =~= all);
    out
}

} // verus!
