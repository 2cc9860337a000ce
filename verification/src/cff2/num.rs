//! The two number encodings CFF2 uses, and the INDEX container.
//!
//! Charstrings use the Type 2 encoding, where byte 255 introduces a 16.16 fixed-point
//! value. DICTs use the CFF encoding, where 255 is not a number at all and 29 introduces
//! a 32-bit integer. Getting them the wrong way round gives a file that parses into
//! different numbers, so they are kept in separate functions with the format named in
//! each.
//!
//! Every charstring number is a whole multiple of 1/65536, so charstring values are
//! integers here, counted in units of 1/65536.
use vstd::prelude::*;

use crate::bytes::{be16, be32, concat, push_all, push_i16, push_i32, push_u32, total_len, views};
use crate::error::{Problem, SliceError};
use crate::text::{decimal, decimal_of, join2, join3};

verus! {

/// The largest charstring nesting that is followed before the input is called malformed.
pub const MAX_DEPTH: usize = 10;

/// How many bytes the operand written by [`write_dict_offset`] takes.
pub const DICT_OFFSET_OPERAND_LEN: usize = 5;

/// One in units of 1/65536.
pub const ONE: i64 = 65536;

/// The error for a table that breaks the format.
pub open spec fn malformed_table(what: Seq<char>) -> Problem {
    Problem::Read("the CFF2 table is malformed: "@ + what)
}

pub(crate) fn malformed(what: &str) -> (e: SliceError)
    ensures
        e@ == malformed_table(what@),
{
    SliceError::Read(join2("the CFF2 table is malformed: ", what))
}

/// An integer in the encoding that charstrings and DICTs share, for -32768 to 32767.
pub open spec fn short_int(v: int) -> Seq<u8> {
    if -107 <= v <= 107 {
        seq![(v + 139) as u8]
    } else if 108 <= v <= 1131 {
        seq![((v - 108) / 256 + 247) as u8, ((v - 108) % 256) as u8]
    } else if -1131 <= v <= -108 {
        seq![((-v - 108) / 256 + 251) as u8, ((-v - 108) % 256) as u8]
    } else {
        seq![28u8] + be16(v)
    }
}

/// True for a multiple of one that fits 16 bits.
pub open spec fn is_short_int(units: int) -> bool {
    units % 65536 == 0 && -32768 <= units / 65536 <= 32767
}

/// `units` moved into the range of a signed 32-bit integer.
pub open spec fn saturated(units: int) -> int {
    if units < i32::MIN {
        i32::MIN as int
    } else if units > i32::MAX {
        i32::MAX as int
    } else {
        units
    }
}

/// A charstring operand: whole numbers in the compact forms, anything else in the
/// five-byte 16.16 form, saturating rather than wrapping.
pub open spec fn charstring_number(units: int) -> Seq<u8> {
    if is_short_int(units) {
        short_int(units / 65536)
    } else {
        seq![255u8] + be32(saturated(units))
    }
}

/// The signed reading of a 16-bit integer.
pub open spec fn signed16(v: int) -> int {
    if v >= 0x8000 {
        v - 0x1_0000
    } else {
        v
    }
}

/// The signed reading of a 32-bit integer.
pub open spec fn signed32(v: int) -> int {
    if v >= 0x8000_0000 {
        v - 0x1_0000_0000
    } else {
        v
    }
}

/// How many bytes the charstring operand that starts with `b0` takes, or none when `b0`
/// does not start an operand.
pub open spec fn charstring_operand_len(b0: u8) -> Option<int> {
    if b0 == 28 {
        Some(3)
    } else if 32 <= b0 <= 246 {
        Some(1)
    } else if 247 <= b0 <= 254 {
        Some(2)
    } else if b0 == 255 {
        Some(5)
    } else {
        None
    }
}

/// What the bytes of one charstring operand mean, in units of 1/65536.
pub open spec fn charstring_operand_value(b: Seq<u8>) -> int {
    if b[0] == 28 {
        signed16(crate::bytes::u16_at(b, 1)) * 65536
    } else if 32 <= b[0] <= 246 {
        (b[0] - 139) * 65536
    } else if 247 <= b[0] <= 250 {
        ((b[0] - 247) * 256 + b[1] + 108) * 65536
    } else if 251 <= b[0] <= 254 {
        (-(b[0] - 251) * 256 - b[1] - 108) * 65536
    } else {
        signed32(crate::bytes::u32_at(b, 1))
    }
}

/// The charstring operand at `pos`: its value and its length.
pub open spec fn charstring_operand(data: Seq<u8>, pos: int) -> Result<(int, int), Problem> {
    if pos >= data.len() {
        Err(malformed_table("truncated operand"@))
    } else {
        match charstring_operand_len(data[pos]) {
            None => Err(
                malformed_table("byte "@ + decimal(data[pos] as nat) + " is not an operand"@),
            ),
            Some(len) => if pos + len > data.len() {
                Err(malformed_table("truncated operand"@))
            } else {
                Ok((charstring_operand_value(data.subrange(pos, pos + len)), len))
            },
        }
    }
}

/// Read one Type 2 charstring operand starting at `data[pos]`.
///
/// Returns the value, in units of 1/65536, and the number of bytes it takes.
pub fn read_charstring_number(data: &[u8], pos: usize) -> (r: Result<(i64, usize), SliceError>)
    ensures
        match r {
            Ok((value, len)) => charstring_operand(data@, pos as int) == Ok::<(int, int), Problem>(
                (value as int, len as int),
            ),
            Err(e) => charstring_operand(data@, pos as int) == Err::<(int, int), Problem>(e@),
        },
        r matches Ok((value, len)) ==> i32::MIN <= value <= i32::MAX && 1 <= len <= 5 && pos + len
            <= data@.len(),
{
    if pos >= data.len() {
        return Err(malformed("truncated operand"));
    }
    let b0: u8 = data[pos];
    let left: usize = data.len() - pos;
    if b0 == 28 {
        if left < 3 {
            return Err(malformed("truncated operand"));
        }
        let ghost b = data@.subrange(pos as int, pos + 3);
        assert(b[1] == data@[pos + 1] && b[2] == data@[pos + 2]);
        let v: i64 = data[pos + 1] as i64 * 256 + data[pos + 2] as i64;
        let v: i64 = if v >= 0x8000 {
            v - 0x1_0000
        } else {
            v
        };
        Ok((v * ONE, 3))
    } else if 32 <= b0 && b0 <= 246 {
        Ok(((b0 as i64 - 139) * ONE, 1))
    } else if 247 <= b0 && b0 <= 254 {
        if left < 2 {
            return Err(malformed("truncated operand"));
        }
        let ghost b = data@.subrange(pos as int, pos + 2);
        assert(b[1] == data@[pos + 1]);
        let b1: i64 = data[pos + 1] as i64;
        if b0 <= 250 {
            Ok((((b0 as i64 - 247) * 256 + b1 + 108) * ONE, 2))
        } else {
            Ok(((-(b0 as i64 - 251) * 256 - b1 - 108) * ONE, 2))
        }
    } else if b0 == 255 {
        // 16.16 fixed. Type 1 charstrings read this as a 32-bit integer instead.
        if left < 5 {
            return Err(malformed("truncated operand"));
        }
        let ghost b = data@.subrange(pos as int, pos + 5);
        assert(b[1] == data@[pos + 1] && b[2] == data@[pos + 2] && b[3] == data@[pos + 3] && b[4]
            == data@[pos + 4]);
        let v: i64 = data[pos + 1] as i64 * 0x100_0000 + data[pos + 2] as i64 * 0x1_0000
            + data[pos + 3] as i64 * 256 + data[pos + 4] as i64;
        let v: i64 = if v >= 0x8000_0000 {
            v - 0x1_0000_0000
        } else {
            v
        };
        Ok((v, 5))
    } else {
        Err(malformed(join3("byte ", decimal_of(b0 as u64).as_str(), " is not an operand").as_str()))
    }
}

/// Append an integer of -32768 to 32767 in its shortest form.
fn write_short_int(v: i32, out: &mut Vec<u8>)
    requires
        -32768 <= v <= 32767,
    ensures
        final(out)@ == old(out)@ + short_int(v as int),
{
    if -107 <= v && v <= 107 {
        out.push((v + 139) as u8);
    } else if 108 <= v && v <= 1131 {
        let w: u32 = (v - 108) as u32;
        out.push((w / 256 + 247) as u8);
        out.push((w % 256) as u8);
    } else if -1131 <= v && v <= -108 {
        let w: u32 = (-v - 108) as u32;
        out.push((w / 256 + 251) as u8);
        out.push((w % 256) as u8);
    } else {
        out.push(28);
        push_i16(out, v as i16);
    }
}

/// Append `value`, in units of 1/65536, to `out` in the Type 2 charstring encoding.
///
/// A coordinate outside ±32768 cannot be represented, and wrapping would put the point on
/// the opposite side of the glyph, so the 16.16 form saturates.
pub fn write_charstring_number(value: i64, out: &mut Vec<u8>)
    ensures
        final(out)@ == old(out)@ + charstring_number(value as int),
{
    let whole: bool = if value < 0 {
        // Exec remainders take the sign of the dividend; the test for zero is the same.
        -(value + ONE) >= 0 && (-(value + ONE)) as u64 % 65536 == 0
    } else {
        value as u64 % 65536 == 0
    };
    if whole && -2147483648 <= value && value <= 2147418112 {
        let v: i64 = if value < 0 {
            -((((-(value + ONE)) as u64 / 65536) as i64) + 1)
        } else {
            (value as u64 / 65536) as i64
        };
        write_short_int(v as i32, out);
        return ;
    }
    let bits: i32 = if value < -2147483648 {
        i32::MIN
    } else if value > 2147483647 {
        i32::MAX
    } else {
        value as i32
    };
    out.push(255);
    push_i32(out, bits);
}

/// Every value that 32 bits of 16.16 can hold is read back as it was written, and the
/// operand takes all the bytes that were written.
pub proof fn charstring_numbers_round_trip(units: int)
    requires
        i32::MIN <= units <= i32::MAX,
    ensures
        charstring_operand(charstring_number(units), 0) == Ok::<(int, int), Problem>(
            (units, charstring_number(units).len() as int),
        ),
{
    let b = charstring_number(units);
    assert(b.subrange(0, b.len() as int) =~= b);
    if is_short_int(units) {
        let v = units / 65536;
        if -1131 <= v <= 1131 {
        } else {
            assert(b =~= seq![28u8] + be16(v));
            assert(b[1] == be16(v)[0] && b[2] == be16(v)[1]);
            if v >= 0 {
                assert(v / 256 % 256 == v / 256);
            } else {
                assert(v / 256 % 256 == v / 256 + 256);
            }
            assert(crate::bytes::u16_at(b, 1) == (if v < 0 {
                v + 0x1_0000
            } else {
                v
            }));
        }
    } else {
        let t = be32(units);
        assert(b[1] == t[0] && b[2] == t[1] && b[3] == t[2] && b[4] == t[3]);
        lemma_be32_value(units);
        assert(crate::bytes::u32_at(b, 1) == crate::bytes::u32_at(t, 0));
    }
}

/// The unsigned reading of the four bytes of a signed value.
pub proof fn lemma_be32_value(v: int)
    requires
        i32::MIN <= v <= u32::MAX,
    ensures
        crate::bytes::u32_at(be32(v), 0) == (if v < 0 {
            v + 0x1_0000_0000
        } else {
            v
        }),
{
    let w: int = if v < 0 {
        v + 0x1_0000_0000
    } else {
        v
    };
    assert(v / 0x100_0000 % 256 == w / 0x100_0000 % 256);
    assert(v / 0x1_0000 % 256 == w / 0x1_0000 % 256);
    assert(v / 256 % 256 == w / 256 % 256);
    assert(v % 256 == w % 256);
    assert(be32(v) =~= be32(w));
    assert(be32(w).subrange(0, 4) =~= be32(w));
    crate::bytes::lemma_be32_reads_back(be32(w), 0, w);
}

// ---------------------------------------------------------------------- DICT integers

/// A DICT integer in its shortest form.
pub open spec fn dict_integer(v: int) -> Seq<u8> {
    if -32768 <= v <= 32767 {
        short_int(v)
    } else {
        dict_offset(v)
    }
}

/// A DICT integer in the five-byte form.
pub open spec fn dict_offset(v: int) -> Seq<u8> {
    seq![29u8] + be32(v)
}

/// Append `value` to `out` in the CFF DICT integer encoding, choosing the shortest form.
pub fn write_dict_integer(value: i32, out: &mut Vec<u8>)
    ensures
        final(out)@ == old(out)@ + dict_integer(value as int),
{
    if -32768 <= value && value <= 32767 {
        write_short_int(value, out);
    } else {
        write_dict_offset(value, out);
    }
}

/// Append `value` in the five-byte DICT integer form, whatever its magnitude.
///
/// Every offset uses this rather than the shortest form, because a DICT offset points at
/// a position that depends on the size of the DICT holding it. Fixing the width breaks
/// that circle.
pub fn write_dict_offset(value: i32, out: &mut Vec<u8>)
    ensures
        final(out)@ == old(out)@ + dict_offset(value as int),
{
    out.push(29);
    push_i32(out, value);
}

// ------------------------------------------------------------------------------ INDEX

/// The narrowest offset width that can hold `largest`.
pub open spec fn offset_width(largest: int) -> int {
    if largest <= 0xff {
        1
    } else if largest <= 0xffff {
        2
    } else if largest <= 0xff_ffff {
        3
    } else {
        4
    }
}

/// The last `width` big-endian bytes of `v`.
pub open spec fn be_n(v: int, width: int) -> Seq<u8> {
    be32(v).subrange(4 - width, 4)
}

/// The first `n + 1` offsets of an INDEX: they are one-based, and offset `i` points just
/// past the bytes of the first `i` items.
pub open spec fn index_offsets(items: Seq<Seq<u8>>, n: nat, width: int) -> Seq<u8>
    decreases n,
{
    if n == 0 {
        be_n(1, width)
    } else {
        index_offsets(items, (n - 1) as nat, width) + be_n(
            1 + total_len(items.take(n as int)),
            width,
        )
    }
}

/// A CFF2 INDEX: a 32-bit count, the width of an offset, the offsets, and the items. An
/// empty INDEX is the bare count.
#[verifier::opaque]
pub open spec fn index_bytes(items: Seq<Seq<u8>>) -> Seq<u8> {
    if items.len() == 0 {
        seq![0u8, 0u8, 0u8, 0u8]
    } else {
        let width = offset_width(total_len(items) + 1);
        be32(items.len() as int) + seq![width as u8] + index_offsets(items, items.len(), width)
            + concat(items)
    }
}

/// How long the INDEX of `count` items of `total` bytes together is.
pub open spec fn index_size(count: int, total: int) -> int {
    if count == 0 {
        4
    } else {
        4 + 1 + (count + 1) * offset_width(total + 1) + total
    }
}

/// True when an INDEX can hold these items: its count and its offsets are 32 bits wide.
pub open spec fn fits_index(items: Seq<Seq<u8>>) -> bool {
    items.len() <= u32::MAX && total_len(items) < u32::MAX
}

proof fn lemma_index_offsets_len(items: Seq<Seq<u8>>, n: nat, width: int)
    requires
        1 <= width <= 4,
    ensures
        index_offsets(items, n, width).len() == (n + 1) * width,
    decreases n,
{
    assert((n + 1) * width == n * width + width) by (nonlinear_arith);
    if n > 0 {
        lemma_index_offsets_len(items, (n - 1) as nat, width);
    } else {
        assert(n * width == 0) by (nonlinear_arith)
            requires
                n == 0,
        ;
    }
}

/// The length of an INDEX follows from how many items it has and how long they are
/// together.
pub proof fn index_length_is_known(items: Seq<Seq<u8>>)
    ensures
        index_bytes(items).len() == index_size(items.len() as int, total_len(items)),
{
    reveal(index_bytes);
    crate::bytes::lemma_total_len_is_concat_len(items);
    lemma_index_offsets_len(items, items.len(), offset_width(total_len(items) + 1));
}

/// The value of big-endian bytes.
pub open spec fn be_value(b: Seq<u8>) -> int
    decreases b.len(),
{
    if b.len() == 0 {
        0
    } else {
        be_value(b.drop_last()) * 256 + b.last()
    }
}

/// The offset with number `i` in the INDEX that starts `data`.
pub open spec fn index_offset_at(data: Seq<u8>, i: int) -> int {
    be_value(data.subrange(5 + i * data[4], 5 + (i + 1) * data[4]))
}

/// The item with number `i` of the INDEX that starts `data`.
pub open spec fn index_item(data: Seq<u8>, i: int) -> Seq<u8> {
    let base = 5 + (crate::bytes::u32_at(data, 0) + 1) * data[4] - 1;
    data.subrange(base + index_offset_at(data, i), base + index_offset_at(data, i + 1))
}

proof fn lemma_be_n_value(v: int, width: int)
    requires
        1 <= width <= 4,
        0 <= v < 0x1_0000_0000,
        width == 1 ==> v <= 0xff,
        width == 2 ==> v <= 0xffff,
        width == 3 ==> v <= 0xff_ffff,
    ensures
        be_value(be_n(v, width)) == v,
{
    reveal_with_fuel(be_value, 5);
    let b = be_n(v, width);
    assert(b.last() == (v % 256) as u8);
    if width >= 2 {
        let c = b.drop_last();
        assert(c.last() == ((v / 256) % 256) as u8);
        if width >= 3 {
            let d = c.drop_last();
            assert(d.last() == ((v / 0x1_0000) % 256) as u8);
            if width >= 4 {
                let e = d.drop_last();
                assert(e.last() == ((v / 0x100_0000) % 256) as u8);
                assert(e.drop_last().len() == 0);
            }
        }
    }
}

proof fn lemma_index_offsets_slice(items: Seq<Seq<u8>>, n: nat, width: int, i: int)
    requires
        1 <= width <= 4,
        0 <= i <= n,
    ensures
        i * width >= 0,
        (i + 1) * width <= (n + 1) * width,
        (n + 1) * width == index_offsets(items, n, width).len(),
        index_offsets(items, n, width).subrange(i * width, (i + 1) * width) == be_n(
            1 + total_len(items.take(i)),
            width,
        ),
    decreases n,
{
    lemma_index_offsets_len(items, n, width);
    assert(i * width >= 0 && (i + 1) * width <= (n + 1) * width && (i + 1) * width == i * width
        + width) by (nonlinear_arith)
        requires
            0 <= i <= n,
            1 <= width <= 4,
    ;
    assert(items.take(0) =~= Seq::<Seq<u8>>::empty());
    let all = index_offsets(items, n, width);
    if n == 0 {
        assert(all.subrange(0, width) =~= all);
    } else {
        lemma_index_offsets_len(items, (n - 1) as nat, width);
        let front = index_offsets(items, (n - 1) as nat, width);
        if i == n {
            assert(all.subrange(i * width, (i + 1) * width) =~= be_n(
                1 + total_len(items.take(i)),
                width,
            ));
        } else {
            lemma_index_offsets_slice(items, (n - 1) as nat, width, i);
            assert(all.subrange(i * width, (i + 1) * width) =~= front.subrange(
                i * width,
                (i + 1) * width,
            ));
        }
    }
}

pub proof fn lemma_index_offset_at(items: Seq<Seq<u8>>, i: int)
    requires
        fits_index(items),
        0 <= i <= items.len(),
        items.len() > 0,
    ensures
        index_offset_at(index_bytes(items), i) == 1 + total_len(items.take(i)),
        index_bytes(items)[4] == offset_width(total_len(items) + 1),
        crate::bytes::u32_at(index_bytes(items), 0) == items.len(),
{
    reveal(index_bytes);
    let data = index_bytes(items);
    let width = offset_width(total_len(items) + 1);
    let offsets = index_offsets(items, items.len(), width);
    index_length_is_known(items);
    crate::bytes::lemma_total_len_is_concat_len(items);
    assert(data[4] == width);
    assert(data.subrange(0, 4) =~= be32(items.len() as int));
    crate::bytes::lemma_be32_reads_back(data, 0, items.len() as int);
    lemma_index_offsets_slice(items, items.len(), width, i);
    crate::bytes::lemma_total_len_prefix(items, i);
    assert(data.subrange(5 + i * width, 5 + (i + 1) * width) =~= offsets.subrange(
        i * width,
        (i + 1) * width,
    ));
    lemma_be_n_value(1 + total_len(items.take(i)), width);
}

/// Every item of a written INDEX is found again where the offsets say.
pub proof fn index_items_read_back(items: Seq<Seq<u8>>, i: int)
    requires
        fits_index(items),
        0 <= i < items.len(),
    ensures
        crate::bytes::u32_at(index_bytes(items), 0) == items.len(),
        index_item(index_bytes(items), i) == items[i],
{
    reveal(index_bytes);
    let data = index_bytes(items);
    let width = offset_width(total_len(items) + 1);
    lemma_index_offset_at(items, i);
    lemma_index_offset_at(items, i + 1);
    lemma_index_offsets_len(items, items.len(), width);
    crate::bytes::lemma_total_len_is_concat_len(items);
    crate::bytes::lemma_concat_slice(items, i);
    crate::bytes::lemma_take_step(items, i);
    let base = 5 + (items.len() + 1) * width;
    let at = total_len(items.take(i));
    assert(data.subrange(base + at, base + at + items[i].len()) =~= concat(items).subrange(
        at,
        at + items[i].len(),
    ));
}

/// The narrowest offset width that can hold `largest`.
pub fn offset_size(largest: usize) -> (width: usize)
    ensures
        width == offset_width(largest as int),
{
    if largest <= 0xff {
        1
    } else if largest <= 0xffff {
        2
    } else if largest <= 0xff_ffff {
        3
    } else {
        4
    }
}

/// Append the last `width` bytes of `value`.
pub fn write_offset(out: &mut Vec<u8>, value: usize, width: usize)
    requires
        1 <= width <= 4,
        value <= u32::MAX,
    ensures
        final(out)@ == old(out)@ + be_n(value as int, width as int),
{
    let v: u32 = value as u32;
    if width >= 4 {
        out.push((v / 0x100_0000) as u8);
    }
    if width >= 3 {
        out.push((v / 0x1_0000 % 256) as u8);
    }
    if width >= 2 {
        out.push((v / 256 % 256) as u8);
    }
    out.push((v % 256) as u8);
    assert(out@ =~= old(out)@ + be_n(value as int, width as int));
}

/// Serialise `items` as a CFF2 INDEX.
pub fn write_index(items: &Vec<Vec<u8>>) -> (out: Vec<u8>)
    requires
        fits_index(views(items@)),
    ensures
        out@ == index_bytes(views(items@)),
{
    reveal(index_bytes);
    let mut out: Vec<u8> = Vec::new();
    if items.len() == 0 {
        push_u32(&mut out, 0);
        assert(out@ =~= seq![0u8, 0u8, 0u8, 0u8]);
        return out;
    }
    let ghost all = views(items@);
    let total: usize = match crate::bytes::total_within(items, 0xffff_fffe) {
        Some(total) => total,
        None => 0,
    };
    // Offsets are one-based, so the last one is `total + 1`.
    let off_size: usize = offset_size(total + 1);
    push_u32(&mut out, items.len() as u32);
    out.push(off_size as u8);
    let ghost head = out@;
    let mut offset: usize = 1;
    write_offset(&mut out, offset, off_size);
    assert(all.take(0) =~= Seq::<Seq<u8>>::empty());
    for i in 0..items.len()
        invariant
            all == views(items@),
            total == total_len(all),
            total < u32::MAX,
            1 <= off_size <= 4,
            offset == 1 + total_len(all.take(i as int)),
            out@ == head + index_offsets(all, i as nat, off_size as int),
    {
        proof {
            crate::bytes::lemma_take_step(all, i as int);
            crate::bytes::lemma_total_len_prefix(all, i + 1);
        }
        offset = offset + items[i].len();
        write_offset(&mut out, offset, off_size);
        assert(out@ =~= head + index_offsets(all, (i + 1) as nat, off_size as int));
    }
    let ghost before = out@;
    for i in 0..items.len()
        invariant
            all == views(items@),
            out@ == before + concat(all.take(i as int)),
    {
        proof {
            crate::bytes::lemma_take_step(all, i as int);
        }
        push_all(&mut out, items[i].as_slice());
        assert(out@ =~= before + concat(all.take(i + 1)));
    }
    assert(all.take(all.len() as int) =~= all);
    assert(out@ =~= index_bytes(all));
    out
}

} // verus!
