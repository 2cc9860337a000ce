//! The sfnt container: a table directory, and the tables.
use vstd::prelude::*;

use crate::bytes::{
    be16, be32, copy_range, lemma_append, lemma_be16_reads_back, lemma_be32_reads_back, pad4,
    push_all, push_u16, push_u32, u16_at, u32_at, zeros,
};
use crate::error::{read_error, Problem, SliceError};
use crate::sort::{arranged, key_values, order_of, ordering_is_stable, stable_order};
use crate::text::{join3, lossy, lossy_text};

verus! {

pub const SFNT_HEADER_LEN: usize = 12;

pub const SFNT_RECORD_LEN: usize = 16;

/// One table of a font.
#[derive(Debug)]
pub struct SfntTable {
    pub tag: [u8; 4],
    pub checksum: u32,
    pub bytes: Vec<u8>,
}

/// What a [`SfntTable`] holds.
pub struct Table {
    pub tag: Seq<u8>,
    pub checksum: int,
    pub bytes: Seq<u8>,
}

impl View for SfntTable {
    type V = Table;

    open spec fn view(&self) -> Table {
        Table { tag: self.tag@, checksum: self.checksum as int, bytes: self.bytes@ }
    }
}

pub open spec fn tables_view(tables: Seq<SfntTable>) -> Seq<Table> {
    tables.map_values(|t: SfntTable| t@)
}

/// The number whose four big-endian bytes are the tag, by which tags are ordered.
pub open spec fn tag_value(tag: Seq<u8>) -> int {
    u32_at(tag, 0)
}

pub open spec fn tag_values(tables: Seq<Table>) -> Seq<int> {
    tables.map_values(|t: Table| tag_value(t.tag))
}

/// `tables` in the order of their tags.
pub open spec fn by_tag(tables: Seq<Table>) -> Seq<Table> {
    arranged(tables, tag_values(tables))
}

/// The integer part of the binary logarithm.
pub open spec fn log2(n: int) -> int
    decreases n,
{
    if n <= 1 {
        0
    } else {
        1 + log2(n / 2)
    }
}

/// Two to the power of `n`.
pub open spec fn power_of_two(n: int) -> int
    decreases n,
{
    if n <= 0 {
        1
    } else {
        2 * power_of_two(n - 1)
    }
}

/// `searchRange`, `entrySelector` and `rangeShift` for an sfnt header: the largest power
/// of two not above the number of tables, times 16, its logarithm, and what is left over.
/// The three fields are 16 bits wide.
#[verifier::opaque]
pub open spec fn search_fields(n: int) -> (int, int, int) {
    if n == 0 {
        (0, 0, 0)
    } else {
        let range = (power_of_two(log2(n)) * 16) % 0x1_0000;
        (range, log2(n), (n * 16 - range) % 0x1_0000)
    }
}

/// `searchRange`, `entrySelector` and `rangeShift` for an sfnt header.
pub fn search_params(num_tables: u16) -> (r: (u16, u16, u16))
    ensures
        (r.0 as int, r.1 as int, r.2 as int) == search_fields(num_tables as int),
{
    reveal(search_fields);
    if num_tables == 0 {
        return (0, 0, 0);
    }
    let mut selector: u16 = 0;
    let mut power: u32 = 1;
    let mut rest: u16 = num_tables;
    proof {
        lemma_log2_small(num_tables as int);
    }
    while rest > 1
        invariant
            1 <= rest <= num_tables,
            power >= 1,
            power as int * rest as int <= num_tables,
            power == power_of_two(selector as int),
            selector + log2(rest as int) == log2(num_tables as int),
            log2(num_tables as int) <= 15,
            log2(rest as int) >= 0,
        decreases rest,
    {
        proof {
            lemma_log2_small(rest as int / 2);
            assert(power as int * 2 * (rest as int / 2) <= power as int * rest as int)
                by (nonlinear_arith)
                requires
                    rest >= 1,
                    power >= 1,
            ;
            assert(2 * power as int <= num_tables) by (nonlinear_arith)
                requires
                    power as int * 2 * (rest as int / 2) <= num_tables,
                    rest as int / 2 >= 1,
                    power >= 1,
            ;
        }
        rest = rest / 2;
        selector = selector + 1;
        power = power * 2;
    }
    assert(power <= num_tables) by (nonlinear_arith)
        requires
            power as int * rest as int <= num_tables,
            rest == 1,
    ;
    let range: u32 = (power * 16) % 0x1_0000;
    let count: u32 = num_tables as u32 * 16;
    let shift: u32 = (count + 0x1_0000 - range) % 0x1_0000;
    (range as u16, selector, shift as u16)
}

proof fn lemma_log2_small(n: int)
    requires
        1 <= n <= 0xffff,
    ensures
        0 <= log2(n) <= 15,
{
    reveal_with_fuel(log2, 17);
}

// ---------------------------------------------------------------------------- reading

/// A record of the table directory.
pub struct Record {
    pub tag: Seq<u8>,
    pub checksum: int,
    pub offset: int,
    pub length: int,
}

/// Record number `i` of the table directory.
pub open spec fn record_at(data: Seq<u8>, i: int) -> Record {
    let base = 12 + 16 * i;
    Record {
        tag: data.subrange(base, base + 4),
        checksum: u32_at(data, base + 4),
        offset: u32_at(data, base + 8),
        length: u32_at(data, base + 12),
    }
}

/// The tables from number `i` on, after `tables`.
pub open spec fn tables_from(data: Seq<u8>, i: int, tables: Seq<Table>) -> Result<
    Seq<Table>,
    Problem,
>
    decreases u16_at(data, 4) - i,
{
    if i >= u16_at(data, 4) {
        Ok(tables)
    } else if 12 + 16 * i + 16 > data.len() {
        Err(Problem::Read("truncated sfnt table directory"@))
    } else {
        let r = record_at(data, i);
        if r.offset + r.length > data.len() {
            Err(
                Problem::Read(
                    "sfnt table "@ + lossy_text(r.tag) + " extends past end of file"@,
                ),
            )
        } else {
            tables_from(
                data,
                i + 1,
                tables.push(
                    Table {
                        tag: r.tag,
                        checksum: r.checksum,
                        bytes: data.subrange(r.offset, r.offset + r.length),
                    },
                ),
            )
        }
    }
}

/// An sfnt taken apart: its flavor, and its tables in the order of their tags.
pub open spec fn split_of(data: Seq<u8>) -> Result<(int, Seq<Table>), Problem> {
    if data.len() < 12 {
        Err(Problem::Read("file is too short to be a font"@))
    } else {
        match tables_from(data, 0, Seq::empty()) {
            Ok(tables) => Ok((u32_at(data, 0), by_tag(tables))),
            Err(p) => Err(p),
        }
    }
}

/// The big-endian 16-bit integer at `at`.
pub fn be_u16(data: &[u8], at: usize) -> (r: Result<u16, SliceError>)
    ensures
        match r {
            Ok(v) => at + 2 <= data@.len() && v == u16_at(data@, at as int),
            Err(e) => at + 2 > data@.len() && e@ == Problem::Read("unexpected end of file"@),
        },
{
    if data.len() < 2 || at > data.len() - 2 {
        return Err(read_error("unexpected end of file"));
    }
    Ok(data[at] as u16 * 256 + data[at + 1] as u16)
}

/// The big-endian 32-bit integer at `at`.
pub fn be_u32(data: &[u8], at: usize) -> (r: Result<u32, SliceError>)
    ensures
        match r {
            Ok(v) => at + 4 <= data@.len() && v == u32_at(data@, at as int),
            Err(e) => at + 4 > data@.len() && e@ == Problem::Read("unexpected end of file"@),
        },
{
    if data.len() < 4 || at > data.len() - 4 {
        return Err(read_error("unexpected end of file"));
    }
    Ok(u32_here(data, at))
}

/// The big-endian 32-bit integer at `at`, which is within the data.
pub(crate) fn u32_here(data: &[u8], at: usize) -> (v: u32)
    requires
        at + 4 <= data@.len(),
    ensures
        v == u32_at(data@, at as int),
{
    data[at] as u32 * 0x100_0000 + data[at + 1] as u32 * 0x1_0000 + data[at + 2] as u32 * 256
        + data[at + 3] as u32
}

/// The four bytes at `at`.
pub(crate) fn tag_here(data: &[u8], at: usize) -> (tag: [u8; 4])
    requires
        at + 4 <= data@.len(),
    ensures
        tag@ == data@.subrange(at as int, at + 4),
{
    let tag: [u8; 4] = [data[at], data[at + 1], data[at + 2], data[at + 3]];
    assert(tag@ =~= data@.subrange(at as int, at + 4));
    tag
}

/// A tag as text.
pub fn tag_name(tag: &[u8; 4]) -> (s: String)
    ensures
        s@ == lossy_text(tag@),
        vstd::utf8::valid_utf8(tag@) ==> s@ == vstd::utf8::decode_utf8(tag@),
{
    lossy(tag.as_slice())
}

/// The number a tag is ordered by.
pub(crate) fn tag_key(tag: &[u8; 4]) -> (key: u64)
    ensures
        key == tag_value(tag@),
{
    tag[0] as u64 * 0x100_0000 + tag[1] as u64 * 0x1_0000 + tag[2] as u64 * 256 + tag[3] as u64
}

/// The error for a table that reaches past the end: `what`, the tag, and why.
pub(crate) fn table_error(what: &str, tag: &[u8; 4], why: &str) -> (e: SliceError)
    ensures
        e@ == Problem::Read(what@ + lossy_text(tag@) + why@),
{
    SliceError::Read(join3(what, tag_name(tag).as_str(), why))
}

/// Put `tables` in the order of their tags.
pub fn sort_tables(tables: Vec<SfntTable>) -> (out: Vec<SfntTable>)
    ensures
        tables_view(out@) == by_tag(tables_view(tables@)),
{
    let ghost all = tables_view(tables@);
    let mut keys: Vec<u64> = Vec::new();
    for i in 0..tables.len()
        invariant
            all == tables_view(tables@),
            keys@.len() == i,
            forall|k: int| 0 <= k < i ==> #[trigger] keys@[k] == tag_value(all[k].tag),
    {
        assert(all[i as int] == tables@[i as int]@);
        keys.push(tag_key(&tables[i].tag));
    }
    assert(key_values(keys@) =~= tag_values(all));
    let order: Vec<usize> = order_of(&keys);
    let ghost order_values = order@.map_values(|i: usize| i as int);
    let mut out: Vec<SfntTable> = Vec::new();
    for i in 0..order.len()
        invariant
            all == tables_view(tables@),
            order@.len() == tables@.len(),
            forall|k: int| 0 <= k < order@.len() ==> #[trigger] order@[k] < tables@.len(),
            out@.len() == i,
            forall|k: int| 0 <= k < i ==> (#[trigger] out@[k])@ == all[order@[k] as int],
    {
        let table: &SfntTable = &tables[order[i]];
        out.push(
            SfntTable {
                tag: table.tag,
                checksum: table.checksum,
                bytes: copy_range(table.bytes.as_slice(), 0, table.bytes.len()),
            },
        );
        assert(out@[i as int]@.bytes =~= table@.bytes);
    }
    assert(tables_view(out@) =~= by_tag(all)) by {
        assert(order_values == stable_order(tag_values(all)));
        assert forall|k: int| 0 <= k < out@.len() implies #[trigger] tables_view(out@)[k]
            == by_tag(all)[k] by {
            assert(out@[k]@ == all[order@[k] as int]);
            assert(order_values[k] == order@[k]);
        }
    }
    out
}

/// Take an sfnt apart into its tables, sorted by tag.
pub fn split_sfnt(data: &[u8]) -> (r: Result<(u32, Vec<SfntTable>), SliceError>)
    ensures
        match r {
            Ok((flavor, tables)) => split_of(data@) == Ok::<(int, Seq<Table>), Problem>(
                (flavor as int, tables_view(tables@)),
            ),
            Err(e) => split_of(data@) == Err::<(int, Seq<Table>), Problem>(e@),
        },
{
    if data.len() < SFNT_HEADER_LEN {
        return Err(read_error("file is too short to be a font"));
    }
    let flavor: u32 = u32_here(data, 0);
    let num_tables: usize = data[4] as usize * 256 + data[5] as usize;
    let mut tables: Vec<SfntTable> = Vec::new();
    let ghost outcome = tables_from(data@, 0, Seq::empty());
    assert(tables_view(tables@) =~= Seq::<Table>::empty());
    for i in 0..num_tables
        invariant
            num_tables == u16_at(data@, 4),
            data@.len() >= 12,
            num_tables <= 0xffff,
            outcome == tables_from(data@, i as int, tables_view(tables@)),
            outcome matches Err(p) ==> split_of(data@) == Err::<(int, Seq<Table>), Problem>(p),
    {
        let base: usize = SFNT_HEADER_LEN + i * SFNT_RECORD_LEN;
        if base + SFNT_RECORD_LEN > data.len() {
            return Err(read_error("truncated sfnt table directory"));
        }
        let tag: [u8; 4] = tag_here(data, base);
        let checksum: u32 = u32_here(data, base + 4);
        let offset: u32 = u32_here(data, base + 8);
        let length: u32 = u32_here(data, base + 12);
        let end: u64 = offset as u64 + length as u64;
        if end > data.len() as u64 {
            return Err(table_error("sfnt table ", &tag, " extends past end of file"));
        }
        let ghost before = tables_view(tables@);
        let table: SfntTable = SfntTable {
            tag,
            checksum,
            bytes: copy_range(data, offset as usize, end as usize),
        };
        tables.push(table);
        assert(tables_view(tables@) =~= before.push(table@));
    }
    Ok((flavor, sort_tables(tables)))
}

// ---------------------------------------------------------------------------- writing

/// `bytes` padded with zeros to a multiple of four.
pub open spec fn padded(bytes: Seq<u8>) -> Seq<u8> {
    bytes + zeros(pad4(bytes.len() as int) - bytes.len())
}

/// The padded tables, one after another.
pub open spec fn body(tables: Seq<Table>) -> Seq<u8>
    decreases tables.len(),
{
    if tables.len() == 0 {
        Seq::empty()
    } else {
        body(tables.drop_last()) + padded(tables.last().bytes)
    }
}

/// Where table number `i` goes.
pub open spec fn table_offset(tables: Seq<Table>, i: int) -> int {
    12 + 16 * (tables.len() as int) + body(tables.take(i)).len()
}

/// Record number `i` of the table directory.
pub open spec fn record_bytes(tables: Seq<Table>, i: int) -> Seq<u8> {
    tables[i].tag + be32(tables[i].checksum) + be32(table_offset(tables, i)) + be32(
        tables[i].bytes.len() as int,
    )
}

/// The first `n` records of the table directory.
pub open spec fn directory(tables: Seq<Table>, n: int) -> Seq<u8>
    decreases n,
{
    if n <= 0 {
        Seq::empty()
    } else {
        directory(tables, n - 1) + record_bytes(tables, n - 1)
    }
}

/// The header of an sfnt with `n` tables.
#[verifier::opaque]
pub open spec fn sfnt_header(flavor: int, n: int) -> Seq<u8> {
    let (range, selector, shift) = search_fields(n % 0x1_0000);
    be32(flavor) + be16(n) + be16(range) + be16(selector) + be16(shift)
}

/// An sfnt: the header, the table directory, and the padded tables.
pub open spec fn sfnt_bytes(flavor: int, tables: Seq<Table>) -> Seq<u8> {
    sfnt_header(flavor, tables.len() as int) + directory(tables, tables.len() as int) + body(tables)
}

proof fn lemma_byte_wrapped(b: int, q: int, unit: int, step: int)
    requires
        unit > 0,
        step % 256 == 0,
    ensures
        ((b + q * (unit * step)) / unit) % 256 == (b / unit) % 256,
{
    assert(b + q * (unit * step) == unit * (q * step) + b) by (nonlinear_arith);
    vstd::arithmetic::div_mod::lemma_div_multiples_vanish_fancy(q * step, b % unit, unit);
    assert((unit * (q * step) + b) / unit == q * step + b / unit) by {
        vstd::arithmetic::div_mod::lemma_hoist_over_denominator(b, q * step, unit as nat);
        assert(unit * (q * step) == (q * step) * unit) by (nonlinear_arith);
    }
    let s = step / 256;
    assert(step == 256 * s);
    assert(q * step == 256 * (q * s)) by (nonlinear_arith)
        requires
            step == 256 * s,
    ;
    assert((256 * (q * s) + b / unit) % 256 == (b / unit) % 256);
}

pub proof fn lemma_be32_wrapped(a: int, b: int)
    requires
        a % 0x1_0000_0000 == b % 0x1_0000_0000,
    ensures
        be32(a) == be32(b),
{
    let q = (a - b) / 0x1_0000_0000;
    assert(a == b + q * 0x1_0000_0000);
    lemma_byte_wrapped(b, q, 0x100_0000, 256);
    lemma_byte_wrapped(b, q, 0x1_0000, 0x1_0000);
    lemma_byte_wrapped(b, q, 256, 0x100_0000);
    lemma_byte_wrapped(b, q, 1, 0x1_0000_0000);
    assert(be32(a) =~= be32(b));
}

proof fn lemma_header_len(flavor: int, n: int)
    ensures
        sfnt_header(flavor, n).len() == 12,
{
    reveal(sfnt_header);
}

/// Append `small + len` as 32 bits, whatever the size of `len`.
pub(crate) fn push_sum32(out: &mut Vec<u8>, small: u64, len: usize)
    requires
        small < 0x1_0000_0000,
    ensures
        final(out)@ == old(out)@ + be32(small + len),
{
    let low: u64 = len as u64 % 0x1_0000_0000;
    proof {
        let q = len as int / 0x1_0000_0000;
        assert(small + len == small + low + q * 0x1_0000_0000);
        lemma_be32_wrapped(small + low, small + len);
    }
    push_low32(out, small + low);
}

/// Append `v` as 32 bits, whatever its size.
pub(crate) fn push_low32(out: &mut Vec<u8>, v: u64)
    ensures
        final(out)@ == old(out)@ + be32(v as int),
{
    proof {
        lemma_be32_wrapped(v as int, v as int % 0x1_0000_0000);
    }
    push_u32(out, (v % 0x1_0000_0000) as u32);
}

/// The length of `bytes` padded to a multiple of four, modulo 2^32.
pub(crate) fn padded_len32(len: usize) -> (r: u64)
    ensures
        r == pad4(len as int) % 0x1_0000_0000,
{
    let low: u64 = len as u64 % 0x1_0000_0000;
    let r: u64 = (low + 3) / 4 * 4;
    proof {
        let q = len as int / 0x1_0000_0000;
        assert(len as int == q * 0x1_0000_0000 + low);
        assert((len as int + 3) / 4 == q * 0x4000_0000 + (low + 3) / 4);
        assert(pad4(len as int) == q * 0x1_0000_0000 + r);
    }
    r % 0x1_0000_0000
}

/// Append zeros until the length is a multiple of four.
pub(crate) fn push_padding(out: &mut Vec<u8>, Ghost(before): Ghost<Seq<u8>>, Ghost(
    bytes,
): Ghost<Seq<u8>>)
    requires
        old(out)@ == before + bytes,
        before.len() % 4 == 0,
    ensures
        final(out)@ == before + padded(bytes),
        final(out)@.len() % 4 == 0,
{
    let ghost start = out@.len() as int;
    let ghost n = pad4(bytes.len() as int) - bytes.len();
    while out.len() % 4 != 0
        invariant
            before.len() % 4 == 0,
            start == before.len() + bytes.len(),
            n == pad4(bytes.len() as int) - bytes.len(),
            start <= out@.len() <= start + n,
            out@ == before + bytes + zeros(out@.len() - start),
        decreases start + n - out@.len(),
    {
        let ghost so_far = out@;
        out.push(0);
        assert(out@ =~= before + bytes + zeros(out@.len() - start));
    }
    assert(out@ =~= before + padded(bytes));
}

/// Append the header of an sfnt with `num_tables` tables.
fn write_header(flavor: u32, num_tables: usize) -> (out: Vec<u8>)
    ensures
        out@ == sfnt_header(flavor as int, num_tables as int),
{
    reveal(sfnt_header);
    let low: u16 = (num_tables % 0x1_0000) as u16;
    let (range, selector, shift): (u16, u16, u16) = search_params(low);
    let mut out: Vec<u8> = Vec::new();
    push_u32(&mut out, flavor);
    push_u16(&mut out, low);
    push_u16(&mut out, range);
    push_u16(&mut out, selector);
    push_u16(&mut out, shift);
    proof {
        crate::bytes::lemma_be16_wrapped(num_tables as int);
    }
    assert(Seq::<u8>::empty() + be32(flavor as int) =~= be32(flavor as int));
    out
}

/// Append one record of the table directory; its offset is given modulo 2^32.
fn write_record(
    tables: &Vec<SfntTable>,
    i: usize,
    offset: u64,
    out: &mut Vec<u8>,
)
    requires
        i < tables@.len(),
        offset == table_offset(tables_view(tables@), i as int) % 0x1_0000_0000,
    ensures
        final(out)@ == old(out)@ + record_bytes(tables_view(tables@), i as int),
{
    let ghost all = tables_view(tables@);
    let table: &SfntTable = &tables[i];
    assert(all[i as int] == table@);
    let ghost before = out@;
    proof {
        let a = table_offset(all, i as int);
        assert(a % 0x1_0000_0000 % 0x1_0000_0000 == a % 0x1_0000_0000);
        lemma_be32_wrapped(offset as int, a);
    }
    push_all(out, table.tag.as_slice());
    push_u32(out, table.checksum);
    push_low32(out, offset);
    push_low32(out, table.bytes.len() as u64);
    let ghost o = be32(table_offset(all, i as int));
    let ghost l = be32(table.bytes@.len() as int);
    let ghost c = be32(table.checksum as int);
    assert(out@ == before + table.tag@ + c + o + l);
    assert(before + table.tag@ + c + o + l =~= before + (table.tag@ + c + o + l));
}

pub proof fn lemma_mod_add(a: int, b: int)
    ensures
        (a % 0x1_0000_0000 + b % 0x1_0000_0000) % 0x1_0000_0000 == (a + b) % 0x1_0000_0000,
{
}

/// Append the table directory.
fn write_directory(tables: &Vec<SfntTable>, out: &mut Vec<u8>)
    ensures
        final(out)@ == old(out)@ + directory(tables_view(tables@), tables@.len() as int),
{
    let ghost all = tables_view(tables@);
    let ghost before = out@;
    let mut offset: u64 = (12 + 16 * (tables.len() as u64 % 0x1_0000_0000)) % 0x1_0000_0000;
    proof {
        assert(body(all.take(0)) =~= Seq::<u8>::empty());
        let n = tables@.len() as int;
        lemma_mod_sixteen(n);
    }
    for i in 0..tables.len()
        invariant
            all == tables_view(tables@),
            offset < 0x1_0000_0000,
            offset == table_offset(all, i as int) % 0x1_0000_0000,
            out@ == before + directory(all, i as int),
    {
        let ghost so_far = out@;
        write_record(tables, i, offset, out);
        assert(so_far + record_bytes(all, i as int) =~= before + (directory(all, i as int)
            + record_bytes(all, i as int)));
        let step: u64 = padded_len32(tables[i].bytes.len());
        proof {
            assert(all[i as int] == tables@[i as int]@);
            assert(all.take(i + 1).drop_last() =~= all.take(i as int));
            lemma_mod_add(table_offset(all, i as int), pad4(tables@[i as int].bytes@.len() as int));
        }
        offset = (offset + step) % 0x1_0000_0000;
    }
}

proof fn lemma_mod_sixteen(n: int)
    requires
        n >= 0,
    ensures
        (12 + 16 * (n % 0x1_0000_0000)) % 0x1_0000_0000 == (12 + 16 * n) % 0x1_0000_0000,
{
    let q = n / 0x1_0000_0000;
    let r = n % 0x1_0000_0000;
    assert(n == q * 0x1_0000_0000 + r);
    assert(12 + 16 * n == 12 + 16 * r + 16 * q * 0x1_0000_0000);
}

/// Append the padded tables.
fn write_body(tables: &Vec<SfntTable>, out: &mut Vec<u8>)
    requires
        old(out)@.len() % 4 == 0,
    ensures
        final(out)@ == old(out)@ + body(tables_view(tables@)),
{
    let ghost all = tables_view(tables@);
    let ghost front = out@;
    proof {
        assert(body(all.take(0)) =~= Seq::<u8>::empty());
        assert(out@ =~= front + body(all.take(0)));
    }
    for i in 0..tables.len()
        invariant
            all == tables_view(tables@),
            out@ == front + body(all.take(i as int)),
            out@.len() % 4 == 0,
    {
        let table: &SfntTable = &tables[i];
        let ghost before = out@;
        assert(all[i as int] == table@);
        push_all(out, table.bytes.as_slice());
        push_padding(out, Ghost(before), Ghost(table.bytes@));
        assert(all.take(i + 1).drop_last() =~= all.take(i as int));
        assert(out@ =~= front + body(all.take(i + 1)));
    }
    assert(all.take(all.len() as int) =~= all);
}

/// Build an sfnt from a set of tables.
#[verifier::rlimit(60)]
#[verifier::spinoff_prover]
pub fn assemble_sfnt(flavor: u32, tables: &Vec<SfntTable>) -> (out: Vec<u8>)
    ensures
        out@ == sfnt_bytes(flavor as int, tables_view(tables@)),
{
    let ghost all = tables_view(tables@);
    let ghost n = tables@.len() as int;
    let mut out: Vec<u8> = write_header(flavor, tables.len());
    let ghost header = out@;
    write_directory(tables, &mut out);
    proof {
        lemma_header_len(flavor as int, n);
        lemma_tags_ok(tables@);
        lemma_directory_len(all, n);
        assert(out@.len() == header.len() + directory(all, n).len());
    }
    write_body(tables, &mut out);
    out
}

/// True when every tag has four bytes, which is what the type of a tag says.
pub open spec fn tags_ok(tables: Seq<Table>) -> bool {
    forall|i: int| 0 <= i < tables.len() ==> (#[trigger] tables[i]).tag.len() == 4
}

pub proof fn lemma_tags_ok(tables: Seq<SfntTable>)
    ensures
        tags_ok(tables_view(tables)),
{
    assert forall|i: int| 0 <= i < tables.len() implies (#[trigger] tables_view(
        tables,
    )[i]).tag.len() == 4 by {}
}

proof fn lemma_directory_len(tables: Seq<Table>, n: int)
    requires
        tags_ok(tables),
        0 <= n <= tables.len(),
    ensures
        directory(tables, n).len() == 16 * n,
    decreases n,
{
    if n > 0 {
        lemma_directory_len(tables, n - 1);
        assert(tables[n - 1].tag.len() == 4);
    }
}

// ------------------------------------------------------------------------------- laws

/// True when an sfnt can hold these tables: their number fits 16 bits, and their offsets,
/// lengths and checksums fit 32.
pub open spec fn fits_sfnt(tables: Seq<Table>) -> bool {
    &&& tables.len() <= u16::MAX
    &&& tags_ok(tables)
    &&& forall|i: int|
        0 <= i < tables.len() ==> {
            &&& 0 <= (#[trigger] tables[i]).checksum <= u32::MAX
            &&& tables[i].bytes.len() <= u32::MAX
            &&& table_offset(tables, i) <= u32::MAX
        }
}

proof fn lemma_directory_slice(tables: Seq<Table>, n: int, i: int)
    requires
        tags_ok(tables),
        0 <= i < n <= tables.len(),
    ensures
        directory(tables, n).len() == 16 * n,
        directory(tables, n).subrange(16 * i, 16 * i + 16) == record_bytes(tables, i),
    decreases n,
{
    lemma_directory_len(tables, n);
    lemma_directory_len(tables, n - 1);
    assert(tables[n - 1].tag.len() == 4);
    lemma_append(directory(tables, n - 1), record_bytes(tables, n - 1));
    if i < n - 1 {
        lemma_directory_slice(tables, n - 1, i);
    }
}

pub proof fn lemma_body_prefix(tables: Seq<Table>, i: int)
    requires
        0 <= i < tables.len(),
    ensures
        body(tables.take(i)).len() + tables[i].bytes.len() <= body(tables).len(),
        body(tables.take(i)).len() + padded(tables[i].bytes).len() <= body(tables).len(),
        body(tables).subrange(
            body(tables.take(i)).len() as int,
            (body(tables.take(i)).len() + tables[i].bytes.len()) as int,
        ) == tables[i].bytes,
    decreases tables.len(),
{
    let at = body(tables.take(i)).len() as int;
    let bytes = tables[i].bytes;
    let len = bytes.len() as int;
    let front = body(tables.drop_last());
    lemma_append(front, padded(tables.last().bytes));
    if i == tables.len() - 1 {
        assert(tables.take(i) =~= tables.drop_last());
        let p = padded(bytes);
        assert(p.subrange(0, len) =~= bytes);
        assert((front + p).subrange(at, at + len) =~= p.subrange(0, len));
    } else {
        lemma_body_prefix(tables.drop_last(), i);
        assert(tables.drop_last().take(i) =~= tables.take(i));
    }
}

/// Four fields of four bytes each are read back.
pub proof fn lemma_record_fields(
    data: Seq<u8>,
    base: int,
    tag: Seq<u8>,
    x: int,
    y: int,
    z: int,
)
    requires
        0 <= base,
        base + 16 <= data.len(),
        tag.len() == 4,
        0 <= x <= u32::MAX,
        0 <= y <= u32::MAX,
        0 <= z <= u32::MAX,
        data.subrange(base, base + 16) == tag + be32(x) + be32(y) + be32(z),
    ensures
        data.subrange(base, base + 4) == tag,
        u32_at(data, base + 4) == x,
        u32_at(data, base + 8) == y,
        u32_at(data, base + 12) == z,
{
    let piece = data.subrange(base, base + 16);
    lemma_append(tag, be32(x));
    lemma_append(tag + be32(x), be32(y));
    lemma_append(tag + be32(x) + be32(y), be32(z));
    assert(tag.subrange(0, 4) =~= tag);
    assert(data.subrange(base, base + 4) =~= piece.subrange(0, 4));
    assert(data.subrange(base + 4, base + 8) =~= piece.subrange(4, 8));
    assert(data.subrange(base + 8, base + 12) =~= piece.subrange(8, 12));
    assert(data.subrange(base + 12, base + 16) =~= piece.subrange(12, 16));
    lemma_be32_reads_back(data, base + 4, x);
    lemma_be32_reads_back(data, base + 8, y);
    lemma_be32_reads_back(data, base + 12, z);
}

proof fn lemma_record_reads(flavor: int, tables: Seq<Table>, i: int)
    requires
        fits_sfnt(tables),
        0 <= i < tables.len(),
    ensures
        sfnt_bytes(flavor, tables).len() == 12 + 16 * tables.len() + body(tables).len(),
        record_at(sfnt_bytes(flavor, tables), i) == (Record {
            tag: tables[i].tag,
            checksum: tables[i].checksum,
            offset: table_offset(tables, i),
            length: tables[i].bytes.len() as int,
        }),
        table_offset(tables, i) + tables[i].bytes.len() <= sfnt_bytes(flavor, tables).len(),
        sfnt_bytes(flavor, tables).subrange(
            table_offset(tables, i),
            table_offset(tables, i) + tables[i].bytes.len(),
        ) == tables[i].bytes,
{
    let n = tables.len() as int;
    let h = sfnt_header(flavor, n);
    let d = directory(tables, n);
    let b = body(tables);
    let data = sfnt_bytes(flavor, tables);
    lemma_header_len(flavor, n);
    lemma_directory_slice(tables, n, i);
    lemma_append(h, d);
    lemma_append(h + d, b);
    lemma_body_prefix(tables, i);
    let base = 12 + 16 * i;
    assert(tables[i].tag.len() == 4);
    assert(data.subrange(base, base + 16) =~= d.subrange(16 * i, 16 * i + 16));
    lemma_record_fields(
        data,
        base,
        tables[i].tag,
        tables[i].checksum,
        table_offset(tables, i),
        tables[i].bytes.len() as int,
    );
    let at = body(tables.take(i)).len() as int;
    let len = tables[i].bytes.len() as int;
    assert(data.subrange(12 + 16 * n + at, 12 + 16 * n + at + len) =~= b.subrange(at, at + len));
}

proof fn lemma_tables_read(flavor: int, tables: Seq<Table>, i: int)
    requires
        fits_sfnt(tables),
        0 <= i <= tables.len(),
        u16_at(sfnt_bytes(flavor, tables), 4) == tables.len(),
    ensures
        tables_from(sfnt_bytes(flavor, tables), i, tables.take(i)) == Ok::<Seq<Table>, Problem>(
            tables,
        ),
    decreases tables.len() - i,
{
    if i == tables.len() {
        assert(tables.take(i) =~= tables);
    } else {
        lemma_record_reads(flavor, tables, i);
        assert(tables.take(i + 1) =~= tables.take(i).push(tables[i]));
        lemma_tables_read(flavor, tables, i + 1);
    }
}

/// What an assembled sfnt says of itself: its flavor, and the tables in the order in which
/// they were given, none of which starts where the file does.
pub proof fn lemma_assembled(flavor: int, tables: Seq<Table>)
    requires
        0 <= flavor <= u32::MAX,
        fits_sfnt(tables),
    ensures
        ({
            let data = sfnt_bytes(flavor, tables);
            &&& data.len() >= 12
            &&& u32_at(data, 0) == flavor
            &&& u16_at(data, 4) == tables.len()
            &&& tables_from(data, 0, Seq::empty()) == Ok::<Seq<Table>, Problem>(tables)
            &&& forall|i: int|
                0 <= i < tables.len() ==> 0 < (#[trigger] record_at(data, i)).offset
        }),
{
    let n = tables.len() as int;
    let data = sfnt_bytes(flavor, tables);
    let h = sfnt_header(flavor, n);
    let d = directory(tables, n);
    lemma_header_len(flavor, n);
    lemma_append(h, d);
    lemma_append(h + d, body(tables));
    reveal(sfnt_header);
    assert(h.subrange(0, 4) =~= be32(flavor));
    assert(h.subrange(4, 6) =~= be16(n));
    assert(data.subrange(0, 4) =~= h.subrange(0, 4));
    assert(data.subrange(4, 6) =~= h.subrange(4, 6));
    lemma_be32_reads_back(data, 0, flavor);
    lemma_be16_reads_back(data, 4, n);
    lemma_tables_read(flavor, tables, 0);
    assert(tables.take(0) =~= Seq::<Table>::empty());
    assert forall|i: int| 0 <= i < tables.len() implies 0 < (#[trigger] record_at(
        data,
        i,
    )).offset by {
        lemma_record_reads(flavor, tables, i);
    }
}

/// An sfnt that was assembled comes apart into the very tables it was assembled from,
/// contents and checksums included, in the order of their tags.
pub proof fn an_assembled_sfnt_splits_into_its_tables(flavor: int, tables: Seq<Table>)
    requires
        0 <= flavor <= u32::MAX,
        fits_sfnt(tables),
    ensures
        split_of(sfnt_bytes(flavor, tables)) == Ok::<(int, Seq<Table>), Problem>(
            (flavor, by_tag(tables)),
        ),
{
    lemma_assembled(flavor, tables);
}

/// Tables that are in the order of their tags stay as they are.
pub proof fn sorting_keeps_sorted_tables(tables: Seq<Table>)
    requires
        forall|i: int, j: int|
            0 <= i < j < tables.len() ==> tag_value(tables[i].tag) <= tag_value(tables[j].tag),
    ensures
        by_tag(tables) == tables,
{
    let keys = tag_values(tables);
    assert forall|i: int, j: int| 0 <= i < j < keys.len() implies keys[i] <= keys[j] by {
        assert(tag_value(tables[i].tag) <= tag_value(tables[j].tag));
    }
    crate::sort::ordering_keeps_what_is_ordered(keys);
    assert(by_tag(tables) =~= tables);
}

/// What comes out of [`split_sfnt`] is in the order of its tags.
pub proof fn split_tables_are_sorted(tables: Seq<Table>)
    ensures
        forall|i: int, j: int|
            0 <= i < j < by_tag(tables).len() ==> tag_value(by_tag(tables)[i].tag) <= tag_value(
                by_tag(tables)[j].tag,
            ),
        by_tag(tables).len() == tables.len(),
{
    let keys = tag_values(tables);
    ordering_is_stable(keys);
    let order = stable_order(keys);
    let sorted = by_tag(tables);
    assert forall|i: int, j: int| 0 <= i < j < sorted.len() implies tag_value(sorted[i].tag)
        <= tag_value(sorted[j].tag) by {
        assert(keys[order[i]] == tag_value(tables[order[i]].tag));
        assert(keys[order[j]] == tag_value(tables[order[j]].tag));
    }
}

proof fn lemma_tables_from_count(data: Seq<u8>, i: int, tables: Seq<Table>)
    requires
        0 <= i <= u16_at(data, 4),
        tables.len() == i,
        tags_ok(tables),
        data.len() >= 12,
    ensures
        tables_from(data, i, tables) matches Ok(all) ==> all.len() == u16_at(data, 4) && tags_ok(
            all,
        ),
    decreases u16_at(data, 4) - i,
{
    if i < u16_at(data, 4) && 12 + 16 * i + 16 <= data.len() {
        let r = record_at(data, i);
        if r.offset + r.length <= data.len() {
            let next = tables.push(
                Table {
                    tag: r.tag,
                    checksum: r.checksum,
                    bytes: data.subrange(r.offset, r.offset + r.length),
                },
            );
            lemma_tables_from_count(data, i + 1, next);
        }
    }
}

/// An sfnt comes apart into as many tables as its header says, and no more than 16 bits
/// can count.
pub proof fn lemma_split_count(data: Seq<u8>)
    ensures
        split_of(data) matches Ok((flavor, tables)) ==> tables.len() <= u16::MAX && tables.len()
            == u16_at(data, 4) && 0 <= flavor <= u32::MAX,
{
    if data.len() >= 12 {
        lemma_tables_from_count(data, 0, Seq::empty());
        match tables_from(data, 0, Seq::empty()) {
            Ok(tables) => {
                split_tables_are_sorted(tables);
            },
            Err(_) => {},
        }
    }
}

/// An sfnt comes apart into tables in the order of their tags, which have four bytes.
pub proof fn lemma_split_tags(data: Seq<u8>)
    ensures
        split_of(data) matches Ok((flavor, tables)) ==> tags_ok(tables) && forall|i: int, j: int|
            0 <= i < j < tables.len() ==> tag_value(tables[i].tag) <= tag_value(tables[j].tag),
{
    if data.len() >= 12 {
        lemma_tables_from_count(data, 0, Seq::empty());
        match tables_from(data, 0, Seq::empty()) {
            Ok(tables) => {
                split_tables_are_sorted(tables);
                ordering_is_stable(tag_values(tables));
                let order = stable_order(tag_values(tables));
                let sorted = by_tag(tables);
                assert forall|k: int| 0 <= k < sorted.len() implies (#[trigger] sorted[k]).tag.len()
                    == 4 by {
                    assert(sorted[k] == tables[order[k]]);
                }
            },
            Err(_) => {},
        }
    }
}

proof fn lemma_tables_from_sizes(data: Seq<u8>, i: int, tables: Seq<Table>)
    requires
        0 <= i,
        forall|k: int|
            0 <= k < tables.len() ==> (#[trigger] tables[k]).bytes.len() <= u32::MAX && 0
                <= tables[k].checksum <= u32::MAX,
    ensures
        tables_from(data, i, tables) matches Ok(all) ==> forall|k: int|
            0 <= k < all.len() ==> (#[trigger] all[k]).bytes.len() <= u32::MAX && 0
                <= all[k].checksum <= u32::MAX,
    decreases u16_at(data, 4) - i,
{
    if i < u16_at(data, 4) && 12 + 16 * i + 16 <= data.len() {
        let r = record_at(data, i);
        if r.offset + r.length <= data.len() {
            let next = tables.push(
                Table {
                    tag: r.tag,
                    checksum: r.checksum,
                    bytes: data.subrange(r.offset, r.offset + r.length),
                },
            );
            lemma_tables_from_sizes(data, i + 1, next);
        }
    }
}

/// No table is longer than 32 bits can say, and every checksum fits them.
pub proof fn lemma_split_sizes(data: Seq<u8>)
    ensures
        split_of(data) matches Ok((flavor, tables)) ==> forall|k: int|
            0 <= k < tables.len() ==> (#[trigger] tables[k]).bytes.len() <= u32::MAX && 0
                <= tables[k].checksum <= u32::MAX,
{
    if data.len() >= 12 {
        lemma_tables_from_sizes(data, 0, Seq::empty());
        match tables_from(data, 0, Seq::empty()) {
            Ok(tables) => {
                ordering_is_stable(tag_values(tables));
                let order = stable_order(tag_values(tables));
                let sorted = by_tag(tables);
                assert forall|k: int| 0 <= k < sorted.len() implies (
                #[trigger] sorted[k]).bytes.len() <= u32::MAX && 0 <= sorted[k].checksum
                    <= u32::MAX by {
                    assert(sorted[k] == tables[order[k]]);
                }
            },
            Err(_) => {},
        }
    }
}

} // verus!
