//! Big-endian integers, which is how every OpenType structure stores them.
use vstd::prelude::*;

verus! {

/// The two big-endian bytes of `v`, taken modulo 65536.
pub open spec fn be16(v: int) -> Seq<u8> {
    seq![((v / 256) % 256) as u8, (v % 256) as u8]
}

/// The four big-endian bytes of `v`, taken modulo 2^32. A negative `v` gives its
/// two's complement form.
pub open spec fn be32(v: int) -> Seq<u8> {
    seq![
        ((v / 0x100_0000) % 256) as u8,
        ((v / 0x1_0000) % 256) as u8,
        ((v / 256) % 256) as u8,
        (v % 256) as u8,
    ]
}

/// The unsigned 16-bit integer stored at `at`.
pub open spec fn u16_at(data: Seq<u8>, at: int) -> int {
    data[at] * 256 + data[at + 1]
}

/// The unsigned 32-bit integer stored at `at`.
pub open spec fn u32_at(data: Seq<u8>, at: int) -> int {
    data[at] * 0x100_0000 + data[at + 1] * 0x1_0000 + data[at + 2] * 256 + data[at + 3]
}

/// `n` rounded up to a multiple of four.
pub open spec fn pad4(n: int) -> int {
    (n + 3) / 4 * 4
}

/// `n` zero bytes.
pub open spec fn zeros(n: int) -> Seq<u8> {
    Seq::new(n as nat, |i: int| 0u8)
}

/// All of `items`, one after another.
pub open spec fn concat(items: Seq<Seq<u8>>) -> Seq<u8>
    decreases items.len(),
{
    if items.len() == 0 {
        Seq::empty()
    } else {
        concat(items.drop_last()) + items.last()
    }
}

/// How many bytes `items` hold together.
pub open spec fn total_len(items: Seq<Seq<u8>>) -> int
    decreases items.len(),
{
    if items.len() == 0 {
        0
    } else {
        total_len(items.drop_last()) + items.last().len()
    }
}

/// The contents of a vector of byte vectors.
pub open spec fn views(items: Seq<Vec<u8>>) -> Seq<Seq<u8>> {
    items.map_values(|v: Vec<u8>| v@)
}

/// A big-endian 16-bit integer reads back as the value that was written.
pub proof fn lemma_be16_reads_back(data: Seq<u8>, at: int, v: int)
    requires
        0 <= v < 0x1_0000,
        0 <= at,
        at + 2 <= data.len(),
        data.subrange(at, at + 2) == be16(v),
    ensures
        u16_at(data, at) == v,
{
    let s = data.subrange(at, at + 2);
    assert(s[0] == data[at] && s[1] == data[at + 1]);
}

/// A big-endian 32-bit integer reads back as the value that was written.
pub proof fn lemma_be32_reads_back(data: Seq<u8>, at: int, v: int)
    requires
        0 <= v < 0x1_0000_0000,
        0 <= at,
        at + 4 <= data.len(),
        data.subrange(at, at + 4) == be32(v),
    ensures
        u32_at(data, at) == v,
{
    let s = data.subrange(at, at + 4);
    assert(s[0] == data[at] && s[1] == data[at + 1] && s[2] == data[at + 2] && s[3] == data[at
        + 3]);
}

pub proof fn lemma_total_len_is_concat_len(items: Seq<Seq<u8>>)
    ensures
        concat(items).len() == total_len(items),
        total_len(items) >= 0,
    decreases items.len(),
{
    if items.len() > 0 {
        lemma_total_len_is_concat_len(items.drop_last());
    }
}

/// Adding one item adds its bytes at the end.
pub proof fn lemma_concat_push(items: Seq<Seq<u8>>, item: Seq<u8>)
    ensures
        concat(items.push(item)) == concat(items) + item,
        total_len(items.push(item)) == total_len(items) + item.len(),
{
    assert(items.push(item).drop_last() =~= items);
}

/// A prefix of the items holds no more bytes than all of them.
pub proof fn lemma_total_len_prefix(items: Seq<Seq<u8>>, n: int)
    requires
        0 <= n <= items.len(),
    ensures
        0 <= total_len(items.take(n)) <= total_len(items),
    decreases items.len(),
{
    lemma_total_len_is_concat_len(items.take(n));
    if n == items.len() {
        assert(items.take(n) =~= items);
    } else {
        lemma_total_len_prefix(items.drop_last(), n);
        assert(items.drop_last().take(n) =~= items.take(n));
    }
}

/// Taking one more item adds that item's bytes.
pub proof fn lemma_take_step(items: Seq<Seq<u8>>, n: int)
    requires
        0 <= n < items.len(),
    ensures
        concat(items.take(n + 1)) == concat(items.take(n)) + items[n],
        total_len(items.take(n + 1)) == total_len(items.take(n)) + items[n].len(),
{
    assert(items.take(n + 1) =~= items.take(n).push(items[n]));
    lemma_concat_push(items.take(n), items[n]);
}

/// Item `n` sits in the concatenation right after the items before it.
pub proof fn lemma_concat_slice(items: Seq<Seq<u8>>, n: int)
    requires
        0 <= n < items.len(),
    ensures
        0 <= total_len(items.take(n)),
        total_len(items.take(n)) + items[n].len() <= concat(items).len(),
        concat(items).subrange(
            total_len(items.take(n)),
            total_len(items.take(n)) + items[n].len(),
        ) == items[n],
    decreases items.len(),
{
    lemma_total_len_is_concat_len(items);
    lemma_total_len_is_concat_len(items.drop_last());
    lemma_total_len_prefix(items, n);
    lemma_total_len_prefix(items, n + 1);
    lemma_take_step(items, n);
    let at = total_len(items.take(n));
    if n == items.len() - 1 {
        assert(items.take(n) =~= items.drop_last());
        assert(concat(items).subrange(at, at + items[n].len()) =~= items[n]);
    } else {
        lemma_concat_slice(items.drop_last(), n);
        assert(items.drop_last().take(n) =~= items.take(n));
        assert(concat(items).subrange(at, at + items[n].len()) =~= concat(
            items.drop_last(),
        ).subrange(at, at + items[n].len()));
    }
}

/// Only the low 16 bits are stored.
pub proof fn lemma_be16_wrapped(n: int)
    ensures
        be16(n % 0x1_0000) == be16(n),
{
    let q = n / 0x1_0000;
    let r = n % 0x1_0000;
    assert(n == q * 0x1_0000 + r);
    assert(n / 256 == q * 256 + r / 256);
    assert(be16(r) =~= be16(n));
}

/// What is appended stands behind what was there, which stays as it was.
pub proof fn lemma_append(s: Seq<u8>, t: Seq<u8>)
    ensures
        (s + t).len() == s.len() + t.len(),
        (s + t).subrange(s.len() as int, (s.len() + t.len()) as int) == t,
        forall|i: int, j: int|
            0 <= i <= j <= s.len() ==> #[trigger] (s + t).subrange(i, j) == s.subrange(i, j),
{
    assert((s + t).subrange(s.len() as int, (s.len() + t.len()) as int) =~= t);
    assert forall|i: int, j: int| 0 <= i <= j <= s.len() implies #[trigger] (s + t).subrange(i, j)
        == s.subrange(i, j) by {
        assert((s + t).subrange(i, j) =~= s.subrange(i, j));
    }
}

pub fn push_u16(out: &mut Vec<u8>, v: u16)
    ensures
        final(out)@ == old(out)@ + be16(v as int),
{
    out.push((v / 256) as u8);
    out.push((v % 256) as u8);
}

pub fn push_u32(out: &mut Vec<u8>, v: u32)
    ensures
        final(out)@ == old(out)@ + be32(v as int),
{
    out.push((v / 0x100_0000) as u8);
    out.push((v / 0x1_0000 % 256) as u8);
    out.push((v / 256 % 256) as u8);
    out.push((v % 256) as u8);
}

/// Two's complement: a negative value has the bytes of the value 2^32 above it.
pub proof fn lemma_be32_wraps(v: int)
    ensures
        be32(v) == be32(v + 0x1_0000_0000),
{
    assert((v + 0x1_0000_0000) / 0x100_0000 == v / 0x100_0000 + 256);
    assert((v / 0x100_0000 + 256) % 256 == (v / 0x100_0000) % 256);
    assert((v + 0x1_0000_0000) / 0x1_0000 == v / 0x1_0000 + 0x1_0000);
    assert((v / 0x1_0000 + 0x1_0000) % 256 == (v / 0x1_0000) % 256);
    assert((v + 0x1_0000_0000) / 256 == v / 256 + 0x100_0000);
    assert((v / 256 + 0x100_0000) % 256 == (v / 256) % 256);
    assert((v + 0x1_0000_0000) % 256 == v % 256);
}

/// Append the two's complement form of `v`.
pub fn push_i32(out: &mut Vec<u8>, v: i32)
    ensures
        final(out)@ == old(out)@ + be32(v as int),
{
    let wide: i64 = if v < 0 {
        v as i64 + 0x1_0000_0000
    } else {
        v as i64
    };
    proof {
        lemma_be32_wraps(v as int);
    }
    push_u32(out, wide as u32);
}

/// Append the two's complement form of `v`.
pub fn push_i16(out: &mut Vec<u8>, v: i16)
    ensures
        final(out)@ == old(out)@ + be16(v as int),
{
    let wide: i32 = if v < 0 {
        v as i32 + 0x1_0000
    } else {
        v as i32
    };
    push_u16(out, wide as u16);
}

pub fn push_all(out: &mut Vec<u8>, bytes: &[u8])
    ensures
        final(out)@ == old(out)@ + bytes@,
{
    let ghost before = out@;
    for i in 0..bytes.len()
        invariant
            out@ == before + bytes@.take(i as int),
    {
        out.push(bytes[i]);
        assert(bytes@.take(i + 1) =~= bytes@.take(i as int).push(bytes@[i as int]));
    }
    assert(bytes@.take(bytes@.len() as int) =~= bytes@);
}

/// A copy of `bytes`.
pub fn copy(bytes: &[u8]) -> (out: Vec<u8>)
    ensures
        out@ == bytes@,
{
    let mut out: Vec<u8> = Vec::new();
    push_all(&mut out, bytes);
    out
}

/// A copy of `data[from..to]`.
pub fn copy_range(data: &[u8], from: usize, to: usize) -> (out: Vec<u8>)
    requires
        from <= to <= data@.len(),
    ensures
        out@ == data@.subrange(from as int, to as int),
{
    copy(vstd::slice::slice_subrange(data, from, to))
}

/// True when both hold the same bytes.
pub fn same(a: &[u8], b: &[u8]) -> (r: bool)
    ensures
        r == (a@ == b@),
{
    if a.len() != b.len() {
        return false;
    }
    for i in 0..a.len()
        invariant
            a@.len() == b@.len(),
            forall|j: int| 0 <= j < i ==> a@[j] == b@[j],
    {
        if a[i] != b[i] {
            return false;
        }
    }
    assert(a@ =~= b@);
    true
}

/// The sum of the lengths of `items`, unless it is over `cap`.
pub fn total_within(items: &Vec<Vec<u8>>, cap: usize) -> (r: Option<usize>)
    ensures
        match r {
            Some(n) => n == total_len(views(items@)) && n <= cap,
            None => total_len(views(items@)) > cap,
        },
{
    let mut sum: usize = 0;
    let ghost all = views(items@);
    for i in 0..items.len()
        invariant
            all == views(items@),
            sum == total_len(all.take(i as int)),
            sum <= cap,
    {
        proof {
            lemma_take_step(all, i as int);
            lemma_total_len_prefix(all, i + 1);
        }
        let len: usize = items[i].len();
        if len > cap - sum {
            return None;
        }
        sum = sum + len;
    }
    assert(all.take(all.len() as int) =~= all);
    Some(sum)
}

} // verus!
