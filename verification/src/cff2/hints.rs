//! Taking the hints out of a charstring.
//!
//! Hints declare stems and switch them on and off; they draw nothing. A font whose outlines
//! were partly redrawn is better off without any than with some.
use vstd::prelude::*;

use crate::bytes::{copy_range, push_all};
use super::charstring::{
    is_stem_operator, mask_len, scan, CNTRMASK, ESCAPE, HINTMASK, HSTEM, HSTEMHM, VSTEM, VSTEMHM,
};
use super::num::{charstring_operand, read_charstring_number};

verus! {

/// True for the operators that are about hints only.
pub open spec fn is_hint_operator(b: u8) -> bool {
    is_stem_operator(b) || b == HINTMASK || b == CNTRMASK
}

/// Where the hint operator at `pos` ends. A mask has one bit for each of the stems.
pub open spec fn hint_end(b: u8, pos: int, stems: nat) -> int {
    if is_stem_operator(b) {
        pos + 1
    } else {
        pos + 1 + mask_len(stems)
    }
}

/// Where an operator that is not about hints ends.
pub open spec fn operator_end(b: u8, pos: int) -> int {
    if b == ESCAPE {
        pos + 2
    } else {
        pos + 1
    }
}

/// What `data` draws from `pos` on: its operators in order, each behind its operands, without
/// those that are about hints. So far `stems` stems have been declared, and `pending` operands
/// wait, from `from` on. A program that is cut short ends in one piece.
pub open spec fn drawing_from(data: Seq<u8>, pos: int, from: int, stems: nat, pending: nat) -> Seq<
    Seq<u8>,
>
    decreases data.len() - pos,
{
    if pos >= data.len() {
        if from < data.len() {
            seq![data.skip(from)]
        } else {
            Seq::empty()
        }
    } else {
        let b0 = data[pos];
        if b0 >= 32 || b0 == 28 {
            match charstring_operand(data, pos) {
                Ok((_, len)) => drawing_from(data, pos + len, from, stems, pending + 1),
                Err(_) => seq![data.skip(from)],
            }
        } else if is_hint_operator(b0) {
            let declared = stems + pending / 2;
            let end = hint_end(b0, pos, declared);
            if end > data.len() {
                seq![data.skip(from)]
            } else {
                drawing_from(data, end, end, declared, 0)
            }
        } else {
            let end = operator_end(b0, pos);
            if end > data.len() {
                seq![data.skip(from)]
            } else {
                seq![data.subrange(from, end)] + drawing_from(data, end, end, stems, 0)
            }
        }
    }
}

/// What a program draws.
pub open spec fn drawing(data: Seq<u8>) -> Seq<Seq<u8>> {
    drawing_from(data, 0, 0, 0, 0)
}

/// `data` from `pos` on without its hints, with the operands that wait from `from` on.
pub open spec fn unhinted_from(data: Seq<u8>, pos: int, from: int, stems: nat, pending: nat) -> Seq<
    u8,
>
    decreases data.len() - pos,
{
    if pos >= data.len() {
        if from < data.len() {
            data.skip(from)
        } else {
            Seq::empty()
        }
    } else {
        let b0 = data[pos];
        if b0 >= 32 || b0 == 28 {
            match charstring_operand(data, pos) {
                Ok((_, len)) => unhinted_from(data, pos + len, from, stems, pending + 1),
                Err(_) => data.skip(from),
            }
        } else if is_hint_operator(b0) {
            let declared = stems + pending / 2;
            let end = hint_end(b0, pos, declared);
            if end > data.len() {
                data.skip(from)
            } else {
                unhinted_from(data, end, end, declared, 0)
            }
        } else {
            let end = operator_end(b0, pos);
            if end > data.len() {
                data.skip(from)
            } else {
                data.subrange(from, end) + unhinted_from(data, end, end, stems, 0)
            }
        }
    }
}

/// A program without its hints.
pub open spec fn unhinted(data: Seq<u8>) -> Seq<u8> {
    unhinted_from(data, 0, 0, 0, 0)
}

fn is_hint(b: u8) -> (r: bool)
    ensures
        r == is_hint_operator(b),
{
    b == HSTEM || b == VSTEM || b == HSTEMHM || b == VSTEMHM || b == HINTMASK || b == CNTRMASK
}

/// Take the hints out of a program that neither calls subroutines nor blends.
pub fn strip_hints(data: &[u8]) -> (out: Vec<u8>)
    requires
        scan(data@, 0, 0, 0) is Some,
    ensures
        out@ == unhinted(data@),
{
    let mut out: Vec<u8> = Vec::new();
    let mut pos: usize = 0;
    let mut from: usize = 0;
    let mut stems: usize = 0;
    let mut pending: usize = 0;
    assert(out@ + unhinted(data@) =~= unhinted(data@));
    while pos < data.len()
        invariant
            from <= pos <= data@.len(),
            stems + pending <= pos,
            scan(data@, pos as int, stems as nat, pending as nat) is Some,
            out@ + unhinted_from(data@, pos as int, from as int, stems as nat, pending as nat)
                == unhinted(data@),
        decreases data@.len() - pos,
    {
        let b0: u8 = data[pos];
        if b0 >= 32 || b0 == 28 {
            let len: usize = match read_charstring_number(data, pos) {
                Ok((_, len)) => len,
                Err(_) => 0,
            };
            pos = pos + len;
            pending = pending + 1;
        } else if is_hint(b0) {
            let declared: usize = stems + pending / 2;
            if b0 == HINTMASK || b0 == CNTRMASK {
                let mask: usize = if declared == 0 {
                    1
                } else {
                    declared / 8 + (declared % 8 + 7) / 8
                };
                assert(mask == mask_len(declared as nat));
                pos = pos + 1 + mask;
            } else {
                pos = pos + 1;
            }
            from = pos;
            stems = declared;
            pending = 0;
        } else {
            let end: usize = if b0 == ESCAPE {
                pos + 2
            } else {
                pos + 1
            };
            let ghost before = out@;
            let ghost rest = unhinted_from(data@, end as int, end as int, stems as nat, 0);
            push_all(&mut out, copy_range(data, from, end).as_slice());
            assert(out@ + rest =~= before + (data@.subrange(from as int, end as int) + rest));
            pos = end;
            from = end;
            pending = 0;
        }
    }
    if from < data.len() {
        let ghost before = out@;
        push_all(&mut out, copy_range(data, from, data.len()).as_slice());
        assert(out@ =~= before + data@.skip(from as int));
    } else {
        assert(out@ =~= out@ + Seq::<u8>::empty());
    }
    out
}

// ---------------------------------------------------------------------------------- laws

/// True when `data` holds `n` operands from `p` to `q` and nothing else.
pub open spec fn are_operands(data: Seq<u8>, p: int, q: int, n: nat) -> bool
    decreases q - p,
{
    if p >= q {
        p == q && n == 0
    } else {
        &&& n > 0
        &&& 0 <= p < data.len()
        &&& data[p] >= 32 || data[p] == 28
        &&& charstring_operand(data, p) matches Ok((_, len)) && p + len <= q && are_operands(
            data,
            p + len,
            q,
            (n - 1) as nat,
        )
    }
}

proof fn lemma_one_more_operand(data: Seq<u8>, p: int, q: int, n: nat)
    requires
        0 <= p <= q < data.len(),
        are_operands(data, p, q, n),
        data[q] >= 32 || data[q] == 28,
        charstring_operand(data, q) is Ok,
    ensures
        are_operands(data, p, q + (charstring_operand(data, q)->Ok_0).1, n + 1),
    decreases q - p,
{
    let (_, len) = charstring_operand(data, q)->Ok_0;
    if p == q {
        assert(are_operands(data, q + len, q + len, 0));
    } else {
        let (_, first) = charstring_operand(data, p)->Ok_0;
        lemma_one_more_operand(data, p + first, q, (n - 1) as nat);
    }
}

/// Operands stay operands where their bytes stand elsewhere.
proof fn lemma_operands_moved(a: Seq<u8>, p: int, q: int, n: nat, b: Seq<u8>, at: int)
    requires
        0 <= p <= q <= a.len(),
        0 <= at,
        at + (q - p) <= b.len(),
        forall|i: int| 0 <= i < q - p ==> #[trigger] b[at + i] == a[p + i],
        are_operands(a, p, q, n),
    ensures
        are_operands(b, at, at + (q - p), n),
    decreases q - p,
{
    if p < q {
        let (_, len) = charstring_operand(a, p)->Ok_0;
        assert(b[at + 0] == a[p + 0]);
        assert(charstring_operand(b, at) is Ok);
        assert forall|i: int| 0 <= i < q - (p + len) implies #[trigger] b[(at + len) + i] == a[(p
            + len) + i] by {
            assert(b[at + (len + i)] == a[p + (len + i)]);
        }
        lemma_operands_moved(a, p + len, q, (n - 1) as nat, b, at + len);
    }
}

/// Operands are passed over.
proof fn lemma_past_operands(
    data: Seq<u8>,
    p: int,
    q: int,
    n: nat,
    from: int,
    stems: nat,
    pending: nat,
)
    requires
        0 <= p <= q <= data.len(),
        are_operands(data, p, q, n),
    ensures
        drawing_from(data, p, from, stems, pending) == drawing_from(
            data,
            q,
            from,
            stems,
            pending + n,
        ),
        scan(data, p, stems, pending) == scan(data, q, stems, pending + n),
    decreases q - p,
{
    if p < q {
        let (_, len) = charstring_operand(data, p)->Ok_0;
        lemma_past_operands(data, p + len, q, (n - 1) as nat, from, stems, pending + 1);
    }
}

/// What stands in front of a program does not change what it draws.
proof fn lemma_drawing_behind(
    a: Seq<u8>,
    b: Seq<u8>,
    pos: int,
    from: int,
    stems: nat,
    pending: nat,
)
    requires
        0 <= from <= pos <= b.len(),
        scan(b, pos, stems, pending) is Some,
    ensures
        drawing_from(a + b, a.len() + pos, a.len() + from, stems, pending) == drawing_from(
            b,
            pos,
            from,
            stems,
            pending,
        ),
        scan(a + b, a.len() + pos, stems, pending) == scan(b, pos, stems, pending),
    decreases b.len() - pos,
{
    let ab = a + b;
    let at = a.len() + pos;
    assert(ab.skip(a.len() + from) =~= b.skip(from));
    if pos < b.len() {
        let b0 = b[pos];
        assert(ab[at] == b0);
        if b0 >= 32 || b0 == 28 {
            let (_, len) = charstring_operand(b, pos)->Ok_0;
            assert(ab.subrange(at, at + len) =~= b.subrange(pos, pos + len));
            lemma_drawing_behind(a, b, pos + len, from, stems, pending + 1);
        } else if is_hint_operator(b0) {
            let declared = stems + pending / 2;
            let end = hint_end(b0, pos, declared);
            lemma_drawing_behind(a, b, end, end, declared, 0);
        } else {
            let end = operator_end(b0, pos);
            assert(ab.subrange(a.len() + from, a.len() + end) =~= b.subrange(from, end));
            lemma_drawing_behind(a, b, end, end, stems, 0);
        }
    }
}

proof fn lemma_unhinted_draws(data: Seq<u8>, pos: int, from: int, stems: nat, pending: nat)
    requires
        0 <= from <= pos <= data.len(),
        scan(data, pos, stems, pending) is Some,
        are_operands(data, from, pos, pending),
    ensures
        ({
            let out = unhinted_from(data, pos, from, stems, pending);
            &&& drawing(out) == drawing_from(data, pos, from, stems, pending)
            &&& scan(out, 0, 0, 0) matches Some((declared, _)) && declared == 0
        }),
    decreases data.len() - pos,
{
    let out = unhinted_from(data, pos, from, stems, pending);
    if pos == data.len() {
        let len = out.len() as int;
        assert(len == pos - from);
        lemma_operands_moved(data, from, pos, pending, out, 0);
        lemma_past_operands(out, 0, len, pending, 0, 0, 0);
        assert(out.skip(0) =~= out);
    } else {
        let b0 = data[pos];
        if b0 >= 32 || b0 == 28 {
            let (_, len) = charstring_operand(data, pos)->Ok_0;
            lemma_one_more_operand(data, from, pos, pending);
            lemma_unhinted_draws(data, pos + len, from, stems, pending + 1);
        } else if is_hint_operator(b0) {
            let declared = stems + pending / 2;
            let end = hint_end(b0, pos, declared);
            lemma_unhinted_draws(data, end, end, declared, 0);
        } else {
            let end = operator_end(b0, pos);
            lemma_unhinted_draws(data, end, end, stems, 0);
            let piece = data.subrange(from, end);
            let rest = unhinted_from(data, end, end, stems, 0);
            let at = pos - from;
            assert(out == piece + rest);
            assert forall|i: int| 0 <= i < pos - from implies #[trigger] out[0 + i] == data[from
                + i] by {}
            lemma_operands_moved(data, from, pos, pending, out, 0);
            lemma_past_operands(out, 0, at, pending, 0, 0, 0);
            assert(out[at] == b0);
            assert(out.subrange(0, end - from) =~= piece);
            lemma_drawing_behind(piece, rest, 0, 0, 0, 0);
            assert(operator_end(b0, at) == piece.len());
            assert(drawing_from(out, at, 0, 0, pending) == seq![piece] + drawing_from(
                out,
                piece.len() as int,
                piece.len() as int,
                0,
                0,
            ));
        }
    }
}

/// Without its hints a program draws what it drew, operator by operator, and declares no stem
/// any more.
pub proof fn hints_draw_nothing(data: Seq<u8>)
    requires
        scan(data, 0, 0, 0) is Some,
    ensures
        drawing(unhinted(data)) == drawing(data),
        scan(unhinted(data), 0, 0, 0) matches Some((stems, _)) && stems == 0,
{
    lemma_unhinted_draws(data, 0, 0, 0, 0);
}

} // verus!
