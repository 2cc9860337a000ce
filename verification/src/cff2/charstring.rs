//! Rewriting CFF2 charstrings so their blends describe the new design space.
//!
//! The interpreter here touches only the numbers a `blend` produces and copies every
//! other byte of the program through, so hinting survives instancing intact.
//!
//! # Subroutines are inlined
//!
//! A subroutine's `blend` operators are resolved against whichever `vsindex` was in
//! effect when it was called, so the same subroutine called from two glyphs with
//! different `vsindex` values does not have one rewriting. Inlining sidesteps that.
//!
//! # Where the blended values come from
//!
//! What a blended value becomes in the new design space is worked out in floating point,
//! by whoever calls [`rewrite`]. The rewriter is handed the values resolved so far; when
//! it meets a blend that has none yet it stops and says which one it needs.
use vstd::prelude::*;

use crate::bytes::{push_all, views};
use crate::error::{Problem, SliceError};
use crate::text::{decimal, decimal_of, decimal_of_signed, decimal_signed, join2, join3};
use super::num::{
    charstring_number, charstring_operand, read_charstring_number, write_charstring_number,
    MAX_DEPTH,
};

verus! {

pub const HSTEM: u8 = 1;

pub const VSTEM: u8 = 3;

pub const CALLSUBR: u8 = 10;

pub const RETURN: u8 = 11;

pub const ESCAPE: u8 = 12;

pub const ENDCHAR: u8 = 14;

pub const VSINDEX: u8 = 15;

pub const BLEND: u8 = 16;

pub const HSTEMHM: u8 = 18;

pub const HINTMASK: u8 = 19;

pub const CNTRMASK: u8 = 20;

pub const VSTEMHM: u8 = 23;

pub const CALLGSUBR: u8 = 29;

/// Values are held to this magnitude, in units of 1/65536. Beyond ±32768 a charstring
/// cannot hold a value at all, so nothing that can be written comes near it.
pub const HELD: i64 = 0x4000_0000_0000_0000;

/// What one blended value becomes in the new design space.
#[derive(Clone, Debug)]
pub struct Resolved {
    /// What is added to the base value, as a whole number.
    pub gain: i32,
    /// The deltas that are left, one per surviving region, as whole numbers.
    pub deltas: Vec<i32>,
}

/// Everything the rewriter needs that is not in the charstring itself.
pub struct Context<'a> {
    /// Global subroutines, as stored in the CFF2 table.
    pub global_subrs: &'a Vec<Vec<u8>>,
    /// Local subroutines for the font DICT this glyph belongs to.
    pub local_subrs: &'a Vec<Vec<u8>>,
    /// How many regions each ItemVariationData has, indexed the way `vsindex` indexes
    /// them.
    pub region_counts: &'a Vec<usize>,
    /// The `vsindex` the glyph starts with, which its Private DICT may have set.
    pub initial_vsindex: u16,
    /// What the blended values become, in the order in which the program makes them.
    pub resolved: &'a Vec<Resolved>,
}

/// What came of rewriting a charstring.
#[derive(Debug)]
pub enum Rewritten {
    /// The new program.
    Done(Vec<u8>),
    /// The program blends a value that has not been resolved yet: these deltas, in units
    /// of 1/65536, one per region of that variation data.
    NeedsBlend { vsindex: u16, row: Vec<i64> },
}

// ------------------------------------------------------------------------------ model

/// One value waiting on the operand stack, in units of 1/65536. The deltas of a blended
/// one are whole numbers.
pub enum Slot {
    Plain(int),
    Blended { base: int, deltas: Seq<int> },
}

/// The state of the rewriter between two operators.
pub struct Machine {
    pub out: Seq<u8>,
    pub stack: Seq<Slot>,
    /// How many hint stems the program has declared.
    pub stems: nat,
    pub vsindex: int,
    /// The `vsindex` the emitted blends were written against, once there is one.
    pub emitted: Option<int>,
    pub finished: bool,
    /// How many resolved values have been used.
    pub used: nat,
}

/// What a [`Context`] holds.
pub struct Env {
    pub global_subrs: Seq<Seq<u8>>,
    pub local_subrs: Seq<Seq<u8>>,
    pub region_counts: Seq<nat>,
    pub initial_vsindex: int,
    pub resolved: Seq<(int, Seq<int>)>,
}

/// Where a run of the machine ends.
pub enum Outcome {
    Done(Machine),
    Failed(Problem),
    Ask { vsindex: int, row: Seq<int> },
}

/// What one operator does.
pub enum Step {
    /// The machine goes on at this position.
    Next(Machine, int),
    /// The subroutine, or the whole program, ends here.
    Return(Machine),
    /// This subroutine runs next; the machine goes on behind the call.
    Call(Machine, Seq<u8>),
    Failed(Problem),
    Ask { vsindex: int, row: Seq<int> },
}

impl<'a> View for Context<'a> {
    type V = Env;

    open spec fn view(&self) -> Env {
        Env {
            global_subrs: views(self.global_subrs@),
            local_subrs: views(self.local_subrs@),
            region_counts: self.region_counts@.map_values(|n: usize| n as nat),
            initial_vsindex: self.initial_vsindex as int,
            resolved: self.resolved@.map_values(
                |r: Resolved| (r.gain as int, r.deltas@.map_values(|d: i32| d as int)),
            ),
        }
    }
}

/// The error for a charstring that breaks the format.
pub open spec fn malformed_charstring(what: Seq<char>) -> Problem {
    Problem::Read("a CFF2 charstring is malformed: "@ + what)
}

/// The value the program sees, which is the value at the new default location.
pub open spec fn slot_value(slot: Slot) -> int {
    match slot {
        Slot::Plain(v) => v,
        Slot::Blended { base, .. } => base,
    }
}

/// `v` within the magnitude that values are held to.
pub open spec fn held(v: int) -> int {
    if v > HELD {
        HELD as int
    } else if v < -HELD {
        -HELD
    } else {
        v
    }
}

/// `v` units as a whole number, cut off towards zero.
pub open spec fn truncated(v: int) -> int {
    if v < 0 {
        -((-v) / 65536)
    } else {
        v / 65536
    }
}

/// How many of the first slots are blended, in a row.
pub open spec fn blended_run(stack: Seq<Slot>) -> nat
    decreases stack.len(),
{
    if stack.len() > 0 && stack[0] is Blended {
        1 + blended_run(stack.skip(1))
    } else {
        0
    }
}

/// The base values of `slots`, encoded.
pub open spec fn encoded_bases(slots: Seq<Slot>) -> Seq<u8>
    decreases slots.len(),
{
    if slots.len() == 0 {
        Seq::empty()
    } else {
        encoded_bases(slots.drop_last()) + charstring_number(slot_value(slots.last()))
    }
}

/// Whole numbers, encoded.
pub open spec fn encoded_wholes(deltas: Seq<int>) -> Seq<u8>
    decreases deltas.len(),
{
    if deltas.len() == 0 {
        Seq::empty()
    } else {
        encoded_wholes(deltas.drop_last()) + charstring_number(deltas.last() * 65536)
    }
}

/// The deltas of `slots`, encoded.
pub open spec fn encoded_deltas(slots: Seq<Slot>) -> Seq<u8>
    decreases slots.len(),
{
    if slots.len() == 0 {
        Seq::empty()
    } else {
        encoded_deltas(slots.drop_last()) + encoded_wholes(slots.last()->deltas)
    }
}

/// One `blend` operator with its operands: the bases, then the deltas, then the count.
pub open spec fn encoded_blend(slots: Seq<Slot>) -> Seq<u8> {
    encoded_bases(slots) + encoded_deltas(slots) + charstring_number(slots.len() as int * 65536)
        + seq![BLEND]
}

pub proof fn lemma_blended_run(stack: Seq<Slot>)
    ensures
        blended_run(stack) <= stack.len(),
        stack.len() > 0 && stack[0] is Blended ==> blended_run(stack) >= 1,
        forall|i: int| 0 <= i < blended_run(stack) ==> stack[i] is Blended,
        blended_run(stack) < stack.len() ==> !(stack[blended_run(stack) as int] is Blended),
    decreases stack.len(),
{
    if stack.len() > 0 && stack[0] is Blended {
        lemma_blended_run(stack.skip(1));
        assert forall|i: int| 0 <= i < blended_run(stack) implies stack[i] is Blended by {
            if i > 0 {
                assert(stack[i] == stack.skip(1)[i - 1]);
            }
        }
    }
}

/// The operand stack, encoded: plain values as they are, and each run of blended values
/// as one `blend`.
pub open spec fn encoded_stack(stack: Seq<Slot>) -> Seq<u8>
    decreases stack.len(),
{
    if stack.len() == 0 {
        Seq::empty()
    } else if stack[0] is Plain {
        charstring_number(stack[0]->Plain_0) + encoded_stack(stack.skip(1))
    } else {
        proof {
            lemma_blended_run(stack);
        }
        let n = blended_run(stack) as int;
        encoded_blend(stack.take(n)) + encoded_stack(stack.skip(n))
    }
}

/// The stack written out, with nothing left on it.
pub open spec fn flushed(m: Machine) -> Machine {
    Machine { out: m.out + encoded_stack(m.stack), stack: Seq::empty(), ..m }
}

/// The stack written out, followed by `tail`.
pub open spec fn emitted(m: Machine, tail: Seq<u8>) -> Machine {
    let f = flushed(m);
    Machine { out: f.out + tail, ..f }
}

/// Every pair of operands before a hint operator declares one stem.
pub open spec fn with_stems(m: Machine) -> Machine {
    Machine { stems: m.stems + m.stack.len() / 2, ..m }
}

/// How long a hint mask is: one bit per stem, and at least one byte.
pub open spec fn mask_len(stems: nat) -> int {
    if stems == 0 {
        1
    } else {
        (stems as int + 7) / 8
    }
}

/// The machine with `n` slots taken off the top of its stack.
pub open spec fn dropped(m: Machine, n: int) -> Machine {
    Machine { stack: m.stack.take(m.stack.len() - n), ..m }
}

/// A call of the subroutine that the top of the stack names.
#[verifier::opaque]
pub open spec fn call_step(m: Machine, subrs: Seq<Seq<u8>>) -> Step {
    if m.stack.len() == 0 {
        Step::Failed(malformed_charstring("a subroutine call with no index"@))
    } else {
        match m.stack.last() {
            Slot::Blended { .. } => Step::Failed(
                malformed_charstring("a subroutine index cannot be a blended value"@),
            ),
            Slot::Plain(v) => {
                let resolved = truncated(v) + subr_bias_of(subrs.len() as int);
                if 0 <= resolved < subrs.len() {
                    Step::Call(dropped(m, 1), subrs[resolved])
                } else {
                    Step::Failed(
                        malformed_charstring(
                            "subroutine "@ + decimal_signed(resolved) + " does not exist"@,
                        ),
                    )
                }
            },
        }
    }
}

/// The bias added to a subroutine index, which depends on how many there are.
pub open spec fn subr_bias_of(count: int) -> int {
    if count < 1240 {
        107
    } else if count < 33900 {
        1131
    } else {
        32768
    }
}

#[verifier::opaque]
pub open spec fn vsindex_step(m: Machine, next: int) -> Step {
    if m.stack.len() == 0 {
        Step::Failed(malformed_charstring("vsindex with no operand"@))
    } else {
        let v = slot_value(m.stack.last());
        if 0 <= v <= 65535 * 65536 {
            Step::Next(Machine { vsindex: v / 65536, ..dropped(m, 1) }, next)
        } else {
            Step::Failed(malformed_charstring("vsindex is not a variation data index"@))
        }
    }
}

/// True when none of the deltas moves anything.
pub open spec fn all_zero(deltas: Seq<int>) -> bool {
    forall|i: int| 0 <= i < deltas.len() ==> deltas[i] == 0
}

/// The error for a program whose blends use two variation data subtables, which one
/// charstring cannot express.
pub open spec fn two_vsindexes(first: int, second: int) -> Problem {
    Problem::Unsupported(
        "a glyph in this font blends against two different variation data subtables ("@ + decimal(
            first as nat,
        ) + " and "@ + decimal(second as nat)
            + "), which a CFF2 charstring cannot express."@,
    )
}

/// The machine after `value` has been pushed as the blended value with the given answer.
pub open spec fn blended_value(m: Machine, base: int, answer: (int, Seq<int>)) -> Outcome {
    let value = held(base + answer.0 * 65536);
    if all_zero(answer.1) {
        // A value that no longer moves is not worth a blend.
        Outcome::Done(
            Machine { stack: m.stack.push(Slot::Plain(value)), used: m.used + 1, ..m },
        )
    } else if m.emitted is Some && m.emitted->0 != m.vsindex {
        Outcome::Failed(two_vsindexes(m.emitted->0, m.vsindex))
    } else {
        Outcome::Done(
            Machine {
                stack: m.stack.push(Slot::Blended { base: value, deltas: answer.1 }),
                emitted: Some(m.vsindex),
                used: m.used + 1,
                ..m
            },
        )
    }
}

/// The machine after the blended values from number `i` on have been pushed: value `i`
/// has base `operands[i]`, and its deltas are row `i` of what follows the bases.
pub open spec fn blended_values(
    m: Machine,
    env: Env,
    operands: Seq<int>,
    count: int,
    regions: int,
    i: int,
) -> Outcome
    decreases count - i,
{
    if i >= count {
        Outcome::Done(m)
    } else if m.used >= env.resolved.len() {
        Outcome::Ask {
            vsindex: m.vsindex,
            row: operands.subrange(count + i * regions, count + (i + 1) * regions),
        }
    } else {
        match blended_value(m, operands[i], env.resolved[m.used as int]) {
            Outcome::Done(next) => blended_values(next, env, operands, count, regions, i + 1),
            other => other,
        }
    }
}

/// One `blend` operator.
#[verifier::opaque]
pub open spec fn blend_outcome(m: Machine, env: Env) -> Outcome {
    if m.stack.len() == 0 {
        Outcome::Failed(malformed_charstring("blend with no operand count"@))
    } else {
        let units = slot_value(m.stack.last());
        if !(65536 <= units <= 65535 * 65536 && units % 65536 == 0) {
            Outcome::Failed(
                malformed_charstring("a blend operand count is not a whole number of values"@),
            )
        } else if m.vsindex >= env.region_counts.len() {
            Outcome::Failed(
                malformed_charstring(
                    "vsindex "@ + decimal(m.vsindex as nat) + " has no variation data"@,
                ),
            )
        } else {
            let count = units / 65536;
            let regions = env.region_counts[m.vsindex] as int;
            let needed = count * (regions + 1);
            let rest = dropped(m, 1);
            if rest.stack.len() < needed {
                Outcome::Failed(
                    malformed_charstring("blend has fewer operands than its count claims"@),
                )
            } else {
                let taken = rest.stack.skip(rest.stack.len() - needed);
                if exists|i: int| 0 <= i < taken.len() && taken[i] is Blended {
                    Outcome::Failed(malformed_charstring("blends cannot nest"@))
                } else {
                    blended_values(
                        dropped(rest, needed),
                        env,
                        taken.map_values(|s: Slot| slot_value(s)),
                        count,
                        regions,
                        0,
                    )
                }
            }
        }
    }
}

pub open spec fn is_stem_operator(b: u8) -> bool {
    b == HSTEM || b == VSTEM || b == HSTEMHM || b == VSTEMHM
}

/// The operator at `pos`, which is not an operand.
pub open spec fn operator_step(m: Machine, env: Env, data: Seq<u8>, pos: int) -> Step {
    let b0 = data[pos];
    let next = pos + 1;
    if is_stem_operator(b0) {
        Step::Next(emitted(with_stems(m), seq![b0]), next)
    } else if b0 == HINTMASK || b0 == CNTRMASK {
        // Operands still on the stack at a mask are an implicit `vstem`.
        let stemmed = with_stems(m);
        let end = next + mask_len(stemmed.stems);
        if end > data.len() {
            Step::Failed(malformed_charstring("a hint mask ran past the end"@))
        } else {
            Step::Next(emitted(stemmed, seq![b0] + data.subrange(next, end)), end)
        }
    } else if b0 == CALLSUBR {
        call_step(m, env.local_subrs)
    } else if b0 == CALLGSUBR {
        call_step(m, env.global_subrs)
    } else if b0 == RETURN {
        Step::Return(m)
    } else if b0 == ENDCHAR {
        // CFF2 has no such operator, but a font that carries one means the program to
        // stop here.
        Step::Return(Machine { finished: true, ..m })
    } else if b0 == VSINDEX {
        vsindex_step(m, next)
    } else if b0 == BLEND {
        match blend_outcome(m, env) {
            Outcome::Done(after) => Step::Next(after, next),
            Outcome::Failed(p) => Step::Failed(p),
            Outcome::Ask { vsindex, row } => Step::Ask { vsindex, row },
        }
    } else if b0 == ESCAPE {
        if next >= data.len() {
            Step::Failed(malformed_charstring("a two-byte operator was cut short"@))
        } else {
            Step::Next(emitted(m, seq![ESCAPE, data[next]]), next + 1)
        }
    } else {
        Step::Next(emitted(m, seq![b0]), next)
    }
}

/// What the machine does at `pos`: it pushes an operand or carries out an operator.
pub open spec fn step(m: Machine, env: Env, data: Seq<u8>, pos: int) -> Step {
    if data[pos] >= 32 || data[pos] == 28 {
        match charstring_operand(data, pos) {
            Ok((value, len)) => Step::Next(
                Machine { stack: m.stack.push(Slot::Plain(value)), ..m },
                pos + len,
            ),
            Err(p) => Step::Failed(p),
        }
    } else {
        operator_step(m, env, data, pos)
    }
}

/// The machine goes on behind the position it is at, and never past the end.
pub proof fn lemma_step_advances(m: Machine, env: Env, data: Seq<u8>, pos: int)
    requires
        pos < data.len(),
    ensures
        step(m, env, data, pos) matches Step::Next(_, next) ==> pos < next <= data.len(),
{
    reveal(vsindex_step);
    reveal(call_step);
}

/// Where the machine ends when it runs `data` from `pos` on, `depth` calls deep.
pub open spec fn run_from(m: Machine, env: Env, data: Seq<u8>, pos: int, depth: int) -> Outcome
    decreases MAX_DEPTH + 1 - depth, data.len() - pos,
{
    if depth > MAX_DEPTH {
        Outcome::Failed(malformed_charstring("subroutine calls nested too deeply"@))
    } else if pos >= data.len() || m.finished {
        Outcome::Done(m)
    } else {
        proof {
            lemma_step_advances(m, env, data, pos);
        }
        match step(m, env, data, pos) {
            Step::Next(after, next) => run_from(after, env, data, next, depth),
            Step::Return(after) => Outcome::Done(after),
            Step::Call(after, body) => match run_from(after, env, body, 0, depth + 1) {
                Outcome::Done(back) => run_from(back, env, data, pos + 1, depth),
                other => other,
            },
            Step::Failed(p) => Outcome::Failed(p),
            Step::Ask { vsindex, row } => Outcome::Ask { vsindex, row },
        }
    }
}

/// The machine before the first byte of a program.
pub open spec fn initial(env: Env) -> Machine {
    Machine {
        out: Seq::empty(),
        stack: Seq::empty(),
        stems: 0,
        vsindex: env.initial_vsindex,
        emitted: None,
        finished: false,
        used: 0,
    }
}

/// The program that a finished machine has written. `vsindex` has to come before the
/// first blend, and the head of the charstring always does.
pub open spec fn program(m: Machine, env: Env) -> Seq<u8> {
    let body = flushed(m).out;
    match m.emitted {
        Some(index) if index != env.initial_vsindex => charstring_number(index * 65536) + seq![
            VSINDEX,
        ] + body,
        _ => body,
    }
}

// --------------------------------------------------------------------------- rewriter

/// One value waiting on the operand stack.
///
/// A blended value occupies one stack slot but several operands in the byte stream, so
/// the logical stack and the encoded form are tracked apart from each other.
enum Pending {
    Plain(i64),
    Blended { base: i64, deltas: Vec<i32> },
}

/// Why a run stopped before its end.
enum Halt {
    Failed(SliceError),
    Ask { vsindex: u16, row: Vec<i64> },
}

spec fn whole_deltas(deltas: Seq<i32>) -> Seq<int> {
    deltas.map_values(|d: i32| d as int)
}

impl View for Pending {
    type V = Slot;

    closed spec fn view(&self) -> Slot {
        match *self {
            Pending::Plain(v) => Slot::Plain(v as int),
            Pending::Blended { base, deltas } => Slot::Blended {
                base: base as int,
                deltas: deltas@.map_values(|d: i32| d as int),
            },
        }
    }
}

impl View for Halt {
    type V = Outcome;

    closed spec fn view(&self) -> Outcome {
        match *self {
            Halt::Failed(e) => Outcome::Failed(e@),
            Halt::Ask { vsindex, row } => Outcome::Ask {
                vsindex: vsindex as int,
                row: row@.map_values(|v: i64| v as int),
            },
        }
    }
}

spec fn slots(pending: Seq<Pending>) -> Seq<Slot> {
    pending.map_values(|p: Pending| p@)
}

fn malformed(what: &str) -> (e: SliceError)
    ensures
        e@ == malformed_charstring(what@),
{
    SliceError::Read(join2("a CFF2 charstring is malformed: ", what))
}

fn halt(what: &str) -> (h: Halt)
    ensures
        h@ == Outcome::Failed(malformed_charstring(what@)),
{
    Halt::Failed(malformed(what))
}

impl Pending {
    fn value(&self) -> (v: i64)
        ensures
            v == slot_value(self@),
    {
        match self {
            Pending::Plain(v) => *v,
            Pending::Blended { base, .. } => *base,
        }
    }

    fn is_blended(&self) -> (r: bool)
        ensures
            r == (self@ is Blended),
    {
        match self {
            Pending::Plain(_) => false,
            Pending::Blended { .. } => true,
        }
    }
}

proof fn lemma_blended_run_is(stack: Seq<Slot>, n: int)
    requires
        0 <= n <= stack.len(),
        forall|i: int| 0 <= i < n ==> stack[i] is Blended,
        n < stack.len() ==> !(stack[n] is Blended),
    ensures
        blended_run(stack) == n,
{
    lemma_blended_run(stack);
}

fn write_wholes(deltas: &Vec<i32>, out: &mut Vec<u8>)
    ensures
        final(out)@ == old(out)@ + encoded_wholes(whole_deltas(deltas@)),
{
    let ghost all = whole_deltas(deltas@);
    let ghost before = out@;
    for i in 0..deltas.len()
        invariant
            all == whole_deltas(deltas@),
            out@ == before + encoded_wholes(all.take(i as int)),
    {
        write_charstring_number(deltas[i] as i64 * 65536, out);
        assert(all.take(i + 1).drop_last() =~= all.take(i as int));
        assert(out@ =~= before + encoded_wholes(all.take(i + 1)));
    }
    assert(all.take(all.len() as int) =~= all);
}

/// Write `pending[start..end]`, which are all blended, as one `blend`.
fn write_blend(pending: &Vec<Pending>, start: usize, end: usize, out: &mut Vec<u8>)
    requires
        start <= end <= pending@.len(),
        forall|i: int| start <= i < end ==> (#[trigger] pending@[i]@) is Blended,
    ensures
        final(out)@ == old(out)@ + encoded_blend(
            slots(pending@).subrange(start as int, end as int),
        ),
{
    let ghost run = slots(pending@).subrange(start as int, end as int);
    let ghost before = out@;
    for i in start..end
        invariant
            start <= end <= pending@.len(),
            run == slots(pending@).subrange(start as int, end as int),
            out@ == before + encoded_bases(run.take(i - start)),
    {
        write_charstring_number(pending[i].value(), out);
        assert(run.take(i + 1 - start).drop_last() =~= run.take(i - start));
        assert(out@ =~= before + encoded_bases(run.take(i + 1 - start)));
    }
    assert(run.take(end - start) =~= run);
    let ghost middle = out@;
    for i in start..end
        invariant
            start <= end <= pending@.len(),
            run == slots(pending@).subrange(start as int, end as int),
            forall|k: int| start <= k < end ==> (#[trigger] pending@[k]@) is Blended,
            out@ == middle + encoded_deltas(run.take(i - start)),
    {
        assert(pending@[i as int]@ is Blended);
        if let Pending::Blended { deltas, .. } = &pending[i] {
            write_wholes(deltas, out);
        }
        assert(run.take(i + 1 - start).drop_last() =~= run.take(i - start));
        assert(out@ =~= middle + encoded_deltas(run.take(i + 1 - start)));
    }
    // A count over 32767 saturates like any other number.
    let count: usize = end - start;
    let held: i64 = if count > 40000 {
        40000
    } else {
        count as i64
    };
    proof {
        assert(charstring_number(count as int * 65536) == charstring_number(held * 65536)) by {
            if count > 40000 {
                assert(count as int * 65536 > i32::MAX);
                assert(!super::num::is_short_int(count as int * 65536));
                assert(!super::num::is_short_int(held * 65536));
            }
        }
    }
    write_charstring_number(held * 65536, out);
    out.push(BLEND);
    assert(out@ =~= before + encoded_blend(run));
}

/// Write out the operand stack, grouping the blended values into `blend` operators.
fn write_stack(pending: &Vec<Pending>, out: &mut Vec<u8>)
    ensures
        final(out)@ == old(out)@ + encoded_stack(slots(pending@)),
{
    let ghost all = slots(pending@);
    let ghost before = out@;
    let mut index: usize = 0;
    assert(all.skip(0) =~= all);
    while index < pending.len()
        invariant
            all == slots(pending@),
            index <= pending@.len(),
            out@ + encoded_stack(all.skip(index as int)) == before + encoded_stack(all),
        decreases pending@.len() - index,
    {
        let ghost rest = all.skip(index as int);
        let ghost so_far = out@;
        assert(rest[0] == pending@[index as int]@);
        let start: usize = index;
        if !pending[index].is_blended() {
            write_charstring_number(pending[index].value(), out);
            index = index + 1;
            assert(rest.skip(1) =~= all.skip(index as int));
            assert(out@ + encoded_stack(all.skip(index as int)) =~= so_far + encoded_stack(rest));
        } else {
            while index < pending.len() && pending[index].is_blended()
                invariant
                    start <= index <= pending@.len(),
                    forall|i: int| start <= i < index ==> (#[trigger] pending@[i]@) is Blended,
                ensures
                    start <= index <= pending@.len(),
                    forall|i: int| start <= i < index ==> (#[trigger] pending@[i]@) is Blended,
                    index < pending@.len() ==> !(pending@[index as int]@ is Blended),
                decreases pending@.len() - index,
            {
                index = index + 1;
            }
            write_blend(pending, start, index, out);
            proof {
                let n = index - start;
                assert forall|i: int| 0 <= i < n implies rest[i] is Blended by {
                    assert(rest[i] == pending@[start + i]@);
                }
                if n < rest.len() {
                    assert(rest[n] == pending@[index as int]@);
                }
                lemma_blended_run_is(rest, n);
                assert(rest.take(n) =~= all.subrange(start as int, index as int));
                assert(rest.skip(n) =~= all.skip(index as int));
                assert(out@ + encoded_stack(all.skip(index as int)) =~= so_far + encoded_stack(
                    rest,
                ));
            }
        }
    }
    assert(all.skip(index as int).len() == 0);
    assert(out@ =~= before + encoded_stack(all));
}

/// The bias added to a subroutine index, which depends on how many there are.
pub fn subr_bias(count: usize) -> (bias: i32)
    ensures
        bias == subr_bias_of(count as int),
{
    if count < 1240 {
        107
    } else if count < 33900 {
        1131
    } else {
        32768
    }
}

/// Stems are counted up to here; no mask for that many fits any charstring.
const STEM_LIMIT: u128 = 0x1_0000_0000_0000_0000_00;

struct Rewriter {
    out: Vec<u8>,
    pending: Vec<Pending>,
    /// Exact up to [`STEM_LIMIT`].
    stem_count: u128,
    stems: Ghost<nat>,
    vsindex: u16,
    emitted_vsindex: Option<u16>,
    finished: bool,
    used: usize,
}

impl Rewriter {
    spec fn machine(&self) -> Machine {
        Machine {
            out: self.out@,
            stack: slots(self.pending@),
            stems: self.stems@,
            vsindex: self.vsindex as int,
            emitted: match self.emitted_vsindex {
                Some(index) => Some(index as int),
                None => None,
            },
            finished: self.finished,
            used: self.used as nat,
        }
    }

    spec fn counts_stems(&self) -> bool {
        self.stem_count == self.stems@ || (self.stem_count >= STEM_LIMIT && self.stems@
            >= STEM_LIMIT)
    }

    spec fn ok(&self) -> bool {
        self.counts_stems() && self.stem_count <= STEM_LIMIT + usize::MAX
    }

    fn count_stems(&mut self)
        requires
            old(self).ok(),
        ensures
            final(self).ok(),
            final(self).machine() == with_stems(old(self).machine()),
    {
        let pairs: usize = self.pending.len() / 2;
        if self.stem_count < STEM_LIMIT {
            self.stem_count = self.stem_count + pairs as u128;
        }
        self.stems = Ghost(self.stems@ + pairs as nat);
    }

    fn flush(&mut self)
        requires
            old(self).ok(),
        ensures
            final(self).ok(),
            final(self).machine() == flushed(old(self).machine()),
    {
        write_stack(&self.pending, &mut self.out);
        self.pending = Vec::new();
        assert(slots(self.pending@) =~= Seq::<Slot>::empty());
    }

    /// Take the subroutine index off the stack and find the subroutine.
    fn take_call(&mut self, count: usize, Ghost(subrs): Ghost<Seq<Seq<u8>>>) -> (r: Result<
        usize,
        SliceError,
    >)
        requires
            old(self).ok(),
            count == subrs.len(),
        ensures
            final(self).ok(),
            match r {
                Ok(i) => i < count && call_step(old(self).machine(), subrs) == Step::Call(
                    final(self).machine(),
                    subrs[i as int],
                ),
                Err(e) => call_step(old(self).machine(), subrs) == Step::Failed(e@),
            },
    {
        reveal(call_step);
        let ghost m = self.machine();
        let operand: Pending = match self.pending.pop() {
            Some(operand) => operand,
            None => {
                return Err(malformed("a subroutine call with no index"));
            },
        };
        assert(m.stack.last() == operand@);
        assert(self.machine().stack =~= dropped(m, 1).stack);
        let index: i64 = match operand {
            Pending::Plain(v) => v,
            Pending::Blended { .. } => {
                return Err(malformed("a subroutine index cannot be a blended value"));
            },
        };
        let whole: i64 = if index < 0 {
            // The smallest value has no positive counterpart in its own type.
            let magnitude: u64 = (-(index + 1)) as u64 + 1;
            -((magnitude / 65536) as i64)
        } else {
            (index as u64 / 65536) as i64
        };
        let resolved: i64 = whole + subr_bias(count) as i64;
        if 0 <= resolved && (resolved as u64) < count as u64 {
            Ok(resolved as usize)
        } else {
            Err(
                malformed(
                    join3(
                        "subroutine ",
                        decimal_of_signed(resolved).as_str(),
                        " does not exist",
                    ).as_str(),
                ),
            )
        }
    }

    fn set_vsindex(&mut self, Ghost(next): Ghost<int>) -> (r: Result<(), SliceError>)
        requires
            old(self).ok(),
        ensures
            final(self).ok(),
            match r {
                Ok(_) => vsindex_step(old(self).machine(), next) == Step::Next(
                    final(self).machine(),
                    next,
                ),
                Err(e) => vsindex_step(old(self).machine(), next) == Step::Failed(e@),
            },
    {
        reveal(vsindex_step);
        let ghost m = self.machine();
        let value: i64 = match self.pending.pop() {
            Some(operand) => {
                assert(m.stack.last() == operand@);
                operand.value()
            },
            None => {
                return Err(malformed("vsindex with no operand"));
            },
        };
        assert(self.machine().stack =~= dropped(m, 1).stack);
        if 0 <= value && value <= 65535 * 65536 {
            self.vsindex = (value as u64 / 65536) as u16;
            Ok(())
        } else {
            Err(malformed("vsindex is not a variation data index"))
        }
    }

    /// Push what one blended value becomes.
    fn push_blended(&mut self, base: i64, answer: &Resolved) -> (r: Result<(), SliceError>)
        requires
            old(self).ok(),
            old(self).used < usize::MAX,
        ensures
            final(self).ok(),
            final(self).vsindex == old(self).vsindex,
            match r {
                Ok(_) => blended_value(
                    old(self).machine(),
                    base as int,
                    (answer.gain as int, answer.deltas@.map_values(|d: i32| d as int)),
                ) == Outcome::Done(final(self).machine()),
                Err(e) => blended_value(
                    old(self).machine(),
                    base as int,
                    (answer.gain as int, answer.deltas@.map_values(|d: i32| d as int)),
                ) == Outcome::Failed(e@),
            },
    {
        let ghost m = self.machine();
        let ghost deltas = answer.deltas@.map_values(|d: i32| d as int);
        let sum: i128 = base as i128 + answer.gain as i128 * 65536;
        let value: i64 = if sum > HELD as i128 {
            HELD
        } else if sum < -(HELD as i128) {
            -HELD
        } else {
            sum as i64
        };
        let mut moves: bool = false;
        for i in 0..answer.deltas.len()
            invariant
                deltas == answer.deltas@.map_values(|d: i32| d as int),
                moves == exists|j: int| 0 <= j < i && deltas[j] != 0,
        {
            assert(deltas[i as int] == answer.deltas@[i as int]);
            if answer.deltas[i] != 0 {
                moves = true;
            }
        }
        if !moves {
            self.pending.push(Pending::Plain(value));
            self.used = self.used + 1;
            assert(self.machine().stack =~= m.stack.push(Slot::Plain(value as int)));
            return Ok(());
        }
        match self.emitted_vsindex {
            Some(existing) => {
                if existing != self.vsindex {
                    let mut text: String = join3(
                        "a glyph in this font blends against two different variation data subtables (",
                        decimal_of(existing as u64).as_str(),
                        " and ",
                    );
                    text = join3(
                        text.as_str(),
                        decimal_of(self.vsindex as u64).as_str(),
                        "), which a CFF2 charstring cannot express.",
                    );
                    return Err(SliceError::Unsupported(text));
                }
            },
            None => {
                self.emitted_vsindex = Some(self.vsindex);
            },
        }
        let mut kept: Vec<i32> = Vec::new();
        for i in 0..answer.deltas.len()
            invariant
                kept@ == answer.deltas@.take(i as int),
        {
            kept.push(answer.deltas[i]);
            assert(answer.deltas@.take(i + 1) =~= answer.deltas@.take(i as int).push(
                answer.deltas@[i as int],
            ));
        }
        assert(kept@ =~= answer.deltas@);
        self.pending.push(Pending::Blended { base: value, deltas: kept });
        self.used = self.used + 1;
        assert(self.machine().stack =~= m.stack.push(
            Slot::Blended { base: value as int, deltas },
        ));
        Ok(())
    }

    /// Resolve one `blend`, replacing its operands with values for the new design space.
    #[verifier::loop_isolation(false)]
    #[verifier::rlimit(30)]
    fn blend(&mut self, context: &Context) -> (r: Result<(), Halt>)
        requires
            old(self).ok(),
        ensures
            final(self).ok(),
            match r {
                Ok(_) => blend_outcome(old(self).machine(), context@) == Outcome::Done(
                    final(self).machine(),
                ),
                Err(h) => blend_outcome(old(self).machine(), context@) == h@,
            },
    {
        reveal(blend_outcome);
        let ghost m = self.machine();
        let ghost env = context@;
        let units: i64 = match self.pending.pop() {
            Some(operand) => {
                assert(m.stack.last() == operand@);
                operand.value()
            },
            None => {
                return Err(halt("blend with no operand count"));
            },
        };
        let ghost rest = dropped(m, 1);
        assert(self.machine().stack =~= rest.stack);
        if !(65536 <= units && units <= 65535 * 65536 && units as u64 % 65536 == 0) {
            return Err(halt("a blend operand count is not a whole number of values"));
        }
        let count: usize = (units as u64 / 65536) as usize;
        if self.vsindex as usize >= context.region_counts.len() {
            return Err(
                halt(
                    join3(
                        "vsindex ",
                        decimal_of(self.vsindex as u64).as_str(),
                        " has no variation data",
                    ).as_str(),
                ),
            );
        }
        let regions: usize = context.region_counts[self.vsindex as usize];
        assert(env.region_counts[m.vsindex] == regions);
        assert(0 <= count as int * (regions as int + 1) <= 65535 * 0x1_0000_0000_0000_0000)
            by (nonlinear_arith)
            requires
                0 <= count <= 65535,
                0 <= regions <= 0xffff_ffff_ffff_ffff,
        ;
        let needed: u128 = count as u128 * (regions as u128 + 1);
        if (self.pending.len() as u128) < needed {
            return Err(halt("blend has fewer operands than its count claims"));
        }
        let keep: usize = self.pending.len() - needed as usize;
        let ghost taken = rest.stack.skip(rest.stack.len() - needed as int);
        let mut operands: Vec<i64> = Vec::new();
        for i in keep..self.pending.len()
            invariant
                keep <= self.pending@.len(),
                rest.stack == slots(self.pending@),
                taken == rest.stack.skip(keep as int),
                operands@.len() == i - keep,
                forall|j: int|
                    0 <= j < i - keep ==> operands@[j] == slot_value(#[trigger] taken[j]) && !(
                    taken[j] is Blended),
        {
            assert(taken[i - keep] == self.pending@[i as int]@);
            if self.pending[i].is_blended() {
                assert(self.machine().stack =~= rest.stack);
                return Err(halt("blends cannot nest"));
            }
            operands.push(self.pending[i].value());
        }
        let ghost values = taken.map_values(|s: Slot| slot_value(s));
        assert(values =~= operands@.map_values(|v: i64| v as int));
        self.pending.truncate(keep);
        assert(self.machine().stack =~= dropped(rest, needed as int).stack);
        proof {
            assert(count as int * (regions as int + 1) == count as int + count as int
                * regions as int) by (nonlinear_arith);
        }
        let ghost start = self.machine();
        let ghost outcome = blended_values(start, env, values, count as int, regions as int, 0);
        for i in 0..count
            invariant
                self.ok(),
                env == context@,
                values == operands@.map_values(|v: i64| v as int),
                values.len() == count as int + count as int * regions as int,
                count <= 65535,
                self.machine().vsindex == start.vsindex,
                outcome == blended_values(
                    self.machine(),
                    env,
                    values,
                    count as int,
                    regions as int,
                    i as int,
                ),
                outcome == blend_outcome(m, env),
        {
            if self.used >= context.resolved.len() {
                let mut row: Vec<i64> = Vec::new();
                assert(count as int + (i + 1) * (regions as int) <= values.len() && count as int + i
                    * (regions as int) >= 0 && (i + 1) * (regions as int) == i * (regions as int)
                    + regions) by (nonlinear_arith)
                    requires
                        0 <= i < count,
                        values.len() == count as int + count as int * regions as int,
                        regions >= 0,
                ;
                assert(i * regions <= count * regions) by (nonlinear_arith)
                    requires
                        i < count,
                        regions >= 0,
                ;
                let from: usize = count + i * regions;
                let ghost wanted = values.subrange(
                    count as int + i as int * regions as int,
                    count as int + (i as int + 1) * regions as int,
                );
                for k in from..from + regions
                    invariant
                        values == operands@.map_values(|v: i64| v as int),
                        from + regions <= operands@.len(),
                        row@ == operands@.subrange(from as int, k as int),
                {
                    row.push(operands[k]);
                    assert(row@ =~= operands@.subrange(from as int, k + 1));
                }
                assert(row@.map_values(|v: i64| v as int) =~= wanted);
                return Err(Halt::Ask { vsindex: self.vsindex, row });
            }
            let ghost answer = env.resolved[self.used as int];
            assert(values[i as int] == operands@[i as int]);
            assert(answer == (
                context.resolved@[self.used as int].gain as int,
                context.resolved@[self.used as int].deltas@.map_values(|d: i32| d as int),
            ));
            match self.push_blended(operands[i], &context.resolved[self.used]) {
                Ok(_) => {},
                Err(e) => {
                    return Err(Halt::Failed(e));
                },
            }
        }
        Ok(())
    }

    /// Run `data` from its first byte, `depth` calls deep.
    #[verifier::loop_isolation(false)]
    #[verifier::rlimit(40)]
    fn run(&mut self, context: &Context, data: &[u8], depth: usize) -> (r: Result<(), Halt>)
        requires
            old(self).ok(),
            depth <= MAX_DEPTH + 1,
        ensures
            final(self).ok(),
            match r {
                Ok(_) => run_from(old(self).machine(), context@, data@, 0, depth as int)
                    == Outcome::Done(final(self).machine()),
                Err(h) => run_from(old(self).machine(), context@, data@, 0, depth as int) == h@,
            },
        decreases MAX_DEPTH + 1 - depth,
    {
        if depth > MAX_DEPTH {
            return Err(halt("subroutine calls nested too deeply"));
        }
        let ghost env = context@;
        let ghost all = data@;
        let ghost outcome = run_from(self.machine(), env, all, 0, depth as int);
        let mut pos: usize = 0;
        while pos < data.len()
            invariant
                self.ok(),
                pos <= data@.len(),
                outcome == run_from(self.machine(), env, all, pos as int, depth as int),
            decreases data@.len() - pos,
        {
            if self.finished {
                return Ok(());
            }
            let ghost m = self.machine();
            let b0: u8 = data[pos];
            if b0 >= 32 || b0 == 28 {
                match read_charstring_number(data, pos) {
                    Ok((value, len)) => {
                        self.pending.push(Pending::Plain(value));
                        assert(self.machine().stack =~= m.stack.push(Slot::Plain(value as int)));
                        pos = pos + len;
                        continue;
                    },
                    Err(e) => {
                        return Err(Halt::Failed(e));
                    },
                }
            }
            if b0 == HSTEM || b0 == VSTEM || b0 == HSTEMHM || b0 == VSTEMHM {
                self.count_stems();
                self.flush();
                self.out.push(b0);
                assert(self.machine().out =~= emitted(with_stems(m), seq![b0]).out);
                pos = pos + 1;
            } else if b0 == HINTMASK || b0 == CNTRMASK {
                self.count_stems();
                let left: usize = data.len() - pos - 1;
                let bytes: u128 = if self.stem_count == 0 {
                    1
                } else {
                    (self.stem_count + 7) / 8
                };
                if bytes > left as u128 {
                    return Err(halt("a hint mask ran past the end"));
                }
                assert(bytes == mask_len(self.stems@));
                let end: usize = pos + 1 + bytes as usize;
                self.flush();
                self.out.push(b0);
                push_all(&mut self.out, vstd::slice::slice_subrange(data, pos + 1, end));
                assert(self.machine().out =~= emitted(
                    with_stems(m),
                    seq![b0] + all.subrange(pos + 1, end as int),
                ).out);
                pos = end;
            } else if b0 == CALLSUBR || b0 == CALLGSUBR {
                let subrs: &Vec<Vec<u8>> = if b0 == CALLSUBR {
                    context.local_subrs
                } else {
                    context.global_subrs
                };
                let ghost bodies = views(subrs@);
                match self.take_call(subrs.len(), Ghost(bodies)) {
                    Ok(i) => {
                        assert(bodies[i as int] == subrs@[i as int]@);
                        match self.run(context, subrs[i].as_slice(), depth + 1) {
                            Ok(_) => {},
                            Err(h) => {
                                return Err(h);
                            },
                        }
                    },
                    Err(e) => {
                        return Err(Halt::Failed(e));
                    },
                }
                pos = pos + 1;
            } else if b0 == RETURN {
                return Ok(());
            } else if b0 == ENDCHAR {
                self.finished = true;
                return Ok(());
            } else if b0 == VSINDEX {
                match self.set_vsindex(Ghost(pos + 1)) {
                    Ok(_) => {},
                    Err(e) => {
                        return Err(Halt::Failed(e));
                    },
                }
                pos = pos + 1;
            } else if b0 == BLEND {
                match self.blend(context) {
                    Ok(_) => {},
                    Err(h) => {
                        return Err(h);
                    },
                }
                pos = pos + 1;
            } else if b0 == ESCAPE {
                if pos + 1 >= data.len() {
                    return Err(halt("a two-byte operator was cut short"));
                }
                self.flush();
                self.out.push(ESCAPE);
                self.out.push(data[pos + 1]);
                assert(self.machine().out =~= emitted(m, seq![ESCAPE, all[pos + 1]]).out);
                pos = pos + 2;
            } else {
                self.flush();
                self.out.push(b0);
                assert(self.machine().out =~= emitted(m, seq![b0]).out);
                pos = pos + 1;
            }
        }
        Ok(())
    }
}

/// What rewriting `data` comes to, before the stack that is left is written out.
pub open spec fn rewritten(data: Seq<u8>, env: Env) -> Outcome {
    run_from(initial(env), env, data, 0, 0)
}

/// Rewrite one charstring, putting the resolved values in the place of every blend it
/// contains.
///
/// When no value keeps a delta, which is what pinning every axis comes to, the result
/// contains no `blend` and no `vsindex`.
pub fn rewrite(charstring: &[u8], context: &Context) -> (r: Result<Rewritten, SliceError>)
    ensures
        match r {
            Ok(Rewritten::Done(bytes)) => rewritten(charstring@, context@) matches Outcome::Done(m)
                && bytes@ == program(m, context@),
            Ok(Rewritten::NeedsBlend { vsindex, row }) => rewritten(charstring@, context@)
                == (Outcome::Ask {
                vsindex: vsindex as int,
                row: row@.map_values(|v: i64| v as int),
            }),
            Err(e) => rewritten(charstring@, context@) == Outcome::Failed(e@),
        },
{
    let mut rewriter: Rewriter = Rewriter {
        out: Vec::new(),
        pending: Vec::new(),
        stem_count: 0,
        stems: Ghost(0nat),
        vsindex: context.initial_vsindex,
        emitted_vsindex: None,
        finished: false,
        used: 0,
    };
    assert(slots(rewriter.pending@) =~= Seq::<Slot>::empty());
    assert(rewriter.machine() == initial(context@));
    match rewriter.run(context, charstring, 0) {
        Ok(_) => {},
        Err(Halt::Failed(e)) => {
            return Err(e);
        },
        Err(Halt::Ask { vsindex, row }) => {
            return Ok(Rewritten::NeedsBlend { vsindex, row });
        },
    }
    // Trailing operands with no operator to consume them are legal in no charstring, but
    // one that ends mid-expression should not silently lose them.
    let ghost m = rewriter.machine();
    rewriter.flush();
    match rewriter.emitted_vsindex {
        Some(index) => {
            if index != context.initial_vsindex {
                let mut head: Vec<u8> = Vec::new();
                write_charstring_number(index as i64 * 65536, &mut head);
                head.push(VSINDEX);
                push_all(&mut head, rewriter.out.as_slice());
                assert(head@ =~= program(m, context@));
                return Ok(Rewritten::Done(head));
            }
        },
        None => {},
    }
    Ok(Rewritten::Done(rewriter.out))
}

// ------------------------------------------------------------------------------- laws

/// True when `data` from `pos` on holds only what the rewriter has no reason to touch:
/// numbers in the form in which they would be written, and operators other than calls,
/// returns, `vsindex` and `blend`. So far `stems` stems have been declared and `pending`
/// operands wait.
pub open spec fn untouched_from(data: Seq<u8>, pos: int, stems: nat, pending: nat) -> bool
    decreases data.len() - pos,
{
    if pos >= data.len() {
        true
    } else {
        let b0 = data[pos];
        if b0 >= 32 || b0 == 28 {
            match charstring_operand(data, pos) {
                Ok((value, len)) => data.subrange(pos, pos + len) == charstring_number(value)
                    && untouched_from(data, pos + len, stems, pending + 1),
                Err(_) => false,
            }
        } else if is_stem_operator(b0) {
            untouched_from(data, pos + 1, stems + pending / 2, 0)
        } else if b0 == HINTMASK || b0 == CNTRMASK {
            let end = pos + 1 + mask_len(stems + pending / 2);
            end <= data.len() && untouched_from(data, end, stems + pending / 2, 0)
        } else if b0 == CALLSUBR || b0 == CALLGSUBR || b0 == RETURN || b0 == ENDCHAR || b0
            == VSINDEX || b0 == BLEND {
            false
        } else if b0 == ESCAPE {
            pos + 2 <= data.len() && untouched_from(data, pos + 2, stems, 0)
        } else {
            untouched_from(data, pos + 1, stems, 0)
        }
    }
}

spec fn all_plain(stack: Seq<Slot>) -> bool {
    forall|i: int| 0 <= i < stack.len() ==> stack[i] is Plain
}

proof fn lemma_encoded_stack_push(stack: Seq<Slot>, v: int)
    requires
        all_plain(stack),
    ensures
        encoded_stack(stack.push(Slot::Plain(v))) == encoded_stack(stack) + charstring_number(v),
    decreases stack.len(),
{
    let longer = stack.push(Slot::Plain(v));
    if stack.len() == 0 {
        assert(encoded_stack(longer.skip(1)) =~= Seq::<u8>::empty());
        assert(encoded_stack(longer) =~= encoded_stack(stack) + charstring_number(v));
    } else {
        lemma_encoded_stack_push(stack.skip(1), v);
        assert(longer.skip(1) =~= stack.skip(1).push(Slot::Plain(v)));
        assert(encoded_stack(longer) =~= encoded_stack(stack) + charstring_number(v));
    }
}

proof fn lemma_untouched_run(m: Machine, env: Env, data: Seq<u8>, pos: int)
    requires
        0 <= pos <= data.len(),
        untouched_from(data, pos, m.stems, m.stack.len()),
        all_plain(m.stack),
        m.emitted is None,
        !m.finished,
        flushed(m).out == data.take(pos),
    ensures
        run_from(m, env, data, pos, 0) matches Outcome::Done(after) && after.emitted is None
            && flushed(after).out == data,
    decreases data.len() - pos,
{
    if pos == data.len() {
        assert(data.take(pos) =~= data);
    } else {
        let b0 = data[pos];
        lemma_step_advances(m, env, data, pos);
        match step(m, env, data, pos) {
            Step::Next(after, next) => {
                if b0 >= 32 || b0 == 28 {
                    let (value, len) = charstring_operand(data, pos)->Ok_0;
                    lemma_encoded_stack_push(m.stack, value);
                    assert(flushed(after).out =~= flushed(m).out + charstring_number(value));
                    assert(flushed(after).out =~= data.take(next));
                } else {
                    assert(after.stack =~= Seq::<Slot>::empty());
                    assert(flushed(after).out =~= after.out);
                    assert(after.out =~= flushed(m).out + data.subrange(pos, next));
                    assert(flushed(after).out =~= data.take(next));
                }
                lemma_untouched_run(after, env, data, next);
            },
            _ => {},
        }
    }
}

/// A charstring with no blends, and with its numbers in the usual form, comes through
/// byte for byte, hints and hint masks included.
pub proof fn a_charstring_without_blends_is_unchanged(data: Seq<u8>, env: Env)
    requires
        untouched_from(data, 0, 0, 0),
    ensures
        rewritten(data, env) matches Outcome::Done(m) && program(m, env) == data,
{
    assert(flushed(initial(env)).out =~= data.take(0));
    lemma_untouched_run(initial(env), env, data, 0);
}

/// True when every resolved value has lost all its deltas, which is what pinning every
/// axis comes to.
pub open spec fn nothing_varies(env: Env) -> bool {
    forall|i: int| 0 <= i < env.resolved.len() ==> all_zero(#[trigger] env.resolved[i].1)
}

/// What reading `data` from `pos` on, operand by operand and operator by operator, comes
/// to: how many stems it declares and how many operands are left over. There is nothing
/// when it is cut short, or holds a call, a return, a `vsindex` or a `blend`.
pub open spec fn scan(data: Seq<u8>, pos: int, stems: nat, pending: nat) -> Option<(nat, nat)>
    decreases data.len() - pos,
{
    if pos >= data.len() {
        Some((stems, pending))
    } else {
        let b0 = data[pos];
        if b0 >= 32 || b0 == 28 {
            match charstring_operand(data, pos) {
                Ok((_, len)) => scan(data, pos + len, stems, pending + 1),
                Err(_) => None,
            }
        } else if is_stem_operator(b0) {
            scan(data, pos + 1, stems + pending / 2, 0)
        } else if b0 == HINTMASK || b0 == CNTRMASK {
            let end = pos + 1 + mask_len(stems + pending / 2);
            if end <= data.len() {
                scan(data, end, stems + pending / 2, 0)
            } else {
                None
            }
        } else if b0 == CALLSUBR || b0 == CALLGSUBR || b0 == RETURN || b0 == ENDCHAR || b0
            == VSINDEX || b0 == BLEND {
            None
        } else if b0 == ESCAPE {
            if pos + 2 <= data.len() {
                scan(data, pos + 2, stems, 0)
            } else {
                None
            }
        } else {
            scan(data, pos + 1, stems, 0)
        }
    }
}

/// Reading goes on behind what has been read.
proof fn lemma_scan_extends(a: Seq<u8>, b: Seq<u8>, pos: int, stems: nat, pending: nat)
    requires
        0 <= pos <= a.len(),
        scan(a, pos, stems, pending) is Some,
    ensures
        scan(a, pos, stems, pending) matches Some((s, p)) && scan(a + b, pos, stems, pending)
            == scan(a + b, a.len() as int, s, p),
    decreases a.len() - pos,
{
    let ab = a + b;
    if pos < a.len() {
        let b0 = a[pos];
        assert(ab[pos] == b0);
        if b0 >= 32 || b0 == 28 {
            let (value, len) = charstring_operand(a, pos)->Ok_0;
            assert(ab.subrange(pos, pos + len) =~= a.subrange(pos, pos + len));
            lemma_scan_extends(a, b, pos + len, stems, pending + 1);
        } else if is_stem_operator(b0) {
            lemma_scan_extends(a, b, pos + 1, stems + pending / 2, 0);
        } else if b0 == HINTMASK || b0 == CNTRMASK {
            let end = pos + 1 + mask_len(stems + pending / 2);
            lemma_scan_extends(a, b, end, stems + pending / 2, 0);
        } else if b0 == ESCAPE {
            lemma_scan_extends(a, b, pos + 2, stems, 0);
        } else {
            lemma_scan_extends(a, b, pos + 1, stems, 0);
        }
    }
}

/// One number is read as one operand.
proof fn lemma_scan_number(data: Seq<u8>, units: int, stems: nat, pending: nat)
    requires
        scan(data, 0, 0, 0) == Some((stems, pending)),
    ensures
        scan(data + charstring_number(units), 0, 0, 0) == Some((stems, pending + 1)),
{
    let tail = charstring_number(units);
    let all = data + tail;
    lemma_scan_extends(data, tail, 0, 0, 0);
    let at = data.len() as int;
    reveal_with_fuel(scan, 2);
    assert(all[at] == tail[0]);
    assert(charstring_operand(all, at) is Ok);
    assert(at + (charstring_operand(all, at)->Ok_0).1 == all.len());
}

proof fn lemma_scan_stack(data: Seq<u8>, stack: Seq<Slot>, stems: nat, pending: nat)
    requires
        scan(data, 0, 0, 0) == Some((stems, pending)),
        all_plain(stack),
    ensures
        scan(data + encoded_stack(stack), 0, 0, 0) == Some((stems, pending + stack.len())),
    decreases stack.len(),
{
    if stack.len() == 0 {
        assert(data + encoded_stack(stack) =~= data);
    } else {
        let v = stack[0]->Plain_0;
        lemma_scan_number(data, v, stems, pending);
        lemma_scan_stack(data + charstring_number(v), stack.skip(1), stems, pending + 1);
        assert(data + charstring_number(v) + encoded_stack(stack.skip(1)) =~= data
            + encoded_stack(stack));
    }
}

/// What a machine that blends nothing keeps.
spec fn blend_free(m: Machine) -> bool {
    &&& all_plain(m.stack)
    &&& m.emitted is None
    &&& scan(m.out, 0, 0, 0) == Some((m.stems, 0nat))
}

proof fn lemma_blended_values_plain(
    m: Machine,
    env: Env,
    operands: Seq<int>,
    count: int,
    regions: int,
    i: int,
)
    requires
        nothing_varies(env),
        blend_free(m),
    ensures
        blended_values(m, env, operands, count, regions, i) matches Outcome::Done(after)
            ==> blend_free(after),
    decreases count - i,
{
    if i < count && m.used < env.resolved.len() {
        let answer = env.resolved[m.used as int];
        assert(all_zero(answer.1));
        match blended_value(m, operands[i], answer) {
            Outcome::Done(next) => {
                lemma_blended_values_plain(next, env, operands, count, regions, i + 1);
            },
            _ => {},
        }
    }
}

proof fn lemma_step_blend_free(m: Machine, env: Env, data: Seq<u8>, pos: int)
    requires
        0 <= pos < data.len(),
        nothing_varies(env),
        blend_free(m),
    ensures
        step(m, env, data, pos) matches Step::Next(after, _) ==> blend_free(after),
        step(m, env, data, pos) matches Step::Return(after) ==> blend_free(after),
        step(m, env, data, pos) matches Step::Call(after, _) ==> blend_free(after),
{
    reveal(blend_outcome);
    reveal(call_step);
    reveal(vsindex_step);
    let b0 = data[pos];
    lemma_scan_stack(m.out, m.stack, m.stems, 0);
    let written = flushed(m).out;
    if b0 >= 32 || b0 == 28 {
    } else if b0 == BLEND {
        if blend_outcome(m, env) is Done {
            let count = slot_value(m.stack.last()) / 65536;
            let regions = env.region_counts[m.vsindex] as int;
            let needed = count * (regions + 1);
            let rest = dropped(m, 1);
            assert(needed >= 0) by (nonlinear_arith)
                requires
                    needed == count * (regions + 1),
                    count >= 0,
                    regions >= 0,
            ;
            let taken = rest.stack.skip(rest.stack.len() - needed);
            lemma_blended_values_plain(
                dropped(rest, needed),
                env,
                taken.map_values(|s: Slot| slot_value(s)),
                count,
                regions,
                0,
            );
        }
    } else if b0 == CALLSUBR || b0 == CALLGSUBR || b0 == RETURN || b0 == ENDCHAR || b0
        == VSINDEX {
    } else {
        let tail = if b0 == HINTMASK || b0 == CNTRMASK {
            seq![b0] + data.subrange(pos + 1, pos + 1 + mask_len(with_stems(m).stems))
        } else if b0 == ESCAPE {
            seq![ESCAPE, data[pos + 1]]
        } else {
            seq![b0]
        };
        if step(m, env, data, pos) is Next {
            lemma_scan_extends(written, tail, 0, 0, 0);
            let all = written + tail;
            assert(all[written.len() as int] == b0);
            assert(step(m, env, data, pos)->Next_0.out =~= all);
            reveal_with_fuel(scan, 2);
            assert(scan(all, written.len() as int, m.stems, m.stack.len()) == Some(
                (step(m, env, data, pos)->Next_0.stems, 0nat),
            ));
        }
    }
}

proof fn lemma_run_blend_free(m: Machine, env: Env, data: Seq<u8>, pos: int, depth: int)
    requires
        0 <= pos <= data.len(),
        nothing_varies(env),
        blend_free(m),
    ensures
        run_from(m, env, data, pos, depth) matches Outcome::Done(after) ==> blend_free(after),
    decreases MAX_DEPTH + 1 - depth, data.len() - pos,
{
    if depth <= MAX_DEPTH && pos < data.len() && !m.finished {
        lemma_step_advances(m, env, data, pos);
        lemma_step_blend_free(m, env, data, pos);
        match step(m, env, data, pos) {
            Step::Next(after, next) => {
                if next <= data.len() {
                    lemma_run_blend_free(after, env, data, next, depth);
                }
            },
            Step::Call(after, body) => {
                lemma_run_blend_free(after, env, body, 0, depth + 1);
                match run_from(after, env, body, 0, depth + 1) {
                    Outcome::Done(back) => {
                        lemma_run_blend_free(back, env, data, pos + 1, depth);
                    },
                    _ => {},
                }
            },
            _ => {},
        }
    }
}

/// When nothing varies any more, the rewritten program reads from end to end without a
/// `blend`, a `vsindex` or a subroutine call, and no `vsindex` is put in front of it. A
/// font without an ItemVariationStore needs exactly that.
pub proof fn a_static_charstring_has_no_blend(data: Seq<u8>, env: Env)
    requires
        nothing_varies(env),
    ensures
        rewritten(data, env) matches Outcome::Done(m) ==> m.emitted is None && scan(
            program(m, env),
            0,
            0,
            0,
        ) == Some((m.stems, m.stack.len())),
{
    lemma_run_blend_free(initial(env), env, data, 0, 0);
    match rewritten(data, env) {
        Outcome::Done(m) => {
            lemma_scan_stack(m.out, m.stack, m.stems, 0);
        },
        _ => {},
    }
}

} // verus!
