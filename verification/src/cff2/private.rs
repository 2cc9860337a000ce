//! Rewriting the blends of a Private DICT.
//!
//! A Private DICT carries the alignment zones and stem widths that keep a face readable
//! at text sizes, and in a variable font those move with the design space too.
//!
//! A DICT `blend` leaves its results on the operand stack for a *later* operator to
//! consume, so an entry's values can be split across several parsed entries.
use vstd::prelude::*;

use crate::bytes::push_all;
use crate::error::{Problem, SliceError};
use crate::text::{decimal, decimal_of, join3};
use super::dict::{
    dict_number, dict_operator, entries_view, numbers, write_dict_number, write_dict_operator,
    DictEntry, DictNumber, DictValue, Entry,
};
use super::num::{dict_integer, malformed, malformed_table, write_dict_integer};
use super::table::{PRIVATE_VSINDEX, SUBRS};

verus! {

/// The DICT `blend` operator, which is numbered differently from the charstring one.
pub const DICT_BLEND: u16 = 23;

/// One Private DICT value, with whatever deltas still apply to it.
#[derive(Debug)]
pub struct BlendedValue {
    pub base: DictNumber,
    pub deltas: Vec<i32>,
}

/// What came of rewriting a Private DICT.
#[derive(Debug)]
pub enum PrivateRewritten {
    /// The new DICT data.
    Done(Vec<u8>),
    /// The DICT blends a value that has not been resolved yet: this base, with these
    /// deltas, one per region of that variation data.
    NeedsBlend { vsindex: usize, base: DictNumber, row: Vec<DictNumber> },
}

/// What a [`BlendedValue`] holds.
pub struct Value {
    pub base: DictValue,
    pub deltas: Seq<int>,
}

impl View for BlendedValue {
    type V = Value;

    open spec fn view(&self) -> Value {
        Value { base: self.base@, deltas: self.deltas@.map_values(|d: i32| d as int) }
    }
}

pub open spec fn values_view(values: Seq<BlendedValue>) -> Seq<Value> {
    values.map_values(|v: BlendedValue| v@)
}

pub open spec fn plain(base: DictValue) -> Value {
    Value { base, deltas: Seq::empty() }
}

/// `operands` behind `carried`.
pub open spec fn with_operands(carried: Seq<Value>, operands: Seq<DictValue>) -> Seq<Value> {
    carried + operands.map_values(|v: DictValue| plain(v))
}

/// True when one of the deltas moves the value.
pub open spec fn varies(value: Value) -> bool {
    exists|i: int| 0 <= i < value.deltas.len() && value.deltas[i] != 0
}

/// How many of the first values vary, in a row.
pub open spec fn varying_run(values: Seq<Value>) -> nat
    decreases values.len(),
{
    if values.len() > 0 && varies(values[0]) {
        1 + varying_run(values.skip(1))
    } else {
        0
    }
}

pub open spec fn encoded_bases(values: Seq<Value>) -> Seq<u8>
    decreases values.len(),
{
    if values.len() == 0 {
        Seq::empty()
    } else {
        encoded_bases(values.drop_last()) + dict_number(values.last().base)
    }
}

pub open spec fn encoded_integers(deltas: Seq<int>) -> Seq<u8>
    decreases deltas.len(),
{
    if deltas.len() == 0 {
        Seq::empty()
    } else {
        encoded_integers(deltas.drop_last()) + dict_integer(deltas.last())
    }
}

pub open spec fn encoded_deltas(values: Seq<Value>) -> Seq<u8>
    decreases values.len(),
{
    if values.len() == 0 {
        Seq::empty()
    } else {
        encoded_deltas(values.drop_last()) + encoded_integers(values.last().deltas)
    }
}

/// A count of values, held to what a DICT integer can hold.
pub open spec fn encoded_count(n: int) -> Seq<u8> {
    dict_integer(
        if n > i32::MAX {
            i32::MAX as int
        } else {
            n
        },
    )
}

/// One `blend` with its operands: the bases, then the deltas, then the count.
pub open spec fn encoded_blend(values: Seq<Value>) -> Seq<u8> {
    encoded_bases(values) + encoded_deltas(values) + encoded_count(values.len() as int) + seq![
        DICT_BLEND as u8,
    ]
}

pub proof fn lemma_varying_run(values: Seq<Value>)
    ensures
        varying_run(values) <= values.len(),
        values.len() > 0 && varies(values[0]) ==> varying_run(values) >= 1,
        forall|i: int| 0 <= i < varying_run(values) ==> varies(values[i]),
        varying_run(values) < values.len() ==> !varies(values[varying_run(values) as int]),
    decreases values.len(),
{
    if values.len() > 0 && varies(values[0]) {
        lemma_varying_run(values.skip(1));
        assert forall|i: int| 0 <= i < varying_run(values) implies varies(values[i]) by {
            if i > 0 {
                assert(values[i] == values.skip(1)[i - 1]);
            }
        }
    }
}

/// A run of values, encoded: the ones that still vary are grouped into `blend`s.
pub open spec fn encoded_values(values: Seq<Value>) -> Seq<u8>
    decreases values.len(),
{
    if values.len() == 0 {
        Seq::empty()
    } else if !varies(values[0]) {
        dict_number(values[0].base) + encoded_values(values.skip(1))
    } else {
        proof {
            lemma_varying_run(values);
        }
        let n = varying_run(values) as int;
        encoded_blend(values.take(n)) + encoded_values(values.skip(n))
    }
}

/// The state of the rewriter between two entries.
pub struct State {
    pub out: Seq<u8>,
    pub vsindex: int,
    /// Blended values that no operator has consumed yet.
    pub carried: Seq<Value>,
    /// How many resolved values have been used.
    pub used: nat,
}

/// What one entry, or the whole DICT, comes to.
pub enum Outcome {
    Done(State),
    Failed(Problem),
    Ask { vsindex: int, base: DictValue, row: Seq<DictValue> },
}

/// The results of a blend from value number `i` on: value `i` has base `operands[i]`, and
/// its deltas are row `i` of what follows the bases.
pub open spec fn resolved_from(
    s: State,
    resolved: Seq<Value>,
    operands: Seq<DictValue>,
    count: int,
    regions: int,
    i: int,
) -> Outcome
    decreases count - i,
{
    if i >= count {
        Outcome::Done(s)
    } else if s.used >= resolved.len() {
        Outcome::Ask {
            vsindex: s.vsindex,
            base: operands[i],
            row: operands.subrange(count + i * regions, count + (i + 1) * regions),
        }
    } else {
        resolved_from(
            State {
                carried: s.carried.push(resolved[s.used as int]),
                used: s.used + 1,
                ..s
            },
            resolved,
            operands,
            count,
            regions,
            i + 1,
        )
    }
}

/// One `blend` on `stack`, whose last value is the count.
#[verifier::opaque]
pub open spec fn blend_outcome(
    s: State,
    stack: Seq<Value>,
    region_counts: Seq<nat>,
    resolved: Seq<Value>,
) -> Outcome {
    if stack.len() == 0 {
        Outcome::Failed(malformed_table("a Private DICT blend has no operand count"@))
    } else if !(stack.last().base matches DictValue::Integer(n) && 1 <= n <= 65535) {
        Outcome::Failed(
            malformed_table("a Private DICT blend operand count is not a number of values"@),
        )
    } else if s.vsindex >= region_counts.len() {
        Outcome::Failed(
            malformed_table(
                "a Private DICT blends against variation data "@ + decimal(s.vsindex as nat)
                    + ", which does not exist"@,
            ),
        )
    } else {
        let count = stack.last().base->Integer_0;
        let regions = region_counts[s.vsindex] as int;
        let needed = count * (regions + 1);
        let rest = stack.drop_last();
        if rest.len() < needed {
            Outcome::Failed(malformed_table("a Private DICT blend has too few operands"@))
        } else {
            let taken = rest.skip(rest.len() - needed);
            if exists|i: int| 0 <= i < taken.len() && (#[trigger] taken[i]).deltas.len() > 0 {
                Outcome::Failed(malformed_table("Private DICT blends cannot nest"@))
            } else {
                // Whatever sat below the blend's operands stays below its results.
                resolved_from(
                    State { carried: rest.take(rest.len() - needed), ..s },
                    resolved,
                    taken.map_values(|v: Value| v.base),
                    count,
                    regions,
                    0,
                )
            }
        }
    }
}

/// What one entry does.
pub open spec fn entry_outcome(
    s: State,
    entry: Entry,
    region_counts: Seq<nat>,
    resolved: Seq<Value>,
    keeps_store: bool,
) -> Outcome {
    if entry.operator == SUBRS {
        // The writer recomputes this.
        Outcome::Done(s)
    } else if entry.operator == PRIVATE_VSINDEX {
        if entry.operands.len() > 0 && entry.operands[0] is Real {
            Outcome::Failed(malformed_table("a Private DICT vsindex is not an integer"@))
        } else {
            let v: int = if entry.operands.len() > 0 {
                entry.operands[0]->Integer_0
            } else {
                0
            };
            // With no store left there is nothing to index.
            Outcome::Done(
                State {
                    vsindex: if v < 0 {
                        0
                    } else {
                        v
                    },
                    out: if keeps_store {
                        s.out + entry.raw
                    } else {
                        s.out
                    },
                    ..s
                },
            )
        }
    } else if entry.operator == DICT_BLEND {
        blend_outcome(s, with_operands(s.carried, entry.operands), region_counts, resolved)
    } else {
        Outcome::Done(
            State {
                out: s.out + encoded_values(with_operands(s.carried, entry.operands))
                    + dict_operator(entry.operator),
                carried: Seq::empty(),
                ..s
            },
        )
    }
}

/// What the entries from number `i` on come to.
pub open spec fn private_from(
    s: State,
    entries: Seq<Entry>,
    i: int,
    region_counts: Seq<nat>,
    resolved: Seq<Value>,
    keeps_store: bool,
) -> Outcome
    decreases entries.len() - i,
{
    if i < 0 || i >= entries.len() {
        if s.carried.len() > 0 {
            Outcome::Failed(malformed_table("a Private DICT ended with a blend and no operator"@))
        } else {
            Outcome::Done(s)
        }
    } else {
        match entry_outcome(s, entries[i], region_counts, resolved, keeps_store) {
            Outcome::Done(next) => private_from(
                next,
                entries,
                i + 1,
                region_counts,
                resolved,
                keeps_store,
            ),
            other => other,
        }
    }
}

pub open spec fn initial_state() -> State {
    State { out: Seq::empty(), vsindex: 0, carried: Seq::empty(), used: 0 }
}

// ---------------------------------------------------------------------------- writing

impl BlendedValue {
    fn plain(base: DictNumber) -> (r: BlendedValue)
        ensures
            r@ == plain(base@),
    {
        let deltas: Vec<i32> = Vec::new();
        assert(deltas@.map_values(|d: i32| d as int) =~= Seq::<int>::empty());
        BlendedValue { base, deltas }
    }

    fn varies(&self) -> (r: bool)
        ensures
            r == varies(self@),
    {
        for i in 0..self.deltas.len()
            invariant
                forall|j: int| 0 <= j < i ==> self@.deltas[j] == 0,
        {
            assert(self@.deltas[i as int] == self.deltas@[i as int]);
            if self.deltas[i] != 0 {
                return true;
            }
        }
        false
    }

    fn duplicate(&self) -> (r: BlendedValue)
        ensures
            r@ == self@,
    {
        let mut deltas: Vec<i32> = Vec::new();
        for i in 0..self.deltas.len()
            invariant
                deltas@ == self.deltas@.take(i as int),
        {
            deltas.push(self.deltas[i]);
            assert(self.deltas@.take(i + 1) =~= self.deltas@.take(i as int).push(
                self.deltas@[i as int],
            ));
        }
        assert(deltas@ =~= self.deltas@);
        BlendedValue { base: self.base.duplicate(), deltas }
    }
}

fn write_integers(deltas: &Vec<i32>, out: &mut Vec<u8>)
    ensures
        final(out)@ == old(out)@ + encoded_integers(deltas@.map_values(|d: i32| d as int)),
{
    let ghost all = deltas@.map_values(|d: i32| d as int);
    let ghost before = out@;
    for i in 0..deltas.len()
        invariant
            all == deltas@.map_values(|d: i32| d as int),
            out@ == before + encoded_integers(all.take(i as int)),
    {
        write_dict_integer(deltas[i], out);
        assert(all.take(i + 1).drop_last() =~= all.take(i as int));
        assert(out@ =~= before + encoded_integers(all.take(i + 1)));
    }
    assert(all.take(all.len() as int) =~= all);
}

/// Write `values[start..end]` as one `blend`.
fn write_blend(values: &Vec<BlendedValue>, start: usize, end: usize, out: &mut Vec<u8>)
    requires
        start <= end <= values@.len(),
    ensures
        final(out)@ == old(out)@ + encoded_blend(
            values_view(values@).subrange(start as int, end as int),
        ),
{
    let ghost run = values_view(values@).subrange(start as int, end as int);
    let ghost before = out@;
    for i in start..end
        invariant
            start <= end <= values@.len(),
            run == values_view(values@).subrange(start as int, end as int),
            out@ == before + encoded_bases(run.take(i - start)),
    {
        write_dict_number(&values[i].base, out);
        assert(run.take(i + 1 - start).drop_last() =~= run.take(i - start));
        assert(out@ =~= before + encoded_bases(run.take(i + 1 - start)));
    }
    assert(run.take(end - start) =~= run);
    let ghost middle = out@;
    for i in start..end
        invariant
            start <= end <= values@.len(),
            run == values_view(values@).subrange(start as int, end as int),
            out@ == middle + encoded_deltas(run.take(i - start)),
    {
        write_integers(&values[i].deltas, out);
        assert(run.take(i + 1 - start).drop_last() =~= run.take(i - start));
        assert(out@ =~= middle + encoded_deltas(run.take(i + 1 - start)));
    }
    let count: usize = end - start;
    let held: i32 = if count > 0x7fff_ffff {
        i32::MAX
    } else {
        count as i32
    };
    write_dict_integer(held, out);
    out.push(DICT_BLEND as u8);
    assert(out@ =~= before + encoded_blend(run));
}

/// Write a run of Private DICT values, grouping the ones that still vary into a `blend`.
pub fn write_dict_values(values: &Vec<BlendedValue>, out: &mut Vec<u8>)
    ensures
        final(out)@ == old(out)@ + encoded_values(values_view(values@)),
{
    let ghost all = values_view(values@);
    let ghost before = out@;
    let mut index: usize = 0;
    assert(all.skip(0) =~= all);
    while index < values.len()
        invariant
            all == values_view(values@),
            index <= values@.len(),
            out@ + encoded_values(all.skip(index as int)) == before + encoded_values(all),
        decreases values@.len() - index,
    {
        let ghost rest = all.skip(index as int);
        let ghost so_far = out@;
        assert(rest[0] == values@[index as int]@);
        let start: usize = index;
        if !values[index].varies() {
            write_dict_number(&values[index].base, out);
            index = index + 1;
            assert(rest.skip(1) =~= all.skip(index as int));
            assert(out@ + encoded_values(all.skip(index as int)) =~= so_far + encoded_values(
                rest,
            ));
        } else {
            while index < values.len() && values[index].varies()
                invariant
                    start <= index <= values@.len(),
                    forall|i: int| start <= i < index ==> varies(#[trigger] values@[i]@),
                ensures
                    start <= index <= values@.len(),
                    forall|i: int| start <= i < index ==> varies(#[trigger] values@[i]@),
                    index < values@.len() ==> !varies(values@[index as int]@),
                decreases values@.len() - index,
            {
                index = index + 1;
            }
            write_blend(values, start, index, out);
            proof {
                let n = index - start;
                assert forall|i: int| 0 <= i < n implies varies(rest[i]) by {
                    assert(rest[i] == values@[start + i]@);
                }
                if n < rest.len() {
                    assert(rest[n] == values@[index as int]@);
                }
                lemma_varying_run(rest);
                assert(rest.take(n) =~= all.subrange(start as int, index as int));
                assert(rest.skip(n) =~= all.skip(index as int));
                assert(out@ + encoded_values(all.skip(index as int)) =~= so_far
                    + encoded_values(rest));
            }
        }
    }
    assert(all.skip(index as int).len() == 0);
    assert(out@ =~= before + encoded_values(all));
}

// --------------------------------------------------------------------------- rewriter

/// Why a run stopped before its end.
enum Halt {
    Failed(SliceError),
    Ask { vsindex: usize, base: DictNumber, row: Vec<DictNumber> },
}

impl View for Halt {
    type V = Outcome;

    closed spec fn view(&self) -> Outcome {
        match *self {
            Halt::Failed(e) => Outcome::Failed(e@),
            Halt::Ask { vsindex, base, row } => Outcome::Ask {
                vsindex: vsindex as int,
                base: base@,
                row: numbers(row@),
            },
        }
    }
}

fn halt(what: &str) -> (h: Halt)
    ensures
        h@ == Outcome::Failed(malformed_table(what@)),
{
    Halt::Failed(malformed(what))
}

struct Rewriter {
    out: Vec<u8>,
    vsindex: usize,
    carried: Vec<BlendedValue>,
    used: usize,
}

spec fn counts(region_counts: Seq<usize>) -> Seq<nat> {
    region_counts.map_values(|n: usize| n as nat)
}

impl Rewriter {
    spec fn state(&self) -> State {
        State {
            out: self.out@,
            vsindex: self.vsindex as int,
            carried: values_view(self.carried@),
            used: self.used as nat,
        }
    }

    /// Put the operands of `entry` on the stack of carried values.
    fn push_operands(&mut self, entry: &DictEntry)
        ensures
            final(self).state() == (State {
                carried: with_operands(old(self).state().carried, entry@.operands),
                ..old(self).state()
            }),
    {
        let ghost before = self.state();
        let ghost all = entry@.operands;
        for i in 0..entry.operands.len()
            invariant
                all == entry@.operands,
                self.state() == (State {
                    carried: with_operands(before.carried, all.take(i as int)),
                    ..before
                }),
        {
            assert(all[i as int] == entry.operands@[i as int]@);
            let ghost so_far = self.state().carried;
            let value: BlendedValue = BlendedValue::plain(entry.operands[i].duplicate());
            self.carried.push(value);
            assert(self.state().carried =~= so_far.push(plain(all[i as int])));
            assert(with_operands(before.carried, all.take(i + 1)) =~= so_far.push(
                plain(all[i as int]),
            ));
        }
        assert(all.take(all.len() as int) =~= all);
    }

    /// Resolve the blend on the stack of carried values.
    #[verifier::loop_isolation(false)]
    #[verifier::rlimit(30)]
    fn blend(&mut self, region_counts: &Vec<usize>, resolved: &Vec<BlendedValue>) -> (r: Result<
        (),
        Halt,
    >)
        ensures
            match r {
                Ok(_) => blend_outcome(
                    old(self).state(),
                    old(self).state().carried,
                    counts(region_counts@),
                    values_view(resolved@),
                ) == Outcome::Done(final(self).state()),
                Err(h) => blend_outcome(
                    old(self).state(),
                    old(self).state().carried,
                    counts(region_counts@),
                    values_view(resolved@),
                ) == h@,
            },
    {
        reveal(blend_outcome);
        let ghost s = self.state();
        let ghost stack = s.carried;
        let ghost answers = values_view(resolved@);
        let top: BlendedValue = match self.carried.pop() {
            Some(top) => top,
            None => {
                return Err(halt("a Private DICT blend has no operand count"));
            },
        };
        assert(stack.last() == top@);
        let ghost rest = stack.drop_last();
        assert(values_view(self.carried@) =~= rest);
        let count: usize = match &top.base {
            DictNumber::Integer(n) => if 1 <= *n && *n <= 65535 {
                *n as usize
            } else {
                return Err(halt("a Private DICT blend operand count is not a number of values"));
            },
            DictNumber::Real(_) => {
                return Err(halt("a Private DICT blend operand count is not a number of values"));
            },
        };
        if self.vsindex >= region_counts.len() {
            return Err(
                halt(
                    join3(
                        "a Private DICT blends against variation data ",
                        decimal_of(self.vsindex as u64).as_str(),
                        ", which does not exist",
                    ).as_str(),
                ),
            );
        }
        let regions: usize = region_counts[self.vsindex];
        assert(counts(region_counts@)[s.vsindex] == regions);
        assert(0 <= count as int * (regions as int + 1) <= 65535 * 0x1_0000_0000_0000_0000)
            by (nonlinear_arith)
            requires
                0 <= count <= 65535,
                0 <= regions <= 0xffff_ffff_ffff_ffff,
        ;
        let needed: u128 = count as u128 * (regions as u128 + 1);
        if (self.carried.len() as u128) < needed {
            return Err(halt("a Private DICT blend has too few operands"));
        }
        let keep: usize = self.carried.len() - needed as usize;
        let ghost taken = rest.skip(rest.len() - needed as int);
        let mut operands: Vec<DictNumber> = Vec::new();
        for i in keep..self.carried.len()
            invariant
                operands@.len() == i - keep,
                forall|j: int|
                    0 <= j < i - keep ==> operands@[j]@ == (#[trigger] taken[j]).base
                        && taken[j].deltas.len() == 0,
        {
            assert(taken[i - keep] == self.carried@[i as int]@);
            if self.carried[i].deltas.len() > 0 {
                return Err(halt("Private DICT blends cannot nest"));
            }
            operands.push(self.carried[i].base.duplicate());
        }
        let ghost bases = taken.map_values(|v: Value| v.base);
        assert(bases =~= numbers(operands@));
        self.carried.truncate(keep);
        assert(values_view(self.carried@) =~= rest.take(rest.len() - needed as int));
        assert(count as int * (regions as int + 1) == count as int + count as int * regions as int)
            by (nonlinear_arith);
        let ghost outcome = resolved_from(
            self.state(),
            answers,
            bases,
            count as int,
            regions as int,
            0,
        );
        for i in 0..count
            invariant
                self.vsindex == s.vsindex,
                outcome == resolved_from(
                    self.state(),
                    answers,
                    bases,
                    count as int,
                    regions as int,
                    i as int,
                ),
        {
            if self.used >= resolved.len() {
                assert(count as int + (i + 1) * (regions as int) <= bases.len() && count as int + i
                    * (regions as int) >= 0 && (i + 1) * (regions as int) == i * (regions as int)
                    + regions) by (nonlinear_arith)
                    requires
                        0 <= i < count,
                        bases.len() == count as int + count as int * regions as int,
                        regions >= 0,
                ;
                assert(i * regions <= count * regions) by (nonlinear_arith)
                    requires
                        i < count,
                        regions >= 0,
                ;
                let mut row: Vec<DictNumber> = Vec::new();
                let from: usize = count + i * regions;
                for k in from..from + regions
                    invariant
                        row@.len() == k - from,
                        forall|j: int|
                            0 <= j < k - from ==> (#[trigger] row@[j])@ == bases[from + j],
                {
                    assert(bases[k as int] == operands@[k as int]@);
                    row.push(operands[k].duplicate());
                }
                assert(numbers(row@) =~= bases.subrange(
                    count as int + i as int * regions as int,
                    count as int + (i as int + 1) * regions as int,
                ));
                assert(bases[i as int] == operands@[i as int]@);
                return Err(
                    Halt::Ask { vsindex: self.vsindex, base: operands[i].duplicate(), row },
                );
            }
            let ghost before = self.state().carried;
            assert(answers[self.used as int] == resolved@[self.used as int]@);
            self.carried.push(resolved[self.used].duplicate());
            self.used = self.used + 1;
            assert(self.state().carried =~= before.push(answers[self.used - 1]));
        }
        Ok(())
    }

    /// Take in one entry.
    fn entry(
        &mut self,
        entry: &DictEntry,
        region_counts: &Vec<usize>,
        resolved: &Vec<BlendedValue>,
        keeps_store: bool,
    ) -> (r: Result<(), Halt>)
        ensures
            match r {
                Ok(_) => entry_outcome(
                    old(self).state(),
                    entry@,
                    counts(region_counts@),
                    values_view(resolved@),
                    keeps_store,
                ) == Outcome::Done(final(self).state()),
                Err(h) => entry_outcome(
                    old(self).state(),
                    entry@,
                    counts(region_counts@),
                    values_view(resolved@),
                    keeps_store,
                ) == h@,
            },
    {
        let ghost s = self.state();
        if entry.operator == SUBRS {
            return Ok(());
        }
        if entry.operator == PRIVATE_VSINDEX {
            let v: i32 = if entry.operands.len() > 0 {
                assert(entry@.operands[0] == entry.operands@[0]@);
                match &entry.operands[0] {
                    DictNumber::Integer(v) => *v,
                    DictNumber::Real(_) => {
                        return Err(halt("a Private DICT vsindex is not an integer"));
                    },
                }
            } else {
                0
            };
            self.vsindex = if v < 0 {
                0
            } else {
                v as usize
            };
            if keeps_store {
                push_all(&mut self.out, entry.raw.as_slice());
            }
            return Ok(());
        }
        self.push_operands(entry);
        let ghost pushed = self.state();
        if entry.operator == DICT_BLEND {
            proof {
                reveal(blend_outcome);
                assert(blend_outcome(
                    pushed,
                    pushed.carried,
                    counts(region_counts@),
                    values_view(resolved@),
                ) == blend_outcome(
                    s,
                    pushed.carried,
                    counts(region_counts@),
                    values_view(resolved@),
                ));
            }
            return self.blend(region_counts, resolved);
        }
        write_dict_values(&self.carried, &mut self.out);
        self.carried = Vec::new();
        write_dict_operator(entry.operator, &mut self.out);
        assert(values_view(self.carried@) =~= Seq::<Value>::empty());
        assert(self.out@ =~= s.out + encoded_values(with_operands(s.carried, entry@.operands))
            + dict_operator(entry@.operator));
        Ok(())
    }
}

/// Resolve or re-express the blends in one Private DICT.
///
/// `region_counts` gives the number of regions of each ItemVariationData, `resolved` what
/// the blended values become, in the order in which the DICT makes them, and `keeps_store`
/// says whether the font still has an ItemVariationStore.
pub fn rewrite_private_dict(
    entries: &Vec<DictEntry>,
    region_counts: &Vec<usize>,
    resolved: &Vec<BlendedValue>,
    keeps_store: bool,
) -> (r: Result<PrivateRewritten, SliceError>)
    ensures
        ({
            let outcome = private_from(
                initial_state(),
                entries_view(entries@),
                0,
                region_counts@.map_values(|n: usize| n as nat),
                values_view(resolved@),
                keeps_store,
            );
            match r {
                Ok(PrivateRewritten::Done(bytes)) => outcome matches Outcome::Done(s) && bytes@
                    == s.out,
                Ok(PrivateRewritten::NeedsBlend { vsindex, base, row }) => outcome
                    == (Outcome::Ask { vsindex: vsindex as int, base: base@, row: numbers(row@) }),
                Err(e) => outcome == Outcome::Failed(e@),
            }
        }),
{
    let ghost all = entries_view(entries@);
    let ghost regions = counts(region_counts@);
    let ghost answers = values_view(resolved@);
    let mut rewriter: Rewriter = Rewriter {
        out: Vec::new(),
        vsindex: 0,
        carried: Vec::new(),
        used: 0,
    };
    assert(values_view(rewriter.carried@) =~= Seq::<Value>::empty());
    let ghost outcome = private_from(initial_state(), all, 0, regions, answers, keeps_store);
    for i in 0..entries.len()
        invariant
            all == entries_view(entries@),
            regions == counts(region_counts@),
            answers == values_view(resolved@),
            outcome == private_from(initial_state(), all, 0, regions, answers, keeps_store),
            outcome == private_from(
                rewriter.state(),
                all,
                i as int,
                regions,
                answers,
                keeps_store,
            ),
    {
        assert(all[i as int] == entries@[i as int]@);
        match rewriter.entry(&entries[i], region_counts, resolved, keeps_store) {
            Ok(_) => {},
            Err(Halt::Failed(e)) => {
                return Err(e);
            },
            Err(Halt::Ask { vsindex, base, row }) => {
                return Ok(PrivateRewritten::NeedsBlend { vsindex, base, row });
            },
        }
    }
    if rewriter.carried.len() > 0 {
        return Err(malformed("a Private DICT ended with a blend and no operator"));
    }
    Ok(PrivateRewritten::Done(rewriter.out))
}

} // verus!
