//! What rewriting a CFF2 charstring does with calls and blends.
use vstd::prelude::*;

use crate::cff2::charstring::{
    all_zero, blend_outcome, blended_run, blended_value, blended_values, call_step, dropped,
    encoded_bases, encoded_blend, encoded_deltas, encoded_stack, encoded_wholes, flushed, held,
    initial, lemma_blended_run, lemma_step_advances, malformed_charstring, mask_len, operator_step,
    program, rewritten, run_from, slot_value, step, untouched_from, vsindex_step, Env, Machine,
    Outcome, Slot, Step,
};
use crate::cff2::num::{
    charstring_number, charstring_numbers_round_trip, charstring_operand, MAX_DEPTH,
};

verus! {

/// Numbers one after another, as a charstring writes them.
pub open spec fn numbers(list: Seq<int>) -> Seq<u8>
    decreases list.len(),
{
    if list.len() == 0 {
        Seq::empty()
    } else {
        charstring_number(list[0]) + numbers(list.skip(1))
    }
}

/// True for values that a charstring can hold.
pub open spec fn are_operands(list: Seq<int>) -> bool {
    forall|i: int| 0 <= i < list.len() ==> i32::MIN <= #[trigger] list[i] <= i32::MAX
}

/// A machine with more values on its stack.
pub open spec fn with_values(m: Machine, list: Seq<int>) -> Machine {
    Machine { stack: m.stack + list.map_values(|v: int| Slot::Plain(v)), ..m }
}

pub(crate) proof fn lemma_number_at(data: Seq<u8>, pos: int, v: int)
    requires
        i32::MIN <= v <= i32::MAX,
        0 <= pos,
        pos + charstring_number(v).len() <= data.len(),
        data.subrange(pos, pos + charstring_number(v).len()) == charstring_number(v),
    ensures
        charstring_number(v).len() > 0,
        data[pos] >= 32 || data[pos] == 28,
        charstring_operand(data, pos) == Ok::<(int, int), crate::error::Problem>(
            (v, charstring_number(v).len() as int),
        ),
{
    let b = charstring_number(v);
    charstring_numbers_round_trip(v);
    assert(b.len() > 0);
    assert(data.subrange(pos, pos + b.len())[0] == data[pos]);
    assert(b.subrange(0, b.len() as int) =~= b);
}

proof fn lemma_numbers_run(
    m: Machine,
    env: Env,
    data: Seq<u8>,
    pos: int,
    list: Seq<int>,
    depth: int,
)
    requires
        0 <= pos,
        depth <= MAX_DEPTH,
        !m.finished,
        are_operands(list),
        pos + numbers(list).len() <= data.len(),
        data.subrange(pos, pos + numbers(list).len()) == numbers(list),
    ensures
        run_from(m, env, data, pos, depth) == run_from(
            with_values(m, list),
            env,
            data,
            pos + numbers(list).len(),
            depth,
        ),
    decreases list.len(),
{
    let all = numbers(list);
    if list.len() == 0 {
        assert(with_values(m, list).stack =~= m.stack);
        assert(with_values(m, list) == m);
    } else {
        let v = list[0];
        let b = charstring_number(v);
        let rest = list.skip(1);
        assert(all == b + numbers(rest));
        assert(data.subrange(pos, pos + b.len()) =~= data.subrange(pos, pos + all.len()).subrange(
            0,
            b.len() as int,
        ));
        assert(all.subrange(0, b.len() as int) =~= b);
        lemma_number_at(data, pos, v);
        let after = Machine { stack: m.stack.push(Slot::Plain(v)), ..m };
        assert(step(m, env, data, pos) == Step::Next(after, pos + b.len()));
        let next = pos + b.len();
        assert(data.subrange(next, next + numbers(rest).len()) =~= data.subrange(
            pos,
            pos + all.len(),
        ).subrange(b.len() as int, all.len() as int));
        assert(all.subrange(b.len() as int, all.len() as int) =~= numbers(rest));
        assert(are_operands(rest)) by {
            assert forall|i: int| 0 <= i < rest.len() implies i32::MIN <= #[trigger] rest[i]
                <= i32::MAX by {
                assert(rest[i] == list[i + 1]);
            }
        }
        lemma_numbers_run(after, env, data, next, rest, depth);
        assert(with_values(after, rest).stack =~= with_values(m, list).stack);
        assert(with_values(after, rest) == with_values(m, list));
    }
}

/// What stands in front of where the machine is does not matter.
proof fn lemma_run_behind(
    m: Machine,
    env: Env,
    front: Seq<u8>,
    data: Seq<u8>,
    pos: int,
    depth: int,
)
    requires
        0 <= pos <= data.len(),
    ensures
        run_from(m, env, front + data, front.len() + pos, depth) == run_from(
            m,
            env,
            data,
            pos,
            depth,
        ),
    decreases data.len() - pos,
{
    let all = front + data;
    let at = front.len() + pos;
    if depth <= MAX_DEPTH && pos < data.len() && !m.finished {
        assert(all[at] == data[pos]);
        lemma_step_advances(m, env, data, pos);
        lemma_step_advances(m, env, all, at);
        lemma_step_behind(m, env, front, data, pos);
        match step(m, env, data, pos) {
            Step::Next(after, next) => {
                lemma_run_behind(after, env, front, data, next, depth);
            },
            Step::Call(after, body) => {
                match run_from(after, env, body, 0, depth + 1) {
                    Outcome::Done(back) => {
                        lemma_run_behind(back, env, front, data, pos + 1, depth);
                    },
                    _ => {},
                }
            },
            _ => {},
        }
    }
}

proof fn lemma_step_behind(m: Machine, env: Env, front: Seq<u8>, data: Seq<u8>, pos: int)
    requires
        0 <= pos < data.len(),
    ensures
        match step(m, env, data, pos) {
            Step::Next(after, next) => step(m, env, front + data, front.len() + pos) == Step::Next(
                after,
                front.len() + next,
            ),
            other => step(m, env, front + data, front.len() + pos) == other,
        },
{
    reveal(vsindex_step);
    reveal(call_step);
    let all = front + data;
    let at = front.len() + pos;
    assert(all[at] == data[pos]);
    if pos + 1 < data.len() {
        assert(all[at + 1] == data[pos + 1]);
    }
    assert forall|n: int| 0 <= n && pos + n <= data.len() implies all.subrange(at, at + n)
        == #[trigger] data.subrange(pos, pos + n) by {
        assert(all.subrange(at, at + n) =~= data.subrange(pos, pos + n));
    }
    assert forall|n: int| pos + 1 <= n <= data.len() implies all.subrange(
        at + 1,
        front.len() + n,
    ) == #[trigger] data.subrange(pos + 1, n) by {
        assert(all.subrange(at + 1, front.len() + n) =~= data.subrange(pos + 1, n));
    }
    if data[pos] >= 32 || data[pos] == 28 {
        match charstring_operand(data, pos) {
            Ok((value, len)) => {
                assert(all.subrange(at, at + len) == data.subrange(pos, pos + len));
            },
            Err(_) => {},
        }
    }
}

/// The problem of calls that nest too deeply.
pub open spec fn too_deep() -> Outcome {
    Outcome::Failed(malformed_charstring("subroutine calls nested too deeply"@))
}

/// A run does the same one call less deep, unless it ran out of depth.
proof fn lemma_run_shallower(m: Machine, env: Env, data: Seq<u8>, pos: int, depth: int)
    requires
        0 <= pos <= data.len(),
        depth <= MAX_DEPTH,
    ensures
        run_from(m, env, data, pos, depth + 1) == too_deep() || run_from(
            m,
            env,
            data,
            pos,
            depth + 1,
        ) == run_from(m, env, data, pos, depth),
    decreases MAX_DEPTH + 1 - depth, data.len() - pos,
{
    if depth + 1 <= MAX_DEPTH && pos < data.len() && !m.finished {
        lemma_step_advances(m, env, data, pos);
        match step(m, env, data, pos) {
            Step::Next(after, next) => {
                lemma_run_shallower(after, env, data, next, depth);
            },
            Step::Call(after, body) => {
                lemma_run_shallower(after, env, body, 0, depth + 1);
                match run_from(after, env, body, 0, depth + 1) {
                    Outcome::Done(back) => {
                        lemma_run_shallower(back, env, data, pos + 1, depth);
                    },
                    _ => {},
                }
            },
            _ => {},
        }
    }
}

/// True when a charstring that only calls a subroutine, with `args` on the stack, rewrites as
/// the charstring does that has the body of the subroutine in place of the call.
pub open spec fn rewrites_as_body(
    env: Env,
    args: Seq<int>,
    index: int,
    operator: u8,
    body: Seq<u8>,
) -> bool {
    let call = numbers(args.push(index * 65536)) + seq![operator];
    let inlined = numbers(args) + body;
    rewritten(call, env) == too_deep() || rewritten(call, env) == rewritten(inlined, env)
}

/// The number that is added to the operand of a call, by how many subroutines there are.
pub open spec fn is_bias(bias: int, count: int) -> bool {
    &&& count < 1240 ==> bias == 107
    &&& 1240 <= count < 33900 ==> bias == 1131
    &&& 33900 <= count ==> bias == 32768
}

/// A call of a local subroutine, whose operator is 10, is replaced with the body of the local
/// subroutine that its operand names, whatever global subroutines there are.
pub proof fn a_local_call_inlines_a_local_subroutine(env: Env, args: Seq<int>, i: int, bias: int)
    requires
        0 <= i < env.local_subrs.len(),
        is_bias(bias, env.local_subrs.len() as int),
        are_operands(args),
        -32768 <= i - bias <= 32767,
    ensures
        rewrites_as_body(env, args, i - bias, 10, env.local_subrs[i]),
{
    reveal(call_step);
    lemma_call(env, args, i - bias, 10, env.local_subrs[i]);
}

/// A call of a global subroutine, whose operator is 29, is replaced with the body of the
/// global subroutine that its operand names, whatever local subroutines there are.
pub proof fn a_global_call_inlines_a_global_subroutine(env: Env, args: Seq<int>, i: int, bias: int)
    requires
        0 <= i < env.global_subrs.len(),
        is_bias(bias, env.global_subrs.len() as int),
        are_operands(args),
        -32768 <= i - bias <= 32767,
    ensures
        rewrites_as_body(env, args, i - bias, 29, env.global_subrs[i]),
{
    reveal(call_step);
    lemma_call(env, args, i - bias, 29, env.global_subrs[i]);
}

proof fn lemma_call(env: Env, args: Seq<int>, index: int, operator: u8, body: Seq<u8>)
    requires
        are_operands(args),
        -32768 <= index <= 32767,
        operator < 28 || operator == 29,
        forall|m: Machine, data: Seq<u8>, pos: int|
            0 <= pos < data.len() && data[pos] == operator && m.stack.len() > 0 && m.stack.last()
                == Slot::Plain(index * 65536) ==> #[trigger] operator_step(m, env, data, pos)
                == Step::Call(dropped(m, 1), body),
    ensures
        rewrites_as_body(env, args, index, operator, body),
{
    let list = args.push(index * 65536);
    let call = numbers(list) + seq![operator];
    let inlined = numbers(args) + body;
    let m = initial(env);
    let at = numbers(list).len() as int;
    assert(are_operands(list));
    assert(call.subrange(0, at) =~= numbers(list));
    assert(inlined.subrange(0, numbers(args).len() as int) =~= numbers(args));
    lemma_numbers_run(m, env, call, 0, list, 0);
    lemma_numbers_run(m, env, inlined, 0, args, 0);
    let full = with_values(m, list);
    let start = with_values(m, args);
    assert(full.stack.last() == Slot::Plain(index * 65536));
    assert(dropped(full, 1).stack =~= start.stack);
    assert(dropped(full, 1) == start);
    assert(call[at] == operator);
    assert(operator_step(full, env, call, at) == Step::Call(start, body));
    assert(step(full, env, call, at) == Step::Call(start, body));
    lemma_run_behind(start, env, numbers(args), body, 0, 0);
    lemma_run_shallower(start, env, body, 0, 0);
    match run_from(start, env, body, 0, 1) {
        Outcome::Done(back) => {
            assert(run_from(back, env, call, at + 1, 0) == Outcome::Done(back));
        },
        _ => {},
    }
}

// ------------------------------------------------------------------------------- where it ends

/// What stands behind the operator that the machine is at does not matter.
proof fn lemma_step_in_front(m: Machine, env: Env, data: Seq<u8>, tail: Seq<u8>, pos: int)
    requires
        0 <= pos < data.len(),
        step(m, env, data, pos) is Next,
    ensures
        step(m, env, data + tail, pos) == step(m, env, data, pos),
{
    reveal(vsindex_step);
    reveal(call_step);
    let all = data + tail;
    lemma_step_advances(m, env, data, pos);
    assert(all[pos] == data[pos]);
    if pos + 1 < data.len() {
        assert(all[pos + 1] == data[pos + 1]);
    }
    assert forall|n: int| pos <= n <= data.len() implies all.subrange(pos, n)
        == #[trigger] data.subrange(pos, n) by {
        assert(all.subrange(pos, n) =~= data.subrange(pos, n));
    }
    assert forall|n: int| pos + 1 <= n <= data.len() implies all.subrange(pos + 1, n)
        == #[trigger] data.subrange(pos + 1, n) by {
        assert(all.subrange(pos + 1, n) =~= data.subrange(pos + 1, n));
    }
    if data[pos] >= 32 || data[pos] == 28 {
        let (_, len) = charstring_operand(data, pos)->Ok_0;
        assert(all.subrange(pos, pos + len) == data.subrange(pos, pos + len));
    }
}

proof fn lemma_untouched_steps(m: Machine, env: Env, data: Seq<u8>, pos: int)
    requires
        0 <= pos < data.len(),
        untouched_from(data, pos, m.stems, m.stack.len()),
        !m.finished,
    ensures
        step(m, env, data, pos) matches Step::Next(after, next) && !after.finished
            && untouched_from(data, next, after.stems, after.stack.len()) && pos < next
            <= data.len(),
{
    lemma_step_advances(m, env, data, pos);
}

proof fn lemma_run_up_to(
    m: Machine,
    env: Env,
    data: Seq<u8>,
    tail: Seq<u8>,
    pos: int,
    depth: int,
) -> (end: Machine)
    requires
        0 <= pos <= data.len(),
        depth <= MAX_DEPTH,
        untouched_from(data, pos, m.stems, m.stack.len()),
        !m.finished,
    ensures
        !end.finished,
        run_from(m, env, data, pos, depth) == Outcome::Done(end),
        run_from(m, env, data + tail, pos, depth) == run_from(
            end,
            env,
            data + tail,
            data.len() as int,
            depth,
        ),
    decreases data.len() - pos,
{
    if pos == data.len() {
        m
    } else {
        lemma_untouched_steps(m, env, data, pos);
        lemma_step_in_front(m, env, data, tail, pos);
        let (after, next) = match step(m, env, data, pos) {
            Step::Next(after, next) => (after, next),
            _ => (m, pos),
        };
        lemma_step_advances(m, env, data + tail, pos);
        lemma_run_up_to(after, env, data, tail, next, depth)
    }
}

/// A charstring ends where it returns or says that it ends, by the operators 11 and 14:
/// whatever stands behind does not count.
pub proof fn a_charstring_ends_where_it_says(env: Env, data: Seq<u8>, operator: u8, tail: Seq<u8>)
    requires
        untouched_from(data, 0, 0, 0),
        operator == 11 || operator == 14,
    ensures
        rewritten(data + seq![operator] + tail, env) matches Outcome::Done(m) && program(m, env)
            == data,
{
    let rest = seq![operator] + tail;
    let all = data + rest;
    assert(data + seq![operator] + tail =~= all);
    let end = lemma_run_up_to(initial(env), env, data, rest, 0, 0);
    crate::cff2::charstring::a_charstring_without_blends_is_unchanged(data, env);
    assert(rewritten(data, env) == Outcome::Done(end));
    assert(all[data.len() as int] == operator);
    let at = data.len() as int;
    let stop = if operator == 14 {
        Machine { finished: true, ..end }
    } else {
        end
    };
    assert(step(end, env, all, at) == Step::Return(stop));
    assert(run_from(end, env, all, at, 0) == Outcome::Done(stop));
    assert(flushed(stop).out == flushed(end).out);
    assert(stop.emitted == end.emitted);
}

/// A subroutine that returns hands back to its caller, which goes on behind the call; one that
/// ends the charstring ends it for its caller too.
pub proof fn a_subroutine_hands_back_to_its_caller(
    env: Env,
    i: int,
    bias: int,
    body: Seq<u8>,
    operator: u8,
    tail: Seq<u8>,
)
    requires
        0 <= i < env.local_subrs.len(),
        is_bias(bias, env.local_subrs.len() as int),
        -32768 <= i - bias <= 32767,
        operator == 11 || operator == 14,
        env.local_subrs[i] == body + seq![operator],
        untouched_from(body, 0, 0, 0),
    ensures
        ({
            let call = numbers(seq![(i - bias) * 65536]) + seq![10u8];
            if operator == 11 {
                rewritten(call + tail, env) == rewritten(body + tail, env)
            } else {
                rewritten(call + tail, env) matches Outcome::Done(m) && program(m, env) == body
            }
        }),
{
    reveal(call_step);
    let v = (i - bias) * 65536;
    let list = seq![v];
    let front = numbers(list);
    let call = front + seq![10u8];
    let all = call + tail;
    let m = initial(env);
    let at = front.len() as int;
    assert(are_operands(list));
    assert(all.subrange(0, at) =~= front);
    lemma_numbers_run(m, env, all, 0, list, 0);
    let full = with_values(m, list);
    assert(full.stack.last() == Slot::Plain(v));
    assert(dropped(full, 1).stack =~= m.stack);
    assert(dropped(full, 1) == m);
    assert(all[at] == 10);
    let subr = env.local_subrs[i];
    assert(step(full, env, all, at) == Step::Call(m, subr));
    // The subroutine, one call deep.
    let end = lemma_run_up_to(m, env, body, seq![operator], 0, 1);
    let last = body.len() as int;
    assert(subr[last] == operator);
    let stop = if operator == 14 {
        Machine { finished: true, ..end }
    } else {
        end
    };
    assert(step(end, env, subr, last) == Step::Return(stop));
    assert(run_from(end, env, subr, last, 1) == Outcome::Done(stop));
    assert(run_from(m, env, subr, 0, 1) == Outcome::Done(stop));
    // The same body at the top.
    let top = lemma_run_up_to(m, env, body, tail, 0, 0);
    lemma_run_shallower(m, env, body, 0, 0);
    assert(top == end);
    crate::cff2::charstring::a_charstring_without_blends_is_unchanged(body, env);
    lemma_run_behind(stop, env, call, tail, 0, 0);
    if operator == 11 {
        lemma_run_behind(end, env, body, tail, 0, 0);
    } else {
        assert(run_from(stop, env, all, at + 1, 0) == Outcome::Done(stop));
        assert(flushed(stop).out == flushed(end).out);
    }
}

// ------------------------------------------------------------------------------------ blends

/// Rows of numbers, one after another.
pub open spec fn joined(rows: Seq<Seq<int>>) -> Seq<int>
    decreases rows.len(),
{
    if rows.len() == 0 {
        Seq::empty()
    } else {
        joined(rows.drop_last()) + rows.last()
    }
}

proof fn lemma_joined(rows: Seq<Seq<int>>, width: int, k: int)
    requires
        0 <= width,
        forall|i: int| 0 <= i < rows.len() ==> (#[trigger] rows[i]).len() == width,
        0 <= k < rows.len(),
    ensures
        joined(rows).len() == rows.len() * width,
        0 <= k * width,
        (k + 1) * width == k * width + width,
        (k + 1) * width <= joined(rows).len(),
        joined(rows).subrange(k * width, (k + 1) * width) == rows[k],
    decreases rows.len(),
{
    let n = rows.len() as int;
    let front = rows.drop_last();
    let before = joined(front);
    assert(rows[n - 1].len() == width);
    lemma_joined_len(front, width);
    assert((n - 1) * width + width == n * width) by (nonlinear_arith);
    assert(0 <= k * width && (k + 1) * width == k * width + width && k * width <= (n - 1) * width)
        by (nonlinear_arith)
        requires
            0 <= k < n,
            0 <= width,
    ;
    if k < n - 1 {
        lemma_joined(front, width, k);
        assert(joined(rows).subrange(k * width, (k + 1) * width) =~= before.subrange(
            k * width,
            (k + 1) * width,
        ));
    } else {
        assert(joined(rows).subrange(k * width, (k + 1) * width) =~= rows[k]);
    }
}

proof fn lemma_joined_len(rows: Seq<Seq<int>>, width: int)
    requires
        0 <= width,
        forall|i: int| 0 <= i < rows.len() ==> (#[trigger] rows[i]).len() == width,
    ensures
        joined(rows).len() == rows.len() * width,
    decreases rows.len(),
{
    if rows.len() > 0 {
        let n = rows.len() as int;
        assert(rows[n - 1].len() == width);
        lemma_joined_len(rows.drop_last(), width);
        assert((n - 1) * width + width == n * width) by (nonlinear_arith);
    }
}

/// The charstring of one `blend`, whose operator is 16: the base values, then a row of deltas
/// for each of them, then how many they are.
pub open spec fn blend_program(bases: Seq<int>, rows: Seq<Seq<int>>) -> Seq<u8> {
    numbers((bases + joined(rows)).push(bases.len() as int * 65536)) + seq![16u8]
}

/// True for the base values and the rows of deltas of one `blend`, with one delta for each of
/// `regions` regions.
pub open spec fn is_blend(bases: Seq<int>, rows: Seq<Seq<int>>, regions: int) -> bool {
    &&& 0 < bases.len() <= 0x7fff
    &&& rows.len() == bases.len()
    &&& forall|i: int| 0 <= i < rows.len() ==> (#[trigger] rows[i]).len() == regions
    &&& are_operands(bases)
    &&& are_operands(joined(rows))
}

/// Where value number `k` of a blend ends up: its base, moved by the gain that it resolves to.
pub open spec fn moved(env: Env, bases: Seq<int>, k: int) -> int {
    bases[k] + env.resolved[k].0 * 65536
}

/// True when the values that a blend resolves to are within what a charstring can hold.
pub open spec fn are_in_reach(env: Env, bases: Seq<int>) -> bool {
    forall|k: int|
        0 <= k < bases.len() && k < env.resolved.len() ==> i32::MIN <= #[trigger] moved(
            env,
            bases,
            k,
        ) <= i32::MAX
}

/// The slot that value number `k` of a blend takes.
spec fn slot_of_value(env: Env, bases: Seq<int>, k: int) -> Slot {
    if all_zero(env.resolved[k].1) {
        Slot::Plain(moved(env, bases, k))
    } else {
        Slot::Blended { base: moved(env, bases, k), deltas: env.resolved[k].1 }
    }
}

proof fn lemma_blended_values(
    start: Machine,
    m: Machine,
    env: Env,
    bases: Seq<int>,
    rows: Seq<Seq<int>>,
    regions: int,
    i: int,
)
    requires
        is_blend(bases, rows, regions),
        are_in_reach(env, bases),
        0 <= i <= bases.len(),
        i <= env.resolved.len(),
        start.used == 0,
        start.emitted is None,
        m == (Machine {
            stack: start.stack + Seq::new(i as nat, |k: int| slot_of_value(env, bases, k)),
            used: i as nat,
            emitted: m.emitted,
            ..start
        }),
        m.emitted == if exists|k: int| 0 <= k < i && !all_zero((#[trigger] env.resolved[k]).1) {
            Some(start.vsindex)
        } else {
            None
        },
    ensures
        ({
            let n = bases.len() as int;
            let r = blended_values(m, env, bases + joined(rows), n, regions, i);
            if env.resolved.len() < n {
                r == (Outcome::Ask { vsindex: start.vsindex, row: rows[env.resolved.len() as int] })
            } else {
                r == Outcome::Done(
                    Machine {
                        stack: start.stack + Seq::new(
                            n as nat,
                            |k: int| slot_of_value(env, bases, k),
                        ),
                        used: n as nat,
                        emitted: if exists|k: int|
                            0 <= k < n && !all_zero((#[trigger] env.resolved[k]).1) {
                            Some(start.vsindex)
                        } else {
                            None
                        },
                        ..start
                    },
                )
            }
        }),
    decreases bases.len() - i,
{
    let n = bases.len() as int;
    let operands = bases + joined(rows);
    if i < n {
        if env.resolved.len() <= i {
            lemma_joined(rows, regions, i);
            assert(operands.subrange(n + i * regions, n + (i + 1) * regions) =~= joined(
                rows,
            ).subrange(i * regions, (i + 1) * regions));
        } else {
            let answer = env.resolved[i];
            assert(operands[i] == bases[i]);
            let value = moved(env, bases, i);
            assert(held(operands[i] + answer.0 * 65536) == value);
            let next = blended_value(m, operands[i], answer)->Done_0;
            let slots = Seq::new((i + 1) as nat, |k: int| slot_of_value(env, bases, k));
            assert(next.stack =~= start.stack + slots);
            if all_zero(answer.1) {
                if exists|k: int| 0 <= k < i + 1 && !all_zero((#[trigger] env.resolved[k]).1) {
                    let k = choose|k: int|
                        0 <= k < i + 1 && !all_zero((#[trigger] env.resolved[k]).1);
                    assert(k < i);
                }
            } else {
                assert(!all_zero(env.resolved[i].1));
            }
            lemma_blended_values(start, next, env, bases, rows, regions, i + 1);
        }
    }
}

proof fn lemma_blend_run(
    start: Machine,
    env: Env,
    front: Seq<u8>,
    bases: Seq<int>,
    rows: Seq<Seq<int>>,
)
    requires
        !start.finished,
        start.stack.len() == 0,
        start.used == 0,
        start.emitted is None,
        0 <= start.vsindex < env.region_counts.len(),
        is_blend(bases, rows, env.region_counts[start.vsindex] as int),
        are_in_reach(env, bases),
    ensures
        ({
            let n = bases.len() as int;
            let r = run_from(
                start,
                env,
                front + blend_program(bases, rows),
                front.len() as int,
                0,
            );
            if env.resolved.len() < n {
                r == (Outcome::Ask { vsindex: start.vsindex, row: rows[env.resolved.len() as int] })
            } else {
                r == Outcome::Done(
                    Machine {
                        stack: Seq::new(n as nat, |k: int| slot_of_value(env, bases, k)),
                        used: n as nat,
                        emitted: if exists|k: int|
                            0 <= k < n && !all_zero((#[trigger] env.resolved[k]).1) {
                            Some(start.vsindex)
                        } else {
                            None
                        },
                        ..start
                    },
                )
            }
        }),
{
    reveal(blend_outcome);
    let n = bases.len() as int;
    let regions = env.region_counts[start.vsindex] as int;
    let operands = bases + joined(rows);
    let list = operands.push(n * 65536);
    let data = blend_program(bases, rows);
    let at = numbers(list).len() as int;
    lemma_run_behind(start, env, front, data, 0, 0);
    assert(are_operands(list)) by {
        assert forall|i: int| 0 <= i < list.len() implies i32::MIN <= #[trigger] list[i]
            <= i32::MAX by {
            if i < n {
                assert(list[i] == bases[i]);
            } else if i < operands.len() {
                assert(list[i] == joined(rows)[i - n]);
            }
        }
    }
    assert(data.subrange(0, at) =~= numbers(list));
    lemma_numbers_run(start, env, data, 0, list, 0);
    let full = with_values(start, list);
    lemma_joined_len(rows, regions);
    assert(n * (regions + 1) == n + n * regions) by (nonlinear_arith);
    assert(full.stack.len() == n * (regions + 1) + 1);
    assert(full.stack.last() == Slot::Plain(n * 65536));
    let rest = dropped(full, 1);
    let needed = n * (regions + 1);
    assert(rest.stack =~= operands.map_values(|v: int| Slot::Plain(v)));
    let taken = rest.stack.skip(rest.stack.len() - needed);
    assert(taken =~= rest.stack);
    assert(taken.map_values(|s: Slot| slot_value(s)) =~= operands);
    assert(dropped(rest, needed).stack =~= start.stack);
    assert(dropped(rest, needed) == start);
    let none = Seq::new(0, |k: int| slot_of_value(env, bases, k));
    assert(start.stack + none =~= start.stack);
    lemma_blended_values(start, start, env, bases, rows, regions, 0);
    assert(blend_outcome(full, env) == blended_values(start, env, operands, n, regions, 0));
    assert(data[at] == 16);
    assert(start.stack + Seq::new(n as nat, |k: int| slot_of_value(env, bases, k)) =~= Seq::new(
        n as nat,
        |k: int| slot_of_value(env, bases, k),
    ));
    match blend_outcome(full, env) {
        Outcome::Done(after) => {
            assert(step(full, env, data, at) == Step::Next(after, at + 1));
            assert(run_from(after, env, data, at + 1, 0) == Outcome::Done(after));
        },
        Outcome::Ask { vsindex, row } => {
            assert(step(full, env, data, at) == (Step::Ask { vsindex, row }));
        },
        _ => {},
    }
}

/// A `blend` asks for what its values resolve to one after another: for each it hands over the
/// deltas of that value, and the variation data that is in effect.
pub proof fn a_blend_asks_for_its_values_in_order(
    env: Env,
    bases: Seq<int>,
    rows: Seq<Seq<int>>,
)
    requires
        0 <= env.initial_vsindex < env.region_counts.len(),
        is_blend(bases, rows, env.region_counts[env.initial_vsindex] as int),
        are_in_reach(env, bases),
        env.resolved.len() < bases.len(),
    ensures
        rewritten(blend_program(bases, rows), env) == (Outcome::Ask {
            vsindex: env.initial_vsindex,
            row: rows[env.resolved.len() as int],
        }),
{
    lemma_blend_run(initial(env), env, Seq::empty(), bases, rows);
    assert(Seq::<u8>::empty() + blend_program(bases, rows) =~= blend_program(bases, rows));
}

/// A `vsindex`, whose operator is 15, selects the variation data for the blends behind it.
pub proof fn a_vsindex_selects_variation_data(
    env: Env,
    index: int,
    bases: Seq<int>,
    rows: Seq<Seq<int>>,
)
    requires
        0 <= index <= 0x7fff,
        index < env.region_counts.len(),
        is_blend(bases, rows, env.region_counts[index] as int),
        are_in_reach(env, bases),
        env.resolved.len() < bases.len(),
    ensures
        rewritten(
            charstring_number(index * 65536) + seq![15u8] + blend_program(bases, rows),
            env,
        ) == (Outcome::Ask { vsindex: index, row: rows[env.resolved.len() as int] }),
{
    lemma_vsindex_run(env, index, blend_program(bases, rows));
    let front = charstring_number(index * 65536) + seq![15u8];
    let start = Machine { vsindex: index, ..initial(env) };
    lemma_blend_run(start, env, front, bases, rows);
}

proof fn lemma_vsindex_run(env: Env, index: int, tail: Seq<u8>)
    requires
        0 <= index <= 0x7fff,
    ensures
        ({
            let front = charstring_number(index * 65536) + seq![15u8];
            rewritten(front + tail, env) == run_from(
                Machine { vsindex: index, ..initial(env) },
                env,
                front + tail,
                front.len() as int,
                0,
            )
        }),
{
    reveal(vsindex_step);
    let v = index * 65536;
    let list = seq![v];
    let front = charstring_number(v) + seq![15u8];
    let data = front + tail;
    assert(numbers(list.skip(1)) =~= Seq::<u8>::empty());
    assert(numbers(list) =~= charstring_number(v));
    let at = numbers(list).len() as int;
    assert(data.subrange(0, at) =~= numbers(list));
    assert(are_operands(list));
    lemma_numbers_run(initial(env), env, data, 0, list, 0);
    let full = with_values(initial(env), list);
    assert(full.stack.last() == Slot::Plain(v));
    assert(data[at] == 15);
    assert(dropped(full, 1).stack =~= Seq::<Slot>::empty());
    assert(step(full, env, data, at) == Step::Next(
        Machine { vsindex: index, ..initial(env) },
        at + 1,
    ));
}

proof fn lemma_plain_stack(list: Seq<int>)
    ensures
        encoded_stack(list.map_values(|v: int| Slot::Plain(v))) == numbers(list),
    decreases list.len(),
{
    let stack = list.map_values(|v: int| Slot::Plain(v));
    if list.len() > 0 {
        lemma_plain_stack(list.skip(1));
        assert(stack.skip(1) =~= list.skip(1).map_values(|v: int| Slot::Plain(v)));
    }
}

/// Where no value keeps a delta, a `blend` is replaced with its base values, each moved by
/// what it gains at the new default.
pub proof fn a_blend_that_does_not_vary_becomes_its_values(
    env: Env,
    bases: Seq<int>,
    rows: Seq<Seq<int>>,
)
    requires
        0 <= env.initial_vsindex < env.region_counts.len(),
        is_blend(bases, rows, env.region_counts[env.initial_vsindex] as int),
        are_in_reach(env, bases),
        env.resolved.len() >= bases.len(),
        forall|k: int| 0 <= k < bases.len() ==> all_zero((#[trigger] env.resolved[k]).1),
    ensures
        rewritten(blend_program(bases, rows), env) matches Outcome::Done(m) && program(m, env)
            == numbers(Seq::new(bases.len(), |k: int| bases[k] + env.resolved[k].0 * 65536)),
{
    lemma_blend_run(initial(env), env, Seq::empty(), bases, rows);
    assert(Seq::<u8>::empty() + blend_program(bases, rows) =~= blend_program(bases, rows));
    let n = bases.len();
    let list = Seq::new(n, |k: int| bases[k] + env.resolved[k].0 * 65536);
    let stack = Seq::new(n, |k: int| slot_of_value(env, bases, k));
    assert(stack =~= list.map_values(|v: int| Slot::Plain(v)));
    lemma_plain_stack(list);
    let m = rewritten(blend_program(bases, rows), env)->Done_0;
    assert(flushed(m).out =~= numbers(list));
}

proof fn lemma_numbers_push(list: Seq<int>, v: int)
    ensures
        numbers(list.push(v)) == numbers(list) + charstring_number(v),
    decreases list.len(),
{
    let longer = list.push(v);
    if list.len() == 0 {
        assert(numbers(longer.skip(1)) =~= Seq::<u8>::empty());
        assert(numbers(longer) =~= numbers(list) + charstring_number(v));
    } else {
        lemma_numbers_push(list.skip(1), v);
        assert(longer.skip(1) =~= list.skip(1).push(v));
        assert(numbers(longer) =~= numbers(list) + charstring_number(v));
    }
}

proof fn lemma_numbers_append(a: Seq<int>, b: Seq<int>)
    ensures
        numbers(a + b) == numbers(a) + numbers(b),
    decreases b.len(),
{
    if b.len() == 0 {
        assert(a + b =~= a);
        assert(numbers(a) + numbers(b) =~= numbers(a));
    } else {
        let front = b.drop_last();
        lemma_numbers_append(a, front);
        lemma_numbers_push(a + front, b.last());
        lemma_numbers_push(front, b.last());
        assert(a + b =~= (a + front).push(b.last()));
        assert(b =~= front.push(b.last()));
        assert(numbers(a + b) =~= numbers(a) + numbers(b));
    }
}

proof fn lemma_encoded_bases(slots: Seq<Slot>)
    ensures
        encoded_bases(slots) == numbers(slots.map_values(|s: Slot| slot_value(s))),
    decreases slots.len(),
{
    let values = slots.map_values(|s: Slot| slot_value(s));
    if slots.len() > 0 {
        let front = slots.drop_last();
        lemma_encoded_bases(front);
        assert(values =~= front.map_values(|s: Slot| slot_value(s)).push(slot_value(slots.last())));
        lemma_numbers_push(front.map_values(|s: Slot| slot_value(s)), slot_value(slots.last()));
    }
}

/// Whole numbers, in the units of a charstring.
pub open spec fn wholes(list: Seq<int>) -> Seq<int> {
    list.map_values(|v: int| v * 65536)
}

proof fn lemma_encoded_wholes(list: Seq<int>)
    ensures
        encoded_wholes(list) == numbers(wholes(list)),
    decreases list.len(),
{
    if list.len() > 0 {
        let front = list.drop_last();
        lemma_encoded_wholes(front);
        assert(wholes(list) =~= wholes(front).push(list.last() * 65536));
        lemma_numbers_push(wholes(front), list.last() * 65536);
    }
}

proof fn lemma_encoded_deltas(slots: Seq<Slot>, rows: Seq<Seq<int>>)
    requires
        rows.len() == slots.len(),
        forall|k: int| 0 <= k < slots.len() ==> (#[trigger] slots[k])->deltas == rows[k],
    ensures
        encoded_deltas(slots) == numbers(joined(rows.map_values(|r: Seq<int>| wholes(r)))),
    decreases slots.len(),
{
    let all = rows.map_values(|r: Seq<int>| wholes(r));
    if slots.len() > 0 {
        let front = slots.drop_last();
        let fewer = rows.drop_last();
        assert forall|k: int| 0 <= k < front.len() implies (#[trigger] front[k])->deltas
            == fewer[k] by {
            assert(slots[k]->deltas == rows[k]);
        }
        lemma_encoded_deltas(front, fewer);
        assert(all.drop_last() =~= fewer.map_values(|r: Seq<int>| wholes(r)));
        assert(slots[slots.len() - 1]->deltas == rows[rows.len() - 1]);
        assert(all.last() == wholes(rows.last()));
        lemma_encoded_wholes(rows.last());
        lemma_numbers_append(joined(all.drop_last()), wholes(rows.last()));
    }
}

/// Where every value keeps a delta, a `blend` is replaced with a `blend` of the moved base
/// values and of the deltas that are left of each, behind the same choice of variation data.
pub proof fn a_blend_that_varies_stays_a_blend(env: Env, bases: Seq<int>, rows: Seq<Seq<int>>)
    requires
        0 <= env.initial_vsindex < env.region_counts.len(),
        is_blend(bases, rows, env.region_counts[env.initial_vsindex] as int),
        are_in_reach(env, bases),
        env.resolved.len() >= bases.len(),
        forall|k: int| 0 <= k < bases.len() ==> !all_zero((#[trigger] env.resolved[k]).1),
    ensures
        rewritten(blend_program(bases, rows), env) matches Outcome::Done(m) && program(m, env)
            == blend_program(
            Seq::new(bases.len(), |k: int| bases[k] + env.resolved[k].0 * 65536),
            Seq::new(bases.len(), |k: int| wholes(env.resolved[k].1)),
        ),
{
    lemma_blend_run(initial(env), env, Seq::empty(), bases, rows);
    assert(Seq::<u8>::empty() + blend_program(bases, rows) =~= blend_program(bases, rows));
    lemma_varying_program(env, bases);
    assert(!all_zero(env.resolved[0].1));
    let m = rewritten(blend_program(bases, rows), env)->Done_0;
    assert(m.emitted == Some(env.initial_vsindex));
    assert(m.out + encoded_stack(m.stack) =~= encoded_stack(m.stack));
}

proof fn lemma_varying_program(env: Env, bases: Seq<int>)
    requires
        bases.len() > 0,
        env.resolved.len() >= bases.len(),
        forall|k: int| 0 <= k < bases.len() ==> !all_zero((#[trigger] env.resolved[k]).1),
    ensures
        encoded_stack(Seq::new(bases.len(), |k: int| slot_of_value(env, bases, k)))
            == blend_program(
            Seq::new(bases.len(), |k: int| bases[k] + env.resolved[k].0 * 65536),
            Seq::new(bases.len(), |k: int| wholes(env.resolved[k].1)),
        ),
{
    let n = bases.len();
    let stack = Seq::new(n, |k: int| slot_of_value(env, bases, k));
    let values = Seq::new(n, |k: int| bases[k] + env.resolved[k].0 * 65536);
    let left = Seq::new(n, |k: int| env.resolved[k].1);
    let rows = Seq::new(n, |k: int| wholes(env.resolved[k].1));
    assert forall|k: int| 0 <= k < n implies (#[trigger] stack[k]) is Blended && stack[k]->deltas
        == left[k] by {
        assert(!all_zero(env.resolved[k].1));
    }
    lemma_blended_run(stack);
    assert(stack.take(n as int) =~= stack);
    assert(stack.skip(n as int) =~= Seq::<Slot>::empty());
    assert(stack[0] is Blended);
    if blended_run(stack) < n {
        assert(stack[blended_run(stack) as int] is Blended);
    }
    assert(encoded_stack(Seq::empty()) =~= Seq::<u8>::empty());
    assert(encoded_stack(stack) =~= encoded_blend(stack));
    lemma_encoded_bases(stack);
    assert(stack.map_values(|s: Slot| slot_value(s)) =~= values) by {
        assert forall|k: int| 0 <= k < n implies slot_value(#[trigger] stack[k]) == values[k] by {
            assert(stack[k] is Blended);
        }
    }
    lemma_encoded_deltas(stack, left);
    assert(left.map_values(|r: Seq<int>| wholes(r)) =~= rows);
    lemma_numbers_append(values, joined(rows));
    lemma_numbers_push(values + joined(rows), n as int * 65536);
}

/// A `blend` behind a `vsindex` that is not the one the charstring starts with keeps that
/// choice, at the head of what is written.
pub proof fn a_blend_keeps_its_variation_data(
    env: Env,
    index: int,
    bases: Seq<int>,
    rows: Seq<Seq<int>>,
)
    requires
        0 <= index <= 0x7fff,
        index < env.region_counts.len(),
        index != env.initial_vsindex,
        is_blend(bases, rows, env.region_counts[index] as int),
        are_in_reach(env, bases),
        env.resolved.len() >= bases.len(),
        forall|k: int| 0 <= k < bases.len() ==> !all_zero((#[trigger] env.resolved[k]).1),
    ensures
        ({
            let front = charstring_number(index * 65536) + seq![15u8];
            rewritten(front + blend_program(bases, rows), env) matches Outcome::Done(m)
                && program(m, env) == front + blend_program(
                Seq::new(bases.len(), |k: int| bases[k] + env.resolved[k].0 * 65536),
                Seq::new(bases.len(), |k: int| wholes(env.resolved[k].1)),
            )
        }),
{
    let front = charstring_number(index * 65536) + seq![15u8];
    lemma_vsindex_run(env, index, blend_program(bases, rows));
    let start = Machine { vsindex: index, ..initial(env) };
    lemma_blend_run(start, env, front, bases, rows);
    lemma_varying_program(env, bases);
    assert(!all_zero(env.resolved[0].1));
    let m = rewritten(front + blend_program(bases, rows), env)->Done_0;
    assert(m.emitted == Some(index));
    assert(m.out + encoded_stack(m.stack) =~= encoded_stack(m.stack));
}

// ------------------------------------------------------------------------------------- masks

/// A hint mask has a bit for each stem that was declared, in no more bytes than it takes, and
/// at least one byte.
pub proof fn a_mask_has_a_bit_for_each_stem(stems: nat)
    ensures
        mask_len(stems) >= 1,
        stems <= 8 * mask_len(stems),
        stems > 0 ==> 8 * (mask_len(stems) - 1) < stems,
        stems == 0 ==> mask_len(stems) == 1,
{
}

} // verus!
