//! What a drawn charstring draws, and what hints have to do with it.
use vstd::prelude::*;

use crate::cff2::charstring::{
    is_stem_operator, mask_len, program, rewritten, untouched_from, Env, Outcome,
};
use crate::cff2::draw::{
    contour_bytes, drawn, drawn_upto, pen_after, pen_upto, segment_bytes, segment_end, step_bytes,
    CubicView, Segment,
};
use crate::cff2::hints::is_hint_operator;
use crate::cff2::num::{charstring_number, charstring_operand};
use crate::laws::charstrings::{are_operands, lemma_number_at, numbers};

verus! {

// ------------------------------------------------------------------------------------ drawing

/// What a pen does, with the places that it goes to.
#[verifier::ext_equal]
pub enum Stroke {
    Move(int, int),
    Line(int, int),
    Curve((int, int), (int, int), (int, int)),
}

/// What a charstring draws from `pos` on, with the pen at a place and some operands waiting:
/// operator 21 moves the pen by two operands, operator 5 draws a line by two, and operator 8
/// draws a curve by six, each pair counting from the place before. Anything else ends it.
pub open spec fn strokes_from(
    data: Seq<u8>,
    pos: int,
    pen: (int, int),
    stack: Seq<int>,
) -> Seq<Stroke>
    decreases data.len() - pos,
{
    if pos < 0 || pos >= data.len() {
        Seq::empty()
    } else if data[pos] >= 32 || data[pos] == 28 {
        match charstring_operand(data, pos) {
            Ok((v, len)) => if len > 0 {
                strokes_from(data, pos + len, pen, stack.push(v))
            } else {
                Seq::empty()
            },
            Err(_) => Seq::empty(),
        }
    } else if data[pos] == 21 && stack.len() == 2 {
        let p = (pen.0 + stack[0], pen.1 + stack[1]);
        seq![Stroke::Move(p.0, p.1)] + strokes_from(data, pos + 1, p, Seq::empty())
    } else if data[pos] == 5 && stack.len() == 2 {
        let p = (pen.0 + stack[0], pen.1 + stack[1]);
        seq![Stroke::Line(p.0, p.1)] + strokes_from(data, pos + 1, p, Seq::empty())
    } else if data[pos] == 8 && stack.len() == 6 {
        let p = (pen.0 + stack[0], pen.1 + stack[1]);
        let q = (p.0 + stack[2], p.1 + stack[3]);
        let r = (q.0 + stack[4], q.1 + stack[5]);
        seq![Stroke::Curve(p, q, r)] + strokes_from(data, pos + 1, r, Seq::empty())
    } else {
        Seq::empty()
    }
}

/// What a charstring draws, from the origin.
pub open spec fn strokes(data: Seq<u8>) -> Seq<Stroke> {
    strokes_from(data, 0, (0, 0), Seq::empty())
}

/// A segment as a pen draws it.
pub open spec fn stroke_of(s: Segment) -> Stroke {
    match s {
        Segment::Line { x, y } => Stroke::Line(x as int, y as int),
        Segment::Curve { x1, y1, x2, y2, x, y } => Stroke::Curve(
            (x1 as int, y1 as int),
            (x2 as int, y2 as int),
            (x as int, y as int),
        ),
    }
}

/// A contour as a pen draws it: it goes to its start, and then along its segments.
pub open spec fn strokes_of(c: CubicView) -> Seq<Stroke> {
    seq![Stroke::Move(c.start.0 as int, c.start.1 as int)] + c.segments.map_values(
        |s: Segment| stroke_of(s),
    )
}

/// Contours as a pen draws them, one after another.
pub open spec fn all_strokes(contours: Seq<CubicView>) -> Seq<Stroke>
    decreases contours.len(),
{
    if contours.len() == 0 {
        Seq::empty()
    } else {
        all_strokes(contours.drop_last()) + strokes_of(contours.last())
    }
}

/// True for a place from which every other such place can be reached in one step.
pub open spec fn is_near(p: (i32, i32)) -> bool {
    -0x3fff_ffff <= p.0 <= 0x3fff_ffff && -0x3fff_ffff <= p.1 <= 0x3fff_ffff
}

pub open spec fn is_near_segment(s: Segment) -> bool {
    match s {
        Segment::Line { x, y } => is_near((x, y)),
        Segment::Curve { x1, y1, x2, y2, x, y } => is_near((x1, y1)) && is_near((x2, y2))
            && is_near((x, y)),
    }
}

pub open spec fn is_near_contour(c: CubicView) -> bool {
    is_near(c.start) && forall|i: int|
        0 <= i < c.segments.len() ==> is_near_segment(#[trigger] c.segments[i])
}

/// What stands in front of where the pen is does not matter.
proof fn lemma_strokes_behind(
    front: Seq<u8>,
    data: Seq<u8>,
    pos: int,
    pen: (int, int),
    stack: Seq<int>,
)
    requires
        0 <= pos <= data.len(),
    ensures
        strokes_from(front + data, front.len() + pos, pen, stack) == strokes_from(
            data,
            pos,
            pen,
            stack,
        ),
    decreases data.len() - pos,
{
    let all = front + data;
    let at = front.len() + pos;
    if pos < data.len() {
        assert(all[at] == data[pos]);
        if data[pos] >= 32 || data[pos] == 28 {
            assert forall|n: int| 0 <= n && pos + n <= data.len() implies all.subrange(at, at + n)
                == #[trigger] data.subrange(pos, pos + n) by {
                assert(all.subrange(at, at + n) =~= data.subrange(pos, pos + n));
            }
            match charstring_operand(data, pos) {
                Ok((v, len)) => {
                    assert(all.subrange(at, at + len) == data.subrange(pos, pos + len));
                    if len > 0 {
                        lemma_strokes_behind(front, data, pos + len, pen, stack.push(v));
                    }
                },
                Err(_) => {},
            }
        } else {
            let none = Seq::<int>::empty();
            if stack.len() == 2 {
                let p = (pen.0 + stack[0], pen.1 + stack[1]);
                lemma_strokes_behind(front, data, pos + 1, p, none);
            }
            if stack.len() == 6 {
                let p = (pen.0 + stack[0], pen.1 + stack[1]);
                let q = (p.0 + stack[2], p.1 + stack[3]);
                let r = (q.0 + stack[4], q.1 + stack[5]);
                lemma_strokes_behind(front, data, pos + 1, r, none);
            }
        }
    }
}

/// One step in front of more: its two numbers wait.
proof fn lemma_step(
    from: (i32, i32),
    to: (i32, i32),
    tail: Seq<u8>,
    pen: (int, int),
    stack: Seq<int>,
)
    requires
        is_near(from),
        is_near(to),
    ensures
        strokes_from(step_bytes(from, to) + tail, 0, pen, stack) == strokes_from(
            tail,
            0,
            pen,
            stack.push(to.0 - from.0).push(to.1 - from.1),
        ),
{
    reveal(step_bytes);
    let a = charstring_number(to.0 - from.0);
    let b = charstring_number(to.1 - from.1);
    let rest = b + tail;
    let data = step_bytes(from, to) + tail;
    assert(data =~= a + rest);
    assert(data.subrange(0, a.len() as int) =~= a);
    lemma_number_at(data, 0, to.0 - from.0);
    let one = stack.push(to.0 - from.0);
    assert(strokes_from(data, 0, pen, stack) == strokes_from(data, a.len() as int, pen, one));
    lemma_strokes_behind(a, rest, 0, pen, one);
    assert(rest.subrange(0, b.len() as int) =~= b);
    lemma_number_at(rest, 0, to.1 - from.1);
    let two = one.push(to.1 - from.1);
    assert(strokes_from(rest, 0, pen, one) == strokes_from(rest, b.len() as int, pen, two));
    lemma_strokes_behind(b, tail, 0, pen, two);
}

/// A pen's place as it is counted.
pub open spec fn place(p: (i32, i32)) -> (int, int) {
    (p.0 as int, p.1 as int)
}

proof fn lemma_operator(b: u8, tail: Seq<u8>)
    ensures
        (seq![b] + tail)[0] == b,
        (seq![b] + tail).len() == tail.len() + 1,
{
}

proof fn lemma_segment(from: (i32, i32), s: Segment, tail: Seq<u8>)
    requires
        is_near(from),
        is_near_segment(s),
    ensures
        strokes_from(segment_bytes(from, s) + tail, 0, place(from), Seq::empty()) == seq![
            stroke_of(s),
        ] + strokes_from(tail, 0, place(segment_end(s)), Seq::empty()),
{
    let none = Seq::<int>::empty();
    let pen = place(from);
    match s {
        Segment::Line { x, y } => {
            let rest = seq![5u8] + tail;
            assert(segment_bytes(from, s) + tail =~= step_bytes(from, (x, y)) + rest);
            lemma_step(from, (x, y), rest, pen, none);
            let stack = none.push(x - from.0).push(y - from.1);
            assert(stack.len() == 2 && stack[0] == x - from.0 && stack[1] == y - from.1);
            lemma_operator(5, tail);
            lemma_strokes_behind(seq![5u8], tail, 0, (x as int, y as int), none);
        },
        Segment::Curve { x1, y1, x2, y2, x, y } => {
            let last = seq![8u8] + tail;
            let third = step_bytes((x2, y2), (x, y)) + last;
            let second = step_bytes((x1, y1), (x2, y2)) + third;
            assert(segment_bytes(from, s) + tail =~= step_bytes(from, (x1, y1)) + second);
            lemma_step(from, (x1, y1), second, pen, none);
            let a = none.push(x1 - from.0).push(y1 - from.1);
            lemma_step((x1, y1), (x2, y2), third, pen, a);
            let b = a.push(x2 - x1).push(y2 - y1);
            lemma_step((x2, y2), (x, y), last, pen, b);
            let c = b.push(x - x2).push(y - y2);
            assert(c.len() == 6 && c[0] == x1 - from.0 && c[1] == y1 - from.1 && c[2] == x2 - x1
                && c[3] == y2 - y1 && c[4] == x - x2 && c[5] == y - y2);
            lemma_operator(8, tail);
            lemma_strokes_behind(seq![8u8], tail, 0, (x as int, y as int), none);
        },
    }
}

proof fn lemma_contour(from: (i32, i32), c: CubicView, n: int, tail: Seq<u8>)
    requires
        is_near(from),
        is_near_contour(c),
        0 <= n <= c.segments.len(),
    ensures
        strokes_from(contour_bytes(from, c, n) + tail, 0, place(from), Seq::empty()) == seq![
            Stroke::Move(c.start.0 as int, c.start.1 as int),
        ] + c.segments.take(n).map_values(|s: Segment| stroke_of(s)) + strokes_from(
            tail,
            0,
            place(pen_after(c, n)),
            Seq::empty(),
        ),
        is_near(pen_after(c, n)),
    decreases n,
{
    let none = Seq::<int>::empty();
    let start = seq![Stroke::Move(c.start.0 as int, c.start.1 as int)];
    let listed = c.segments.take(n).map_values(|s: Segment| stroke_of(s));
    if n == 0 {
        let rest = seq![21u8] + tail;
        assert(contour_bytes(from, c, 0) + tail =~= step_bytes(from, c.start) + rest);
        lemma_step(from, c.start, rest, place(from), none);
        let stack = none.push(c.start.0 - from.0).push(c.start.1 - from.1);
        assert(stack.len() == 2 && stack[0] == c.start.0 - from.0 && stack[1] == c.start.1
            - from.1);
        lemma_operator(21, tail);
        lemma_strokes_behind(seq![21u8], tail, 0, place(c.start), none);
        assert(listed =~= Seq::<Stroke>::empty());
        assert(start + listed =~= start);
    } else {
        let s = c.segments[n - 1];
        assert(is_near_segment(s));
        let more = segment_bytes(pen_after(c, n - 1), s) + tail;
        lemma_contour(from, c, n - 1, more);
        assert(contour_bytes(from, c, n) + tail =~= contour_bytes(from, c, n - 1) + more);
        lemma_segment(pen_after(c, n - 1), s, tail);
        let before = c.segments.take(n - 1).map_values(|s: Segment| stroke_of(s));
        assert(listed =~= before.push(stroke_of(s)));
        let end = strokes_from(tail, 0, place(pen_after(c, n)), none);
        assert(start + before + (seq![stroke_of(s)] + end) =~= start + listed + end);
    }
}

proof fn lemma_drawn(contours: Seq<CubicView>, n: int, tail: Seq<u8>)
    requires
        0 <= n <= contours.len(),
        forall|i: int| 0 <= i < contours.len() ==> is_near_contour(#[trigger] contours[i]),
    ensures
        strokes_from(drawn_upto(contours, n) + tail, 0, (0, 0), Seq::empty()) == all_strokes(
            contours.take(n),
        ) + strokes_from(tail, 0, place(pen_upto(contours, n)), Seq::empty()),
        is_near(pen_upto(contours, n)),
    decreases n,
{
    let none = Seq::<int>::empty();
    if n == 0 {
        assert(drawn_upto(contours, 0) + tail =~= tail);
        assert(all_strokes(contours.take(0)) =~= Seq::<Stroke>::empty());
        let end = strokes_from(tail, 0, (0, 0), none);
        assert(Seq::<Stroke>::empty() + end =~= end);
    } else {
        let c = contours[n - 1];
        assert(is_near_contour(c));
        let k = c.segments.len() as int;
        let from = pen_upto(contours, n - 1);
        let more = contour_bytes(from, c, k) + tail;
        lemma_drawn(contours, n - 1, more);
        assert(drawn_upto(contours, n) + tail =~= drawn_upto(contours, n - 1) + more);
        lemma_contour(from, c, k, tail);
        assert(c.segments.take(k) =~= c.segments);
        assert(contours.take(n).drop_last() =~= contours.take(n - 1));
        assert(contours.take(n).last() == c);
        let before = all_strokes(contours.take(n - 1));
        let end = strokes_from(tail, 0, place(pen_upto(contours, n)), none);
        assert(before + (strokes_of(c) + end) =~= before + strokes_of(c) + end);
    }
}

/// A charstring that was made for some contours draws them: the pen goes to the start of each,
/// and along its segments to the very places that they name.
pub proof fn a_drawn_charstring_draws_its_contours(contours: Seq<CubicView>)
    requires
        forall|i: int| 0 <= i < contours.len() ==> is_near_contour(#[trigger] contours[i]),
    ensures
        strokes(drawn(contours)) == all_strokes(contours),
{
    let n = contours.len() as int;
    let none = Seq::<u8>::empty();
    lemma_drawn(contours, n, none);
    assert(drawn(contours) + none =~= drawn(contours));
    assert(contours.take(n) =~= contours);
    let end = strokes_from(none, 0, place(pen_upto(contours, n)), Seq::empty());
    assert(end =~= Seq::<Stroke>::empty());
    assert(all_strokes(contours) + end =~= all_strokes(contours));
}

// -------------------------------------------------------------------------------------- hints

/// The operators that are about hints are the four that declare stems, 1, 3, 18 and 23, and the
/// two that mask them, 19 and 20.
pub proof fn six_operators_are_about_hints(b: u8)
    ensures
        is_stem_operator(b) <==> b == 1 || b == 3 || b == 18 || b == 23,
        is_hint_operator(b) <==> b == 1 || b == 3 || b == 18 || b == 23 || b == 19 || b == 20,
{
}

proof fn lemma_untouched_numbers(data: Seq<u8>, pos: int, list: Seq<int>, stems: nat, pending: nat)
    requires
        0 <= pos,
        are_operands(list),
        pos + numbers(list).len() <= data.len(),
        data.subrange(pos, pos + numbers(list).len()) == numbers(list),
    ensures
        untouched_from(data, pos, stems, pending) == untouched_from(
            data,
            pos + numbers(list).len(),
            stems,
            pending + list.len(),
        ),
    decreases list.len(),
{
    let all = numbers(list);
    if list.len() > 0 {
        let v = list[0];
        let b = charstring_number(v);
        let rest = list.skip(1);
        assert(data.subrange(pos, pos + b.len()) =~= data.subrange(pos, pos + all.len()).subrange(
            0,
            b.len() as int,
        ));
        assert(all.subrange(0, b.len() as int) =~= b);
        lemma_number_at(data, pos, v);
        let next = pos + b.len();
        assert(data.subrange(next, next + numbers(rest).len()) =~= data.subrange(
            pos,
            pos + all.len(),
        ).subrange(b.len() as int, all.len() as int));
        assert(all.subrange(b.len() as int, all.len() as int) =~= numbers(rest));
        assert(are_operands(rest)) by {
            assert forall|i: int| 0 <= i < rest.len() implies i32::MIN <= #[trigger] rest[i]
                <= i32::MAX by {
                assert(rest[i] == list[i + 1]);
            }
        }
        lemma_untouched_numbers(data, next, rest, stems, pending + 1);
    }
}

/// A mask behind declared stems comes through whole, whatever its bytes look like: it has one
/// bit for each pair of operands of the stem operator, and of those in front of the mask.
pub proof fn a_mask_comes_through_whole(
    env: Env,
    stems: Seq<int>,
    operator: u8,
    more: Seq<int>,
    mask: u8,
    bits: Seq<u8>,
)
    requires
        are_operands(stems),
        are_operands(more),
        operator == 1 || operator == 3 || operator == 18 || operator == 23,
        mask == 19 || mask == 20,
        stems.len() / 2 + more.len() / 2 > 0,
        8 * (bits.len() - 1) < stems.len() / 2 + more.len() / 2 <= 8 * bits.len(),
    ensures
        ({
            let data = numbers(stems) + seq![operator] + numbers(more) + seq![mask] + bits;
            rewritten(data, env) matches Outcome::Done(m) && program(m, env) == data
        }),
{
    let a = numbers(stems);
    let b = numbers(more);
    let data = a + seq![operator] + b + seq![mask] + bits;
    assert(data.subrange(0, a.len() as int) =~= a);
    lemma_untouched_numbers(data, 0, stems, 0, 0);
    let first = a.len() as int;
    assert(data[first] == operator);
    let n = (stems.len() / 2) as nat;
    assert(untouched_from(data, first, 0, stems.len()) == untouched_from(data, first + 1, n, 0));
    assert(data.subrange(first + 1, first + 1 + b.len()) =~= b);
    lemma_untouched_numbers(data, first + 1, more, n, 0);
    let second = first + 1 + b.len();
    assert(data[second] == mask);
    let all = n + more.len() / 2;
    assert(mask_len(all) == bits.len());
    assert(second + 1 + mask_len(all) == data.len());
    assert(untouched_from(data, data.len() as int, all, 0));
    assert(untouched_from(data, second, n, more.len()));
    crate::cff2::charstring::a_charstring_without_blends_is_unchanged(data, env);
}

} // verus!
