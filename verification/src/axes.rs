//! Axis definitions as the user types them into the Axis Editor.
//!
//! | what the user wants | what they type | example |
//! |---|---|---|
//! | keep the full original axis range | nothing | |
//! | pin the axis to one location | a number | `400.0` |
//! | restrict the axis to a smaller range | `min:max` | `200:700` |
//!
//! A trailing `[default]` group (`200:700[400]`) parses but is rejected: moving the
//! default axis location is not supported.
use vstd::prelude::*;

use crate::coord::{rank, Coord};
use crate::error::{Problem, SliceError};
use crate::text::{
    all_digits, chars_are, chars_of, copy_chars, find, find_char, is_decimal_digit, string_of,
    trim_chars, trimmed,
};

verus! {

/// What the user asked to happen to one axis.
#[derive(Clone, Copy, Debug, PartialEq, Eq, Structural)]
pub enum AxisLimit {
    /// Editor cell left blank: the axis survives with its original extent.
    Full,
    /// A single numeric value: the axis is pinned and disappears from `fvar`.
    Pin(Coord),
    /// A `min:max` range: the axis survives with a smaller extent.
    Range { min: Coord, max: Coord },
}

impl AxisLimit {
    /// True when this limit leaves the axis present in the output `fvar`.
    pub fn keeps_axis(&self) -> (r: bool)
        ensures
            r == !(*self is Pin),
    {
        match self {
            AxisLimit::Pin(_) => false,
            _ => true,
        }
    }

    /// True when this limit asks for something other than the original design space.
    pub fn is_restriction(&self) -> (r: bool)
        ensures
            r == !(*self is Full),
    {
        match self {
            AxisLimit::Full => false,
            _ => true,
        }
    }
}

/// An Axis Editor cell that was understood, with its numbers as they were typed.
#[derive(Clone, Debug, PartialEq, Eq)]
pub enum AxisEntry {
    Full,
    Pin(String),
    Range { start: String, end: String },
}

/// What an [`AxisEntry`] holds.
pub enum EntryView {
    Full,
    Pin(Seq<char>),
    Range { start: Seq<char>, end: Seq<char> },
}

impl View for AxisEntry {
    type V = EntryView;

    open spec fn view(&self) -> EntryView {
        match *self {
            AxisEntry::Full => EntryView::Full,
            AxisEntry::Pin(text) => EntryView::Pin(text@),
            AxisEntry::Range { start, end } => EntryView::Range { start: start@, end: end@ },
        }
    }
}

/// An optionally signed decimal number. This leaves out `1e3`, `inf` and `NaN`, none of
/// which is a meaningful axis coordinate.
pub open spec fn is_number(text: Seq<char>) -> bool {
    let body = if text.len() > 0 && text[0] == '-' {
        text.skip(1)
    } else {
        text
    };
    let dot = find(body, '.');
    &&& body.take(dot).len() > 0
    &&& all_digits(body.take(dot))
    &&& dot < body.len() ==> body.skip(dot + 1).len() > 0 && all_digits(body.skip(dot + 1))
}

/// What one Axis Editor cell means, or what is wrong with it.
pub open spec fn entry_of(input: Seq<char>, axis: Seq<char>) -> Result<EntryView, Problem> {
    let text = trimmed(input);
    let colon = find(text, ':');
    if text.len() == 0 {
        Ok(EntryView::Full)
    } else if colon >= text.len() {
        if is_number(text) {
            Ok(EntryView::Pin(text))
        } else {
            Err(Problem::AxisValue { value: text, axis })
        }
    } else {
        let start = trimmed(text.take(colon));
        let rest = text.skip(colon + 1);
        let bracket = find(rest, '[');
        let end = trimmed(rest.take(bracket));
        let group = trimmed(rest.skip(bracket));
        if bracket < rest.len() && !is_group(group) {
            Err(Problem::AxisRange { value: text, axis })
        } else if !is_number(start) {
            Err(Problem::AxisValue { value: start, axis })
        } else if !is_number(end) {
            Err(Problem::AxisValue { value: end, axis })
        } else if bracket < rest.len() {
            Err(Problem::DefaultMoveUnsupported { axis })
        } else {
            Ok(EntryView::Range { start, end })
        }
    }
}

/// A text in square brackets.
pub open spec fn is_group(text: Seq<char>) -> bool {
    text.len() >= 2 && text[0] == '[' && text.last() == ']'
}

pub open spec fn digits_from(s: Seq<char>, from: int, to: int) -> bool {
    forall|i: int| from <= i < to ==> is_decimal_digit(#[trigger] s[i])
}

fn digits_between(s: &[char], from: usize, to: usize) -> (r: bool)
    requires
        from <= to <= s@.len(),
    ensures
        r == (from < to && all_digits(s@.subrange(from as int, to as int))),
{
    let ghost part = s@.subrange(from as int, to as int);
    for i in from..to
        invariant
            from <= to <= s@.len(),
            part == s@.subrange(from as int, to as int),
            digits_from(s@, from as int, i as int),
    {
        let c: char = s[i];
        if !('0' <= c && c <= '9') {
            assert(!is_decimal_digit(part[i - from]));
            return false;
        }
    }
    assert(all_digits(part));
    from < to
}

fn number(text: &[char]) -> (r: bool)
    ensures
        r == is_number(text@),
{
    let body: Vec<char> = if text.len() > 0 && text[0] == '-' {
        copy_chars(text, 1, text.len())
    } else {
        copy_chars(text, 0, text.len())
    };
    assert(body@ =~= if text@.len() > 0 && text@[0] == '-' {
        text@.skip(1)
    } else {
        text@
    });
    let dot: usize = find_char(body.as_slice(), '.');
    assert(body@.subrange(0, dot as int) =~= body@.take(dot as int));
    if !digits_between(body.as_slice(), 0, dot) {
        return false;
    }
    if dot < body.len() {
        assert(body@.subrange(dot + 1, body@.len() as int) =~= body@.skip(dot + 1));
        digits_between(body.as_slice(), dot + 1, body.len())
    } else {
        true
    }
}

/// Parse one Axis Editor cell, up to its numbers.
///
/// `axis_tag` is only used to build error messages that name the offending axis.
pub fn parse_axis_limit(input: &str, axis_tag: &str) -> (r: Result<AxisEntry, SliceError>)
    ensures
        match r {
            Ok(entry) => entry_of(input@, axis_tag@) == Ok::<EntryView, Problem>(entry@),
            Err(e) => entry_of(input@, axis_tag@) == Err::<EntryView, Problem>(e@),
        },
{
    let all: Vec<char> = chars_of(input);
    let text: Vec<char> = trim_chars(all.as_slice());
    if text.len() == 0 {
        return Ok(AxisEntry::Full);
    }
    let colon: usize = find_char(text.as_slice(), ':');
    if colon >= text.len() {
        // A bare number pins the axis.
        if number(text.as_slice()) {
            return Ok(AxisEntry::Pin(string_of(&text)));
        }
        return Err(SliceError::AxisValue { value: string_of(&text), axis: axis_tag.to_owned() });
    }
    let before: Vec<char> = copy_chars(text.as_slice(), 0, colon);
    assert(before@ =~= text@.take(colon as int));
    let start: Vec<char> = trim_chars(before.as_slice());
    let rest: Vec<char> = copy_chars(text.as_slice(), colon + 1, text.len());
    assert(rest@ =~= text@.skip(colon + 1));
    let bracket: usize = find_char(rest.as_slice(), '[');
    let middle: Vec<char> = copy_chars(rest.as_slice(), 0, bracket);
    assert(middle@ =~= rest@.take(bracket as int));
    let end: Vec<char> = trim_chars(middle.as_slice());
    if bracket < rest.len() {
        let tail: Vec<char> = copy_chars(rest.as_slice(), bracket, rest.len());
        assert(tail@ =~= rest@.skip(bracket as int));
        let group: Vec<char> = trim_chars(tail.as_slice());
        if !(group.len() >= 2 && group[0] == '[' && group[group.len() - 1] == ']') {
            return Err(
                SliceError::AxisRange { value: string_of(&text), axis: axis_tag.to_owned() },
            );
        }
    }
    if !number(start.as_slice()) {
        return Err(SliceError::AxisValue { value: string_of(&start), axis: axis_tag.to_owned() });
    }
    if !number(end.as_slice()) {
        return Err(SliceError::AxisValue { value: string_of(&end), axis: axis_tag.to_owned() });
    }
    if bracket < rest.len() {
        return Err(SliceError::DefaultMoveUnsupported { axis: axis_tag.to_owned() });
    }
    Ok(AxisEntry::Range { start: string_of(&start), end: string_of(&end) })
}

/// The limit that a range from `start` to `end` asks for. The pair is sorted, so `800:400`
/// means the same as `400:800`.
pub open spec fn sorted_range(start: Coord, end: Coord) -> AxisLimit {
    if rank(start) <= rank(end) {
        AxisLimit::Range { min: start, max: end }
    } else {
        AxisLimit::Range { min: end, max: start }
    }
}

/// The limit that a typed range asks for, from the values of its two numbers.
pub fn range_limit(start: Coord, end: Coord) -> (r: AxisLimit)
    ensures
        r == sorted_range(start, end),
{
    if start.le(end) {
        AxisLimit::Range { min: start, max: end }
    } else {
        AxisLimit::Range { min: end, max: start }
    }
}

/// A range means the same whichever of its ends is typed first, but for the sign of a zero.
pub proof fn a_range_has_no_direction(start: Coord, end: Coord)
    requires
        rank(start) == rank(end) ==> start == end,
    ensures
        sorted_range(start, end) == sorted_range(end, start),
{
}

/// One axis as the font declares it in `fvar`.
#[derive(Clone, Debug, PartialEq, Eq)]
pub struct AxisSpec {
    pub tag: String,
    pub min: Coord,
    pub default: Coord,
    pub max: Coord,
    /// The axis name from the `name` table, when the font provides one.
    pub name: Option<String>,
    /// True when the axis is flagged hidden in `fvar`.
    pub hidden: bool,
}

/// What an [`AxisSpec`] holds.
#[verifier::ext_equal]
pub struct AxisView {
    pub tag: Seq<char>,
    pub min: Coord,
    pub default: Coord,
    pub max: Coord,
    pub name: Option<Seq<char>>,
    pub hidden: bool,
}

/// The text of an optional string.
pub open spec fn optional_text(text: Option<String>) -> Option<Seq<char>> {
    match text {
        Some(t) => Some(t@),
        None => None,
    }
}

impl View for AxisSpec {
    type V = AxisView;

    open spec fn view(&self) -> AxisView {
        AxisView {
            tag: self.tag@,
            min: self.min,
            default: self.default,
            max: self.max,
            name: optional_text(self.name),
            hidden: self.hidden,
        }
    }
}

pub open spec fn axis_views(axes: Seq<AxisSpec>) -> Seq<AxisView> {
    axes.map_values(|a: AxisSpec| a@)
}

/// What is wrong with a limit on an axis, if anything is.
pub open spec fn limit_problem(axis: AxisView, limit: AxisLimit) -> Option<Problem> {
    match limit {
        AxisLimit::Full => None,
        AxisLimit::Pin(value) => if rank(value) < rank(axis.min) || rank(value) > rank(axis.max) {
            Some(
                Problem::AxisValueOutOfRange {
                    axis: axis.tag,
                    value: value.bits,
                    min: axis.min.bits,
                    max: axis.max.bits,
                },
            )
        } else {
            None
        },
        AxisLimit::Range { min, max } => if rank(min) < rank(axis.min) || rank(max) > rank(
            axis.max,
        ) {
            Some(
                Problem::AxisRangeOutOfRange {
                    axis: axis.tag,
                    min: min.bits,
                    max: max.bits,
                    axis_min: axis.min.bits,
                    axis_max: axis.max.bits,
                },
            )
        } else if rank(axis.default) < rank(min) || rank(axis.default) > rank(max) {
            // The default location cannot be moved, so a restricted range has to
            // contain it.
            Some(
                Problem::DefaultOutsideRange {
                    axis: axis.tag,
                    min: min.bits,
                    max: max.bits,
                    default: axis.default.bits,
                },
            )
        } else {
            None
        },
    }
}

impl AxisSpec {
    /// The read-only left-hand column of the Axis Editor: `min : max [default]`, from the
    /// three coordinates as they are shown.
    pub fn range_label(min: &str, max: &str, default: &str) -> (r: String)
        ensures
            r@ == min@ + " : "@ + max@ + " ["@ + default@ + "]"@,
    {
        min.to_owned().concat(" : ").concat(max).concat(" [").concat(default).concat("]")
    }

    /// The tooltip on the axis row: a human-readable axis name.
    ///
    /// Registered axes and the Google Fonts axis registry names take precedence over the
    /// font's own `name` record.
    pub fn display_name(&self) -> (r: Option<String>)
        ensures
            optional_text(r) == shown_name(self@),
    {
        match well_known_axis_name(self.tag.as_str()) {
            Some(name) => Some(name.to_owned()),
            None => match &self.name {
                Some(name) => Some(name.as_str().to_owned()),
                None => None,
            },
        }
    }

    /// Validate one user entry against this axis, returning the limit to apply.
    pub fn validate(&self, limit: AxisLimit) -> (r: Result<AxisLimit, SliceError>)
        ensures
            match r {
                Ok(l) => limit_problem(self@, limit) is None && l == limit,
                Err(e) => limit_problem(self@, limit) == Some(e@),
            },
    {
        match limit {
            AxisLimit::Full => Ok(limit),
            AxisLimit::Pin(value) => {
                if value.lt(self.min) || self.max.lt(value) {
                    return Err(
                        SliceError::AxisValueOutOfRange {
                            axis: self.tag.as_str().to_owned(),
                            value: value.bits,
                            min: self.min.bits,
                            max: self.max.bits,
                        },
                    );
                }
                Ok(limit)
            },
            AxisLimit::Range { min, max } => {
                if min.lt(self.min) || self.max.lt(max) {
                    return Err(
                        SliceError::AxisRangeOutOfRange {
                            axis: self.tag.as_str().to_owned(),
                            min: min.bits,
                            max: max.bits,
                            axis_min: self.min.bits,
                            axis_max: self.max.bits,
                        },
                    );
                }
                if self.default.lt(min) || max.lt(self.default) {
                    return Err(
                        SliceError::DefaultOutsideRange {
                            axis: self.tag.as_str().to_owned(),
                            min: min.bits,
                            max: max.bits,
                            default: self.default.bits,
                        },
                    );
                }
                Ok(limit)
            },
        }
    }
}

/// The name that the axis registries give a tag.
pub open spec fn registry_name(tag: Seq<char>) -> Option<Seq<char>> {
    if tag == "ital"@ {
        Some("Italic"@)
    } else if tag == "opsz"@ {
        Some("Optical size"@)
    } else if tag == "slnt"@ {
        Some("Slant"@)
    } else if tag == "wdth"@ {
        Some("Width"@)
    } else if tag == "wght"@ {
        Some("Weight"@)
    } else if tag == "CASL"@ {
        Some("Casual"@)
    } else if tag == "CRSV"@ {
        Some("Cursive"@)
    } else if tag == "XPRN"@ {
        Some("Expression"@)
    } else if tag == "GRAD"@ {
        Some("Grade"@)
    } else if tag == "MONO"@ {
        Some("Monospace"@)
    } else if tag == "SOFT"@ {
        Some("Softness"@)
    } else if tag == "WONK"@ {
        Some("Wonky"@)
    } else {
        None
    }
}

/// The name shown for an axis: the registered one, or else the font's own.
pub open spec fn shown_name(axis: AxisView) -> Option<Seq<char>> {
    match registry_name(axis.tag) {
        Some(name) => Some(name),
        None => axis.name,
    }
}

/// Registered OpenType axes plus the Google Fonts axis registry entries.
pub fn well_known_axis_name(tag: &str) -> (r: Option<&'static str>)
    ensures
        match r {
            Some(name) => registry_name(tag@) == Some(name@),
            None => registry_name(tag@) is None,
        },
{
    let chars: Vec<char> = chars_of(tag);
    if chars_are(chars.as_slice(), "ital") {
        Some("Italic")
    } else if chars_are(chars.as_slice(), "opsz") {
        Some("Optical size")
    } else if chars_are(chars.as_slice(), "slnt") {
        Some("Slant")
    } else if chars_are(chars.as_slice(), "wdth") {
        Some("Width")
    } else if chars_are(chars.as_slice(), "wght") {
        Some("Weight")
    } else if chars_are(chars.as_slice(), "CASL") {
        Some("Casual")
    } else if chars_are(chars.as_slice(), "CRSV") {
        Some("Cursive")
    } else if chars_are(chars.as_slice(), "XPRN") {
        Some("Expression")
    } else if chars_are(chars.as_slice(), "GRAD") {
        Some("Grade")
    } else if chars_are(chars.as_slice(), "MONO") {
        Some("Monospace")
    } else if chars_are(chars.as_slice(), "SOFT") {
        Some("Softness")
    } else if chars_are(chars.as_slice(), "WONK") {
        Some("Wonky")
    } else {
        None
    }
}

/// A fraction without the zeros it ends with, but with one digit after its point.
pub open spec fn short_fraction(text: Seq<char>) -> Seq<char>
    decreases text.len(),
{
    if text.len() > 0 && text.last() == '0' {
        short_fraction(text.drop_last())
    } else if text.len() > 0 && text.last() == '.' {
        text.push('0')
    } else {
        text
    }
}

/// Shorten the coordinate `text`, which was written with four decimals, to the digits that
/// matter.
pub fn fmt_coord(text: &str) -> (r: String)
    ensures
        r@ == short_fraction(text@),
{
    let chars: Vec<char> = chars_of(text);
    let mut to: usize = chars.len();
    assert(chars@.take(to as int) =~= chars@);
    while to > 0 && chars[to - 1] == '0'
        invariant
            to <= chars@.len(),
            short_fraction(chars@.take(to as int)) == short_fraction(text@),
        decreases to,
    {
        assert(chars@.take(to as int).last() == '0');
        assert(chars@.take(to as int).drop_last() =~= chars@.take(to - 1));
        to = to - 1;
    }
    let mut out: Vec<char> = copy_chars(chars.as_slice(), 0, to);
    assert(out@ =~= chars@.take(to as int));
    if to > 0 && chars[to - 1] == '.' {
        out.push('0');
    }
    string_of(&out)
}

} // verus!
