//! What the command line asks for, and what it reports.
use vstd::prelude::*;

use crate::axes::{
    axis_views, entry_of, parse_axis_limit, shown_name, AxisEntry, AxisLimit, AxisSpec, AxisView,
    EntryView,
};
use crate::bits::{
    any_set, binary_text, contradictions, describe_bits, fs_selection_defs, head_mac_style,
    mac_style_defs, os2_fs_selection, set_bit, set_labels, texts, with_bit, BitFlags,
};
use crate::error::{shown_coordinates, text_views, wording};
use crate::font::{
    flags_in, font_names, has_fvar, name_text, rows_in, tables_in, version_text, SliceFont,
};
use crate::names::{label_text, row_label, text_of, NameEdits, NAME_EDITOR_IDS};
use crate::tables::{table_bytes, GLYF};
use crate::text::{
    chars_are, chars_of, copy_chars, decimal, decimal_of, find, find_char, join2, join3, lowercase,
    lowercased, parse_within, parsed_within, string_of, trim_chars, trimmed,
};

verus! {

// ------------------------------------------------------------------------------ arguments

/// A text in quotes, with the characters escaped that would not be readable.
pub uninterp spec fn quoted(text: Seq<char>) -> Seq<char>;

/// Calls the `Debug` formatting of `str`. The result has a name.
#[verifier::external_body]
fn quote(text: &str) -> (r: String)
    ensures
        r@ == quoted(text@),
{
    format!("{text:?}")
}

/// A text, cut at its first equals sign.
pub open spec fn cut_once(text: Seq<char>) -> Option<(Seq<char>, Seq<char>)> {
    let at = find(text, '=');
    if at < text.len() {
        Some((text.take(at), text.skip(at + 1)))
    } else {
        None
    }
}

fn split_once(text: &str) -> (r: Option<(Vec<char>, Vec<char>)>)
    ensures
        match r {
            Some((a, b)) => cut_once(text@) == Some((a@, b@)),
            None => cut_once(text@) is None,
        },
{
    let chars: Vec<char> = chars_of(text);
    let at: usize = find_char(chars.as_slice(), '=');
    if at >= chars.len() {
        return None;
    }
    let a: Vec<char> = copy_chars(chars.as_slice(), 0, at);
    let b: Vec<char> = copy_chars(chars.as_slice(), at + 1, chars.len());
    assert(a@ =~= text@.take(at as int));
    assert(b@ =~= text@.skip(at + 1));
    Some((a, b))
}

/// What a word says about a bit.
pub open spec fn switch_of(word: Seq<char>) -> Option<bool> {
    if word == "on"@ || word == "true"@ || word == "1"@ || word == "yes"@ {
        Some(true)
    } else if word == "off"@ || word == "false"@ || word == "0"@ || word == "no"@ {
        Some(false)
    } else {
        None
    }
}

/// The bit that an argument of the form `BIT=on|off` names and whether it is to be set, or
/// what is wrong with the argument.
pub open spec fn bit_arg(arg: Seq<char>, flag: Seq<char>) -> Result<(u8, bool), Seq<char>> {
    match cut_once(arg) {
        None => Err(flag + " wants BIT=on|off, got "@ + quoted(arg)),
        Some((bit, state)) => match parsed_within(trimmed(bit), 255) {
            None => Err(quoted(bit) + " is not a bit number"@),
            Some(n) => {
                let word = lowercased(trimmed(state));
                match switch_of(word) {
                    None => Err(quoted(word) + " is not on or off"@),
                    Some(on) => Ok((n as u8, on)),
                }
            },
        },
    }
}

/// Read an argument of the form `BIT=on|off`.
pub fn parse_bit_arg(arg: &str, flag: &str) -> (r: Result<(u8, bool), String>)
    ensures
        match r {
            Ok(parsed) => bit_arg(arg@, flag@) == Ok::<(u8, bool), Seq<char>>(parsed),
            Err(text) => bit_arg(arg@, flag@) == Err::<(u8, bool), Seq<char>>(text@),
        },
{
    let (bit, state): (Vec<char>, Vec<char>) = match split_once(arg) {
        Some(parts) => parts,
        None => {
            return Err(join3(flag, " wants BIT=on|off, got ", quote(arg).as_str()));
        },
    };
    let number: u64 = match parse_within(trim_chars(bit.as_slice()).as_slice(), 255) {
        Some(number) => number,
        None => {
            let bit: String = string_of(bit.as_slice());
            return Err(join2(quote(bit.as_str()).as_str(), " is not a bit number"));
        },
    };
    let state: String = string_of(trim_chars(state.as_slice()).as_slice());
    let word: Vec<char> = lowercase(state.as_str());
    let w: &[char] = word.as_slice();
    if chars_are(w, "on") || chars_are(w, "true") || chars_are(w, "1") || chars_are(w, "yes") {
        return Ok((number as u8, true));
    }
    if chars_are(w, "off") || chars_are(w, "false") || chars_are(w, "0") || chars_are(w, "no") {
        return Ok((number as u8, false));
    }
    let word: String = string_of(w);
    Err(join2(quote(word.as_str()).as_str(), " is not on or off"))
}

/// The name ID that an argument of the form `ID=TEXT` names and its text, or what is wrong
/// with the argument.
pub open spec fn name_arg(arg: Seq<char>) -> Result<(u16, Seq<char>), Seq<char>> {
    match cut_once(arg) {
        None => Err("--name wants ID=TEXT, got "@ + quoted(arg)),
        Some((id, text)) => match parsed_within(trimmed(id), 65535) {
            None => Err(quoted(id) + " is not a name ID"@),
            Some(n) => Ok((n as u16, text)),
        },
    }
}

/// Read an argument of the form `ID=TEXT`.
pub fn parse_name_arg(arg: &str) -> (r: Result<(u16, String), String>)
    ensures
        match r {
            Ok((id, text)) => name_arg(arg@) == Ok::<(u16, Seq<char>), Seq<char>>((id, text@)),
            Err(text) => name_arg(arg@) == Err::<(u16, Seq<char>), Seq<char>>(text@),
        },
{
    let (id, text): (Vec<char>, Vec<char>) = match split_once(arg) {
        Some(parts) => parts,
        None => {
            return Err(join2("--name wants ID=TEXT, got ", quote(arg).as_str()));
        },
    };
    match parse_within(trim_chars(id.as_slice()).as_slice(), 65535) {
        Some(number) => Ok((number as u16, string_of(text.as_slice()))),
        None => {
            let id: String = string_of(id.as_slice());
            Err(join2(quote(id.as_str()).as_str(), " is not a name ID"))
        },
    }
}

/// The first axis with a tag, if there is one.
pub open spec fn axis_index(axes: Seq<AxisView>, tag: Seq<char>) -> Option<int>
    decreases axes.len(),
{
    if axes.len() == 0 {
        None
    } else {
        match axis_index(axes.drop_last(), tag) {
            Some(i) => Some(i),
            None => if axes.last().tag == tag {
                Some(axes.len() - 1)
            } else {
                None
            },
        }
    }
}

/// The axis that an argument of the form `TAG=VALUE` names and its entry, or what is wrong
/// with the argument.
pub open spec fn axis_arg(arg: Seq<char>, axes: Seq<AxisView>) -> Result<
    (int, EntryView),
    Seq<char>,
> {
    match cut_once(arg) {
        None => Err("--axis wants TAG=VALUE, got "@ + quoted(arg)),
        Some((tag, value)) => match axis_index(axes, tag) {
            None => Err("the font has no "@ + tag + " axis"@),
            Some(i) => match entry_of(value, tag) {
                Err(e) => Err(wording(e, Seq::empty())),
                Ok(entry) => Ok((i, entry)),
            },
        },
    }
}

/// Read an argument of the form `TAG=VALUE`, in the syntax of the Axis Editor.
pub fn parse_axis_arg(arg: &str, axes: &Vec<AxisSpec>) -> (r: Result<(usize, AxisEntry), String>)
    ensures
        match r {
            Ok((i, entry)) => axis_arg(arg@, axis_views(axes@)) == Ok::<
                (int, EntryView),
                Seq<char>,
            >((i as int, entry@)) && i < axes@.len(),
            Err(text) => axis_arg(arg@, axis_views(axes@)) == Err::<(int, EntryView), Seq<char>>(
                text@,
            ),
        },
{
    let ghost views = axis_views(axes@);
    let (tag, value): (Vec<char>, Vec<char>) = match split_once(arg) {
        Some(parts) => parts,
        None => {
            return Err(join2("--axis wants TAG=VALUE, got ", quote(arg).as_str()));
        },
    };
    let tag: String = string_of(tag.as_slice());
    let mut found: Option<usize> = None;
    for i in 0..axes.len()
        invariant
            views == axis_views(axes@),
            match found {
                Some(k) => axis_index(views.take(i as int), tag@) == Some(k as int) && k < i,
                None => axis_index(views.take(i as int), tag@) is None,
            },
    {
        assert(views.take(i + 1).drop_last() =~= views.take(i as int));
        assert(views[i as int] == axes@[i as int]@);
        if found.is_none() && chars_are(
            chars_of(axes[i].tag.as_str()).as_slice(),
            tag.as_str(),
        ) {
            found = Some(i);
        }
    }
    assert(views.take(views.len() as int) =~= views);
    let index: usize = match found {
        Some(index) => index,
        None => {
            return Err(join3("the font has no ", tag.as_str(), " axis"));
        },
    };
    let value: String = string_of(value.as_slice());
    match parse_axis_limit(value.as_str(), tag.as_str()) {
        Ok(entry) => Ok((index, entry)),
        Err(e) => {
            let shown: Vec<String> = Vec::new();
            assert(text_views(shown@) =~= Seq::<Seq<char>>::empty());
            assert(shown_coordinates(e@) =~= Seq::<u64>::empty());
            Err(e.message(&shown))
        },
    }
}

/// What is asked of an axis, with its coordinates written as in `first` and `second`.
pub open spec fn limit_text(limit: AxisLimit, first: Seq<char>, second: Seq<char>) -> Seq<char> {
    match limit {
        AxisLimit::Full => "whole original range"@,
        AxisLimit::Pin(_) => "pinned at "@ + first,
        AxisLimit::Range { .. } => "restricted to "@ + first + ":"@ + second,
    }
}

/// Echo what is asked of an axis, so a transcript says what was actually asked for.
pub fn describe_limit(tag: &str, limit: AxisLimit, first: &str, second: &str) -> (r: String)
    ensures
        r@ == "  "@ + padded(tag@, 6) + " "@ + limit_text(limit, first@, second@),
{
    let text: String = match limit {
        AxisLimit::Full => "whole original range".to_owned(),
        AxisLimit::Pin(_) => join2("pinned at ", first),
        AxisLimit::Range { .. } => join3("restricted to ", first, ":").concat(second),
    };
    "  ".to_owned().concat(pad(tag, 6).as_str()).concat(" ").concat(text.as_str())
}

/// The name edits after the first `n` arguments, or what is wrong with the first bad one.
pub open spec fn named_by(
    edits: Map<u16, Seq<char>>,
    args: Seq<Seq<char>>,
    n: int,
) -> Result<Map<u16, Seq<char>>, Seq<char>>
    decreases n,
{
    if n <= 0 {
        Ok(edits)
    } else {
        match named_by(edits, args, n - 1) {
            Err(text) => Err(text),
            Ok(before) => match name_arg(args[n - 1]) {
                Err(text) => Err(text),
                Ok((id, text)) => Ok(before.insert(id, text)),
            },
        }
    }
}

/// A field of bits after the first `n` arguments, or what is wrong with the first bad one.
/// The field has sixteen bits.
pub open spec fn flagged_by(field: u16, args: Seq<Seq<char>>, flag: Seq<char>, n: int) -> Result<
    u16,
    Seq<char>,
>
    decreases n,
{
    if n <= 0 {
        Ok(field)
    } else {
        match flagged_by(field, args, flag, n - 1) {
            Err(text) => Err(text),
            Ok(before) => match bit_arg(args[n - 1], flag) {
                Err(text) => Err(text),
                Ok((bit, on)) => if bit < 16 {
                    Ok(with_bit(before, bit, on))
                } else {
                    Err(decimal(bit as nat) + " is not one of the sixteen bits"@)
                },
            },
        }
    }
}

proof fn lemma_named_by_fails(
    edits: Map<u16, Seq<char>>,
    args: Seq<Seq<char>>,
    n: int,
    m: int,
)
    requires
        0 <= n <= m,
        named_by(edits, args, n) is Err,
    ensures
        named_by(edits, args, m) == named_by(edits, args, n),
    decreases m,
{
    if n < m {
        lemma_named_by_fails(edits, args, n, m - 1);
    }
}

proof fn lemma_flagged_by_fails(field: u16, args: Seq<Seq<char>>, flag: Seq<char>, n: int, m: int)
    requires
        0 <= n <= m,
        flagged_by(field, args, flag, n) is Err,
    ensures
        flagged_by(field, args, flag, m) == flagged_by(field, args, flag, n),
    decreases m,
{
    if n < m {
        lemma_flagged_by_fails(field, args, flag, n, m - 1);
    }
}

/// Set the names that arguments of the form `ID=TEXT` ask for, in their order.
pub fn set_names(edits: &mut NameEdits, args: &Vec<String>) -> (r: Result<(), String>)
    ensures
        match r {
            Ok(_) => named_by(old(edits)@, text_views(args@), args@.len() as int) == Ok::<
                Map<u16, Seq<char>>,
                Seq<char>,
            >(final(edits)@),
            Err(text) => named_by(old(edits)@, text_views(args@), args@.len() as int) == Err::<
                Map<u16, Seq<char>>,
                Seq<char>,
            >(text@),
        },
{
    let ghost start = edits@;
    let ghost views = text_views(args@);
    for i in 0..args.len()
        invariant
            start == old(edits)@,
            views == text_views(args@),
            named_by(start, views, i as int) == Ok::<Map<u16, Seq<char>>, Seq<char>>(edits@),
    {
        assert(views[i as int] == args@[i as int]@);
        match parse_name_arg(args[i].as_str()) {
            Ok((id, text)) => {
                edits.set(id, text.as_str());
            },
            Err(text) => {
                proof {
                    assert(named_by(start, views, i + 1) == Err::<
                        Map<u16, Seq<char>>,
                        Seq<char>,
                    >(text@));
                    lemma_named_by_fails(start, views, i + 1, args@.len() as int);
                }
                return Err(text);
            },
        }
    }
    Ok(())
}

/// Set and clear the bits that arguments of the form `BIT=on|off` ask for, in their order.
pub fn set_flags(field: u16, args: &Vec<String>, flag: &str) -> (r: Result<u16, String>)
    ensures
        match r {
            Ok(v) => flagged_by(field, text_views(args@), flag@, args@.len() as int) == Ok::<
                u16,
                Seq<char>,
            >(v),
            Err(text) => flagged_by(field, text_views(args@), flag@, args@.len() as int) == Err::<
                u16,
                Seq<char>,
            >(text@),
        },
{
    let ghost views = text_views(args@);
    let mut v: u16 = field;
    for i in 0..args.len()
        invariant
            views == text_views(args@),
            flagged_by(field, views, flag@, i as int) == Ok::<u16, Seq<char>>(v),
    {
        assert(views[i as int] == args@[i as int]@);
        match parse_bit_arg(args[i].as_str(), flag) {
            Ok((bit, on)) => {
                if bit >= 16 {
                    proof {
                        lemma_flagged_by_fails(field, views, flag@, i + 1, views.len() as int);
                    }
                    return Err(
                        join2(decimal_of(bit as u64).as_str(), " is not one of the sixteen bits"),
                    );
                }
                v = set_bit(v, bit, on);
            },
            Err(text) => {
                proof {
                    lemma_flagged_by_fails(field, views, flag@, i + 1, views.len() as int);
                }
                return Err(text);
            },
        }
    }
    Ok(v)
}

// ----------------------------------------------------------------------------- the report

/// A text, filled up with spaces to a width.
pub open spec fn padded(text: Seq<char>, width: int) -> Seq<char> {
    if text.len() >= width {
        text
    } else {
        text + Seq::new((width - text.len()) as nat, |i: int| ' ')
    }
}

fn pad(text: &str, width: usize) -> (r: String)
    ensures
        r@ == padded(text@, width as int),
{
    let mut out: Vec<char> = chars_of(text);
    let ghost start = out@;
    while out.len() < width
        invariant
            start.len() <= out@.len(),
            out@ == start + Seq::new((out@.len() - start.len()) as nat, |i: int| ' '),
            out@.len() <= width || out@ == start,
        decreases width - out@.len(),
    {
        let ghost n = out@.len() - start.len();
        out.push(' ');
        assert(out@ =~= start + Seq::new((n + 1) as nat, |i: int| ' '));
    }
    assert(out@ =~= padded(text@, width as int));
    string_of(out.as_slice())
}

/// A number of at most two digits, filled up with spaces on its left to a width of three.
pub open spec fn id_column(id: int) -> Seq<char> {
    if id < 10 {
        "  "@ + decimal(id as nat)
    } else {
        " "@ + decimal(id as nat)
    }
}

/// The lines about the font as a whole.
pub open spec fn family_lines(
    family: Option<Seq<char>>,
    version: Option<Seq<char>>,
    glyphs: int,
    units: int,
    truetype: bool,
) -> Seq<Seq<char>> {
    let first = match family {
        None => Seq::empty(),
        Some(family) => seq![
            match version {
                None => "  "@ + family,
                Some(version) => "  "@ + family + "  "@ + version,
            },
        ],
    };
    first.push(
        "  "@ + decimal(glyphs as nat) + " glyphs, "@ + decimal(units as nat) + " units per em, "@
            + (if truetype {
            "TrueType"@
        } else {
            "CFF"@
        }) + " outlines"@,
    )
}

/// The line about one axis, with its coordinates as they are shown: minimum, maximum and
/// default.
pub open spec fn axis_line(
    axis: AxisView,
    shown: (Seq<char>, Seq<char>, Seq<char>),
) -> Seq<char> {
    let label = shown.0 + " : "@ + shown.1 + " ["@ + shown.2 + "]"@;
    "  "@ + padded(axis.tag, 6) + " "@ + padded(label, 28) + " "@ + (match shown_name(axis) {
        Some(name) => name,
        None => ""@,
    }) + (if axis.hidden {
        "  (hidden)"@
    } else {
        ""@
    })
}

/// The lines about the first `n` axes.
pub open spec fn axis_lines(
    axes: Seq<AxisView>,
    shown: Seq<(Seq<char>, Seq<char>, Seq<char>)>,
    n: int,
) -> Seq<Seq<char>> {
    Seq::new(n as nat, |i: int| axis_line(axes[i], shown[i]))
}

/// The Axis Editor's section. Only it needs a variable font.
pub open spec fn axis_section(
    variable: bool,
    axes: Seq<AxisView>,
    shown: Seq<(Seq<char>, Seq<char>, Seq<char>)>,
) -> Seq<Seq<char>> {
    if variable {
        seq![""@, "Axis Editor"@] + axis_lines(axes, shown, axes.len() as int)
    } else {
        seq![""@, "  Not a variable font: no fvar table, so there is nothing to slice."@]
    }
}

pub open spec fn name_lines(edits: Map<u16, Seq<char>>, ids: Seq<u16>) -> Seq<Seq<char>> {
    ids.map_values(
        |id: u16| "  "@ + padded(label_text(id), 20) + " "@ + text_of(edits, id),
    )
}

/// The lines about the name records with an ID below `n`.
pub open spec fn record_lines(names: Seq<crate::font::NameView>, n: int) -> Seq<Seq<char>>
    decreases n,
{
    if n <= 0 {
        Seq::empty()
    } else {
        match name_text(names, (n - 1) as u16) {
            Some(text) => record_lines(names, n - 1).push(
                "  "@ + id_column(n - 1) + "  "@ + text,
            ),
            None => record_lines(names, n - 1),
        }
    }
}

/// The Name Editor's section, and all name records where they are asked for.
pub open spec fn name_section(names: Seq<crate::font::NameView>, all: bool) -> Seq<Seq<char>> {
    let rows = seq![""@, "Name Editor"@] + name_lines(
        rows_in(names, NAME_EDITOR_IDS@),
        NAME_EDITOR_IDS@,
    );
    if all {
        rows + seq![""@, "All name records"@] + record_lines(names, 26)
    } else {
        rows
    }
}

pub open spec fn described(value: u16, defs: Seq<(u8, Seq<char>, Seq<char>)>) -> Seq<char> {
    if any_set(value, defs) {
        set_labels(value, defs)
    } else {
        "none of the editable bits set"@
    }
}

/// The Bit Flag Editor's section.
pub open spec fn bit_section(bits: BitFlags) -> Seq<Seq<char>> {
    seq![
        ""@,
        "Bit Flag Editor"@,
        "  OS/2.fsSelection  "@ + binary_text(bits.fs_selection) + "  ("@ + described(
            bits.fs_selection,
            fs_selection_defs(),
        ) + ")"@,
        "  head.macStyle     "@ + binary_text(bits.mac_style) + "  ("@ + described(
            bits.mac_style,
            mac_style_defs(),
        ) + ")"@,
    ] + contradictions(bits).map_values(|w: Seq<char>| "  warning: "@ + w)
}

fn push_line(lines: &mut Vec<String>, line: String)
    ensures
        text_views(final(lines)@) == text_views(old(lines)@).push(line@),
{
    let ghost before = text_views(lines@);
    let ghost added = line@;
    lines.push(line);
    assert(text_views(lines@) =~= before.push(added));
}

pub open spec fn coordinate_texts(shown: Seq<(String, String, String)>) -> Seq<
    (Seq<char>, Seq<char>, Seq<char>),
> {
    shown.map_values(|s: (String, String, String)| (s.0@, s.1@, s.2@))
}

fn push_axis_section(
    lines: &mut Vec<String>,
    variable: bool,
    axes: &Vec<AxisSpec>,
    shown: &Vec<(String, String, String)>,
)
    requires
        shown@.len() == axes@.len(),
    ensures
        text_views(final(lines)@) == text_views(old(lines)@) + axis_section(
            variable,
            axis_views(axes@),
            coordinate_texts(shown@),
        ),
{
    let ghost start = text_views(lines@);
    let ghost views = axis_views(axes@);
    let ghost coords = coordinate_texts(shown@);
    push_line(lines, "".to_owned());
    if !variable {
        push_line(
            lines,
            "  Not a variable font: no fvar table, so there is nothing to slice.".to_owned(),
        );
        assert(text_views(lines@) =~= start + axis_section(variable, views, coords));
        return;
    }
    push_line(lines, "Axis Editor".to_owned());
    let ghost head = start + seq![""@, "Axis Editor"@];
    assert(text_views(lines@) =~= head + axis_lines(views, coords, 0));
    for i in 0..axes.len()
        invariant
            shown@.len() == axes@.len(),
            views == axis_views(axes@),
            coords == coordinate_texts(shown@),
            text_views(lines@) == head + axis_lines(views, coords, i as int),
    {
        let axis: &AxisSpec = &axes[i];
        assert(views[i as int] == axis@);
        assert(coords[i as int] == (
            shown@[i as int].0@,
            shown@[i as int].1@,
            shown@[i as int].2@,
        ));
        let label: String = AxisSpec::range_label(
            shown[i].0.as_str(),
            shown[i].1.as_str(),
            shown[i].2.as_str(),
        );
        let name: String = match axis.display_name() {
            Some(name) => name,
            None => "".to_owned(),
        };
        let hidden: &str = if axis.hidden {
            "  (hidden)"
        } else {
            ""
        };
        let ghost before = text_views(lines@);
        let line: String = "  ".to_owned().concat(pad(axis.tag.as_str(), 6).as_str()).concat(
            " ",
        ).concat(pad(label.as_str(), 28).as_str()).concat(" ").concat(name.as_str()).concat(
            hidden,
        );
        assert(line@ == axis_line(views[i as int], coords[i as int]));
        push_line(lines, line);
        assert(text_views(lines@) =~= head + axis_lines(views, coords, i + 1));
    }
    assert(text_views(lines@) =~= start + axis_section(variable, views, coords));
}

fn push_name_section(lines: &mut Vec<String>, font: &SliceFont, all_names: bool)
    ensures
        text_views(final(lines)@) == text_views(old(lines)@) + name_section(
            font_names(tables_in(font@)),
            all_names,
        ),
{
    let ghost start = text_views(lines@);
    let ghost names = font_names(tables_in(font@));
    let edits: NameEdits = font.name_edits();
    push_line(lines, "".to_owned());
    push_line(lines, "Name Editor".to_owned());
    let ghost head = start + seq![""@, "Name Editor"@];
    let ghost ids = NAME_EDITOR_IDS@;
    let ghost wanted = name_lines(edits@, ids);
    assert(text_views(lines@) =~= head + wanted.take(0));
    for i in 0..9usize
        invariant
            ids == NAME_EDITOR_IDS@,
            ids.len() == 9,
            wanted == name_lines(edits@, ids),
            text_views(lines@) == head + wanted.take(i as int),
    {
        let id: u16 = NAME_EDITOR_IDS[i];
        let line: String = "  ".to_owned().concat(pad(row_label(id), 20).as_str()).concat(
            " ",
        ).concat(edits.get_or_empty(id));
        assert(line@ == wanted[i as int]);
        push_line(lines, line);
        assert(text_views(lines@) =~= head + wanted.take(i + 1));
    }
    assert(wanted.take(9) =~= wanted);
    if !all_names {
        assert(text_views(lines@) =~= start + name_section(names, all_names));
        return;
    }
    push_line(lines, "".to_owned());
    push_line(lines, "All name records".to_owned());
    let ghost second = head + wanted + seq![""@, "All name records"@];
    assert(text_views(lines@) =~= second + record_lines(names, 0));
    for id in 0..26u16
        invariant
            names == font_names(tables_in(font@)),
            text_views(lines@) == second + record_lines(names, id as int),
    {
        match font.name_string(id) {
            Some(text) => {
                let column: String = if id < 10 {
                    join2("  ", decimal_of(id as u64).as_str())
                } else {
                    join2(" ", decimal_of(id as u64).as_str())
                };
                let line: String = join3("  ", column.as_str(), "  ").concat(text.as_str());
                push_line(lines, line);
            },
            None => {},
        }
        assert(text_views(lines@) =~= second + record_lines(names, id + 1));
    }
    assert(text_views(lines@) =~= start + name_section(names, all_names));
}

fn push_bit_section(lines: &mut Vec<String>, bits: BitFlags)
    ensures
        text_views(final(lines)@) == text_views(old(lines)@) + bit_section(bits),
{
    let ghost start = text_views(lines@);
    push_line(lines, "".to_owned());
    push_line(lines, "Bit Flag Editor".to_owned());
    let selection: String = describe_bits(bits.fs_selection, &os2_fs_selection());
    push_line(
        lines,
        join2("  OS/2.fsSelection  ", BitFlags::binary(bits.fs_selection).as_str()).concat(
            "  (",
        ).concat(selection.as_str()).concat(")"),
    );
    let style: String = describe_bits(bits.mac_style, &head_mac_style());
    push_line(
        lines,
        join2("  head.macStyle     ", BitFlags::binary(bits.mac_style).as_str()).concat(
            "  (",
        ).concat(style.as_str()).concat(")"),
    );
    let ghost head = text_views(lines@);
    let warnings: Vec<String> = bits.warnings();
    let ghost wanted = contradictions(bits).map_values(|w: Seq<char>| "  warning: "@ + w);
    assert(head =~= head + wanted.take(0));
    for i in 0..warnings.len()
        invariant
            texts(warnings@) == contradictions(bits),
            wanted == contradictions(bits).map_values(|w: Seq<char>| "  warning: "@ + w),
            text_views(lines@) == head + wanted.take(i as int),
    {
        assert(texts(warnings@)[i as int] == warnings@[i as int]@);
        push_line(lines, join2("  warning: ", warnings[i].as_str()));
        assert(text_views(lines@) =~= head + wanted.take(i + 1));
    }
    assert(wanted.take(wanted.len() as int) =~= wanted);
    assert(text_views(lines@) =~= start + bit_section(bits));
}

/// Report what the editors would show for a font: axes, names, bit flags. The coordinates
/// of each axis are written as in `shown`: minimum, maximum and default.
pub fn info(
    font: &SliceFont,
    axes: &Vec<AxisSpec>,
    shown: &Vec<(String, String, String)>,
    all_names: bool,
) -> (lines: Vec<String>)
    requires
        shown@.len() == axes@.len(),
    ensures
        ({
            let tables = tables_in(font@);
            let names = font_names(tables);
            text_views(lines@) == family_lines(
                name_text(names, 1),
                version_text(name_text(names, 5)),
                crate::font::glyph_total(tables) as int,
                crate::font::em_size(tables) as int,
                table_bytes(tables, GLYF) is Some,
            ) + axis_section(has_fvar(tables), axis_views(axes@), coordinate_texts(shown@))
                + name_section(names, all_names) + bit_section(flags_in(tables))
        }),
{
    let ghost tables = tables_in(font@);
    let ghost names = font_names(tables);
    let mut lines: Vec<String> = Vec::new();
    assert(text_views(lines@) =~= Seq::<Seq<char>>::empty());
    match font.family_name() {
        Some(family) => {
            let line: String = join2("  ", family.as_str());
            let line: String = match font.version() {
                Some(version) => line.concat("  ").concat(version.as_str()),
                None => line,
            };
            push_line(&mut lines, line);
        },
        None => {},
    }
    let kind: &str = if font.is_truetype() {
        "TrueType"
    } else {
        "CFF"
    };
    push_line(
        &mut lines,
        join3("  ", decimal_of(font.glyph_count() as u64).as_str(), " glyphs, ").concat(
            decimal_of(font.units_per_em() as u64).as_str(),
        ).concat(" units per em, ").concat(kind).concat(" outlines"),
    );
    assert(text_views(lines@) =~= family_lines(
        name_text(names, 1),
        version_text(name_text(names, 5)),
        crate::font::glyph_total(tables) as int,
        crate::font::em_size(tables) as int,
        table_bytes(tables, GLYF) is Some,
    ));
    push_axis_section(&mut lines, font.is_variable(), axes, shown);
    push_name_section(&mut lines, font, all_names);
    push_bit_section(&mut lines, font.bit_flags());
    lines
}

} // verus!
