//! Everything the editors hold, in a form that survives a page reload.
//!
//! The query format is deliberately legible, because a bookmark that can be read and
//! edited by hand is worth more than a compact one:
//!
//! ```text
//! ?axes=wght=700,CASL=0:1&n1=Recursive%20Sans&n2=Bold&fs=32&mac=1&overlaps=1&format=woff2
//! ```
//!
//! `axes` carries exactly what was typed into the Axis Editor, tag and value. Axes that
//! are not mentioned are left blank.
use vstd::prelude::*;
use vstd::utf8::{
    encode_utf8, encode_utf8_decode_utf8, encode_utf8_valid_utf8, is_ascii_chars,
    is_ascii_chars_encode_utf8,
};

use crate::bits::BitFlags;
use crate::job::OutputFormat;
use crate::names::{text_of, NameEdits, NAME_EDITOR_IDS};
use crate::text::{
    all_digits, char_views, chars_are, chars_of, copy_chars, decimal, decimal_round_trips, find,
    find_char, is_decimal_digit, join_chars, joined, lacks_char, lemma_find_is,
    lemma_joined_first, lossy, parse_within, parsed_within, push_chars, push_decimal, push_text,
    split_chars, split_on, splitting_undoes_joining, string_of, text_from,
};

verus! {

/// The contents of the three editors and the output options.
#[derive(Clone, Debug, PartialEq, Eq)]
pub struct Settings {
    /// `(tag, text)` for every axis whose cell is not empty.
    pub axes: Vec<(String, String)>,
    pub names: NameEdits,
    pub bits: BitFlags,
    pub remove_overlaps: bool,
    pub format: OutputFormat,
}

/// What a [`Settings`] holds.
#[verifier::ext_equal]
pub struct SettingsView {
    pub axes: Seq<(Seq<char>, Seq<char>)>,
    pub names: Map<u16, Seq<char>>,
    pub bits: BitFlags,
    pub remove_overlaps: bool,
    pub format: OutputFormat,
}

pub open spec fn axes_view(axes: Seq<(String, String)>) -> Seq<(Seq<char>, Seq<char>)> {
    axes.map_values(|a: (String, String)| (a.0@, a.1@))
}

impl View for Settings {
    type V = SettingsView;

    open spec fn view(&self) -> SettingsView {
        SettingsView {
            axes: axes_view(self.axes@),
            names: self.names@,
            bits: self.bits,
            remove_overlaps: self.remove_overlaps,
            format: self.format,
        }
    }
}

/// Nothing asked for.
pub open spec fn default_settings() -> SettingsView {
    SettingsView {
        axes: Seq::empty(),
        names: Map::empty(),
        bits: BitFlags { fs_selection: 0, mac_style: 0 },
        remove_overlaps: false,
        format: OutputFormat::Sfnt,
    }
}

// --------------------------------------------------------------------- percent coding

/// True for a byte that stands for itself in a query: letters, digits and `-_.~`.
pub open spec fn is_unreserved(b: u8) -> bool {
    (48 <= b <= 57) || (65 <= b <= 90) || (97 <= b <= 122) || b == 0x2d || b == 0x5f || b == 0x2e
        || b == 0x7e
}

/// The upper-case hexadecimal digit for `d`.
pub open spec fn hex_digit(d: int) -> char {
    if d < 10 {
        (48 + d) as char
    } else {
        (55 + d) as char
    }
}

/// True when `b` is one of the bytes in `keep`.
pub open spec fn is_kept(b: u8, keep: Seq<char>) -> bool {
    exists|i: int| 0 <= i < keep.len() && #[trigger] keep[i] == b as char
}

/// One byte, percent-encoded unless it stands for itself or is kept.
pub open spec fn encoded_byte(b: u8, keep: Seq<char>) -> Seq<char> {
    if is_unreserved(b) || is_kept(b, keep) {
        seq![b as char]
    } else {
        seq!['%', hex_digit(b as int / 16), hex_digit(b as int % 16)]
    }
}

/// Bytes, percent-encoded.
pub open spec fn encoded(bytes: Seq<u8>, keep: Seq<char>) -> Seq<char>
    decreases bytes.len(),
{
    if bytes.len() == 0 {
        Seq::empty()
    } else {
        encoded(bytes.drop_last(), keep) + encoded_byte(bytes.last(), keep)
    }
}

/// The value of a hexadecimal digit, in either case.
pub open spec fn hex_value(b: u8) -> Option<int> {
    if 48 <= b <= 57 {
        Some(b - 48)
    } else if 65 <= b <= 70 {
        Some(b - 55)
    } else if 97 <= b <= 102 {
        Some(b - 87)
    } else {
        None
    }
}

/// The number that two bytes spell in hexadecimal; the first may be a plus sign.
pub open spec fn hex_pair(a: u8, b: u8) -> Option<int> {
    match (hex_value(a), hex_value(b)) {
        (Some(high), Some(low)) => Some(high * 16 + low),
        (None, Some(low)) => if a == 0x2b {
            Some(low)
        } else {
            None
        },
        _ => None,
    }
}

/// What the bytes from `i` on stand for. A percent sign that no number follows stands for
/// itself, and a plus sign for a space.
pub open spec fn decoded_from(bytes: Seq<u8>, i: int) -> Seq<u8>
    decreases bytes.len() - i,
{
    if i < 0 || i >= bytes.len() {
        Seq::empty()
    } else if bytes[i] == 0x25 && i + 2 < bytes.len() && hex_pair(
        bytes[i + 1],
        bytes[i + 2],
    ) is Some {
        seq![(hex_pair(bytes[i + 1], bytes[i + 2])->0) as u8] + decoded_from(bytes, i + 3)
    } else if bytes[i] == 0x2b {
        seq![0x20u8] + decoded_from(bytes, i + 1)
    } else {
        seq![bytes[i]] + decoded_from(bytes, i + 1)
    }
}

/// What a query value stands for.
pub open spec fn decoded(text: Seq<char>) -> Seq<char> {
    text_from(decoded_from(encode_utf8(text), 0))
}

/// Percent-encode, leaving the characters in `keep` alone.
pub fn encode_keeping(text: &str, keep: &str) -> (out: Vec<char>)
    ensures
        out@ == encoded(encode_utf8(text@), keep@),
{
    let bytes: &[u8] = text.as_bytes();
    let keep_chars: Vec<char> = chars_of(keep);
    let mut out: Vec<char> = Vec::new();
    for i in 0..bytes.len()
        invariant
            bytes@ == encode_utf8(text@),
            keep_chars@ == keep@,
            out@ == encoded(bytes@.take(i as int), keep@),
    {
        let b: u8 = bytes[i];
        let c: char = b as char;
        let unreserved: bool = (48 <= b && b <= 57) || (65 <= b && b <= 90) || (97 <= b && b
            <= 122) || b == 0x2d || b == 0x5f || b == 0x2e || b == 0x7e;
        let kept: bool = find_char(keep_chars.as_slice(), c) < keep_chars.len();
        proof {
            crate::text::lemma_find_from(keep@, c, 0);
            if kept {
                assert(keep@[find(keep@, c)] == b as char);
            } else {
                assert(!is_kept(b, keep@));
            }
            assert(bytes@.take(i + 1).drop_last() =~= bytes@.take(i as int));
        }
        let ghost before = out@;
        if unreserved || kept {
            out.push(c);
        } else {
            out.push('%');
            out.push(hex_char(b / 16));
            out.push(hex_char(b % 16));
        }
        assert(out@ =~= before + encoded_byte(b, keep@));
    }
    assert(bytes@.take(bytes@.len() as int) =~= bytes@);
    out
}

/// The upper-case hexadecimal digit for `d`.
pub fn hex_char(d: u8) -> (c: char)
    requires
        d < 16,
    ensures
        c == hex_digit(d as int),
{
    if d < 10 {
        (48 + d) as char
    } else {
        (55 + d) as char
    }
}

fn hex_digit_value(b: u8) -> (r: Option<u8>)
    ensures
        match r {
            Some(v) => hex_value(b) == Some(v as int) && v < 16,
            None => hex_value(b) is None,
        },
{
    if 48 <= b && b <= 57 {
        Some(b - 48)
    } else if 65 <= b && b <= 70 {
        Some(b - 55)
    } else if 97 <= b && b <= 102 {
        Some(b - 87)
    } else {
        None
    }
}

fn hex_pair_value(a: u8, b: u8) -> (r: Option<u8>)
    ensures
        match r {
            Some(v) => hex_pair(a, b) == Some(v as int),
            None => hex_pair(a, b) is None,
        },
{
    match (hex_digit_value(a), hex_digit_value(b)) {
        (Some(high), Some(low)) => Some(high * 16 + low),
        (None, Some(low)) => if a == 0x2b {
            Some(low)
        } else {
            None
        },
        _ => None,
    }
}

/// Undo percent-encoding.
pub fn decode(text: &str) -> (out: String)
    ensures
        out@ == decoded(text@),
{
    let bytes: &[u8] = text.as_bytes();
    let mut out: Vec<u8> = Vec::new();
    let mut i: usize = 0;
    while i < bytes.len()
        invariant
            i <= bytes@.len(),
            out@ + decoded_from(bytes@, i as int) == decoded_from(bytes@, 0),
        decreases bytes@.len() - i,
    {
        let ghost before = out@;
        let ghost at = i as int;
        let b: u8 = bytes[i];
        let escaped: Option<u8> = if b == 0x25 && bytes.len() - i > 2 {
            hex_pair_value(bytes[i + 1], bytes[i + 2])
        } else {
            None
        };
        match escaped {
            Some(v) => {
                out.push(v);
                i = i + 3;
            },
            None => {
                out.push(
                    if b == 0x2b {
                        0x20
                    } else {
                        b
                    },
                );
                i = i + 1;
            },
        }
        assert(out@ + decoded_from(bytes@, i as int) =~= before + decoded_from(bytes@, at));
    }
    assert(out@ =~= decoded_from(bytes@, 0));
    lossy(out.as_slice())
}

// ------------------------------------------------------------------------- the query

/// `tag=text` for one axis.
pub open spec fn axis_text(axis: (Seq<char>, Seq<char>)) -> Seq<char> {
    axis.0 + seq!['='] + axis.1
}

/// All axes, with commas between them.
pub open spec fn axes_text(axes: Seq<(Seq<char>, Seq<char>)>) -> Seq<char> {
    joined(axes.map_values(|a: (Seq<char>, Seq<char>)| axis_text(a)), seq![','])
}

/// The part for the axes: none when there are none.
pub open spec fn axes_part(axes: Seq<(Seq<char>, Seq<char>)>) -> Seq<Seq<char>> {
    if axes.len() == 0 {
        Seq::empty()
    } else {
        seq!["axes="@ + encoded(encode_utf8(axes_text(axes)), "=,:"@)]
    }
}

/// The key of a row of the Name Editor.
pub open spec fn row_key(id: u16) -> Seq<char> {
    seq!['n'] + decimal(id as nat)
}

/// The parts for those of the rows `ids` that hold text.
pub open spec fn name_parts(names: Map<u16, Seq<char>>, ids: Seq<u16>) -> Seq<Seq<char>>
    decreases ids.len(),
{
    if ids.len() == 0 {
        Seq::empty()
    } else {
        let before = name_parts(names, ids.drop_last());
        let text = text_of(names, ids.last());
        if text.len() > 0 {
            before.push(row_key(ids.last()) + seq!['='] + encoded(encode_utf8(text), ""@))
        } else {
            before
        }
    }
}

/// The part for a bit field: none when no bit is set.
pub open spec fn field_part(key: Seq<char>, value: u16) -> Seq<Seq<char>> {
    if value == 0 {
        Seq::empty()
    } else {
        seq![key + seq!['='] + decimal(value as nat)]
    }
}

pub open spec fn overlaps_part(remove_overlaps: bool) -> Seq<Seq<char>> {
    if remove_overlaps {
        seq!["overlaps=1"@]
    } else {
        Seq::empty()
    }
}

pub open spec fn format_part(format: OutputFormat) -> Seq<Seq<char>> {
    match format {
        OutputFormat::Sfnt => Seq::empty(),
        OutputFormat::Woff => seq!["format=woff"@],
        OutputFormat::Woff2 => seq!["format=woff2"@],
    }
}

/// The parts of the query for `s`, in order. What is at its default has no part.
pub open spec fn query_parts(s: SettingsView) -> Seq<Seq<char>> {
    axes_part(s.axes) + name_parts(s.names, NAME_EDITOR_IDS@) + field_part(
        "fs"@,
        s.bits.fs_selection,
    ) + field_part("mac"@, s.bits.mac_style) + overlaps_part(s.remove_overlaps) + format_part(
        s.format,
    )
}

/// The query string for `s`.
pub open spec fn query_of(s: SettingsView) -> Seq<char> {
    joined(query_parts(s), seq!['&'])
}

/// `s` without the question marks that it starts with.
pub open spec fn without_marks(s: Seq<char>) -> Seq<char>
    decreases s.len(),
{
    if s.len() > 0 && s[0] == '?' {
        without_marks(s.skip(1))
    } else {
        s
    }
}

/// The axes that the entries name: those with an equals sign and a tag before it.
pub open spec fn axis_entries(entries: Seq<Seq<char>>) -> Seq<(Seq<char>, Seq<char>)>
    decreases entries.len(),
{
    if entries.len() == 0 {
        Seq::empty()
    } else {
        let before = axis_entries(entries.drop_last());
        let entry = entries.last();
        let at = find(entry, '=');
        if 0 < at < entry.len() {
            before.push((entry.take(at), entry.skip(at + 1)))
        } else {
            before
        }
    }
}

/// The value of a bit field; zero for what is no number, or too large a one.
pub open spec fn field_value(value: Seq<char>) -> u16 {
    match parsed_within(value, 0xffff) {
        Some(v) => v as u16,
        None => 0,
    }
}

/// The row of the Name Editor that a key stands for.
pub open spec fn row_of_key(key: Seq<char>) -> Option<u16> {
    if key.len() > 0 && key[0] == 'n' {
        match parsed_within(key.skip(1), 0xffff) {
            Some(id) if NAME_EDITOR_IDS@.contains(id as u16) => Some(id as u16),
            _ => None,
        }
    } else {
        None
    }
}

/// `s` after one key with its decoded value. A key that means nothing changes nothing.
pub open spec fn with_value(s: SettingsView, key: Seq<char>, value: Seq<char>) -> SettingsView {
    if key == "axes"@ {
        SettingsView { axes: s.axes + axis_entries(split_on(value, ',')), ..s }
    } else if key == "fs"@ {
        SettingsView {
            bits: BitFlags { fs_selection: field_value(value), mac_style: s.bits.mac_style },
            ..s
        }
    } else if key == "mac"@ {
        SettingsView {
            bits: BitFlags { fs_selection: s.bits.fs_selection, mac_style: field_value(value) },
            ..s
        }
    } else if key == "overlaps"@ {
        SettingsView { remove_overlaps: value == "1"@ || value == "true"@, ..s }
    } else if key == "format"@ {
        SettingsView {
            format: if value == "woff"@ {
                OutputFormat::Woff
            } else if value == "woff2"@ {
                OutputFormat::Woff2
            } else {
                OutputFormat::Sfnt
            },
            ..s
        }
    } else {
        match row_of_key(key) {
            Some(id) => SettingsView { names: s.names.insert(id, value), ..s },
            None => s,
        }
    }
}

/// `s` after one part of a query. A part without an equals sign changes nothing.
pub open spec fn with_part(s: SettingsView, part: Seq<char>) -> SettingsView {
    let at = find(part, '=');
    if at < part.len() {
        with_value(s, part.take(at), decoded(part.skip(at + 1)))
    } else {
        s
    }
}

/// `s` after the parts of a query, one after another.
pub open spec fn with_parts(s: SettingsView, parts: Seq<Seq<char>>) -> SettingsView
    decreases parts.len(),
{
    if parts.len() == 0 {
        s
    } else {
        with_part(with_parts(s, parts.drop_last()), parts.last())
    }
}

/// What a query string asks for.
pub open spec fn settings_of(query: Seq<char>) -> SettingsView {
    with_parts(default_settings(), split_on(without_marks(query), '&'))
}

impl Default for Settings {
    fn default() -> (r: Settings)
        ensures
            r@ == default_settings(),
    {
        let r: Settings = Settings {
            axes: Vec::new(),
            names: NameEdits::new(),
            bits: BitFlags { fs_selection: 0, mac_style: 0 },
            remove_overlaps: false,
            format: OutputFormat::Sfnt,
        };
        assert(r@ =~= default_settings());
        r
    }
}

impl Settings {
    /// Serialise to a query string, without the leading `?`.
    pub fn to_query(&self) -> (query: String)
        ensures
            query@ == query_of(self@),
    {
        let mut parts: Vec<Vec<char>> = Vec::new();
        self.push_axes(&mut parts);
        self.push_names(&mut parts);
        push_field(&mut parts, "fs", self.bits.fs_selection);
        push_field(&mut parts, "mac", self.bits.mac_style);
        let ghost fields = char_views(parts@);
        if self.remove_overlaps {
            parts.push(chars_of("overlaps=1"));
        }
        assert(char_views(parts@) =~= fields + overlaps_part(self.remove_overlaps));
        let ghost flags = char_views(parts@);
        match self.format {
            OutputFormat::Sfnt => {},
            OutputFormat::Woff => parts.push(chars_of("format=woff")),
            OutputFormat::Woff2 => parts.push(chars_of("format=woff2")),
        }
        assert(char_views(parts@) =~= flags + format_part(self.format));
        string_of(&join_chars(&parts, '&'))
    }

    fn push_axes(&self, parts: &mut Vec<Vec<char>>)
        requires
            old(parts)@.len() == 0,
        ensures
            char_views(final(parts)@) == axes_part(self@.axes),
    {
        assert(char_views(parts@) =~= Seq::<Seq<char>>::empty());
        if self.axes.len() == 0 {
            return ;
        }
        let ghost texts = self@.axes.map_values(|a: (Seq<char>, Seq<char>)| axis_text(a));
        let mut entries: Vec<Vec<char>> = Vec::new();
        assert(char_views(entries@) =~= texts.take(0));
        for i in 0..self.axes.len()
            invariant
                texts == self@.axes.map_values(|a: (Seq<char>, Seq<char>)| axis_text(a)),
                char_views(entries@) == texts.take(i as int),
        {
            let ghost before = char_views(entries@);
            let mut entry: Vec<char> = chars_of(self.axes[i].0.as_str());
            entry.push('=');
            push_text(&mut entry, self.axes[i].1.as_str());
            assert(entry@ =~= axis_text((self.axes@[i as int].0@, self.axes@[i as int].1@)));
            assert(entry@ == texts[i as int]);
            entries.push(entry);
            assert(char_views(entries@) =~= before.push(entry@));
            assert(texts.take(i + 1) =~= before.push(entry@));
        }
        assert(texts.take(texts.len() as int) =~= texts);
        let joined_entries: String = string_of(&join_chars(&entries, ','));
        let mut part: Vec<char> = chars_of("axes=");
        // The separators are left as themselves: they are legal in a query value, and a
        // query that can be read is the point.
        let tail: Vec<char> = encode_keeping(joined_entries.as_str(), "=,:");
        push_chars(&mut part, tail.as_slice());
        parts.push(part);
        assert(char_views(parts@) =~= axes_part(self@.axes));
    }

    fn push_names(&self, parts: &mut Vec<Vec<char>>)
        ensures
            char_views(final(parts)@) == char_views(old(parts)@) + name_parts(
                self@.names,
                NAME_EDITOR_IDS@,
            ),
    {
        let ghost first = char_views(parts@);
        let ghost ids = NAME_EDITOR_IDS@;
        assert(char_views(parts@) =~= first + name_parts(self@.names, ids.take(0)));
        for i in 0..9usize
            invariant
                ids == NAME_EDITOR_IDS@,
                char_views(parts@) == first + name_parts(self@.names, ids.take(i as int)),
        {
            let id: u16 = NAME_EDITOR_IDS[i];
            let ghost before = char_views(parts@);
            assert(ids.take(i + 1).drop_last() =~= ids.take(i as int));
            match self.names.get(id) {
                Some(value) => {
                    let mut part: Vec<char> = Vec::new();
                    part.push('n');
                    push_decimal(&mut part, id as u64);
                    part.push('=');
                    let tail: Vec<char> = encode_keeping(value, "");
                    push_chars(&mut part, tail.as_slice());
                    assert(part@ =~= row_key(id) + seq!['='] + encoded(
                        encode_utf8(text_of(self@.names, id)),
                        ""@,
                    ));
                    parts.push(part);
                    assert(char_views(parts@) =~= before.push(part@));
                    assert(char_views(parts@) =~= first + name_parts(
                        self@.names,
                        ids.take(i + 1),
                    ));
                },
                None => {},
            }
        }
        assert(ids.take(9) =~= ids);
    }

    /// Parse a query string, with or without the leading `?`.
    ///
    /// Anything unrecognised is ignored rather than refused.
    pub fn from_query(query: &str) -> (r: Settings)
        ensures
            r@ == settings_of(query@),
    {
        let chars: Vec<char> = chars_of(query);
        let mut start: usize = 0;
        assert(chars@.skip(0) =~= chars@);
        while start < chars.len() && chars[start] == '?'
            invariant
                start <= chars@.len(),
                without_marks(chars@.skip(start as int)) == without_marks(chars@),
            decreases chars@.len() - start,
        {
            assert(chars@.skip(start as int)[0] == '?');
            assert(chars@.skip(start as int).skip(1) =~= chars@.skip(start + 1));
            start = start + 1;
        }
        proof {
            if start < chars@.len() {
                assert(chars@.skip(start as int)[0] != '?');
            }
        }
        let body: Vec<char> = copy_chars(chars.as_slice(), start, chars.len());
        assert(body@ =~= chars@.skip(start as int));
        let parts: Vec<Vec<char>> = split_chars(body.as_slice(), '&');
        let ghost views = char_views(parts@);
        let mut out: Settings = Settings::default();
        for i in 0..parts.len()
            invariant
                views == char_views(parts@),
                out@ == with_parts(default_settings(), views.take(i as int)),
        {
            assert(views.take(i + 1).drop_last() =~= views.take(i as int));
            assert(views[i as int] == parts@[i as int]@);
            out.take_part(parts[i].as_slice());
        }
        assert(views.take(views.len() as int) =~= views);
        out
    }

    fn take_part(&mut self, part: &[char])
        ensures
            final(self)@ == with_part(old(self)@, part@),
    {
        let at: usize = find_char(part, '=');
        if at >= part.len() {
            return ;
        }
        let key: Vec<char> = copy_chars(part, 0, at);
        assert(key@ =~= part@.take(at as int));
        let raw: Vec<char> = copy_chars(part, at + 1, part.len());
        assert(raw@ =~= part@.skip(at + 1));
        let value: String = decode(string_of(&raw).as_str());
        self.take_value(key.as_slice(), value.as_str());
    }

    fn take_value(&mut self, key: &[char], value: &str)
        ensures
            final(self)@ == with_value(old(self)@, key@, value@),
    {
        let chars: Vec<char> = chars_of(value);
        let ghost before = self@;
        if chars_are(key, "axes") {
            self.take_axes(chars.as_slice());
        } else if chars_are(key, "fs") {
            let v: u16 = match parse_within(chars.as_slice(), 0xffff) {
                Some(v) => v as u16,
                None => 0,
            };
            self.bits = BitFlags { fs_selection: v, mac_style: self.bits.mac_style };
        } else if chars_are(key, "mac") {
            let v: u16 = match parse_within(chars.as_slice(), 0xffff) {
                Some(v) => v as u16,
                None => 0,
            };
            self.bits = BitFlags { fs_selection: self.bits.fs_selection, mac_style: v };
        } else if chars_are(key, "overlaps") {
            self.remove_overlaps = chars_are(chars.as_slice(), "1") || chars_are(
                chars.as_slice(),
                "true",
            );
        } else if chars_are(key, "format") {
            self.format = if chars_are(chars.as_slice(), "woff") {
                OutputFormat::Woff
            } else if chars_are(chars.as_slice(), "woff2") {
                OutputFormat::Woff2
            } else {
                OutputFormat::Sfnt
            };
        } else {
            match row_id(key) {
                Some(id) => {
                    self.names.set(id, value);
                },
                None => {},
            }
        }
        assert(self@ =~= with_value(before, key@, value@));
    }

    fn take_axes(&mut self, value: &[char])
        ensures
            final(self)@ == (SettingsView {
                axes: old(self)@.axes + axis_entries(split_on(value@, ',')),
                ..old(self)@
            }),
    {
        let ghost first = self@;
        let entries: Vec<Vec<char>> = split_chars(value, ',');
        let ghost views = char_views(entries@);
        assert(self@.axes =~= first.axes + axis_entries(views.take(0)));
        for i in 0..entries.len()
            invariant
                views == char_views(entries@),
                self@.axes == first.axes + axis_entries(views.take(i as int)),
                self@ == (SettingsView { axes: self@.axes, ..first }),
        {
            assert(views.take(i + 1).drop_last() =~= views.take(i as int));
            assert(views[i as int] == entries@[i as int]@);
            let entry: &[char] = entries[i].as_slice();
            let at: usize = find_char(entry, '=');
            let ghost before = self@.axes;
            if 0 < at && at < entry.len() {
                let tag: Vec<char> = copy_chars(entry, 0, at);
                assert(tag@ =~= entry@.take(at as int));
                let text: Vec<char> = copy_chars(entry, at + 1, entry.len());
                assert(text@ =~= entry@.skip(at + 1));
                self.axes.push((string_of(&tag), string_of(&text)));
                assert(self@.axes =~= before.push((tag@, text@)));
                assert(self@.axes =~= first.axes + axis_entries(views.take(i + 1)));
            }
        }
        assert(views.take(views.len() as int) =~= views);
    }

    /// True when there is nothing here worth putting in a URL.
    pub fn is_empty(&self) -> (r: bool)
        ensures
            r == (self@ == default_settings()),
    {
        let r: bool = self.axes.len() == 0 && self.names.is_untouched() && self.bits.fs_selection
            == 0 && self.bits.mac_style == 0 && !self.remove_overlaps && self.format
            == OutputFormat::Sfnt;
        proof {
            assert(self@.axes.len() == self.axes@.len());
            if r {
                assert(self@ =~= default_settings());
            } else if self@ == default_settings() {
                assert(self@.axes == Seq::<(Seq<char>, Seq<char>)>::empty());
            }
        }
        r
    }
}

fn push_field(parts: &mut Vec<Vec<char>>, key: &str, value: u16)
    ensures
        char_views(final(parts)@) == char_views(old(parts)@) + field_part(key@, value),
{
    let ghost before = char_views(parts@);
    if value != 0 {
        let mut part: Vec<char> = chars_of(key);
        part.push('=');
        push_decimal(&mut part, value as u64);
        assert(part@ =~= key@ + seq!['='] + decimal(value as nat));
        parts.push(part);
    }
    assert(char_views(parts@) =~= before + field_part(key@, value));
}

fn row_id(key: &[char]) -> (r: Option<u16>)
    ensures
        r == row_of_key(key@),
{
    if key.len() == 0 || key[0] != 'n' {
        return None;
    }
    let digits: Vec<char> = copy_chars(key, 1, key.len());
    assert(digits@ =~= key@.skip(1));
    match parse_within(digits.as_slice(), 0xffff) {
        Some(v) => {
            let id: u16 = v as u16;
            for i in 0..9usize
                invariant
                    forall|k: int| 0 <= k < i ==> NAME_EDITOR_IDS@[k] != id,
                    id == v,
                    key@.len() > 0 && key@[0] == 'n',
                    parsed_within(key@.skip(1), 0xffff) == Some(v as nat),
            {
                if NAME_EDITOR_IDS[i] == id {
                    assert(NAME_EDITOR_IDS@[i as int] == id);
                    return Some(id);
                }
            }
            assert(!NAME_EDITOR_IDS@.contains(id));
            None
        },
        None => None,
    }
}

// ------------------------------------------------------------------------------ laws

/// True when every kept character stands for itself in a query, too.
pub open spec fn keeps_plain(keep: Seq<char>) -> bool {
    forall|i: int|
        0 <= i < keep.len() ==> #[trigger] keep[i] < '\u{80}' && keep[i] != '%' && keep[i] != '+'
}

proof fn lemma_encoded_first(bytes: Seq<u8>, keep: Seq<char>)
    requires
        bytes.len() > 0,
    ensures
        encoded(bytes, keep) == encoded_byte(bytes[0], keep) + encoded(bytes.skip(1), keep),
    decreases bytes.len(),
{
    if bytes.len() == 1 {
        assert(bytes.drop_last() =~= Seq::<u8>::empty());
        assert(bytes.skip(1) =~= Seq::<u8>::empty());
        assert(encoded(bytes.drop_last(), keep) =~= Seq::<char>::empty());
        assert(encoded(bytes, keep) =~= encoded_byte(bytes[0], keep) + encoded(
            bytes.skip(1),
            keep,
        ));
    } else {
        lemma_encoded_first(bytes.drop_last(), keep);
        assert(bytes.drop_last().skip(1) =~= bytes.skip(1).drop_last());
        assert(encoded(bytes, keep) =~= encoded_byte(bytes[0], keep) + encoded(
            bytes.skip(1),
            keep,
        ));
    }
}

/// Percent-encoded text is ASCII, and holds no character that would end a part unless that
/// character was kept.
proof fn lemma_encoded_plain(bytes: Seq<u8>, keep: Seq<char>)
    requires
        keeps_plain(keep),
    ensures
        is_ascii_chars(encoded(bytes, keep)),
        lacks_char(encoded(bytes, keep), '&') || exists|i: int|
            0 <= i < keep.len() && #[trigger] keep[i] == '&',
    decreases bytes.len(),
{
    if bytes.len() > 0 {
        lemma_encoded_plain(bytes.drop_last(), keep);
        let b = bytes.last();
        assert(0 <= b as int / 16 < 16 && 0 <= b as int % 16 < 16);
        if is_kept(b, keep) {
            let i = choose|i: int| 0 <= i < keep.len() && #[trigger] keep[i] == b as char;
            assert(keep[i] < '\u{80}');
        }
    }
}

/// Decoding gives back the bytes that were encoded, wherever they stand.
proof fn lemma_decodes(before: Seq<u8>, bytes: Seq<u8>, keep: Seq<char>)
    requires
        keeps_plain(keep),
    ensures
        decoded_from(before + encode_utf8(encoded(bytes, keep)), before.len() as int) == bytes,
    decreases bytes.len(),
{
    let text = encoded(bytes, keep);
    lemma_encoded_plain(bytes, keep);
    is_ascii_chars_encode_utf8(text);
    let all = before + encode_utf8(text);
    let at = before.len() as int;
    if bytes.len() == 0 {
        assert(encode_utf8(text) =~= Seq::<u8>::empty());
        assert(decoded_from(all, at) =~= bytes);
    } else {
        let b = bytes[0];
        let one = encoded_byte(b, keep);
        let rest = encoded(bytes.skip(1), keep);
        lemma_encoded_first(bytes, keep);
        lemma_encoded_plain(bytes.skip(1), keep);
        is_ascii_chars_encode_utf8(rest);
        let more = before + encode_utf8(text).take(one.len() as int);
        assert(text.skip(one.len() as int) =~= rest);
        assert(all =~= more + encode_utf8(rest)) by {
            assert forall|i: int| 0 <= i < all.len() implies all[i] == (more + encode_utf8(
                rest,
            ))[i] by {
                if i >= more.len() {
                    assert(text[i - at] == rest[i - more.len()]);
                    assert(encode_utf8(text)[i - at] == text[i - at] as u8);
                }
            }
        }
        lemma_decodes(more, bytes.skip(1), keep);
        assert(encode_utf8(text)[0] == text[0] as u8);
        assert(bytes =~= seq![b] + bytes.skip(1));
        if is_unreserved(b) || is_kept(b, keep) {
            if is_kept(b, keep) {
                let i = choose|i: int| 0 <= i < keep.len() && #[trigger] keep[i] == b as char;
                assert(keep[i] < '\u{80}' && keep[i] != '%' && keep[i] != '+');
            }
            assert(text[0] == b as char);
            assert(all[at] == b);
            assert(b != 0x25 && b != 0x2b);
            assert(decoded_from(all, at) == seq![b] + decoded_from(all, at + 1));
        } else {
            let high = b as int / 16;
            let low = b as int % 16;
            assert(0 <= high < 16 && 0 <= low < 16);
            assert(text[1] == hex_digit(high) && text[2] == hex_digit(low));
            assert(encode_utf8(text)[1] == text[1] as u8);
            assert(encode_utf8(text)[2] == text[2] as u8);
            assert(all[at] == 0x25);
            assert(hex_value(all[at + 1]) == Some(high));
            assert(hex_value(all[at + 2]) == Some(low));
            assert(hex_pair(all[at + 1], all[at + 2]) == Some(b as int));
            assert(decoded_from(all, at) == seq![b] + decoded_from(all, at + 3));
        }
    }
}

/// Decoding gives back any text that was percent-encoded.
pub proof fn percent_coding_round_trips(text: Seq<char>, keep: Seq<char>)
    requires
        keeps_plain(keep),
    ensures
        decoded(encoded(encode_utf8(text), keep)) == text,
{
    let bytes = encode_utf8(text);
    lemma_decodes(Seq::empty(), bytes, keep);
    assert(Seq::<u8>::empty() + encode_utf8(encoded(bytes, keep)) =~= encode_utf8(
        encoded(bytes, keep),
    ));
    encode_utf8_valid_utf8(text);
    encode_utf8_decode_utf8(text);
}

pub open spec fn is_plain_char(c: char) -> bool {
    '\0' <= c <= '\u{7f}' && is_unreserved(c as u8)
}

/// Text of unreserved characters alone is its own encoding.
proof fn lemma_plain_is_encoded(text: Seq<char>)
    requires
        forall|i: int| 0 <= i < text.len() ==> is_plain_char(#[trigger] text[i]),
    ensures
        decoded(text) == text,
        is_ascii_chars(text),
{
    assert forall|i: int| 0 <= i < text.len() implies '\0' <= #[trigger] text[i]
        <= '\u{7f}' by {
        assert(is_plain_char(text[i]));
    }
    assert(is_ascii_chars(text));
    is_ascii_chars_encode_utf8(text);
    lemma_plain_bytes(text, encode_utf8(text));
    percent_coding_round_trips(text, Seq::empty());
}

proof fn lemma_plain_bytes(text: Seq<char>, bytes: Seq<u8>)
    requires
        forall|i: int| 0 <= i < text.len() ==> is_plain_char(#[trigger] text[i]),
        bytes.len() == text.len(),
        forall|i: int| 0 <= i < text.len() ==> #[trigger] bytes[i] == text[i] as u8,
    ensures
        encoded(bytes, Seq::empty()) == text,
    decreases text.len(),
{
    if text.len() > 0 {
        lemma_plain_bytes(text.drop_last(), bytes.drop_last());
        assert(is_plain_char(text[text.len() - 1]));
        assert(text =~= text.drop_last().push(text.last()));
        assert(bytes.last() == text[text.len() - 1] as u8);
        assert(encoded(bytes, Seq::empty()) =~= text);
    } else {
        assert(encoded(bytes, Seq::empty()) =~= text);
    }
}

/// True for settings that a query can carry: no tag is blank or holds `=` or `,`, no axis
/// text holds `,`, and the names are rows of the editor with text in them.
pub open spec fn is_carried(s: SettingsView) -> bool {
    &&& forall|i: int|
        0 <= i < s.axes.len() ==> (#[trigger] s.axes[i]).0.len() > 0 && lacks_char(
            s.axes[i].0,
            '=',
        ) && lacks_char(s.axes[i].0, ',') && lacks_char(s.axes[i].1, ',')
    &&& forall|id: u16|
        #[trigger] s.names.dom().contains(id) ==> NAME_EDITOR_IDS@.contains(id)
            && s.names[id].len() > 0
}

proof fn lemma_with_parts_joins(s: SettingsView, a: Seq<Seq<char>>, b: Seq<Seq<char>>)
    ensures
        with_parts(s, a + b) == with_parts(with_parts(s, a), b),
    decreases b.len(),
{
    if b.len() == 0 {
        assert(a + b =~= a);
    } else {
        lemma_with_parts_joins(s, a, b.drop_last());
        assert((a + b).drop_last() =~= a + b.drop_last());
        assert((a + b).last() == b.last());
    }
}

proof fn lemma_one_part(s: SettingsView, part: Seq<char>)
    ensures
        with_parts(s, seq![part]) == with_part(s, part),
{
    assert(seq![part].drop_last() =~= Seq::<Seq<char>>::empty());
    assert(with_parts(s, seq![part].drop_last()) == s);
}

proof fn lemma_keyed_part(s: SettingsView, key: Seq<char>, raw: Seq<char>)
    requires
        lacks_char(key, '='),
    ensures
        with_part(s, key + seq!['='] + raw) == with_value(s, key, decoded(raw)),
{
    let part = key + seq!['='] + raw;
    lemma_find_is(part, '=', key.len() as int);
    assert(part.take(key.len() as int) =~= key);
    assert(part.skip(key.len() as int + 1) =~= raw);
}

/// Reading the entries of the axis list gives the axes back.
proof fn lemma_axis_entries(axes: Seq<(Seq<char>, Seq<char>)>)
    requires
        forall|i: int|
            0 <= i < axes.len() ==> (#[trigger] axes[i]).0.len() > 0 && lacks_char(axes[i].0, '='),
    ensures
        axis_entries(axes.map_values(|a: (Seq<char>, Seq<char>)| axis_text(a))) == axes,
    decreases axes.len(),
{
    let texts = axes.map_values(|a: (Seq<char>, Seq<char>)| axis_text(a));
    if axes.len() == 0 {
        assert(axis_entries(texts) =~= axes);
    } else {
        let shorter = axes.drop_last();
        assert(texts.drop_last() =~= shorter.map_values(
            |a: (Seq<char>, Seq<char>)| axis_text(a),
        ));
        assert forall|i: int| 0 <= i < shorter.len() implies (#[trigger] shorter[i]).0.len() > 0
            && lacks_char(shorter[i].0, '=') by {
            assert(shorter[i] == axes[i]);
        }
        lemma_axis_entries(shorter);
        let axis = axes[axes.len() - 1];
        let entry = texts.last();
        assert(entry == axis_text(axis));
        lemma_find_is(entry, '=', axis.0.len() as int);
        assert(entry.take(axis.0.len() as int) =~= axis.0);
        assert(entry.skip(axis.0.len() as int + 1) =~= axis.1);
        assert(axes =~= shorter.push(axis));
        assert(axis_entries(texts) =~= axes);
    }
}

proof fn lemma_axes_read_back(s: SettingsView, axes: Seq<(Seq<char>, Seq<char>)>)
    requires
        s.axes.len() == 0,
        forall|i: int|
            0 <= i < axes.len() ==> (#[trigger] axes[i]).0.len() > 0 && lacks_char(
                axes[i].0,
                '=',
            ) && lacks_char(axes[i].0, ',') && lacks_char(axes[i].1, ','),
    ensures
        with_parts(s, axes_part(axes)) == (SettingsView { axes, ..s }),
{
    if axes.len() == 0 {
        assert(with_parts(s, axes_part(axes)) =~= (SettingsView { axes, ..s }));
    } else {
        reveal_strlit("axes=");
        reveal_strlit("axes");
        reveal_strlit("=,:");
        let raw = encoded(encode_utf8(axes_text(axes)), "=,:"@);
        assert("axes="@ + raw =~= "axes"@ + seq!['='] + raw);
        lemma_one_part(s, "axes="@ + raw);
        lemma_keyed_part(s, "axes"@, raw);
        percent_coding_round_trips(axes_text(axes), "=,:"@);
        let texts = axes.map_values(|a: (Seq<char>, Seq<char>)| axis_text(a));
        assert forall|i: int| 0 <= i < texts.len() implies lacks_char(#[trigger] texts[i], ',') by {
            assert(texts[i] == axis_text(axes[i]));
        }
        splitting_undoes_joining(texts, ',');
        lemma_axis_entries(axes);
        assert(s.axes + axes =~= axes);
    }
}

proof fn lemma_digits_are_plain(text: Seq<char>)
    requires
        all_digits(text),
    ensures
        decoded(text) == text,
        lacks_char(text, '='),
        lacks_char(text, '&'),
{
    assert forall|i: int| 0 <= i < text.len() implies is_plain_char(#[trigger] text[i]) by {
        assert(is_decimal_digit(text[i]));
    }
    lemma_plain_is_encoded(text);
    assert forall|i: int| 0 <= i < text.len() implies text[i] != '=' && text[i] != '&' by {
        assert(is_decimal_digit(text[i]));
    }
}

/// The key of a row leads back to the row, and is none of the other keys.
proof fn lemma_row_key(id: u16)
    requires
        NAME_EDITOR_IDS@.contains(id),
    ensures
        row_of_key(row_key(id)) == Some(id),
        lacks_char(row_key(id), '='),
        lacks_char(row_key(id), '&'),
        row_key(id) != "axes"@,
        row_key(id) != "fs"@,
        row_key(id) != "mac"@,
        row_key(id) != "overlaps"@,
        row_key(id) != "format"@,
{
    decimal_round_trips(id as nat);
    let key = row_key(id);
    assert(key.skip(1) =~= decimal(id as nat));
    lemma_digits_are_plain(decimal(id as nat));
    assert forall|i: int| 0 <= i < key.len() implies key[i] != '=' && key[i] != '&' by {
        if i > 0 {
            assert(key[i] == decimal(id as nat)[i - 1]);
        }
    }
    reveal_strlit("axes");
    reveal_strlit("fs");
    reveal_strlit("mac");
    reveal_strlit("overlaps");
    reveal_strlit("format");
    assert(key[0] == 'n');
}

/// The names of `names` that stand in `ids` and hold text.
pub open spec fn rows_among(names: Map<u16, Seq<char>>, ids: Seq<u16>) -> Map<u16, Seq<char>> {
    names.restrict(Set::new(|id: u16| ids.contains(id)))
}

proof fn lemma_names_read_back(s: SettingsView, names: Map<u16, Seq<char>>, ids: Seq<u16>)
    requires
        s.names == Map::<u16, Seq<char>>::empty(),
        forall|id: u16| #[trigger] names.dom().contains(id) ==> names[id].len() > 0,
        forall|i: int| 0 <= i < ids.len() ==> NAME_EDITOR_IDS@.contains(#[trigger] ids[i]),
    ensures
        with_parts(s, name_parts(names, ids)) == (SettingsView {
            names: rows_among(names, ids),
            ..s
        }),
    decreases ids.len(),
{
    if ids.len() == 0 {
        assert(rows_among(names, ids) =~= s.names);
    } else {
        let shorter = ids.drop_last();
        let id = ids.last();
        assert forall|i: int| 0 <= i < shorter.len() implies NAME_EDITOR_IDS@.contains(
            #[trigger] shorter[i],
        ) by {
            assert(shorter[i] == ids[i]);
        }
        lemma_names_read_back(s, names, shorter);
        let read = with_parts(s, name_parts(names, shorter));
        let text = text_of(names, id);
        assert(forall|other: u16|
            ids.contains(other) <==> shorter.contains(other) || other == id) by {
            assert(ids =~= shorter.push(id));
            assert(ids[ids.len() - 1] == id);
            assert forall|other: u16| shorter.contains(other) implies ids.contains(other) by {
                let i = choose|i: int| 0 <= i < shorter.len() && shorter[i] == other;
                assert(ids[i] == other);
            }
        }
        if text.len() > 0 {
            assert(NAME_EDITOR_IDS@.contains(ids[ids.len() - 1]));
            lemma_row_key(id);
            let raw = encoded(encode_utf8(text), ""@);
            reveal_strlit("");
            percent_coding_round_trips(text, ""@);
            lemma_keyed_part(read, row_key(id), raw);
            let part = row_key(id) + seq!['='] + raw;
            assert(name_parts(names, ids) =~= name_parts(names, shorter) + seq![part]);
            lemma_with_parts_joins(s, name_parts(names, shorter), seq![part]);
            lemma_one_part(read, part);
            assert(read.names.insert(id, text) =~= rows_among(names, ids));
        } else {
            assert(rows_among(names, ids) =~= rows_among(names, shorter));
        }
    }
}

proof fn lemma_field_reads_back(s: SettingsView, key: Seq<char>, value: u16)
    requires
        lacks_char(key, '='),
    ensures
        value > 0 ==> with_parts(s, field_part(key, value)) == with_value(
            s,
            key,
            decimal(value as nat),
        ),
        value == 0 ==> with_parts(s, field_part(key, value)) == s,
        field_value(decimal(value as nat)) == value,
{
    decimal_round_trips(value as nat);
    lemma_digits_are_plain(decimal(value as nat));
    if value > 0 {
        lemma_one_part(s, key + seq!['='] + decimal(value as nat));
        lemma_keyed_part(s, key, decimal(value as nat));
    }
}

proof fn lemma_fields_read_back(s: SettingsView, bits: BitFlags)
    requires
        s.bits == (BitFlags { fs_selection: 0, mac_style: 0 }),
    ensures
        with_parts(
            s,
            field_part("fs"@, bits.fs_selection) + field_part("mac"@, bits.mac_style),
        ) == (SettingsView { bits, ..s }),
{
    reveal_strlit("axes");
    reveal_strlit("fs");
    reveal_strlit("mac");
    let first = with_parts(s, field_part("fs"@, bits.fs_selection));
    lemma_field_reads_back(s, "fs"@, bits.fs_selection);
    lemma_field_reads_back(first, "mac"@, bits.mac_style);
    lemma_with_parts_joins(
        s,
        field_part("fs"@, bits.fs_selection),
        field_part("mac"@, bits.mac_style),
    );
    assert("fs"@ != "axes"@);
    assert("mac"@ != "axes"@ && "mac"@ != "fs"@) by {
        assert("mac"@.len() == 3);
        assert("fs"@.len() == 2);
        assert("axes"@.len() == 4);
    }
    assert(first == (SettingsView {
        bits: BitFlags { fs_selection: bits.fs_selection, mac_style: 0 },
        ..s
    }));
}

proof fn lemma_options_read_back(s: SettingsView, remove_overlaps: bool, format: OutputFormat)
    requires
        !s.remove_overlaps,
        s.format == OutputFormat::Sfnt,
    ensures
        with_parts(s, overlaps_part(remove_overlaps) + format_part(format)) == (SettingsView {
            remove_overlaps,
            format,
            ..s
        }),
{
    reveal_strlit("axes");
    reveal_strlit("fs");
    reveal_strlit("mac");
    reveal_strlit("overlaps");
    reveal_strlit("format");
    reveal_strlit("1");
    reveal_strlit("woff");
    reveal_strlit("woff2");
    reveal_strlit("overlaps=1");
    reveal_strlit("format=woff");
    reveal_strlit("format=woff2");
    assert("overlaps"@.len() == 8 && "format"@.len() == 6 && "mac"@.len() == 3 && "fs"@.len() == 2
        && "axes"@.len() == 4);
    let first = with_parts(s, overlaps_part(remove_overlaps));
    if remove_overlaps {
        lemma_one_part(s, "overlaps=1"@);
        assert("overlaps=1"@ =~= "overlaps"@ + seq!['='] + "1"@);
        lemma_keyed_part(s, "overlaps"@, "1"@);
        lemma_plain_is_encoded("1"@);
    }
    assert(first == (SettingsView { remove_overlaps, ..s }));
    lemma_with_parts_joins(s, overlaps_part(remove_overlaps), format_part(format));
    match format {
        OutputFormat::Sfnt => {},
        OutputFormat::Woff => {
            lemma_one_part(first, "format=woff"@);
            assert("format=woff"@ =~= "format"@ + seq!['='] + "woff"@);
            lemma_keyed_part(first, "format"@, "woff"@);
            lemma_plain_is_encoded("woff"@);
        },
        OutputFormat::Woff2 => {
            lemma_one_part(first, "format=woff2"@);
            assert("format=woff2"@ =~= "format"@ + seq!['='] + "woff2"@);
            lemma_keyed_part(first, "format"@, "woff2"@);
            lemma_plain_is_encoded("woff2"@);
            assert("woff"@.len() == 4 && "woff2"@.len() == 5);
        },
    }
}

pub open spec fn is_part(part: Seq<char>) -> bool {
    part.len() > 0 && part[0] != '?' && lacks_char(part, '&')
}

proof fn lemma_name_parts_are_parts(names: Map<u16, Seq<char>>, ids: Seq<u16>)
    requires
        forall|i: int| 0 <= i < ids.len() ==> NAME_EDITOR_IDS@.contains(#[trigger] ids[i]),
    ensures
        forall|i: int|
            0 <= i < name_parts(names, ids).len() ==> is_part(#[trigger] name_parts(names, ids)[i]),
    decreases ids.len(),
{
    if ids.len() > 0 {
        let shorter = ids.drop_last();
        let id = ids.last();
        assert forall|i: int| 0 <= i < shorter.len() implies NAME_EDITOR_IDS@.contains(
            #[trigger] shorter[i],
        ) by {
            assert(shorter[i] == ids[i]);
        }
        lemma_name_parts_are_parts(names, shorter);
        assert(NAME_EDITOR_IDS@.contains(ids[ids.len() - 1]));
        lemma_row_key(id);
        reveal_strlit("");
        let raw = encoded(encode_utf8(text_of(names, id)), ""@);
        lemma_encoded_plain(encode_utf8(text_of(names, id)), ""@);
        let part = row_key(id) + seq!['='] + raw;
        assert(part[0] == 'n');
        assert(is_part(part));
        assert(name_parts(names, ids) =~= if text_of(names, id).len() > 0 {
            name_parts(names, shorter).push(part)
        } else {
            name_parts(names, shorter)
        });
    }
}

proof fn lemma_field_part_is_part(key: Seq<char>, value: u16)
    requires
        key.len() > 0,
        key[0] != '?',
        lacks_char(key, '&'),
    ensures
        forall|i: int|
            0 <= i < field_part(key, value).len() ==> is_part(#[trigger] field_part(key, value)[i]),
{
    decimal_round_trips(value as nat);
    lemma_digits_are_plain(decimal(value as nat));
    let part = key + seq!['='] + decimal(value as nat);
    assert(part[0] == key[0]);
}

proof fn lemma_query_parts_are_parts(s: SettingsView)
    ensures
        forall|i: int| 0 <= i < query_parts(s).len() ==> is_part(#[trigger] query_parts(s)[i]),
{
    assert forall|i: int| 0 <= i < NAME_EDITOR_IDS@.len() implies NAME_EDITOR_IDS@.contains(
        #[trigger] NAME_EDITOR_IDS@[i],
    ) by {}
    lemma_name_parts_are_parts(s.names, NAME_EDITOR_IDS@);
    reveal_strlit("fs");
    reveal_strlit("mac");
    lemma_field_part_is_part("fs"@, s.bits.fs_selection);
    lemma_field_part_is_part("mac"@, s.bits.mac_style);
    reveal_strlit("axes=");
    reveal_strlit("=,:");
    let bytes = encode_utf8(axes_text(s.axes));
    lemma_encoded_plain(bytes, "=,:"@);
    let part = "axes="@ + encoded(bytes, "=,:"@);
    assert(part[0] == 'a');
    assert(is_part(part));
    reveal_strlit("overlaps=1");
    reveal_strlit("format=woff");
    reveal_strlit("format=woff2");
    assert(forall|i: int|
        0 <= i < axes_part(s.axes).len() ==> is_part(#[trigger] axes_part(s.axes)[i]));
    assert(forall|i: int|
        0 <= i < overlaps_part(s.remove_overlaps).len() ==> is_part(
            #[trigger] overlaps_part(s.remove_overlaps)[i],
        ));
    assert(forall|i: int|
        0 <= i < format_part(s.format).len() ==> is_part(#[trigger] format_part(s.format)[i]));
}

/// Reading the query that settings were written to gives the settings back.
pub proof fn a_query_carries_the_settings(s: SettingsView)
    requires
        is_carried(s),
    ensures
        settings_of(query_of(s)) == s,
{
    let parts = query_parts(s);
    let query = query_of(s);
    lemma_query_parts_are_parts(s);
    assert forall|i: int| 0 <= i < NAME_EDITOR_IDS@.len() implies NAME_EDITOR_IDS@.contains(
        #[trigger] NAME_EDITOR_IDS@[i],
    ) by {}
    // The parts, one group after another.
    let start = default_settings();
    let axes = axes_part(s.axes);
    let names = name_parts(s.names, NAME_EDITOR_IDS@);
    let fields = field_part("fs"@, s.bits.fs_selection) + field_part("mac"@, s.bits.mac_style);
    let options = overlaps_part(s.remove_overlaps) + format_part(s.format);
    assert(parts =~= axes + names + fields + options);
    lemma_axes_read_back(start, s.axes);
    let with_axes = SettingsView { axes: s.axes, ..start };
    lemma_names_read_back(with_axes, s.names, NAME_EDITOR_IDS@);
    assert(rows_among(s.names, NAME_EDITOR_IDS@) =~= s.names);
    let with_names = SettingsView { names: s.names, ..with_axes };
    lemma_fields_read_back(with_names, s.bits);
    let with_fields = SettingsView { bits: s.bits, ..with_names };
    lemma_options_read_back(with_fields, s.remove_overlaps, s.format);
    lemma_with_parts_joins(start, axes, names);
    lemma_with_parts_joins(start, axes + names, fields);
    lemma_with_parts_joins(start, axes + names + fields, options);
    assert(with_parts(start, parts) == s);
    // The parts come out of the query as they went in.
    if parts.len() == 0 {
        assert(query =~= Seq::<char>::empty());
        assert(split_on(query, '&') =~= seq![query]);
        lemma_one_part(start, query);
    } else {
        splitting_undoes_joining(parts, '&');
        assert(is_part(parts[0]));
        if parts.len() > 1 {
            lemma_joined_first(parts, seq!['&']);
        }
        assert(query[0] == parts[0][0]);
    }
}

/// What a query asks for is the same with a question mark before it.
pub proof fn a_leading_question_mark_is_ignored(query: Seq<char>)
    ensures
        settings_of(seq!['?'] + query) == settings_of(query),
{
    assert((seq!['?'] + query).skip(1) =~= query);
}

} // verus!
