//! The Bit Flag Editor: the `OS/2.fsSelection` and `head.macStyle` bits Slice exposes.
use vstd::prelude::*;

use crate::text::{join3, string_of};

verus! {

/// One checkbox in the Bit Flag Editor.
#[derive(Debug)]
pub struct BitDef {
    /// Bit offset within the 16-bit field.
    pub offset: u8,
    /// The label on the checkbox, e.g. `bit 0 (ITALIC)`.
    pub label: &'static str,
    /// What setting the bit actually means.
    pub hint: &'static str,
}

fn bit_def(offset: u8, label: &'static str, hint: &'static str) -> (r: BitDef)
    ensures
        r.offset == offset && r.label@ == label@ && r.hint@ == hint@,
{
    BitDef { offset, label, hint }
}

/// The offsets, labels and hints of the `OS/2.fsSelection` checkboxes.
pub open spec fn fs_selection_defs() -> Seq<(u8, Seq<char>, Seq<char>)> {
    seq![
        (
            0u8,
            "bit 0 (ITALIC)"@,
            "Glyphs are slanted. Set together with head.macStyle bit 1."@,
        ),
        (
            5u8,
            "bit 5 (BOLD)"@,
            "Glyphs are emboldened. Set together with head.macStyle bit 0."@,
        ),
        (
            6u8,
            "bit 6 (REGULAR)"@,
            "Glyphs are the regular style. Mutually exclusive with ITALIC and BOLD."@,
        ),
        (
            8u8,
            "bit 8 (WWS)"@,
            "Family name differs from other family members only in weight/width/slope."@,
        ),
    ]
}

/// The offsets, labels and hints of the `head.macStyle` checkboxes.
pub open spec fn mac_style_defs() -> Seq<(u8, Seq<char>, Seq<char>)> {
    seq![
        (0u8, "bit 0 (BOLD)"@, "Bold. Should agree with OS/2.fsSelection bit 5."@),
        (1u8, "bit 1 (ITALIC)"@, "Italic. Should agree with OS/2.fsSelection bit 0."@),
    ]
}

/// The offsets, labels and hints of checkboxes.
pub open spec fn defs_view(defs: Seq<BitDef>) -> Seq<(u8, Seq<char>, Seq<char>)> {
    defs.map_values(|d: BitDef| (d.offset, d.label@, d.hint@))
}

/// The `OS/2.fsSelection` checkboxes, in editor order.
pub fn os2_fs_selection() -> (r: Vec<BitDef>)
    ensures
        defs_view(r@) == fs_selection_defs(),
        forall|i: int| 0 <= i < r@.len() ==> (#[trigger] r@[i]).offset < 16,
{
    let mut r: Vec<BitDef> = Vec::new();
    r.push(
        bit_def(
            0,
            "bit 0 (ITALIC)",
            "Glyphs are slanted. Set together with head.macStyle bit 1.",
        ),
    );
    r.push(
        bit_def(
            5,
            "bit 5 (BOLD)",
            "Glyphs are emboldened. Set together with head.macStyle bit 0.",
        ),
    );
    r.push(
        bit_def(
            6,
            "bit 6 (REGULAR)",
            "Glyphs are the regular style. Mutually exclusive with ITALIC and BOLD.",
        ),
    );
    r.push(
        bit_def(
            8,
            "bit 8 (WWS)",
            "Family name differs from other family members only in weight/width/slope.",
        ),
    );
    assert(defs_view(r@) =~= fs_selection_defs());
    r
}

/// The `head.macStyle` checkboxes.
pub fn head_mac_style() -> (r: Vec<BitDef>)
    ensures
        defs_view(r@) == mac_style_defs(),
        forall|i: int| 0 <= i < r@.len() ==> (#[trigger] r@[i]).offset < 16,
{
    let mut r: Vec<BitDef> = Vec::new();
    r.push(bit_def(0, "bit 0 (BOLD)", "Bold. Should agree with OS/2.fsSelection bit 5."));
    r.push(bit_def(1, "bit 1 (ITALIC)", "Italic. Should agree with OS/2.fsSelection bit 0."));
    assert(defs_view(r@) =~= mac_style_defs());
    r
}

/// The state of the Bit Flag Editor, held as the two raw 16-bit fields.
///
/// Holding whole fields rather than a set of booleans matters: bits the editor does not
/// expose have to survive untouched.
#[derive(Clone, Copy, Debug, Default, PartialEq, Eq, Structural)]
pub struct BitFlags {
    pub fs_selection: u16,
    pub mac_style: u16,
}

/// True when the bit at `offset` is set.
pub open spec fn has_bit(field: u16, offset: u8) -> bool {
    field & (1u16 << offset) != 0
}

/// `field` with the bit at `offset` set or cleared.
pub open spec fn with_bit(field: u16, offset: u8, on: bool) -> u16 {
    if on {
        field | (1u16 << offset)
    } else {
        field & !(1u16 << offset)
    }
}

/// Setting or clearing a bit does that, and leaves every other bit alone.
pub proof fn other_bits_are_left_alone(field: u16, offset: u8, on: bool, other: u8)
    requires
        offset < 16,
        other < 16,
    ensures
        has_bit(with_bit(field, offset, on), offset) == on,
        other != offset ==> has_bit(with_bit(field, offset, on), other) == has_bit(field, other),
{
    assert((field | (1u16 << offset)) & (1u16 << offset) != 0) by (bit_vector)
        requires
            offset < 16,
    ;
    assert((field & !(1u16 << offset)) & (1u16 << offset) == 0) by (bit_vector)
        requires
            offset < 16,
    ;
    if other != offset {
        assert((field | (1u16 << offset)) & (1u16 << other) == field & (1u16 << other))
            by (bit_vector)
            requires
                offset < 16,
                other < 16,
                other != offset,
        ;
        assert((field & !(1u16 << offset)) & (1u16 << other) == field & (1u16 << other))
            by (bit_vector)
            requires
                offset < 16,
                other < 16,
                other != offset,
        ;
    }
}

/// Putting a bit back to what it was puts the whole field back.
pub proof fn setting_a_bit_can_be_undone(field: u16, offset: u8, on: bool)
    requires
        offset < 16,
    ensures
        with_bit(with_bit(field, offset, on), offset, has_bit(field, offset)) == field,
{
    assert(field & (1u16 << offset) != 0 ==> (field | (1u16 << offset)) | (1u16 << offset)
        == field) by (bit_vector)
        requires
            offset < 16,
    ;
    assert(field & (1u16 << offset) != 0 ==> (field & !(1u16 << offset)) | (1u16 << offset)
        == field) by (bit_vector)
        requires
            offset < 16,
    ;
    assert(field & (1u16 << offset) == 0 ==> (field | (1u16 << offset)) & !(1u16 << offset)
        == field) by (bit_vector)
        requires
            offset < 16,
    ;
    assert(field & (1u16 << offset) == 0 ==> (field & !(1u16 << offset)) & !(1u16 << offset)
        == field) by (bit_vector)
        requires
            offset < 16,
    ;
}

/// `field` with the bit at `offset` set or cleared.
pub fn set_bit(field: u16, offset: u8, on: bool) -> (r: u16)
    requires
        offset < 16,
    ensures
        r == with_bit(field, offset, on),
{
    if on {
        field | (1u16 << offset)
    } else {
        field & !(1u16 << offset)
    }
}

pub open spec fn on_off_text(v: bool) -> Seq<char> {
    if v {
        "set"@
    } else {
        "clear"@
    }
}

pub fn on_off(v: bool) -> (r: &'static str)
    ensures
        r@ == on_off_text(v),
{
    if v {
        "set"
    } else {
        "clear"
    }
}

/// The complaint about REGULAR being set together with BOLD or ITALIC.
pub open spec fn regular_warning() -> Seq<char> {
    "OS/2.fsSelection REGULAR (bit 6) must not be set together with BOLD (bit 5) or ITALIC (bit 0)."@
}

pub open spec fn bold_warning(bold: bool, mac_bold: bool) -> Seq<char> {
    "OS/2.fsSelection BOLD (bit 5) is "@ + on_off_text(bold)
        + " but head.macStyle BOLD (bit 0) is "@ + on_off_text(mac_bold)
        + "; these should agree."@
}

pub open spec fn italic_warning(italic: bool, mac_italic: bool) -> Seq<char> {
    "OS/2.fsSelection ITALIC (bit 0) is "@ + on_off_text(italic)
        + " but head.macStyle ITALIC (bit 1) is "@ + on_off_text(mac_italic)
        + "; these should agree."@
}

/// The complaints about flags that contradict each other: REGULAR excludes BOLD and
/// ITALIC, and the two BOLD bits and the two ITALIC bits agree.
pub open spec fn contradictions(flags: BitFlags) -> Seq<Seq<char>> {
    let italic = has_bit(flags.fs_selection, 0);
    let bold = has_bit(flags.fs_selection, 5);
    let regular = has_bit(flags.fs_selection, 6);
    let mac_bold = has_bit(flags.mac_style, 0);
    let mac_italic = has_bit(flags.mac_style, 1);
    let none = Seq::<Seq<char>>::empty();
    (if regular && (bold || italic) {
        none.push(regular_warning())
    } else {
        none
    }) + (if bold != mac_bold {
        none.push(bold_warning(bold, mac_bold))
    } else {
        none
    }) + (if italic != mac_italic {
        none.push(italic_warning(italic, mac_italic))
    } else {
        none
    })
}

/// The texts that strings hold.
pub open spec fn texts(strings: Seq<String>) -> Seq<Seq<char>> {
    strings.map_values(|s: String| s@)
}

impl BitFlags {
    pub fn fs_selection_bit(&self, offset: u8) -> (r: bool)
        requires
            offset < 16,
        ensures
            r == has_bit(self.fs_selection, offset),
    {
        self.fs_selection & (1u16 << offset) != 0
    }

    pub fn mac_style_bit(&self, offset: u8) -> (r: bool)
        requires
            offset < 16,
        ensures
            r == has_bit(self.mac_style, offset),
    {
        self.mac_style & (1u16 << offset) != 0
    }

    pub fn set_fs_selection_bit(&mut self, offset: u8, on: bool)
        requires
            offset < 16,
        ensures
            *final(self) == (BitFlags {
                fs_selection: with_bit(old(self).fs_selection, offset, on),
                ..*old(self)
            }),
    {
        self.fs_selection = set_bit(self.fs_selection, offset, on);
    }

    pub fn set_mac_style_bit(&mut self, offset: u8, on: bool)
        requires
            offset < 16,
        ensures
            *final(self) == (BitFlags {
                mac_style: with_bit(old(self).mac_style, offset, on),
                ..*old(self)
            }),
    {
        self.mac_style = set_bit(self.mac_style, offset, on);
    }

    /// Bits the editor exposes that contradict each other.
    pub fn warnings(&self) -> (r: Vec<String>)
        ensures
            texts(r@) == contradictions(*self),
    {
        let mut out: Vec<String> = Vec::new();
        let italic: bool = self.fs_selection_bit(0);
        let bold: bool = self.fs_selection_bit(5);
        let regular: bool = self.fs_selection_bit(6);
        let mac_bold: bool = self.mac_style_bit(0);
        let mac_italic: bool = self.mac_style_bit(1);
        if regular && (bold || italic) {
            out.push(
                "OS/2.fsSelection REGULAR (bit 6) must not be set together with BOLD (bit 5) or ITALIC (bit 0).".to_owned(),
            );
        }
        if bold != mac_bold {
            let front: String = join3(
                "OS/2.fsSelection BOLD (bit 5) is ",
                on_off(bold),
                " but head.macStyle BOLD (bit 0) is ",
            );
            out.push(join3(front.as_str(), on_off(mac_bold), "; these should agree."));
        }
        if italic != mac_italic {
            let front: String = join3(
                "OS/2.fsSelection ITALIC (bit 0) is ",
                on_off(italic),
                " but head.macStyle ITALIC (bit 1) is ",
            );
            out.push(join3(front.as_str(), on_off(mac_italic), "; these should agree."));
        }
        assert(texts(out@) =~= contradictions(*self));
        out
    }

    /// Render a field as a 16-character binary string, most significant bit first.
    pub fn binary(value: u16) -> (r: String)
        ensures
            r@ == binary_text(value),
    {
        let mut out: Vec<char> = Vec::new();
        for i in 0..16u8
            invariant
                out@ == binary_text(value).take(i as int),
        {
            let c: char = if value & (1u16 << (15 - i)) != 0 {
                '1'
            } else {
                '0'
            };
            out.push(c);
            assert(binary_text(value).take(i + 1) =~= binary_text(value).take(i as int).push(c));
        }
        assert(binary_text(value).take(16) =~= binary_text(value));
        string_of(&out)
    }
}

/// A field in binary: sixteen characters, most significant bit first.
pub open spec fn binary_text(value: u16) -> Seq<char> {
    Seq::new(
        16,
        |i: int|
            if has_bit(value, (15 - i) as u8) {
                '1'
            } else {
                '0'
            },
    )
}

/// The labels of the bits that are set, in editor order, joined by commas.
pub open spec fn set_labels(value: u16, defs: Seq<(u8, Seq<char>, Seq<char>)>) -> Seq<char>
    decreases defs.len(),
{
    if defs.len() == 0 {
        Seq::empty()
    } else {
        let front = set_labels(value, defs.drop_last());
        if !has_bit(value, defs.last().0) {
            front
        } else if any_set(value, defs.drop_last()) {
            front + ", "@ + defs.last().1
        } else {
            defs.last().1
        }
    }
}

/// True when one of the bits is set.
pub open spec fn any_set(value: u16, defs: Seq<(u8, Seq<char>, Seq<char>)>) -> bool {
    exists|i: int| 0 <= i < defs.len() && has_bit(value, (#[trigger] defs[i]).0)
}

/// Say which of the bits are set.
pub fn describe_bits(value: u16, definitions: &Vec<BitDef>) -> (r: String)
    requires
        forall|i: int| 0 <= i < definitions@.len() ==> (#[trigger] definitions@[i]).offset < 16,
    ensures
        r@ == (if any_set(value, defs_view(definitions@)) {
            set_labels(value, defs_view(definitions@))
        } else {
            "none of the editable bits set"@
        }),
{
    let ghost all = defs_view(definitions@);
    let mut text: String = String::new();
    let mut any: bool = false;
    for i in 0..definitions.len()
        invariant
            all == defs_view(definitions@),
            forall|k: int| 0 <= k < definitions@.len() ==> (#[trigger] definitions@[k]).offset < 16,
            any == any_set(value, all.take(i as int)),
            text@ == set_labels(value, all.take(i as int)),
    {
        let def: &BitDef = &definitions[i];
        assert(all[i as int] == (def.offset, def.label@, def.hint@));
        assert(def.offset < 16);
        proof {
            let front = all.take(i as int);
            let next = all.take(i + 1);
            assert(next.drop_last() =~= front);
            assert(next.last() == all[i as int]);
            if any_set(value, front) {
                let k = choose|k: int| 0 <= k < front.len() && has_bit(value, (#[trigger] front[k]).0);
                assert(next[k] == front[k]);
            }
            if any_set(value, next) {
                let k = choose|k: int| 0 <= k < next.len() && has_bit(value, (#[trigger] next[k]).0);
                if k < front.len() {
                    assert(front[k] == next[k]);
                }
            }
            assert(next[i as int] == all[i as int]);
        }
        if value & (1u16 << def.offset) != 0 {
            text = if any {
                join3(text.as_str(), ", ", def.label)
            } else {
                def.label.to_owned()
            };
            any = true;
        }
    }
    assert(all.take(all.len() as int) =~= all);
    if any {
        text
    } else {
        "none of the editable bits set".to_owned()
    }
}

} // verus!
