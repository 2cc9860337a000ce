//! What the editors and the command line ask for.
use vstd::prelude::*;

use crate::axes::AxisView;
use crate::bits::has_bit;
use crate::command::{axis_arg, axis_index, bit_arg, flagged_by, name_arg, named_by};
use crate::editors::{last_before, stem_of};
use crate::names::{
    planned_deletes, planned_writes, text_of, MANDATORY_IDS, NAME_EDITOR_IDS, OPTIONAL_IDS,
};

verus! {

/// True for the IDs of the family, subfamily, unique, full and PostScript names, which every
/// font has.
pub open spec fn is_always_named(id: u16) -> bool {
    id == 1 || id == 2 || id == 3 || id == 4 || id == 6
}

/// True for the IDs of the typographic and the WWS names, which a font may have.
pub open spec fn is_sometimes_named(id: u16) -> bool {
    id == 16 || id == 17 || id == 21 || id == 22
}

proof fn lemma_ids()
    ensures
        MANDATORY_IDS@ =~= seq![1u16, 2, 3, 4, 6],
        OPTIONAL_IDS@ =~= seq![16u16, 17, 21, 22],
        NAME_EDITOR_IDS@ =~= seq![1u16, 2, 3, 4, 6, 16, 17, 21, 22],
{
}

/// The rows of the Name Editor are those of nine names.
pub proof fn the_name_editor_has_nine_rows(id: u16)
    ensures
        MANDATORY_IDS@.contains(id) <==> is_always_named(id),
        OPTIONAL_IDS@.contains(id) <==> is_sometimes_named(id),
        NAME_EDITOR_IDS@.contains(id) <==> is_always_named(id) || is_sometimes_named(id),
{
    lemma_ids();
    let (m, o, e) = (MANDATORY_IDS@, OPTIONAL_IDS@, NAME_EDITOR_IDS@);
    assert(m[0] == 1 && m[1] == 2 && m[2] == 3 && m[3] == 4 && m[4] == 6);
    assert(o[0] == 16 && o[1] == 17 && o[2] == 21 && o[3] == 22);
    assert(e[0] == 1 && e[1] == 2 && e[2] == 3 && e[3] == 4 && e[4] == 6 && e[5] == 16 && e[6] == 17
        && e[7] == 21 && e[8] == 22);
}

/// A name is written with the text of its row exactly where every font has it or the row holds
/// text, and a name that a font may have is deleted exactly where its row is blank.
pub proof fn rows_are_written_or_deleted(edits: Map<u16, Seq<char>>, id: u16)
    ensures
        planned_writes(edits).contains((id, text_of(edits, id))) <==> is_always_named(id) || (
        is_sometimes_named(id) && text_of(edits, id).len() > 0),
        planned_deletes(edits).contains(id) <==> is_sometimes_named(id) && text_of(
            edits,
            id,
        ).len() == 0,
{
    the_name_editor_has_nine_rows(id);
    let all = crate::names::all_texts(edits, MANDATORY_IDS@);
    let some = crate::names::filled(edits, OPTIONAL_IDS@);
    let row = (id, text_of(edits, id));
    crate::names::lemma_filled(edits, OPTIONAL_IDS@, id);
    let out = planned_writes(edits);
    if all.contains(row) {
        let i = choose|i: int| 0 <= i < all.len() && all[i] == row;
        assert(out[i] == row);
        assert(MANDATORY_IDS@[i] == id);
    }
    if some.contains(row) {
        let i = choose|i: int| 0 <= i < some.len() && some[i] == row;
        assert(out[all.len() + i] == row);
    }
    if MANDATORY_IDS@.contains(id) {
        let i = choose|i: int| 0 <= i < MANDATORY_IDS@.len() && MANDATORY_IDS@[i] == id;
        assert(all[i] == row);
    }
    if out.contains(row) {
        let i = choose|i: int| 0 <= i < out.len() && out[i] == row;
        if i < all.len() {
            assert(all[i] == row);
        } else {
            assert(some[i - all.len()] == row);
        }
    }
}

// ------------------------------------------------------------------------------- command line

/// An axis is found under its tag: it is the first with that tag.
pub proof fn an_axis_is_found_by_its_tag(axes: Seq<AxisView>, tag: Seq<char>)
    ensures
        axis_index(axes, tag) is None <==> forall|i: int|
            0 <= i < axes.len() ==> (#[trigger] axes[i]).tag != tag,
        axis_index(axes, tag) matches Some(i) ==> 0 <= i < axes.len() && axes[i].tag == tag
            && forall|j: int| 0 <= j < i ==> (#[trigger] axes[j]).tag != tag,
    decreases axes.len(),
{
    if axes.len() > 0 {
        let rest = axes.drop_last();
        an_axis_is_found_by_its_tag(rest, tag);
        match axis_index(rest, tag) {
            Some(i) => {
                assert(rest[i] == axes[i]);
                assert forall|j: int| 0 <= j < i implies (#[trigger] axes[j]).tag != tag by {
                    assert(rest[j] == axes[j]);
                }
            },
            None => {
                assert forall|j: int| 0 <= j < axes.len() - 1 implies (#[trigger] axes[j]).tag
                    != tag by {
                    assert(rest[j] == axes[j]);
                }
            },
        }
    }
}

/// An axis argument is for the axis that it names, and only for one that the font has.
pub proof fn an_axis_argument_names_an_axis(arg: Seq<char>, axes: Seq<AxisView>)
    ensures
        axis_arg(arg, axes) matches Ok((i, _)) ==> {
            let at = crate::text::find(arg, '=');
            &&& at < arg.len()
            &&& 0 <= i < axes.len()
            &&& axes[i].tag == arg.take(at)
        },
{
    let at = crate::text::find(arg, '=');
    an_axis_is_found_by_its_tag(axes, arg.take(at));
}

/// An argument for a name sets its text, whatever the arguments before it said of that name, and
/// leaves every other name where they put it.
pub proof fn the_last_argument_for_a_name_counts(
    edits: Map<u16, Seq<char>>,
    args: Seq<Seq<char>>,
    n: int,
    other: u16,
)
    requires
        0 < n <= args.len(),
        named_by(edits, args, n) is Ok,
    ensures
        named_by(edits, args, n - 1) is Ok,
        name_arg(args[n - 1]) matches Ok((id, text)) && {
            let out = named_by(edits, args, n)->Ok_0;
            let before = named_by(edits, args, n - 1)->Ok_0;
            &&& out.dom().contains(id) && out[id] == text
            &&& other != id ==> out.dom().contains(other) == before.dom().contains(other) && (
            before.dom().contains(other) ==> out[other] == before[other])
        },
{
}

/// An argument for a bit puts that bit where it says, and leaves the others where the arguments
/// before it put them. Only one of sixteen bits can be named.
pub proof fn a_bit_argument_sets_its_bit(
    field: u16,
    args: Seq<Seq<char>>,
    flag: Seq<char>,
    n: int,
    other: u8,
)
    requires
        0 < n <= args.len(),
        other < 16,
        flagged_by(field, args, flag, n) is Ok,
    ensures
        bit_arg(args[n - 1], flag) matches Ok((bit, on)) && {
            let out = flagged_by(field, args, flag, n)->Ok_0;
            let before = flagged_by(field, args, flag, n - 1)->Ok_0;
            &&& bit < 16
            &&& has_bit(out, bit) == on
            &&& other != bit ==> has_bit(out, other) == has_bit(before, other)
        },
{
    let (bit, on) = bit_arg(args[n - 1], flag)->Ok_0;
    let before = flagged_by(field, args, flag, n - 1)->Ok_0;
    if bit < 16 {
        crate::bits::other_bits_are_left_alone(before, bit, on, other);
    }
}

// --------------------------------------------------------------------------------- file names

proof fn lemma_last(s: Seq<char>, c: char, n: int)
    requires
        0 <= n <= s.len(),
    ensures
        last_before(s, c, n) is None <==> forall|i: int| 0 <= i < n ==> #[trigger] s[i] != c,
        last_before(s, c, n) matches Some(at) ==> 0 <= at < n && s[at] == c && forall|i: int|
            at < i < n ==> #[trigger] s[i] != c,
    decreases n,
{
    if n > 0 && s[n - 1] != c {
        lemma_last(s, c, n - 1);
    }
}

/// A file name loses what stands behind its last point, and the point.
pub proof fn a_file_name_loses_its_extension(stem: Seq<char>, extension: Seq<char>)
    requires
        stem.len() > 0,
        forall|i: int| 0 <= i < extension.len() ==> #[trigger] extension[i] != '.',
    ensures
        stem_of(stem + seq!['.'] + extension) == stem,
{
    let name = stem + seq!['.'] + extension;
    let n = name.len() as int;
    lemma_last(name, '.', n);
    assert(name[stem.len() as int] == '.');
    let at = last_before(name, '.', n)->0;
    assert forall|i: int| stem.len() < i < n implies #[trigger] name[i] != '.' by {
        assert(name[i] == extension[i - stem.len() - 1]);
    }
    assert(at == stem.len());
    assert(name.take(at) =~= stem);
}

} // verus!
