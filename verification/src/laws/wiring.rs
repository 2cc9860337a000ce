//! What goes where: which table is made from which, which glyph from which, and what a text
//! stands for.
use vstd::prelude::*;

use crate::apply::step_file;
use crate::axes::{entry_of, is_group, is_number, AxisView, EntryView};
use crate::bits::{contradictions, BitFlags};
use crate::cff2::draw::{cubic_result, outcomes, CubicMergeView, CubicView};
use crate::cff2::font::{hvar_written, new_hvar, OutlineKind};
use crate::cff2::read::table_of;
use crate::coord::{is_fixed, Coord};
use crate::error::Problem;
use crate::feature_vars::{
    all_parts, feature_step, font_layout, gpos_parts, gpos_written, gsub_parts, gsub_written,
    layout_in, plain_records, resolved, resolved_table, varied_font, LayoutView, Span, Triple,
};
use crate::fields::glyphs_of;
use crate::finalize::location_value;
use crate::font::{is_axis, tag_text, AxisRecord, NameView};
use crate::glyphs::{glyph_points, glyph_tables, GlyphTablesView, PointsView};
use crate::laws::edits::the_report_says_what_became_of_each_glyph;
use crate::outline::GlyphView;
use crate::overlaps::{cubic, merged_report, merged_tables, overlap_target, quadratic, MergesView};
use crate::mvar::{adjustments_at, mvar_records};
use crate::partial::{glyph_tuples, gvar_tuples, identity_map, is_usable, sparse_tuple};
use crate::stat::PlanView;
use crate::statics::{all_glyph_points, instancing_points, left_edge};
use crate::tables::{
    distinct_tags, font_tables, has_tag, lemma_found_by_tag, remaining_tables_are_carried_over,
    table_bytes, with_remaining, TableView, CFF2, GLYF, GPOS, GSUB, GVAR, HVAR, MAXP, MVAR,
};
use crate::text::{find, is_decimal_digit, is_white, lemma_find_from, lemma_find_is, trimmed};

verus! {

// ----------------------------------------------------------------------------- layout tables

/// What is read of a layout table is its own features, and each of its records in order;
/// nothing is read of one without feature variations.
pub proof fn a_layout_table_has_its_own_records(table: Seq<u8>)
    ensures
        gsub_parts(table) matches Some((features, Some(records))) ==> layout_in(table, GSUB)
            == Some(LayoutView { features, records: all_parts(records) }),
        gpos_parts(table) matches Some((features, Some(records))) ==> layout_in(table, GPOS)
            == Some(LayoutView { features, records: all_parts(records) }),
        gsub_parts(table) matches Some((_, None)) ==> layout_in(table, GSUB) is None,
        gpos_parts(table) matches Some((_, None)) ==> layout_in(table, GPOS) is None,
{
}

/// A layout table is written with the features and the records that its own variations resolve
/// to, under its own tag, as a table of its own kind.
pub proof fn a_layout_table_is_written_as_it_resolves(
    font: Seq<TableView>,
    tag: u32,
    plans: Seq<PlanView>,
    triples: Seq<Triple>,
    spans: Seq<Seq<Span>>,
)
    requires
        tag == GSUB || tag == GPOS,
    ensures
        font_layout(font, tag) is None <==> resolved_table(font, tag, plans, triples, spans) is None,
        resolved_table(font, tag, plans, triples, spans) matches Some(Ok(t)) ==> {
            let old = table_bytes(font, tag)->0;
            let (features, left) = resolved(font_layout(font, tag)->0, plans, triples, spans);
            let records = match left {
                Some(left) => Some(plain_records(left)),
                None => None,
            };
            &&& t.tag == tag
            &&& tag == GSUB ==> gsub_written(old, features, records) == Ok::<Seq<u8>, Seq<char>>(
                t.bytes,
            )
            &&& tag == GPOS ==> gpos_written(old, features, records) == Ok::<Seq<u8>, Seq<char>>(
                t.bytes,
            )
        },
{
    reveal(resolved_table);
}

/// The tables of a font whose feature variations were resolved: the new layout tables in place
/// of the old ones, and every other as it was.
pub proof fn only_layout_tables_are_replaced(
    bytes: Seq<u8>,
    font: Seq<TableView>,
    gsub: Option<Result<TableView, Problem>>,
    gpos: Option<Result<TableView, Problem>>,
) -> (out: Seq<TableView>)
    requires
        gsub matches Some(r) ==> r is Ok && r->Ok_0.tag == GSUB,
        gpos matches Some(r) ==> r is Ok && r->Ok_0.tag == GPOS,
        gsub is Some || gpos is Some,
    ensures
        varied_font(bytes, font, gsub, gpos) == step_file(Ok(out)),
        table_bytes(out, GSUB) == match gsub {
            Some(r) => Some(r->Ok_0.bytes),
            None => table_bytes(font, GSUB),
        },
        table_bytes(out, GPOS) == match gpos {
            Some(r) => Some(r->Ok_0.bytes),
            None => table_bytes(font, GPOS),
        },
        forall|tag: u32|
            tag != GSUB && tag != GPOS ==> #[trigger] table_bytes(out, tag) == table_bytes(
                font,
                tag,
            ),
{
    let none = Seq::<u32>::empty();
    let first = match (gsub, gpos) {
        (Some(a), Some(b)) => seq![a->Ok_0, b->Ok_0],
        (Some(a), None) => seq![a->Ok_0],
        (None, Some(b)) => seq![b->Ok_0],
        (None, None) => Seq::empty(),
    };
    let out = with_remaining(first, font, none);
    assert(distinct_tags(first));
    remaining_tables_are_carried_over(first, font, none, GSUB);
    remaining_tables_are_carried_over(first, font, none, GPOS);
    if gsub is Some {
        assert(first[0].tag == GSUB);
        lemma_found_by_tag(first, 0);
    }
    if gpos is Some {
        let k = first.len() - 1;
        assert(first[k].tag == GPOS);
        lemma_found_by_tag(first, k);
    }
    assert forall|tag: u32| tag != GSUB && tag != GPOS implies #[trigger] table_bytes(out, tag)
        == table_bytes(font, tag) by {
        remaining_tables_are_carried_over(first, font, none, tag);
        if has_tag(first, tag) {
            let i = choose|i: int| 0 <= i < first.len() && (#[trigger] first[i]).tag == tag;
            assert(first[i].tag == GSUB || first[i].tag == GPOS);
        }
    }
    out
}

/// A font without feature variations is not touched.
pub proof fn a_font_without_feature_variations_is_not_touched(
    bytes: Seq<u8>,
    plans: Seq<PlanView>,
    triples: Seq<Triple>,
    gsub: Seq<Seq<Span>>,
    gpos: Seq<Seq<Span>>,
)
    requires
        font_tables(bytes) is Ok,
        font_layout(font_tables(bytes)->Ok_0, GSUB) is None,
        font_layout(font_tables(bytes)->Ok_0, GPOS) is None,
    ensures
        feature_step(bytes, plans, triples, gsub, gpos) == Ok::<Seq<u8>, Problem>(bytes),
{
    reveal(resolved_table);
}

/// The two layout tables are resolved apart from each other.
pub proof fn layout_tables_do_not_mix(
    bytes: Seq<u8>,
    plans: Seq<PlanView>,
    triples: Seq<Triple>,
    gsub: Seq<Seq<Span>>,
    gpos: Seq<Seq<Span>>,
    other: Seq<Seq<Span>>,
)
    requires
        font_tables(bytes) is Ok,
    ensures
        font_layout(font_tables(bytes)->Ok_0, GPOS) is None ==> feature_step(
            bytes,
            plans,
            triples,
            gsub,
            gpos,
        ) == feature_step(bytes, plans, triples, gsub, other),
        font_layout(font_tables(bytes)->Ok_0, GSUB) is None ==> feature_step(
            bytes,
            plans,
            triples,
            gsub,
            gpos,
        ) == feature_step(bytes, plans, triples, other, gpos),
{
    reveal(resolved_table);
}

// ------------------------------------------------------------------------------------- glyphs

/// Every glyph has its own tuples, in the order of `gvar`; a font without one has none.
pub proof fn a_glyph_has_the_tuples_of_gvar(
    font: Seq<TableView>,
    gid: u32,
    count: nat,
    k: int,
)
    ensures
        table_bytes(font, GVAR) is None ==> glyph_tuples(font, gid, count).len() == 0,
        table_bytes(font, GVAR) matches Some(gvar) ==> {
            &&& glyph_tuples(font, gid, count).len() == gvar_tuples(gvar, gid).len()
            &&& 0 <= k < gvar_tuples(gvar, gid).len() ==> glyph_tuples(font, gid, count)[k]
                == sparse_tuple(gvar_tuples(gvar, gid)[k], count)
        },
{
}

/// All glyphs of a font are read, each from its own outline and its own metrics.
pub proof fn every_glyph_is_read(tables: Seq<TableView>, g: int)
    requires
        instancing_points(tables) is Ok,
        0 <= g < instancing_points(tables)->Ok_0.len(),
    ensures
        table_bytes(tables, MAXP) is Some,
        glyphs_of(table_bytes(tables, MAXP)->0) == Some(
            instancing_points(tables)->Ok_0.len() as u16,
        ),
        glyph_tables(tables) matches Ok(t) && glyph_points(t, g as u32) == Ok::<
            PointsView,
            Problem,
        >(instancing_points(tables)->Ok_0[g]),
{
    let n = glyphs_of(table_bytes(tables, MAXP)->0)->0 as int;
    lemma_all_points(glyph_tables(tables)->Ok_0, n, g);
}

proof fn lemma_all_points(t: GlyphTablesView, n: int, g: int)
    requires
        0 <= n,
        all_glyph_points(t, n) is Ok,
    ensures
        all_glyph_points(t, n)->Ok_0.len() == n,
        0 <= g < n ==> glyph_points(t, g as u32) == Ok::<PointsView, Problem>(
            all_glyph_points(t, n)->Ok_0[g],
        ),
    decreases n,
{
    if n > 0 {
        lemma_all_points(t, n - 1, g);
    }
}

/// The left edge of a glyph is that of its box.
pub proof fn the_left_edge_is_that_of_the_box(glyph: GlyphView)
    ensures
        glyph matches GlyphView::Simple { bbox, .. } ==> left_edge(glyph) == bbox.x_min,
        glyph matches GlyphView::Composite { bbox, .. } ==> left_edge(glyph) == bbox.x_min,
        glyph is Empty ==> left_edge(glyph) == 0,
{
}

// ----------------------------------------------------------------------------------- overlaps

/// Overlaps are removed from static fonts only, and only where there are outlines: a font that
/// still varies, in `gvar` or in a CFF2 store, is refused, and so is one without outlines.
pub proof fn only_static_outlines_are_simplified(font: Seq<TableView>)
    ensures
        table_bytes(font, GLYF) is Some && (table_bytes(font, GVAR) matches Some(gvar) && gvar.len()
            >= 20) ==> (overlap_target(font) matches Err(Problem::Unsupported(_))),
        table_bytes(font, GLYF) is None && table_bytes(font, CFF2) is None ==> (overlap_target(font)
            matches Err(Problem::Unsupported(_))),
        table_bytes(font, GLYF) is None && table_bytes(font, CFF2) is Some && table_of(
            table_bytes(font, CFF2)->0,
        ) is Ok && table_of(table_bytes(font, CFF2)->0)->Ok_0.var_store is Some ==> (overlap_target(
            font,
        ) matches Err(Problem::Unsupported(_))),
        overlap_target(font) matches Ok((kind, count)) ==> {
            &&& kind == OutlineKind::Glyf <==> table_bytes(font, GLYF) is Some
            &&& kind == OutlineKind::Glyf ==> glyphs_of(table_bytes(font, MAXP)->0) == Some(count)
            &&& kind == OutlineKind::Cff2 ==> table_of(
                table_bytes(font, CFF2)->0,
            )->Ok_0.charstrings.len() == count
        },
        overlap_target(font) is Err ==> forall|merges: MergesView|
            (#[trigger] merged_tables(font, merges)) is Err,
{
}

/// The report counts every glyph of the font, and names as modified exactly those for whose
/// outlines there is a merge of their own kind.
pub proof fn the_report_is_that_of_the_font(font: Seq<TableView>, merges: MergesView, g: u16)
    requires
        overlap_target(font) is Ok,
    ensures
        ({
            let (kind, count) = overlap_target(font)->Ok_0;
            let r = merged_report(font, merges);
            &&& r.modified.len() + r.untouched + r.failed.len() == count
            &&& r.modified.contains(g) <==> g < count && match (kind, merges) {
                (OutlineKind::Glyf, MergesView::Quadratic(list)) => g < list.len()
                    && list[g as int] is Merged,
                (OutlineKind::Cff2, MergesView::Cubic(list)) => g < list.len()
                    && list[g as int] is Merged,
                _ => false,
            }
        }),
{
    let (kind, count) = overlap_target(font)->Ok_0;
    match kind {
        OutlineKind::Glyf => {
            the_report_says_what_became_of_each_glyph(quadratic(merges), count as int, g);
        },
        OutlineKind::Cff2 => {
            the_report_says_what_became_of_each_glyph(outcomes(cubic(merges)), count as int, g);
        },
    }
}

/// A merge of cubic contours that yields nothing has failed; one that leaves as many contours
/// over the same area was not needed; any other counts.
pub proof fn a_cubic_merge_counts_where_it_changed_something(
    before: int,
    merged: Seq<CubicView>,
    same_area: bool,
)
    ensures
        ({
            let r = cubic_result(before, merged, same_area);
            &&& r is Failed <==> merged.len() == 0
            &&& r is Unneeded <==> merged.len() > 0 && same_area && merged.len() == before
            &&& r matches CubicMergeView::Merged(contours) ==> contours == merged
        }),
{
}

// -------------------------------------------------------------------------------- axis editor

proof fn lemma_number_chars(text: Seq<char>)
    requires
        is_number(text),
    ensures
        text.len() > 0,
        forall|i: int|
            0 <= i < text.len() ==> is_decimal_digit(#[trigger] text[i]) || text[i] == '-'
                || text[i] == '.',
{
    let skip: int = if text.len() > 0 && text[0] == '-' {
        1
    } else {
        0
    };
    let body = if skip == 1 {
        text.skip(1)
    } else {
        text
    };
    let dot = find(body, '.');
    lemma_find_from(body, '.', 0);
    assert(body.take(dot).len() > 0);
    assert forall|i: int| 0 <= i < text.len() implies is_decimal_digit(#[trigger] text[i])
        || text[i] == '-' || text[i] == '.' by {
        if i >= skip {
            let j = i - skip;
            assert(body[j] == text[i]);
            if j < dot {
                assert(body.take(dot)[j] == body[j]);
            } else if j > dot {
                assert(body.skip(dot + 1)[j - dot - 1] == body[j]);
            }
        }
    }
}

proof fn lemma_nothing_to_trim(text: Seq<char>)
    requires
        text.len() > 0 ==> !is_white(text[0]) && !is_white(text[text.len() - 1]),
    ensures
        trimmed(text) == text,
{
}

/// A cell with nothing in it keeps the axis, and one with a number pins it.
pub proof fn a_number_pins_an_axis(a: Seq<char>, axis: Seq<char>)
    requires
        is_number(a),
    ensures
        entry_of(Seq::empty(), axis) == Ok::<EntryView, Problem>(EntryView::Full),
        entry_of(a, axis) == Ok::<EntryView, Problem>(EntryView::Pin(a)),
{
    lemma_number_chars(a);
    let none = Seq::<char>::empty();
    assert(trimmed(none) =~= none);
    lemma_nothing_to_trim(a);
    lemma_find_is(a, ':', a.len() as int);
}

/// Two numbers with a colon between them restrict the axis to the range between them.
pub proof fn two_numbers_restrict_an_axis(a: Seq<char>, b: Seq<char>, axis: Seq<char>)
    requires
        is_number(a),
        is_number(b),
    ensures
        entry_of(a + seq![':'] + b, axis) == Ok::<EntryView, Problem>(
            EntryView::Range { start: a, end: b },
        ),
{
    lemma_number_chars(b);
    let none = Seq::<char>::empty();
    let range = a + seq![':'] + b;
    lemma_range_cell(a, b, none);
    assert(range + none =~= range);
    assert(b + none =~= b);
    lemma_find_is(b, '[', b.len() as int);
    assert(b.take(b.len() as int) =~= b);
    lemma_nothing_to_trim(b);
}

/// A default in brackets behind a range is understood, and refused: the default of an axis
/// cannot be moved.
pub proof fn a_default_cannot_be_moved(a: Seq<char>, b: Seq<char>, c: Seq<char>, axis: Seq<char>)
    requires
        is_number(a),
        is_number(b),
    ensures
        entry_of(a + seq![':'] + b + (seq!['['] + c + seq![']']), axis) == Err::<
            EntryView,
            Problem,
        >(Problem::DefaultMoveUnsupported { axis }),
{
    lemma_number_chars(b);
    let group = seq!['['] + c + seq![']'];
    assert(group[0] == '[' && group[group.len() - 1] == ']');
    lemma_range_cell(a, b, group);
    let rest = b + group;
    assert(rest[b.len() as int] == '[');
    assert forall|j: int| 0 <= j < b.len() implies rest[j] != '[' by {
        assert(rest[j] == b[j]);
    }
    lemma_find_is(rest, '[', b.len() as int);
    assert(rest.take(b.len() as int) =~= b);
    assert(rest.skip(b.len() as int) =~= group);
    lemma_nothing_to_trim(b);
    lemma_nothing_to_trim(group);
    assert(is_group(group));
}

proof fn lemma_range_cell(a: Seq<char>, b: Seq<char>, tail: Seq<char>)
    requires
        is_number(a),
        is_number(b),
        tail.len() > 0 ==> tail[tail.len() - 1] == ']',
    ensures
        ({
            let text = a + seq![':'] + b + tail;
            &&& trimmed(text) == text
            &&& find(text, ':') == a.len()
            &&& trimmed(text.take(a.len() as int)) == a
            &&& text.skip(a.len() as int + 1) == b + tail
            &&& text.len() > a.len()
        }),
{
    lemma_number_chars(a);
    lemma_number_chars(b);
    let text = a + seq![':'] + b + tail;
    assert(text[0] == a[0]);
    if tail.len() > 0 {
        assert(text[text.len() - 1] == tail[tail.len() - 1]);
    } else {
        assert(text[text.len() - 1] == b[b.len() - 1]);
    }
    lemma_nothing_to_trim(text);
    assert(text[a.len() as int] == ':');
    assert forall|j: int| 0 <= j < a.len() implies text[j] != ':' by {
        assert(text[j] == a[j]);
    }
    lemma_find_is(text, ':', a.len() as int);
    assert(text.take(a.len() as int) =~= a);
    lemma_nothing_to_trim(a);
    assert(text.skip(a.len() as int + 1) =~= b + tail);
}

/// An axis is shown as `fvar` describes it: with its tag, its extent and its default, and
/// hidden where the lowest bit of its flags is set.
pub proof fn an_axis_is_shown_as_fvar_describes_it(
    axis: AxisView,
    record: AxisRecord,
    names: Seq<NameView>,
)
    requires
        is_axis(axis, record, names),
    ensures
        axis.tag == tag_text(record.tag),
        is_fixed(axis.min, record.min as int),
        is_fixed(axis.default, record.default as int),
        is_fixed(axis.max, record.max as int),
        axis.hidden <==> record.flags & 1 == 1,
{
    let flags = record.flags;
    assert(flags & 1u16 == flags % 2u16) by (bit_vector);
}

// ----------------------------------------------------------------------------------- bit flags

/// There is a complaint about flags exactly where REGULAR stands together with BOLD or ITALIC,
/// or where `OS/2` and `head` disagree on BOLD or on ITALIC.
pub proof fn contradicting_flags_are_complained_about(flags: BitFlags)
    ensures
        ({
            let (f, m) = (flags.fs_selection, flags.mac_style);
            let (italic, bold, regular) = (f & 1 != 0, f & 32 != 0, f & 64 != 0);
            let (mac_bold, mac_italic) = (m & 1 != 0, m & 2 != 0);
            contradictions(flags).len() == (if regular && (bold || italic) {
                1int
            } else {
                0
            }) + (if bold != mac_bold {
                1int
            } else {
                0
            }) + (if italic != mac_italic {
                1int
            } else {
                0
            })
        }),
{
    assert(1u16 << 0u8 == 1u16 && 1u16 << 1u8 == 2u16 && 1u16 << 5u8 == 32u16 && 1u16 << 6u8
        == 64u16) by (bit_vector);
}

// ------------------------------------------------------------------------------------ location

/// The value on an axis is that of the first entry for it.
pub proof fn a_location_has_one_value_for_an_axis(
    location: Seq<(Seq<char>, Coord)>,
    tag: Seq<char>,
    i: int,
)
    requires
        0 <= i < location.len(),
        location[i].0 == tag,
        forall|j: int| 0 <= j < i ==> (#[trigger] location[j]).0 != tag,
    ensures
        location_value(location, tag) == Some(location[i].1),
    decreases location.len(),
{
    if i > 0 {
        let rest = location.skip(1);
        assert(location[0].0 != tag);
        assert forall|j: int| 0 <= j < i - 1 implies (#[trigger] rest[j]).0 != tag by {
            assert(rest[j] == location[j + 1]);
        }
        a_location_has_one_value_for_an_axis(rest, tag, i - 1);
    }
}

/// The adjustments of a font at a location are those of its `MVAR` there, and a font without
/// one has none.
pub proof fn adjustments_are_those_of_mvar(
    tables: Seq<TableView>,
    coords: Seq<i16>,
    tag: u32,
    d: i32,
)
    ensures
        table_bytes(tables, MVAR) is None ==> adjustments_at(tables, coords).len() == 0,
        table_bytes(tables, MVAR) matches Some(mvar) ==> (adjustments_at(tables, coords).contains(
            (tag, d),
        ) <==> d != 0 && mvar_records(mvar, coords).contains((tag, Some(d)))),
{
    if let Some(mvar) = table_bytes(tables, MVAR) {
        crate::mvar::every_delta_comes_from_a_record(mvar_records(mvar, coords), tag, d);
    }
}

/// What says how advances vary is the old table over what is left of its store; where nothing
/// is left of it, or the font had none, the output has none.
pub proof fn advances_vary_over_what_is_left(font: Seq<TableView>, store: Option<Seq<u8>>)
    ensures
        store is None || table_bytes(font, HVAR) is None ==> new_hvar(font, store) is None,
        new_hvar(font, store) matches Some(Ok(t)) ==> t.tag == HVAR && hvar_written(
            table_bytes(font, HVAR)->0,
            store->0,
        ) == Ok::<Seq<u8>, Seq<char>>(t.bytes),
{
}

/// A segment map counts where it leaves the default and both ends of an axis in place, and no
/// other does; the one with only these counts.
pub proof fn a_segment_map_leaves_the_ends_in_place(map: Seq<(i16, i16)>, v: i16)
    requires
        v == -16384 || v == 0 || v == 16384,
    ensures
        is_usable(map) ==> map.contains((v, v)),
        is_usable(identity_map()),
        (forall|i: int| 0 <= i < map.len() ==> (#[trigger] map[i]).0 != v) ==> !is_usable(map),
{
    let m = identity_map();
    assert(m[0] == ((-16384) as i16, (-16384) as i16) && m[1] == (0i16, 0i16) && m[2] == (
        16384i16,
        16384i16,
    ));
    if map.contains((v, v)) {
        let i = choose|i: int| 0 <= i < map.len() && map[i] == (v, v);
        assert(map[i].0 == v);
    }
}

} // verus!
