//! What instancing a font with CFF2 outlines does with DICTs, glyphs and advances.
use vstd::prelude::*;

use crate::cff2::dict::{dict_number, dict_operator, DictValue, Entry};
use crate::cff2::font::{advance_index, cff2_tables, moved_metrics};
use crate::cff2::instance::{dict_of_glyph, glyph_env, instance_parts};
use crate::cff2::private::{
    blend_outcome, encoded_values, entry_outcome, initial_state, plain, private_from, resolved_from,
    varies, with_operands, Outcome, State, Value,
};
use crate::cff2::read::{
    initial_vsindex, integer_of, kept_top_entries, private_without_subrs, TableView,
};
use crate::cff2::charstring::Resolved;
use crate::fields::{hhea_bytes, hhea_fields, HheaFields};
use crate::glyphs::{advance_of, bearing_of, or_zero_i, or_zero_u};
use crate::laws::charstrings::{
    a_global_call_inlines_a_global_subroutine, a_local_call_inlines_a_local_subroutine,
    are_operands, is_bias, rewrites_as_body,
};
use crate::mvar::{adjusted_hhea, saturated_u16};
use crate::tables::{table_bytes, CFF2, HHEA, HMTX};

verus! {

// -------------------------------------------------------------------------------- Private DICTs

/// Numbers one after another, as a DICT writes them.
pub open spec fn dict_numbers(list: Seq<DictValue>) -> Seq<u8>
    decreases list.len(),
{
    if list.len() == 0 {
        Seq::empty()
    } else {
        dict_number(list[0]) + dict_numbers(list.skip(1))
    }
}

proof fn lemma_plain_values(list: Seq<DictValue>)
    ensures
        encoded_values(list.map_values(|v: DictValue| plain(v))) == dict_numbers(list),
    decreases list.len(),
{
    let values = list.map_values(|v: DictValue| plain(v));
    if list.len() > 0 {
        lemma_plain_values(list.skip(1));
        assert(values.skip(1) =~= list.skip(1).map_values(|v: DictValue| plain(v)));
        assert(values[0].deltas.len() == 0);
        assert(!varies(values[0]));
    }
}

/// True for an entry that has nothing to do with variations or subroutines: its operator is
/// not 19, 22 or 23.
pub open spec fn is_ordinary(e: Entry) -> bool {
    e.operator != 19 && e.operator != 22 && e.operator != 23
}

/// The entries from number `i` on, one after another.
pub open spec fn entry_bytes(entries: Seq<Entry>, i: int) -> Seq<u8>
    decreases entries.len() - i,
{
    if i < 0 || i >= entries.len() {
        Seq::empty()
    } else {
        dict_numbers(entries[i].operands) + dict_operator(entries[i].operator) + entry_bytes(
            entries,
            i + 1,
        )
    }
}

/// A Private DICT without blends keeps its entries: each with its numbers and its operator, in
/// order.
pub proof fn a_private_dict_without_blends_keeps_its_entries(
    entries: Seq<Entry>,
    region_counts: Seq<nat>,
    resolved: Seq<Value>,
    keeps_store: bool,
)
    requires
        forall|i: int| 0 <= i < entries.len() ==> is_ordinary(#[trigger] entries[i]),
    ensures
        private_from(initial_state(), entries, 0, region_counts, resolved, keeps_store)
            matches Outcome::Done(s) && s.out == entry_bytes(entries, 0),
{
    lemma_ordinary(initial_state(), entries, 0, region_counts, resolved, keeps_store);
    assert(Seq::<u8>::empty() + entry_bytes(entries, 0) =~= entry_bytes(entries, 0));
}

proof fn lemma_ordinary(
    s: State,
    entries: Seq<Entry>,
    i: int,
    region_counts: Seq<nat>,
    resolved: Seq<Value>,
    keeps_store: bool,
)
    requires
        0 <= i <= entries.len(),
        s.carried.len() == 0,
        forall|k: int| i <= k < entries.len() ==> is_ordinary(#[trigger] entries[k]),
    ensures
        private_from(s, entries, i, region_counts, resolved, keeps_store) matches Outcome::Done(r)
            && r.out == s.out + entry_bytes(entries, i),
    decreases entries.len() - i,
{
    if i < entries.len() {
        let e = entries[i];
        assert(is_ordinary(e));
        lemma_plain_values(e.operands);
        assert(with_operands(s.carried, e.operands) =~= e.operands.map_values(
            |v: DictValue| plain(v),
        ));
        let next = entry_outcome(s, e, region_counts, resolved, keeps_store)->Done_0;
        lemma_ordinary(next, entries, i + 1, region_counts, resolved, keeps_store);
        let r = private_from(s, entries, i, region_counts, resolved, keeps_store)->Done_0;
        assert(r.out =~= s.out + entry_bytes(entries, i));
    } else {
        assert(s.out + entry_bytes(entries, i) =~= s.out);
    }
}

/// The offset of subroutines is dropped, since the writer puts it in anew, and the choice of
/// variation data is kept exactly where there is a store left to choose from.
pub proof fn offsets_and_choices_in_a_private_dict(
    entry: Entry,
    region_counts: Seq<nat>,
    resolved: Seq<Value>,
    keeps_store: bool,
)
    requires
        entry.operator == 19 || (entry.operator == 22 && entry.operands.len() > 0
            && entry.operands[0] is Integer),
    ensures
        private_from(initial_state(), seq![entry], 0, region_counts, resolved, keeps_store)
            matches Outcome::Done(s) && s.out == if entry.operator == 22 && keeps_store {
            entry.raw
        } else {
            Seq::empty()
        },
{
    let next = entry_outcome(initial_state(), entry, region_counts, resolved, keeps_store)->Done_0;
    assert(private_from(next, seq![entry], 1, region_counts, resolved, keeps_store)
        == Outcome::Done(next));
    assert(Seq::<u8>::empty() + entry.raw =~= entry.raw);
}

/// Rows of DICT numbers, one after another.
pub open spec fn joined_values(rows: Seq<Seq<DictValue>>) -> Seq<DictValue>
    decreases rows.len(),
{
    if rows.len() == 0 {
        Seq::empty()
    } else {
        joined_values(rows.drop_last()) + rows.last()
    }
}

proof fn lemma_joined_values(rows: Seq<Seq<DictValue>>, width: int, k: int)
    requires
        0 <= width,
        forall|i: int| 0 <= i < rows.len() ==> (#[trigger] rows[i]).len() == width,
        0 <= k < rows.len(),
    ensures
        joined_values(rows).len() == rows.len() * width,
        0 <= k * width,
        (k + 1) * width == k * width + width,
        (k + 1) * width <= joined_values(rows).len(),
        joined_values(rows).subrange(k * width, (k + 1) * width) == rows[k],
    decreases rows.len(),
{
    let n = rows.len() as int;
    let front = rows.drop_last();
    let before = joined_values(front);
    assert(rows[n - 1].len() == width);
    lemma_joined_values_len(front, width);
    assert((n - 1) * width + width == n * width) by (nonlinear_arith);
    assert(0 <= k * width && (k + 1) * width == k * width + width && k * width <= (n - 1) * width)
        by (nonlinear_arith)
        requires
            0 <= k < n,
            0 <= width,
    ;
    if k < n - 1 {
        lemma_joined_values(front, width, k);
        assert(joined_values(rows).subrange(k * width, (k + 1) * width) =~= before.subrange(
            k * width,
            (k + 1) * width,
        ));
    } else {
        assert(joined_values(rows).subrange(k * width, (k + 1) * width) =~= rows[k]);
    }
}

proof fn lemma_joined_values_len(rows: Seq<Seq<DictValue>>, width: int)
    requires
        0 <= width,
        forall|i: int| 0 <= i < rows.len() ==> (#[trigger] rows[i]).len() == width,
    ensures
        joined_values(rows).len() == rows.len() * width,
    decreases rows.len(),
{
    if rows.len() > 0 {
        let n = rows.len() as int;
        assert(rows[n - 1].len() == width);
        lemma_joined_values_len(rows.drop_last(), width);
        assert((n - 1) * width + width == n * width) by (nonlinear_arith);
    }
}

/// True for an entry that blends: its operator is 23, and its operands are base values, then a
/// row of deltas for each of them, then how many they are.
pub open spec fn is_dict_blend(
    e: Entry,
    bases: Seq<DictValue>,
    rows: Seq<Seq<DictValue>>,
    regions: int,
) -> bool {
    &&& e.operator == 23
    &&& 0 < bases.len() <= 65535
    &&& rows.len() == bases.len()
    &&& forall|i: int| 0 <= i < rows.len() ==> (#[trigger] rows[i]).len() == regions
    &&& e.operands == (bases + joined_values(rows)).push(DictValue::Integer(bases.len() as int))
}

proof fn lemma_resolved_from(
    s: State,
    resolved: Seq<Value>,
    bases: Seq<DictValue>,
    rows: Seq<Seq<DictValue>>,
    regions: int,
    i: int,
)
    requires
        0 <= i <= bases.len(),
        rows.len() == bases.len(),
        0 <= regions,
        forall|k: int| 0 <= k < rows.len() ==> (#[trigger] rows[k]).len() == regions,
        s.used == i,
        i <= resolved.len(),
        s.carried == resolved.take(i),
    ensures
        ({
            let n = bases.len() as int;
            let r = resolved_from(s, resolved, bases + joined_values(rows), n, regions, i);
            if resolved.len() < n {
                r == (Outcome::Ask {
                    vsindex: s.vsindex,
                    base: bases[resolved.len() as int],
                    row: rows[resolved.len() as int],
                })
            } else {
                r == Outcome::Done(State { carried: resolved.take(n), used: n as nat, ..s })
            }
        }),
    decreases bases.len() - i,
{
    let n = bases.len() as int;
    let operands = bases + joined_values(rows);
    if i < n {
        if resolved.len() <= i {
            lemma_joined_values(rows, regions, i);
            assert(operands.subrange(n + i * regions, n + (i + 1) * regions) =~= joined_values(
                rows,
            ).subrange(i * regions, (i + 1) * regions));
            assert(operands[i] == bases[i]);
        } else {
            let next = State { carried: s.carried.push(resolved[i]), used: s.used + 1, ..s };
            assert(next.carried =~= resolved.take(i + 1));
            lemma_resolved_from(next, resolved, bases, rows, regions, i + 1);
        }
    }
}

/// A blend in a Private DICT asks for what its values resolve to one after another, each with
/// its base and its deltas; once all are known they take the place of the blend, in front of
/// the operator behind it.
pub proof fn a_dict_blend_becomes_what_it_resolves_to(
    blend: Entry,
    user: Entry,
    bases: Seq<DictValue>,
    rows: Seq<Seq<DictValue>>,
    region_counts: Seq<nat>,
    resolved: Seq<Value>,
    keeps_store: bool,
)
    requires
        region_counts.len() > 0,
        is_dict_blend(blend, bases, rows, region_counts[0] as int),
        is_ordinary(user),
        user.operands.len() == 0,
    ensures
        ({
            let n = bases.len() as int;
            let r = private_from(
                initial_state(),
                seq![blend, user],
                0,
                region_counts,
                resolved,
                keeps_store,
            );
            if resolved.len() < n {
                r == (Outcome::Ask {
                    vsindex: 0,
                    base: bases[resolved.len() as int],
                    row: rows[resolved.len() as int],
                })
            } else {
                r matches Outcome::Done(s) && s.out == encoded_values(resolved.take(n))
                    + dict_operator(user.operator)
            }
        }),
{
    reveal(blend_outcome);
    let n = bases.len() as int;
    let s = initial_state();
    let entries = seq![blend, user];
    let regions = region_counts[0] as int;
    let operands = bases + joined_values(rows);
    let stack = with_operands(s.carried, blend.operands);
    lemma_joined_values_len(rows, regions);
    assert(n * (regions + 1) == n + n * regions) by (nonlinear_arith);
    assert(stack =~= blend.operands.map_values(|v: DictValue| plain(v)));
    assert(stack.last().base == DictValue::Integer(n));
    let rest = stack.drop_last();
    let needed = n * (regions + 1);
    assert(rest.len() == needed);
    let taken = rest.skip(rest.len() - needed);
    assert(taken =~= rest);
    assert forall|i: int| 0 <= i < taken.len() implies (#[trigger] taken[i]).deltas.len() == 0 by {
        assert(taken[i] == plain(blend.operands[i]));
    }
    assert(taken.map_values(|v: Value| v.base) =~= operands) by {
        assert forall|i: int| 0 <= i < taken.len() implies (#[trigger] taken[i]).base
            == operands[i] by {
            assert(taken[i] == plain(blend.operands[i]));
            assert(blend.operands[i] == operands[i]);
        }
    }
    let start = State { carried: rest.take(rest.len() - needed), ..s };
    assert(start.carried =~= resolved.take(0));
    lemma_resolved_from(start, resolved, bases, rows, regions, 0);
    assert(entries[0] == blend && entries[1] == user);
    let first = entry_outcome(s, blend, region_counts, resolved, keeps_store);
    assert(first == resolved_from(start, resolved, operands, n, regions, 0));
    if resolved.len() >= n {
        let next = first->Done_0;
        assert(with_operands(next.carried, user.operands) =~= resolved.take(n));
        let last = entry_outcome(next, user, region_counts, resolved, keeps_store)->Done_0;
        assert(private_from(last, entries, 2, region_counts, resolved, keeps_store)
            == Outcome::Done(last));
        assert(private_from(next, entries, 1, region_counts, resolved, keeps_store)
            == Outcome::Done(last));
        assert(last.out =~= encoded_values(resolved.take(n)) + dict_operator(user.operator));
    }
}

/// Values that no longer vary are written as plain numbers.
pub proof fn values_that_do_not_vary_are_plain(values: Seq<Value>)
    requires
        forall|i: int| 0 <= i < values.len() ==> !varies(#[trigger] values[i]),
    ensures
        encoded_values(values) == dict_numbers(values.map_values(|v: Value| v.base)),
    decreases values.len(),
{
    let bases = values.map_values(|v: Value| v.base);
    if values.len() > 0 {
        let rest = values.skip(1);
        assert forall|i: int| 0 <= i < rest.len() implies !varies(#[trigger] rest[i]) by {
            assert(rest[i] == values[i + 1]);
        }
        values_that_do_not_vary_are_plain(rest);
        assert(bases.skip(1) =~= rest.map_values(|v: Value| v.base));
        assert(!varies(values[0]));
    }
}

/// The entries of a Top DICT that are kept are those that are no offsets, as they were and in
/// order.
pub proof fn the_top_dict_keeps_what_is_no_offset(top: Seq<Entry>, e: Entry)
    ensures
        ({
            let is_offset = e.operator == 17 || e.operator == 24 || e.operator == 1236 || e.operator
                == 1237;
            kept_top_entries(top.push(e)) == if is_offset {
                kept_top_entries(top)
            } else {
                kept_top_entries(top).push(e.raw)
            }
        }),
{
    assert(top.push(e).drop_last() =~= top);
}

/// A Private DICT that is copied keeps every entry byte for byte, but for the offset of
/// subroutines.
pub proof fn a_copied_private_dict_keeps_its_entries(entries: Seq<Entry>, e: Entry)
    ensures
        private_without_subrs(entries.push(e)) == if e.operator == 19 {
            private_without_subrs(entries)
        } else {
            private_without_subrs(entries) + e.raw
        },
{
    assert(entries.push(e).drop_last() =~= entries);
}

// --------------------------------------------------------------------------------------- glyphs

/// A glyph calls the local subroutines of the font DICT that it belongs to.
pub proof fn a_glyph_calls_the_subroutines_of_its_dict(
    source: TableView,
    gid: u32,
    region_counts: Seq<usize>,
    resolved: Seq<Resolved>,
    args: Seq<int>,
    i: int,
    bias: int,
)
    requires
        dict_of_glyph(source.fd_select, source.font_dicts.len() as int, gid) is Ok,
        are_operands(args),
        -32768 <= i - bias <= 32767,
        ({
            let fd = dict_of_glyph(source.fd_select, source.font_dicts.len() as int, gid)->Ok_0;
            let subrs = source.font_dicts[fd].local_subrs;
            0 <= i < subrs.len() && is_bias(bias, subrs.len() as int)
        }),
    ensures
        ({
            let fd = dict_of_glyph(source.fd_select, source.font_dicts.len() as int, gid)->Ok_0;
            let env = glyph_env(source, fd, region_counts, resolved);
            rewrites_as_body(env, args, i - bias, 10, source.font_dicts[fd].local_subrs[i])
        }),
{
    let fd = dict_of_glyph(source.fd_select, source.font_dicts.len() as int, gid)->Ok_0;
    let env = glyph_env(source, fd, region_counts, resolved);
    a_local_call_inlines_a_local_subroutine(env, args, i, bias);
}

/// A glyph calls the global subroutines of the table, whatever font DICT it belongs to.
pub proof fn a_glyph_calls_the_subroutines_of_the_table(
    source: TableView,
    fd: int,
    region_counts: Seq<usize>,
    resolved: Seq<Resolved>,
    args: Seq<int>,
    i: int,
    bias: int,
)
    requires
        0 <= fd < source.font_dicts.len(),
        0 <= i < source.global_subrs.len(),
        is_bias(bias, source.global_subrs.len() as int),
        are_operands(args),
        -32768 <= i - bias <= 32767,
    ensures
        rewrites_as_body(
            glyph_env(source, fd, region_counts, resolved),
            args,
            i - bias,
            29,
            source.global_subrs[i],
        ),
{
    a_global_call_inlines_a_global_subroutine(
        glyph_env(source, fd, region_counts, resolved),
        args,
        i,
        bias,
    );
}

/// The font DICT of a glyph is the one that the FDSelect sends it to, and the first where
/// there is no FDSelect.
pub proof fn a_glyph_belongs_to_the_dict_it_is_sent_to(source: TableView, gid: u32)
    ensures
        ({
            let dicts = source.font_dicts.len() as int;
            let fd = dict_of_glyph(source.fd_select, dicts, gid);
            &&& source.fd_select is None && dicts > 0 ==> fd == Ok::<int, crate::error::Problem>(0)
            &&& source.fd_select matches Some(select)
                ==> (crate::cff2::instance::selected_dict(select, gid) matches Ok(Some(d)) ==> if d
                < dicts {
                fd == Ok::<int, crate::error::Problem>(d as int)
            } else {
                fd is Err
            })
        }),
{
}

/// A glyph starts with the variation data that its Private DICT chooses.
pub proof fn a_glyph_starts_with_the_choice_of_its_dict(
    source: TableView,
    fd: int,
    region_counts: Seq<usize>,
    resolved: Seq<Resolved>,
    v: int,
)
    requires
        0 <= v <= 65535,
        integer_of(source.font_dicts[fd].private, 22) == Ok::<Option<int>, crate::error::Problem>(
            Some(v),
        ),
    ensures
        glyph_env(source, fd, region_counts, resolved).initial_vsindex == v,
{
}

/// An instance has the glyphs that were rewritten, in order, each in the font DICT that it
/// was in; the DICTs keep what is not rewritten, and no subroutine is left.
pub proof fn an_instance_keeps_its_glyphs_and_dicts(
    source: TableView,
    charstrings: Seq<Seq<u8>>,
    privates: Seq<Seq<u8>>,
    store: Option<Seq<u8>>,
    i: int,
)
    requires
        privates.len() == source.font_dicts.len(),
        0 <= i < privates.len(),
    ensures
        ({
            let p = instance_parts(source, charstrings, privates, store);
            &&& p.charstrings == charstrings
            &&& p.fd_select == source.fd_select
            &&& p.var_store == store
            &&& p.global_subrs.len() == 0
            &&& p.font_dicts.len() == source.font_dicts.len()
            &&& p.font_dicts[i].private == privates[i]
            &&& p.font_dicts[i].local_subrs.len() == 0
            &&& p.font_dicts[i].other_entries.len() == source.font_dicts[i].other_entries.len()
            &&& forall|k: int|
                0 <= k < p.font_dicts[i].other_entries.len()
                    ==> #[trigger] p.font_dicts[i].other_entries[k]
                    == source.font_dicts[i].other_entries[k].raw
        }),
{
}

// ------------------------------------------------------------------------------------- advances

/// Each advance is moved by the delta of its own delta set, as far as the field goes, and no
/// side bearing moves. Where `HVAR` has no map, glyph number `gid` has delta set `gid` of the
/// first subtable; a font without `HVAR` keeps its advances.
pub proof fn advances_move_by_their_deltas(
    hmtx: Seq<u8>,
    count: u16,
    hvar: Option<Seq<u8>>,
    deltas: Seq<Seq<i32>>,
    n: int,
    gid: int,
)
    requires
        0 <= gid < n <= 0xffff,
    ensures
        ({
            let out = moved_metrics(hmtx, count, hvar, deltas, n);
            let was = or_zero_u(advance_of(hmtx, count, gid as u32));
            &&& out.len() == n
            &&& out[gid].1 == or_zero_i(bearing_of(hmtx, count, gid as u32))
            &&& hvar is None ==> out[gid].0 == was
            &&& hvar matches Some(hvar) ==> {
                &&& advance_index(hvar, gid) matches Some((outer, inner)) ==> out[gid].0 == if outer
                    < deltas.len() && inner < deltas[outer as int].len() {
                    saturated_u16(was + deltas[outer as int][inner as int])
                } else {
                    was as u16
                }
                &&& advance_index(hvar, gid) is None ==> out[gid].0 == was
                &&& crate::cff2::font::hvar_part(hvar, 8) is None ==> advance_index(hvar, gid)
                    == Some((0u16, gid as u16))
            }
        }),
{
}

/// The tables of the outlines agree with each other: `hhea` says how many long metrics `hmtx`
/// has, so that every glyph has the advance and the bearing that it was given.
pub proof fn the_cff2_tables_agree(
    font: Seq<crate::tables::TableView>,
    cff2: Seq<u8>,
    metrics: Seq<(u16, i16)>,
    adjustments: Seq<(u32, i32)>,
    gid: u32,
)
    requires
        cff2_tables(font, cff2, metrics, adjustments) is Ok,
        gid < metrics.len() <= 0xffff,
    ensures
        ({
            let out = cff2_tables(font, cff2, metrics, adjustments)->Ok_0;
            let hmtx = table_bytes(out, HMTX);
            let hhea = hhea_fields(table_bytes(out, HHEA)->0);
            &&& table_bytes(out, CFF2) == Some(cff2)
            &&& hmtx is Some && table_bytes(out, HHEA) is Some && hhea is Some
            &&& advance_of(hmtx->0, hhea->0.number_of_h_metrics, gid) == Some(
                metrics[gid as int].0,
            )
            &&& bearing_of(hmtx->0, hhea->0.number_of_h_metrics, gid) == Some(
                metrics[gid as int].1,
            )
        }),
{
    let out = cff2_tables(font, cff2, metrics, adjustments)->Ok_0;
    let counted = lemma_cff2_tables(font, cff2, metrics, adjustments);
    crate::tables::lemma_found_by_tag(out, 0);
    crate::tables::lemma_found_by_tag(out, 1);
    crate::tables::lemma_found_by_tag(out, 2);
    crate::statics::metrics_survive_compression(metrics, gid);
    crate::statics::lemma_long_count(metrics, metrics.len() as int);
    crate::laws::outlines::lemma_hhea_count(adjusted_hhea(counted, adjustments));
}

proof fn lemma_cff2_tables(
    font: Seq<crate::tables::TableView>,
    cff2: Seq<u8>,
    metrics: Seq<(u16, i16)>,
    adjustments: Seq<(u32, i32)>,
) -> (counted: HheaFields)
    requires
        cff2_tables(font, cff2, metrics, adjustments) is Ok,
    ensures
        ({
            let out = cff2_tables(font, cff2, metrics, adjustments)->Ok_0;
            &&& out.len() == 3
            &&& crate::tables::distinct_tags(out)
            &&& out[0].tag == CFF2 && out[0].bytes == cff2
            &&& out[1].tag == HMTX && out[1].bytes == crate::statics::hmtx_bytes(metrics)
            &&& out[2].tag == HHEA && out[2].bytes == hhea_bytes(
                adjusted_hhea(counted, adjustments),
            )
            &&& counted.number_of_h_metrics == (crate::statics::long_count(metrics) % 0x1_0000)
        }),
{
    reveal(cff2_tables);
    let f = hhea_fields(table_bytes(font, HHEA)->0)->0;
    HheaFields {
        number_of_h_metrics: (crate::statics::long_count(metrics) % 0x1_0000) as u16,
        ..f
    }
}

/// Where `HVAR` has a map for advances, whose offset stands at byte 8, the delta set of a glyph
/// is the one that the map gives.
pub proof fn the_advance_map_gives_the_delta_sets(hvar: Seq<u8>, gid: int)
    requires
        hvar.len() >= 20,
        0 <= gid <= 0xffff,
    ensures
        ({
            let at = crate::bytes::u32_at(hvar, 8);
            advance_index(hvar, gid) == if 0 < at <= hvar.len() {
                crate::cff2::font::mapped_index(hvar.skip(at), gid as u32)
            } else {
                Some((0u16, gid as u16))
            }
        }),
{
}

/// A choice of variation data in a Private DICT holds for the blends behind it.
pub proof fn a_dict_choice_holds_for_what_follows(
    choice: Entry,
    blend: Entry,
    v: int,
    bases: Seq<DictValue>,
    rows: Seq<Seq<DictValue>>,
    region_counts: Seq<nat>,
    keeps_store: bool,
)
    requires
        0 <= v < region_counts.len(),
        choice.operator == 22,
        choice.operands == seq![DictValue::Integer(v)],
        is_dict_blend(blend, bases, rows, region_counts[v] as int),
    ensures
        private_from(
            initial_state(),
            seq![choice, blend],
            0,
            region_counts,
            Seq::empty(),
            keeps_store,
        ) == (Outcome::Ask { vsindex: v, base: bases[0], row: rows[0] }),
{
    reveal(blend_outcome);
    let n = bases.len() as int;
    let none = Seq::<Value>::empty();
    let entries = seq![choice, blend];
    assert(entries[0] == choice && entries[1] == blend);
    assert(choice.operands[0] == DictValue::Integer(v));
    let s = entry_outcome(initial_state(), choice, region_counts, none, keeps_store)->Done_0;
    let regions = region_counts[v] as int;
    let operands = bases + joined_values(rows);
    let stack = with_operands(s.carried, blend.operands);
    lemma_joined_values_len(rows, regions);
    assert(n * (regions + 1) == n + n * regions) by (nonlinear_arith);
    assert(stack =~= blend.operands.map_values(|v: DictValue| plain(v)));
    assert(stack.last().base == DictValue::Integer(n));
    let rest = stack.drop_last();
    let needed = n * (regions + 1);
    assert(rest.len() == needed);
    let taken = rest.skip(rest.len() - needed);
    assert(taken =~= rest);
    assert forall|i: int| 0 <= i < taken.len() implies (#[trigger] taken[i]).deltas.len() == 0 by {
        assert(taken[i] == plain(blend.operands[i]));
    }
    assert(taken.map_values(|v: Value| v.base) =~= operands) by {
        assert forall|i: int| 0 <= i < taken.len() implies (#[trigger] taken[i]).base
            == operands[i] by {
            assert(taken[i] == plain(blend.operands[i]));
            assert(blend.operands[i] == operands[i]);
        }
    }
    let start = State { carried: rest.take(rest.len() - needed), ..s };
    assert(start.carried =~= none.take(0));
    lemma_resolved_from(start, none, bases, rows, regions, 0);
    assert(entry_outcome(s, blend, region_counts, none, keeps_store) == resolved_from(
        start,
        none,
        operands,
        n,
        regions,
        0,
    ));
    let asked = Outcome::Ask { vsindex: v, base: bases[0], row: rows[0] };
    assert(entry_outcome(s, entries[1], region_counts, none, keeps_store) == asked);
    assert(private_from(s, entries, 1, region_counts, none, keeps_store) == asked);
    assert(entry_outcome(initial_state(), entries[0], region_counts, none, keeps_store)
        == Outcome::Done(s));
}

} // verus!
