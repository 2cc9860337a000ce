//! What a table that was written reads back as.
use vstd::prelude::*;

use crate::bytes::{
    be16, concat, lemma_append, lemma_be16_reads_back, lemma_concat_slice, lemma_take_step,
    lemma_total_len_is_concat_len, lemma_total_len_prefix, total_len, u32_at,
};
use crate::error::Problem;
use super::dict::{dict_entries, entries_from, lemma_entries_extend, DictValue, Entry};
use super::num::{
    dict_offset, fits_index, index_bytes, index_length_is_known, lemma_index_offset_at,
    offset_width,
};
use super::read::{
    empty_font_dict, entry_with, fd_array_of, fd_select_at, fd_select_len, font_dict_from,
    font_dict_of, font_dicts_from, header_of, index_base, index_count, index_get, index_offset,
    integer_of, items_at, items_from, table_of, var_store_of, with_private, FontDictView,
    TableView,
};
use super::table::{
    charstrings_at, every_part_is_where_the_layout_says, fd_array_at, fd_array_len,
    font_dict_bytes, font_dict_lens, font_dicts_bytes, front_bytes, lemma_blocks_prefix,
    lemma_font_dict_total, lemma_front_grows, lemma_front_len, offset_entries, offset_entry,
    offset_entry_views, private_at, private_block, private_bytes, table_bytes, table_len,
    the_top_dict_names_every_part, top_dict_bytes, top_dict_len, top_offsets, var_store_at,
    FontParts, Parts, CHARSTRINGS, FD_ARRAY, FD_SELECT, PRIVATE, SUBRS, VAR_STORE,
};

verus! {

/// `data` holds `part` at `at`.
pub open spec fn holds(data: Seq<u8>, at: int, part: Seq<u8>) -> bool {
    0 <= at && at + part.len() <= data.len() && data.subrange(at, at + part.len()) == part
}

proof fn lemma_index_item_reads(data: Seq<u8>, at: int, items: Seq<Seq<u8>>, i: int)
    requires
        holds(data, at, index_bytes(items)),
        fits_index(items),
        0 <= i < items.len(),
    ensures
        index_get(data.skip(at), i) == Some(items[i]),
{
    let ib = index_bytes(items);
    let tail = data.skip(at);
    let width = offset_width(total_len(items) + 1);
    index_length_is_known(items);
    lemma_index_offset_at(items, i);
    lemma_index_offset_at(items, i + 1);
    lemma_total_len_prefix(items, i);
    lemma_total_len_prefix(items, i + 1);
    lemma_take_step(items, i);
    lemma_total_len_is_concat_len(items);
    assert forall|j: int| 0 <= j < ib.len() implies tail[j] == #[trigger] ib[j] by {
        assert(data.subrange(at, at + ib.len())[j] == data[at + j]);
    }
    assert(tail[0] == ib[0] && tail[1] == ib[1] && tail[2] == ib[2] && tail[3] == ib[3] && tail[4]
        == ib[4]);
    assert(index_count(tail) == items.len());
    assert(0 <= i * width && (i + 1) * width == i * width + width && (i + 2) * width == i * width
        + 2 * width && (i + 2) * width <= (items.len() + 1) * width) by (nonlinear_arith)
        requires
            0 <= i < items.len(),
            1 <= width,
    ;
    assert(tail.subrange(5 + i * width, 5 + (i + 1) * width) =~= ib.subrange(
        5 + i * width,
        5 + (i + 1) * width,
    ));
    assert(tail.subrange(5 + (i + 1) * width, 5 + (i + 1 + 1) * width) =~= ib.subrange(
        5 + (i + 1) * width,
        5 + (i + 1 + 1) * width,
    ));
    let from = total_len(items.take(i));
    let base = index_base(tail);
    assert(index_offset(tail, i) == Some(from));
    assert(index_offset(tail, i + 1) == Some(from + items[i].len()));
    lemma_concat_slice(items, i);
    reveal(index_bytes);
    let head = ib.subrange(0, base);
    assert(ib.len() - concat(items).len() == base);
    assert(tail.subrange(base + from, base + from + items[i].len()) =~= concat(items).subrange(
        from,
        from + items[i].len(),
    ));
}

proof fn lemma_items_from(data: Seq<u8>, at: int, items: Seq<Seq<u8>>, i: int)
    requires
        holds(data, at, index_bytes(items)),
        fits_index(items),
        0 <= i <= items.len(),
        index_count(data.skip(at)) == items.len(),
    ensures
        items_from(data.skip(at), i, items.take(i)) == Ok::<Seq<Seq<u8>>, Problem>(items),
    decreases items.len() - i,
{
    if i == items.len() {
        assert(items.take(i) =~= items);
    } else {
        lemma_index_item_reads(data, at, items, i);
        assert(items.take(i + 1) =~= items.take(i).push(items[i]));
        lemma_items_from(data, at, items, i + 1);
    }
}

/// A written INDEX reads back as its items, wherever in the data it stands.
pub proof fn a_written_index_reads_back(data: Seq<u8>, at: int, items: Seq<Seq<u8>>)
    requires
        holds(data, at, index_bytes(items)),
        fits_index(items),
    ensures
        items_at(data, at) == Ok::<Seq<Seq<u8>>, Problem>(items),
{
    let ib = index_bytes(items);
    let tail = data.skip(at);
    index_length_is_known(items);
    let width = offset_width(total_len(items) + 1);
    assert((items.len() + 1) * width >= 1) by (nonlinear_arith)
        requires
            width >= 1,
    ;
    lemma_total_len_is_concat_len(items);
    assert forall|j: int| 0 <= j < ib.len() implies tail[j] == #[trigger] ib[j] by {
        assert(data.subrange(at, at + ib.len())[j] == data[at + j]);
    }
    assert(tail[0] == ib[0] && tail[1] == ib[1] && tail[2] == ib[2] && tail[3] == ib[3]);
    if items.len() == 0 {
        reveal(index_bytes);
        assert(u32_at(tail, 0) == 0);
    } else {
        lemma_index_offset_at(items, 0);
    }
    lemma_items_from(data, at, items, 0);
    assert(items.take(0) =~= Seq::<Seq<u8>>::empty());
}

/// True when no entry has this operator.
pub open spec fn lacks(entries: Seq<Entry>, operator: int) -> bool {
    forall|i: int| 0 <= i < entries.len() ==> (#[trigger] entries[i]).operator != operator
}

proof fn lemma_entry_with(entries: Seq<Entry>, operator: int, i: int, at: int)
    requires
        0 <= i <= at < entries.len(),
        forall|j: int| i <= j < at ==> (#[trigger] entries[j]).operator != operator,
        entries[at].operator == operator,
    ensures
        entry_with(entries, operator, i) == Some(entries[at]),
    decreases at - i,
{
    if i < at {
        assert(entries[i].operator != operator);
        lemma_entry_with(entries, operator, i + 1, at);
    }
}

proof fn lemma_entry_absent(entries: Seq<Entry>, operator: int, i: int)
    requires
        0 <= i <= entries.len(),
        lacks(entries, operator),
    ensures
        entry_with(entries, operator, i) is None,
    decreases entries.len() - i,
{
    if i < entries.len() {
        assert(entries[i].operator != operator);
        lemma_entry_absent(entries, operator, i + 1);
    }
}

/// The offsets of the Top DICT are found again by their operators.
proof fn lemma_top_offsets_found(p: Parts, extra: Seq<Entry>)
    requires
        lacks(extra, CHARSTRINGS as int),
        lacks(extra, VAR_STORE as int),
        lacks(extra, FD_SELECT as int),
        lacks(extra, FD_ARRAY as int),
    ensures
        ({
            let top = extra + offset_entry_views(top_offsets(p));
            &&& integer_of(top, CHARSTRINGS as int) == Ok::<Option<int>, Problem>(
                Some(charstrings_at(p)),
            )
            &&& integer_of(top, FD_ARRAY as int) == Ok::<Option<int>, Problem>(
                Some(fd_array_at(p)),
            )
            &&& integer_of(top, VAR_STORE as int) == Ok::<Option<int>, Problem>(
                if p.var_store is Some {
                    Some(var_store_at(p))
                } else {
                    None
                },
            )
            &&& integer_of(top, FD_SELECT as int) == Ok::<Option<int>, Problem>(
                if p.fd_select is Some {
                    Some(super::table::fd_select_at(p))
                } else {
                    None
                },
            )
        }),
{
    let list = top_offsets(p);
    let views = offset_entry_views(list);
    let top = extra + views;
    let n = extra.len() as int;
    reveal(top_offsets);
    assert forall|j: int| 0 <= j < n implies top[j] == #[trigger] extra[j] by {}
    assert forall|j: int| 0 <= j < list.len() implies top[n + j] == #[trigger] views[j] by {}
    let last = list.len() - 1;
    assert(list[0] == (charstrings_at(p), CHARSTRINGS));
    assert(list[last] == (fd_array_at(p), FD_ARRAY));
    assert(top[n] == views[0] && top[n + last] == views[last]);
    assert forall|j: int| n <= j < n + last implies (#[trigger] top[j]).operator != FD_ARRAY by {
        assert(top[j] == views[j - n]);
    }
    lemma_entry_with(top, CHARSTRINGS as int, 0, n);
    lemma_entry_with(top, FD_ARRAY as int, 0, n + last);
    if p.var_store is Some {
        assert(list[1] == (var_store_at(p), VAR_STORE));
        assert(top[n + 1] == views[1]);
        lemma_entry_with(top, VAR_STORE as int, 0, n + 1);
    } else {
        assert forall|j: int| 0 <= j < top.len() implies (#[trigger] top[j]).operator
            != VAR_STORE by {
            if j >= n {
                assert(top[j] == views[j - n]);
            } else {
                assert(top[j] == extra[j]);
            }
        }
        lemma_entry_absent(top, VAR_STORE as int, 0);
    }
    if p.fd_select is Some {
        let at = last - 1;
        assert(list[at] == (super::table::fd_select_at(p), FD_SELECT));
        assert(top[n + at] == views[at]);
        assert forall|j: int| 0 <= j < n + at implies (#[trigger] top[j]).operator != FD_SELECT by {
            if j >= n {
                assert(top[j] == views[j - n]);
            } else {
                assert(top[j] == extra[j]);
            }
        }
        lemma_entry_with(top, FD_SELECT as int, 0, n + at);
    } else {
        assert forall|j: int| 0 <= j < top.len() implies (#[trigger] top[j]).operator
            != FD_SELECT by {
            if j >= n {
                assert(top[j] == views[j - n]);
            } else {
                assert(top[j] == extra[j]);
            }
        }
        lemma_entry_absent(top, FD_SELECT as int, 0);
    }
}

proof fn lemma_small_index_fits(items: Seq<Seq<u8>>)
    requires
        index_bytes(items).len() <= i32::MAX,
    ensures
        fits_index(items),
{
    index_length_is_known(items);
    lemma_total_len_is_concat_len(items);
    let width = offset_width(total_len(items) + 1);
    assert((items.len() + 1) * width >= items.len() + 1) by (nonlinear_arith)
        requires
            width >= 1,
    ;
}

/// The entry that names a Private DICT.
pub open spec fn private_entry(size: int, at: int) -> Entry {
    Entry {
        operator: PRIVATE as int,
        operands: seq![DictValue::Integer(size), DictValue::Integer(at)],
        raw: dict_offset(size) + dict_offset(at) + seq![PRIVATE as u8],
    }
}

proof fn lemma_offset_operand(data: Seq<u8>, pos: int, v: int)
    requires
        i32::MIN <= v <= i32::MAX,
        holds(data, pos, dict_offset(v)),
    ensures
        super::dict::dict_operand(data, pos) == Ok::<(DictValue, int), Problem>(
            (DictValue::Integer(v), 5),
        ),
{
    let w = dict_offset(v);
    let t = crate::bytes::be32(v);
    let piece = data.subrange(pos, pos + w.len());
    assert(piece[0] == data[pos] && w[0] == 29);
    assert(piece[1] == data[pos + 1] && w[1] == t[0]);
    assert(piece[2] == data[pos + 2] && w[2] == t[1]);
    assert(piece[3] == data[pos + 3] && w[3] == t[2]);
    assert(piece[4] == data[pos + 4] && w[4] == t[3]);
    super::num::lemma_be32_value(v);
    assert(u32_at(data, pos + 1) == u32_at(t, 0));
}

proof fn lemma_private_entry_reads(a: Seq<u8>, o: Seq<Entry>, size: int, at: int)
    requires
        dict_entries(a) == Ok::<Seq<Entry>, Problem>(o),
        0 <= size <= i32::MAX,
        0 <= at <= i32::MAX,
    ensures
        dict_entries(a + dict_offset(size) + dict_offset(at) + seq![PRIVATE as u8]) == Ok::<
            Seq<Entry>,
            Problem,
        >(o.push(private_entry(size, at))),
{
    let x = dict_offset(size);
    let y = dict_offset(at);
    let z = seq![PRIVATE as u8];
    let d = a + x + y + z;
    let pos = a.len() as int;
    lemma_append(a, x);
    lemma_append(a + x, y);
    lemma_append(a + x + y, z);
    assert(d =~= a + (x + y + z));
    lemma_entries_extend(a, x + y + z, 0, 0, Seq::empty(), Seq::empty());
    assert(d.subrange(pos + 10, pos + 11)[0] == d[pos + 10]);
    lemma_offset_operand(d, pos, size);
    lemma_offset_operand(d, pos + 5, at);
    let none = Seq::<DictValue>::empty();
    let one = none.push(DictValue::Integer(size));
    let two = one.push(DictValue::Integer(at));
    assert(d[pos] == d.subrange(pos, pos + 5)[0]);
    assert(d[pos + 5] == d.subrange(pos + 5, pos + 10)[0]);
    assert(entries_from(d, pos, pos, none, o) == entries_from(d, pos, pos + 5, one, o));
    assert(entries_from(d, pos, pos + 5, one, o) == entries_from(d, pos, pos + 10, two, o));
    assert(d.subrange(pos, pos + 11) =~= x + y + z);
    assert(two =~= seq![DictValue::Integer(size), DictValue::Integer(at)]);
    let out = o.push(private_entry(size, at));
    assert(entries_from(d, pos, pos + 10, two, o) == entries_from(d, pos + 11, pos + 11, none, out));
    assert(entries_from(d, pos + 11, pos + 11, none, out) == Ok::<Seq<Entry>, Problem>(out));
}

proof fn lemma_other_entries_kept(
    data: Seq<u8>,
    o: Seq<Entry>,
    last: Entry,
    i: int,
    so_far: FontDictView,
)
    requires
        0 <= i <= o.len(),
        lacks(o, PRIVATE as int),
        so_far.other_entries == o.take(i),
    ensures
        font_dict_from(data, o.push(last), i, so_far) == font_dict_from(
            data,
            o.push(last),
            o.len() as int,
            FontDictView { other_entries: o, ..so_far },
        ),
    decreases o.len() - i,
{
    let all = o.push(last);
    if i == o.len() {
        assert(o.take(i) =~= o);
    } else {
        assert(all[i] == o[i]);
        assert(o.take(i + 1) =~= o.take(i).push(o[i]));
        lemma_other_entries_kept(
            data,
            o,
            last,
            i + 1,
            FontDictView { other_entries: so_far.other_entries.push(o[i]), ..so_far },
        );
    }
}

/// What a Font DICT reads back as, whose other entries are `o` and whose Private DICT has
/// the entries `pr`.
pub open spec fn font_dict_read(fd: FontParts, o: Seq<Entry>, pr: Seq<Entry>) -> FontDictView {
    FontDictView {
        other_entries: o,
        private: if fd.local_subrs.len() == 0 {
            pr
        } else {
            pr + offset_entry_views(seq![(fd.private.len() as int + 6, SUBRS)])
        },
        local_subrs: fd.local_subrs,
    }
}

/// True when the copied entries of a Font DICT and its Private DICT are well formed and
/// hold none of the offsets that the writer adds.
pub open spec fn font_dict_ready(fd: FontParts, o: Seq<Entry>, pr: Seq<Entry>) -> bool {
    &&& dict_entries(concat(fd.other_entries)) == Ok::<Seq<Entry>, Problem>(o)
    &&& lacks(o, PRIVATE as int)
    &&& dict_entries(fd.private) == Ok::<Seq<Entry>, Problem>(pr)
    &&& lacks(pr, SUBRS as int)
}

proof fn lemma_private_reads(data: Seq<u8>, at: int, fd: FontParts, o: Seq<Entry>, pr: Seq<Entry>)
    requires
        holds(data, at, private_block(fd)),
        data.len() <= i32::MAX,
        font_dict_ready(fd, o, pr),
    ensures
        with_private(
            data,
            private_entry(private_bytes(fd).len() as int, at),
            FontDictView { other_entries: o, ..empty_font_dict() },
        ) == Ok::<FontDictView, Problem>(font_dict_read(fd, o, pr)),
{
    reveal(private_bytes);
    let pb = private_bytes(fd);
    let ib = index_bytes(fd.local_subrs);
    lemma_append(pb, ib);
    let block = data.subrange(at, at + (pb + ib).len());
    assert(data.subrange(at, at + pb.len()) =~= block.subrange(0, pb.len() as int));
    assert((pb + ib).subrange(0, pb.len() as int) =~= pb);
    assert(data.subrange(at + pb.len(), at + pb.len() + ib.len()) =~= block.subrange(
        pb.len() as int,
        (pb.len() + ib.len()) as int,
    ));
    let before = Seq::<Seq<u8>>::empty();
    if fd.local_subrs.len() == 0 {
        lemma_entry_absent(pr, SUBRS as int, 0);
        assert(fd.local_subrs =~= before);
    } else {
        let list = seq![(fd.private.len() as int + 6, SUBRS)];
        let tail = offset_entry(fd.private.len() as int + 6, SUBRS);
        assert(list.drop_last() =~= Seq::<(int, u16)>::empty());
        assert(offset_entries(list.drop_last()) =~= Seq::<u8>::empty());
        assert(offset_entries(list) =~= tail);
        lemma_append(fd.private, tail);
        lemma_entries_extend(fd.private, tail, 0, 0, Seq::empty(), Seq::empty());
        super::table::lemma_offset_entries_read(pb, fd.private.len() as int, list, pr);
        let views = offset_entry_views(list);
        let entries = pr + views;
        assert(dict_entries(pb) == Ok::<Seq<Entry>, Problem>(entries));
        let n = pr.len() as int;
        assert(entries[n] == views[0]);
        assert forall|j: int| 0 <= j < n implies (#[trigger] entries[j]).operator != SUBRS by {
            assert(entries[j] == pr[j]);
        }
        lemma_entry_with(entries, SUBRS as int, 0, n);
        lemma_small_index_fits(fd.local_subrs);
        a_written_index_reads_back(data, at + pb.len(), fd.local_subrs);
    }
}

proof fn lemma_font_dict_reads(
    data: Seq<u8>,
    dict: Seq<u8>,
    at: int,
    fd: FontParts,
    o: Seq<Entry>,
    pr: Seq<Entry>,
)
    requires
        holds(data, at, private_block(fd)),
        data.len() <= i32::MAX,
        font_dict_ready(fd, o, pr),
        dict == concat(fd.other_entries) + dict_offset(private_bytes(fd).len() as int)
            + dict_offset(at) + seq![PRIVATE as u8],
    ensures
        font_dict_of(data, dict) == Ok::<FontDictView, Problem>(font_dict_read(fd, o, pr)),
{
    let size = private_bytes(fd).len() as int;
    let last = private_entry(size, at);
    lemma_private_entry_reads(concat(fd.other_entries), o, size, at);
    assert(o.take(0) =~= Seq::<Entry>::empty());
    lemma_other_entries_kept(data, o, last, 0, empty_font_dict());
    lemma_private_reads(data, at, fd, o, pr);
    let all = o.push(last);
    let n = o.len() as int;
    assert(all[n] == last);
    let kept = FontDictView { other_entries: o, ..empty_font_dict() };
    assert(font_dict_from(data, all, n, kept) == font_dict_from(
        data,
        all,
        n + 1,
        font_dict_read(fd, o, pr),
    ));
}

/// What the Font DICTs read back as.
pub open spec fn font_dicts_read(
    p: Parts,
    others: Seq<Seq<Entry>>,
    privates: Seq<Seq<Entry>>,
) -> Seq<FontDictView> {
    Seq::new(
        p.font_dicts.len(),
        |i: int| font_dict_read(p.font_dicts[i], others[i], privates[i]),
    )
}

/// True when the pieces are what a reader can take apart again: the copied entries are
/// well formed and hold none of the offsets that the writer adds, the FDSelect is as long
/// as its format says, there is a Font DICT, and everything fits the fields that hold its
/// size.
pub open spec fn parts_ready(
    p: Parts,
    extra: Seq<Entry>,
    others: Seq<Seq<Entry>>,
    privates: Seq<Seq<Entry>>,
) -> bool {
    &&& table_len(p) <= i32::MAX
    &&& top_dict_len(p) <= u16::MAX
    &&& (p.var_store matches Some(store) ==> store.len() <= u16::MAX)
    &&& dict_entries(concat(p.top_dict_extra)) == Ok::<Seq<Entry>, Problem>(extra)
    &&& lacks(extra, CHARSTRINGS as int)
    &&& lacks(extra, VAR_STORE as int)
    &&& lacks(extra, FD_SELECT as int)
    &&& lacks(extra, FD_ARRAY as int)
    &&& (p.fd_select matches Some(select) ==> fd_select_len(
        select,
        0,
        p.charstrings.len() as int,
    ) == Ok::<int, Problem>(select.len() as int))
    &&& p.font_dicts.len() > 0
    &&& forall|i: int|
        0 <= i < p.font_dicts.len() ==> font_dict_ready(
            #[trigger] p.font_dicts[i],
            others[i],
            privates[i],
        )
}

proof fn lemma_font_dicts_from(
    p: Parts,
    others: Seq<Seq<Entry>>,
    privates: Seq<Seq<Entry>>,
    i: int,
)
    requires
        0 <= i <= p.font_dicts.len(),
        table_len(p) <= i32::MAX,
        forall|k: int|
            0 <= k < p.font_dicts.len() ==> font_dict_ready(
                #[trigger] p.font_dicts[k],
                others[k],
                privates[k],
            ),
    ensures
        font_dicts_from(
            table_bytes(p),
            font_dicts_bytes(p),
            i,
            font_dicts_read(p, others, privates).take(i),
        ) == Ok::<Seq<FontDictView>, Problem>(font_dicts_read(p, others, privates)),
    decreases p.font_dicts.len() - i,
{
    let all = font_dicts_read(p, others, privates);
    if i == p.font_dicts.len() {
        assert(all.take(i) =~= all);
    } else {
        every_part_is_where_the_layout_says(p);
        let fd = p.font_dicts[i];
        assert(holds(table_bytes(p), private_at(p, i), private_block(fd))) by {
            lemma_front_grows(p);
            reveal(fd_array_len);
            lemma_blocks_prefix(p.font_dicts, p.font_dicts.len() as int);
            let n = p.font_dicts.len() as int;
            assert(p.font_dicts.take(n) =~= p.font_dicts);
            let w = offset_width(font_dict_lens(p.font_dicts) + 1);
            assert((n + 1) * w >= 0) by (nonlinear_arith)
                requires
                    n >= 0,
                    w >= 1,
            ;
            assert(private_at(p, i) >= 0);
        }
        assert(font_dict_ready(fd, others[i], privates[i]));
        reveal(font_dict_bytes);
        lemma_font_dict_reads(
            table_bytes(p),
            font_dict_bytes(p, i),
            private_at(p, i),
            fd,
            others[i],
            privates[i],
        );
        assert(font_dicts_bytes(p)[i] == font_dict_bytes(p, i));
        assert(all.take(i + 1) =~= all.take(i).push(all[i]));
        lemma_font_dicts_from(p, others, privates, i + 1);
    }
}

proof fn lemma_fd_array_reads(
    p: Parts,
    extra: Seq<Entry>,
    others: Seq<Seq<Entry>>,
    privates: Seq<Seq<Entry>>,
)
    requires
        parts_ready(p, extra, others, privates),
    ensures
        fd_array_of(table_bytes(p), extra + offset_entry_views(top_offsets(p))) == Ok::<
            Seq<FontDictView>,
            Problem,
        >(font_dicts_read(p, others, privates)),
{
    let t = table_bytes(p);
    every_part_is_where_the_layout_says(p);
    lemma_top_offsets_found(p, extra);
    lemma_front_grows(p);
    let dicts = font_dicts_bytes(p);
    index_length_is_known(dicts);
    lemma_font_dict_total(p, p.font_dicts.len() as int);
    assert(dicts.take(p.font_dicts.len() as int) =~= dicts);
    assert(p.font_dicts.take(p.font_dicts.len() as int) =~= p.font_dicts);
    reveal(fd_array_len);
    assert(index_bytes(dicts).len() == fd_array_len(p));
    lemma_small_index_fits(dicts);
    a_written_index_reads_back(t, fd_array_at(p), dicts);
    assert(font_dicts_read(p, others, privates).take(0) =~= Seq::<FontDictView>::empty());
    lemma_font_dicts_from(p, others, privates, 0);
}

proof fn lemma_fd_select_reads(data: Seq<u8>, at: int, select: Seq<u8>, glyphs: int)
    requires
        holds(data, at, select),
        fd_select_len(select, 0, glyphs) == Ok::<int, Problem>(select.len() as int),
    ensures
        fd_select_at(data, at, glyphs) == Ok::<Seq<u8>, Problem>(select),
{
    let piece = data.subrange(at, at + select.len());
    assert(piece[0] == data[at]);
    if select[0] == 3 {
        assert(piece[1] == data[at + 1] && piece[2] == data[at + 2]);
    } else if select[0] == 4 {
        assert(piece[1] == data[at + 1] && piece[2] == data[at + 2] && piece[3] == data[at + 3]
            && piece[4] == data[at + 4]);
    }
}

proof fn lemma_var_store_reads(data: Seq<u8>, at: int, store: Seq<u8>)
    requires
        store.len() <= u16::MAX,
        holds(data, at, be16(store.len() as int) + store),
    ensures
        var_store_of(data, at) == Ok::<Seq<u8>, Problem>(store),
{
    let n = store.len() as int;
    let piece = data.subrange(at, at + 2 + n);
    assert(data.subrange(at, at + 2) =~= piece.subrange(0, 2));
    assert((be16(n) + store).subrange(0, 2) =~= be16(n));
    lemma_be16_reads_back(data, at, n);
    assert(data.subrange(at + 2, at + 2 + n) =~= piece.subrange(2, 2 + n));
    assert((be16(n) + store).subrange(2, 2 + n) =~= store);
}

proof fn lemma_header_reads(p: Parts)
    requires
        table_len(p) <= i32::MAX,
        top_dict_len(p) <= u16::MAX,
    ensures
        header_of(table_bytes(p)) == Some((5int, top_dict_len(p), top_dict_bytes(p))),
        items_at(table_bytes(p), 5 + top_dict_len(p)) == Ok::<Seq<Seq<u8>>, Problem>(
            p.global_subrs,
        ),
{
    let t = table_bytes(p);
    let f = front_bytes(p);
    every_part_is_where_the_layout_says(p);
    lemma_front_len(p);
    lemma_front_grows(p);
    let len = top_dict_len(p);
    assert(t.subrange(0, 3) =~= f.subrange(0, 3));
    assert(t[2] == t.subrange(0, 3)[2]);
    assert(t.subrange(3, 5) =~= f.subrange(3, 5));
    lemma_be16_reads_back(t, 3, len);
    let ib = index_bytes(p.global_subrs);
    index_length_is_known(p.global_subrs);
    index_length_is_known(p.charstrings);
    lemma_total_len_is_concat_len(p.global_subrs);
    lemma_total_len_is_concat_len(p.charstrings);
    reveal(charstrings_at);
    reveal(var_store_at);
    let w = offset_width(total_len(p.charstrings) + 1);
    assert((p.charstrings.len() + 1) * w >= 0) by (nonlinear_arith)
        requires
            w >= 1,
    ;
    let v = offset_width(total_len(p.global_subrs) + 1);
    assert((p.global_subrs.len() + 1) * v >= 0) by (nonlinear_arith)
        requires
            v >= 1,
    ;
    assert(t.subrange(5 + len, charstrings_at(p)) =~= f.subrange(5 + len, charstrings_at(p)));
    assert(holds(t, 5 + len, ib));
    lemma_small_index_fits(p.global_subrs);
    a_written_index_reads_back(t, 5 + len, p.global_subrs);
}

/// A table that was written reads back as exactly the pieces it was written from, with
/// the offsets that the writer added.
pub proof fn a_written_table_reads_back(
    p: Parts,
    extra: Seq<Entry>,
    others: Seq<Seq<Entry>>,
    privates: Seq<Seq<Entry>>,
)
    requires
        parts_ready(p, extra, others, privates),
    ensures
        table_of(table_bytes(p)) == Ok::<TableView, Problem>(
            TableView {
                top_dict: extra + offset_entry_views(top_offsets(p)),
                global_subrs: p.global_subrs,
                charstrings: p.charstrings,
                var_store: p.var_store,
                fd_select: p.fd_select,
                font_dicts: font_dicts_read(p, others, privates),
            },
        ),
{
    let t = table_bytes(p);
    every_part_is_where_the_layout_says(p);
    lemma_front_grows(p);
    lemma_header_reads(p);
    the_top_dict_names_every_part(p, extra);
    lemma_top_offsets_found(p, extra);
    lemma_fd_array_reads(p, extra, others, privates);
    assert(holds(t, charstrings_at(p), index_bytes(p.charstrings))) by {
        reveal(var_store_at);
    }
    lemma_small_index_fits(p.charstrings);
    a_written_index_reads_back(t, charstrings_at(p), p.charstrings);
    match p.var_store {
        Some(store) => {
            reveal(super::table::fd_select_at);
            lemma_var_store_reads(t, var_store_at(p), store);
        },
        None => {},
    }
    match p.fd_select {
        Some(select) => {
            reveal(fd_array_at);
            lemma_fd_select_reads(
                t,
                super::table::fd_select_at(p),
                select,
                p.charstrings.len() as int,
            );
        },
        None => {},
    }
}

} // verus!
