//! Instancing a `CFF2` table.
//!
//! | request | store | charstrings |
//! |---|---|---|
//! | every axis pinned | dropped | every `blend` resolved into the value it produces |
//! | an axis narrowed | rebuilt | every `blend` re-expressed over the new regions |
//!
//! A fully pinned CFF2 font stays CFF2: its blends are resolved and its store is dropped.
//!
//! What a blended value becomes is worked out in floating point, by the caller, which takes
//! the table through these steps: [`super::read::read`], [`read_regions`], [`build_var_store`],
//! [`rewrite_glyph`] for each glyph, [`rewrite_font_dict`] for each font DICT, and
//! [`instantiate`].
use read_fonts::ps::cff::fd_select::FdSelect;
use read_fonts::types::GlyphId;
use read_fonts::{FontData, FontRead};
use vstd::prelude::*;

use crate::bytes::{copy, views};
use crate::error::{Problem, SliceError};
use crate::partial::AxisTent;
use crate::regions::{
    read_store_data, read_store_regions, referred, referred_regions, region_views, store_data,
    store_regions, tent_lists, RegionList, StoreData, StoreDataView,
};
use crate::text::{decimal, decimal_of, join2};
use crate::varstore::{
    merge_regions, merged, merged_indexes, packed_views, store_written, write_store, PackedData,
    PackedView,
};
use super::charstring::{
    program, rewrite, rewritten, Context, Env, Outcome, Resolved, Rewritten,
};
use super::dict::{entries_view, numbers, DictEntry, Entry};
use super::private::{
    initial_state, private_from, rewrite_private_dict, values_view, BlendedValue,
    Outcome as PrivateOutcome, PrivateRewritten,
};
use super::read::{
    initial_vsindex, kept_top_entries, opt_view, top_dict_extra, Cff2Table, FontDict, TableView,
};
use super::table::{
    store_too_large, table_bytes, table_len, too_large, Cff2Builder, FontDictBuilder, FontParts,
    Parts,
};

verus! {

/// A rebuilt `CFF2` table.
#[derive(Debug)]
pub struct Cff2Instance {
    pub table: Vec<u8>,
    /// True when the result still has an ItemVariationStore, and so still varies.
    pub varies: bool,
}

// ---------------------------------------------------------------------------- the regions

/// The regions that each subtable refers to. One that is missing or cannot be read refers to
/// none.
pub open spec fn regions_by_data(
    regions: Seq<Seq<(i16, i16, i16)>>,
    data: Seq<Option<StoreDataView>>,
) -> Seq<Seq<Seq<AxisTent>>> {
    data.map_values(
        |d: Option<StoreDataView>|
            match d {
                Some(d) => referred(regions, d.region_indexes),
                None => Seq::empty(),
            },
    )
}

pub open spec fn region_lists(lists: Seq<Vec<Vec<AxisTent>>>) -> Seq<Seq<Seq<AxisTent>>> {
    lists.map_values(|l: Vec<Vec<AxisTent>>| tent_lists(l@))
}

/// The regions each subtable of the store refers to, in the order its blends index them.
pub fn read_regions(store: &Option<Vec<u8>>) -> (r: Result<Vec<Vec<Vec<AxisTent>>>, SliceError>)
    ensures
        match *store {
            None => r matches Ok(lists) && lists@.len() == 0,
            Some(bytes) => match r {
                Ok(lists) => store_regions(bytes@) matches Ok(regions) && region_lists(lists@)
                    == regions_by_data(regions, store_data(bytes@)),
                Err(e) => store_regions(bytes@) matches Err(text) && e@ == Problem::Read(
                    "the CFF2 variation store is malformed: "@ + text,
                ),
            },
        },
{
    let bytes: &Vec<u8> = match store {
        Some(bytes) => bytes,
        None => {
            return Ok(Vec::new());
        },
    };
    let regions: Vec<Vec<(i16, i16, i16)>> = match read_store_regions(bytes.as_slice()) {
        Ok(regions) => regions,
        Err(text) => {
            return Err(
                SliceError::Read(join2("the CFF2 variation store is malformed: ", text.as_str())),
            );
        },
    };
    let data: Vec<Option<StoreData>> = read_store_data(bytes.as_slice());
    let ghost all = crate::regions::data_views(data@);
    let ghost wanted = regions_by_data(region_views(regions@), all);
    let mut out: Vec<Vec<Vec<AxisTent>>> = Vec::new();
    assert(region_lists(out@) =~= wanted.take(0));
    for i in 0..data.len()
        invariant
            all == crate::regions::data_views(data@),
            wanted == regions_by_data(region_views(regions@), all),
            region_lists(out@) == wanted.take(i as int),
    {
        let ghost before = region_lists(out@);
        assert(all[i as int] == match data@[i as int] {
            Some(d) => Some(d@),
            None => None,
        });
        let list: Vec<Vec<AxisTent>> = match &data[i] {
            Some(d) => referred_regions(&regions, &d.region_indexes),
            None => Vec::new(),
        };
        assert(tent_lists(list@) =~= wanted[i as int]);
        out.push(list);
        assert(region_lists(out@) =~= before.push(wanted[i as int]));
        assert(wanted.take(i + 1) =~= before.push(wanted[i as int]));
    }
    assert(region_lists(out@) =~= wanted);
    Ok(out)
}

// ------------------------------------------------------------------------------ the store

pub open spec fn list_views(lists: Seq<Vec<Vec<(i16, i16, i16)>>>) -> Seq<
    Seq<Seq<(i16, i16, i16)>>,
> {
    lists.map_values(|l: Vec<Vec<(i16, i16, i16)>>| region_views(l@))
}

/// The shared region list of the first `n` subtables.
pub open spec fn shared_list(lists: Seq<Seq<Seq<(i16, i16, i16)>>>, n: int) -> Seq<
    Seq<(i16, i16, i16)>,
>
    decreases n,
{
    if n <= 0 {
        Seq::empty()
    } else {
        merged(shared_list(lists, n - 1), lists[n - 1], lists[n - 1].len() as int)
    }
}

/// The first `n` subtables. Their delta arrays stay empty: in CFF2 the deltas live in the
/// charstrings, and the store exists only to name the regions and to group them into the
/// subtables that `vsindex` selects between.
pub open spec fn grouped(lists: Seq<Seq<Seq<(i16, i16, i16)>>>, n: int) -> Seq<
    Option<PackedView>,
> {
    Seq::new(
        n as nat,
        |i: int|
            Some(
                PackedView {
                    item_count: 0,
                    word_delta_count: 0,
                    region_indexes: merged_indexes(
                        shared_list(lists, i),
                        lists[i],
                        lists[i].len() as int,
                    ),
                    delta_sets: Seq::empty(),
                },
            ),
    )
}

pub open spec fn nothing_left(lists: Seq<Seq<Seq<(i16, i16, i16)>>>) -> bool {
    forall|i: int| 0 <= i < lists.len() ==> (#[trigger] lists[i]).len() == 0
}

/// The store over the regions that are left, subtable by subtable. There is none where every
/// axis is pinned or nothing varies.
pub open spec fn new_store(
    pinned: bool,
    axis_count: u16,
    lists: Seq<Seq<Seq<(i16, i16, i16)>>>,
) -> Option<Result<Seq<u8>, Seq<char>>> {
    if pinned || nothing_left(lists) {
        None
    } else {
        let n = lists.len() as int;
        Some(store_written(axis_count, shared_list(lists, n), grouped(lists, n)))
    }
}

/// Build the output ItemVariationStore from the regions that are left, or none when nothing
/// varies.
pub fn build_var_store(
    pinned: bool,
    axis_count: u16,
    lists: &Vec<Vec<Vec<(i16, i16, i16)>>>,
) -> (r: Result<Option<Vec<u8>>, SliceError>)
    ensures
        ({
            let store = new_store(pinned, axis_count, list_views(lists@));
            match r {
                Ok(Some(bytes)) => store == Some(Ok::<Seq<u8>, Seq<char>>(bytes@)),
                Ok(None) => store is None,
                Err(e) => store matches Some(Err(text)) && e@ == Problem::Write(
                    "could not write the CFF2 variation store: "@ + text,
                ),
            }
        }),
{
    if pinned {
        return Ok(None);
    }
    let ghost views = list_views(lists@);
    let mut any: bool = false;
    for i in 0..lists.len()
        invariant
            views == list_views(lists@),
            any == !(forall|k: int| 0 <= k < i ==> (#[trigger] views[k]).len() == 0),
    {
        assert(views[i as int] == region_views(lists@[i as int]@));
        if lists[i].len() > 0 {
            any = true;
            assert(views[i as int].len() > 0);
        }
    }
    if !any {
        return Ok(None);
    }
    let mut shared: RegionList = RegionList::default();
    let mut data: Vec<Option<PackedData>> = Vec::new();
    assert(packed_views(data@) =~= grouped(views, 0));
    for i in 0..lists.len()
        invariant
            views == list_views(lists@),
            shared@ == shared_list(views, i as int),
            packed_views(data@) == grouped(views, i as int),
    {
        let ghost before = packed_views(data@);
        assert(views[i as int] == region_views(lists@[i as int]@));
        let indexes: Vec<u16> = merge_regions(&mut shared, &lists[i]);
        let p: PackedData = PackedData {
            item_count: 0,
            word_delta_count: 0,
            region_indexes: indexes,
            delta_sets: Vec::new(),
        };
        let ghost added = p@;
        assert(added.delta_sets =~= Seq::<u8>::empty());
        data.push(Some(p));
        assert(packed_views(data@) =~= before.push(Some(added)));
        assert(grouped(views, i + 1) =~= before.push(Some(added)));
    }
    match write_store(axis_count, shared.regions(), data) {
        Ok(bytes) => Ok(Some(bytes)),
        Err(text) => Err(
            SliceError::Write(join2("could not write the CFF2 variation store: ", text.as_str())),
        ),
    }
}

// ------------------------------------------------------------------------------ the glyphs

/// The font DICT that an FDSelect sends a glyph to, if it sends it to any, or why the
/// FDSelect cannot be read.
pub uninterp spec fn selected_dict(select: Seq<u8>, gid: u32) -> Result<Option<u16>, Seq<char>>;

/// Calls `read_fonts::ps::cff::fd_select::FdSelect::read` and `FdSelect::font_index`. The
/// result has a name.
#[verifier::external_body]
fn select_dict(select: &[u8], gid: u32) -> (r: Result<Option<u16>, String>)
    ensures
        match r {
            Ok(fd) => selected_dict(select@, gid) == Ok::<Option<u16>, Seq<char>>(fd),
            Err(text) => selected_dict(select@, gid) == Err::<Option<u16>, Seq<char>>(text@),
        },
{
    let select = FdSelect::read(FontData::new(select)).map_err(|e| e.to_string())?;
    Ok(select.font_index(GlyphId::new(gid)))
}

/// The message about a glyph whose font DICT does not exist.
pub open spec fn no_dict_text(gid: int, fd: int) -> Seq<char> {
    "FDSelect sends glyph "@ + decimal(gid as nat) + " to font DICT "@ + decimal(fd as nat)
        + ", which does not exist"@
}

/// The font DICT that a glyph belongs to. A font without an FDSelect has one.
pub open spec fn dict_of_glyph(select: Option<Seq<u8>>, dicts: int, gid: u32) -> Result<
    int,
    Problem,
> {
    match select {
        None => if dicts > 0 {
            Ok(0)
        } else {
            Err(Problem::Read(no_dict_text(gid as int, 0)))
        },
        Some(bytes) => match selected_dict(bytes, gid) {
            Err(text) => Err(Problem::Read("the CFF2 FDSelect is malformed: "@ + text)),
            Ok(found) => {
                let fd = match found {
                    Some(fd) => fd as int,
                    None => 0,
                };
                if fd < dicts {
                    Ok(fd)
                } else {
                    Err(Problem::Read(no_dict_text(gid as int, fd)))
                }
            },
        },
    }
}

fn find_dict(source: &Cff2Table, gid: u32) -> (r: Result<usize, SliceError>)
    ensures
        match r {
            Ok(fd) => dict_of_glyph(
                source@.fd_select,
                source@.font_dicts.len() as int,
                gid,
            ) == Ok::<int, Problem>(fd as int) && fd < source@.font_dicts.len(),
            Err(e) => dict_of_glyph(
                source@.fd_select,
                source@.font_dicts.len() as int,
                gid,
            ) == Err::<int, Problem>(e@),
        },
{
    let fd: u16 = match &source.fd_select {
        Some(bytes) => match select_dict(bytes.as_slice(), gid) {
            Ok(Some(fd)) => fd,
            Ok(None) => 0,
            Err(text) => {
                return Err(
                    SliceError::Read(join2("the CFF2 FDSelect is malformed: ", text.as_str())),
                );
            },
        },
        None => 0,
    };
    if (fd as usize) < source.font_dicts.len() {
        return Ok(fd as usize);
    }
    Err(
        SliceError::Read(
            "FDSelect sends glyph ".to_owned().concat(decimal_of(gid as u64).as_str()).concat(
                " to font DICT ",
            ).concat(decimal_of(fd as u64).as_str()).concat(", which does not exist"),
        ),
    )
}

/// What a glyph's charstring is rewritten against.
pub open spec fn glyph_env(
    source: TableView,
    fd: int,
    region_counts: Seq<usize>,
    resolved: Seq<Resolved>,
) -> Env {
    Env {
        global_subrs: source.global_subrs,
        local_subrs: source.font_dicts[fd].local_subrs,
        region_counts: region_counts.map_values(|n: usize| n as nat),
        initial_vsindex: initial_vsindex(source.font_dicts[fd]) as int,
        resolved: resolved.map_values(
            |r: Resolved| (r.gain as int, r.deltas@.map_values(|d: i32| d as int)),
        ),
    }
}

/// Rewrite the charstring of one glyph. `region_counts` gives the number of regions of each
/// subtable of the store, and `resolved` what the blended values become, in the order in
/// which the program makes them.
pub fn rewrite_glyph(
    source: &Cff2Table,
    gid: usize,
    region_counts: &Vec<usize>,
    resolved: &Vec<Resolved>,
) -> (r: Result<Rewritten, SliceError>)
    requires
        gid < source@.charstrings.len(),
        gid <= u32::MAX,
    ensures
        match dict_of_glyph(source@.fd_select, source@.font_dicts.len() as int, gid as u32) {
            Err(e) => r matches Err(got) && got@ == e,
            Ok(fd) => {
                let env = glyph_env(source@, fd, region_counts@, resolved@);
                let outcome = rewritten(source@.charstrings[gid as int], env);
                match r {
                    Ok(Rewritten::Done(bytes)) => outcome matches Outcome::Done(m) && bytes@
                        == program(m, env),
                    Ok(Rewritten::NeedsBlend { vsindex, row }) => outcome == (Outcome::Ask {
                        vsindex: vsindex as int,
                        row: row@.map_values(|v: i64| v as int),
                    }),
                    Err(e) => outcome == Outcome::Failed(e@),
                }
            },
        },
{
    let fd: usize = match find_dict(source, gid as u32) {
        Ok(fd) => fd,
        Err(e) => {
            return Err(e);
        },
    };
    let font_dict: &FontDict = &source.font_dicts[fd];
    assert(source@.font_dicts[fd as int] == font_dict@);
    let context: Context = Context {
        global_subrs: &source.global_subrs,
        local_subrs: &font_dict.local_subrs,
        region_counts,
        initial_vsindex: font_dict.vsindex(),
        resolved,
    };
    assert(source@.charstrings[gid as int] == source.charstrings@[gid as int]@);
    assert(context@ == glyph_env(source@, fd as int, region_counts@, resolved@));
    rewrite(source.charstrings[gid].as_slice(), &context)
}

/// Rewrite the Private DICT of one font DICT.
pub fn rewrite_font_dict(
    source: &Cff2Table,
    fd: usize,
    region_counts: &Vec<usize>,
    resolved: &Vec<BlendedValue>,
    keeps_store: bool,
) -> (r: Result<PrivateRewritten, SliceError>)
    requires
        fd < source@.font_dicts.len(),
    ensures
        ({
            let outcome = private_from(
                initial_state(),
                source@.font_dicts[fd as int].private,
                0,
                region_counts@.map_values(|n: usize| n as nat),
                values_view(resolved@),
                keeps_store,
            );
            match r {
                Ok(PrivateRewritten::Done(bytes)) => outcome matches PrivateOutcome::Done(s)
                    && bytes@ == s.out,
                Ok(PrivateRewritten::NeedsBlend { vsindex, base, row }) => outcome == (
                PrivateOutcome::Ask { vsindex: vsindex as int, base: base@, row: numbers(row@) }),
                Err(e) => outcome == PrivateOutcome::Failed(e@),
            }
        }),
{
    assert(source@.font_dicts[fd as int] == source.font_dicts@[fd as int]@);
    rewrite_private_dict(&source.font_dicts[fd].private, region_counts, resolved, keeps_store)
}

// ------------------------------------------------------------------------------- the table

pub open spec fn raw_entries(entries: Seq<Entry>) -> Seq<Seq<u8>> {
    entries.map_values(|e: Entry| e.raw)
}

/// The parts of the rewritten table. Every subroutine was inlined into the charstrings that
/// called it, so there are none left, and glyph order does not change, so neither does the
/// FDSelect.
pub open spec fn instance_parts(
    source: TableView,
    charstrings: Seq<Seq<u8>>,
    privates: Seq<Seq<u8>>,
    var_store: Option<Seq<u8>>,
) -> Parts {
    Parts {
        top_dict_extra: kept_top_entries(source.top_dict),
        global_subrs: Seq::empty(),
        charstrings,
        var_store,
        fd_select: source.fd_select,
        font_dicts: Seq::new(
            privates.len(),
            |i: int|
                FontParts {
                    other_entries: raw_entries(source.font_dicts[i].other_entries),
                    private: privates[i],
                    local_subrs: Seq::empty(),
                },
        ),
    }
}

fn copy_entries(entries: &Vec<DictEntry>) -> (out: Vec<Vec<u8>>)
    ensures
        views(out@) == raw_entries(entries_view(entries@)),
{
    let ghost wanted = raw_entries(entries_view(entries@));
    let mut out: Vec<Vec<u8>> = Vec::new();
    assert(views(out@) =~= wanted.take(0));
    for i in 0..entries.len()
        invariant
            wanted == raw_entries(entries_view(entries@)),
            views(out@) == wanted.take(i as int),
    {
        let ghost before = views(out@);
        assert(entries_view(entries@)[i as int] == entries@[i as int]@);
        out.push(copy(entries[i].raw.as_slice()));
        assert(views(out@) =~= before.push(wanted[i as int]));
        assert(wanted.take(i + 1) =~= before.push(wanted[i as int]));
    }
    assert(views(out@) =~= wanted);
    out
}

/// Put the rewritten pieces of a `CFF2` table together.
pub fn instantiate(
    source: &Cff2Table,
    charstrings: Vec<Vec<u8>>,
    privates: Vec<Vec<u8>>,
    var_store: Option<Vec<u8>>,
) -> (r: Result<Cff2Instance, SliceError>)
    requires
        privates@.len() == source@.font_dicts.len(),
    ensures
        ({
            let p = instance_parts(
                source@,
                views(charstrings@),
                views(privates@),
                opt_view(var_store),
            );
            match r {
                Ok(instance) => {
                    &&& table_len(p) <= i32::MAX
                    &&& p.var_store matches Some(store) ==> store.len() <= u16::MAX
                    &&& instance.table@ == table_bytes(p)
                    &&& instance.varies == (var_store is Some)
                },
                Err(e) => if table_len(p) > i32::MAX {
                    e@ == too_large()
                } else {
                    (p.var_store matches Some(store) && store.len() > u16::MAX) && e@
                        == store_too_large()
                },
            }
        }),
{
    let ghost p = instance_parts(
        source@,
        views(charstrings@),
        views(privates@),
        opt_view(var_store),
    );
    let mut font_dicts: Vec<FontDictBuilder> = Vec::new();
    for i in 0..privates.len()
        invariant
            privates@.len() == source@.font_dicts.len(),
            p == instance_parts(
                source@,
                views(charstrings@),
                views(privates@),
                opt_view(var_store),
            ),
            font_dicts@.len() == i,
            forall|k: int| 0 <= k < i ==> (#[trigger] font_dicts@[k])@ == p.font_dicts[k],
    {
        assert(source@.font_dicts[i as int] == source.font_dicts@[i as int]@);
        assert(views(privates@)[i as int] == privates@[i as int]@);
        let built: FontDictBuilder = FontDictBuilder {
            other_entries: copy_entries(&source.font_dicts[i].other_entries),
            private: copy(privates[i].as_slice()),
            local_subrs: Vec::new(),
        };
        assert(views(built.local_subrs@) =~= Seq::<Seq<u8>>::empty());
        assert(built@ == p.font_dicts[i as int]);
        font_dicts.push(built);
    }
    let fd_select: Option<Vec<u8>> = match &source.fd_select {
        Some(bytes) => Some(copy(bytes.as_slice())),
        None => None,
    };
    let varies: bool = var_store.is_some();
    let builder: Cff2Builder = Cff2Builder {
        top_dict_extra: top_dict_extra(&source.top_dict),
        global_subrs: Vec::new(),
        charstrings,
        var_store,
        fd_select,
        font_dicts,
    };
    proof {
        assert(views(builder.global_subrs@) =~= Seq::<Seq<u8>>::empty());
        assert(builder@.font_dicts =~= p.font_dicts);
        assert(builder@ == p);
    }
    match builder.build() {
        Ok(table) => Ok(Cff2Instance { table, varies }),
        Err(e) => Err(e),
    }
}

/// A font whose axes are all pinned has no store any more, and so does one where nothing
/// varies over the axes that are left.
pub proof fn a_pinned_table_has_no_store(axis_count: u16, lists: Seq<Seq<Seq<(i16, i16, i16)>>>)
    ensures
        new_store(true, axis_count, lists) is None,
        nothing_left(lists) ==> new_store(false, axis_count, lists) is None,
{
}

} // verus!
