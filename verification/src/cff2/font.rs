//! Instancing a whole font with `CFF2` outlines.
//!
//! A CFF2 glyph has no phantom points, so `HVAR` is the only place its advance width varies:
//! for a static instance its deltas are added to the advances, and for a restricted one its
//! store is rebuilt over the axes that survive.
use read_fonts::tables::hvar::Hvar as ReadHvar;
use read_fonts::tables::variations::{DeltaSetIndexMap, ItemVariationStore as ReadStore};
use read_fonts::{FontData, FontRead};
use vstd::prelude::*;
use write_fonts::dump_table;
use write_fonts::from_obj::ToOwnedTable;
use write_fonts::tables::hvar::Hvar;
use write_fonts::tables::variations::ItemVariationStore;

use crate::apply::step_file;
use crate::bytes::{copy_range, u32_at};
use crate::error::{unsupported, Problem, SliceError};
use crate::fields::{
    built_table, finish_table, hhea_bytes, hhea_fields, read_hhea, write_hhea, HheaFields,
};
use crate::font::{axis_records, frame_in, glyph_total, tables_in, AxisRecord};
use crate::glyphs::{
    advance_at, advance_of, bearing_at, bearing_of, or_zero_i, or_zero_u,
};
use crate::mvar::{adjust_u16, adjusted_hhea, adjusted_u16, apply_to_hhea};
use crate::partial::{
    a_restricted_font_forgets_the_old_space, build_variation_tables, changes_match,
    has_variable_positioning, left_axes, new_fvar, positioning_text,
    refuse_unsupported_variation_tables, restricted_tables, source_view, table_result,
    variation_tables, Space, SpaceView, REPLACED,
};
use crate::statics::{
    adjusted_os2_table, build_adjusted_os2, build_hmtx, hmtx_bytes, lemma_os2_tag, long_count,
    long_metric_count, VARIATION_TABLES,
};
use crate::tables::{
    assemble, bounds_error, copy_remaining_tables, distinct_tags, find_table, font_tables,
    lemma_reads_under_tag, need_table, needed_table, out_of_bounds, push_table, reads_as,
    table_bytes, table_views, with_remaining, FontTable, TableView, AVAR, CFF2, CVAR, FVAR, GLYF,
    GVAR, HHEA, HMTX, HVAR, MAXP, MVAR, STAT, VVAR,
};

verus! {

/// Where a font keeps its outlines.
#[derive(Clone, Copy, Debug, PartialEq, Eq, Structural)]
pub enum OutlineKind {
    Glyf,
    Cff2,
}

/// Where a font keeps its outlines, if they can be instanced. A plain `CFF ` font is not
/// variable in the first place.
pub open spec fn kind_of(font: Seq<TableView>) -> Result<OutlineKind, Problem> {
    if table_bytes(font, GLYF) is Some {
        Ok(OutlineKind::Glyf)
    } else if table_bytes(font, CFF2) is Some {
        Ok(OutlineKind::Cff2)
    } else {
        Err(
            Problem::Unsupported(
                "Only TrueType outlines (a 'glyf' table) and CFF2 outlines can be instanced. This font uses CFF outlines."@,
            ),
        )
    }
}

/// Where a font keeps its outlines, if they can be instanced.
pub fn outline_kind(font: &Vec<FontTable>) -> (r: Result<OutlineKind, SliceError>)
    ensures
        match r {
            Ok(kind) => kind_of(table_views(font@)) == Ok::<OutlineKind, Problem>(kind),
            Err(e) => kind_of(table_views(font@)) == Err::<OutlineKind, Problem>(e@),
        },
{
    if find_table(font, GLYF).is_some() {
        return Ok(OutlineKind::Glyf);
    }
    if find_table(font, CFF2).is_some() {
        return Ok(OutlineKind::Cff2);
    }
    Err(
        unsupported(
            "Only TrueType outlines (a 'glyf' table) and CFF2 outlines can be instanced. This font uses CFF outlines.",
        ),
    )
}

// ------------------------------------------------------------------------------ advances

/// The part of an `HVAR` table that an offset in its header points at, if it points into the
/// table.
pub open spec fn hvar_part(hvar: Seq<u8>, at: int) -> Option<Seq<u8>> {
    if hvar.len() >= 20 && 0 < u32_at(hvar, at) <= hvar.len() {
        Some(hvar.skip(u32_at(hvar, at)))
    } else {
        None
    }
}

fn find_part(hvar: &[u8], at: usize) -> (r: Option<Vec<u8>>)
    requires
        at <= 16,
    ensures
        match r {
            Some(part) => hvar_part(hvar@, at as int) == Some(part@),
            None => hvar_part(hvar@, at as int) is None,
        },
{
    if hvar.len() < 20 {
        return None;
    }
    let offset: usize = hvar[at] as usize * 0x100_0000 + hvar[at + 1] as usize * 0x1_0000
        + hvar[at + 2] as usize * 0x100 + hvar[at + 3] as usize;
    if offset == 0 || offset > hvar.len() {
        return None;
    }
    let part: Vec<u8> = copy_range(hvar, offset, hvar.len());
    assert(part@ =~= hvar@.skip(offset as int));
    Some(part)
}

/// The ItemVariationStore of an `HVAR` table.
pub fn hvar_store(hvar: &[u8]) -> (r: Option<Vec<u8>>)
    ensures
        match r {
            Some(store) => hvar_part(hvar@, 4) == Some(store@),
            None => hvar_part(hvar@, 4) is None,
        },
{
    find_part(hvar, 4)
}

/// The delta set that a map gives for an index, if it can be read.
pub uninterp spec fn mapped_index(map: Seq<u8>, index: u32) -> Option<(u16, u16)>;

/// Calls `read_fonts::tables::variations::DeltaSetIndexMap::read` and
/// `DeltaSetIndexMap::get`. The outer and the inner index have a name.
#[verifier::external_body]
fn read_map(map: &[u8], index: u32) -> (r: Option<(u16, u16)>)
    ensures
        r == mapped_index(map@, index),
{
    let index = DeltaSetIndexMap::read(FontData::new(map)).ok()?.get(index).ok()?;
    Some((index.outer, index.inner))
}

/// The delta set of a glyph's advance. Without a map, it is that of the glyph's number in
/// the first subtable.
pub open spec fn advance_index(hvar: Seq<u8>, gid: int) -> Option<(u16, u16)> {
    match hvar_part(hvar, 8) {
        Some(map) => mapped_index(map, gid as u32),
        None => Some((0, gid as u16)),
    }
}

/// A delta, by its address; none is zero.
pub open spec fn delta_at(deltas: Seq<Seq<i32>>, index: Option<(u16, u16)>) -> i32 {
    match index {
        Some((outer, inner)) => if outer < deltas.len() && inner < deltas[outer as int].len() {
            deltas[outer as int][inner as int]
        } else {
            0
        },
        None => 0,
    }
}

/// What the first `n` glyphs measure after the deltas of their advances have been added.
pub open spec fn moved_metrics(
    hmtx: Seq<u8>,
    count: u16,
    hvar: Option<Seq<u8>>,
    deltas: Seq<Seq<i32>>,
    n: int,
) -> Seq<(u16, i16)> {
    Seq::new(
        n as nat,
        |gid: int|
            (
                adjusted_u16(
                    or_zero_u(advance_of(hmtx, count, gid as u32)) as u16,
                    match hvar {
                        Some(hvar) => Some(delta_at(deltas, advance_index(hvar, gid))),
                        None => None,
                    },
                ),
                or_zero_i(bearing_of(hmtx, count, gid as u32)) as i16,
            ),
    )
}

pub open spec fn delta_lists(deltas: Seq<Vec<i32>>) -> Seq<Seq<i32>> {
    deltas.map_values(|d: Vec<i32>| d@)
}

/// What the glyphs of a font measure after the deltas of their advances have been added:
/// `deltas` holds, for each delta set of `HVAR`, how far it moves an advance.
pub fn advance_metrics(
    hmtx: &[u8],
    count: u16,
    hvar: &Option<Vec<u8>>,
    deltas: &Vec<Vec<i32>>,
    glyphs: u16,
) -> (out: Vec<(u16, i16)>)
    ensures
        out@ == moved_metrics(
            hmtx@,
            count,
            super::read::opt_view(*hvar),
            delta_lists(deltas@),
            glyphs as int,
        ),
{
    let ghost lists = delta_lists(deltas@);
    let ghost view = super::read::opt_view(*hvar);
    let map: Option<Vec<u8>> = match hvar {
        Some(hvar) => find_part(hvar.as_slice(), 8),
        None => None,
    };
    let mut out: Vec<(u16, i16)> = Vec::new();
    assert(out@ =~= moved_metrics(hmtx@, count, view, lists, 0));
    for gid in 0..glyphs
        invariant
            lists == delta_lists(deltas@),
            view == super::read::opt_view(*hvar),
            match *hvar {
                Some(hvar) => super::read::opt_view(map) == hvar_part(hvar@, 8),
                None => true,
            },
            out@ == moved_metrics(hmtx@, count, view, lists, gid as int),
    {
        let delta: Option<i32> = match hvar {
            Some(_) => {
                let index: Option<(u16, u16)> = match &map {
                    Some(map) => read_map(map.as_slice(), gid as u32),
                    None => Some((0, gid)),
                };
                let d: i32 = match index {
                    Some((outer, inner)) => {
                        let (outer, inner): (usize, usize) = (outer as usize, inner as usize);
                        if outer < deltas.len() {
                            let list: &Vec<i32> = &deltas[outer];
                            assert(lists[outer as int] == list@);
                            if inner < list.len() {
                                list[inner]
                            } else {
                                0
                            }
                        } else {
                            0
                        }
                    },
                    None => 0,
                };
                Some(d)
            },
            None => None,
        };
        let advance: u16 = adjust_u16(advance_at(hmtx, count, gid as u32), delta);
        let bearing: i16 = bearing_at(hmtx, count, gid as u32);
        out.push((advance, bearing));
        assert(out@ =~= moved_metrics(hmtx@, count, view, lists, gid + 1));
    }
    out
}

// ------------------------------------------------------------------------------ assembling

/// The outlines and the metrics of a font with CFF2 outlines, and `hhea`, which records how
/// many long metrics `hmtx` holds.
#[verifier::opaque]
pub open spec fn cff2_tables(
    font: Seq<TableView>,
    cff2: Seq<u8>,
    metrics: Seq<(u16, i16)>,
    adjustments: Seq<(u32, i32)>,
) -> Result<Seq<TableView>, Problem> {
    match needed_table(font, HHEA) {
        Err(e) => Err(e),
        Ok(hhea) => match hhea_fields(hhea) {
            None => Err(out_of_bounds()),
            Some(f) => {
                let counted = HheaFields {
                    number_of_h_metrics: (long_count(metrics) % 0x1_0000) as u16,
                    ..f
                };
                Ok(
                    seq![
                        TableView { tag: CFF2, bytes: cff2 },
                        TableView { tag: HMTX, bytes: hmtx_bytes(metrics) },
                        TableView {
                            tag: HHEA,
                            bytes: hhea_bytes(adjusted_hhea(counted, adjustments)),
                        },
                    ],
                )
            },
        },
    }
}

#[verifier::rlimit(60)]
#[verifier::spinoff_prover]
fn build_cff2_tables(
    font: &Vec<FontTable>,
    cff2: Vec<u8>,
    metrics: &Vec<(u16, i16)>,
    adjustments: &Vec<(u32, i32)>,
) -> (r: Result<Vec<FontTable>, SliceError>)
    ensures
        match r {
            Ok(tables) => {
                &&& cff2_tables(table_views(font@), cff2@, metrics@, adjustments@) == Ok::<
                    Seq<TableView>,
                    Problem,
                >(table_views(tables@))
                &&& tables@.len() == 3
                &&& tables@[0].tag == CFF2
                &&& tables@[1].tag == HMTX
                &&& tables@[2].tag == HHEA
                &&& distinct_tags(table_views(tables@))
            },
            Err(e) => cff2_tables(table_views(font@), cff2@, metrics@, adjustments@) == Err::<
                Seq<TableView>,
                Problem,
            >(e@),
        },
{
    reveal(cff2_tables);
    let hhea: &Vec<u8> = match need_table(font, HHEA) {
        Ok(t) => t,
        Err(e) => {
            return Err(e);
        },
    };
    let f: HheaFields = match read_hhea(hhea.as_slice()) {
        Some(f) => f,
        None => {
            return Err(bounds_error());
        },
    };
    let counted: HheaFields = HheaFields {
        number_of_h_metrics: (long_metric_count(metrics) % 0x1_0000) as u16,
        ..f
    };
    let hhea_table: FontTable = match finish_table(
        HHEA,
        write_hhea(apply_to_hhea(counted, adjustments)),
    ) {
        Ok(t) => t,
        Err(e) => {
            return Err(e);
        },
    };
    let ghost wanted = cff2_tables(table_views(font@), cff2@, metrics@, adjustments@)->Ok_0;
    let mut out: Vec<FontTable> = Vec::new();
    out.push(FontTable { tag: CFF2, bytes: cff2 });
    out.push(FontTable { tag: HMTX, bytes: build_hmtx(metrics) });
    out.push(hhea_table);
    assert(table_views(out@) =~= wanted);
    Ok(out)
}

/// The tables of a static instance with CFF2 outlines.
pub open spec fn static_cff2_tables(
    font: Seq<TableView>,
    cff2: Seq<u8>,
    metrics: Seq<(u16, i16)>,
    adjustments: Seq<(u32, i32)>,
    stat: Option<Seq<u8>>,
) -> Result<Seq<TableView>, Problem> {
    match cff2_tables(font, cff2, metrics, adjustments) {
        Err(e) => Err(e),
        Ok(first) => match adjusted_os2_table(font, adjustments) {
            Some(Err(e)) => Err(e),
            os2 => {
                let with_os2 = match os2 {
                    Some(Ok(t)) => first + seq![t],
                    _ => first,
                };
                let with_stat = match stat {
                    Some(bytes) => with_os2 + seq![TableView { tag: STAT, bytes }],
                    None => with_os2,
                };
                Ok(with_remaining(with_stat, font, VARIATION_TABLES@))
            },
        },
    }
}

/// Build a static instance of a font with CFF2 outlines: `cff2` is its outline table with
/// the blends resolved, and the other arguments are those of
/// [`crate::statics::instantiate_static`].
pub fn instantiate_static_cff2(
    font: &Vec<FontTable>,
    cff2: Vec<u8>,
    metrics: &Vec<(u16, i16)>,
    adjustments: &Vec<(u32, i32)>,
    stat: Option<Vec<u8>>,
) -> (r: Result<Vec<u8>, SliceError>)
    ensures
        ({
            let tables = static_cff2_tables(
                table_views(font@),
                cff2@,
                metrics@,
                adjustments@,
                super::read::opt_view(stat),
            );
            match r {
                Ok(bytes) => {
                    &&& step_file(tables) == Ok::<Seq<u8>, Problem>(bytes@)
                    &&& font_tables(bytes@) matches Ok(read) && reads_as(read, tables->Ok_0)
                    &&& frame_in(bytes@) == (
                        None::<Seq<u8>>,
                        glyph_total(table_views(font@)),
                    )
                },
                Err(e) => step_file(tables) == Err::<Seq<u8>, Problem>(e@),
            }
        }),
{
    let ghost outline = cff2@;
    let ghost stat_view = super::read::opt_view(stat);
    let mut out: Vec<FontTable> = match build_cff2_tables(font, cff2, metrics, adjustments) {
        Ok(out) => out,
        Err(e) => {
            return Err(e);
        },
    };
    match build_adjusted_os2(font, adjustments) {
        Some(Ok(t)) => push_table(&mut out, t),
        Some(Err(e)) => {
            return Err(e);
        },
        None => {},
    }
    match stat {
        Some(bytes) => push_table(&mut out, FontTable { tag: STAT, bytes }),
        None => {},
    }
    copy_remaining_tables(&mut out, font, &VARIATION_TABLES);
    match assemble(&out) {
        Ok(bytes) => {
            proof {
                a_static_cff2_instance_has_no_variations(
                    table_views(font@),
                    outline,
                    metrics@,
                    adjustments@,
                    stat_view,
                    0,
                );
                lemma_reads_under_tag(tables_in(bytes@), table_views(out@), FVAR);
                lemma_reads_under_tag(tables_in(bytes@), table_views(out@), MAXP);
            }
            Ok(bytes)
        },
        Err(e) => Err(e),
    }
}

/// An `HVAR` table with another store, or why it cannot be written. The maps of the table
/// stay as they are.
pub uninterp spec fn hvar_written(old: Seq<u8>, store: Seq<u8>) -> Result<Seq<u8>, Seq<char>>;

/// Reads both with `read_fonts`, replaces the store of a `write_fonts::tables::hvar::Hvar`,
/// and calls `write_fonts::dump_table`. The result has a name.
#[verifier::external_body]
fn write_hvar(old: &[u8], store: &[u8]) -> (r: Result<Vec<u8>, String>)
    ensures
        match r {
            Ok(bytes) => hvar_written(old@, store@) == Ok::<Seq<u8>, Seq<char>>(bytes@),
            Err(text) => hvar_written(old@, store@) == Err::<Seq<u8>, Seq<char>>(text@),
        },
{
    let old = ReadHvar::read(FontData::new(old)).map_err(|e| e.to_string())?;
    let store = ReadStore::read(FontData::new(store)).map_err(|e| e.to_string())?;
    let (mut hvar, store): (Hvar, ItemVariationStore) =
        (old.to_owned_table(), store.to_owned_table());
    hvar.item_variation_store = store.into();
    dump_table(&hvar).map_err(|e| e.to_string())
}

/// The `HVAR` table of a restricted font: the old one over the store that is left, and none
/// where nothing is.
pub open spec fn new_hvar(font: Seq<TableView>, store: Option<Seq<u8>>) -> Option<
    Result<TableView, Problem>,
> {
    match (table_bytes(font, HVAR), store) {
        (Some(old), Some(store)) => Some(built_table(HVAR, hvar_written(old, store))),
        _ => None,
    }
}

/// The tables of a restricted font with CFF2 outlines.
pub open spec fn partial_cff2_tables(
    font: Seq<TableView>,
    source: Option<(Seq<Seq<(i16, i16)>>, bool)>,
    space: SpaceView,
    cff2: Seq<u8>,
    metrics: Seq<(u16, i16)>,
    store: Option<Seq<u8>>,
) -> Result<Seq<TableView>, Problem> {
    if has_variable_positioning(font) {
        Err(Problem::Unsupported(positioning_text()))
    } else {
        match cff2_tables(font, cff2, metrics, Seq::empty()) {
            Err(e) => Err(e),
            Ok(first) => restricted_tables(
                font,
                first,
                variation_tables(font, source, space, new_hvar(font, store)),
            ),
        }
    }
}

/// Build a partially instanced font with CFF2 outlines: `cff2` is its outline table over the
/// new regions, and `store` what is left of the store of `HVAR`. A font with variable
/// positioning is refused.
pub fn instantiate_partial_cff2(
    font: &Vec<FontTable>,
    source: &Option<(Vec<Vec<(i16, i16)>>, bool)>,
    space: &Space,
    cff2: Vec<u8>,
    metrics: &Vec<(u16, i16)>,
    store: &Option<Vec<u8>>,
) -> (out: Result<Vec<u8>, SliceError>)
    requires
        changes_match(*source, *space),
    ensures
        ({
            let tables = partial_cff2_tables(
                table_views(font@),
                source_view(*source),
                space@,
                cff2@,
                metrics@,
                super::read::opt_view(*store),
            );
            match out {
                Ok(bytes) => {
                    &&& step_file(tables) == Ok::<Seq<u8>, Problem>(bytes@)
                    &&& font_tables(bytes@) matches Ok(read) && reads_as(read, tables->Ok_0)
                    &&& frame_in(bytes@) == (
                        Some(
                            new_fvar(table_views(font@), space@.plans, space@.extents)->Ok_0.bytes,
                        ),
                        glyph_total(table_views(font@)),
                    )
                    &&& axis_records(tables_in(bytes@)) == Ok::<Seq<AxisRecord>, Problem>(
                        left_axes(table_views(font@), space@.plans, space@.extents),
                    )
                },
                Err(e) => step_file(tables) == Err::<Seq<u8>, Problem>(e@),
            }
        }),
{
    match refuse_unsupported_variation_tables(font) {
        Ok(_) => {},
        Err(e) => {
            return Err(e);
        },
    }
    let none: Vec<(u32, i32)> = Vec::new();
    assert(none@ =~= Seq::<(u32, i32)>::empty());
    let mut out: Vec<FontTable> = match build_cff2_tables(font, cff2, metrics, &none) {
        Ok(out) => out,
        Err(e) => {
            return Err(e);
        },
    };
    let ghost first = table_views(out@);
    let hvar: Option<Result<FontTable, SliceError>> = match (find_table(font, HVAR), store) {
        (Some(old), Some(store)) => Some(
            finish_table(HVAR, write_hvar(old.as_slice(), store.as_slice())),
        ),
        _ => None,
    };
    assert(table_result(hvar) == new_hvar(table_views(font@), super::read::opt_view(*store)));
    let ghost outlines = table_result(hvar);
    match build_variation_tables(font, source, space, hvar, &mut out) {
        Ok(_) => {},
        Err(e) => {
            return Err(e);
        },
    }
    copy_remaining_tables(&mut out, font, &REPLACED);
    match assemble(&out) {
        Ok(bytes) => {
            proof {
                a_restricted_font_forgets_the_old_space(
                    table_views(font@),
                    first,
                    source_view(*source),
                    space@,
                    outlines,
                );
                lemma_reads_under_tag(tables_in(bytes@), table_views(out@), FVAR);
                lemma_reads_under_tag(tables_in(bytes@), table_views(out@), MAXP);
            }
            Ok(bytes)
        },
        Err(e) => Err(e),
    }
}

/// A static instance with CFF2 outlines stays CFF2 and describes no variation: it has none
/// of the variation tables, but for the `STAT` that was made for it. It has as many glyphs as
/// before.
pub proof fn a_static_cff2_instance_has_no_variations(
    font: Seq<TableView>,
    cff2: Seq<u8>,
    metrics: Seq<(u16, i16)>,
    adjustments: Seq<(u32, i32)>,
    stat: Option<Seq<u8>>,
    i: int,
)
    requires
        static_cff2_tables(font, cff2, metrics, adjustments, stat) is Ok,
        0 <= i < VARIATION_TABLES@.len(),
    ensures
        ({
            let out = static_cff2_tables(font, cff2, metrics, adjustments, stat)->Ok_0;
            &&& table_bytes(out, CFF2) == Some(cff2)
            &&& table_bytes(out, MAXP) == table_bytes(font, MAXP)
            &&& table_bytes(out, VARIATION_TABLES@[i]) == if VARIATION_TABLES@[i] == STAT {
                stat
            } else {
                None
            }
        }),
{
    reveal(cff2_tables);
    let tag = VARIATION_TABLES@[i];
    let first = cff2_tables(font, cff2, metrics, adjustments)->Ok_0;
    let with_os2 = match adjusted_os2_table(font, adjustments) {
        Some(Ok(t)) => first + seq![t],
        _ => first,
    };
    let with_stat = match stat {
        Some(bytes) => with_os2 + seq![TableView { tag: STAT, bytes }],
        None => with_os2,
    };
    lemma_os2_tag(font, adjustments);
    assert(VARIATION_TABLES@.contains(tag));
    assert(VARIATION_TABLES@ =~= seq![FVAR, AVAR, GVAR, CVAR, HVAR, VVAR, MVAR, STAT]);
    assert(with_stat[0] == first[0]);
    assert(distinct_tags(with_stat));
    crate::tables::remaining_tables_are_carried_over(with_stat, font, VARIATION_TABLES@, tag);
    crate::tables::remaining_tables_are_carried_over(with_stat, font, VARIATION_TABLES@, CFF2);
    assert(!VARIATION_TABLES@.contains(MAXP));
    crate::tables::remaining_tables_are_carried_over(with_stat, font, VARIATION_TABLES@, MAXP);
    crate::tables::a_tag_is_found_where_it_is(with_stat, MAXP);
    crate::tables::a_tag_is_found_where_it_is(with_stat, tag);
    crate::tables::a_tag_is_found_where_it_is(with_stat, CFF2);
    crate::tables::lemma_found_by_tag(with_stat, 0);
    if stat is Some && tag == STAT {
        crate::tables::lemma_found_by_tag(with_stat, with_stat.len() - 1);
    }
}

} // verus!
