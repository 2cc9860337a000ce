//! Partial instancing: narrowing the design space while the font stays variable.
//!
//! Here some axes survive, either with their whole original extent or restricted to a
//! smaller one, and the variation data has to be rewritten to describe the same shapes over
//! the smaller space.
//!
//! | table | what happens |
//! |---|---|
//! | `glyf` / `gvar` | rebased; tuples that lost all their axes are baked into the outlines |
//! | `hmtx` | recomputed from the phantom points, as always |
//! | `fvar` | pinned axes removed, restricted axes narrowed, named instances filtered |
//! | `avar` | segment maps renormalized onto the new axis extents |
//! | `STAT` | axis values that are out of reach removed |
//! | `HVAR` / `VVAR` | dropped: advance widths vary through the phantom points in `gvar` |
//! | `MVAR` | applied at the new default and then dropped |
//! | `GDEF` variation stores | refused |
use read_fonts::tables::avar::Avar as ReadAvar;
use read_fonts::tables::gdef::Gdef;
use read_fonts::tables::gvar::Gvar as ReadGvar;
use read_fonts::types::GlyphId;
use read_fonts::{FontData, FontRead};
use vstd::prelude::*;
use write_fonts::dump_table;
use write_fonts::tables::avar::{Avar, AxisValueMap, SegmentMaps};
use write_fonts::tables::fvar::{
    AxisInstanceArrays, Fvar, InstanceRecord as WrittenInstance, VariationAxisRecord,
};
use write_fonts::tables::gvar::{GlyphDelta, GlyphDeltas, GlyphVariations, Gvar};
use write_fonts::tables::variations::{PackedDeltas, Tent};
use write_fonts::types::{F2Dot14, Fixed, NameId, Tag};

use crate::apply::step_file;
use crate::axes::AxisLimit;
use crate::bytes::{be16, u16_at, u32_at};
use crate::coord::{rank, Coord};
use crate::error::{unsupported, write_error, Problem, SliceError};
use crate::fields::{
    built_table, finish_table, post_fields, post_rewritten, read_post, rewrite_post,
};
use crate::font::{
    axis_records, frame_in, fvar_axes, fvar_instances, glyph_total, instance_views, read_axes,
    read_instances, tables_in,
    AxisRecord, FvarError,
    FvarProblem, InstanceRecord, InstanceView,
};
use crate::mvar::{adjusted_post, apply_to_post};
use crate::outline::{glyph_views, glyphs_written, write_glyphs, GlyfLoca, Glyph, GlyphView};
use crate::stat::{
    build_stat, fixed_coord, lemma_fixed_coord, plan_views, stat_table, AxisPlan, PlanView,
};
use crate::statics::{
    adjusted_os2_table, build_adjusted_os2, build_outline_tables, lemma_os2_tag,
    lemma_outline_tags, outline_tables, truetype_error, truetype_text,
};
use crate::tables::{
    assemble, bounds_error, copy_remaining_tables, distinct_tags, find_table, font_tables,
    lemma_reads_under_tag, need_table, needed_table, out_of_bounds, push_table, reads_as,
    table_bytes, table_views, with_remaining, FontTable, TableView, AVAR, CVAR, FVAR, GDEF, GLYF,
    GVAR, HVAR, MAXP, MVAR, OS2, POST, STAT, VVAR,
};

verus! {

// --------------------------------------------------------------------- which axes survive

/// The input axes that survive, among the first `n`.
pub open spec fn kept_axes(plans: Seq<PlanView>, n: int) -> Seq<int>
    decreases n,
{
    if n <= 0 {
        Seq::empty()
    } else if plans[n - 1].limit is Pin {
        kept_axes(plans, n - 1)
    } else {
        kept_axes(plans, n - 1).push(n - 1)
    }
}

/// Where a surviving axis lands in the output: after the surviving ones before it.
pub open spec fn output_slot(plans: Seq<PlanView>, axis: int) -> Option<int> {
    if 0 <= axis < plans.len() && !(plans[axis].limit is Pin) {
        Some(kept_axes(plans, axis).len() as int)
    } else {
        None
    }
}

/// The surviving axes keep their order, and each lands at its place among them.
pub proof fn surviving_axes_keep_their_order(plans: Seq<PlanView>, axis: int)
    requires
        0 <= axis < plans.len(),
    ensures
        output_slot(plans, axis) matches Some(slot) ==> 0 <= slot < kept_axes(
            plans,
            plans.len() as int,
        ).len() && kept_axes(plans, plans.len() as int)[slot] == axis,
{
    lemma_kept_grows(plans, axis + 1, plans.len() as int);
    let upto = kept_axes(plans, axis + 1);
    if !(plans[axis].limit is Pin) {
        assert(upto[upto.len() - 1] == axis);
    }
}

proof fn lemma_kept_grows(plans: Seq<PlanView>, n: int, m: int)
    requires
        0 <= n <= m <= plans.len(),
    ensures
        kept_axes(plans, n).len() <= kept_axes(plans, m).len(),
        forall|i: int|
            0 <= i < kept_axes(plans, n).len() ==> kept_axes(plans, m)[i] == #[trigger] kept_axes(
                plans,
                n,
            )[i],
        kept_axes(plans, m).len() <= m,
    decreases m,
{
    if n < m {
        lemma_kept_grows(plans, n, m - 1);
    } else if n > 0 {
        lemma_kept_grows(plans, n - 1, m - 1);
    }
}

/// How many axes survive.
pub fn kept_count(plans: &Vec<AxisPlan>) -> (r: usize)
    ensures
        r == kept_axes(plan_views(plans@), plans@.len() as int).len(),
        r <= plans@.len(),
{
    count_kept(plans, plans.len())
}

fn count_kept(plans: &Vec<AxisPlan>, n: usize) -> (r: usize)
    requires
        n <= plans@.len(),
    ensures
        r == kept_axes(plan_views(plans@), n as int).len(),
        r <= n,
{
    let ghost views = plan_views(plans@);
    let mut count: usize = 0;
    for i in 0..n
        invariant
            n <= plans@.len(),
            views == plan_views(plans@),
            count == kept_axes(views, i as int).len(),
            count <= i,
    {
        assert(views[i as int] == plans@[i as int]@);
        if !plans[i].is_pinned() {
            count = count + 1;
        }
    }
    count
}

/// Where a surviving axis lands in the output.
pub fn slot_of(plans: &Vec<AxisPlan>, axis: usize) -> (r: Option<usize>)
    ensures
        match r {
            Some(slot) => output_slot(plan_views(plans@), axis as int) == Some(slot as int),
            None => output_slot(plan_views(plans@), axis as int) is None,
        },
{
    if axis >= plans.len() {
        return None;
    }
    assert(plan_views(plans@)[axis as int] == plans@[axis as int]@);
    if plans[axis].is_pinned() {
        None
    } else {
        Some(count_kept(plans, axis))
    }
}

// ---------------------------------------------------------------------- what is refused

/// True for a `GDEF` table with an item variation store.
pub open spec fn has_store(gdef: Seq<u8>) -> bool {
    gdef.len() >= 18 && u16_at(gdef, 0) == 1 && u16_at(gdef, 2) >= 3 && u32_at(gdef, 14) != 0
}

/// Calls `read_fonts::tables::gdef::Gdef::read` and `Gdef::item_var_store`, which a table
/// has from version 1.3 on where its offset, at byte 14, is not null.
#[verifier::external_body]
fn read_store(gdef: &[u8]) -> (r: bool)
    ensures
        r == has_store(gdef@),
{
    Gdef::read(FontData::new(gdef)).ok().and_then(|t| t.item_var_store()).is_some()
}

/// True for a font with variable kerning or anchors.
pub open spec fn has_variable_positioning(font: Seq<TableView>) -> bool {
    table_bytes(font, GDEF) matches Some(gdef) && has_store(gdef)
}

pub fn variable_positioning(font: &Vec<FontTable>) -> (r: bool)
    ensures
        r == has_variable_positioning(table_views(font@)),
{
    match find_table(font, GDEF) {
        Some(gdef) => read_store(gdef.as_slice()),
        None => false,
    }
}

/// The text that refuses a font with variable positioning.
pub open spec fn positioning_text() -> Seq<char> {
    "This font stores variable positioning data (a GDEF item variation store, used for variable kerning and anchors). Restricting an axis would leave that data describing the old design space, and this build cannot rewrite it yet. Pin every axis instead, which produces a static instance."@
}

/// Refuse fonts whose variation data cannot be rewritten.
///
/// Producing a font that is subtly wrong is worse than producing none: leaving the store
/// keeps regions that describe an axis space that no longer exists, and removing it leaves
/// the indices that point into it dangling.
pub fn refuse_unsupported_variation_tables(font: &Vec<FontTable>) -> (r: Result<(), SliceError>)
    ensures
        match r {
            Ok(_) => !has_variable_positioning(table_views(font@)),
            Err(e) => has_variable_positioning(table_views(font@)) && e@ == Problem::Unsupported(
                positioning_text(),
            ),
        },
{
    if variable_positioning(font) {
        return Err(
            unsupported(
                "This font stores variable positioning data (a GDEF item variation store, used for variable kerning and anchors). Restricting an axis would leave that data describing the old design space, and this build cannot rewrite it yet. Pin every axis instead, which produces a static instance.",
            ),
        );
    }
    Ok(())
}

// ---------------------------------------------------------------------------------- fvar

/// The axes that survive among the first `n`, with their new extents in units of 1/65536.
pub open spec fn new_axes(
    records: Seq<AxisRecord>,
    plans: Seq<PlanView>,
    extents: Seq<(i32, i32, i32)>,
    n: int,
) -> Seq<AxisRecord>
    decreases n,
{
    if n <= 0 {
        Seq::empty()
    } else {
        let before = new_axes(records, plans, extents, n - 1);
        if plans[n - 1].limit is Pin {
            before
        } else {
            before.push(
                AxisRecord {
                    min: extents[n - 1].0,
                    default: extents[n - 1].1,
                    max: extents[n - 1].2,
                    ..records[n - 1]
                },
            )
        }
    }
}

/// Where an instance stands on an axis: an axis that it does not mention is at its default.
pub open spec fn instance_place(instance: InstanceView, plan: PlanView, axis: int) -> Coord {
    if axis < instance.coordinates.len() {
        fixed_coord(instance.coordinates[axis])
    } else {
        plan.spec.default
    }
}

/// The same in units of 1/65536, for an axis with a record.
pub open spec fn instance_value(
    instance: InstanceView,
    records: Seq<AxisRecord>,
    axis: int,
) -> i32 {
    if axis < instance.coordinates.len() {
        instance.coordinates[axis]
    } else {
        records[axis].default
    }
}

/// True when an instance can still be reached on an axis: at the pin, or within the range.
pub open spec fn reaches(limit: AxisLimit, place: Coord) -> bool {
    match limit {
        AxisLimit::Full => true,
        AxisLimit::Pin(v) => rank(place) == rank(v),
        AxisLimit::Range { min, max } => rank(min) <= rank(place) <= rank(max),
    }
}

/// True when an instance can still be reached.
pub open spec fn instance_survives(instance: InstanceView, plans: Seq<PlanView>) -> bool {
    forall|i: int|
        0 <= i < plans.len() ==> reaches(
            (#[trigger] plans[i]).limit,
            instance_place(instance, plans[i], i),
        )
}

/// The coordinates of an instance on the surviving axes among the first `n`.
pub open spec fn kept_coordinates(
    instance: InstanceView,
    records: Seq<AxisRecord>,
    plans: Seq<PlanView>,
    n: int,
) -> Seq<i32>
    decreases n,
{
    if n <= 0 {
        Seq::empty()
    } else {
        let before = kept_coordinates(instance, records, plans, n - 1);
        if plans[n - 1].limit is Pin {
            before
        } else {
            before.push(instance_value(instance, records, n - 1))
        }
    }
}

/// The instances that can still be reached, expressed over the surviving axes.
pub open spec fn new_instances(
    instances: Seq<Option<InstanceView>>,
    records: Seq<AxisRecord>,
    plans: Seq<PlanView>,
) -> Seq<InstanceView>
    decreases instances.len(),
{
    if instances.len() == 0 {
        Seq::empty()
    } else {
        let before = new_instances(instances.drop_last(), records, plans);
        match instances.last() {
            Some(instance) => if instance_survives(instance, plans) {
                before.push(
                    InstanceView {
                        coordinates: kept_coordinates(
                            instance,
                            records,
                            plans,
                            plans.len() as int,
                        ),
                        ..instance
                    },
                )
            } else {
                before
            },
            None => before,
        }
    }
}

/// The `fvar` table with these axes and instances, or why it cannot be written.
pub uninterp spec fn fvar_written(axes: Seq<AxisRecord>, instances: Seq<InstanceView>) -> Result<
    Seq<u8>,
    Seq<char>,
>;

/// An instance in the form in which it is written.
#[verifier::external_type_specification]
#[verifier::external_body]
pub struct ExWrittenInstance(WrittenInstance);

/// What an instance holds that is ready to be written.
pub uninterp spec fn written_instance(i: WrittenInstance) -> InstanceView;

/// Makes a `write_fonts::tables::fvar::InstanceRecord`. What it holds has a name: it is the
/// instance that it was made from.
#[verifier::external_body]
fn make_instance(i: &InstanceRecord) -> (r: WrittenInstance)
    ensures
        written_instance(r) == i@,
{
    WrittenInstance {
        subfamily_name_id: NameId::new(i.name_id),
        flags: i.flags,
        coordinates: i.coordinates.iter().map(|c| Fixed::from_bits(*c)).collect(),
        post_script_name_id: i.post_script_id.map(NameId::new),
    }
}

pub open spec fn written_instances(instances: Seq<WrittenInstance>) -> Seq<InstanceView> {
    instances.map_values(|i: WrittenInstance| written_instance(i))
}

/// Calls `write_fonts::tables::fvar::Fvar::new` and `write_fonts::dump_table`. The result
/// has a name; what is written reads back as its axes.
#[verifier::external_body]
fn write_fvar(axes: &Vec<AxisRecord>, instances: Vec<WrittenInstance>) -> (r: Result<
    Vec<u8>,
    String,
>)
    requires
        axes@.len() <= 0x3ffe,
        instances@.len() <= 0xffff,
    ensures
        match r {
            Ok(bytes) => {
                &&& fvar_written(axes@, written_instances(instances@)) == Ok::<
                    Seq<u8>,
                    Seq<char>,
                >(bytes@)
                &&& fvar_axes(bytes@) == Ok::<Seq<AxisRecord>, FvarProblem>(axes@)
            },
            Err(text) => fvar_written(axes@, written_instances(instances@)) == Err::<
                Seq<u8>,
                Seq<char>,
            >(text@),
        },
{
    let axes = axes.iter().map(|a| VariationAxisRecord {
        axis_tag: Tag::new(&a.tag.to_be_bytes()),
        min_value: Fixed::from_bits(a.min),
        default_value: Fixed::from_bits(a.default),
        max_value: Fixed::from_bits(a.max),
        flags: a.flags,
        axis_name_id: NameId::new(a.name_id),
    });
    let fvar = Fvar::new(AxisInstanceArrays::new(axes.collect(), instances));
    dump_table(&fvar).map_err(|e| e.to_string())
}

/// The axis records and the instances of a font's `fvar`.
pub open spec fn fvar_source(font: Seq<TableView>) -> Result<Seq<AxisRecord>, Problem> {
    match needed_table(font, FVAR) {
        Err(e) => Err(e),
        Ok(bytes) => match fvar_axes(bytes) {
            Ok(axes) => Ok(axes),
            Err(FvarProblem::Unreadable) => Err(out_of_bounds()),
            Err(FvarProblem::NoArrays(text)) => Err(Problem::Read(text)),
        },
    }
}

/// The axes that a restricted font has: those that are not pinned, in order, with their new
/// extents.
pub open spec fn left_axes(
    font: Seq<TableView>,
    plans: Seq<PlanView>,
    extents: Seq<(i32, i32, i32)>,
) -> Seq<AxisRecord> {
    new_axes(fvar_source(font)->Ok_0, plans, extents, plans.len() as int)
}

/// True when an axis that survives has no record.
pub open spec fn axis_is_gone(records: Seq<AxisRecord>, plans: Seq<PlanView>) -> bool {
    exists|i: int| records.len() <= i < plans.len() && !((#[trigger] plans[i]).limit is Pin)
}

/// The `fvar` table over the surviving axes.
pub open spec fn new_fvar(
    font: Seq<TableView>,
    plans: Seq<PlanView>,
    extents: Seq<(i32, i32, i32)>,
) -> Result<TableView, Problem> {
    match fvar_source(font) {
        Err(e) => Err(e),
        Ok(records) => if axis_is_gone(records, plans) {
            Err(Problem::Read("fvar axis disappeared while instancing"@))
        } else {
            let axes = new_axes(records, plans, extents, plans.len() as int);
            let instances = new_instances(
                fvar_instances(table_bytes(font, FVAR)->0),
                records,
                plans,
            );
            if axes.len() <= 0x3ffe && instances.len() <= 0xffff {
                built_table(FVAR, fvar_written(axes, instances))
            } else {
                Err(Problem::Write("fvar has more than the table can hold"@))
            }
        },
    }
}

fn place_reaches(limit: AxisLimit, place: Coord) -> (r: bool)
    ensures
        r == reaches(limit, place),
{
    match limit {
        AxisLimit::Full => true,
        AxisLimit::Pin(v) => place.same(v),
        AxisLimit::Range { min, max } => min.le(place) && place.le(max),
    }
}

fn keep_instance(
    instance: &InstanceRecord,
    records: &Vec<AxisRecord>,
    plans: &Vec<AxisPlan>,
) -> (r: Option<InstanceRecord>)
    requires
        !axis_is_gone(records@, plan_views(plans@)),
    ensures
        match r {
            Some(kept) => instance_survives(instance@, plan_views(plans@)) && kept@ == (
            InstanceView {
                coordinates: kept_coordinates(
                    instance@,
                    records@,
                    plan_views(plans@),
                    plans@.len() as int,
                ),
                ..instance@
            }),
            None => !instance_survives(instance@, plan_views(plans@)),
        },
{
    let ghost views = plan_views(plans@);
    let mut coordinates: Vec<i32> = Vec::new();
    for i in 0..plans.len()
        invariant
            views == plan_views(plans@),
            !axis_is_gone(records@, views),
            coordinates@ == kept_coordinates(instance@, records@, views, i as int),
            forall|k: int|
                0 <= k < i ==> reaches(
                    (#[trigger] views[k]).limit,
                    instance_place(instance@, views[k], k),
                ),
    {
        assert(views[i as int] == plans@[i as int]@);
        let place: Coord = if i < instance.coordinates.len() {
            let value: i32 = instance.coordinates[i];
            let c: Coord = Coord::of_fixed(value);
            proof {
                lemma_fixed_coord(c, value);
            }
            c
        } else {
            plans[i].spec.default
        };
        if !place_reaches(plans[i].limit, place) {
            assert(!reaches(
                views[i as int].limit,
                instance_place(instance@, views[i as int], i as int),
            ));
            return None;
        }
        if !plans[i].is_pinned() {
            assert(i < records@.len());
            let value: i32 = if i < instance.coordinates.len() {
                instance.coordinates[i]
            } else {
                records[i].default
            };
            coordinates.push(value);
        }
    }
    let kept: InstanceRecord = InstanceRecord {
        name_id: instance.name_id,
        flags: instance.flags,
        coordinates,
        post_script_id: instance.post_script_id,
    };
    assert(kept@ =~= InstanceView {
        coordinates: kept_coordinates(instance@, records@, views, plans@.len() as int),
        ..instance@
    });
    Some(kept)
}

fn is_axis_gone(records: &Vec<AxisRecord>, plans: &Vec<AxisPlan>) -> (r: bool)
    ensures
        r == axis_is_gone(records@, plan_views(plans@)),
{
    let ghost views = plan_views(plans@);
    for i in 0..plans.len()
        invariant
            views == plan_views(plans@),
            forall|k: int| records@.len() <= k < i ==> (#[trigger] views[k]).limit is Pin,
    {
        assert(views[i as int] == plans@[i as int]@);
        if i >= records.len() && !plans[i].is_pinned() {
            return true;
        }
    }
    false
}

/// Rebuild `fvar` over the surviving axes, with their new extents in units of 1/65536.
///
/// Named instances survive only if they sit at the pinned location and inside the new
/// ranges; otherwise they would name a place the font can no longer reach.
pub fn build_fvar(
    font: &Vec<FontTable>,
    plans: &Vec<AxisPlan>,
    extents: &Vec<(i32, i32, i32)>,
) -> (r: Result<FontTable, SliceError>)
    requires
        extents@.len() == plans@.len(),
    ensures
        match r {
            Ok(t) => {
                &&& new_fvar(table_views(font@), plan_views(plans@), extents@) == Ok::<
                    TableView,
                    Problem,
                >(t@)
                &&& t.tag == FVAR
                &&& fvar_axes(t.bytes@) == Ok::<Seq<AxisRecord>, FvarProblem>(
                    new_axes(
                        fvar_source(table_views(font@))->Ok_0,
                        plan_views(plans@),
                        extents@,
                        plans@.len() as int,
                    ),
                )
            },
            Err(e) => new_fvar(table_views(font@), plan_views(plans@), extents@) == Err::<
                TableView,
                Problem,
            >(e@),
        },
{
    let ghost views = plan_views(plans@);
    let bytes: &Vec<u8> = match need_table(font, FVAR) {
        Ok(bytes) => bytes,
        Err(e) => {
            return Err(e);
        },
    };
    let records: Vec<AxisRecord> = match read_axes(bytes.as_slice()) {
        Ok(records) => records,
        Err(FvarError::Unreadable) => {
            return Err(bounds_error());
        },
        Err(FvarError::NoArrays(text)) => {
            return Err(SliceError::Read(text));
        },
    };
    if is_axis_gone(&records, plans) {
        return Err(crate::error::read_error("fvar axis disappeared while instancing"));
    }
    let mut axes: Vec<AxisRecord> = Vec::new();
    for i in 0..plans.len()
        invariant
            views == plan_views(plans@),
            !axis_is_gone(records@, views),
            extents@.len() == plans@.len(),
            axes@ == new_axes(records@, views, extents@, i as int),
    {
        assert(views[i as int] == plans@[i as int]@);
        if !plans[i].is_pinned() {
            let (min, default, max) = extents[i];
            assert(i < records@.len());
            axes.push(AxisRecord { min, default, max, ..records[i] });
        }
    }
    let instances: Vec<Option<InstanceRecord>> = read_instances(bytes.as_slice());
    let ghost all = instance_views(instances@);
    let mut written: Vec<WrittenInstance> = Vec::new();
    assert(written_instances(written@) =~= new_instances(all.take(0), records@, views));
    for i in 0..instances.len()
        invariant
            views == plan_views(plans@),
            all == instance_views(instances@),
            !axis_is_gone(records@, views),
            written_instances(written@) == new_instances(all.take(i as int), records@, views),
    {
        assert(all.take(i + 1).drop_last() =~= all.take(i as int));
        let ghost before = written_instances(written@);
        match &instances[i] {
            Some(instance) => {
                assert(all[i as int] == Some(instance@));
                match keep_instance(instance, &records, plans) {
                    Some(kept) => {
                        written.push(make_instance(&kept));
                        assert(written_instances(written@) =~= before.push(kept@));
                    },
                    None => {},
                }
            },
            None => {
                assert(all[i as int] is None);
            },
        }
    }
    assert(all.take(all.len() as int) =~= all);
    assert(written_instances(written@).len() == written@.len());
    if axes.len() > 0x3ffe || written.len() > 0xffff {
        return Err(write_error("fvar has more than the table can hold"));
    }
    finish_table(FVAR, write_fvar(&axes, written))
}

// ---------------------------------------------------------------------------------- avar

/// The segment maps of an `avar` table, one per axis, in units of 1/16384, and whether the
/// table is of version 2; nothing where it cannot be read.
pub uninterp spec fn avar_maps(bytes: Seq<u8>) -> Option<(Seq<Seq<(i16, i16)>>, bool)>;

pub open spec fn map_views(maps: Seq<Vec<(i16, i16)>>) -> Seq<Seq<(i16, i16)>> {
    maps.map_values(|m: Vec<(i16, i16)>| m@)
}

/// Calls `read_fonts::tables::avar::Avar::read`, `Avar::version` and
/// `Avar::axis_segment_maps`. The maps have a name; one that cannot be read makes all of
/// them unreadable.
#[verifier::external_body]
fn read_avar(bytes: &[u8]) -> (r: Option<(Vec<Vec<(i16, i16)>>, bool)>)
    ensures
        match r {
            Some((maps, extended)) => avar_maps(bytes@) == Some((map_views(maps@), extended)),
            None => avar_maps(bytes@) is None,
        },
{
    let avar = ReadAvar::read(FontData::new(bytes)).ok()?;
    let maps: Result<Vec<_>, _> = avar.axis_segment_maps().iter().map(|m| m.map(|m| {
        let pair = |v: &read_fonts::tables::avar::AxisValueMap| {
            (v.from_coordinate().to_bits(), v.to_coordinate().to_bits())
        };
        m.axis_value_maps().iter().map(pair).collect()
    })).collect();
    Some((maps.ok()?, avar.version().major > 1))
}

/// The `avar` segment maps of a font.
pub open spec fn font_maps(font: Seq<TableView>) -> Option<(Seq<Seq<(i16, i16)>>, bool)> {
    match table_bytes(font, AVAR) {
        Some(bytes) => avar_maps(bytes),
        None => None,
    }
}

/// The `avar` segment maps, one per axis in `fvar` order, in units of 1/16384.
///
/// Returns `None` when the font has no usable `avar`. `avar` version 2 adds a variation
/// store on top of the segment maps; its segment maps still apply, so they are read and
/// the extra warping is reported to the caller rather than silently ignored.
pub fn segment_maps(font: &Vec<FontTable>) -> (r: Option<(Vec<Vec<(i16, i16)>>, bool)>)
    ensures
        match r {
            Some((maps, extended)) => font_maps(table_views(font@)) == Some(
                (map_views(maps@), extended),
            ),
            None => font_maps(table_views(font@)) is None,
        },
{
    match find_table(font, AVAR) {
        Some(bytes) => read_avar(bytes.as_slice()),
        None => None,
    }
}

/// How a segment map is carried over to a restricted axis, in units of 1/16384: the range
/// of inputs that is left, and for each pair of the map what it is renormalized to.
#[derive(Debug)]
pub struct MapChange {
    pub min: i16,
    pub max: i16,
    pub pairs: Vec<(i16, i16)>,
}

/// What a [`MapChange`] holds.
#[verifier::ext_equal]
pub struct MapChangeView {
    pub min: i16,
    pub max: i16,
    pub pairs: Seq<(i16, i16)>,
}

impl View for MapChange {
    type V = MapChangeView;

    open spec fn view(&self) -> MapChangeView {
        MapChangeView { min: self.min, max: self.max, pairs: self.pairs@ }
    }
}

pub open spec fn change_views(changes: Seq<MapChange>) -> Seq<MapChangeView> {
    changes.map_values(|c: MapChange| c@)
}

/// The mapping of the renormalized pairs whose inputs are in the range that is left, among
/// the first `n`. Of two with one input the later counts.
pub open spec fn carried(map: Seq<(i16, i16)>, change: MapChangeView, n: int) -> Map<i16, i16>
    decreases n,
{
    if n <= 0 {
        Map::empty()
    } else {
        let before = carried(map, change, n - 1);
        if map[n - 1].0 < change.min || map[n - 1].0 > change.max {
            before
        } else {
            before.insert(change.pairs[n - 1].0, change.pairs[n - 1].1)
        }
    }
}

/// The numbers -1, 0 and 1 in units of 1/16384.
pub const MINUS_ONE: i16 = -16384;

pub const PLUS_ONE: i16 = 16384;

/// A mapping with the three fixed points that every segment map must contain.
pub open spec fn with_fixed_points(m: Map<i16, i16>) -> Map<i16, i16> {
    m.insert(MINUS_ONE, MINUS_ONE).insert(0, 0).insert(PLUS_ONE, PLUS_ONE)
}

/// The mapping that a list of pairs holds.
pub open spec fn mapping_of(pairs: Seq<(i16, i16)>) -> Map<i16, i16>
    decreases pairs.len(),
{
    if pairs.len() == 0 {
        Map::empty()
    } else {
        mapping_of(pairs.drop_last()).insert(pairs.last().0, pairs.last().1)
    }
}

/// True for pairs with strictly rising inputs.
pub open spec fn is_rising(pairs: Seq<(i16, i16)>) -> bool {
    forall|i: int, j: int|
        0 <= i < j < pairs.len() ==> (#[trigger] pairs[i]).0 < (#[trigger] pairs[j]).0
}

pub open spec fn identity_map() -> Seq<(i16, i16)> {
    seq![(MINUS_ONE, MINUS_ONE), (0i16, 0i16), (PLUS_ONE, PLUS_ONE)]
}

/// True for the list of the pairs of a mapping, with rising inputs.
pub open spec fn is_list_of(pairs: Seq<(i16, i16)>, m: Map<i16, i16>) -> bool {
    is_rising(pairs) && mapping_of(pairs) == m
}

/// The pairs of a mapping, with rising inputs.
pub open spec fn rising_list(m: Map<i16, i16>) -> Seq<(i16, i16)> {
    choose|pairs: Seq<(i16, i16)>| is_list_of(pairs, m)
}

/// True for a segment map that renderers use: it has the three pairs that every map must
/// have, for the two ends of an axis and its default. Any other counts as absent.
pub open spec fn is_usable(map: Seq<(i16, i16)>) -> bool {
    &&& map.contains(((-16384) as i16, (-16384) as i16))
    &&& map.contains((0i16, 0i16))
    &&& map.contains((16384i16, 16384i16))
}

/// True for a segment map that is to be applied. See [`is_usable`].
pub fn is_segment_map(map: &[(i16, i16)]) -> (r: bool)
    ensures
        r == is_usable(map@),
{
    has_pair(map, -16384) && has_pair(map, 0) && has_pair(map, 16384)
}

/// True when a segment map leaves a coordinate where it is, by a pair of its own.
fn has_pair(map: &[(i16, i16)], v: i16) -> (r: bool)
    ensures
        r == map@.contains((v, v)),
{
    for i in 0..map.len()
        invariant
            forall|k: int| 0 <= k < i ==> #[trigger] map@[k] != (v, v),
    {
        if map[i].0 == v && map[i].1 == v {
            assert(map@[i as int] == (v, v));
            return true;
        }
        assert(map@[i as int] != (v, v));
    }
    false
}

/// The segment map that an axis has in the output.
pub open spec fn new_map(
    maps: Seq<Seq<(i16, i16)>>,
    plan: PlanView,
    change: MapChangeView,
    axis: int,
) -> Seq<(i16, i16)> {
    if axis >= maps.len() {
        identity_map()
    } else if plan.limit is Full || maps[axis].len() < 3 {
        maps[axis]
    } else {
        rising_list(with_fixed_points(carried(maps[axis], change, maps[axis].len() as int)))
    }
}

/// The segment maps that the surviving axes among the first `n` have in the output.
pub open spec fn new_maps(
    maps: Seq<Seq<(i16, i16)>>,
    plans: Seq<PlanView>,
    changes: Seq<MapChangeView>,
    n: int,
) -> Seq<Seq<(i16, i16)>>
    decreases n,
{
    if n <= 0 {
        Seq::empty()
    } else {
        let before = new_maps(maps, plans, changes, n - 1);
        if plans[n - 1].limit is Pin {
            before
        } else {
            before.push(new_map(maps, plans[n - 1], changes[n - 1], n - 1))
        }
    }
}

/// A mapping has one list with rising inputs.
proof fn lemma_one_list(a: Seq<(i16, i16)>, b: Seq<(i16, i16)>)
    requires
        is_rising(a),
        is_rising(b),
        mapping_of(a) == mapping_of(b),
    ensures
        a == b,
    decreases a.len(),
{
    lemma_mapping(a);
    lemma_mapping(b);
    let m = mapping_of(a);
    if a.len() == 0 {
        if b.len() > 0 {
            assert(m.dom().contains(b[0].0));
        }
        assert(a =~= b);
    } else if b.len() == 0 {
        assert(m.dom().contains(a[0].0));
    } else {
        let x = a[a.len() - 1];
        let y = b[b.len() - 1];
        assert(m.dom().contains(x.0));
        assert(m.dom().contains(y.0));
        assert(x.0 == y.0) by {
            let j = choose|j: int| 0 <= j < b.len() && (#[trigger] b[j]).0 == x.0;
            let i = choose|i: int| 0 <= i < a.len() && (#[trigger] a[i]).0 == y.0;
            if j < b.len() - 1 {
                assert(b[j].0 < b[b.len() - 1].0);
            }
            if i < a.len() - 1 {
                assert(a[i].0 < a[a.len() - 1].0);
            }
        }
        assert(x == y);
        let ra = a.drop_last();
        let rb = b.drop_last();
        lemma_rest_is_rising(a);
        lemma_rest_is_rising(b);
        assert(mapping_of(ra) =~= m.remove(x.0));
        assert(mapping_of(rb) =~= m.remove(x.0));
        lemma_one_list(ra, rb);
        assert(a =~= ra.push(x));
        assert(b =~= rb.push(y));
    }
}

/// Without its last pair a list still has rising inputs, and no longer that one.
proof fn lemma_rest_is_rising(a: Seq<(i16, i16)>)
    requires
        is_rising(a),
        a.len() > 0,
    ensures
        is_rising(a.drop_last()),
        !mapping_of(a.drop_last()).dom().contains(a.last().0),
{
    let rest = a.drop_last();
    assert forall|i: int, j: int| 0 <= i < j < rest.len() implies (#[trigger] rest[i]).0 < (
    #[trigger] rest[j]).0 by {
        assert(a[i].0 < a[j].0);
    }
    lemma_mapping(rest);
    if mapping_of(rest).dom().contains(a.last().0) {
        let i = choose|i: int| 0 <= i < rest.len() && (#[trigger] rest[i]).0 == a.last().0;
        assert(a[i].0 < a[a.len() - 1].0);
    }
}

pub(crate) proof fn lemma_rising_list(pairs: Seq<(i16, i16)>, m: Map<i16, i16>)
    requires
        is_list_of(pairs, m),
    ensures
        rising_list(m) == pairs,
{
    let chosen = rising_list(m);
    assert(is_list_of(chosen, m));
    lemma_one_list(chosen, pairs);
}

/// The index of the first pair whose input is not below `key`.
fn place_for(pairs: &Vec<(i16, i16)>, key: i16) -> (at: usize)
    requires
        is_rising(pairs@),
    ensures
        at <= pairs@.len(),
        forall|i: int| 0 <= i < at ==> (#[trigger] pairs@[i]).0 < key,
        forall|i: int| at <= i < pairs@.len() ==> (#[trigger] pairs@[i]).0 >= key,
{
    let mut at: usize = 0;
    while at < pairs.len() && pairs[at].0 < key
        invariant
            at <= pairs@.len(),
            forall|i: int| 0 <= i < at ==> (#[trigger] pairs@[i]).0 < key,
        decreases pairs@.len() - at,
    {
        at = at + 1;
    }
    proof {
        if at < pairs@.len() {
            assert forall|i: int| at <= i < pairs@.len() implies (#[trigger] pairs@[i]).0 >= key by {
                if i > at {
                    assert(pairs@[at as int].0 < pairs@[i].0);
                }
            }
        }
    }
    at
}

pub(crate) proof fn lemma_mapping(pairs: Seq<(i16, i16)>)
    requires
        is_rising(pairs),
    ensures
        forall|k: i16|
            #[trigger] mapping_of(pairs).dom().contains(k) <==> exists|i: int|
                0 <= i < pairs.len() && (#[trigger] pairs[i]).0 == k,
        forall|i: int|
            0 <= i < pairs.len() ==> mapping_of(pairs)[(#[trigger] pairs[i]).0] == pairs[i].1,
    decreases pairs.len(),
{
    if pairs.len() > 0 {
        let rest = pairs.drop_last();
        assert(is_rising(rest)) by {
            assert forall|i: int, j: int| 0 <= i < j < rest.len() implies (#[trigger] rest[i]).0 < (
            #[trigger] rest[j]).0 by {
                assert(pairs[i].0 < pairs[j].0);
            }
        }
        lemma_mapping(rest);
        let m = mapping_of(pairs);
        let last = pairs[pairs.len() - 1];
        assert forall|k: i16| #[trigger] m.dom().contains(k) <==> exists|i: int|
            0 <= i < pairs.len() && (#[trigger] pairs[i]).0 == k by {
            if m.dom().contains(k) {
                if k == last.0 {
                    assert(pairs[pairs.len() - 1].0 == k);
                } else {
                    assert(mapping_of(rest).dom().contains(k));
                    let i = choose|i: int| 0 <= i < rest.len() && (#[trigger] rest[i]).0 == k;
                    assert(pairs[i].0 == k);
                }
            }
            if exists|i: int| 0 <= i < pairs.len() && (#[trigger] pairs[i]).0 == k {
                let i = choose|i: int| 0 <= i < pairs.len() && (#[trigger] pairs[i]).0 == k;
                if i < rest.len() {
                    assert(rest[i].0 == k);
                    assert(mapping_of(rest).dom().contains(k));
                }
            }
        }
        assert forall|i: int| 0 <= i < pairs.len() implies m[(#[trigger] pairs[i]).0]
            == pairs[i].1 by {
            if i < rest.len() {
                assert(pairs[i].0 < pairs[pairs.len() - 1].0);
                assert(rest[i] == pairs[i]);
            }
        }
    }
}

/// Put a pair into a list with rising inputs, in place of one with the same input.
#[verifier::rlimit(60)]
#[verifier::spinoff_prover]
fn put_pair(pairs: &mut Vec<(i16, i16)>, from: i16, to: i16)
    requires
        is_rising(old(pairs)@),
    ensures
        is_rising(final(pairs)@),
        mapping_of(final(pairs)@) == mapping_of(old(pairs)@).insert(from, to),
{
    let ghost before = pairs@;
    let at: usize = place_for(pairs, from);
    if at < pairs.len() && pairs[at].0 == from {
        pairs.set(at, (from, to));
        assert(is_rising(pairs@)) by {
            assert forall|i: int, j: int| 0 <= i < j < pairs@.len() implies (
            #[trigger] pairs@[i]).0 < (#[trigger] pairs@[j]).0 by {
                assert(before[i].0 < before[j].0);
            }
        }
    } else {
        pairs.insert(at, (from, to));
        assert(is_rising(pairs@)) by {
            assert forall|i: int, j: int| 0 <= i < j < pairs@.len() implies (
            #[trigger] pairs@[i]).0 < (#[trigger] pairs@[j]).0 by {
                if i < at && j > at {
                    assert(before[i].0 < before[j - 1].0);
                } else if j < at {
                    assert(before[i].0 < before[j].0);
                } else if i > at {
                    assert(before[i - 1].0 < before[j - 1].0);
                }
            }
        }
    }
    proof {
        lemma_mapping(before);
        lemma_mapping(pairs@);
        let m = mapping_of(pairs@);
        let w = mapping_of(before).insert(from, to);
        let placed = pairs@;
        assert(placed[at as int] == (from, to));
        let replaced = placed.len() == before.len();
        assert forall|k: i16| m.dom().contains(k) == w.dom().contains(k) by {
            if m.dom().contains(k) {
                let i = choose|i: int| 0 <= i < placed.len() && (#[trigger] placed[i]).0 == k;
                if i != at {
                    let j = if replaced || i < at {
                        i
                    } else {
                        i - 1
                    };
                    assert(before[j].0 == k);
                    assert(mapping_of(before).dom().contains(k));
                }
            }
            if w.dom().contains(k) && k != from {
                let j = choose|j: int| 0 <= j < before.len() && (#[trigger] before[j]).0 == k;
                let i = if replaced || j < at {
                    j
                } else {
                    j + 1
                };
                assert(placed[i].0 == k);
            }
        }
        assert forall|k: i16| m.dom().contains(k) implies m[k] == w[k] by {
            let i = choose|i: int| 0 <= i < placed.len() && (#[trigger] placed[i]).0 == k;
            assert(m[placed[i].0] == placed[i].1);
            if i != at {
                let j = if replaced || i < at {
                    i
                } else {
                    i - 1
                };
                assert(before[j] == placed[i]);
                assert(mapping_of(before)[before[j].0] == before[j].1);
                assert(k != from) by {
                    if i < at {
                        assert(placed[i].0 < placed[at as int].0);
                    } else {
                        assert(placed[at as int].0 < placed[i].0);
                    }
                }
            }
        }
        assert(m =~= w);
    }
}

fn carry_map(map: &Vec<(i16, i16)>, change: &MapChange) -> (out: Vec<(i16, i16)>)
    requires
        change.pairs@.len() == map@.len(),
    ensures
        out@ == rising_list(with_fixed_points(carried(map@, change@, map@.len() as int))),
{
    let mut out: Vec<(i16, i16)> = Vec::new();
    for i in 0..map.len()
        invariant
            change.pairs@.len() == map@.len(),
            is_rising(out@),
            mapping_of(out@) == carried(map@, change@, i as int),
    {
        if map[i].0 >= change.min && map[i].0 <= change.max {
            put_pair(&mut out, change.pairs[i].0, change.pairs[i].1);
        }
    }
    put_pair(&mut out, MINUS_ONE, MINUS_ONE);
    put_pair(&mut out, 0, 0);
    put_pair(&mut out, PLUS_ONE, PLUS_ONE);
    proof {
        lemma_rising_list(
            out@,
            with_fixed_points(carried(map@, change@, map@.len() as int)),
        );
    }
    out
}

/// The three fixed points of a segment map, and nothing else.
pub fn identity_segment_map() -> (out: Vec<(i16, i16)>)
    ensures
        out@ == identity_map(),
{
    let mut out: Vec<(i16, i16)> = Vec::new();
    out.push((MINUS_ONE, MINUS_ONE));
    out.push((0, 0));
    out.push((PLUS_ONE, PLUS_ONE));
    assert(out@ =~= identity_map());
    out
}

fn copy_map(map: &Vec<(i16, i16)>) -> (out: Vec<(i16, i16)>)
    ensures
        out@ == map@,
{
    let mut out: Vec<(i16, i16)> = Vec::new();
    for i in 0..map.len()
        invariant
            out@ == map@.take(i as int),
    {
        out.push(map[i]);
        assert(out@ =~= map@.take(i + 1));
    }
    assert(out@ =~= map@);
    out
}

/// The segment maps of the surviving axes.
///
/// A segment map is a function on normalized coordinates, and the normalized coordinates
/// have just changed meaning, so each retained mapping has to be expressed against the new
/// extents, as `changes` says for each axis.
pub fn new_segment_maps(
    maps: &Vec<Vec<(i16, i16)>>,
    plans: &Vec<AxisPlan>,
    changes: &Vec<MapChange>,
) -> (out: Vec<Vec<(i16, i16)>>)
    requires
        changes@.len() == plans@.len(),
        forall|i: int|
            0 <= i < plans@.len() && i < maps@.len() ==> (#[trigger] changes@[i]).pairs@.len()
                == maps@[i]@.len(),
    ensures
        map_views(out@) == new_maps(
            map_views(maps@),
            plan_views(plans@),
            change_views(changes@),
            plans@.len() as int,
        ),
{
    let ghost maps_view = map_views(maps@);
    let ghost views = plan_views(plans@);
    let ghost changes_view = change_views(changes@);
    let mut out: Vec<Vec<(i16, i16)>> = Vec::new();
    assert(map_views(out@) =~= new_maps(maps_view, views, changes_view, 0));
    for i in 0..plans.len()
        invariant
            maps_view == map_views(maps@),
            views == plan_views(plans@),
            changes_view == change_views(changes@),
            changes@.len() == plans@.len(),
            forall|i: int|
                0 <= i < plans@.len() && i < maps@.len() ==> (#[trigger] changes@[i]).pairs@.len()
                    == maps@[i]@.len(),
            map_views(out@) == new_maps(maps_view, views, changes_view, i as int),
    {
        assert(views[i as int] == plans@[i as int]@);
        assert(changes_view[i as int] == changes@[i as int]@);
        if !plans[i].is_pinned() {
            let map: Vec<(i16, i16)> = if i >= maps.len() {
                identity_segment_map()
            } else {
                assert(maps_view[i as int] == maps@[i as int]@);
                if plans[i].is_untouched() || maps[i].len() < 3 {
                    copy_map(&maps[i])
                } else {
                    assert(changes@[i as int].pairs@.len() == maps@[i as int]@.len());
                    carry_map(&maps[i], &changes[i])
                }
            };
            let ghost before = map_views(out@);
            let ghost added = map@;
            assert(added == new_map(maps_view, views[i as int], changes_view[i as int], i as int));
            out.push(map);
            assert(map_views(out@) =~= before.push(added));
        }
    }
    out
}

/// The first `n` pairs of a segment map, as the table stores them.
pub open spec fn pair_bytes(pairs: Seq<(i16, i16)>, n: int) -> Seq<u8>
    decreases n,
{
    if n <= 0 {
        Seq::empty()
    } else {
        pair_bytes(pairs, n - 1) + be16(pairs[n - 1].0 as int) + be16(pairs[n - 1].1 as int)
    }
}

/// The first `n` segment maps, each behind its length.
pub open spec fn map_bytes(maps: Seq<Seq<(i16, i16)>>, n: int) -> Seq<u8>
    decreases n,
{
    if n <= 0 {
        Seq::empty()
    } else {
        map_bytes(maps, n - 1) + be16(maps[n - 1].len() as int) + pair_bytes(
            maps[n - 1],
            maps[n - 1].len() as int,
        )
    }
}

/// The `avar` table, of version 1.0, with these segment maps.
pub open spec fn avar_bytes(maps: Seq<Seq<(i16, i16)>>) -> Seq<u8> {
    be16(1) + be16(0) + be16(0) + be16(maps.len() as int) + map_bytes(maps, maps.len() as int)
}

/// True for maps whose numbers fit the fields of the table.
pub open spec fn maps_fit(maps: Seq<Seq<(i16, i16)>>) -> bool {
    maps.len() <= 0xffff && forall|i: int|
        0 <= i < maps.len() ==> (#[trigger] maps[i]).len() <= 0xffff
}

/// Calls `write_fonts::tables::avar::Avar::new` and `write_fonts::dump_table`. The table has
/// no offsets to pack, and no rule to break where the numbers fit, so it is always written;
/// it reads back as its maps.
#[verifier::external_body]
fn write_avar(maps: &Vec<Vec<(i16, i16)>>) -> (r: Result<Vec<u8>, String>)
    requires
        maps_fit(map_views(maps@)),
    ensures
        match r {
            Ok(bytes) => bytes@ == avar_bytes(map_views(maps@)) && avar_maps(bytes@) == Some(
                (map_views(maps@), false),
            ),
            Err(_) => false,
        },
{
    let bit = F2Dot14::from_bits;
    let maps = maps.iter().map(|m| SegmentMaps::new(m.iter().map(|p| AxisValueMap {
        from_coordinate: bit(p.0),
        to_coordinate: bit(p.1),
    }).collect()));
    dump_table(&Avar::new(maps.collect())).map_err(|e| e.to_string())
}

/// The text that refuses a font with an `avar` table of version 2.
pub open spec fn avar2_text() -> Seq<char> {
    "This font has an avar version 2 table, whose extra variation store this build cannot rewrite. Pin every axis instead, which produces a static instance."@
}

/// The `avar` table for new segment maps: none where no axis survives.
pub open spec fn avar_table(maps: Seq<Seq<(i16, i16)>>) -> Option<Result<TableView, Problem>> {
    if maps.len() == 0 {
        None
    } else if maps_fit(maps) {
        Some(Ok(TableView { tag: AVAR, bytes: avar_bytes(maps) }))
    } else {
        Some(Err(Problem::Write("avar has more than the table can hold"@)))
    }
}

/// The `avar` table that the output has.
pub open spec fn new_avar(
    source: Option<(Seq<Seq<(i16, i16)>>, bool)>,
    plans: Seq<PlanView>,
    changes: Seq<MapChangeView>,
) -> Option<Result<TableView, Problem>> {
    match source {
        None => None,
        Some((maps, extended)) => if extended {
            Some(Err(Problem::Unsupported(avar2_text())))
        } else {
            avar_table(new_maps(maps, plans, changes, plans.len() as int))
        },
    }
}

pub open spec fn source_view(source: Option<(Vec<Vec<(i16, i16)>>, bool)>) -> Option<
    (Seq<Seq<(i16, i16)>>, bool),
> {
    match source {
        Some((maps, extended)) => Some((map_views(maps@), extended)),
        None => None,
    }
}

pub open spec fn table_result(r: Option<Result<FontTable, SliceError>>) -> Option<
    Result<TableView, Problem>,
> {
    match r {
        Some(Ok(t)) => Some(Ok(t@)),
        Some(Err(e)) => Some(Err(e@)),
        None => None,
    }
}

fn all_maps_fit(maps: &Vec<Vec<(i16, i16)>>) -> (ok: bool)
    ensures
        ok == maps_fit(map_views(maps@)),
{
    let ghost views = map_views(maps@);
    if maps.len() > 0xffff {
        return false;
    }
    for i in 0..maps.len()
        invariant
            views == map_views(maps@),
            forall|k: int| 0 <= k < i ==> (#[trigger] views[k]).len() <= 0xffff,
    {
        assert(views[i as int] == maps@[i as int]@);
        if maps[i].len() > 0xffff {
            return false;
        }
    }
    true
}

/// Rebuild `avar` over the surviving axes. `source` is what [`segment_maps`] gives.
pub fn build_avar(
    source: &Option<(Vec<Vec<(i16, i16)>>, bool)>,
    plans: &Vec<AxisPlan>,
    changes: &Vec<MapChange>,
) -> (r: Option<Result<FontTable, SliceError>>)
    requires
        changes@.len() == plans@.len(),
        source matches Some((maps, _)) ==> forall|i: int|
            0 <= i < plans@.len() && i < maps@.len() ==> (#[trigger] changes@[i]).pairs@.len()
                == maps@[i]@.len(),
    ensures
        table_result(r) == new_avar(
            source_view(*source),
            plan_views(plans@),
            change_views(changes@),
        ),
        r matches Some(Ok(t)) ==> t.tag == AVAR && avar_maps(t.bytes@) == Some(
            (
                new_maps(
                    source_view(*source)->Some_0.0,
                    plan_views(plans@),
                    change_views(changes@),
                    plans@.len() as int,
                ),
                false,
            ),
        ),
{
    let maps: &Vec<Vec<(i16, i16)>> = match source {
        None => {
            return None;
        },
        Some((maps, extended)) => {
            if *extended {
                return Some(
                    Err(
                        unsupported(
                            "This font has an avar version 2 table, whose extra variation store this build cannot rewrite. Pin every axis instead, which produces a static instance.",
                        ),
                    ),
                );
            }
            assert(source_view(*source) == Some((map_views(maps@), false)));
            maps
        },
    };
    let out: Vec<Vec<(i16, i16)>> = new_segment_maps(maps, plans, changes);
    let ghost new = map_views(out@);
    assert(new.len() == out@.len());
    let r: Option<Result<FontTable, SliceError>> = if out.len() == 0 {
        None
    } else if !all_maps_fit(&out) {
        Some(Err(write_error("avar has more than the table can hold")))
    } else {
        Some(finish_table(AVAR, write_avar(&out)))
    };
    r
}

// -------------------------------------------------------------------------- gvar, reading

/// A tuple variation as `gvar` holds it, in units of 1/16384: where it peaks on each axis,
/// where it starts and ends if it says so, and its deltas by point.
#[derive(Debug)]
pub struct TupleRecord {
    pub peak: Vec<i16>,
    pub start: Option<Vec<i16>>,
    pub end: Option<Vec<i16>>,
    pub deltas: Vec<(u16, i32, i32)>,
}

/// What a [`TupleRecord`] holds.
#[verifier::ext_equal]
pub struct TupleView {
    pub peak: Seq<i16>,
    pub start: Option<Seq<i16>>,
    pub end: Option<Seq<i16>>,
    pub deltas: Seq<(u16, i32, i32)>,
}

pub open spec fn optional_seq(v: Option<Vec<i16>>) -> Option<Seq<i16>> {
    match v {
        Some(v) => Some(v@),
        None => None,
    }
}

impl View for TupleRecord {
    type V = TupleView;

    open spec fn view(&self) -> TupleView {
        TupleView {
            peak: self.peak@,
            start: optional_seq(self.start),
            end: optional_seq(self.end),
            deltas: self.deltas@,
        }
    }
}

pub open spec fn tuple_views(tuples: Seq<TupleRecord>) -> Seq<TupleView> {
    tuples.map_values(|t: TupleRecord| t@)
}

/// The tuple variations of a glyph.
pub uninterp spec fn gvar_tuples(gvar: Seq<u8>, gid: u32) -> Seq<TupleView>;

/// Calls `read_fonts::tables::gvar::Gvar::read` and `Gvar::glyph_variation_data`. The
/// tuples have a name; there are none where the glyph has no data that can be read.
#[verifier::external_body]
fn read_gvar(gvar: &[u8], gid: u32) -> (r: Vec<TupleRecord>)
    ensures
        tuple_views(r@) == gvar_tuples(gvar@, gid),
{
    let Ok(gvar) = ReadGvar::read(FontData::new(gvar)) else { return Vec::new() };
    let Ok(Some(data)) = gvar.glyph_variation_data(GlyphId::new(gid)) else {
        return Vec::new();
    };
    data.tuples().map(|t| {
        let bits = |t: read_fonts::tables::variations::Tuple| {
            t.values().iter().map(|v| v.get().to_bits()).collect()
        };
        TupleRecord {
            peak: bits(t.peak()),
            start: t.intermediate_start().map(bits), end: t.intermediate_end().map(bits),
            deltas: t.deltas().map(|d| (d.position, d.x_delta, d.y_delta)).collect(),
        }
    }).collect()
}

/// The part of a tuple's region on one axis, in units of 1/16384.
#[derive(Clone, Copy, Debug, PartialEq, Eq, Structural)]
pub struct AxisTent {
    pub axis: usize,
    pub start: i16,
    pub peak: i16,
    pub end: i16,
}

/// A tuple variation with its support per input axis and one optional delta per point.
#[derive(Debug)]
pub struct SparseTuple {
    /// An axis that is absent does not participate.
    pub axes: Vec<AxisTent>,
    pub deltas: Vec<Option<(i32, i32)>>,
}

/// What a [`SparseTuple`] holds.
#[verifier::ext_equal]
pub struct SparseView {
    pub axes: Seq<AxisTent>,
    pub deltas: Seq<Option<(i32, i32)>>,
}

impl View for SparseTuple {
    type V = SparseView;

    open spec fn view(&self) -> SparseView {
        SparseView { axes: self.axes@, deltas: self.deltas@ }
    }
}

pub open spec fn sparse_views(tuples: Seq<SparseTuple>) -> Seq<SparseView> {
    tuples.map_values(|t: SparseTuple| t@)
}

/// Where a tuple starts and ends on an axis: where it says, or between zero and its peak.
pub open spec fn tent_ends(t: TupleView, axis: int) -> (i16, i16) {
    match (t.start, t.end) {
        (Some(s), Some(e)) => (
            if axis < s.len() {
                s[axis]
            } else {
                0
            },
            if axis < e.len() {
                e[axis]
            } else {
                0
            },
        ),
        _ => if t.peak[axis] > 0 {
            (0, t.peak[axis])
        } else {
            (t.peak[axis], 0)
        },
    }
}

/// The support of a tuple on the first `n` axes. An axis on which it peaks at zero does not
/// participate.
pub open spec fn tents_of(t: TupleView, n: int) -> Seq<AxisTent>
    decreases n,
{
    if n <= 0 {
        Seq::empty()
    } else {
        let before = tents_of(t, n - 1);
        if t.peak[n - 1] == 0 {
            before
        } else {
            let (start, end) = tent_ends(t, n - 1);
            before.push(
                AxisTent { axis: (n - 1) as usize, start, peak: t.peak[n - 1], end },
            )
        }
    }
}

/// One place for each point, with the first `n` deltas put in. One for a point that the
/// glyph does not have is ignored, and of two for one point the later counts.
pub open spec fn sparse_deltas(deltas: Seq<(u16, i32, i32)>, count: nat, n: int) -> Seq<
    Option<(i32, i32)>,
>
    decreases n,
{
    if n <= 0 {
        Seq::new(count, |i: int| None)
    } else {
        let before = sparse_deltas(deltas, count, n - 1);
        let (position, x, y) = deltas[n - 1];
        if position < count {
            before.update(position as int, Some((x, y)))
        } else {
            before
        }
    }
}

/// A tuple with its support per axis and one optional delta per point.
pub open spec fn sparse_tuple(t: TupleView, count: nat) -> SparseView {
    SparseView {
        axes: tents_of(t, t.peak.len() as int),
        deltas: sparse_deltas(t.deltas, count, t.deltas.len() as int),
    }
}

/// The tuples of a glyph with `count` points, phantom points among them.
pub open spec fn glyph_tuples(font: Seq<TableView>, gid: u32, count: nat) -> Seq<SparseView> {
    match table_bytes(font, GVAR) {
        Some(gvar) => gvar_tuples(gvar, gid).map_values(|t: TupleView| sparse_tuple(t, count)),
        None => Seq::empty(),
    }
}

fn spread(t: &TupleRecord, count: usize) -> (r: SparseTuple)
    ensures
        r@ == sparse_tuple(t@, count as nat),
{
    let mut axes: Vec<AxisTent> = Vec::new();
    for i in 0..t.peak.len()
        invariant
            axes@ == tents_of(t@, i as int),
    {
        let peak: i16 = t.peak[i];
        if peak != 0 {
            let (start, end): (i16, i16) = match (&t.start, &t.end) {
                (Some(s), Some(e)) => (
                    if i < s.len() {
                        s[i]
                    } else {
                        0
                    },
                    if i < e.len() {
                        e[i]
                    } else {
                        0
                    },
                ),
                _ => if peak > 0 {
                    (0, peak)
                } else {
                    (peak, 0)
                },
            };
            assert((start, end) == tent_ends(t@, i as int));
            axes.push(AxisTent { axis: i, start, peak, end });
        }
    }
    let mut deltas: Vec<Option<(i32, i32)>> = Vec::new();
    for i in 0..count
        invariant
            deltas@.len() == i,
            forall|k: int| 0 <= k < i ==> deltas@[k] is None,
    {
        deltas.push(None);
    }
    assert(deltas@ =~= sparse_deltas(t@.deltas, count as nat, 0));
    for i in 0..t.deltas.len()
        invariant
            deltas@.len() == count,
            deltas@ == sparse_deltas(t@.deltas, count as nat, i as int),
    {
        let (position, x, y) = t.deltas[i];
        if (position as usize) < count {
            deltas.set(position as usize, Some((x, y)));
        }
    }
    SparseTuple { axes, deltas }
}

/// Read a glyph's tuples, one optional delta for each of its `count` points.
pub fn read_tuples(font: &Vec<FontTable>, gid: u32, count: usize) -> (r: Vec<SparseTuple>)
    ensures
        sparse_views(r@) == glyph_tuples(table_views(font@), gid, count as nat),
{
    let mut out: Vec<SparseTuple> = Vec::new();
    assert(sparse_views(out@) =~= Seq::<SparseView>::empty());
    let gvar: &Vec<u8> = match find_table(font, GVAR) {
        Some(gvar) => gvar,
        None => {
            return out;
        },
    };
    let tuples: Vec<TupleRecord> = read_gvar(gvar.as_slice(), gid);
    let ghost views = tuple_views(tuples@);
    let ghost wanted = views.map_values(|t: TupleView| sparse_tuple(t, count as nat));
    for i in 0..tuples.len()
        invariant
            views == tuple_views(tuples@),
            wanted == views.map_values(|t: TupleView| sparse_tuple(t, count as nat)),
            sparse_views(out@) == wanted.take(i as int),
    {
        assert(views[i as int] == tuples@[i as int]@);
        let ghost before = sparse_views(out@);
        let t: SparseTuple = spread(&tuples[i], count);
        let ghost added = t@;
        out.push(t);
        assert(sparse_views(out@) =~= before.push(added));
        assert(wanted.take(i + 1) =~= before.push(added));
    }
    assert(sparse_views(out@) =~= wanted);
    out
}

/// The runs of points between which missing deltas are interpolated.
///
/// Contours are runs of their own. A composite glyph's component offsets are not a contour,
/// and cannot be interpolated between, so each is a run of its own, and so is each of the
/// four phantom points: an unmentioned one simply does not move.
pub open spec fn run_ends(end_pts: Seq<u16>, points: int) -> Seq<int> {
    let outline = points - 4;
    let contours = if end_pts.len() == 0 {
        Seq::new(outline as nat, |i: int| i + 1)
    } else {
        end_pts.map_values(|e: u16| e as int + 1)
    };
    contours + seq![outline + 1, outline + 2, outline + 3, outline + 4]
}

/// The runs that the first `n` ends make. An end that is not past the one before, or past
/// the points, makes none.
pub open spec fn runs_upto(ends: Seq<int>, points: int, n: int) -> Seq<(int, int)>
    decreases n,
{
    if n <= 0 {
        Seq::empty()
    } else {
        let before = runs_upto(ends, points, n - 1);
        let start = if before.len() == 0 {
            0
        } else {
            before.last().1
        };
        if start < ends[n - 1] <= points {
            before.push((start, ends[n - 1]))
        } else {
            before
        }
    }
}

pub open spec fn runs_of(end_pts: Seq<u16>, points: int) -> Seq<(int, int)> {
    runs_upto(run_ends(end_pts, points), points, run_ends(end_pts, points).len() as int)
}

pub open spec fn run_views(runs: Seq<(usize, usize)>) -> Seq<(int, int)> {
    runs.map_values(|r: (usize, usize)| (r.0 as int, r.1 as int))
}

/// The runs of points between which missing deltas are interpolated, as `(start, end)`.
pub fn interpolation_runs(end_pts: &Vec<u16>, points: usize) -> (runs: Vec<(usize, usize)>)
    requires
        points >= 4,
        points <= 0x7fff_ffff,
    ensures
        run_views(runs@) == runs_of(end_pts@, points as int),
{
    let outline: usize = points - 4;
    let mut ends: Vec<usize> = Vec::new();
    if end_pts.len() == 0 {
        for i in 0..outline
            invariant
                outline == points - 4,
                points <= 0x7fff_ffff,
                ends@.len() == i,
                forall|k: int| 0 <= k < i ==> #[trigger] ends@[k] == k + 1,
        {
            ends.push(i + 1);
        }
    } else {
        for i in 0..end_pts.len()
            invariant
                ends@.len() == i,
                forall|k: int| 0 <= k < i ==> #[trigger] ends@[k] == end_pts@[k] + 1,
        {
            ends.push(end_pts[i] as usize + 1);
        }
    }
    ends.push(outline + 1);
    ends.push(outline + 2);
    ends.push(outline + 3);
    ends.push(outline + 4);
    let ghost wanted = run_ends(end_pts@, points as int);
    assert(ends@.map_values(|e: usize| e as int) =~= wanted);
    let mut runs: Vec<(usize, usize)> = Vec::new();
    let mut start: usize = 0;
    assert(run_views(runs@) =~= runs_upto(wanted, points as int, 0));
    for n in 0..ends.len()
        invariant
            wanted == ends@.map_values(|e: usize| e as int),
            run_views(runs@) == runs_upto(wanted, points as int, n as int),
            start == if runs@.len() == 0 {
                0
            } else {
                runs@.last().1 as int
            },
    {
        let end: usize = ends[n];
        let ghost before = run_views(runs@);
        assert(wanted[n as int] == end);
        assert(before.len() == runs@.len());
        if runs.len() > 0 {
            assert(before.last() == (runs@.last().0 as int, runs@.last().1 as int));
        }
        if end > start && end <= points {
            runs.push((start, end));
            assert(run_views(runs@) =~= before.push((start as int, end as int)));
            start = end;
        }
    }
    runs
}

/// What becomes of a tuple on an axis that is limited.
#[derive(Clone, Copy, Debug, PartialEq, Eq, Structural)]
pub enum TentFate {
    /// The axis contributes nothing and is dropped from the tuple.
    AxisDropped,
    /// The tent is out of order or straddles the default. It has no defensible meaning, and
    /// the whole tuple is dropped.
    TupleDropped,
    /// The tent is rebased onto what is left of the axis.
    Rebased,
}

pub open spec fn fate_of(lower: Coord, peak: Coord, upper: Coord) -> TentFate {
    if rank(peak) == 0 {
        TentFate::AxisDropped
    } else if !(rank(lower) <= rank(peak) <= rank(upper)) || (rank(lower) < 0 && rank(upper) > 0) {
        TentFate::TupleDropped
    } else {
        TentFate::Rebased
    }
}

/// What becomes of a tuple on an axis that is limited and on which it participates.
pub fn tent_fate(lower: Coord, peak: Coord, upper: Coord) -> (r: TentFate)
    ensures
        r == fate_of(lower, peak, upper),
{
    let zero: Coord = Coord { bits: 0 };
    if peak.same(zero) {
        TentFate::AxisDropped
    } else if !(lower.le(peak) && peak.le(upper)) || (lower.lt(zero) && zero.lt(upper)) {
        TentFate::TupleDropped
    } else {
        TentFate::Rebased
    }
}

// ----------------------------------------------------------------- merging equal supports

pub open spec fn tent_before(a: AxisTent, b: AxisTent) -> bool {
    if a.axis != b.axis {
        a.axis < b.axis
    } else if a.start != b.start {
        a.start < b.start
    } else if a.peak != b.peak {
        a.peak < b.peak
    } else {
        a.end < b.end
    }
}

/// The order of supports: the first axis in which they differ decides, and of two that agree
/// as far as one goes, the shorter comes first.
pub open spec fn key_before(a: Seq<AxisTent>, b: Seq<AxisTent>) -> bool
    decreases a.len(),
{
    if b.len() == 0 {
        false
    } else if a.len() == 0 {
        true
    } else if a[0] == b[0] {
        key_before(a.skip(1), b.skip(1))
    } else {
        tent_before(a[0], b[0])
    }
}

pub(crate) proof fn lemma_key_order(a: Seq<AxisTent>, b: Seq<AxisTent>)
    ensures
        a == b <==> !key_before(a, b) && !key_before(b, a),
        !(key_before(a, b) && key_before(b, a)),
    decreases a.len(),
{
    if a.len() > 0 && b.len() > 0 {
        lemma_key_order(a.skip(1), b.skip(1));
        if a[0] == b[0] && a.skip(1) == b.skip(1) {
            assert(a =~= seq![a[0]] + a.skip(1));
            assert(b =~= seq![b[0]] + b.skip(1));
        }
    } else if a.len() == 0 && b.len() == 0 {
        assert(a =~= b);
    }
}

proof fn lemma_key_transitive(a: Seq<AxisTent>, b: Seq<AxisTent>, c: Seq<AxisTent>)
    requires
        key_before(a, b),
        key_before(b, c),
    ensures
        key_before(a, c),
    decreases a.len(),
{
    if a.len() > 0 && b.len() > 0 && c.len() > 0 && a[0] == b[0] && b[0] == c[0] {
        lemma_key_transitive(a.skip(1), b.skip(1), c.skip(1));
    }
}

fn tent_comes_before(a: &AxisTent, b: &AxisTent) -> (r: bool)
    ensures
        r == tent_before(*a, *b),
{
    if a.axis != b.axis {
        a.axis < b.axis
    } else if a.start != b.start {
        a.start < b.start
    } else if a.peak != b.peak {
        a.peak < b.peak
    } else {
        a.end < b.end
    }
}

fn same_tent(a: &AxisTent, b: &AxisTent) -> (r: bool)
    ensures
        r == (*a == *b),
{
    a.axis == b.axis && a.start == b.start && a.peak == b.peak && a.end == b.end
}

fn comes_before(a: &Vec<AxisTent>, b: &Vec<AxisTent>) -> (r: bool)
    ensures
        r == key_before(a@, b@),
{
    let mut i: usize = 0;
    assert(a@.skip(0) =~= a@);
    assert(b@.skip(0) =~= b@);
    while i < a.len() && i < b.len()
        invariant
            i <= a@.len(),
            i <= b@.len(),
            key_before(a@, b@) == key_before(a@.skip(i as int), b@.skip(i as int)),
        decreases a@.len() - i,
    {
        assert(a@.skip(i as int)[0] == a@[i as int]);
        assert(b@.skip(i as int)[0] == b@[i as int]);
        assert(a@.skip(i as int).skip(1) =~= a@.skip(i + 1));
        assert(b@.skip(i as int).skip(1) =~= b@.skip(i + 1));
        if !same_tent(&a[i], &b[i]) {
            return tent_comes_before(&a[i], &b[i]);
        }
        i = i + 1;
    }
    i < b.len()
}

pub open spec fn key_views(keys: Seq<Vec<AxisTent>>) -> Seq<Seq<AxisTent>> {
    keys.map_values(|k: Vec<AxisTent>| k@)
}

pub open spec fn group_views(groups: Seq<Vec<usize>>) -> Seq<Seq<usize>> {
    groups.map_values(|g: Vec<usize>| g@)
}

/// True for a group of the first `n` tuples: it has members, all with one support, in the
/// order in which they came.
pub open spec fn is_group(keys: Seq<Seq<AxisTent>>, group: Seq<usize>, n: int) -> bool {
    &&& group.len() > 0
    &&& forall|i: int|
        0 <= i < group.len() ==> (#[trigger] group[i]) < n && keys[group[i] as int]
            == keys[group[0] as int]
    &&& forall|i: int, j: int|
        0 <= i < j < group.len() ==> #[trigger] group[i] < #[trigger] group[j]
}

/// True for the groups that the first `n` tuples fall into by their supports: the groups in
/// the order of their supports, and each tuple in one of them.
pub open spec fn are_groups(keys: Seq<Seq<AxisTent>>, groups: Seq<Seq<usize>>, n: int) -> bool {
    &&& forall|g: int| 0 <= g < groups.len() ==> is_group(keys, #[trigger] groups[g], n)
    &&& forall|g: int, h: int|
        0 <= g < h < groups.len() ==> key_before(
            keys[(#[trigger] groups[g])[0] as int],
            keys[(#[trigger] groups[h])[0] as int],
        )
    &&& forall|i: int| 0 <= i < n ==> #[trigger] is_grouped(groups, i)
}

/// True when tuple number `i` is in one of the groups.
pub open spec fn is_grouped(groups: Seq<Seq<usize>>, i: int) -> bool {
    exists|g: int, k: int|
        0 <= g < groups.len() && 0 <= k < groups[g].len() && #[trigger] groups[g][k] == i
}

/// Group tuples that cover the same region. The part that no longer depends on any axis
/// has an empty support, and comes first.
pub fn group_by_support(keys: &Vec<Vec<AxisTent>>) -> (groups: Vec<Vec<usize>>)
    ensures
        are_groups(key_views(keys@), group_views(groups@), keys@.len() as int),
{
    let ghost views = key_views(keys@);
    let mut groups: Vec<Vec<usize>> = Vec::new();
    for i in 0..keys.len()
        invariant
            views == key_views(keys@),
            are_groups(views, group_views(groups@), i as int),
    {
        let ghost before = group_views(groups@);
        let mut at: usize = 0;
        proof {
            assert forall|g: int| 0 <= g < groups@.len() implies (
            #[trigger] groups@[g])@.len() > 0 && groups@[g]@[0] < keys@.len() by {
                assert(before[g] == groups@[g]@);
                assert(is_group(views, before[g], i as int));
                assert(before[g][0] < i);
            }
        }
        while at < groups.len() && comes_before(&keys[groups[at][0]], &keys[i])
            invariant
                i < keys@.len(),
                views == key_views(keys@),
                before == group_views(groups@),
                are_groups(views, before, i as int),
                at <= groups@.len(),
                forall|g: int|
                    0 <= g < at ==> key_before(
                        views[(#[trigger] before[g])[0] as int],
                        views[i as int],
                    ),
                forall|g: int|
                    0 <= g < groups@.len() ==> (#[trigger] groups@[g])@.len() > 0 && groups@[g]@[0]
                        < keys@.len(),
            decreases groups@.len() - at,
        {
            assert(before[at as int] == groups@[at as int]@);
            assert(views[before[at as int][0] as int] == keys@[groups@[at as int]@[0] as int]@);
            assert(views[i as int] == keys@[i as int]@);
            at = at + 1;
        }
        let same: bool = at < groups.len() && {
            assert(before[at as int] == groups@[at as int]@);
            assert(is_group(views, before[at as int], i as int));
            !comes_before(&keys[i], &keys[groups[at][0]])
        };
        proof {
            if at < groups@.len() {
                assert(before[at as int] == groups@[at as int]@);
                assert(views[before[at as int][0] as int] == keys@[groups@[at as int]@[0] as int]@);
                assert(views[i as int] == keys@[i as int]@);
                lemma_key_order(views[before[at as int][0] as int], views[i as int]);
            }
        }
        if same {
            let mut group: Vec<usize> = copy_indices(&groups[at]);
            group.push(i);
            let ghost extended = group@;
            groups.set(at, group);
            assert(group_views(groups@) =~= before.update(at as int, extended));
            proof {
                lemma_group_extended(views, before, i as int, at as int);
            }
        } else {
            let mut group: Vec<usize> = Vec::new();
            group.push(i);
            let ghost single = group@;
            assert(single =~= seq![i]);
            groups.insert(at, group);
            assert(group_views(groups@) =~= before.insert(at as int, single));
            proof {
                lemma_group_inserted(views, before, i, at as int);
            }
        }
    }
    groups
}

/// A tuple that joins the group with its support leaves the groups in order.
proof fn lemma_group_extended(
    keys: Seq<Seq<AxisTent>>,
    groups: Seq<Seq<usize>>,
    i: int,
    at: int,
)
    requires
        0 <= i <= usize::MAX,
        are_groups(keys, groups, i),
        0 <= at < groups.len(),
        keys[groups[at][0] as int] == keys[i],
    ensures
        are_groups(keys, groups.update(at, groups[at].push(i as usize)), i + 1),
{
    let new = groups.update(at, groups[at].push(i as usize));
    assert forall|g: int| 0 <= g < new.len() implies is_group(keys, #[trigger] new[g], i + 1) by {
        assert(is_group(keys, groups[g], i));
        if g == at {
            assert forall|k: int| 0 <= k < new[g].len() implies (#[trigger] new[g][k]) < i + 1
                && keys[new[g][k] as int] == keys[new[g][0] as int] by {
                if k < groups[g].len() {
                    assert(groups[g][k] < i);
                }
            }
            assert forall|a: int, b: int| 0 <= a < b < new[g].len() implies #[trigger] new[g][a]
                < #[trigger] new[g][b] by {
                assert(groups[g][a] < i);
                if b < groups[g].len() {
                    assert(groups[g][a] < groups[g][b]);
                }
            }
        } else {
            assert(new[g] == groups[g]);
        }
    }
    assert forall|g: int, h: int| 0 <= g < h < new.len() implies key_before(
        keys[(#[trigger] new[g])[0] as int],
        keys[(#[trigger] new[h])[0] as int],
    ) by {
        assert(is_group(keys, groups[at], i));
        assert(new[g][0] == groups[g][0]);
        assert(new[h][0] == groups[h][0]);
    }
    assert forall|j: int| 0 <= j < i + 1 implies #[trigger] is_grouped(new, j) by {
        if j < i {
            assert(is_grouped(groups, j));
            let (g, k) = choose|g: int, k: int|
                0 <= g < groups.len() && 0 <= k < groups[g].len() && #[trigger] groups[g][k] == j;
            assert(new[g][k] == j);
        } else {
            assert(new[at][groups[at].len() as int] == i);
        }
    }
}

/// A tuple with a new support makes a group of its own, in its place.
proof fn lemma_group_inserted(
    keys: Seq<Seq<AxisTent>>,
    groups: Seq<Seq<usize>>,
    i: usize,
    at: int,
)
    requires
        are_groups(keys, groups, i as int),
        0 <= at <= groups.len(),
        forall|g: int|
            0 <= g < at ==> key_before(keys[(#[trigger] groups[g])[0] as int], keys[i as int]),
        at < groups.len() ==> key_before(keys[i as int], keys[groups[at][0] as int]),
    ensures
        are_groups(keys, groups.insert(at, seq![i]), i + 1),
{
    let new = groups.insert(at, seq![i]);
    assert forall|g: int| 0 <= g < new.len() implies is_group(keys, #[trigger] new[g], i + 1) by {
        if g != at {
            let old = if g < at {
                g
            } else {
                g - 1
            };
            assert(new[g] == groups[old]);
            assert(is_group(keys, groups[old], i as int));
        }
    }
    assert forall|g: int| at <= g < groups.len() implies key_before(
        keys[i as int],
        keys[(#[trigger] groups[g])[0] as int],
    ) by {
        if g > at {
            assert(key_before(keys[groups[at][0] as int], keys[groups[g][0] as int]));
            lemma_key_transitive(
                keys[i as int],
                keys[groups[at][0] as int],
                keys[groups[g][0] as int],
            );
        }
    }
    assert forall|g: int, h: int| 0 <= g < h < new.len() implies key_before(
        keys[(#[trigger] new[g])[0] as int],
        keys[(#[trigger] new[h])[0] as int],
    ) by {
        if g == at {
            assert(new[h] == groups[h - 1]);
        } else if h == at {
            assert(new[g] == groups[g]);
        } else {
            let og = if g < at {
                g
            } else {
                g - 1
            };
            let oh = if h < at {
                h
            } else {
                h - 1
            };
            assert(new[g] == groups[og]);
            assert(new[h] == groups[oh]);
        }
    }
    assert forall|j: int| 0 <= j < i + 1 implies #[trigger] is_grouped(new, j) by {
        if j < i {
            assert(is_grouped(groups, j));
            let (g, k) = choose|g: int, k: int|
                0 <= g < groups.len() && 0 <= k < groups[g].len() && #[trigger] groups[g][k] == j;
            let ng = if g < at {
                g
            } else {
                g + 1
            };
            assert(new[ng] == groups[g]);
            assert(new[ng][k] == j);
        } else {
            assert(new[at][0] == i);
        }
    }
}

fn copy_indices(v: &Vec<usize>) -> (out: Vec<usize>)
    ensures
        out@ == v@,
{
    let mut out: Vec<usize> = Vec::new();
    for i in 0..v.len()
        invariant
            out@ == v@.take(i as int),
    {
        out.push(v[i]);
        assert(out@ =~= v@.take(i + 1));
    }
    assert(out@ =~= v@);
    out
}

// -------------------------------------------------------------------------- gvar, writing

/// A tuple that is left after limiting: its support per *input* axis, in units of 1/16384,
/// and its deltas rounded to integers, one per point.
#[derive(Debug)]
pub struct RebasedTuple {
    pub axes: Vec<AxisTent>,
    pub deltas: Vec<(i32, i32)>,
}

/// What a [`RebasedTuple`] holds.
#[verifier::ext_equal]
pub struct RebasedView {
    pub axes: Seq<AxisTent>,
    pub deltas: Seq<(i32, i32)>,
}

impl View for RebasedTuple {
    type V = RebasedView;

    open spec fn view(&self) -> RebasedView {
        RebasedView { axes: self.axes@, deltas: self.deltas@ }
    }
}

pub open spec fn rebased_views(tuples: Seq<RebasedTuple>) -> Seq<RebasedView> {
    tuples.map_values(|t: RebasedTuple| t@)
}

/// A tuple as it is written: a tent for each surviving axis, with its ends where it has a
/// peak, and one delta per point.
#[derive(Debug)]
pub struct PlacedTuple {
    pub tents: Vec<(i16, Option<(i16, i16)>)>,
    pub deltas: Vec<(i16, i16)>,
}

/// What a [`PlacedTuple`] holds.
#[verifier::ext_equal]
pub struct PlacedView {
    pub tents: Seq<(i16, Option<(i16, i16)>)>,
    pub deltas: Seq<(i16, i16)>,
}

impl View for PlacedTuple {
    type V = PlacedView;

    open spec fn view(&self) -> PlacedView {
        PlacedView { tents: self.tents@, deltas: self.deltas@ }
    }
}

pub open spec fn placed_views(tuples: Seq<PlacedTuple>) -> Seq<PlacedView> {
    tuples.map_values(|t: PlacedTuple| t@)
}

/// The tents of the first `n` axes of a support, on the surviving axes. Nothing where one
/// is on an axis that does not survive: the tuple cannot be expressed, and is dropped
/// rather than written against the wrong axis.
pub open spec fn placed_tents(plans: Seq<PlanView>, axes: Seq<AxisTent>, n: int) -> Option<
    Seq<(i16, Option<(i16, i16)>)>,
>
    decreases n,
{
    if n <= 0 {
        Some(Seq::new(kept_axes(plans, plans.len() as int).len(), |i: int| (0i16, None)))
    } else {
        match (placed_tents(plans, axes, n - 1), output_slot(plans, axes[n - 1].axis as int)) {
            (Some(before), Some(slot)) => Some(
                before.update(
                    slot,
                    (axes[n - 1].peak, Some((axes[n - 1].start, axes[n - 1].end))),
                ),
            ),
            _ => None,
        }
    }
}

pub open spec fn rounded_deltas(deltas: Seq<(i32, i32)>) -> Seq<(i16, i16)> {
    deltas.map_values(
        |d: (i32, i32)| (crate::outline::wrap16(d.0 as int), crate::outline::wrap16(d.1 as int)),
    )
}

pub open spec fn moves_nothing(deltas: Seq<(i16, i16)>) -> bool {
    forall|i: int| 0 <= i < deltas.len() ==> #[trigger] deltas[i] == (0i16, 0i16)
}

/// A tuple as it is written, if it is: one that moves nothing is not worth writing.
pub open spec fn placed_tuple(plans: Seq<PlanView>, t: RebasedView) -> Option<PlacedView> {
    match placed_tents(plans, t.axes, t.axes.len() as int) {
        Some(tents) => if moves_nothing(rounded_deltas(t.deltas)) {
            None
        } else {
            Some(PlacedView { tents, deltas: rounded_deltas(t.deltas) })
        },
        None => None,
    }
}

/// The tuples of a glyph that are written.
pub open spec fn placed_tuples(plans: Seq<PlanView>, tuples: Seq<RebasedView>) -> Seq<PlacedView>
    decreases tuples.len(),
{
    if tuples.len() == 0 {
        Seq::empty()
    } else {
        match placed_tuple(plans, tuples.last()) {
            Some(t) => placed_tuples(plans, tuples.drop_last()).push(t),
            None => placed_tuples(plans, tuples.drop_last()),
        }
    }
}

fn place_tuple(plans: &Vec<AxisPlan>, t: &RebasedTuple) -> (r: Option<PlacedTuple>)
    ensures
        match r {
            Some(placed) => placed_tuple(plan_views(plans@), t@) == Some(placed@),
            None => placed_tuple(plan_views(plans@), t@) is None,
        },
{
    let ghost views = plan_views(plans@);
    let count: usize = kept_count(plans);
    let mut tents: Vec<(i16, Option<(i16, i16)>)> = Vec::new();
    for i in 0..count
        invariant
            tents@.len() == i,
            forall|k: int| 0 <= k < i ==> tents@[k] == (0i16, None::<(i16, i16)>),
    {
        tents.push((0, None));
    }
    assert(Some(tents@) == placed_tents(views, t@.axes, 0)) by {
        assert(tents@ =~= placed_tents(views, t@.axes, 0)->0);
    }
    for i in 0..t.axes.len()
        invariant
            views == plan_views(plans@),
            count == kept_axes(views, views.len() as int).len(),
            tents@.len() == count,
            placed_tents(views, t@.axes, i as int) == Some(tents@),
    {
        let tent: AxisTent = t.axes[i];
        match slot_of(plans, tent.axis) {
            Some(slot) => {
                proof {
                    surviving_axes_keep_their_order(views, tent.axis as int);
                }
                tents.set(slot, (tent.peak, Some((tent.start, tent.end))));
            },
            None => {
                proof {
                    lemma_tents_fail(views, t@.axes, i + 1, t@.axes.len() as int);
                }
                return None;
            },
        }
    }
    let ghost wanted = rounded_deltas(t@.deltas);
    let mut deltas: Vec<(i16, i16)> = Vec::new();
    let mut still: bool = true;
    for i in 0..t.deltas.len()
        invariant
            wanted == rounded_deltas(t@.deltas),
            deltas@ == wanted.take(i as int),
            still == moves_nothing(deltas@),
    {
        let (x, y) = t.deltas[i];
        let d: (i16, i16) = (crate::outline::to_i16(x), crate::outline::to_i16(y));
        let ghost before = deltas@;
        deltas.push(d);
        assert(deltas@ =~= wanted.take(i + 1));
        if d.0 != 0 || d.1 != 0 {
            still = false;
            assert(deltas@[i as int] != (0i16, 0i16));
        }
        proof {
            if still {
                assert forall|k: int| 0 <= k < deltas@.len() implies #[trigger] deltas@[k] == (
                    0i16,
                    0i16,
                ) by {
                    if k < i {
                        assert(before[k] == (0i16, 0i16));
                    }
                }
            } else if !moves_nothing(before) {
                let k = choose|k: int|
                    0 <= k < before.len() && #[trigger] before[k] != (0i16, 0i16);
                assert(deltas@[k] != (0i16, 0i16));
            }
        }
    }
    assert(deltas@ =~= wanted);
    if still {
        return None;
    }
    Some(PlacedTuple { tents, deltas })
}

proof fn lemma_tents_fail(plans: Seq<PlanView>, axes: Seq<AxisTent>, n: int, m: int)
    requires
        0 <= n <= m,
        placed_tents(plans, axes, n) is None,
    ensures
        placed_tents(plans, axes, m) is None,
    decreases m,
{
    if n < m {
        lemma_tents_fail(plans, axes, n, m - 1);
    }
}

/// The tuples of a glyph that stay in `gvar`, expressed over the surviving axes.
pub fn place_tuples(plans: &Vec<AxisPlan>, tuples: &Vec<RebasedTuple>) -> (out: Vec<PlacedTuple>)
    ensures
        placed_views(out@) == placed_tuples(plan_views(plans@), rebased_views(tuples@)),
{
    let ghost views = rebased_views(tuples@);
    let ghost plans_view = plan_views(plans@);
    let mut out: Vec<PlacedTuple> = Vec::new();
    assert(placed_views(out@) =~= placed_tuples(plans_view, views.take(0)));
    for i in 0..tuples.len()
        invariant
            views == rebased_views(tuples@),
            plans_view == plan_views(plans@),
            placed_views(out@) == placed_tuples(plans_view, views.take(i as int)),
    {
        assert(views.take(i + 1).drop_last() =~= views.take(i as int));
        assert(views[i as int] == tuples@[i as int]@);
        let ghost before = placed_views(out@);
        match place_tuple(plans, &tuples[i]) {
            Some(t) => {
                let ghost added = t@;
                out.push(t);
                assert(placed_views(out@) =~= before.push(added));
            },
            None => {},
        }
    }
    assert(views.take(views.len() as int) =~= views);
    out
}

/// The tuples of all glyphs that are written.
pub open spec fn all_placed(plans: Seq<PlanView>, glyphs: Seq<Seq<RebasedView>>) -> Seq<
    Seq<PlacedView>,
> {
    glyphs.map_values(|g: Seq<RebasedView>| placed_tuples(plans, g))
}

pub open spec fn rebased_lists(glyphs: Seq<Vec<RebasedTuple>>) -> Seq<Seq<RebasedView>> {
    glyphs.map_values(|g: Vec<RebasedTuple>| rebased_views(g@))
}

pub open spec fn placed_lists(glyphs: Seq<Vec<PlacedTuple>>) -> Seq<Seq<PlacedView>> {
    glyphs.map_values(|g: Vec<PlacedTuple>| placed_views(g@))
}

/// The deltas of a tuple along one axis of the outline.
pub open spec fn x_deltas(deltas: Seq<(i16, i16)>) -> Seq<i32> {
    deltas.map_values(|d: (i16, i16)| d.0 as i32)
}

pub open spec fn y_deltas(deltas: Seq<(i16, i16)>) -> Seq<i32> {
    deltas.map_values(|d: (i16, i16)| d.1 as i32)
}

/// Deltas as `gvar` packs them, in runs of one width.
pub uninterp spec fn packed_deltas(deltas: Seq<i32>) -> Seq<u8>;

/// Calls `write_fonts::tables::variations::PackedDeltas::new` and `write_fonts::dump_table`.
/// There is no rule to break and no offset to pack, so the deltas are always written; the
/// bytes have a name.
#[verifier::external_body]
fn pack_deltas(deltas: Vec<i32>) -> (r: Option<Vec<u8>>)
    requires
        deltas@.len() <= 0x1000_0000,
    ensures
        match r {
            Some(bytes) => bytes@ == packed_deltas(deltas@),
            None => false,
        },
{
    dump_table(&PackedDeltas::new(deltas)).ok()
}

/// True for a tuple that the table can hold: the size of its data fits sixteen bits. The data
/// is its packed deltas and, where it is the only tuple of its glyph, a byte which says that
/// they are for all points; several tuples share that byte.
pub open spec fn tuple_fits(t: PlacedView, is_alone: bool) -> bool {
    let points: int = if is_alone {
        1
    } else {
        0
    };
    &&& t.tents.len() <= 0xffff
    &&& t.deltas.len() <= 0x1000_0000
    &&& points + packed_deltas(x_deltas(t.deltas)).len() + packed_deltas(
        y_deltas(t.deltas),
    ).len() <= 0xffff
}

pub open spec fn glyph_fits(tuples: Seq<PlacedView>) -> bool {
    tuples.len() <= 4095 && forall|k: int|
        0 <= k < tuples.len() ==> tuple_fits(#[trigger] tuples[k], tuples.len() == 1)
}

pub open spec fn tuples_fit(glyphs: Seq<Seq<PlacedView>>) -> bool {
    glyphs.len() <= 0xffff && forall|g: int|
        0 <= g < glyphs.len() ==> glyph_fits(#[trigger] glyphs[g])
}

/// The variations of a glyph in the form in which they are written.
#[verifier::external_type_specification]
#[verifier::external_body]
pub struct ExGlyphVariations(GlyphVariations);

/// A tent with its ends: one without any has those that its peak implies, zero and the peak.
pub open spec fn whole_tent(t: (i16, Option<(i16, i16)>)) -> (i16, Option<(i16, i16)>) {
    match t.1 {
        Some(_) => t,
        None => if t.0 < 0 {
            (t.0, Some((t.0, 0i16)))
        } else {
            (t.0, Some((0i16, t.0)))
        },
    }
}

/// A tuple whose tents all have their ends.
pub open spec fn whole_tuple(t: PlacedView) -> PlacedView {
    PlacedView {
        tents: t.tents.map_values(|t: (i16, Option<(i16, i16)>)| whole_tent(t)),
        deltas: t.deltas,
    }
}

pub open spec fn whole_tuples(tuples: Seq<PlacedView>) -> Seq<PlacedView> {
    tuples.map_values(|t: PlacedView| whole_tuple(t))
}

pub open spec fn whole_lists(glyphs: Seq<Seq<PlacedView>>) -> Seq<Seq<PlacedView>> {
    glyphs.map_values(|g: Seq<PlacedView>| whole_tuples(g))
}

/// The glyph and the tuples of variations that are ready to be written.
pub uninterp spec fn written_variations(v: GlyphVariations) -> (u32, Seq<PlacedView>);

/// Calls `write_fonts::tables::gvar::GlyphVariations::new`, with tuples made by
/// `GlyphDeltas::new`, `GlyphDelta::required` and `Tent::new`. What it holds has a name: it
/// is what it was made from, where a tent without ends gets those that its peak implies.
#[verifier::external_body]
fn make_variations(gid: u32, tuples: &Vec<PlacedTuple>) -> (r: GlyphVariations)
    ensures
        written_variations(r) == (gid, whole_tuples(placed_views(tuples@))),
{
    let bit = F2Dot14::from_bits;
    let tuple = |t: &PlacedTuple| GlyphDeltas::new(
        t.tents.iter().map(|p| Tent::new(bit(p.0), p.1.map(|e| (bit(e.0), bit(e.1))))).collect(),
        t.deltas.iter().map(|d| GlyphDelta::required(d.0, d.1)).collect(),
    );
    GlyphVariations::new(GlyphId::new(gid), tuples.iter().map(tuple).collect())
}

/// The `gvar` table with these tuples, one list per glyph, or why it cannot be written.
pub uninterp spec fn gvar_written(glyphs: Seq<Seq<PlacedView>>, axis_count: u16) -> Result<
    Seq<u8>,
    Seq<char>,
>;

pub open spec fn written_tuples(glyphs: Seq<GlyphVariations>) -> Seq<Seq<PlacedView>> {
    glyphs.map_values(|v: GlyphVariations| written_variations(v).1)
}

/// True for a tent whose ends are not those that its peak implies.
pub open spec fn has_own_ends(t: (i16, Option<(i16, i16)>)) -> bool {
    whole_tent(t) != whole_tent((t.0, None))
}

/// A tuple as it is read: with the ends of its tents where one of them has its own, and a
/// delta for every point.
pub open spec fn stored_tuple(t: PlacedView) -> TupleView {
    let tents = whole_tuple(t).tents;
    let has_ends = exists|i: int| 0 <= i < tents.len() && has_own_ends(#[trigger] tents[i]);
    TupleView {
        peak: tents.map_values(|t: (i16, Option<(i16, i16)>)| t.0),
        start: if has_ends {
            Some(tents.map_values(|t: (i16, Option<(i16, i16)>)| (t.1->Some_0).0))
        } else {
            None
        },
        end: if has_ends {
            Some(tents.map_values(|t: (i16, Option<(i16, i16)>)| (t.1->Some_0).1))
        } else {
            None
        },
        deltas: Seq::new(
            t.deltas.len(),
            |i: int| (i as u16, t.deltas[i].0 as i32, t.deltas[i].1 as i32),
        ),
    }
}

/// True when every tuple has as many deltas as points can be counted in sixteen bits.
pub open spec fn deltas_are_counted(glyphs: Seq<Seq<PlacedView>>) -> bool {
    forall|g: int, k: int|
        0 <= g < glyphs.len() && 0 <= k < glyphs[g].len() ==> (
        #[trigger] glyphs[g][k]).deltas.len() <= 0x1_0000
}

/// True when a `gvar` table is read as these tuples, glyph by glyph.
pub open spec fn holds_tuples(gvar: Seq<u8>, glyphs: Seq<Seq<PlacedView>>) -> bool {
    forall|g: int|
        0 <= g < glyphs.len() ==> #[trigger] gvar_tuples(gvar, g as u32) == glyphs[g].map_values(
            |t: PlacedView| stored_tuple(t),
        )
}

/// Calls `write_fonts::tables::gvar::Gvar::new` and `write_fonts::dump_table`. The result
/// has a name; over at least one axis, what is written reads back as the tuples. Sizes that
/// the writer would panic on are left out, and so are tuples without any delta.
#[verifier::external_body]
fn write_gvar(glyphs: Vec<GlyphVariations>, axis_count: u16) -> (r: Result<Vec<u8>, String>)
    requires
        tuples_fit(written_tuples(glyphs@)),
        forall|i: int|
            0 <= i < glyphs@.len() ==> (#[trigger] written_variations(glyphs@[i])).0 == i,
        forall|g: int, k: int|
            0 <= g < glyphs@.len() && 0 <= k < written_tuples(glyphs@)[g].len() ==> (
            #[trigger] written_tuples(glyphs@)[g][k]).deltas.len() > 0,
    ensures
        match r {
            Ok(bytes) => {
                &&& gvar_written(written_tuples(glyphs@), axis_count) == Ok::<
                    Seq<u8>,
                    Seq<char>,
                >(bytes@)
                &&& axis_count > 0 && deltas_are_counted(written_tuples(glyphs@)) ==> holds_tuples(
                    bytes@,
                    written_tuples(glyphs@),
                )
            },
            Err(text) => gvar_written(written_tuples(glyphs@), axis_count) == Err::<
                Seq<u8>,
                Seq<char>,
            >(text@),
        },
{
    let gvar = Gvar::new(glyphs, axis_count).map_err(|e| e.to_string())?;
    dump_table(&gvar).map_err(|e| e.to_string())
}

proof fn lemma_placed_moves(plans: Seq<PlanView>, tuples: Seq<RebasedView>, k: int)
    requires
        0 <= k < placed_tuples(plans, tuples).len(),
    ensures
        placed_tuples(plans, tuples)[k].deltas.len() > 0,
    decreases tuples.len(),
{
    if tuples.len() > 0 {
        let before = placed_tuples(plans, tuples.drop_last());
        if k < before.len() {
            lemma_placed_moves(plans, tuples.drop_last(), k);
            match placed_tuple(plans, tuples.last()) {
                Some(t) => {
                    assert(before.push(t)[k] == before[k]);
                },
                None => {},
            }
        }
    }
}

pub open spec fn any_placed(glyphs: Seq<Seq<PlacedView>>) -> bool {
    exists|g: int| 0 <= g < glyphs.len() && (#[trigger] glyphs[g]).len() > 0
}

/// The `gvar` table for the tuples that are left: none where none are.
#[verifier::opaque]
pub open spec fn new_gvar(plans: Seq<PlanView>, glyphs: Seq<Seq<RebasedView>>) -> Option<
    Result<TableView, Problem>,
> {
    let placed = all_placed(plans, glyphs);
    if !any_placed(placed) {
        None
    } else if tuples_fit(placed) {
        Some(
            built_table(
                GVAR,
                gvar_written(
                    whole_lists(placed),
                    (kept_axes(plans, plans.len() as int).len() % 0x1_0000) as u16,
                ),
            ),
        )
    } else {
        Some(Err(Problem::Write("the variations of a glyph do not fit into gvar"@)))
    }
}

/// The deltas of a tuple along both axes of the outline, as plain numbers.
fn split_deltas(deltas: &Vec<(i16, i16)>) -> (r: (Vec<i32>, Vec<i32>))
    ensures
        r.0@ == x_deltas(deltas@),
        r.1@ == y_deltas(deltas@),
{
    let mut xs: Vec<i32> = Vec::new();
    let mut ys: Vec<i32> = Vec::new();
    for i in 0..deltas.len()
        invariant
            xs@ == x_deltas(deltas@).take(i as int),
            ys@ == y_deltas(deltas@).take(i as int),
    {
        let d: (i16, i16) = deltas[i];
        xs.push(d.0 as i32);
        ys.push(d.1 as i32);
        assert(xs@ =~= x_deltas(deltas@).take(i + 1));
        assert(ys@ =~= y_deltas(deltas@).take(i + 1));
    }
    assert(xs@ =~= x_deltas(deltas@));
    assert(ys@ =~= y_deltas(deltas@));
    (xs, ys)
}

fn does_tuple_fit(t: &PlacedTuple, is_alone: bool) -> (ok: bool)
    ensures
        ok == tuple_fits(t@, is_alone),
{
    if t.tents.len() > 0xffff || t.deltas.len() > 0x1000_0000 {
        return false;
    }
    let (xs, ys): (Vec<i32>, Vec<i32>) = split_deltas(&t.deltas);
    let sizes: (usize, usize) = match (pack_deltas(xs), pack_deltas(ys)) {
        (Some(x), Some(y)) => (x.len(), y.len()),
        _ => {
            return false;
        },
    };
    let points: usize = if is_alone {
        1
    } else {
        0
    };
    sizes.0 <= 0xffff && sizes.1 <= 0xffff && points + sizes.0 + sizes.1 <= 0xffff
}

fn tuples_of_glyph_fit(tuples: &Vec<PlacedTuple>) -> (ok: bool)
    ensures
        ok == glyph_fits(placed_views(tuples@)),
{
    let ghost views = placed_views(tuples@);
    if tuples.len() > 4095 {
        return false;
    }
    let is_alone: bool = tuples.len() == 1;
    for k in 0..tuples.len()
        invariant
            views == placed_views(tuples@),
            is_alone == (views.len() == 1),
            forall|b: int| 0 <= b < k ==> tuple_fits(#[trigger] views[b], is_alone),
    {
        assert(views[k as int] == tuples@[k as int]@);
        if !does_tuple_fit(&tuples[k], is_alone) {
            assert(!tuple_fits(views[k as int], is_alone));
            return false;
        }
    }
    true
}

fn all_tuples_fit(glyphs: &Vec<Vec<PlacedTuple>>) -> (ok: bool)
    ensures
        ok == tuples_fit(placed_lists(glyphs@)),
{
    let ghost views = placed_lists(glyphs@);
    if glyphs.len() > 0xffff {
        return false;
    }
    for g in 0..glyphs.len()
        invariant
            views == placed_lists(glyphs@),
            forall|a: int| 0 <= a < g ==> glyph_fits(#[trigger] views[a]),
    {
        assert(views[g as int] == placed_views(glyphs@[g as int]@));
        if !tuples_of_glyph_fit(&glyphs[g]) {
            assert(!glyph_fits(views[g as int]));
            return false;
        }
    }
    true
}

fn make_all_variations(glyphs: &Vec<Vec<PlacedTuple>>) -> (out: Vec<GlyphVariations>)
    requires
        glyphs@.len() <= 0xffff,
    ensures
        written_tuples(out@) == whole_lists(placed_lists(glyphs@)),
        forall|i: int| 0 <= i < out@.len() ==> (#[trigger] written_variations(out@[i])).0 == i,
{
    let ghost views = whole_lists(placed_lists(glyphs@));
    let mut out: Vec<GlyphVariations> = Vec::new();
    for i in 0..glyphs.len()
        invariant
            glyphs@.len() <= 0xffff,
            views == whole_lists(placed_lists(glyphs@)),
            written_tuples(out@) == views.take(i as int),
            out@.len() == i,
            forall|k: int| 0 <= k < out@.len() ==> (#[trigger] written_variations(out@[k])).0 == k,
    {
        let ghost before = written_tuples(out@);
        let v: GlyphVariations = make_variations(i as u32, &glyphs[i]);
        let ghost added = whole_tuples(placed_views(glyphs@[i as int]@));
        assert(views[i as int] == added);
        out.push(v);
        assert(written_tuples(out@) =~= before.push(added));
        assert(views.take(i + 1) =~= before.push(added));
    }
    assert(written_tuples(out@) =~= views);
    out
}

/// Giving the tents their ends changes nothing about what fits.
proof fn lemma_whole_fits(glyphs: Seq<Seq<PlacedView>>)
    requires
        tuples_fit(glyphs),
    ensures
        tuples_fit(whole_lists(glyphs)),
{
    let whole = whole_lists(glyphs);
    assert forall|g: int| 0 <= g < whole.len() implies glyph_fits(#[trigger] whole[g]) by {
        assert(glyph_fits(glyphs[g]));
        assert forall|k: int| 0 <= k < whole[g].len() implies tuple_fits(
            #[trigger] whole[g][k],
            whole[g].len() == 1,
        ) by {
            assert(tuple_fits(glyphs[g][k], glyphs[g].len() == 1));
        }
    }
}

/// Build the `gvar` table for the tuples that are left, one list per glyph.
///
/// Every glyph has an entry, including the ones with nothing to say: the offsets in `gvar`
/// are positional, so a missing entry would shift every later glyph's data onto the wrong
/// glyph.
pub fn build_gvar(plans: &Vec<AxisPlan>, glyphs: &Vec<Vec<RebasedTuple>>) -> (r: Option<
    Result<FontTable, SliceError>,
>)
    ensures
        table_result(r) == new_gvar(plan_views(plans@), rebased_lists(glyphs@)),
        r matches Some(Ok(t)) ==> {
            let placed = all_placed(plan_views(plans@), rebased_lists(glyphs@));
            let axes = kept_axes(plan_views(plans@), plans@.len() as int).len();
            &&& t.tag == GVAR
            &&& 0 < axes <= 0xffff && deltas_are_counted(placed) ==> holds_tuples(t.bytes@, placed)
        },
{
    reveal(new_gvar);
    let ghost views = rebased_lists(glyphs@);
    let ghost wanted = all_placed(plan_views(plans@), views);
    let mut placed: Vec<Vec<PlacedTuple>> = Vec::new();
    let mut any: bool = false;
    assert(placed_lists(placed@) =~= wanted.take(0));
    for i in 0..glyphs.len()
        invariant
            views == rebased_lists(glyphs@),
            wanted == all_placed(plan_views(plans@), views),
            placed_lists(placed@) == wanted.take(i as int),
            any == any_placed(wanted.take(i as int)),
    {
        assert(views[i as int] == rebased_views(glyphs@[i as int]@));
        let ghost before = placed_lists(placed@);
        let list: Vec<PlacedTuple> = place_tuples(plans, &glyphs[i]);
        let ghost added = placed_views(list@);
        assert(added == wanted[i as int]);
        assert(added.len() == list@.len());
        assert(wanted.take(i + 1) =~= before.push(added));
        if list.len() > 0 {
            any = true;
            assert(wanted.take(i + 1)[i as int].len() > 0);
        }
        placed.push(list);
        assert(placed_lists(placed@) =~= before.push(added));
        proof {
            if any_placed(before) {
                let g = choose|g: int| 0 <= g < before.len() && (#[trigger] before[g]).len() > 0;
                assert(wanted.take(i + 1)[g].len() > 0);
            }
            if any_placed(wanted.take(i + 1)) && added.len() == 0 {
                let g = choose|g: int|
                    0 <= g < wanted.take(i + 1).len() && (
                    #[trigger] wanted.take(i + 1)[g]).len() > 0;
                assert(before[g].len() > 0);
            }
        }
    }
    assert(wanted.take(wanted.len() as int) =~= wanted);
    if !any {
        return None;
    }
    if !all_tuples_fit(&placed) {
        return Some(Err(write_error("the variations of a glyph do not fit into gvar")));
    }
    let axis_count: u16 = (kept_count(plans) % 0x1_0000) as u16;
    let variations: Vec<GlyphVariations> = make_all_variations(&placed);
    proof {
        assert forall|g: int, k: int|
            0 <= g < variations@.len() && 0 <= k < written_tuples(
                variations@,
            )[g].len() implies (#[trigger] written_tuples(variations@)[g][k]).deltas.len()
            > 0 by {
            assert(written_tuples(variations@).len() == wanted.len());
            assert(written_tuples(variations@)[g] == whole_tuples(wanted[g]));
            assert(wanted[g] == placed_tuples(plan_views(plans@), views[g]));
            lemma_placed_moves(plan_views(plans@), views[g], k);
            assert(written_tuples(variations@)[g][k] == whole_tuple(wanted[g][k]));
        }
        lemma_whole_fits(wanted);
    }
    let written: Result<Vec<u8>, String> = write_gvar(variations, axis_count);
    proof {
        if deltas_are_counted(wanted) {
            lemma_whole_counted(wanted);
        }
        let bytes = written->Ok_0@;
        if holds_tuples(bytes, whole_lists(wanted)) {
            lemma_whole_held(bytes, wanted);
        }
    }
    Some(finish_table(GVAR, written))
}

proof fn lemma_whole_counted(glyphs: Seq<Seq<PlacedView>>)
    requires
        deltas_are_counted(glyphs),
    ensures
        deltas_are_counted(whole_lists(glyphs)),
{
    let whole = whole_lists(glyphs);
    assert forall|g: int, k: int|
        0 <= g < whole.len() && 0 <= k < whole[g].len() implies (
    #[trigger] whole[g][k]).deltas.len() <= 0x1_0000 by {
        assert(whole[g][k] == whole_tuple(glyphs[g][k]));
    }
}

/// Giving the tents their ends changes nothing about how the tuples are read.
proof fn lemma_whole_held(gvar: Seq<u8>, glyphs: Seq<Seq<PlacedView>>)
    requires
        holds_tuples(gvar, whole_lists(glyphs)),
    ensures
        holds_tuples(gvar, glyphs),
{
    let whole = whole_lists(glyphs);
    let stored = |t: PlacedView| stored_tuple(t);
    assert forall|g: int| 0 <= g < glyphs.len() implies #[trigger] gvar_tuples(gvar, g as u32)
        == glyphs[g].map_values(stored) by {
        assert(gvar_tuples(gvar, g as u32) == whole[g].map_values(stored));
        assert forall|k: int| 0 <= k < glyphs[g].len() implies stored_tuple(whole[g][k])
            == stored_tuple(#[trigger] glyphs[g][k]) by {
            let t = glyphs[g][k];
            let once = whole_tuple(t);
            assert(whole[g][k] == once);
            assert(whole_tuple(once).tents =~= once.tents);
            assert(stored_tuple(once) =~= stored_tuple(t));
        }
        assert(whole[g].map_values(stored) =~= glyphs[g].map_values(stored));
    }
}

// ------------------------------------------------------------------------------ assembling

/// The tables whose contents describe the old axis space. They are rebuilt or dropped.
pub const REPLACED: [u32; 8] = [
    0x66766172,  // fvar
    0x61766172,  // avar
    0x67766172,  // gvar
    0x63766172,  // cvar
    0x53544154,  // STAT
    0x48564152,  // HVAR
    0x56564152,  // VVAR
    0x4d564152,  // MVAR
];

/// The `post` table after its share of the adjustments, if there are any and the font has
/// one that can be read.
#[verifier::opaque]
pub open spec fn adjusted_post_table(
    font: Seq<TableView>,
    adjustments: Seq<(u32, i32)>,
) -> Option<Result<TableView, Problem>> {
    if adjustments.len() == 0 {
        None
    } else {
        match table_bytes(font, POST) {
            Some(old) => match post_fields(old) {
                Some(f) => Some(
                    built_table(POST, post_rewritten(old, adjusted_post(f, adjustments))),
                ),
                None => None,
            },
            None => None,
        }
    }
}

fn build_adjusted_post(font: &Vec<FontTable>, adjustments: &Vec<(u32, i32)>) -> (r: Option<
    Result<FontTable, SliceError>,
>)
    ensures
        table_result(r) == adjusted_post_table(table_views(font@), adjustments@),
        r matches Some(Ok(t)) ==> t.tag == POST,
{
    reveal(adjusted_post_table);
    if adjustments.len() == 0 {
        return None;
    }
    match find_table(font, POST) {
        Some(old) => match read_post(old.as_slice()) {
            Some(f) => Some(
                finish_table(POST, rewrite_post(old.as_slice(), apply_to_post(f, adjustments))),
            ),
            None => None,
        },
        None => None,
    }
}

/// A restricted design space: what is to become of the axes, the extents of the surviving
/// ones in units of 1/65536, how their segment maps change, and what `MVAR` says at the new
/// default.
pub struct Space {
    pub plans: Vec<AxisPlan>,
    pub extents: Vec<(i32, i32, i32)>,
    pub changes: Vec<MapChange>,
    pub adjustments: Vec<(u32, i32)>,
}

/// What a [`Space`] holds.
#[verifier::ext_equal]
pub struct SpaceView {
    pub plans: Seq<PlanView>,
    pub extents: Seq<(i32, i32, i32)>,
    pub changes: Seq<MapChangeView>,
    pub adjustments: Seq<(u32, i32)>,
}

impl View for Space {
    type V = SpaceView;

    open spec fn view(&self) -> SpaceView {
        SpaceView {
            plans: plan_views(self.plans@),
            extents: self.extents@,
            changes: change_views(self.changes@),
            adjustments: self.adjustments@,
        }
    }
}

/// The first problem among some tables that may have been built.
pub open spec fn first_problem(tables: Seq<Option<Result<TableView, Problem>>>) -> Option<Problem>
    decreases tables.len(),
{
    if tables.len() == 0 {
        None
    } else {
        match tables[0] {
            Some(Err(e)) => Some(e),
            _ => first_problem(tables.skip(1)),
        }
    }
}

/// Those of some tables that were built.
pub open spec fn built_tables(tables: Seq<Option<Result<TableView, Problem>>>) -> Seq<TableView>
    decreases tables.len(),
{
    if tables.len() == 0 {
        Seq::empty()
    } else {
        match tables.last() {
            Some(Ok(t)) => built_tables(tables.drop_last()).push(t),
            _ => built_tables(tables.drop_last()),
        }
    }
}

/// The tables that describe the new axis space, in the order in which they are built, after
/// the one that says how the outlines or their advances vary over it.
#[verifier::opaque]
pub open spec fn variation_tables(
    font: Seq<TableView>,
    source: Option<(Seq<Seq<(i16, i16)>>, bool)>,
    space: SpaceView,
    outlines: Option<Result<TableView, Problem>>,
) -> Seq<Option<Result<TableView, Problem>>> {
    seq![
        outlines,
        Some(new_fvar(font, space.plans, space.extents)),
        new_avar(source, space.plans, space.changes),
        stat_table(font, space.plans),
        adjusted_os2_table(font, space.adjustments),
        adjusted_post_table(font, space.adjustments),
    ]
}

/// A restricted font, from its outline tables and what describes the new axis space.
pub open spec fn restricted_tables(
    font: Seq<TableView>,
    first: Seq<TableView>,
    more: Seq<Option<Result<TableView, Problem>>>,
) -> Result<Seq<TableView>, Problem> {
    match first_problem(more) {
        Some(e) => Err(e),
        None => Ok(with_remaining(first + built_tables(more), font, REPLACED@)),
    }
}

/// The tables of a restricted font. `source` is what [`segment_maps`] gives for it.
pub open spec fn partial_tables(
    font: Seq<TableView>,
    source: Option<(Seq<Seq<(i16, i16)>>, bool)>,
    space: SpaceView,
    shapes: Seq<GlyphView>,
    metrics: Seq<(u16, i16)>,
    tuples: Seq<Seq<RebasedView>>,
) -> Result<Seq<TableView>, Problem> {
    if table_bytes(font, GLYF) is None {
        Err(Problem::Unsupported(truetype_text()))
    } else if has_variable_positioning(font) {
        Err(Problem::Unsupported(positioning_text()))
    } else {
        match glyphs_written(shapes) {
            Err(text) => Err(Problem::Write(text)),
            Ok(g) => match outline_tables(font, g, metrics, Seq::empty()) {
                Err(e) => Err(e),
                Ok(first) => restricted_tables(
                    font,
                    first,
                    variation_tables(font, source, space, new_gvar(space.plans, tuples)),
                ),
            },
        }
    }
}

/// True when a change says what becomes of every pair of its segment map.
pub open spec fn changes_match(
    source: Option<(Vec<Vec<(i16, i16)>>, bool)>,
    space: Space,
) -> bool {
    &&& space.extents@.len() == space.plans@.len()
    &&& space.changes@.len() == space.plans@.len()
    &&& source matches Some((maps, _)) ==> forall|i: int|
        0 <= i < space.plans@.len() && i < maps@.len() ==> (
        #[trigger] space.changes@[i]).pairs@.len() == maps@[i]@.len()
}

pub(crate) proof fn lemma_built_step(
    tables: Seq<Option<Result<TableView, Problem>>>,
    n: int,
)
    requires
        0 <= n < tables.len(),
    ensures
        built_tables(tables.take(n + 1)) == match tables[n] {
            Some(Ok(t)) => built_tables(tables.take(n)).push(t),
            _ => built_tables(tables.take(n)),
        },
{
    assert(tables.take(n + 1).drop_last() =~= tables.take(n));
}

proof fn lemma_first_problem(tables: Seq<Option<Result<TableView, Problem>>>, n: int)
    requires
        0 <= n <= tables.len(),
        forall|i: int| 0 <= i < n ==> !(#[trigger] tables[i] matches Some(Err(_))),
        n < tables.len() ==> (tables[n] matches Some(Err(_))),
    ensures
        first_problem(tables) == if n < tables.len() {
            Some(tables[n]->0->Err_0)
        } else {
            None
        },
    decreases tables.len(),
{
    if tables.len() > 0 && n > 0 {
        let rest = tables.skip(1);
        assert(!(tables[0] matches Some(Err(_))));
        assert forall|i: int| 0 <= i < n - 1 implies !(#[trigger] rest[i] matches Some(Err(_))) by {
            assert(rest[i] == tables[i + 1]);
        }
        lemma_first_problem(rest, n - 1);
    }
}

/// True for a tag that [`build_variation_tables`] may add.
pub open spec fn is_rebuilt(tag: u32) -> bool {
    tag == GVAR || tag == HVAR || tag == FVAR || tag == AVAR || tag == STAT || tag == OS2 || tag
        == POST
}

/// Add the tables that describe the new axis space. The first of them, which says how the
/// outlines or their advances vary, has been built already.
pub fn build_variation_tables(
    font: &Vec<FontTable>,
    source: &Option<(Vec<Vec<(i16, i16)>>, bool)>,
    space: &Space,
    outlines: Option<Result<FontTable, SliceError>>,
    out: &mut Vec<FontTable>,
) -> (done: Result<(), SliceError>)
    requires
        changes_match(*source, *space),
        distinct_tags(table_views(old(out)@)),
        forall|i: int| 0 <= i < old(out)@.len() ==> !is_rebuilt((#[trigger] old(out)@[i]).tag),
        outlines matches Some(Ok(t)) ==> t.tag == GVAR || t.tag == HVAR,
    ensures
        ({
            let more = variation_tables(
                table_views(font@),
                source_view(*source),
                space@,
                table_result(outlines),
            );
            match done {
                Ok(_) => {
                    &&& first_problem(more) is None
                    &&& table_views(final(out)@) == table_views(old(out)@) + built_tables(more)
                    &&& distinct_tags(table_views(final(out)@))
                    &&& new_fvar(table_views(font@), space@.plans, space@.extents) matches Ok(t)
                        && fvar_axes(t.bytes) == Ok::<Seq<AxisRecord>, FvarProblem>(
                        left_axes(table_views(font@), space@.plans, space@.extents),
                    )
                },
                Err(e) => first_problem(more) == Some(e@),
            }
        }),
{
    reveal(variation_tables);
    let ghost first = table_views(out@);
    let ghost more = variation_tables(
        table_views(font@),
        source_view(*source),
        space@,
        table_result(outlines),
    );
    assert(first + built_tables(more.take(0)) =~= first);
    match outlines {
        Some(Ok(t)) => push_table(out, t),
        Some(Err(e)) => {
            proof {
                lemma_first_problem(more, 0);
            }
            return Err(e);
        },
        None => {},
    }
    proof {
        lemma_built_step(more, 0);
        assert(table_views(out@) =~= first + built_tables(more.take(1)));
    }
    match build_fvar(font, &space.plans, &space.extents) {
        Ok(t) => push_table(out, t),
        Err(e) => {
            proof {
                lemma_first_problem(more, 1);
            }
            return Err(e);
        },
    }
    proof {
        lemma_built_step(more, 1);
        assert(table_views(out@) =~= first + built_tables(more.take(2)));
    }
    match build_avar(source, &space.plans, &space.changes) {
        Some(Ok(t)) => push_table(out, t),
        Some(Err(e)) => {
            proof {
                lemma_first_problem(more, 2);
            }
            return Err(e);
        },
        None => {},
    }
    proof {
        lemma_built_step(more, 2);
        assert(table_views(out@) =~= first + built_tables(more.take(3)));
    }
    match build_stat(font, &space.plans) {
        Some(Ok(t)) => push_table(out, t),
        Some(Err(e)) => {
            proof {
                lemma_first_problem(more, 3);
            }
            return Err(e);
        },
        None => {},
    }
    proof {
        lemma_built_step(more, 3);
        assert(table_views(out@) =~= first + built_tables(more.take(4)));
    }
    match build_adjusted_os2(font, &space.adjustments) {
        Some(Ok(t)) => push_table(out, t),
        Some(Err(e)) => {
            proof {
                lemma_first_problem(more, 4);
            }
            return Err(e);
        },
        None => {},
    }
    proof {
        lemma_built_step(more, 4);
        assert(table_views(out@) =~= first + built_tables(more.take(5)));
    }
    match build_adjusted_post(font, &space.adjustments) {
        Some(Ok(t)) => push_table(out, t),
        Some(Err(e)) => {
            proof {
                lemma_first_problem(more, 5);
            }
            return Err(e);
        },
        None => {},
    }
    proof {
        lemma_built_step(more, 5);
        assert(table_views(out@) =~= first + built_tables(more.take(6)));
        assert(more.take(6) =~= more);
        lemma_first_problem(more, 6);
    }
    Ok(())
}

/// Build a partially instanced font. `source` is what [`segment_maps`] gives for it,
/// `shapes` and `metrics` are its glyphs at the new default and what they measure, and
/// `tuples` the variations that are left, glyph by glyph. A font with variable positioning is
/// refused.
pub fn instantiate_partial(
    font: &Vec<FontTable>,
    source: &Option<(Vec<Vec<(i16, i16)>>, bool)>,
    space: &Space,
    shapes: &Vec<Glyph>,
    metrics: &Vec<(u16, i16)>,
    tuples: &Vec<Vec<RebasedTuple>>,
) -> (out: Result<Vec<u8>, SliceError>)
    requires
        changes_match(*source, *space),
    ensures
        ({
            let tables = partial_tables(
                table_views(font@),
                source_view(*source),
                space@,
                glyph_views(shapes@),
                metrics@,
                rebased_lists(tuples@),
            );
            match out {
                Ok(bytes) => {
                    &&& step_file(tables) == Ok::<Seq<u8>, Problem>(bytes@)
                    &&& font_tables(bytes@) matches Ok(read) && reads_as(read, tables->Ok_0)
                    &&& frame_in(bytes@) == (
                        Some(
                            new_fvar(table_views(font@), space@.plans, space@.extents)->Ok_0.bytes,
                        ),
                        glyph_total(table_views(font@)),
                    )
                    &&& axis_records(tables_in(bytes@)) == Ok::<Seq<AxisRecord>, Problem>(
                        left_axes(table_views(font@), space@.plans, space@.extents),
                    )
                },
                Err(e) => step_file(tables) == Err::<Seq<u8>, Problem>(e@),
            }
        }),
{
    if find_table(font, GLYF).is_none() {
        return Err(truetype_error());
    }
    match refuse_unsupported_variation_tables(font) {
        Ok(_) => {},
        Err(e) => {
            return Err(e);
        },
    }
    let written: GlyfLoca = match write_glyphs(shapes) {
        Ok(g) => g,
        Err(text) => {
            return Err(SliceError::Write(text));
        },
    };
    let ghost g = written@;
    let none: Vec<(u32, i32)> = Vec::new();
    assert(none@ =~= Seq::<(u32, i32)>::empty());
    let mut out: Vec<FontTable> = match build_outline_tables(font, written, metrics, &none) {
        Ok(out) => out,
        Err(e) => {
            return Err(e);
        },
    };
    proof {
        lemma_outline_tags(table_views(font@), g, metrics@, Seq::empty());
        let first = table_views(out@);
        assert(first.len() == out@.len());
        assert(first[0] == out@[0]@ && first[1] == out@[1]@ && first[2] == out@[2]@ && first[3]
            == out@[3]@ && first[4] == out@[4]@);
    }
    let ghost first = table_views(out@);
    let gvar: Option<Result<FontTable, SliceError>> = build_gvar(&space.plans, tuples);
    let ghost outlines = table_result(gvar);
    match build_variation_tables(font, source, space, gvar, &mut out) {
        Ok(_) => {},
        Err(e) => {
            return Err(e);
        },
    }
    copy_remaining_tables(&mut out, font, &REPLACED);
    match assemble(&out) {
        Ok(bytes) => {
            proof {
                a_restricted_font_forgets_the_old_space(
                    table_views(font@),
                    first,
                    source_view(*source),
                    space@,
                    outlines,
                );
                lemma_reads_under_tag(tables_in(bytes@), table_views(out@), FVAR);
                lemma_reads_under_tag(tables_in(bytes@), table_views(out@), MAXP);
            }
            Ok(bytes)
        },
        Err(e) => Err(e),
    }
}

pub(crate) proof fn lemma_variation_tags(
    font: Seq<TableView>,
    source: Option<(Seq<Seq<(i16, i16)>>, bool)>,
    space: SpaceView,
    outlines: Option<Result<TableView, Problem>>,
)
    requires
        outlines matches Some(Ok(t)) ==> t.tag == GVAR || t.tag == HVAR,
    ensures
        ({
            let more = variation_tables(font, source, space, outlines);
            &&& more.len() == 6
            &&& more[0] == outlines
            &&& more[1] == Some(new_fvar(font, space.plans, space.extents))
            &&& more[1] matches Some(Ok(t)) ==> t.tag == FVAR
            &&& more[2] matches Some(Ok(t)) ==> t.tag == AVAR
            &&& more[3] matches Some(Ok(t)) ==> t.tag == STAT
            &&& more[4] matches Some(Ok(t)) ==> t.tag == OS2
            &&& more[5] matches Some(Ok(t)) ==> t.tag == POST
        }),
{
    reveal(variation_tables);
    reveal(adjusted_post_table);
    lemma_os2_tag(font, space.adjustments);
}

/// A restricted font describes its own design space only: its `fvar` is the new one, the
/// table that says how its outlines or advances vary is the one that was made for it, and of
/// the tables that would speak of the old space nothing is left. It has as many glyphs as
/// before.
pub proof fn a_restricted_font_forgets_the_old_space(
    font: Seq<TableView>,
    first: Seq<TableView>,
    source: Option<(Seq<Seq<(i16, i16)>>, bool)>,
    space: SpaceView,
    outlines: Option<Result<TableView, Problem>>,
)
    requires
        distinct_tags(first),
        forall|i: int|
            0 <= i < first.len() ==> !is_rebuilt((#[trigger] first[i]).tag) && first[i].tag != CVAR
                && first[i].tag != VVAR && first[i].tag != MVAR && first[i].tag != MAXP,
        outlines matches Some(Ok(t)) ==> t.tag == GVAR || t.tag == HVAR,
        restricted_tables(font, first, variation_tables(font, source, space, outlines)) is Ok,
    ensures
        ({
            let out = restricted_tables(
                font,
                first,
                variation_tables(font, source, space, outlines),
            )->Ok_0;
            &&& table_bytes(out, FVAR) == Some(
                new_fvar(font, space.plans, space.extents)->Ok_0.bytes,
            )
            &&& table_bytes(out, GVAR) == match outlines {
                Some(Ok(t)) => if t.tag == GVAR {
                    Some(t.bytes)
                } else {
                    None
                },
                _ => None,
            }
            &&& table_bytes(out, HVAR) == match outlines {
                Some(Ok(t)) => if t.tag == HVAR {
                    Some(t.bytes)
                } else {
                    None
                },
                _ => None,
            }
            &&& table_bytes(out, CVAR) is None
            &&& table_bytes(out, VVAR) is None
            &&& table_bytes(out, MVAR) is None
            &&& table_bytes(out, MAXP) == table_bytes(font, MAXP)
        }),
{
    let more = variation_tables(font, source, space, outlines);
    let out = first + built_tables(more);
    lemma_variation_tags(font, source, space, outlines);
    lemma_built_step(more, 0);
    lemma_built_step(more, 1);
    lemma_built_step(more, 2);
    lemma_built_step(more, 3);
    lemma_built_step(more, 4);
    lemma_built_step(more, 5);
    assert(more.take(6) =~= more);
    assert(built_tables(more.take(0)) =~= Seq::<TableView>::empty());
    assert(more[0] matches Some(Ok(_)) || more[0] is None);
    assert(more[1] matches Some(Ok(_))) by {
        assert(first_problem(more.skip(1)) is None);
        assert(more.skip(1)[0] == more[1]);
    }
    let at = first.len() + built_tables(more.take(1)).len() as int;
    assert(out[at] == more[1]->0->Ok_0);
    lemma_rebuilt_distinct(first, built_tables(more));
    crate::tables::lemma_found_by_tag(out, at);
    if more[0] is Some {
        assert(out[first.len() as int] == more[0]->0->Ok_0);
        crate::tables::lemma_found_by_tag(out, first.len() as int);
    }
    assert(REPLACED@ =~= seq![FVAR, AVAR, GVAR, CVAR, STAT, HVAR, VVAR, MVAR]);
    assert(REPLACED@[2] == GVAR && REPLACED@[3] == CVAR && REPLACED@[5] == HVAR && REPLACED@[6]
        == VVAR && REPLACED@[7] == MVAR);
    crate::tables::a_tag_is_found_where_it_is(out, FVAR);
    crate::tables::a_tag_is_found_where_it_is(out, GVAR);
    crate::tables::a_tag_is_found_where_it_is(out, HVAR);
    crate::tables::remaining_tables_are_carried_over(out, font, REPLACED@, FVAR);
    crate::tables::remaining_tables_are_carried_over(out, font, REPLACED@, GVAR);
    crate::tables::remaining_tables_are_carried_over(out, font, REPLACED@, HVAR);
    crate::tables::remaining_tables_are_carried_over(out, font, REPLACED@, CVAR);
    crate::tables::remaining_tables_are_carried_over(out, font, REPLACED@, VVAR);
    crate::tables::remaining_tables_are_carried_over(out, font, REPLACED@, MVAR);
    assert(!REPLACED@.contains(MAXP));
    assert(!crate::tables::has_tag(out, MAXP)) by {
        assert forall|i: int| 0 <= i < out.len() implies (#[trigger] out[i]).tag != MAXP by {
            if i >= first.len() {
                assert(out[i] == built_tables(more)[i - first.len()]);
                assert(is_rebuilt(out[i].tag));
            }
        }
    }
    crate::tables::remaining_tables_are_carried_over(out, font, REPLACED@, MAXP);
}

pub(crate) proof fn lemma_rebuilt_distinct(first: Seq<TableView>, rest: Seq<TableView>)
    requires
        distinct_tags(first),
        distinct_tags(rest),
        forall|i: int| 0 <= i < first.len() ==> !is_rebuilt((#[trigger] first[i]).tag),
        forall|i: int| 0 <= i < rest.len() ==> is_rebuilt((#[trigger] rest[i]).tag),
    ensures
        distinct_tags(first + rest),
{
    let all = first + rest;
    assert forall|i: int, j: int| 0 <= i < j < all.len() implies (#[trigger] all[i]).tag != (
    #[trigger] all[j]).tag by {
        if j >= first.len() {
            assert(all[j] == rest[j - first.len()]);
            if i >= first.len() {
                assert(all[i] == rest[i - first.len()]);
            }
        }
    }
}

/// The point sets of a font that is to be restricted, or why it cannot be.
pub open spec fn restriction_points(font: Seq<TableView>) -> Result<
    Seq<crate::glyphs::PointsView>,
    Problem,
> {
    if table_bytes(font, GLYF) is Some && has_variable_positioning(font) {
        Err(Problem::Unsupported(positioning_text()))
    } else {
        crate::statics::instancing_points(font)
    }
}

/// Read all glyphs of a font that is to be restricted.
pub fn read_restriction_glyphs(font: &Vec<FontTable>) -> (r: Result<
    Vec<crate::glyphs::GlyphPoints>,
    SliceError,
>)
    ensures
        match r {
            Ok(points) => restriction_points(table_views(font@)) == Ok::<
                Seq<crate::glyphs::PointsView>,
                Problem,
            >(crate::statics::points_views(points@)),
            Err(e) => restriction_points(table_views(font@)) == Err::<
                Seq<crate::glyphs::PointsView>,
                Problem,
            >(e@),
        },
{
    if find_table(font, GLYF).is_some() {
        match refuse_unsupported_variation_tables(font) {
            Ok(_) => {},
            Err(e) => {
                return Err(e);
            },
        }
    }
    crate::statics::read_glyphs(font)
}

/// What is left of an instance over the surviving axes.
pub open spec fn left_instance(
    instance: InstanceView,
    records: Seq<AxisRecord>,
    plans: Seq<PlanView>,
) -> InstanceView {
    InstanceView {
        coordinates: kept_coordinates(instance, records, plans, plans.len() as int),
        ..instance
    }
}

/// An instance is named in the output exactly where one of the font can still be reached: it
/// sits at the pins and inside the ranges.
pub proof fn named_instances_stay_within_reach(
    instances: Seq<Option<InstanceView>>,
    records: Seq<AxisRecord>,
    plans: Seq<PlanView>,
    x: InstanceView,
)
    ensures
        new_instances(instances, records, plans).contains(x) <==> exists|j: int|
            0 <= j < instances.len() && (#[trigger] instances[j]) is Some && instance_survives(
                instances[j]->0,
                plans,
            ) && x == left_instance(instances[j]->0, records, plans),
    decreases instances.len(),
{
    let out = new_instances(instances, records, plans);
    if instances.len() > 0 {
        let front = instances.drop_last();
        let before = new_instances(front, records, plans);
        named_instances_stay_within_reach(front, records, plans, x);
        let last = instances.len() - 1;
        if before.contains(x) {
            let j = choose|j: int|
                0 <= j < front.len() && (#[trigger] front[j]) is Some && instance_survives(
                    front[j]->0,
                    plans,
                ) && x == left_instance(front[j]->0, records, plans);
            assert(instances[j] == front[j]);
            let i = choose|i: int| 0 <= i < before.len() && before[i] == x;
            assert(out[i] == x);
        }
        if out.contains(x) && !before.contains(x) {
            let i = choose|i: int| 0 <= i < out.len() && out[i] == x;
            if i < before.len() {
                assert(before[i] == x);
            }
            assert(instances[last] is Some);
        }
        if exists|j: int|
            0 <= j < instances.len() && (#[trigger] instances[j]) is Some && instance_survives(
                instances[j]->0,
                plans,
            ) && x == left_instance(instances[j]->0, records, plans) {
            let j = choose|j: int|
                0 <= j < instances.len() && (#[trigger] instances[j]) is Some && instance_survives(
                instances[j]->0,
                plans,
            ) && x == left_instance(instances[j]->0, records, plans);
            if j < last {
                assert(front[j] == instances[j]);
                assert(before.contains(x));
            } else {
                assert(out[out.len() - 1] == x);
            }
        }
    }
}

} // verus!
