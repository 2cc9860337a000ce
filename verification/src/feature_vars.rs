//! Resolving `FeatureVariations` at the new design space.
//!
//! A variable font can swap which lookups a feature runs depending on where you are in the
//! design space. Those substitutions are described by condition sets over `fvar` axis
//! *indices* and normalized coordinates, so slicing invalidates them twice over. Pin every
//! axis and there is no `fvar` left to evaluate a condition against, so the substitution
//! silently never fires. Pin only some axes and the surviving conditions still hold the old
//! axis indices, which now point at whatever axis moved into that slot.
//!
//! So the conditions have to be evaluated here, at slicing time. A record whose conditions
//! all hold at the new default has its substitutions folded into the feature list
//! unconditionally; a record that cannot hold any more is dropped; a record that still
//! depends on a surviving axis is kept, with its indices remapped and its ranges
//! renormalized onto the new axis extent.
//!
//! Coordinates are in units of 1/16384. Renormalizing one is a matter of floating-point
//! arithmetic and is done by the caller: [`feature_ends`] says which ones there are.
use read_fonts::tables::gpos::Gpos as ReadGpos;
use read_fonts::tables::gsub::Gsub as ReadGsub;
use read_fonts::{FontData, FontRead};
use vstd::prelude::*;
use write_fonts::from_obj::ToOwnedTable;
use write_fonts::tables::gpos::Gpos;
use write_fonts::tables::gsub::Gsub;
use write_fonts::tables::layout::{
    Condition, ConditionSet, Feature, FeatureTableSubstitution,
    FeatureTableSubstitutionRecord, FeatureVariationRecord, FeatureVariations,
};
use write_fonts::types::F2Dot14;
use write_fonts::validate::Validate;
use write_fonts::{dump_table, FontWrite, TableWriter};

use crate::apply::step_file;
use crate::error::{write_error, Problem, SliceError};
use crate::fields::{built_table, finish_table};
use crate::font::{frame_in, tables_in};
use crate::partial::{output_slot, slot_of};
use crate::stat::{plan_views, AxisPlan, PlanView};
use crate::tables::{
    assemble, copy_remaining_tables, find_table, font_tables, has_tag, lemma_carried, push_table,
    read_tables, table_bytes, table_views, with_remaining, FontTable, TableView, FVAR, GPOS, GSUB,
    MAXP,
};
use crate::text::chars_of;

verus! {

// ------------------------------------------------------------------------ what is stored

/// A feature: which lookups it runs, and its parameters.
#[verifier::external_type_specification]
#[verifier::external_body]
pub struct ExFeature(Feature);

/// A condition on a location in the design space.
#[verifier::external_type_specification]
#[verifier::external_body]
pub struct ExCondition(Condition);

/// A record of the feature variations.
#[verifier::external_type_specification]
#[verifier::external_body]
pub struct ExFeatureVariationRecord(FeatureVariationRecord);

/// A condition, as far as it can be evaluated.
pub enum LayoutCondition {
    /// The coordinate on one axis lies in a range.
    Range { axis: u16, min: i16, max: i16 },
    /// A condition of some later format.
    Other(Condition),
}

/// One record: the conditions under which it applies, and the features that then replace
/// those of the feature list.
pub struct LayoutRecord {
    pub conditions: Option<Vec<LayoutCondition>>,
    pub substitutions: Option<Vec<(u16, Feature)>>,
}

/// What a [`LayoutRecord`] holds.
#[verifier::ext_equal]
pub struct RecordView {
    pub conditions: Option<Seq<LayoutCondition>>,
    pub substitutions: Option<Seq<(u16, Feature)>>,
}

impl View for LayoutRecord {
    type V = RecordView;

    open spec fn view(&self) -> RecordView {
        RecordView {
            conditions: match self.conditions {
                Some(c) => Some(c@),
                None => None,
            },
            substitutions: match self.substitutions {
                Some(s) => Some(s@),
                None => None,
            },
        }
    }
}

pub open spec fn record_views(records: Seq<LayoutRecord>) -> Seq<RecordView> {
    records.map_values(|r: LayoutRecord| r@)
}

/// The features of `GSUB` or `GPOS` and how they vary.
pub struct Layout {
    pub features: Vec<Feature>,
    pub records: Vec<LayoutRecord>,
}

/// What a [`Layout`] holds.
#[verifier::ext_equal]
pub struct LayoutView {
    pub features: Seq<Feature>,
    pub records: Seq<RecordView>,
}

impl View for Layout {
    type V = LayoutView;

    open spec fn view(&self) -> LayoutView {
        LayoutView { features: self.features@, records: record_views(self.records@) }
    }
}

/// The features of a `GSUB` table and, where it has feature variations, their records.
/// Nothing where the table cannot be read.
pub uninterp spec fn gsub_parts(table: Seq<u8>) -> Option<
    (Seq<Feature>, Option<Seq<FeatureVariationRecord>>),
>;

/// Calls `read_fonts::tables::gsub::Gsub::read` and
/// `write_fonts::from_obj::ToOwnedTable::to_owned_table`. The features and the records of
/// what they give have a name.
#[verifier::external_body]
fn read_gsub(table: &[u8]) -> (r: Option<(Vec<Feature>, Option<Vec<FeatureVariationRecord>>)>)
    ensures
        match r {
            Some((f, v)) => gsub_parts(table@) == Some(
                (
                    f@,
                    match v {
                        Some(v) => Some(v@),
                        None => None,
                    },
                ),
            ),
            None => gsub_parts(table@) is None,
        },
{
    let t: Gsub = ReadGsub::read(FontData::new(table)).ok()?.to_owned_table();
    let list = t.feature_list.into_inner().unwrap_or_default().feature_records;
    let features = list.into_iter().map(|f| f.feature.into_inner()).collect();
    Some((features, t.feature_variations.into_inner().map(|v| v.feature_variation_records)))
}

/// The features of a `GPOS` table and, where it has feature variations, their records.
/// Nothing where the table cannot be read.
pub uninterp spec fn gpos_parts(table: Seq<u8>) -> Option<
    (Seq<Feature>, Option<Seq<FeatureVariationRecord>>),
>;

/// Calls `read_fonts::tables::gpos::Gpos::read` and
/// `write_fonts::from_obj::ToOwnedTable::to_owned_table`. The features and the records of
/// what they give have a name.
#[verifier::external_body]
fn read_gpos(table: &[u8]) -> (r: Option<(Vec<Feature>, Option<Vec<FeatureVariationRecord>>)>)
    ensures
        match r {
            Some((f, v)) => gpos_parts(table@) == Some(
                (
                    f@,
                    match v {
                        Some(v) => Some(v@),
                        None => None,
                    },
                ),
            ),
            None => gpos_parts(table@) is None,
        },
{
    let t: Gpos = ReadGpos::read(FontData::new(table)).ok()?.to_owned_table();
    let list = t.feature_list.into_inner().unwrap_or_default().feature_records;
    let features = list.into_iter().map(|f| f.feature.into_inner()).collect();
    Some((features, t.feature_variations.into_inner().map(|v| v.feature_variation_records)))
}

/// A condition, taken apart: the range where it is one, and the condition itself where not.
pub uninterp spec fn condition_parts(c: Condition) -> LayoutCondition;

/// A condition in the form in which it comes out of a table: one that is a range is not kept
/// whole.
pub open spec fn plain_condition(c: LayoutCondition) -> LayoutCondition {
    match c {
        LayoutCondition::Other(other) => condition_parts(other),
        _ => c,
    }
}

/// A record with all its conditions in that form.
pub open spec fn plain_record(r: RecordView) -> RecordView {
    RecordView {
        conditions: match r.conditions {
            Some(list) => Some(list.map_values(|c: LayoutCondition| plain_condition(c))),
            None => None,
        },
        ..r
    }
}

pub open spec fn plain_records(records: Seq<RecordView>) -> Seq<RecordView> {
    records.map_values(|r: RecordView| plain_record(r))
}

/// The conditions and the substitutions of a record.
pub uninterp spec fn record_parts(r: FeatureVariationRecord) -> RecordView;

/// Takes a `write_fonts::tables::layout::FeatureVariationRecord` apart. What it holds has a
/// name; a condition that is kept whole is not a range.
#[verifier::external_body]
fn split_record(record: &FeatureVariationRecord) -> (r: LayoutRecord)
    ensures
        r@ == record_parts(*record),
        r@.conditions matches Some(list) ==> forall|k: int|
            0 <= k < list.len() ==> ((#[trigger] list[k]) matches LayoutCondition::Other(c)
                ==> condition_parts(c) == list[k]),
{
    let part = |c: &Condition| match c {
        Condition::Format1AxisRange(c) => LayoutCondition::Range {
            axis: c.axis_index,
            min: c.filter_range_min_value.to_bits(), max: c.filter_range_max_value.to_bits(),
        },
        other => LayoutCondition::Other(other.clone()),
    };
    let pair = |s: &FeatureTableSubstitutionRecord| {
        (s.feature_index, s.alternate_feature.as_ref().clone())
    };
    let set = record.condition_set.as_ref();
    let conditions = set.map(|s| s.conditions.iter().map(|c| part(c.as_ref())).collect());
    let table = record.feature_table_substitution.as_ref();
    LayoutRecord { conditions, substitutions: table.map(|t| t.substitutions.iter().map(pair).collect()) }
}

/// Makes a `write_fonts::tables::layout::FeatureVariationRecord`. What it holds is what it
/// was made from, where a range that was kept whole counts as the range that it is.
#[verifier::external_body]
fn make_record(record: &LayoutRecord) -> (r: FeatureVariationRecord)
    ensures
        record_parts(r) == plain_record(record@),
{
    let bit = F2Dot14::from_bits;
    let whole = |c: &LayoutCondition| match c {
        LayoutCondition::Range { axis, min, max } => {
            Condition::format_1_axis_range(*axis, bit(*min), bit(*max))
        },
        LayoutCondition::Other(other) => other.clone(),
    };
    let pair = |s: &(u16, Feature)| FeatureTableSubstitutionRecord::new(s.0, s.1.clone());
    let (set, list) = (record.conditions.as_ref(), record.substitutions.as_ref());
    let set = set.map(|c| ConditionSet::new(c.iter().map(whole).collect()));
    let list = list.map(|s| FeatureTableSubstitution::new(s.iter().map(pair).collect()));
    FeatureVariationRecord::new(set, list)
}

/// Calls `Feature::clone`, which gives an equal feature.
#[verifier::external_body]
fn copy_feature(f: &Feature) -> (r: Feature)
    ensures
        r == *f,
{
    f.clone()
}

/// Calls `Condition::clone`, which gives an equal condition.
#[verifier::external_body]
fn copy_condition(c: &Condition) -> (r: Condition)
    ensures
        r == *c,
{
    c.clone()
}

pub open spec fn all_parts(records: Seq<FeatureVariationRecord>) -> Seq<RecordView> {
    records.map_values(|r: FeatureVariationRecord| record_parts(r))
}

pub open spec fn optional_parts(records: Option<Seq<FeatureVariationRecord>>) -> Option<
    Seq<RecordView>,
> {
    match records {
        Some(records) => Some(all_parts(records)),
        None => None,
    }
}

/// True when a list of bytes starts here in the text in which a writer shows its parts:
/// behind `bytes: `.
pub open spec fn opens_bytes(text: Seq<char>, i: int) -> bool {
    &&& 4 <= i < text.len()
    &&& text[i] == '['
    &&& text[i - 4] == 'e' && text[i - 3] == 's' && text[i - 2] == ':' && text[i - 1] == ' '
}

/// Whether the first `n` characters of such a text end inside a list of bytes, and how many
/// bytes they show: a number starts where something other than a space follows a bracket or
/// a space.
pub open spec fn scanned(text: Seq<char>, n: int) -> (bool, int)
    decreases n,
{
    if n <= 0 {
        (false, 0)
    } else {
        let (inside, count) = scanned(text, n - 1);
        let c = text[n - 1];
        if opens_bytes(text, n - 1) {
            (true, count)
        } else if c == ']' {
            (false, count)
        } else if inside && n >= 2 && c != ' ' && (text[n - 2] == '[' || text[n - 2] == ' ') {
            (inside, count + 1)
        } else {
            (inside, count)
        }
    }
}

/// How many bytes such a text shows.
pub open spec fn bytes_shown(text: Seq<char>) -> int {
    scanned(text, text.len() as int).1
}

/// True when a text shows no more bytes than `limit`.
fn shows_few_bytes(text: &str, limit: u32) -> (r: bool)
    ensures
        r == (bytes_shown(text@) <= limit),
{
    let chars: Vec<char> = chars_of(text);
    let mut inside: bool = false;
    let mut count: u32 = 0;
    for i in 0..chars.len()
        invariant
            chars@ == text@,
            scanned(chars@, i as int) == (inside, count as int),
            count <= limit,
    {
        proof {
            lemma_scanned_grows(chars@, i + 1, chars@.len() as int);
        }
        let c: char = chars[i];
        if i >= 4 && c == '[' && chars[i - 4] == 'e' && chars[i - 3] == 's' && chars[i - 2] == ':'
            && chars[i - 1] == ' ' {
            inside = true;
        } else if c == ']' {
            inside = false;
        } else if inside && i >= 1 && c != ' ' && (chars[i - 1] == '[' || chars[i - 1] == ' ') {
            if count == limit {
                return false;
            }
            count = count + 1;
        }
    }
    true
}

proof fn lemma_scanned_grows(text: Seq<char>, n: int, m: int)
    requires
        n <= m,
    ensures
        scanned(text, n).1 <= scanned(text, m).1,
    decreases m,
{
    if n < m && m > 0 {
        lemma_scanned_grows(text, n, m - 1);
    }
}

/// The `GSUB` table `old` with other features and other records, or why it cannot be
/// written.
pub uninterp spec fn gsub_written(
    old: Seq<u8>,
    features: Seq<Feature>,
    records: Option<Seq<RecordView>>,
) -> Result<Seq<u8>, Seq<char>>;

/// How many bytes all parts of the `GSUB` table `old` have together, with other features and
/// other records. Nothing where it cannot be written.
pub uninterp spec fn gsub_size(
    old: Seq<u8>,
    features: Seq<Feature>,
    records: Option<Seq<RecordView>>,
) -> Option<int>;

/// Calls `validate` and `write_into` of the `write_fonts::tables::gsub::Gsub` that was read,
/// with other features and other records, and the `Debug` formatting of the `TableWriter`,
/// which shows each byte of each part of the table. The order of the parts is left open; how
/// many bytes they have together does not depend on it, and has a name.
#[verifier::external_body]
fn show_gsub(
    old: &[u8],
    features: &Vec<Feature>,
    records: &Option<Vec<FeatureVariationRecord>>,
) -> (r: Option<String>)
    ensures
        match r {
            Some(text) => gsub_size(old@, features@, optional_parts(records_view(*records)))
                == Some(bytes_shown(text@)),
            None => gsub_size(old@, features@, optional_parts(records_view(*records))) is None,
        },
{
    let mut t: Gsub = ReadGsub::read(FontData::new(old)).ok()?.to_owned_table();
    if let Some(list) = t.feature_list.as_mut() {
        let pairs = list.feature_records.iter_mut().zip(features);
        pairs.for_each(|(r, f)| r.feature = f.clone().into());
    }
    t.feature_variations = records.clone().map(FeatureVariations::new).into();
    t.validate().ok()?;
    let mut writer = TableWriter::default();
    t.write_into(&mut writer);
    Some(format!("{writer:?}"))
}

/// Calls `write_fonts::dump_table` on the `write_fonts::tables::gsub::Gsub` that was read,
/// with other features and other records. The result has a name. Where all parts have no
/// more than 65535 bytes together, no offset can overflow; the steps that are taken where one
/// does can panic, and are left out.
#[verifier::external_body]
fn write_gsub(
    old: &[u8],
    features: Vec<Feature>,
    records: Option<Vec<FeatureVariationRecord>>,
) -> (r: Result<Vec<u8>, String>)
    requires
        gsub_size(old@, features@, optional_parts(records_view(records))) matches Some(n)
            ==> n <= 0xffff,
    ensures
        match r {
            Ok(bytes) => gsub_written(old@, features@, optional_parts(records_view(records)))
                == Ok::<Seq<u8>, Seq<char>>(bytes@),
            Err(text) => gsub_written(old@, features@, optional_parts(records_view(records)))
                == Err::<Seq<u8>, Seq<char>>(text@),
        },
{
    let old = ReadGsub::read(FontData::new(old)).map_err(|e| e.to_string())?;
    let mut t: Gsub = old.to_owned_table();
    if let Some(list) = t.feature_list.as_mut() {
        list.feature_records.iter_mut().zip(features).for_each(|(r, f)| r.feature = f.into());
    }
    t.feature_variations = records.map(FeatureVariations::new).into();
    dump_table(&t).map_err(|e| e.to_string())
}

/// The `GPOS` table `old` with other features and other records, or why it cannot be
/// written.
pub uninterp spec fn gpos_written(
    old: Seq<u8>,
    features: Seq<Feature>,
    records: Option<Seq<RecordView>>,
) -> Result<Seq<u8>, Seq<char>>;

/// How many bytes all parts of the `GPOS` table `old` have together, with other features and
/// other records. Nothing where it cannot be written.
pub uninterp spec fn gpos_size(
    old: Seq<u8>,
    features: Seq<Feature>,
    records: Option<Seq<RecordView>>,
) -> Option<int>;

/// Calls `validate` and `write_into` of the `write_fonts::tables::gpos::Gpos` that was read,
/// with other features and other records, and the `Debug` formatting of the `TableWriter`,
/// which shows each byte of each part of the table. The order of the parts is left open; how
/// many bytes they have together does not depend on it, and has a name.
#[verifier::external_body]
fn show_gpos(
    old: &[u8],
    features: &Vec<Feature>,
    records: &Option<Vec<FeatureVariationRecord>>,
) -> (r: Option<String>)
    ensures
        match r {
            Some(text) => gpos_size(old@, features@, optional_parts(records_view(*records)))
                == Some(bytes_shown(text@)),
            None => gpos_size(old@, features@, optional_parts(records_view(*records))) is None,
        },
{
    let mut t: Gpos = ReadGpos::read(FontData::new(old)).ok()?.to_owned_table();
    if let Some(list) = t.feature_list.as_mut() {
        let pairs = list.feature_records.iter_mut().zip(features);
        pairs.for_each(|(r, f)| r.feature = f.clone().into());
    }
    t.feature_variations = records.clone().map(FeatureVariations::new).into();
    t.validate().ok()?;
    let mut writer = TableWriter::default();
    t.write_into(&mut writer);
    Some(format!("{writer:?}"))
}

/// Calls `write_fonts::dump_table` on the `write_fonts::tables::gpos::Gpos` that was read,
/// with other features and other records. The result has a name. Where all parts have no
/// more than 65535 bytes together, no offset can overflow; the steps that are taken where one
/// does can panic, and are left out.
#[verifier::external_body]
fn write_gpos(
    old: &[u8],
    features: Vec<Feature>,
    records: Option<Vec<FeatureVariationRecord>>,
) -> (r: Result<Vec<u8>, String>)
    requires
        gpos_size(old@, features@, optional_parts(records_view(records))) matches Some(n)
            ==> n <= 0xffff,
    ensures
        match r {
            Ok(bytes) => gpos_written(old@, features@, optional_parts(records_view(records)))
                == Ok::<Seq<u8>, Seq<char>>(bytes@),
            Err(text) => gpos_written(old@, features@, optional_parts(records_view(records)))
                == Err::<Seq<u8>, Seq<char>>(text@),
        },
{
    let old = ReadGpos::read(FontData::new(old)).map_err(|e| e.to_string())?;
    let mut t: Gpos = old.to_owned_table();
    if let Some(list) = t.feature_list.as_mut() {
        list.feature_records.iter_mut().zip(features).for_each(|(r, f)| r.feature = f.into());
    }
    t.feature_variations = records.map(FeatureVariations::new).into();
    dump_table(&t).map_err(|e| e.to_string())
}

pub open spec fn records_view(records: Option<Vec<FeatureVariationRecord>>) -> Option<
    Seq<FeatureVariationRecord>,
> {
    match records {
        Some(records) => Some(records@),
        None => None,
    }
}

/// The features of a table and how they vary. Nothing where they do not.
pub open spec fn layout_in(table: Seq<u8>, tag: u32) -> Option<LayoutView> {
    let parts = if tag == GSUB {
        gsub_parts(table)
    } else {
        gpos_parts(table)
    };
    match parts {
        Some((features, Some(records))) => Some(
            LayoutView { features, records: all_parts(records) },
        ),
        _ => None,
    }
}

fn read_layout(table: &[u8], tag: u32) -> (r: Option<Layout>)
    requires
        tag == GSUB || tag == GPOS,
    ensures
        match r {
            Some(layout) => layout_in(table@, tag) == Some(layout@),
            None => layout_in(table@, tag) is None,
        },
{
    let parts: Option<(Vec<Feature>, Option<Vec<FeatureVariationRecord>>)> = if tag == GSUB {
        read_gsub(table)
    } else {
        read_gpos(table)
    };
    match parts {
        Some((features, Some(stored))) => {
            let ghost wanted = all_parts(stored@);
            let mut records: Vec<LayoutRecord> = Vec::new();
            assert(record_views(records@) =~= wanted.take(0));
            for i in 0..stored.len()
                invariant
                    wanted == all_parts(stored@),
                    record_views(records@) == wanted.take(i as int),
            {
                let ghost before = record_views(records@);
                let record: LayoutRecord = split_record(&stored[i]);
                let ghost added = record@;
                assert(added == wanted[i as int]);
                records.push(record);
                assert(record_views(records@) =~= before.push(added));
                assert(wanted.take(i + 1) =~= before.push(added));
            }
            assert(record_views(records@) =~= wanted);
            Some(Layout { features, records })
        },
        _ => None,
    }
}

// -------------------------------------------------------------------- evaluating records

/// The extent of an axis in normalized coordinates.
#[derive(Clone, Copy, Debug, PartialEq, Eq, Structural)]
pub struct Triple {
    pub min: i16,
    pub default: i16,
    pub max: i16,
}

/// The extent that is left of an axis. One nobody restricted keeps its full extent, and so
/// does one that is unknown.
pub open spec fn triple_for(plans: Seq<PlanView>, triples: Seq<Triple>, axis: int) -> Triple {
    if 0 <= axis < plans.len() && axis < triples.len() && !(plans[axis].limit is Full) {
        triples[axis]
    } else {
        Triple { min: (-16384) as i16, default: 0, max: 16384 }
    }
}

fn triple_at(plans: &Vec<AxisPlan>, triples: &Vec<Triple>, axis: u16) -> (t: Triple)
    ensures
        t == triple_for(plan_views(plans@), triples@, axis as int),
{
    let axis: usize = axis as usize;
    if axis < plans.len() && axis < triples.len() {
        assert(plan_views(plans@)[axis as int] == plans@[axis as int]@);
        if !plans[axis].is_untouched() {
            return triples[axis];
        }
    }
    Triple { min: -16384, default: 0, max: 16384 }
}

/// A coordinate, moved into an extent.
pub open spec fn moved_into(v: i16, t: Triple) -> i16 {
    if v < t.min {
        t.min
    } else if v > t.max {
        t.max
    } else {
        v
    }
}

fn move_into(v: i16, t: Triple) -> (r: i16)
    ensures
        r == moved_into(v, t),
{
    if v < t.min {
        t.min
    } else if v > t.max {
        t.max
    } else {
        v
    }
}

/// A range on a surviving axis, renormalized onto the axis's new extent, and whether it
/// spans the whole axis.
#[derive(Clone, Copy, Debug, PartialEq, Eq, Structural)]
pub struct Span {
    pub low: i16,
    pub high: i16,
    pub is_whole: bool,
}

/// The renormalized range for condition number `k`. One that none was given for stays as it
/// is.
pub open spec fn span_for(spans: Seq<Span>, k: int, low: i16, high: i16) -> Span {
    if 0 <= k < spans.len() {
        spans[k]
    } else {
        Span { low, high, is_whole: low == -16384 && high == 16384 }
    }
}

/// What evaluating a record comes to: whether its conditions hold at the new default,
/// whether any of them still depends on a surviving axis, and the conditions that are left,
/// unless one of them can never hold.
#[verifier::ext_equal]
pub struct Verdict {
    pub applies: bool,
    pub keeps: bool,
    pub conditions: Option<Seq<LayoutCondition>>,
}

/// The verdict after one more condition.
pub open spec fn judged_step(
    v: Verdict,
    c: LayoutCondition,
    plans: Seq<PlanView>,
    triples: Seq<Triple>,
    spans: Seq<Span>,
    k: int,
) -> Verdict {
    match v.conditions {
        // Once a condition can never hold, the others do not matter.
        None => v,
        Some(list) => match c {
            // A condition that cannot be evaluated is kept untouched, and the record is
            // taken not to apply.
            LayoutCondition::Other(_) => Verdict {
                applies: false,
                conditions: Some(list.push(c)),
                ..v
            },
            LayoutCondition::Range { axis, min, max } => {
                let t = triple_for(plans, triples, axis as int);
                let applies = v.applies && min <= t.default <= max;
                if t.min > max || t.max < min {
                    Verdict { applies, conditions: None, ..v }
                } else {
                    match output_slot(plans, axis as int) {
                        // The axis is pinned: its answer is fixed, and the condition has
                        // nothing left to say.
                        None => Verdict { applies, ..v },
                        Some(slot) => if min > max {
                            Verdict { applies, conditions: None, ..v }
                        } else {
                            let s = span_for(spans, k, moved_into(min, t), moved_into(max, t));
                            Verdict {
                                applies,
                                keeps: true,
                                // A condition that spans the whole axis is always true.
                                conditions: if s.is_whole {
                                    Some(list)
                                } else {
                                    Some(
                                        list.push(
                                            LayoutCondition::Range {
                                                axis: (slot % 0x1_0000) as u16,
                                                min: s.low,
                                                max: s.high,
                                            },
                                        ),
                                    )
                                },
                            }
                        },
                    }
                }
            },
        },
    }
}

/// The verdict after the first `n` conditions.
pub open spec fn judged(
    conditions: Seq<LayoutCondition>,
    plans: Seq<PlanView>,
    triples: Seq<Triple>,
    spans: Seq<Span>,
    n: int,
) -> Verdict
    decreases n,
{
    if n <= 0 {
        Verdict { applies: true, keeps: false, conditions: Some(Seq::empty()) }
    } else {
        judged_step(
            judged(conditions, plans, triples, spans, n - 1),
            conditions[n - 1],
            plans,
            triples,
            spans,
            n - 1,
        )
    }
}

/// The conditions of a record. A record without a condition set has none.
pub open spec fn conditions_of(r: RecordView) -> Seq<LayoutCondition> {
    match r.conditions {
        Some(c) => c,
        None => Seq::empty(),
    }
}

pub open spec fn verdict_on(
    r: RecordView,
    plans: Seq<PlanView>,
    triples: Seq<Triple>,
    spans: Seq<Span>,
) -> Verdict {
    judged(conditions_of(r), plans, triples, spans, conditions_of(r).len() as int)
}

/// The conditions that are left of a record that survives.
pub open spec fn kept_conditions(v: Verdict) -> Option<Seq<LayoutCondition>> {
    if v.keeps {
        v.conditions
    } else {
        None
    }
}

fn instantiate_record(
    record: &LayoutRecord,
    plans: &Vec<AxisPlan>,
    triples: &Vec<Triple>,
    spans: &Vec<Span>,
) -> (r: (bool, Option<Vec<LayoutCondition>>))
    ensures
        ({
            let v = verdict_on(record@, plan_views(plans@), triples@, spans@);
            r.0 == v.applies && match r.1 {
                Some(list) => kept_conditions(v) == Some(list@),
                None => kept_conditions(v) is None,
            }
        }),
{
    let ghost views = plan_views(plans@);
    let mut applies: bool = true;
    let mut keeps: bool = false;
    let mut list: Vec<LayoutCondition> = Vec::new();
    assert(list@ =~= Seq::<LayoutCondition>::empty());
    match &record.conditions {
        Some(conditions) => {
            for k in 0..conditions.len()
                invariant
                    views == plan_views(plans@),
                    conditions_of(record@) == conditions@,
                    judged(conditions@, views, triples@, spans@, k as int) == (Verdict {
                        applies,
                        keeps,
                        conditions: Some(list@),
                    }),
            {
                let ghost before = judged(conditions@, views, triples@, spans@, k as int);
                let ghost after = judged(conditions@, views, triples@, spans@, k + 1);
                match &conditions[k] {
                    LayoutCondition::Other(other) => {
                        applies = false;
                        list.push(LayoutCondition::Other(copy_condition(other)));
                    },
                    LayoutCondition::Range { axis, min, max } => {
                        let (axis, min, max): (u16, i16, i16) = (*axis, *min, *max);
                        let t: Triple = triple_at(plans, triples, axis);
                        if !(min <= t.default && t.default <= max) {
                            applies = false;
                        }
                        let slot: Option<usize> = slot_of(plans, axis as usize);
                        if t.min > max || t.max < min || (slot.is_some() && min > max) {
                            proof {
                                lemma_dead(
                                    conditions@,
                                    views,
                                    triples@,
                                    spans@,
                                    k + 1,
                                    conditions@.len() as int,
                                );
                            }
                            return (applies, None);
                        }
                        match slot {
                            Some(slot) => {
                                keeps = true;
                                let s: Span = if k < spans.len() {
                                    spans[k]
                                } else {
                                    let low: i16 = move_into(min, t);
                                    let high: i16 = move_into(max, t);
                                    Span { low, high, is_whole: low == -16384 && high == 16384 }
                                };
                                if !s.is_whole {
                                    list.push(
                                        LayoutCondition::Range {
                                            axis: (slot % 0x1_0000) as u16,
                                            min: s.low,
                                            max: s.high,
                                        },
                                    );
                                }
                            },
                            None => {},
                        }
                    },
                }
            }
        },
        None => {},
    }
    if keeps {
        (applies, Some(list))
    } else {
        (applies, None)
    }
}

proof fn lemma_dead(
    conditions: Seq<LayoutCondition>,
    plans: Seq<PlanView>,
    triples: Seq<Triple>,
    spans: Seq<Span>,
    n: int,
    m: int,
)
    requires
        0 <= n <= m,
        judged(conditions, plans, triples, spans, n).conditions is None,
    ensures
        judged(conditions, plans, triples, spans, m) == judged(
            conditions,
            plans,
            triples,
            spans,
            n,
        ),
    decreases m,
{
    if n < m {
        lemma_dead(conditions, plans, triples, spans, n, m - 1);
    }
}

// ------------------------------------------------------------------- resolving a table

/// True when one of the conditions cannot be compared with others.
pub open spec fn has_other(conditions: Seq<LayoutCondition>) -> bool {
    exists|i: int| 0 <= i < conditions.len() && (#[trigger] conditions[i]) is Other
}

/// True when no record has the same conditions. Conditions that cannot be compared are taken
/// to be distinct.
pub open spec fn is_new(records: Seq<RecordView>, conditions: Seq<LayoutCondition>) -> bool {
    has_other(conditions) || forall|i: int|
        0 <= i < records.len() ==> conditions_of(#[trigger] records[i]) != conditions
}

/// The features after the first `n` substitutions have been made, and the substitutions that
/// undo them.
pub open spec fn swapped(features: Seq<Feature>, subs: Seq<(u16, Feature)>, n: int) -> (
    Seq<Feature>,
    Seq<(u16, Feature)>,
)
    decreases n,
{
    if n <= 0 {
        (features, Seq::empty())
    } else {
        let (list, undo) = swapped(features, subs, n - 1);
        let (index, alternate) = subs[n - 1];
        if index < list.len() {
            (list.update(index as int, alternate), undo.push((index, list[index as int])))
        } else {
            (list, undo.push((index, alternate)))
        }
    }
}

/// How far the records of a table have been worked through.
#[verifier::ext_equal]
pub struct Folded {
    /// The feature list.
    pub features: Seq<Feature>,
    /// The records that survive.
    pub records: Seq<RecordView>,
    /// Once a record has been folded into the feature list, what puts the features back.
    pub defaults: Option<Seq<(u16, Feature)>>,
    /// True once a record holds everywhere: nothing after it can ever be reached.
    pub stopped: bool,
}

pub open spec fn spans_for(spans: Seq<Seq<Span>>, i: int) -> Seq<Span> {
    if 0 <= i < spans.len() {
        spans[i]
    } else {
        Seq::empty()
    }
}

/// A record that survives with these conditions.
pub open spec fn kept_record(r: RecordView, conditions: Seq<LayoutCondition>) -> RecordView {
    RecordView {
        conditions: if conditions.len() == 0 {
            None
        } else {
            Some(conditions)
        },
        substitutions: r.substitutions,
    }
}

/// The next record is worked through.
pub open spec fn folded_step(s: Folded, r: RecordView, v: Verdict) -> Folded {
    if s.stopped {
        s
    } else {
        let kept = kept_conditions(v);
        let records = match kept {
            Some(list) => if is_new(s.records, list) {
                s.records.push(kept_record(r, list))
            } else {
                s.records
            },
            None => s.records,
        };
        let stopped = match kept {
            Some(list) => list.len() == 0,
            None => false,
        };
        match (s.defaults, r.substitutions) {
            (None, Some(subs)) => if v.applies {
                let (features, undo) = swapped(s.features, subs, subs.len() as int);
                Folded { features, records, defaults: Some(undo), stopped }
            } else {
                Folded { records, stopped, ..s }
            },
            _ => Folded { records, stopped, ..s },
        }
    }
}

/// The first `n` records of a table have been worked through.
pub open spec fn folded(
    l: LayoutView,
    plans: Seq<PlanView>,
    triples: Seq<Triple>,
    spans: Seq<Seq<Span>>,
    n: int,
) -> Folded
    decreases n,
{
    if n <= 0 {
        Folded {
            features: l.features,
            records: Seq::empty(),
            defaults: None,
            stopped: false,
        }
    } else {
        folded_step(
            folded(l, plans, triples, spans, n - 1),
            l.records[n - 1],
            verdict_on(l.records[n - 1], plans, triples, spans_for(spans, n - 1)),
        )
    }
}

/// The features and the records that a table is left with.
pub open spec fn left_over(s: Folded) -> (Seq<Feature>, Option<Seq<RecordView>>) {
    // An empty condition set matches everywhere, which is what puts the original features
    // back for locations the surviving records miss.
    let records = match s.defaults {
        Some(undo) => if s.records.len() > 0 && !s.stopped {
            s.records.push(
                RecordView { conditions: Some(Seq::empty()), substitutions: Some(undo) },
            )
        } else {
            s.records
        },
        None => s.records,
    };
    (
        s.features,
        if records.len() == 0 {
            None
        } else {
            Some(records)
        },
    )
}

pub open spec fn resolved(
    l: LayoutView,
    plans: Seq<PlanView>,
    triples: Seq<Triple>,
    spans: Seq<Seq<Span>>,
) -> (Seq<Feature>, Option<Seq<RecordView>>) {
    left_over(folded(l, plans, triples, spans, l.records.len() as int))
}

fn same_conditions(a: &Vec<LayoutCondition>, b: &Vec<LayoutCondition>) -> (r: bool)
    requires
        !has_other(a@),
    ensures
        r == (a@ == b@),
{
    if a.len() != b.len() {
        return false;
    }
    for i in 0..a.len()
        invariant
            a@.len() == b@.len(),
            !has_other(a@),
            a@.take(i as int) == b@.take(i as int),
    {
        assert(!(a@[i as int] is Other));
        let same: bool = match (&a[i], &b[i]) {
            (
                LayoutCondition::Range { axis, min, max },
                LayoutCondition::Range { axis: other_axis, min: other_min, max: other_max },
            ) => *axis == *other_axis && *min == *other_min && *max == *other_max,
            _ => false,
        };
        if !same {
            assert(a@[i as int] != b@[i as int]);
            return false;
        }
        assert(a@.take(i + 1) =~= a@.take(i as int).push(a@[i as int]));
        assert(b@.take(i + 1) =~= b@.take(i as int).push(b@[i as int]));
    }
    assert(a@.take(a@.len() as int) =~= a@);
    assert(b@.take(b@.len() as int) =~= b@);
    true
}

fn holds_other(conditions: &Vec<LayoutCondition>) -> (r: bool)
    ensures
        r == has_other(conditions@),
{
    for i in 0..conditions.len()
        invariant
            forall|k: int| 0 <= k < i ==> !((#[trigger] conditions@[k]) is Other),
    {
        match &conditions[i] {
            LayoutCondition::Other(_) => {
                assert(conditions@[i as int] is Other);
                return true;
            },
            _ => {},
        }
    }
    false
}

/// Has an identical condition set not been kept yet?
///
/// Limiting several records onto a smaller axis can collapse them onto the same condition;
/// keeping the duplicates would be harmless but wasteful.
fn is_unique(records: &Vec<LayoutRecord>, conditions: &Vec<LayoutCondition>) -> (r: bool)
    ensures
        r == is_new(record_views(records@), conditions@),
{
    let ghost views = record_views(records@);
    if holds_other(conditions) {
        return true;
    }
    for i in 0..records.len()
        invariant
            views == record_views(records@),
            !has_other(conditions@),
            forall|k: int| 0 <= k < i ==> conditions_of(#[trigger] views[k]) != conditions@,
    {
        assert(views[i as int] == records@[i as int]@);
        let same: bool = match &records[i].conditions {
            Some(kept) => same_conditions(conditions, kept),
            None => conditions.len() == 0,
        };
        assert(same == (conditions_of(views[i as int]) =~= conditions@));
        if same {
            return false;
        }
    }
    true
}

fn copy_substitutions(subs: &Option<Vec<(u16, Feature)>>) -> (r: Option<Vec<(u16, Feature)>>)
    ensures
        match (*subs, r) {
            (Some(a), Some(b)) => a@ == b@,
            (None, None) => true,
            _ => false,
        },
{
    match subs {
        Some(list) => {
            let mut out: Vec<(u16, Feature)> = Vec::new();
            for i in 0..list.len()
                invariant
                    out@ == list@.take(i as int),
            {
                let copy: Feature = copy_feature(&list[i].1);
                out.push((list[i].0, copy));
                assert(out@ =~= list@.take(i + 1));
            }
            assert(out@ =~= list@);
            Some(out)
        },
        None => None,
    }
}

fn swap_features(features: &mut Vec<Feature>, subs: &Vec<(u16, Feature)>) -> (undo: Vec<
    (u16, Feature),
>)
    ensures
        (final(features)@, undo@) == swapped(old(features)@, subs@, subs@.len() as int),
{
    let ghost start = features@;
    let mut undo: Vec<(u16, Feature)> = Vec::new();
    assert(undo@ =~= Seq::<(u16, Feature)>::empty());
    for i in 0..subs.len()
        invariant
            (features@, undo@) == swapped(start, subs@, i as int),
    {
        let index: u16 = subs[i].0;
        let incoming: Feature = copy_feature(&subs[i].1);
        if (index as usize) < features.len() {
            let previous: Feature = copy_feature(&features[index as usize]);
            features.set(index as usize, incoming);
            undo.push((index, previous));
        } else {
            undo.push((index, incoming));
        }
    }
    undo
}

pub open spec fn span_lists(spans: Seq<Vec<Span>>) -> Seq<Seq<Span>> {
    spans.map_values(|s: Vec<Span>| s@)
}

/// What [`instantiate`] gives back, as it is compared with [`resolved`].
pub open spec fn left_view(r: (Vec<Feature>, Option<Vec<LayoutRecord>>)) -> (
    Seq<Feature>,
    Option<Seq<RecordView>>,
) {
    (
        r.0@,
        match r.1 {
            Some(records) => Some(record_views(records@)),
            None => None,
        },
    )
}

/// Work through one table's records, changing its feature list and returning whatever
/// records still describe a reachable condition.
pub fn instantiate(
    layout: Layout,
    plans: &Vec<AxisPlan>,
    triples: &Vec<Triple>,
    spans: &Vec<Vec<Span>>,
) -> (r: (Vec<Feature>, Option<Vec<LayoutRecord>>))
    ensures
        left_view(r) == resolved(layout@, plan_views(plans@), triples@, span_lists(spans@)),
{
    let ghost l = layout@;
    let ghost views = plan_views(plans@);
    let ghost lists = span_lists(spans@);
    let none: Vec<Span> = Vec::new();
    let mut features: Vec<Feature> = layout.features;
    let source: Vec<LayoutRecord> = layout.records;
    let mut records: Vec<LayoutRecord> = Vec::new();
    let mut defaults: Option<Vec<(u16, Feature)>> = None;
    let mut stopped: bool = false;
    assert(record_views(records@) =~= Seq::<RecordView>::empty());
    for i in 0..source.len()
        invariant
            l.records == record_views(source@),
            views == plan_views(plans@),
            lists == span_lists(spans@),
            none@ == Seq::<Span>::empty(),
            folded(l, views, triples@, lists, i as int) == (Folded {
                features: features@,
                records: record_views(records@),
                defaults: match defaults {
                    Some(d) => Some(d@),
                    None => None,
                },
                stopped,
            }),
    {
        if !stopped {
            let record: &LayoutRecord = &source[i];
            assert(l.records[i as int] == record@);
            let own: &Vec<Span> = if i < spans.len() {
                &spans[i]
            } else {
                &none
            };
            assert(own@ == spans_for(lists, i as int));
            let (applies, kept) = instantiate_record(record, plans, triples, own);
            match kept {
                Some(conditions) => {
                    let universal: bool = conditions.len() == 0;
                    if is_unique(&records, &conditions) {
                        let ghost before = record_views(records@);
                        let ghost added = kept_record(record@, conditions@);
                        let substitutions: Option<Vec<(u16, Feature)>> = copy_substitutions(
                            &record.substitutions,
                        );
                        let copy: LayoutRecord = LayoutRecord {
                            conditions: if universal {
                                None
                            } else {
                                Some(conditions)
                            },
                            substitutions,
                        };
                        assert(copy@ =~= added);
                        records.push(copy);
                        assert(record_views(records@) =~= before.push(added));
                    }
                    stopped = universal;
                },
                None => {},
            }
            if applies && defaults.is_none() {
                match &record.substitutions {
                    Some(subs) => {
                        defaults = Some(swap_features(&mut features, subs));
                    },
                    None => {},
                }
            }
        }
    }
    match defaults {
        Some(undo) => {
            if records.len() > 0 && !stopped {
                let ghost before = record_views(records@);
                let everywhere: Vec<LayoutCondition> = Vec::new();
                let last: LayoutRecord = LayoutRecord {
                    conditions: Some(everywhere),
                    substitutions: Some(undo),
                };
                let ghost added = RecordView {
                    conditions: Some(Seq::empty()),
                    substitutions: Some(undo@),
                };
                assert(everywhere@ =~= Seq::<LayoutCondition>::empty());
                assert(last@ =~= added);
                records.push(last);
                assert(record_views(records@) =~= before.push(added));
            }
        },
        None => {},
    }
    if records.len() == 0 {
        (features, None)
    } else {
        (features, Some(records))
    }
}

/// The ends of the range that a condition leaves on its axis, before they are renormalized.
/// A condition that cannot be evaluated has none.
pub open spec fn ends_of(c: LayoutCondition, plans: Seq<PlanView>, triples: Seq<Triple>) -> Option<
    (u16, i16, i16),
> {
    match c {
        LayoutCondition::Range { axis, min, max } => {
            let t = triple_for(plans, triples, axis as int);
            Some((axis, moved_into(min, t), moved_into(max, t)))
        },
        LayoutCondition::Other(_) => None,
    }
}

pub open spec fn record_ends(r: RecordView, plans: Seq<PlanView>, triples: Seq<Triple>) -> Seq<
    Option<(u16, i16, i16)>,
> {
    conditions_of(r).map_values(|c: LayoutCondition| ends_of(c, plans, triples))
}

/// The ends of all ranges of a table, by record and condition.
pub open spec fn layout_ends(l: LayoutView, plans: Seq<PlanView>, triples: Seq<Triple>) -> Seq<
    Seq<Option<(u16, i16, i16)>>,
> {
    l.records.map_values(|r: RecordView| record_ends(r, plans, triples))
}

/// The features of a font's `GSUB` or `GPOS` table and how they vary.
pub open spec fn font_layout(font: Seq<TableView>, tag: u32) -> Option<LayoutView> {
    match table_bytes(font, tag) {
        Some(table) => layout_in(table, tag),
        None => None,
    }
}

pub open spec fn font_ends(
    font: Seq<TableView>,
    tag: u32,
    plans: Seq<PlanView>,
    triples: Seq<Triple>,
) -> Seq<Seq<Option<(u16, i16, i16)>>> {
    match font_layout(font, tag) {
        Some(l) => layout_ends(l, plans, triples),
        None => Seq::empty(),
    }
}

pub open spec fn end_lists(ends: Seq<Vec<Option<(u16, i16, i16)>>>) -> Seq<
    Seq<Option<(u16, i16, i16)>>,
> {
    ends.map_values(|e: Vec<Option<(u16, i16, i16)>>| e@)
}

fn ends_of_record(r: &LayoutRecord, plans: &Vec<AxisPlan>, triples: &Vec<Triple>) -> (out: Vec<
    Option<(u16, i16, i16)>,
>)
    ensures
        out@ == record_ends(r@, plan_views(plans@), triples@),
{
    let ghost wanted = record_ends(r@, plan_views(plans@), triples@);
    let mut out: Vec<Option<(u16, i16, i16)>> = Vec::new();
    match &r.conditions {
        Some(conditions) => {
            for i in 0..conditions.len()
                invariant
                    conditions_of(r@) == conditions@,
                    wanted == record_ends(r@, plan_views(plans@), triples@),
                    out@ == wanted.take(i as int),
            {
                let ends: Option<(u16, i16, i16)> = match &conditions[i] {
                    LayoutCondition::Range { axis, min, max } => {
                        let t: Triple = triple_at(plans, triples, *axis);
                        Some((*axis, move_into(*min, t), move_into(*max, t)))
                    },
                    LayoutCondition::Other(_) => None,
                };
                out.push(ends);
                assert(out@ =~= wanted.take(i + 1));
            }
        },
        None => {},
    }
    assert(out@ =~= wanted);
    out
}

/// The ranges in `GSUB` or `GPOS` that are to be renormalized, by record and condition: the
/// axis, and the ends of the range after it was cut to what is left of the axis.
pub fn feature_ends(
    font: &Vec<FontTable>,
    tag: u32,
    plans: &Vec<AxisPlan>,
    triples: &Vec<Triple>,
) -> (out: Vec<Vec<Option<(u16, i16, i16)>>>)
    requires
        tag == GSUB || tag == GPOS,
    ensures
        end_lists(out@) == font_ends(table_views(font@), tag, plan_views(plans@), triples@),
{
    let mut out: Vec<Vec<Option<(u16, i16, i16)>>> = Vec::new();
    let ghost wanted = font_ends(table_views(font@), tag, plan_views(plans@), triples@);
    assert(end_lists(out@) =~= wanted.take(0));
    match find_table(font, tag) {
        Some(table) => match read_layout(table.as_slice(), tag) {
            Some(layout) => {
                let ghost l = layout@;
                for i in 0..layout.records.len()
                    invariant
                        l == layout@,
                        wanted == layout_ends(l, plan_views(plans@), triples@),
                        end_lists(out@) == wanted.take(i as int),
                {
                    assert(l.records[i as int] == layout.records@[i as int]@);
                    let ghost before = end_lists(out@);
                    let ends: Vec<Option<(u16, i16, i16)>> = ends_of_record(
                        &layout.records[i],
                        plans,
                        triples,
                    );
                    let ghost added = ends@;
                    out.push(ends);
                    assert(end_lists(out@) =~= before.push(added));
                    assert(wanted.take(i + 1) =~= before.push(added));
                }
            },
            None => {},
        },
        None => {},
    }
    assert(wanted.take(wanted.len() as int) =~= wanted);
    out
}

/// True when the font has feature variations that slicing would invalidate.
pub fn has_feature_variations(font: &Vec<FontTable>) -> (r: bool)
    ensures
        r == (font_layout(table_views(font@), GSUB) is Some || font_layout(
            table_views(font@),
            GPOS,
        ) is Some),
{
    let gsub: bool = match find_table(font, GSUB) {
        Some(table) => read_layout(table.as_slice(), GSUB).is_some(),
        None => false,
    };
    let gpos: bool = match find_table(font, GPOS) {
        Some(table) => read_layout(table.as_slice(), GPOS).is_some(),
        None => false,
    };
    gsub || gpos
}

/// The text that refuses to write a table whose offsets might not hold.
pub open spec fn too_large_text() -> Seq<char> {
    "a layout table with feature variations is larger than 64 KiB, and cannot be rewritten"@
}

/// The new `GSUB` or `GPOS` table of a font, if its features vary. Above 64 KiB offsets can
/// overflow, and it is refused.
#[verifier::opaque]
pub open spec fn resolved_table(
    font: Seq<TableView>,
    tag: u32,
    plans: Seq<PlanView>,
    triples: Seq<Triple>,
    spans: Seq<Seq<Span>>,
) -> Option<Result<TableView, Problem>> {
    match font_layout(font, tag) {
        Some(l) => {
            let old = table_bytes(font, tag)->0;
            let (features, left) = resolved(l, plans, triples, spans);
            let records = match left {
                Some(left) => Some(plain_records(left)),
                None => None,
            };
            let size = if tag == GSUB {
                gsub_size(old, features, records)
            } else {
                gpos_size(old, features, records)
            };
            if size matches Some(n) && n > 0xffff {
                Some(Err(Problem::Write(too_large_text())))
            } else {
                Some(
                    built_table(
                        tag,
                        if tag == GSUB {
                            gsub_written(old, features, records)
                        } else {
                            gpos_written(old, features, records)
                        },
                    ),
                )
            }
        },
        None => None,
    }
}

fn make_records(records: &Vec<LayoutRecord>) -> (out: Vec<FeatureVariationRecord>)
    ensures
        all_parts(out@) == plain_records(record_views(records@)),
{
    let ghost views = plain_records(record_views(records@));
    let mut out: Vec<FeatureVariationRecord> = Vec::new();
    for i in 0..records.len()
        invariant
            views == plain_records(record_views(records@)),
            all_parts(out@) == views.take(i as int),
    {
        let ghost before = all_parts(out@);
        let record: FeatureVariationRecord = make_record(&records[i]);
        assert(record_parts(record) == views[i as int]);
        out.push(record);
        assert(all_parts(out@) =~= before.push(views[i as int]));
        assert(views.take(i + 1) =~= before.push(views[i as int]));
    }
    assert(all_parts(out@) =~= views);
    out
}

fn build_resolved(
    font: &Vec<FontTable>,
    tag: u32,
    plans: &Vec<AxisPlan>,
    triples: &Vec<Triple>,
    spans: &Vec<Vec<Span>>,
) -> (r: Option<Result<FontTable, SliceError>>)
    requires
        tag == GSUB || tag == GPOS,
    ensures
        crate::partial::table_result(r) == resolved_table(
            table_views(font@),
            tag,
            plan_views(plans@),
            triples@,
            span_lists(spans@),
        ),
        r matches Some(Ok(t)) ==> t.tag == tag,
{
    reveal(resolved_table);
    let old: &Vec<u8> = match find_table(font, tag) {
        Some(table) => table,
        None => {
            return None;
        },
    };
    let layout: Layout = match read_layout(old.as_slice(), tag) {
        Some(layout) => layout,
        None => {
            return None;
        },
    };
    let (features, left) = instantiate(layout, plans, triples, spans);
    let records: Option<Vec<FeatureVariationRecord>> = match left {
        Some(left) => Some(make_records(&left)),
        None => None,
    };
    let shown: Option<String> = if tag == GSUB {
        show_gsub(old.as_slice(), &features, &records)
    } else {
        show_gpos(old.as_slice(), &features, &records)
    };
    if let Some(text) = shown {
        if !shows_few_bytes(text.as_str(), 0xffff) {
            return Some(
                Err(
                    write_error(
                        "a layout table with feature variations is larger than 64 KiB, and cannot be rewritten",
                    ),
                ),
            );
        }
    }
    let written: Result<Vec<u8>, String> = if tag == GSUB {
        write_gsub(old.as_slice(), features, records)
    } else {
        write_gpos(old.as_slice(), features, records)
    };
    Some(finish_table(tag, written))
}

/// The font after its feature variations were resolved: the same file where it has none.
pub open spec fn varied_font(
    bytes: Seq<u8>,
    font: Seq<TableView>,
    gsub: Option<Result<TableView, Problem>>,
    gpos: Option<Result<TableView, Problem>>,
) -> Result<Seq<u8>, Problem> {
    match (gsub, gpos) {
        (Some(Err(e)), _) => Err(e),
        (_, Some(Err(e))) => Err(e),
        (None, None) => Ok(bytes),
        (Some(Ok(a)), None) => step_file(Ok(with_remaining(seq![a], font, Seq::empty()))),
        (None, Some(Ok(b))) => step_file(Ok(with_remaining(seq![b], font, Seq::empty()))),
        (Some(Ok(a)), Some(Ok(b))) => step_file(
            Ok(with_remaining(seq![a, b], font, Seq::empty())),
        ),
    }
}

/// The renormalized ranges of both tables, by record and condition.
pub struct Spans {
    pub gsub: Vec<Vec<Span>>,
    pub gpos: Vec<Vec<Span>>,
}

pub open spec fn feature_step(
    bytes: Seq<u8>,
    plans: Seq<PlanView>,
    triples: Seq<Triple>,
    gsub: Seq<Seq<Span>>,
    gpos: Seq<Seq<Span>>,
) -> Result<Seq<u8>, Problem> {
    match font_tables(bytes) {
        Err(e) => Err(e),
        Ok(font) => varied_font(
            bytes,
            font,
            resolved_table(font, GSUB, plans, triples, gsub),
            resolved_table(font, GPOS, plans, triples, gpos),
        ),
    }
}

/// Resolve `FeatureVariations` in `GSUB` and `GPOS` against the new axis limits.
pub fn instantiate_feature_variations(
    bytes: &Vec<u8>,
    plans: &Vec<AxisPlan>,
    triples: &Vec<Triple>,
    spans: &Spans,
) -> (r: Result<Vec<u8>, SliceError>)
    ensures
        ({
            let step = feature_step(
                bytes@,
                plan_views(plans@),
                triples@,
                span_lists(spans.gsub@),
                span_lists(spans.gpos@),
            );
            match r {
                Ok(out) => step == Ok::<Seq<u8>, Problem>(out@) && frame_in(out@) == frame_in(
                    bytes@,
                ),
                Err(e) => step == Err::<Seq<u8>, Problem>(e@),
            }
        }),
{
    let font: Vec<FontTable> = match read_tables(bytes.as_slice()) {
        Ok(font) => font,
        Err(e) => {
            return Err(e);
        },
    };
    let ghost view = table_views(font@);
    let mut out: Vec<FontTable> = Vec::new();
    assert(table_views(out@) =~= Seq::<TableView>::empty());
    match build_resolved(&font, GSUB, plans, triples, &spans.gsub) {
        Some(Ok(t)) => push_table(&mut out, t),
        Some(Err(e)) => {
            return Err(e);
        },
        None => {},
    }
    match build_resolved(&font, GPOS, plans, triples, &spans.gpos) {
        Some(Ok(t)) => push_table(&mut out, t),
        Some(Err(e)) => {
            return Err(e);
        },
        None => {},
    }
    if out.len() == 0 {
        return Ok(bytes.clone());
    }
    let skip: [u32; 0] = [];
    let ghost first = table_views(out@);
    assert(skip@ =~= Seq::<u32>::empty());
    copy_remaining_tables(&mut out, &font, &skip);
    proof {
        let gsub = resolved_table(
            view,
            GSUB,
            plan_views(plans@),
            triples@,
            span_lists(spans.gsub@),
        );
        let gpos = resolved_table(
            view,
            GPOS,
            plan_views(plans@),
            triples@,
            span_lists(spans.gpos@),
        );
        match (gsub, gpos) {
            (Some(Ok(a)), Some(Ok(b))) => {
                assert(first =~= seq![a, b]);
            },
            (Some(Ok(a)), None) => {
                assert(first =~= seq![a]);
            },
            (None, Some(Ok(b))) => {
                assert(first =~= seq![b]);
            },
            _ => {},
        }
        assert(!has_tag(first, FVAR) && !has_tag(first, MAXP));
    }
    match assemble(&out) {
        Ok(file) => {
            proof {
                lemma_carried(tables_in(file@), first, view, Seq::empty(), FVAR);
                lemma_carried(tables_in(file@), first, view, Seq::empty(), MAXP);
            }
            Ok(file)
        },
        Err(e) => Err(e),
    }
}

// ---------------------------------------------------------------------------------- laws

pub open spec fn is_sorted(t: Triple) -> bool {
    t.min <= t.default <= t.max
}

/// True when a condition holds at the new default.
pub open spec fn holds_at_default(
    c: LayoutCondition,
    plans: Seq<PlanView>,
    triples: Seq<Triple>,
) -> bool {
    match c {
        LayoutCondition::Range { axis, min, max } => min <= triple_for(
            plans,
            triples,
            axis as int,
        ).default <= max,
        LayoutCondition::Other(_) => false,
    }
}

proof fn lemma_applies(
    conditions: Seq<LayoutCondition>,
    plans: Seq<PlanView>,
    triples: Seq<Triple>,
    spans: Seq<Span>,
    n: int,
)
    requires
        0 <= n <= conditions.len(),
        forall|i: int| 0 <= i < triples.len() ==> is_sorted(#[trigger] triples[i]),
    ensures
        judged(conditions, plans, triples, spans, n).conditions is None ==> !judged(
            conditions,
            plans,
            triples,
            spans,
            n,
        ).applies && exists|i: int|
            0 <= i < n && !#[trigger] holds_at_default(conditions[i], plans, triples),
        judged(conditions, plans, triples, spans, n).applies <==> forall|i: int|
            0 <= i < n ==> #[trigger] holds_at_default(conditions[i], plans, triples),
    decreases n,
{
    if n > 0 {
        lemma_applies(conditions, plans, triples, spans, n - 1);
        let before = judged(conditions, plans, triples, spans, n - 1);
        let after = judged(conditions, plans, triples, spans, n);
        let holds = holds_at_default(conditions[n - 1], plans, triples);
        match conditions[n - 1] {
            LayoutCondition::Range { axis, min, max } => {
                let t = triple_for(plans, triples, axis as int);
                assert(is_sorted(t));
            },
            LayoutCondition::Other(_) => {},
        }
        assert(before.conditions is Some ==> after.applies == (before.applies && holds));
        if after.conditions is None && before.conditions is Some {
            assert(!holds_at_default(conditions[n - 1], plans, triples));
        }
        if forall|i: int| 0 <= i < n - 1 ==> #[trigger] holds_at_default(conditions[i], plans, triples) {
            if holds {
                assert forall|i: int| 0 <= i < n implies #[trigger] holds_at_default(
                    conditions[i],
                    plans,
                    triples,
                ) by {
                    if i == n - 1 {
                        assert(holds);
                    }
                }
            }
        }
    }
}

/// A record applies to the output exactly where all its conditions hold at the new default.
pub proof fn a_record_applies_where_its_conditions_hold(
    r: RecordView,
    plans: Seq<PlanView>,
    triples: Seq<Triple>,
    spans: Seq<Span>,
)
    requires
        forall|i: int| 0 <= i < triples.len() ==> is_sorted(#[trigger] triples[i]),
    ensures
        verdict_on(r, plans, triples, spans).applies <==> forall|i: int|
            0 <= i < conditions_of(r).len() ==> #[trigger] holds_at_default(
                conditions_of(r)[i],
                plans,
                triples,
            ),
{
    lemma_applies(conditions_of(r), plans, triples, spans, conditions_of(r).len() as int);
}

proof fn lemma_pinned_keeps_nothing(
    conditions: Seq<LayoutCondition>,
    plans: Seq<PlanView>,
    triples: Seq<Triple>,
    spans: Seq<Span>,
    n: int,
)
    requires
        forall|i: int| 0 <= i < plans.len() ==> (#[trigger] plans[i]).limit is Pin,
    ensures
        !judged(conditions, plans, triples, spans, n).keeps,
    decreases n,
{
    if n > 0 {
        lemma_pinned_keeps_nothing(conditions, plans, triples, spans, n - 1);
    }
}

proof fn lemma_pinned_folds(
    l: LayoutView,
    plans: Seq<PlanView>,
    triples: Seq<Triple>,
    spans: Seq<Seq<Span>>,
    n: int,
)
    requires
        0 <= n <= l.records.len(),
        forall|i: int| 0 <= i < plans.len() ==> (#[trigger] plans[i]).limit is Pin,
    ensures
        folded(l, plans, triples, spans, n).records.len() == 0,
    decreases n,
{
    if n > 0 {
        lemma_pinned_folds(l, plans, triples, spans, n - 1);
        let r = l.records[n - 1];
        lemma_pinned_keeps_nothing(
            conditions_of(r),
            plans,
            triples,
            spans_for(spans, n - 1),
            conditions_of(r).len() as int,
        );
    }
}

/// Where every axis is pinned, no condition is left: what applies has been folded into the
/// feature list, and there are no feature variations in the output.
pub proof fn pinning_every_axis_leaves_no_conditions(
    l: LayoutView,
    plans: Seq<PlanView>,
    triples: Seq<Triple>,
    spans: Seq<Seq<Span>>,
)
    requires
        forall|i: int| 0 <= i < plans.len() ==> (#[trigger] plans[i]).limit is Pin,
    ensures
        resolved(l, plans, triples, spans).1 is None,
{
    lemma_pinned_folds(l, plans, triples, spans, l.records.len() as int);
}

/// True when no feature is substituted twice.
pub open spec fn distinct_features(subs: Seq<(u16, Feature)>) -> bool {
    forall|i: int, j: int| 0 <= i < j < subs.len() ==> (#[trigger] subs[i]).0 != (
    #[trigger] subs[j]).0
}

proof fn lemma_swapped(features: Seq<Feature>, subs: Seq<(u16, Feature)>, n: int)
    requires
        0 <= n <= subs.len(),
        distinct_features(subs),
    ensures
        swapped(features, subs, n).0.len() == features.len(),
        swapped(features, subs, n).1.len() == n,
        forall|k: int|
            0 <= k < n ==> (#[trigger] swapped(features, subs, n).1[k]).0 == subs[k].0 && (
            subs[k].0 < features.len() ==> swapped(features, subs, n).1[k].1
                == features[subs[k].0 as int] && swapped(features, subs, n).0[subs[k].0 as int]
                == subs[k].1),
        forall|i: int|
            0 <= i < features.len() && (forall|k: int| 0 <= k < n ==> (#[trigger] subs[k]).0 != i)
                ==> #[trigger] swapped(features, subs, n).0[i] == features[i],
    decreases n,
{
    if n > 0 {
        lemma_swapped(features, subs, n - 1);
        let (list, undo) = swapped(features, subs, n - 1);
        let (after, more) = swapped(features, subs, n);
        let index = subs[n - 1].0;
        assert forall|k: int| 0 <= k < n implies (#[trigger] more[k]).0 == subs[k].0 && (subs[k].0
            < features.len() ==> more[k].1 == features[subs[k].0 as int] && after[subs[k].0 as int]
            == subs[k].1) by {
            if k < n - 1 {
                assert(more[k] == undo[k]);
                assert(subs[k].0 != subs[n - 1].0);
            } else if index < features.len() {
                assert(forall|j: int| 0 <= j < n - 1 ==> (#[trigger] subs[j]).0 != index);
                assert(list[index as int] == features[index as int]);
            }
        }
        assert forall|i: int|
            0 <= i < features.len() && (forall|k: int|
                0 <= k < n ==> (#[trigger] subs[k]).0 != i) implies #[trigger] after[i]
            == features[i] by {
            assert(subs[n - 1].0 != i);
            assert(list[i] == features[i]);
        }
    }
}

/// What a catch-all record carries puts the original features back: making the substitutions
/// and then the ones that undo them changes nothing.
pub proof fn the_original_features_can_be_put_back(
    features: Seq<Feature>,
    subs: Seq<(u16, Feature)>,
)
    requires
        distinct_features(subs),
    ensures
        ({
            let (list, undo) = swapped(features, subs, subs.len() as int);
            swapped(list, undo, undo.len() as int).0 == features
        }),
{
    let n = subs.len() as int;
    let (list, undo) = swapped(features, subs, n);
    lemma_swapped(features, subs, n);
    assert(distinct_features(undo)) by {
        assert forall|i: int, j: int| 0 <= i < j < undo.len() implies (#[trigger] undo[i]).0 != (
        #[trigger] undo[j]).0 by {
            assert(undo[i].0 == subs[i].0 && undo[j].0 == subs[j].0);
        }
    }
    lemma_swapped(list, undo, n);
    let back = swapped(list, undo, n).0;
    assert forall|i: int| 0 <= i < features.len() implies back[i] == features[i] by {
        if exists|k: int| 0 <= k < n && (#[trigger] subs[k]).0 == i {
            let k = choose|k: int| 0 <= k < n && (#[trigger] subs[k]).0 == i;
            assert(undo[k].0 == i && undo[k].1 == features[i]);
            let again = swapped(list, undo, n).1[k];
            assert(again.0 == undo[k].0);
            assert(back[i] == undo[k].1);
        } else {
            assert forall|k: int| 0 <= k < n implies (#[trigger] undo[k]).0 != i by {
                assert(undo[k].0 == subs[k].0);
            }
            assert(list[i] == features[i]);
        }
    }
    assert(back =~= features);
}

} // verus!
