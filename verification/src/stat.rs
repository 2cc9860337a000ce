//! The `STAT` table: reading it, and filtering its axis values to those that an instance
//! can still reach.
use read_fonts::tables::stat::AxisValue::{Format1, Format2, Format3, Format4};
use read_fonts::tables::stat::{AxisValue as ReadValue, Stat as ReadStat};
use read_fonts::{FontData, FontRead};
use vstd::prelude::*;
use write_fonts::dump_table;
use write_fonts::tables::stat::{
    AxisRecord as WrittenAxis, AxisValue as WrittenValue, AxisValueRecord, AxisValueTableFlags,
    Stat,
};
use write_fonts::types::{Fixed, NameId, Tag};

use crate::axes::{AxisLimit, AxisSpec, AxisView};
use crate::coord::{is_fixed, rank, Coord};
use crate::error::{write_error, Problem, SliceError};
use crate::fields::{built_table, finish_table};
use crate::tables::{find_table, table_bytes, table_views, FontTable, TableView, STAT};

verus! {

/// A design axis of a `STAT` table.
#[derive(Clone, Copy, Debug, PartialEq, Eq, Structural)]
pub struct StatAxis {
    pub tag: u32,
    pub name_id: u16,
    pub ordering: u16,
}

/// An axis value of a `STAT` table, in one of its four formats. Values count in units of
/// 1/65536.
#[derive(Debug)]
pub struct StatValue {
    /// 1 for a single value, 2 for a range, 3 for a value with a linked one, and 4 for a
    /// point across several axes.
    pub format: u16,
    pub flags: u16,
    pub name_id: u16,
    /// The axes and the values on them: several for a point across several axes, and one
    /// otherwise.
    pub points: Vec<(u16, i32)>,
    /// The ends of a range; the linked value and zero; or two zeros.
    pub more: (i32, i32),
}

/// What a [`StatValue`] holds.
#[verifier::ext_equal]
pub struct StatValueView {
    pub format: u16,
    pub flags: u16,
    pub name_id: u16,
    pub points: Seq<(u16, i32)>,
    pub more: (i32, i32),
}

impl View for StatValue {
    type V = StatValueView;

    open spec fn view(&self) -> StatValueView {
        StatValueView {
            format: self.format,
            flags: self.flags,
            name_id: self.name_id,
            points: self.points@,
            more: self.more,
        }
    }
}

pub open spec fn value_views(values: Seq<StatValue>) -> Seq<StatValueView> {
    values.map_values(|v: StatValue| v@)
}

/// The design axes of a `STAT` table, where they can be read, and the name ID for when all
/// others are elided, where the table has one; nothing where the table cannot be read.
pub uninterp spec fn stat_head(bytes: Seq<u8>) -> Option<(Option<Seq<StatAxis>>, Option<u16>)>;

/// Calls `read_fonts::tables::stat::Stat::read`, `Stat::design_axes` and
/// `Stat::elided_fallback_name_id`. The result has a name.
#[verifier::external_body]
pub(crate) fn read_stat_head(bytes: &[u8]) -> (r: Option<(Option<Vec<StatAxis>>, Option<u16>)>)
    ensures
        match r {
            Some((Some(axes), fallback)) => stat_head(bytes@) == Some((Some(axes@), fallback)),
            Some((None, fallback)) => stat_head(bytes@) == Some(
                (None::<Seq<StatAxis>>, fallback),
            ),
            None => stat_head(bytes@) is None,
        },
{
    let stat = ReadStat::read(FontData::new(bytes)).ok()?;
    let axes = stat.design_axes().ok().map(|axes| axes.iter().map(|a| StatAxis {
        tag: u32::from_be_bytes(a.axis_tag().to_be_bytes()),
        name_id: a.axis_name_id().to_u16(),
        ordering: a.axis_ordering(),
    }).collect());
    Some((axes, stat.elided_fallback_name_id().map(|id| id.to_u16())))
}

/// The axis values of a `STAT` table without what they say: format, flags and name ID.
/// One that cannot be read is `None`.
pub uninterp spec fn stat_entries(bytes: Seq<u8>) -> Seq<Option<(u16, u16, u16)>>;

/// Calls `read_fonts::tables::stat::Stat::read`, `Stat::offset_to_axis_values` and
/// `AxisValueArray::axis_values`. The format, flags and name ID of each have a name; there
/// are none where the table or its array cannot be read.
#[verifier::external_body]
fn read_stat_entries(bytes: &[u8]) -> (r: Vec<Option<(u16, u16, u16)>>)
    ensures
        r@ == stat_entries(bytes@),
{
    let stat = ReadStat::read(FontData::new(bytes));
    let Some(Ok(array)) = stat.ok().and_then(|s| s.offset_to_axis_values()) else {
        return Vec::new();
    };
    let entry = |v: ReadValue| (v.format(), v.flags().bits(), v.value_name_id().to_u16());
    array.axis_values().iter().map(|v| v.ok().map(entry)).collect()
}

/// The numbers of the axis values of a `STAT` table that speak of one axis: the axis, the
/// value on it, and the ends of a range, or the linked value and zero, or two zeros. All
/// are zero for a point across several axes, and where the value cannot be read.
pub uninterp spec fn stat_numbers(bytes: Seq<u8>) -> Seq<(u16, i32, i32, i32)>;

/// Calls `read_fonts::tables::stat::Stat::read`, `Stat::offset_to_axis_values` and
/// `AxisValueArray::axis_values`. The numbers of the first three formats have a name.
#[verifier::external_body]
fn read_stat_numbers(bytes: &[u8]) -> (r: Vec<(u16, i32, i32, i32)>)
    ensures
        r@ == stat_numbers(bytes@),
{
    let values = ReadStat::read(FontData::new(bytes)).ok().and_then(|s| s.offset_to_axis_values());
    let Some(Ok(array)) = values else { return Vec::new() };
    array.axis_values().iter().map(|v| match v {
        Ok(Format1(v)) => (v.axis_index(), v.value().to_bits(), 0, 0),
        Ok(Format2(v)) => (v.axis_index(), v.nominal_value().to_bits(),
            v.range_min_value().to_bits(), v.range_max_value().to_bits()),
        Ok(Format3(v)) => (v.axis_index(), v.value().to_bits(),
            v.linked_value().to_bits(), 0),
        _ => (0, 0, 0, 0)
    }).collect()
}

/// The points of the axis values of a `STAT` table that speak of several axes: none for one
/// of another format, and where the value cannot be read.
pub uninterp spec fn stat_points(bytes: Seq<u8>) -> Seq<Seq<(u16, i32)>>;

pub open spec fn point_lists(lists: Seq<Vec<(u16, i32)>>) -> Seq<Seq<(u16, i32)>> {
    lists.map_values(|l: Vec<(u16, i32)>| l@)
}

/// Calls `read_fonts::tables::stat::Stat::read`, `Stat::offset_to_axis_values` and
/// `AxisValueArray::axis_values`. The axes and the values of the fourth format have a name:
/// a list for each axis value.
#[verifier::external_body]
fn read_stat_points(bytes: &[u8]) -> (r: Vec<Vec<(u16, i32)>>)
    ensures
        point_lists(r@) == stat_points(bytes@),
{
    let stat = ReadStat::read(FontData::new(bytes));
    let Some(Ok(array)) = stat.ok().and_then(|s| s.offset_to_axis_values()) else {
        return Vec::new();
    };
    array.axis_values().iter().map(|v| match v {
        Ok(Format4(v)) => {
            v.axis_values().iter().map(|r| (r.axis_index(), r.value().to_bits())).collect()
        },
        _ => Vec::new(),
    }).collect()
}

/// What an axis value says, from its parts.
pub open spec fn joined_value(
    entry: (u16, u16, u16),
    number: (u16, i32, i32, i32),
    points: Seq<(u16, i32)>,
) -> StatValueView {
    StatValueView {
        format: entry.0,
        flags: entry.1,
        name_id: entry.2,
        points: if entry.0 == 4 {
            points
        } else {
            seq![(number.0, number.1)]
        },
        more: (number.2, number.3),
    }
}

/// The axis values of a `STAT` table that can be read, up to number `n`.
pub open spec fn stat_values_upto(
    entries: Seq<Option<(u16, u16, u16)>>,
    numbers: Seq<(u16, i32, i32, i32)>,
    points: Seq<Seq<(u16, i32)>>,
    n: int,
) -> Seq<StatValueView>
    decreases n,
{
    if n <= 0 {
        Seq::empty()
    } else {
        let before = stat_values_upto(entries, numbers, points, n - 1);
        match entries[n - 1] {
            Some(entry) => before.push(joined_value(entry, numbers[n - 1], points[n - 1])),
            None => before,
        }
    }
}

pub open spec fn shortest(a: nat, b: nat, c: nat) -> nat {
    if a <= b && a <= c {
        a
    } else if b <= c {
        b
    } else {
        c
    }
}

/// The axis values of a `STAT` table that can be read.
pub open spec fn stat_values(bytes: Seq<u8>) -> Seq<StatValueView> {
    let n = shortest(stat_entries(bytes).len(), stat_numbers(bytes).len(), stat_points(bytes).len());
    stat_values_upto(stat_entries(bytes), stat_numbers(bytes), stat_points(bytes), n as int)
}

/// Read the axis values of a `STAT` table.
pub fn read_stat_values(bytes: &[u8]) -> (out: Vec<StatValue>)
    ensures
        value_views(out@) == stat_values(bytes@),
{
    let entries: Vec<Option<(u16, u16, u16)>> = read_stat_entries(bytes);
    let numbers: Vec<(u16, i32, i32, i32)> = read_stat_numbers(bytes);
    let points: Vec<Vec<(u16, i32)>> = read_stat_points(bytes);
    let ghost lists = point_lists(points@);
    let mut out: Vec<StatValue> = Vec::new();
    assert(value_views(out@) =~= stat_values_upto(entries@, numbers@, lists, 0));
    let mut i: usize = 0;
    while i < entries.len() && i < numbers.len() && i < points.len()
        invariant
            lists == point_lists(points@),
            i <= shortest(entries@.len(), numbers@.len(), lists.len()),
            value_views(out@) == stat_values_upto(entries@, numbers@, lists, i as int),
        decreases entries@.len() - i,
    {
        let ghost before = value_views(out@);
        match entries[i] {
            Some((format, flags, name_id)) => {
                let (axis, value, a, b) = numbers[i];
                let mut list: Vec<(u16, i32)> = Vec::new();
                if format == 4 {
                    list = copy_points(&points[i]);
                } else {
                    list.push((axis, value));
                }
                let read: StatValue = StatValue { format, flags, name_id, points: list, more: (a, b) };
                let ghost added = read@;
                assert(added =~= joined_value(
                    (format, flags, name_id),
                    numbers@[i as int],
                    lists[i as int],
                ));
                out.push(read);
                assert(value_views(out@) =~= before.push(added));
            },
            None => {},
        }
        i = i + 1;
    }
    out
}

fn copy_points(points: &Vec<(u16, i32)>) -> (out: Vec<(u16, i32)>)
    ensures
        out@ == points@,
{
    let mut out: Vec<(u16, i32)> = Vec::new();
    for i in 0..points.len()
        invariant
            out@ == points@.take(i as int),
    {
        out.push(points[i]);
        assert(out@ =~= points@.take(i + 1));
    }
    assert(out@ =~= points@);
    out
}

/// An axis value in the form in which it is written.
#[verifier::external_type_specification]
#[verifier::external_body]
pub struct ExAxisValue(WrittenValue);

/// What an axis value holds that is ready to be written.
pub uninterp spec fn written_value(v: WrittenValue) -> StatValueView;

/// True for a value that the table can hold: it has a format, as many points as that says,
/// no number that it does not say, and flags that have a meaning.
pub open spec fn value_fits(v: StatValueView) -> bool {
    &&& 1 <= v.format <= 4
    &&& v.flags <= 3
    &&& 1 <= v.points.len() <= 0xffff
    &&& v.format != 4 ==> v.points.len() == 1
    &&& v.format == 1 || v.format == 4 ==> v.more == (0i32, 0i32)
    &&& v.format == 3 ==> v.more.1 == 0
}

/// Calls `write_fonts::tables::stat::AxisValue::format_1` to `format_4`. What the value
/// holds has a name: it is the value that it was made from.
#[verifier::external_body]
fn make_value(v: &StatValue) -> (r: WrittenValue)
    requires
        value_fits(v@),
    ensures
        written_value(r) == v@,
{
    let fix = Fixed::from_bits;
    let (f, n) = (AxisValueTableFlags::from_bits_truncate(v.flags), NameId::new(v.name_id));
    let ((axis, value), (a, b)) = (v.points[0], v.more);
    let points = v.points.iter().map(|p| AxisValueRecord { axis_index: p.0, value: fix(p.1) });
    match v.format {
        1 => WrittenValue::format_1(axis, f, n, fix(value)),
        2 => WrittenValue::format_2(axis, f, n, fix(value), fix(a), fix(b)),
        3 => WrittenValue::format_3(axis, f, n, fix(value), fix(a)),
        _ => WrittenValue::format_4(f, n, points.collect()),
    }
}

/// The `STAT` table with these axes and values, or why it cannot be written.
pub uninterp spec fn stat_written(
    axes: Seq<StatAxis>,
    values: Seq<StatValueView>,
    fallback: u16,
) -> Result<Seq<u8>, Seq<char>>;

pub open spec fn written_values(values: Seq<WrittenValue>) -> Seq<StatValueView> {
    values.map_values(|v: WrittenValue| written_value(v))
}

/// Calls `write_fonts::tables::stat::Stat::new` and `write_fonts::dump_table`. The result
/// has a name; a table that is written reads back as its axes, its values and its fallback
/// name.
#[verifier::external_body]
fn write_stat(axes: &Vec<StatAxis>, values: Vec<WrittenValue>, fallback: u16) -> (r: Result<
    Vec<u8>,
    String,
>)
    requires
        axes@.len() <= 0xffff,
        values@.len() <= 0xffff,
    ensures
        match r {
            Ok(bytes) => {
                &&& stat_written(axes@, written_values(values@), fallback) == Ok::<
                    Seq<u8>,
                    Seq<char>,
                >(bytes@)
                &&& stat_head(bytes@) == Some((Some(axes@), Some(fallback)))
                &&& stat_values(bytes@) == written_values(values@)
            },
            Err(text) => stat_written(axes@, written_values(values@), fallback) == Err::<
                Seq<u8>,
                Seq<char>,
            >(text@),
        },
{
    let axes = axes.iter().map(|a| WrittenAxis {
        axis_tag: Tag::new(&a.tag.to_be_bytes()),
        axis_name_id: NameId::new(a.name_id),
        axis_ordering: a.ordering,
    });
    let stat = Stat::new(axes.collect(), values, NameId::new(fallback));
    dump_table(&stat).map_err(|e| e.to_string())
}

// ------------------------------------------------------------------------- filtering

/// What is to become of one axis.
#[derive(Debug)]
pub struct AxisPlan {
    pub spec: AxisSpec,
    pub limit: AxisLimit,
}

/// What an [`AxisPlan`] holds.
#[verifier::ext_equal]
pub struct PlanView {
    pub spec: AxisView,
    pub limit: AxisLimit,
}

impl View for AxisPlan {
    type V = PlanView;

    open spec fn view(&self) -> PlanView {
        PlanView { spec: self.spec@, limit: self.limit }
    }
}

pub open spec fn plan_views(plans: Seq<AxisPlan>) -> Seq<PlanView> {
    plans.map_values(|p: AxisPlan| p@)
}

/// The extent of an axis in the output, in user space: minimum, default and maximum. A
/// pinned axis has all three at its pin, and is not written out at all.
pub open spec fn extent_of(plan: PlanView) -> (Coord, Coord, Coord) {
    match plan.limit {
        AxisLimit::Full => (plan.spec.min, plan.spec.default, plan.spec.max),
        AxisLimit::Range { min, max } => (min, plan.spec.default, max),
        AxisLimit::Pin(v) => (v, v, v),
    }
}

impl AxisPlan {
    pub fn is_pinned(&self) -> (r: bool)
        ensures
            r == (self@.limit is Pin),
    {
        !self.limit.keeps_axis()
    }

    /// True when the axis comes through untouched.
    pub fn is_untouched(&self) -> (r: bool)
        ensures
            r == (self@.limit is Full),
    {
        match self.limit {
            AxisLimit::Full => true,
            _ => false,
        }
    }

    /// The axis extent to write into the output `fvar`, in user space.
    pub fn output_extent(&self) -> (r: (Coord, Coord, Coord))
        ensures
            r == extent_of(self@),
    {
        match self.limit {
            AxisLimit::Full => (self.spec.min, self.spec.default, self.spec.max),
            AxisLimit::Range { min, max } => (min, self.spec.default, max),
            AxisLimit::Pin(v) => (v, v, v),
        }
    }
}

/// The tag that a text spells: one to four printable characters that do not start with a
/// space and have nothing after one, filled up with spaces.
pub open spec fn tag_of_text(text: Seq<char>) -> Option<u32> {
    if 1 <= text.len() <= 4 && text[0] != ' ' && (forall|i: int|
        0 <= i < text.len() ==> ' ' <= #[trigger] text[i] <= '~') && (forall|i: int, j: int|
        0 <= i < j < text.len() && text[i] == ' ' ==> #[trigger] text[j] == #[trigger] text[i]) {
        Some(
            (tag_digit(text, 0) * 0x100_0000 + tag_digit(text, 1) * 0x1_0000 + tag_digit(text, 2)
                * 0x100 + tag_digit(text, 3)) as u32,
        )
    } else {
        None
    }
}

/// Byte number `i` of the tag that a text spells.
pub open spec fn tag_digit(text: Seq<char>, i: int) -> int {
    if i < text.len() {
        text[i] as int
    } else {
        0x20
    }
}

/// The tag that a text spells.
pub fn parse_tag(text: &str) -> (r: Option<u32>)
    ensures
        r == tag_of_text(text@),
{
    let chars: Vec<char> = crate::text::chars_of(text);
    if chars.len() == 0 || chars.len() > 4 || chars[0] == ' ' {
        return None;
    }
    let mut bytes: [u32; 4] = [0x20, 0x20, 0x20, 0x20];
    let mut space: bool = false;
    for i in 0..chars.len()
        invariant
            chars@ == text@,
            1 <= chars@.len() <= 4,
            chars@[0] != ' ',
            forall|k: int| 0 <= k < i ==> ' ' <= #[trigger] chars@[k] <= '~',
            space == (exists|k: int| 0 <= k < i && chars@[k] == ' '),
            forall|a: int, b: int|
                0 <= a < b < i && chars@[a] == ' ' ==> #[trigger] chars@[b] == #[trigger] chars@[a],
            forall|k: int| 0 <= k < 4 ==> #[trigger] bytes@[k] == if k < i {
                chars@[k] as int
            } else {
                0x20
            },
    {
        let c: char = chars[i];
        if !(' ' <= c && c <= '~') {
            return None;
        }
        if space && c != ' ' {
            proof {
                let k = choose|k: int| 0 <= k < i && chars@[k] == ' ';
                assert(text@[k] == ' ' && text@[i as int] != text@[k]);
            }
            return None;
        }
        if c == ' ' {
            space = true;
        }
        bytes[i] = ascii_code(c);
    }
    Some(bytes[0] * 0x100_0000 + bytes[1] * 0x1_0000 + bytes[2] * 0x100 + bytes[3])
}

fn ascii_code(c: char) -> (r: u32)
    requires
        ' ' <= c <= '~',
    ensures
        r == c as int,
        r <= 0x7e,
{
    c as u32
}

/// The extent that an axis ends up with, by tag: that of the first plan for it.
pub open spec fn extent_for(plans: Seq<PlanView>, tag: u32) -> Option<(Coord, Coord)>
    decreases plans.len(),
{
    if plans.len() == 0 {
        None
    } else if tag_of_text(plans[0].spec.tag) == Some(tag) {
        Some((extent_of(plans[0]).0, extent_of(plans[0]).2))
    } else {
        extent_for(plans.skip(1), tag)
    }
}

fn find_extent(plans: &Vec<AxisPlan>, tag: u32) -> (r: Option<(Coord, Coord)>)
    ensures
        r == extent_for(plan_views(plans@), tag),
{
    let ghost views = plan_views(plans@);
    assert(views.skip(0) =~= views);
    for i in 0..plans.len()
        invariant
            views == plan_views(plans@),
            extent_for(views, tag) == extent_for(views.skip(i as int), tag),
    {
        assert(views.skip(i as int)[0] == plans@[i as int]@);
        assert(views.skip(i as int).skip(1) =~= views.skip(i + 1));
        match parse_tag(plans[i].spec.tag.as_str()) {
            Some(t) => {
                if t == tag {
                    let (min, _default, max) = plans[i].output_extent();
                    return Some((min, max));
                }
            },
            None => {},
        }
    }
    None
}

/// A fixed-point number as a coordinate.
pub open spec fn fixed_coord(n: i32) -> Coord {
    choose|c: Coord| is_fixed(c, n as int)
}

pub proof fn lemma_fixed_coord(c: Coord, n: i32)
    requires
        is_fixed(c, n as int),
    ensures
        rank(fixed_coord(n)) == rank(c),
{
    crate::coord::fixed_coordinates_keep_their_order(c, fixed_coord(n), n as int, n as int);
}

/// True when a value on a design axis is out of reach: the axis does not exist, or the value
/// lies outside what is left of it. An axis that `fvar` never had is left alone.
pub open spec fn is_outside(
    axes: Seq<StatAxis>,
    plans: Seq<PlanView>,
    axis: u16,
    value: i32,
) -> bool {
    axis >= axes.len() || match extent_for(plans, axes[axis as int].tag) {
        Some((min, max)) => rank(fixed_coord(value)) < rank(min) || rank(fixed_coord(value)) > rank(
            max,
        ),
        None => false,
    }
}

/// True for an axis value that names a place which the output still has: every one of its
/// coordinates is within reach, and there is at least one.
pub open spec fn is_reachable(
    axes: Seq<StatAxis>,
    plans: Seq<PlanView>,
    v: StatValueView,
) -> bool {
    v.points.len() > 0 && forall|i: int|
        0 <= i < v.points.len() ==> !is_outside(
            axes,
            plans,
            (#[trigger] v.points[i]).0,
            v.points[i].1,
        )
}

/// The axis values that name a place which the output still has.
pub open spec fn reachable_values(
    axes: Seq<StatAxis>,
    plans: Seq<PlanView>,
    values: Seq<StatValueView>,
) -> Seq<StatValueView> {
    values.filter(|v: StatValueView| is_reachable(axes, plans, v))
}

fn outside(axes: &Vec<StatAxis>, plans: &Vec<AxisPlan>, axis: u16, value: i32) -> (r: bool)
    ensures
        r == is_outside(axes@, plan_views(plans@), axis, value),
{
    if axis as usize >= axes.len() {
        return true;
    }
    match find_extent(plans, axes[axis as usize].tag) {
        Some((min, max)) => {
            let c: Coord = Coord::of_fixed(value);
            proof {
                lemma_fixed_coord(c, value);
            }
            c.lt(min) || max.lt(c)
        },
        None => false,
    }
}

/// True for an axis value that the output can still reach.
///
/// A value across several axes names one point. If any of them is out of reach the value no
/// longer describes a location the font has, so the whole value goes rather than being
/// quietly reduced.
pub fn keep_axis_value(axes: &Vec<StatAxis>, plans: &Vec<AxisPlan>, v: &StatValue) -> (r: bool)
    ensures
        r == is_reachable(axes@, plan_views(plans@), v@),
{
    if v.points.len() == 0 {
        return false;
    }
    for i in 0..v.points.len()
        invariant
            forall|k: int|
                0 <= k < i ==> !is_outside(
                    axes@,
                    plan_views(plans@),
                    (#[trigger] v@.points[k]).0,
                    v@.points[k].1,
                ),
    {
        let (axis, value) = v.points[i];
        assert(v@.points[i as int] == v.points@[i as int]);
        if outside(axes, plans, axis, value) {
            return false;
        }
    }
    true
}

fn copy_value(v: &StatValue) -> (c: StatValue)
    ensures
        c@ == v@,
{
    StatValue {
        format: v.format,
        flags: v.flags,
        name_id: v.name_id,
        points: copy_points(&v.points),
        more: v.more,
    }
}

fn filter_values(axes: &Vec<StatAxis>, plans: &Vec<AxisPlan>, values: &Vec<StatValue>) -> (out: Vec<
    StatValue,
>)
    ensures
        value_views(out@) == reachable_values(
            axes@,
            plan_views(plans@),
            value_views(values@),
        ),
{
    let ghost views = value_views(values@);
    let ghost plans_view = plan_views(plans@);
    let ghost keep = |v: StatValueView| is_reachable(axes@, plans_view, v);
    let mut out: Vec<StatValue> = Vec::new();
    assert(value_views(out@) =~= views.take(0).filter(keep)) by {
        reveal(Seq::filter);
    }
    for i in 0..values.len()
        invariant
            views == value_views(values@),
            plans_view == plan_views(plans@),
            keep == (|v: StatValueView| is_reachable(axes@, plans_view, v)),
            value_views(out@) == views.take(i as int).filter(keep),
    {
        reveal(Seq::filter);
        assert(views.take(i + 1).drop_last() =~= views.take(i as int));
        assert(views[i as int] == values@[i as int]@);
        let ghost before = value_views(out@);
        if keep_axis_value(axes, plans, &values[i]) {
            out.push(copy_value(&values[i]));
            assert(value_views(out@) =~= before.push(views[i as int]));
        }
    }
    assert(views.take(views.len() as int) =~= views);
    out
}

/// What a `STAT` table is made of.
#[verifier::ext_equal]
pub struct StatParts {
    pub axes: Seq<StatAxis>,
    pub values: Seq<StatValueView>,
    pub fallback: u16,
}

/// What is left of a font's `STAT`: its design axes, the axis values that are within reach,
/// and the fallback name. Nothing where the font has no `STAT` with axes.
pub open spec fn filtered_stat(font: Seq<TableView>, plans: Seq<PlanView>) -> Option<StatParts> {
    match table_bytes(font, STAT) {
        Some(bytes) => match stat_head(bytes) {
            Some((Some(axes), fallback)) => if axes.len() == 0 {
                None
            } else {
                Some(
                    StatParts {
                        axes,
                        values: reachable_values(axes, plans, stat_values(bytes)),
                        // A table without the field predates it; the subfamily name is the
                        // conventional stand-in.
                        fallback: match fallback {
                            Some(id) => id,
                            None => 2,
                        },
                    },
                )
            },
            _ => None,
        },
        None => None,
    }
}

/// True for values that the table can hold.
pub open spec fn values_fit(values: Seq<StatValueView>) -> bool {
    values.len() <= 0xffff && forall|i: int|
        0 <= i < values.len() ==> value_fits(#[trigger] values[i])
}

/// The `STAT` table that is left, or why it cannot be written.
pub open spec fn stat_table(font: Seq<TableView>, plans: Seq<PlanView>) -> Option<
    Result<TableView, Problem>,
> {
    match filtered_stat(font, plans) {
        Some(p) => Some(
            if p.axes.len() <= 0xffff && values_fit(p.values) {
                built_table(STAT, stat_written(p.axes, p.values, p.fallback))
            } else {
                Err(Problem::Write("an axis value cannot be stored"@))
            },
        ),
        None => None,
    }
}

fn fits(v: &StatValue) -> (ok: bool)
    ensures
        ok == value_fits(v@),
{
    1 <= v.format && v.format <= 4 && v.flags <= 3 && v.points.len() >= 1 && v.points.len()
        <= 0xffff && (v.format == 4 || v.points.len() == 1) && (v.format == 2 || v.format == 3 || (
    v.more.0 == 0 && v.more.1 == 0)) && (v.format != 3 || v.more.1 == 0)
}

fn all_fit(values: &Vec<StatValue>) -> (ok: bool)
    ensures
        ok == values_fit(value_views(values@)),
{
    let ghost views = value_views(values@);
    if values.len() > 0xffff {
        return false;
    }
    for i in 0..values.len()
        invariant
            views == value_views(values@),
            forall|k: int| 0 <= k < i ==> value_fits(#[trigger] views[k]),
    {
        assert(views[i as int] == values@[i as int]@);
        if !fits(&values[i]) {
            return false;
        }
    }
    true
}

/// Filter `STAT`'s axis values to those the output can still reach.
///
/// Every design axis record is kept, including the pinned ones, and only the axis *values*
/// that fall outside the new limits are dropped: a static instance's `STAT` is how it
/// declares what it is. A value that names an axis which does not exist is dropped, too.
pub fn build_stat(font: &Vec<FontTable>, plans: &Vec<AxisPlan>) -> (r: Option<
    Result<FontTable, SliceError>,
>)
    ensures
        match r {
            Some(Ok(t)) => {
                &&& stat_table(table_views(font@), plan_views(plans@)) == Some(
                    Ok::<TableView, Problem>(t@),
                )
                &&& t.tag == STAT
                &&& filtered_stat(table_views(font@), plan_views(plans@)) matches Some(p)
                    && stat_head(t.bytes@) == Some((Some(p.axes), Some(p.fallback)))
                    && stat_values(t.bytes@) == p.values
            },
            Some(Err(e)) => stat_table(table_views(font@), plan_views(plans@)) == Some(
                Err::<TableView, Problem>(e@),
            ),
            None => stat_table(table_views(font@), plan_views(plans@)) is None,
        },
{
    let bytes: &Vec<u8> = match find_table(font, STAT) {
        Some(bytes) => bytes,
        None => {
            return None;
        },
    };
    let (axes, fallback): (Vec<StatAxis>, u16) = match read_stat_head(bytes.as_slice()) {
        Some((Some(axes), fallback)) => (
            axes,
            match fallback {
                Some(id) => id,
                None => 2,
            },
        ),
        _ => {
            return None;
        },
    };
    if axes.len() == 0 {
        return None;
    }
    let values: Vec<StatValue> = filter_values(&axes, plans, &read_stat_values(bytes.as_slice()));
    if axes.len() > 0xffff || !all_fit(&values) {
        return Some(Err(write_error("an axis value cannot be stored")));
    }
    let ghost views = value_views(values@);
    let mut written: Vec<WrittenValue> = Vec::new();
    assert(written_values(written@) =~= views.take(0));
    for i in 0..values.len()
        invariant
            views == value_views(values@),
            values_fit(views),
            written_values(written@) == views.take(i as int),
    {
        assert(views[i as int] == values@[i as int]@);
        let ghost before = written_values(written@);
        let value: WrittenValue = make_value(&values[i]);
        written.push(value);
        assert(written_values(written@) =~= before.push(views[i as int]));
        assert(views.take(i + 1) =~= before.push(views[i as int]));
    }
    assert(written_values(written@) =~= views);
    Some(finish_table(STAT, write_stat(&axes, written, fallback)))
}

/// No axis value that is kept names an axis that does not exist.
pub proof fn no_kept_value_dangles(font: Seq<TableView>, plans: Seq<PlanView>, i: int, k: int)
    requires
        filtered_stat(font, plans) is Some,
        0 <= i < filtered_stat(font, plans)->0.values.len(),
        0 <= k < filtered_stat(font, plans)->0.values[i].points.len(),
    ensures
        filtered_stat(font, plans)->0.values[i].points[k].0 < filtered_stat(
            font,
            plans,
        )->0.axes.len(),
{
    let axes = filtered_stat(font, plans)->0.axes;
    let kept = filtered_stat(font, plans)->0.values;
    let bytes = table_bytes(font, STAT)->0;
    let keep = |v: StatValueView| is_reachable(axes, plans, v);
    assert(kept == stat_values(bytes).filter(keep));
    stat_values(bytes).lemma_filter_pred(keep, i);
    assert(is_reachable(axes, plans, kept[i]));
    assert(!is_outside(axes, plans, kept[i].points[k].0, kept[i].points[k].1));
}

/// An axis value within reach is kept.
pub proof fn reachable_values_are_kept(
    font: Seq<TableView>,
    plans: Seq<PlanView>,
    v: StatValueView,
)
    requires
        filtered_stat(font, plans) is Some,
        stat_values(table_bytes(font, STAT)->0).contains(v),
        is_reachable(filtered_stat(font, plans)->0.axes, plans, v),
    ensures
        filtered_stat(font, plans)->0.values.contains(v),
{
    let axes = filtered_stat(font, plans)->0.axes;
    let kept = filtered_stat(font, plans)->0.values;
    let values = stat_values(table_bytes(font, STAT)->0);
    let keep = |v: StatValueView| is_reachable(axes, plans, v);
    assert(kept == values.filter(keep));
    let i = choose|i: int| 0 <= i < values.len() && values[i] == v;
    values.lemma_filter_contains(keep, i);
}

} // verus!
