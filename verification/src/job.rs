//! Running a slice: everything that happens when the Slice button is pressed.
use vstd::prelude::*;

use crate::apply::{
    apply_bits, apply_names, apply_step, cleared_rows_are_deleted, flagged_tables, renamed,
    renamed_tables, written_flags,
};
use crate::axes::{axis_views, limit_problem, AxisLimit, AxisSpec, AxisView};
use crate::bits::BitFlags;
use crate::bytes::push_all;
use crate::coord::{rank, Coord};
use crate::error::{text_views, Problem, SliceError};
use crate::finalize::{
    all_have_text, dead_ids, finalize, finalized_tables, location_view, only_dead_names_are_pruned,
    variation_ids, variation_name_ids, without_ids, Finalize, FinalizeView,
};
use crate::font::{
    are_axes, axis_records, flags_in, font_names, frame_in, fvar_in, glyph_total, holds_font,
    is_edited, loaded, name_text, rows_in, same_contents, tables_in, AxisRecord, NameView,
    SliceFont,
};
use crate::names::{text_of, NameEdits, MANDATORY_IDS, NAME_EDITOR_IDS, OPTIONAL_IDS};
use crate::overlaps::{only_outlines_differ, summary_text, OverlapReport, ReportView};
use crate::partial::{has_variable_positioning, left_axes, variable_positioning};
use crate::sfnt::split_of;
use crate::stat::{plan_views, AxisPlan, PlanView};
use crate::tables::{
    font_tables, opens_as_listed, table_bytes, FontTable, TableView, FVAR, MAXP, NAME,
};
use crate::text::{decimal, decimal_of, ends_with, has_suffix, lowercase, lowercased};
use crate::woff::{encode_woff, inflate_again, is_woff_sized, woff_bytes, woff_signature};
use crate::woff2::{comes_back, encode_woff2, starts_with, woff2_encoded, woff2_signature};

verus! {

/// The container to write the result in.
#[derive(Clone, Copy, Debug, Default, PartialEq, Eq, Structural)]
pub enum OutputFormat {
    /// A bare sfnt: `.ttf` or `.otf` depending on the outlines.
    #[default]
    Sfnt,
    /// WOFF 1.0.
    Woff,
    /// WOFF2.
    Woff2,
}

pub open spec fn extension_text(format: OutputFormat, is_truetype: bool) -> Seq<char> {
    match format {
        OutputFormat::Sfnt => if is_truetype {
            "ttf"@
        } else {
            "otf"@
        },
        OutputFormat::Woff => "woff"@,
        OutputFormat::Woff2 => "woff2"@,
    }
}

/// The format that a file name asks for, whatever the case of its extension.
pub open spec fn format_of_name(name: Seq<char>) -> OutputFormat {
    if has_suffix(lowercased(name), ".woff2"@) {
        OutputFormat::Woff2
    } else if has_suffix(lowercased(name), ".woff"@) {
        OutputFormat::Woff
    } else {
        OutputFormat::Sfnt
    }
}

pub open spec fn mime_text(format: OutputFormat) -> Seq<char> {
    match format {
        OutputFormat::Sfnt => "font/ttf"@,
        OutputFormat::Woff => "font/woff"@,
        OutputFormat::Woff2 => "font/woff2"@,
    }
}

impl OutputFormat {
    /// The extension a file in this format should carry.
    ///
    /// `is_truetype` decides between `.ttf` and `.otf` for a bare sfnt, which is a
    /// convention rather than a requirement but is what everything expects.
    pub fn extension(&self, is_truetype: bool) -> (r: &'static str)
        ensures
            r@ == extension_text(*self, is_truetype),
    {
        match self {
            OutputFormat::Sfnt => if is_truetype {
                "ttf"
            } else {
                "otf"
            },
            OutputFormat::Woff => "woff",
            OutputFormat::Woff2 => "woff2",
        }
    }

    /// Guess the format from a file name the user typed.
    pub fn from_filename(name: &str) -> (r: OutputFormat)
        ensures
            r == format_of_name(name@),
    {
        let lower: Vec<char> = lowercase(name);
        if ends_with(lower.as_slice(), ".woff2") {
            OutputFormat::Woff2
        } else if ends_with(lower.as_slice(), ".woff") {
            OutputFormat::Woff
        } else {
            OutputFormat::Sfnt
        }
    }

    pub fn mime_type(&self) -> (r: &'static str)
        ensures
            r@ == mime_text(*self),
    {
        match self {
            OutputFormat::Sfnt => "font/ttf",
            OutputFormat::Woff => "font/woff",
            OutputFormat::Woff2 => "font/woff2",
        }
    }
}

// ------------------------------------------------------------------------------- the job

/// Everything the three editors and the options add up to.
#[derive(Debug)]
pub struct SliceJob {
    /// One limit per `fvar` axis, in `fvar` order.
    pub limits: Vec<AxisLimit>,
    pub names: NameEdits,
    pub bits: BitFlags,
    /// Merge overlapping contours after instancing.
    pub remove_overlaps: bool,
    pub format: OutputFormat,
}

/// The message about a job that was made for another font.
pub open spec fn count_text(limits: nat, axes: nat) -> Seq<char> {
    "the job describes "@ + decimal(limits) + " axes but the font has "@ + decimal(axes)
}

/// The first problem with the limits on the first `n` axes, if there is one.
pub open spec fn first_limit_problem(
    axes: Seq<AxisView>,
    limits: Seq<AxisLimit>,
    n: int,
) -> Option<Problem>
    decreases n,
{
    if n <= 0 {
        None
    } else {
        match first_limit_problem(axes, limits, n - 1) {
            Some(e) => Some(e),
            None => limit_problem(axes[n - 1], limits[n - 1]),
        }
    }
}

pub open spec fn any_restriction(limits: Seq<AxisLimit>) -> bool {
    exists|i: int| 0 <= i < limits.len() && !((#[trigger] limits[i]) is Full)
}

/// What is wrong with a job, if anything is.
///
/// A job that asks for the design space the font already has would only copy its input.
/// Removing overlaps is a real change, so it lifts that objection.
pub open spec fn job_problem(
    axes: Seq<AxisView>,
    limits: Seq<AxisLimit>,
    remove_overlaps: bool,
) -> Option<Problem> {
    if limits.len() != axes.len() {
        Some(Problem::Unsupported(count_text(limits.len(), axes.len())))
    } else {
        match first_limit_problem(axes, limits, limits.len() as int) {
            Some(e) => Some(e),
            None => if !any_restriction(limits) && !remove_overlaps {
                Some(Problem::NothingToDo)
            } else {
                None
            },
        }
    }
}

/// True when every axis is pinned, so the result is a static font.
pub open spec fn all_pinned(limits: Seq<AxisLimit>) -> bool {
    limits.len() > 0 && forall|i: int| 0 <= i < limits.len() ==> (#[trigger] limits[i]) is Pin
}

fn restricts_any(limits: &Vec<AxisLimit>) -> (r: bool)
    ensures
        r == any_restriction(limits@),
{
    for i in 0..limits.len()
        invariant
            forall|k: int| 0 <= k < i ==> (#[trigger] limits@[k]) is Full,
    {
        if limits[i].is_restriction() {
            assert(!(limits@[i as int] is Full));
            return true;
        }
    }
    false
}

/// The limits of the axes, paired with them.
pub open spec fn plans_for(axes: Seq<AxisView>, limits: Seq<AxisLimit>) -> Seq<PlanView> {
    Seq::new(axes.len(), |i: int| PlanView { spec: axes[i], limit: limits[i] })
}

fn copy_axis(axis: &AxisSpec) -> (r: AxisSpec)
    ensures
        r@ == axis@,
{
    let name: Option<String> = match &axis.name {
        Some(name) => Some(name.as_str().to_owned()),
        None => None,
    };
    AxisSpec {
        tag: axis.tag.as_str().to_owned(),
        min: axis.min,
        default: axis.default,
        max: axis.max,
        name,
        hidden: axis.hidden,
    }
}

/// What is to become of each axis.
pub fn plan_axes(axes: &Vec<AxisSpec>, limits: &Vec<AxisLimit>) -> (plans: Vec<AxisPlan>)
    requires
        axes@.len() == limits@.len(),
    ensures
        plan_views(plans@) == plans_for(axis_views(axes@), limits@),
{
    let ghost wanted = plans_for(axis_views(axes@), limits@);
    let mut plans: Vec<AxisPlan> = Vec::new();
    assert(plan_views(plans@) =~= wanted.take(0));
    for i in 0..axes.len()
        invariant
            axes@.len() == limits@.len(),
            wanted == plans_for(axis_views(axes@), limits@),
            plan_views(plans@) == wanted.take(i as int),
    {
        let ghost before = plan_views(plans@);
        let plan: AxisPlan = AxisPlan { spec: copy_axis(&axes[i]), limit: limits[i] };
        assert(axis_views(axes@)[i as int] == axes@[i as int]@);
        assert(plan@ =~= wanted[i as int]);
        plans.push(plan);
        assert(plan_views(plans@) =~= before.push(wanted[i as int]));
        assert(wanted.take(i + 1) =~= before.push(wanted[i as int]));
    }
    assert(plan_views(plans@) =~= wanted);
    plans
}

/// How a font is cut.
#[derive(Clone, Copy, Debug, PartialEq, Eq, Structural)]
pub enum Instancing {
    /// Every axis is pinned: the result is static.
    Static,
    /// Some axes survive.
    Partial,
    /// The design space stays as it is; only overlap removal or editor changes were asked
    /// for.
    Copy,
}

pub open spec fn instancing_for(limits: Seq<AxisLimit>) -> Instancing {
    if all_pinned(limits) {
        Instancing::Static
    } else if any_restriction(limits) {
        Instancing::Partial
    } else {
        Instancing::Copy
    }
}

/// Where the output sits on an axis, in user space: at its pin, or else at the default it
/// will open at.
pub open spec fn settled(plan: PlanView) -> Coord {
    match plan.limit {
        AxisLimit::Pin(v) => v,
        AxisLimit::Range { min, max } => if rank(plan.spec.default) < rank(min) {
            min
        } else if rank(plan.spec.default) > rank(max) {
            max
        } else {
            plan.spec.default
        },
        AxisLimit::Full => plan.spec.default,
    }
}

pub open spec fn settled_location(plans: Seq<PlanView>) -> Seq<(Seq<char>, Coord)> {
    plans.map_values(|p: PlanView| (p.spec.tag, settled(p)))
}

/// The location the output sits at, in user space, for `OS/2`'s weight and width classes and
/// `post`'s italic angle.
pub fn final_location(plans: &Vec<AxisPlan>) -> (out: Vec<(String, Coord)>)
    ensures
        location_view(out@) == settled_location(plan_views(plans@)),
{
    let ghost wanted = settled_location(plan_views(plans@));
    let mut out: Vec<(String, Coord)> = Vec::new();
    assert(location_view(out@) =~= wanted.take(0));
    for i in 0..plans.len()
        invariant
            wanted == settled_location(plan_views(plans@)),
            location_view(out@) == wanted.take(i as int),
    {
        let plan: &AxisPlan = &plans[i];
        assert(plan_views(plans@)[i as int] == plan@);
        let value: Coord = match plan.limit {
            AxisLimit::Pin(v) => v,
            AxisLimit::Range { min, max } => if plan.spec.default.lt(min) {
                min
            } else if max.lt(plan.spec.default) {
                max
            } else {
                plan.spec.default
            },
            AxisLimit::Full => plan.spec.default,
        };
        let ghost before = location_view(out@);
        out.push((plan.spec.tag.as_str().to_owned(), value));
        assert(location_view(out@) =~= before.push(wanted[i as int]));
        assert(wanted.take(i + 1) =~= before.push(wanted[i as int]));
    }
    assert(location_view(out@) =~= wanted);
    out
}

// ------------------------------------------------------------------------------- notes

/// One axis as a note shows it, with the ends of its extent written as in `shown`.
pub open spec fn shown_axis(plan: PlanView, shown: (Seq<char>, Seq<char>)) -> Seq<char> {
    if plan.limit is Pin {
        plan.spec.tag + "="@ + shown.0
    } else {
        plan.spec.tag + "="@ + shown.0 + ":"@ + shown.1
    }
}

/// The first `n` axes as a note shows them.
pub open spec fn shown_axes(
    plans: Seq<PlanView>,
    shown: Seq<(Seq<char>, Seq<char>)>,
    n: int,
) -> Seq<char>
    decreases n,
{
    if n <= 0 {
        Seq::empty()
    } else if n == 1 {
        shown_axis(plans[0], shown[0])
    } else {
        shown_axes(plans, shown, n - 1) + " "@ + shown_axis(plans[n - 1], shown[n - 1])
    }
}

pub open spec fn shown_views(shown: Seq<(String, String)>) -> Seq<(Seq<char>, Seq<char>)> {
    shown.map_values(|s: (String, String)| (s.0@, s.1@))
}

fn show_axes(plans: &Vec<AxisPlan>, shown: &Vec<(String, String)>) -> (text: String)
    requires
        shown@.len() == plans@.len(),
    ensures
        text@ == shown_axes(plan_views(plans@), shown_views(shown@), plans@.len() as int),
{
    let ghost views = plan_views(plans@);
    let ghost texts = shown_views(shown@);
    let mut text: String = "".to_owned();
    proof {
        reveal_strlit("");
        assert(text@ =~= Seq::<char>::empty());
    }
    for i in 0..plans.len()
        invariant
            shown@.len() == plans@.len(),
            views == plan_views(plans@),
            texts == shown_views(shown@),
            text@ == shown_axes(views, texts, i as int),
    {
        let plan: &AxisPlan = &plans[i];
        assert(views[i as int] == plan@);
        assert(texts[i as int] == (shown@[i as int].0@, shown@[i as int].1@));
        let pinned: String = plan.spec.tag.as_str().to_owned().concat("=").concat(
            shown[i].0.as_str(),
        );
        let one: String = if plan.is_pinned() {
            pinned
        } else {
            pinned.concat(":").concat(shown[i].1.as_str())
        };
        text = if i == 0 {
            one
        } else {
            text.concat(" ").concat(one.as_str())
        };
    }
    text
}

/// The note about how the font was cut.
pub open spec fn instancing_note(
    how: Instancing,
    plans: Seq<PlanView>,
    shown: Seq<(Seq<char>, Seq<char>)>,
) -> Seq<Seq<char>> {
    let axes = shown_axes(plans, shown, plans.len() as int);
    match how {
        Instancing::Static => seq!["Pinned "@ + axes],
        Instancing::Partial => seq!["Restricted design space to "@ + axes],
        Instancing::Copy => Seq::empty(),
    }
}

/// The note about variable positioning, which is carried through untouched.
pub open spec fn positioning_note() -> Seq<char> {
    "Note: this font has variable kerning or anchors (a GDEF item variation store), which this build does not apply. Positioning comes out at the default location."@
}

pub open spec fn format_note(format: OutputFormat) -> Seq<Seq<char>> {
    match format {
        OutputFormat::Sfnt => Seq::empty(),
        OutputFormat::Woff => seq!["Wrapped as WOFF"@],
        OutputFormat::Woff2 => seq!["Wrapped as WOFF2"@],
    }
}

fn push_note(notes: &mut Vec<String>, note: String)
    ensures
        text_views(final(notes)@) == text_views(old(notes)@).push(note@),
{
    let ghost before = text_views(notes@);
    let ghost added = note@;
    notes.push(note);
    assert(text_views(notes@) =~= before.push(added));
}

// ------------------------------------------------------------------------- running a job

/// What a completed slice produced.
pub struct SliceOutput {
    /// The finished font file.
    pub bytes: Vec<u8>,
    /// A line per step, for the status bar and the log.
    pub notes: Vec<String>,
    pub overlaps: Option<OverlapReport>,
}

/// What is to be done next with a font.
#[derive(Clone, Copy, Debug, PartialEq, Eq, Structural)]
pub enum Action {
    /// Cut the font as its [`Instancing`] says, and hand it to [`SliceRun::instanced`].
    Cut,
    /// Resolve the feature variations, and hand the font to [`SliceRun::resolved`].
    Resolve,
    /// Remove the overlaps, and hand the font to [`SliceRun::simplified`].
    RemoveOverlaps,
    /// Call [`SliceRun::finish`].
    Finish,
}

/// A job under way: what the font has become so far, and what is still to be done with it.
///
/// Instancing, resolving feature variations and removing overlaps take floating-point
/// arithmetic, which the caller does between the steps, as [`SliceRun::next`] says.
pub struct SliceRun {
    pub action: Action,
    pub remove_overlaps: bool,
    /// What is to become of each axis.
    pub plans: Vec<AxisPlan>,
    pub instancing: Instancing,
    /// True for a font with variable kerning or anchors.
    pub positioning: bool,
    /// Which name records the input's `fvar` and `STAT` referred to. Anything in here that
    /// the output no longer refers to is pruned at the end.
    pub names_before: Vec<u16>,
    pub bytes: Vec<u8>,
    pub notes: Vec<String>,
    pub overlaps: Option<OverlapReport>,
}

/// What a [`SliceRun`] holds.
#[verifier::ext_equal]
pub struct RunView {
    pub action: Action,
    pub remove_overlaps: bool,
    pub plans: Seq<PlanView>,
    pub instancing: Instancing,
    pub positioning: bool,
    pub names_before: Seq<u16>,
    pub bytes: Seq<u8>,
    pub notes: Seq<Seq<char>>,
    pub overlaps: Option<ReportView>,
}

pub open spec fn report_view(report: Option<OverlapReport>) -> Option<ReportView> {
    match report {
        Some(r) => Some(r@),
        None => None,
    }
}

impl View for SliceRun {
    type V = RunView;

    open spec fn view(&self) -> RunView {
        RunView {
            action: self.action,
            remove_overlaps: self.remove_overlaps,
            plans: plan_views(self.plans@),
            instancing: self.instancing,
            positioning: self.positioning,
            names_before: self.names_before@,
            bytes: self.bytes@,
            notes: text_views(self.notes@),
            overlaps: report_view(self.overlaps),
        }
    }
}

/// How a job starts on a font with these axes.
pub open spec fn started(
    data: Seq<u8>,
    axes: Seq<AxisView>,
    limits: Seq<AxisLimit>,
    remove_overlaps: bool,
) -> RunView {
    let font = tables_in(data);
    RunView {
        action: Action::Cut,
        remove_overlaps,
        plans: plans_for(axes, limits),
        instancing: instancing_for(limits),
        positioning: has_variable_positioning(font),
        names_before: variation_ids(font),
        bytes: data,
        notes: Seq::empty(),
        overlaps: None,
    }
}

pub open spec fn note_if(condition: bool, note: Seq<char>) -> Seq<Seq<char>> {
    if condition {
        seq![note]
    } else {
        Seq::empty()
    }
}

/// A job after the font was cut. One whose design space stays as it is keeps its bytes.
pub open spec fn after_cut(
    run: RunView,
    bytes: Seq<u8>,
    shown: Seq<(Seq<char>, Seq<char>)>,
) -> RunView {
    RunView {
        action: Action::Resolve,
        bytes: if run.instancing == Instancing::Copy {
            run.bytes
        } else {
            bytes
        },
        notes: run.notes + instancing_note(run.instancing, run.plans, shown) + note_if(
            run.positioning,
            positioning_note(),
        ),
        ..run
    }
}

/// A job after the feature variations were resolved.
pub open spec fn after_resolving(run: RunView, bytes: Seq<u8>) -> RunView {
    RunView {
        action: if run.remove_overlaps {
            Action::RemoveOverlaps
        } else {
            Action::Finish
        },
        bytes,
        notes: run.notes + note_if(
            bytes.len() != run.bytes.len(),
            "Resolved feature variations"@,
        ),
        ..run
    }
}

/// A job after the overlaps were removed.
pub open spec fn after_simplifying(run: RunView, bytes: Seq<u8>, report: ReportView) -> RunView {
    RunView {
        action: Action::Finish,
        bytes,
        notes: run.notes.push("Overlaps: "@ + summary_text(report)),
        overlaps: Some(report),
        ..run
    }
}

/// A file in the container that was asked for.
pub open spec fn wrapped(file: Seq<u8>, format: OutputFormat) -> Result<Seq<u8>, Problem> {
    match format {
        OutputFormat::Sfnt => Ok(file),
        OutputFormat::Woff => match split_of(file) {
            Ok((flavor, tables)) => Ok(woff_bytes(flavor, tables)),
            Err(e) => Err(e),
        },
        OutputFormat::Woff2 => woff2_encoded(file),
    }
}

/// The font file after the Name Editor's changes.
pub open spec fn named_file(bytes: Seq<u8>, edits: Map<u16, Seq<char>>) -> Result<
    Seq<u8>,
    Problem,
> {
    apply_step(bytes, |font: Seq<TableView>| renamed_tables(font, edits))
}

/// The font file after the Bit Flag Editor's changes.
pub open spec fn flagged_file(bytes: Seq<u8>, bits: BitFlags) -> Result<Seq<u8>, Problem> {
    apply_step(bytes, |font: Seq<TableView>| flagged_tables(font, bits))
}

/// The font file after everything that depends on the final outlines was recalculated.
pub open spec fn finalized_file(bytes: Seq<u8>, o: FinalizeView) -> Result<Seq<u8>, Problem> {
    apply_step(bytes, |font: Seq<TableView>| finalized_tables(font, o))
}

/// The font file that a job ends with, before it is wrapped. The editor changes are applied
/// last, so that they survive everything else.
pub open spec fn edited_file(
    bytes: Seq<u8>,
    edits: Map<u16, Seq<char>>,
    bits: BitFlags,
    o: FinalizeView,
) -> Result<Seq<u8>, Problem> {
    match named_file(bytes, edits) {
        Err(e) => Err(e),
        Ok(named) => match flagged_file(named, bits) {
            Err(e) => Err(e),
            Ok(flagged) => finalized_file(flagged, o),
        },
    }
}

pub open spec fn finished_file(
    bytes: Seq<u8>,
    edits: Map<u16, Seq<char>>,
    bits: BitFlags,
    o: FinalizeView,
    format: OutputFormat,
) -> Result<Seq<u8>, Problem> {
    match edited_file(bytes, edits, bits, o) {
        Err(e) => Err(e),
        Ok(file) => wrapped(file, format),
    }
}

impl SliceJob {
    /// A job that changes nothing, ready to be filled in from the editors.
    pub fn new(font: &SliceFont) -> (r: Result<SliceJob, SliceError>)
        ensures
            match font_tables(font@) {
                Ok(tables) => match r {
                    Ok(job) => {
                        &&& axis_records(tables) matches Ok(records) && job.limits@ == Seq::new(
                            records.len(),
                            |i: int| AxisLimit::Full,
                        )
                        &&& job.names@ == rows_in(font_names(tables), NAME_EDITOR_IDS@)
                        &&& job.bits == flags_in(tables)
                        &&& !job.remove_overlaps
                        &&& job.format == OutputFormat::Sfnt
                    },
                    Err(e) => axis_records(tables) == Err::<Seq<AxisRecord>, Problem>(e@),
                },
                Err(e) => r matches Err(got) && got@ == e,
            },
    {
        let axes: Vec<AxisSpec> = match font.axes() {
            Ok(axes) => axes,
            Err(e) => {
                return Err(e);
            },
        };
        let mut limits: Vec<AxisLimit> = Vec::new();
        for i in 0..axes.len()
            invariant
                limits@ == Seq::new(i as nat, |i: int| AxisLimit::Full),
        {
            limits.push(AxisLimit::Full);
            assert(limits@ =~= Seq::new((i + 1) as nat, |i: int| AxisLimit::Full));
        }
        Ok(
            SliceJob {
                limits,
                names: font.name_edits(),
                bits: font.bit_flags(),
                remove_overlaps: false,
                format: OutputFormat::Sfnt,
            },
        )
    }

    /// Check the job against the font.
    ///
    /// Returns the validated limits paired with their axes.
    pub fn validate<'a>(&self, axes: &'a Vec<AxisSpec>) -> (r: Result<
        Vec<(&'a AxisSpec, AxisLimit)>,
        SliceError,
    >)
        ensures
            match r {
                Ok(pairs) => {
                    &&& job_problem(axis_views(axes@), self.limits@, self.remove_overlaps) is None
                    &&& pairs@.len() == axes@.len()
                    &&& forall|i: int|
                        0 <= i < pairs@.len() ==> *(#[trigger] pairs@[i]).0 == axes@[i]
                            && pairs@[i].1 == self.limits@[i]
                },
                Err(e) => job_problem(axis_views(axes@), self.limits@, self.remove_overlaps)
                    == Some(e@),
            },
    {
        let ghost views = axis_views(axes@);
        if self.limits.len() != axes.len() {
            return Err(
                SliceError::Unsupported(
                    "the job describes ".to_owned().concat(
                        decimal_of(self.limits.len() as u64).as_str(),
                    ).concat(" axes but the font has ").concat(
                        decimal_of(axes.len() as u64).as_str(),
                    ),
                ),
            );
        }
        let mut validated: Vec<(&'a AxisSpec, AxisLimit)> = Vec::new();
        for i in 0..axes.len()
            invariant
                views == axis_views(axes@),
                axes@.len() == self.limits@.len(),
                validated@.len() == i,
                first_limit_problem(views, self.limits@, i as int) is None,
                forall|k: int|
                    0 <= k < i ==> *(#[trigger] validated@[k]).0 == axes@[k] && validated@[k].1
                        == self.limits@[k],
        {
            assert(views[i as int] == axes@[i as int]@);
            match axes[i].validate(self.limits[i]) {
                Ok(limit) => {
                    validated.push((&axes[i], limit));
                },
                Err(e) => {
                    proof {
                        lemma_problem_stays(
                            views,
                            self.limits@,
                            i + 1,
                            self.limits@.len() as int,
                        );
                    }
                    return Err(e);
                },
            }
        }
        if !restricts_any(&self.limits) && !self.remove_overlaps {
            return Err(SliceError::NothingToDo);
        }
        Ok(validated)
    }

    /// True when every axis is pinned, so the result is a static font.
    pub fn is_fully_pinned(&self) -> (r: bool)
        ensures
            r == all_pinned(self.limits@),
    {
        if self.limits.len() == 0 {
            return false;
        }
        for i in 0..self.limits.len()
            invariant
                forall|k: int| 0 <= k < i ==> (#[trigger] self.limits@[k]) is Pin,
        {
            if self.limits[i].keeps_axis() {
                assert(!(self.limits@[i as int] is Pin));
                return false;
            }
        }
        true
    }

    /// Start the job: check it against the font, and decide how the font is to be cut.
    pub fn run(&self, font: &SliceFont) -> (r: Result<SliceRun, SliceError>)
        ensures
            match font_tables(font@) {
                Err(e) => r matches Err(got) && got@ == e,
                Ok(tables) => match axis_records(tables) {
                    Err(e) => r matches Err(got) && got@ == e,
                    Ok(records) => exists|axes: Seq<AxisView>| #[trigger]
                        are_axes(axes, records, font_names(tables)) && match r {
                            Ok(run) => job_problem(axes, self.limits@, self.remove_overlaps)
                                is None && run@ == started(
                                font@,
                                axes,
                                self.limits@,
                                self.remove_overlaps,
                            ),
                            Err(e) => job_problem(axes, self.limits@, self.remove_overlaps)
                                == Some(e@),
                        },
                },
            },
    {
        let axes: Vec<AxisSpec> = match font.axes() {
            Ok(axes) => axes,
            Err(e) => {
                return Err(e);
            },
        };
        let ghost views = axis_views(axes@);
        match self.validate(&axes) {
            Ok(_) => {},
            Err(e) => {
                return Err(e);
            },
        }
        let tables: Vec<FontTable> = match font.font_ref() {
            Ok(tables) => tables,
            Err(e) => {
                return Err(e);
            },
        };
        let instancing: Instancing = if self.is_fully_pinned() {
            Instancing::Static
        } else if restricts_any(&self.limits) {
            Instancing::Partial
        } else {
            Instancing::Copy
        };
        let data: &[u8] = font.data();
        let mut bytes: Vec<u8> = Vec::new();
        push_all(&mut bytes, data);
        let run: SliceRun = SliceRun {
            action: Action::Cut,
            remove_overlaps: self.remove_overlaps,
            plans: plan_axes(&axes, &self.limits),
            instancing,
            positioning: variable_positioning(&tables),
            names_before: variation_name_ids(&tables),
            bytes,
            notes: Vec::new(),
            overlaps: None,
        };
        proof {
            assert(axis_views(axes@).len() == axes@.len());
            assert(run@ =~= started(font@, views, self.limits@, self.remove_overlaps));
        }
        Ok(run)
    }
}

proof fn lemma_problem_stays(axes: Seq<AxisView>, limits: Seq<AxisLimit>, n: int, m: int)
    requires
        0 <= n <= m,
        first_limit_problem(axes, limits, n) is Some,
    ensures
        first_limit_problem(axes, limits, m) == first_limit_problem(axes, limits, n),
    decreases m,
{
    if n < m {
        lemma_problem_stays(axes, limits, n, m - 1);
    }
}

impl SliceRun {
    /// What is to be done next.
    pub fn next(&self) -> (action: Action)
        ensures
            action == self@.action,
    {
        self.action
    }

    /// The font has been cut, and this is what came of it. A font that is only copied stays
    /// as it was, whatever it is handed. The ends of the extent of each axis are written as
    /// in `shown`.
    pub fn instanced(&mut self, bytes: Vec<u8>, shown: &Vec<(String, String)>)
        requires
            old(self)@.action == Action::Cut,
            shown@.len() == old(self).plans@.len(),
        ensures
            final(self)@ == after_cut(old(self)@, bytes@, shown_views(shown@)),
    {
        let ghost before = self@;
        match self.instancing {
            Instancing::Static => {
                let text: String = "Pinned ".to_owned().concat(
                    show_axes(&self.plans, shown).as_str(),
                );
                push_note(&mut self.notes, text);
            },
            Instancing::Partial => {
                let text: String = "Restricted design space to ".to_owned().concat(
                    show_axes(&self.plans, shown).as_str(),
                );
                push_note(&mut self.notes, text);
            },
            Instancing::Copy => {},
        }
        let ghost own = instancing_note(before.instancing, before.plans, shown_views(shown@));
        assert(text_views(self.notes@) =~= before.notes + own);
        if self.positioning {
            push_note(
                &mut self.notes,
                "Note: this font has variable kerning or anchors (a GDEF item variation store), which this build does not apply. Positioning comes out at the default location.".to_owned(),
            );
        }
        assert(text_views(self.notes@) =~= before.notes + own + note_if(
            before.positioning,
            positioning_note(),
        ));
        match self.instancing {
            Instancing::Copy => {},
            _ => {
                self.bytes = bytes;
            },
        }
        self.action = Action::Resolve;
    }

    /// The feature variations have been resolved.
    pub fn resolved(&mut self, bytes: Vec<u8>)
        requires
            old(self)@.action == Action::Resolve,
        ensures
            final(self)@ == after_resolving(old(self)@, bytes@),
    {
        let ghost before = self@;
        if bytes.len() != self.bytes.len() {
            push_note(&mut self.notes, "Resolved feature variations".to_owned());
        }
        assert(text_views(self.notes@) =~= before.notes + note_if(
            bytes@.len() != before.bytes.len(),
            "Resolved feature variations"@,
        ));
        self.bytes = bytes;
        self.action = if self.remove_overlaps {
            Action::RemoveOverlaps
        } else {
            Action::Finish
        };
    }

    /// The overlaps have been removed.
    pub fn simplified(&mut self, bytes: Vec<u8>, report: OverlapReport)
        requires
            old(self)@.action == Action::RemoveOverlaps,
        ensures
            final(self)@ == after_simplifying(old(self)@, bytes@, report@),
    {
        push_note(&mut self.notes, "Overlaps: ".to_owned().concat(report.summary().as_str()));
        self.overlaps = Some(report);
        self.bytes = bytes;
        self.action = Action::Finish;
    }

    /// Apply the editor changes, recalculate what depends on the final outlines, and wrap
    /// the result. What the location says of the font's weight, width and slant stands in
    /// the arguments.
    pub fn finish(
        self,
        job: &SliceJob,
        weight_class: Option<u16>,
        width_class: Option<u16>,
        italic_angle: Option<i32>,
    ) -> (r: Result<SliceOutput, SliceError>)
        requires
            self@.action == Action::Finish,
        ensures
            ({
                let o = FinalizeView {
                    weight_class,
                    width_class,
                    italic_angle,
                    variation_name_ids_before: self@.names_before,
                };
                let file = finished_file(self@.bytes, job.names@, job.bits, o, job.format);
                match r {
                    Ok(out) => {
                        &&& file == Ok::<Seq<u8>, Problem>(out.bytes@)
                        &&& text_views(out.notes@) == self@.notes + seq![
                            "Applied name records and bit flags"@,
                            "Recalculated metrics and pruned unused name records"@,
                        ] + format_note(job.format)
                        &&& report_view(out.overlaps) == self@.overlaps
                        &&& is_marked(
                            edited_file(self@.bytes, job.names@, job.bits, o)->Ok_0,
                            self@.bytes,
                            job.names@,
                            job.bits,
                            self@.names_before,
                        )
                        &&& job.format == OutputFormat::Woff ==> inflates_again(
                            edited_file(self@.bytes, job.names@, job.bits, o)->Ok_0,
                        )
                    },
                    Err(e) => file == Err::<Seq<u8>, Problem>(e@),
                }
            }),
    {
        let ghost run = self@;
        let named: Vec<u8> = match apply_names(self.bytes.as_slice(), &job.names) {
            Ok(bytes) => bytes,
            Err(e) => {
                return Err(e);
            },
        };
        let flagged: Vec<u8> = match apply_bits(named.as_slice(), job.bits) {
            Ok(bytes) => bytes,
            Err(e) => {
                return Err(e);
            },
        };
        let mut notes: Vec<String> = self.notes;
        push_note(&mut notes, "Applied name records and bit flags".to_owned());
        let options: Finalize = Finalize {
            weight_class,
            width_class,
            italic_angle,
            variation_name_ids_before: self.names_before,
        };
        let done: Vec<u8> = match finalize(flagged.as_slice(), &options) {
            Ok(bytes) => bytes,
            Err(e) => {
                return Err(e);
            },
        };
        push_note(
            &mut notes,
            "Recalculated metrics and pruned unused name records".to_owned(),
        );
        proof {
            lemma_renamed_have_text(font_names(tables_in(run.bytes)), job.names@);
        }
        let bytes: Vec<u8> = match job.format {
            OutputFormat::Sfnt => done,
            OutputFormat::Woff => match encode_woff(done.as_slice()) {
                Ok(bytes) => {
                    push_note(&mut notes, "Wrapped as WOFF".to_owned());
                    bytes
                },
                Err(e) => {
                    return Err(e);
                },
            },
            OutputFormat::Woff2 => match encode_woff2(done.as_slice()) {
                Ok(bytes) => {
                    push_note(&mut notes, "Wrapped as WOFF2".to_owned());
                    bytes
                },
                Err(e) => {
                    return Err(e);
                },
            },
        };
        assert(text_views(notes@) =~= run.notes + seq![
            "Applied name records and bit flags"@,
            "Recalculated metrics and pruned unused name records"@,
        ] + format_note(job.format));
        Ok(SliceOutput { bytes, notes, overlaps: self.overlaps })
    }
}

// ---------------------------------------------------------------------------------- laws

/// True when a font file carries the editor changes that were made to another: its name
/// records are the edited ones, without those that are dead, its flags are the edited ones,
/// its design space and the number of its glyphs are the same, and it can be loaded, as the
/// font of the tables that it lists.
pub open spec fn is_marked(
    file: Seq<u8>,
    source: Seq<u8>,
    edits: Map<u16, Seq<char>>,
    bits: BitFlags,
    names_before: Seq<u16>,
) -> bool {
    let named = named_file(source, edits)->Ok_0;
    let flagged = flagged_file(named, bits)->Ok_0;
    &&& font_names(tables_in(file)) == without_ids(
        renamed(font_names(tables_in(source)), edits),
        dead_ids(names_before, variation_ids(tables_in(flagged))),
    )
    &&& flags_in(tables_in(file)) == written_flags(tables_in(named), bits)
    &&& frame_in(file) == frame_in(source)
    &&& loaded(file) == Ok::<Seq<u8>, Problem>(file)
    &&& opens_as_listed(file)
}

/// True when the tables of a font file are what they were once they were deflated and
/// inflated.
pub open spec fn inflates_again(file: Seq<u8>) -> bool {
    split_of(file) matches Ok((_, tables)) && inflate_again(tables)
}

/// What came of the steps that a job hands out: the font after it was cut, after its feature
/// variations were resolved, and after its overlaps were removed.
#[verifier::ext_equal]
pub struct Results {
    pub cut: Seq<u8>,
    /// The extents that the axes were cut to, in units of 1/65536.
    pub extents: Seq<(i32, i32, i32)>,
    pub shown: Seq<(Seq<char>, Seq<char>)>,
    pub resolved: Seq<u8>,
    pub simplified: Seq<u8>,
    pub report: ReportView,
}

/// A job after all its steps, each with its result: overlaps are removed where it says so.
pub open spec fn ended(start: RunView, r: Results) -> RunView {
    let resolved = after_resolving(after_cut(start, r.cut, r.shown), r.resolved);
    if resolved.action == Action::RemoveOverlaps {
        after_simplifying(resolved, r.simplified, r.report)
    } else {
        resolved
    }
}

/// True when the results are what the functions of this library state of theirs: a static
/// instance has no design space, a restricted font has the axes that are left, both have as
/// many glyphs as before, resolving feature variations touches none of that, and removing
/// overlaps changes nothing but outlines.
pub open spec fn are_results(start: RunView, r: Results) -> bool {
    let cut = after_cut(start, r.cut, r.shown);
    let font = tables_in(start.bytes);
    &&& match start.instancing {
        Instancing::Static => frame_in(r.cut) == (None::<Seq<u8>>, glyph_total(font)),
        Instancing::Partial => {
            &&& frame_in(r.cut).1 == glyph_total(font)
            &&& axis_records(tables_in(r.cut)) == Ok::<Seq<AxisRecord>, Problem>(
                left_axes(font, start.plans, r.extents),
            )
        },
        Instancing::Copy => true,
    }
    &&& frame_in(r.resolved) == frame_in(cut.bytes)
    &&& after_resolving(cut, r.resolved).action == Action::RemoveOverlaps ==> only_outlines_differ(
        tables_in(r.resolved),
        tables_in(r.simplified),
    )
}

/// The axes that the output of a job has: none where every axis is pinned, and otherwise
/// those that are not, in order, with the extents that they were cut to.
pub open spec fn output_axes(
    data: Seq<u8>,
    axes: Seq<AxisView>,
    limits: Seq<AxisLimit>,
    extents: Seq<(i32, i32, i32)>,
) -> Result<Seq<AxisRecord>, Problem> {
    match instancing_for(limits) {
        Instancing::Static => Err(Problem::NotVariable),
        Instancing::Partial => Ok(left_axes(tables_in(data), plans_for(axes, limits), extents)),
        Instancing::Copy => axis_records(tables_in(data)),
    }
}

/// A job takes its steps in order and does what was asked. The font that it ends with can be
/// loaded; its axes are those that are not pinned, in order, with their new extents, and it is
/// variable exactly where there are any; it has as many glyphs as the one that went in. There
/// is a report on overlaps exactly where their removal was asked for, and a font whose design
/// space stays as it is goes uncut into what follows.
pub proof fn a_job_does_what_was_asked(
    data: Seq<u8>,
    axes: Seq<AxisView>,
    limits: Seq<AxisLimit>,
    remove_overlaps: bool,
    r: Results,
    file: Seq<u8>,
    edits: Map<u16, Seq<char>>,
    bits: BitFlags,
)
    requires
        axis_records(tables_in(data)) is Ok,
        are_results(started(data, axes, limits, remove_overlaps), r),
        is_marked(
            file,
            ended(started(data, axes, limits, remove_overlaps), r).bytes,
            edits,
            bits,
            started(data, axes, limits, remove_overlaps).names_before,
        ),
    ensures
        ({
            let start = started(data, axes, limits, remove_overlaps);
            let cut = after_cut(start, r.cut, r.shown);
            let resolved = after_resolving(cut, r.resolved);
            let end = ended(start, r);
            &&& start.action == Action::Cut
            &&& cut.action == Action::Resolve
            &&& resolved.action == if remove_overlaps {
                Action::RemoveOverlaps
            } else {
                Action::Finish
            }
            &&& end.action == Action::Finish
            &&& end.overlaps is Some <==> remove_overlaps
            &&& !all_pinned(limits) && !any_restriction(limits) ==> cut.bytes == data
            &&& loaded(file) == Ok::<Seq<u8>, Problem>(file)
            &&& axis_records(tables_in(file)) == output_axes(data, axes, limits, r.extents)
            &&& fvar_in(file) is Some <==> !all_pinned(limits)
            &&& glyph_total(tables_in(file)) == glyph_total(tables_in(data))
        }),
{
    let (a, b) = (tables_in(r.resolved), tables_in(r.simplified));
    if remove_overlaps {
        assert(table_bytes(b, FVAR) == table_bytes(a, FVAR));
        assert(table_bytes(b, MAXP) == table_bytes(a, MAXP));
    }
}

/// True when a font file is within the limits of the container that it comes in: WOFF counts
/// in 32 bits and holds no table of more than 256 MiB, and WOFF2 is as its decoder asks.
pub open spec fn is_within_limits(file: Seq<u8>, out: Seq<u8>, format: OutputFormat) -> bool {
    match format {
        OutputFormat::Sfnt => true,
        OutputFormat::Woff => split_of(file) matches Ok((_, tables)) && is_woff_sized(tables),
        OutputFormat::Woff2 => comes_back(file, out),
    }
}

/// Whatever container it comes in, the output holds the font that the job ended with:
/// [`SliceFont::load`] reads the tables of that font from it, and so its axes, its names and
/// the number of its glyphs.
pub proof fn the_output_holds_its_font(
    file: Seq<u8>,
    source: Seq<u8>,
    edits: Map<u16, Seq<char>>,
    bits: BitFlags,
    names_before: Seq<u16>,
    format: OutputFormat,
    read: Seq<u8>,
)
    requires
        is_marked(file, source, edits, bits, names_before),
        wrapped(file, format) is Ok,
        is_within_limits(file, wrapped(file, format)->Ok_0, format),
        format == OutputFormat::Woff ==> inflates_again(file),
    ensures
        holds_font(wrapped(file, format)->Ok_0, file),
        same_contents(tables_in(file), tables_in(read)) ==> {
            &&& frame_in(read) == frame_in(file)
            &&& axis_records(tables_in(read)) == axis_records(tables_in(file))
            &&& font_names(tables_in(read)) == font_names(tables_in(file))
        },
{
    if same_contents(tables_in(file), tables_in(read)) {
        let (a, b) = (tables_in(file), tables_in(read));
        assert(table_bytes(a, FVAR) == table_bytes(b, FVAR));
        assert(table_bytes(a, MAXP) == table_bytes(b, MAXP));
        assert(table_bytes(a, NAME) == table_bytes(b, NAME));
    }
}

/// The output comes in the container that was asked for.
pub proof fn the_output_is_wrapped_as_asked(file: Seq<u8>, format: OutputFormat)
    requires
        wrapped(file, format) is Ok,
    ensures
        ({
            let out = wrapped(file, format)->Ok_0;
            match format {
                OutputFormat::Sfnt => out == file,
                OutputFormat::Woff => out.len() >= 44 && starts_with(out, woff_signature()),
                OutputFormat::Woff2 => out.len() >= 48 && starts_with(out, woff2_signature()),
            }
        }),
{
    match format {
        OutputFormat::Sfnt => {},
        OutputFormat::Woff => {
            let (flavor, tables) = split_of(file)->Ok_0;
            crate::sfnt::lemma_split_count(file);
            crate::woff::a_woff_starts_with_its_signature(flavor, tables);
        },
        OutputFormat::Woff2 => {
            crate::woff2::a_woff2_starts_with_its_signature(file);
        },
    }
}

proof fn lemma_renamed_have_text(records: Seq<NameView>, edits: Map<u16, Seq<char>>)
    ensures
        all_have_text(renamed(records, edits)),
{
    let out = renamed(records, edits);
    assert forall|i: int| 0 <= i < out.len() implies (#[trigger] out[i]).text is Some by {
        assert(out.contains(out[i]));
        crate::apply::lemma_renamed_record(records, edits, out[i]);
    }
}

/// The text of a row that is written reaches the output, and is what the output shows for
/// its ID: no name of the Name Editor is ever pruned.
pub proof fn name_edits_reach_the_output(
    file: Seq<u8>,
    source: Seq<u8>,
    edits: Map<u16, Seq<char>>,
    bits: BitFlags,
    before: Seq<TableView>,
    id: u16,
)
    requires
        is_marked(file, source, edits, bits, variation_ids(before)),
        MANDATORY_IDS@.contains(id) || (OPTIONAL_IDS@.contains(id) && text_of(edits, id).len() > 0),
    ensures
        name_text(font_names(tables_in(file)), id) == Some(text_of(edits, id)),
{
    let records = font_names(tables_in(source));
    let named = named_file(source, edits)->Ok_0;
    let flagged = flagged_file(named, bits)->Ok_0;
    let dead = dead_ids(variation_ids(before), variation_ids(tables_in(flagged)));
    only_dead_names_are_pruned(before, tables_in(flagged), id);
    crate::names::lemma_editor_ids(id);
    crate::apply::lemma_edits_survive_pruning(records, edits, dead, id);
}

/// A cleared optional row leaves no edited record in the output.
pub proof fn cleared_rows_leave_the_output(
    file: Seq<u8>,
    source: Seq<u8>,
    edits: Map<u16, Seq<char>>,
    bits: BitFlags,
    before: Seq<u16>,
    id: u16,
    r: NameView,
)
    requires
        is_marked(file, source, edits, bits, before),
        OPTIONAL_IDS@.contains(id),
        text_of(edits, id).len() == 0,
        font_names(tables_in(file)).contains(r),
    ensures
        !is_edited(r, id),
{
    let all = renamed(font_names(tables_in(source)), edits);
    let named = named_file(source, edits)->Ok_0;
    let flagged = flagged_file(named, bits)->Ok_0;
    let dead = dead_ids(before, variation_ids(tables_in(flagged)));
    all.lemma_filter_contains_rev(|r: NameView| !dead.contains(r.name_id), r);
    cleared_rows_are_deleted(font_names(tables_in(source)), edits, id, r);
}

/// Removing overlaps is a real request: a job that asks for it is never refused for asking
/// for the design space the font already has. Any other job is, unless it restricts an axis.
pub proof fn only_idle_jobs_have_nothing_to_do(
    axes: Seq<AxisView>,
    limits: Seq<AxisLimit>,
    remove_overlaps: bool,
)
    ensures
        job_problem(axes, limits, remove_overlaps) == Some(Problem::NothingToDo) <==> limits.len()
            == axes.len() && !remove_overlaps && forall|i: int|
            0 <= i < limits.len() ==> (#[trigger] limits[i]) is Full,
{
    lemma_limit_problems(axes, limits, limits.len() as int);
    if forall|i: int| 0 <= i < limits.len() ==> (#[trigger] limits[i]) is Full {
        lemma_full_is_fine(axes, limits, limits.len() as int);
    }
}

proof fn lemma_limit_problems(axes: Seq<AxisView>, limits: Seq<AxisLimit>, n: int)
    ensures
        first_limit_problem(axes, limits, n) != Some(Problem::NothingToDo),
    decreases n,
{
    if n > 0 {
        lemma_limit_problems(axes, limits, n - 1);
    }
}

proof fn lemma_full_is_fine(axes: Seq<AxisView>, limits: Seq<AxisLimit>, n: int)
    requires
        n <= limits.len(),
        forall|i: int| 0 <= i < limits.len() ==> (#[trigger] limits[i]) is Full,
    ensures
        first_limit_problem(axes, limits, n) is None,
    decreases n,
{
    if n > 0 {
        lemma_full_is_fine(axes, limits, n - 1);
    }
}

/// The flags of the Bit Flag Editor reach the output, without the bits that have no meaning.
pub proof fn bit_flags_reach_the_output(
    file: Seq<u8>,
    source: Seq<u8>,
    edits: Map<u16, Seq<char>>,
    bits: BitFlags,
    before: Seq<u16>,
)
    requires
        is_marked(file, source, edits, bits, before),
    ensures
        flags_in(tables_in(file)).mac_style == bits.mac_style & crate::fields::MAC_STYLE_BITS,
        crate::apply::has_readable_os2(tables_in(named_file(source, edits)->Ok_0)) ==> flags_in(
            tables_in(file),
        ).fs_selection == bits.fs_selection & crate::fields::FS_SELECTION_BITS,
{
}

} // verus!
