//! Everything that can go wrong between opening a font and writing one out.
use vstd::prelude::*;

verus! {

/// What went wrong. The wording of the axis-related messages is the wording users of
/// Slice know.
///
/// Axis coordinates are carried as the bits of an IEEE 754 double, which is how
/// [`crate::axes`] holds them.
#[derive(Debug)]
#[allow(inconsistent_fields)]
pub enum SliceError {
    /// The file could not be read as a font.
    Read(String),
    /// The font could not be written.
    Write(String),
    /// There is no `fvar` table.
    NotVariable,
    /// An axis entry is not a number.
    AxisValue { value: String, axis: String },
    /// An axis entry is not a range.
    AxisRange { value: String, axis: String },
    /// A pinned value lies outside the axis.
    AxisValueOutOfRange { axis: String, value: u64, min: u64, max: u64 },
    /// A range is not contained in the axis.
    AxisRangeOutOfRange { axis: String, min: u64, max: u64, axis_min: u64, axis_max: u64 },
    /// A range leaves out the default of the axis.
    DefaultOutsideRange { axis: String, min: u64, max: u64, default: u64 },
    /// The request moves the default of an axis.
    DefaultMoveUnsupported { axis: String },
    /// The font has no such axis.
    UnknownAxis { axis: String },
    /// The request asks for the design space the font already has.
    NothingToDo,
    /// The overlaps of one glyph could not be removed.
    RemoveOverlaps { glyph: String, reason: String },
    /// The font or the request holds something that is not supported.
    Unsupported(String),
}

/// What a [`SliceError`] says, with its texts as sequences of characters.
#[allow(inconsistent_fields)]
pub enum Problem {
    Read(Seq<char>),
    Write(Seq<char>),
    NotVariable,
    AxisValue { value: Seq<char>, axis: Seq<char> },
    AxisRange { value: Seq<char>, axis: Seq<char> },
    AxisValueOutOfRange { axis: Seq<char>, value: u64, min: u64, max: u64 },
    AxisRangeOutOfRange { axis: Seq<char>, min: u64, max: u64, axis_min: u64, axis_max: u64 },
    DefaultOutsideRange { axis: Seq<char>, min: u64, max: u64, default: u64 },
    DefaultMoveUnsupported { axis: Seq<char> },
    UnknownAxis { axis: Seq<char> },
    NothingToDo,
    RemoveOverlaps { glyph: Seq<char>, reason: Seq<char> },
    Unsupported(Seq<char>),
}

impl View for SliceError {
    type V = Problem;

    open spec fn view(&self) -> Problem {
        match *self {
            SliceError::Read(text) => Problem::Read(text@),
            SliceError::Write(text) => Problem::Write(text@),
            SliceError::NotVariable => Problem::NotVariable,
            SliceError::AxisValue { value, axis } => Problem::AxisValue {
                value: value@,
                axis: axis@,
            },
            SliceError::AxisRange { value, axis } => Problem::AxisRange {
                value: value@,
                axis: axis@,
            },
            SliceError::AxisValueOutOfRange { axis, value, min, max } => {
                Problem::AxisValueOutOfRange { axis: axis@, value, min, max }
            },
            SliceError::AxisRangeOutOfRange { axis, min, max, axis_min, axis_max } => {
                Problem::AxisRangeOutOfRange { axis: axis@, min, max, axis_min, axis_max }
            },
            SliceError::DefaultOutsideRange { axis, min, max, default } => {
                Problem::DefaultOutsideRange { axis: axis@, min, max, default }
            },
            SliceError::DefaultMoveUnsupported { axis } => Problem::DefaultMoveUnsupported {
                axis: axis@,
            },
            SliceError::UnknownAxis { axis } => Problem::UnknownAxis { axis: axis@ },
            SliceError::NothingToDo => Problem::NothingToDo,
            SliceError::RemoveOverlaps { glyph, reason } => Problem::RemoveOverlaps {
                glyph: glyph@,
                reason: reason@,
            },
            SliceError::Unsupported(text) => Problem::Unsupported(text@),
        }
    }
}

/// A [`SliceError::Read`] with a fixed text.
pub fn read_error(text: &str) -> (e: SliceError)
    ensures
        e@ == Problem::Read(text@),
{
    SliceError::Read(text.to_owned())
}

/// A [`SliceError::Write`] with a fixed text.
pub fn write_error(text: &str) -> (e: SliceError)
    ensures
        e@ == Problem::Write(text@),
{
    SliceError::Write(text.to_owned())
}

/// A [`SliceError::Unsupported`] with a fixed text.
pub fn unsupported(text: &str) -> (e: SliceError)
    ensures
        e@ == Problem::Unsupported(text@),
{
    SliceError::Unsupported(text.to_owned())
}

/// The coordinates that a message shows, in the order in which it shows them.
pub open spec fn shown_coordinates(e: Problem) -> Seq<u64> {
    match e {
        Problem::AxisValueOutOfRange { value, min, max, .. } => seq![value, min, max],
        Problem::AxisRangeOutOfRange { min, max, axis_min, axis_max, .. } => {
            seq![min, max, axis_min, axis_max]
        },
        Problem::DefaultOutsideRange { min, max, default, .. } => seq![min, max, default],
        _ => Seq::empty(),
    }
}

/// The message for `e`, with its coordinates written as in `shown`.
pub open spec fn wording(e: Problem, shown: Seq<Seq<char>>) -> Seq<char> {
    match e {
        Problem::Read(text) => "the file could not be read as a font: "@ + text,
        Problem::Write(text) => "the font could not be written: "@ + text,
        Problem::NotVariable =>
        "The font is missing the OpenType fvar table and is not recognized as a variable font. Please try again with a font that includes the fvar table."@,
        Problem::AxisValue { value, axis } => "'"@ + value + "' is not a valid "@ + axis
            + " axis value. Please enter a single numeric value and try again."@,
        Problem::AxisRange { value, axis } => value + " is not a valid axis range definition for "@
            + axis + "."@,
        Problem::AxisValueOutOfRange { axis, .. } => "The "@ + axis + " value "@ + shown[0]
            + " is outside the axis range "@ + shown[1] + " to "@ + shown[2]
            + " supported by this font."@,
        Problem::AxisRangeOutOfRange { axis, .. } => "The "@ + axis + " range "@ + shown[0] + ":"@
            + shown[1] + " is not contained in the axis range "@ + shown[2] + " to "@ + shown[3]
            + " supported by this font."@,
        Problem::DefaultOutsideRange { axis, .. } => "The "@ + axis + " range "@ + shown[0] + ":"@
            + shown[1] + " does not include the default axis value ("@ + shown[2]
            + ").  This is currently a requirement."@,
        Problem::DefaultMoveUnsupported { axis } => "Moving the default location of the "@ + axis
            + " axis (Level 4 sub-spacing) is not supported yet. Drop the [default] part of the range and try again."@,
        Problem::UnknownAxis { axis } => "the font has no axis named "@ + axis,
        Problem::NothingToDo =>
        "You requested the same design space that is supported in the font that you are processing. Please define at least one axis location or restricted axis range."@,
        Problem::RemoveOverlaps { glyph, reason } => "failed to remove overlaps from glyph "@
            + glyph + ": "@ + reason,
        Problem::Unsupported(text) => text,
    }
}

pub open spec fn text_views(texts: Seq<String>) -> Seq<Seq<char>> {
    texts.map_values(|t: String| t@)
}

impl SliceError {
    /// The bits of the coordinates that the message shows, in its order.
    pub fn coordinates(&self) -> (r: Vec<u64>)
        ensures
            r@ == shown_coordinates(self@),
    {
        let mut out: Vec<u64> = Vec::new();
        match self {
            SliceError::AxisValueOutOfRange { value, min, max, .. } => {
                out.push(*value);
                out.push(*min);
                out.push(*max);
            },
            SliceError::AxisRangeOutOfRange { min, max, axis_min, axis_max, .. } => {
                out.push(*min);
                out.push(*max);
                out.push(*axis_min);
                out.push(*axis_max);
            },
            SliceError::DefaultOutsideRange { min, max, default, .. } => {
                out.push(*min);
                out.push(*max);
                out.push(*default);
            },
            _ => {},
        }
        assert(out@ =~= shown_coordinates(self@));
        out
    }

    /// The message, with the [`SliceError::coordinates`] written as in `shown`.
    pub fn message(&self, shown: &Vec<String>) -> (r: String)
        requires
            shown@.len() == shown_coordinates(self@).len(),
        ensures
            r@ == wording(self@, text_views(shown@)),
    {
        match self {
            SliceError::Read(text) => "the file could not be read as a font: ".to_owned().concat(
                text.as_str(),
            ),
            SliceError::Write(text) => "the font could not be written: ".to_owned().concat(
                text.as_str(),
            ),
            SliceError::NotVariable =>
            "The font is missing the OpenType fvar table and is not recognized as a variable font. Please try again with a font that includes the fvar table.".to_owned(),
            SliceError::AxisValue { value, axis } => "'".to_owned().concat(value.as_str()).concat(
                "' is not a valid ",
            ).concat(axis.as_str()).concat(
                " axis value. Please enter a single numeric value and try again.",
            ),
            SliceError::AxisRange { value, axis } => value.as_str().to_owned().concat(
                " is not a valid axis range definition for ",
            ).concat(axis.as_str()).concat("."),
            SliceError::AxisValueOutOfRange { axis, .. } => "The ".to_owned().concat(
                axis.as_str(),
            ).concat(" value ").concat(shown[0].as_str()).concat(
                " is outside the axis range ",
            ).concat(shown[1].as_str()).concat(" to ").concat(shown[2].as_str()).concat(
                " supported by this font.",
            ),
            SliceError::AxisRangeOutOfRange { axis, .. } => "The ".to_owned().concat(
                axis.as_str(),
            ).concat(" range ").concat(shown[0].as_str()).concat(":").concat(
                shown[1].as_str(),
            ).concat(" is not contained in the axis range ").concat(shown[2].as_str()).concat(
                " to ",
            ).concat(shown[3].as_str()).concat(" supported by this font."),
            SliceError::DefaultOutsideRange { axis, .. } => "The ".to_owned().concat(
                axis.as_str(),
            ).concat(" range ").concat(shown[0].as_str()).concat(":").concat(
                shown[1].as_str(),
            ).concat(" does not include the default axis value (").concat(
                shown[2].as_str(),
            ).concat(").  This is currently a requirement."),
            SliceError::DefaultMoveUnsupported { axis } =>
            "Moving the default location of the ".to_owned().concat(axis.as_str()).concat(
                " axis (Level 4 sub-spacing) is not supported yet. Drop the [default] part of the range and try again.",
            ),
            SliceError::UnknownAxis { axis } => "the font has no axis named ".to_owned().concat(
                axis.as_str(),
            ),
            SliceError::NothingToDo =>
            "You requested the same design space that is supported in the font that you are processing. Please define at least one axis location or restricted axis range.".to_owned(),
            SliceError::RemoveOverlaps { glyph, reason } =>
            "failed to remove overlaps from glyph ".to_owned().concat(glyph.as_str()).concat(
                ": ",
            ).concat(reason.as_str()),
            SliceError::Unsupported(text) => text.as_str().to_owned(),
        }
    }
}

} // verus!
