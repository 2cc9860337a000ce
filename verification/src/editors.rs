//! The state of the editors, and the rules for keeping it consistent.
use vstd::prelude::*;

use crate::axes::{
    axis_views, entry_of, parse_axis_limit, AxisEntry, AxisSpec, AxisView, EntryView,
};
use crate::bits::BitFlags;
use crate::error::{text_views, Problem, SliceError};
use crate::font::{
    are_axes, axis_records, flags_in, font_names, has_fvar, loaded, name_text, rows_in, tables_in,
    version_text, SliceFont,
};
use crate::job::{extension_text, OutputFormat};
use crate::names::{NameEdits, NAME_EDITOR_IDS};
use crate::tables::font_tables;
use crate::text::{chars_of, copy_chars, decimal, decimal_of, join2, string_of};

verus! {

// -------------------------------------------------------------------------- opening a font

/// Why a font was not opened: a sentence, and the details behind it.
#[derive(Debug)]
pub struct OpenProblem {
    pub summary: &'static str,
    pub details: SliceError,
}

/// A font that was opened, and what fills the editors.
pub struct Opened {
    pub font: SliceFont,
    /// The font's axes, in `fvar` order.
    pub axes: Vec<AxisSpec>,
    /// The Axis Editor's raw text, one entry per axis. Kept as typed rather than parsed so
    /// an in-progress entry like `200:` is not thrown away mid-keystroke.
    pub axis_text: Vec<String>,
    pub names: NameEdits,
    pub bits: BitFlags,
    /// What the status bar says.
    pub status: String,
}

/// What the status bar says about a font that was opened.
pub open spec fn status_text(
    family: Option<Seq<char>>,
    version: Option<Seq<char>>,
    axes: nat,
) -> Seq<char> {
    (match family {
        Some(family) => family,
        None => "Unnamed"@,
    }) + " "@ + (match version {
        Some(version) => version,
        None => ""@,
    }) + " loaded ("@ + decimal(axes) + " "@ + (if axes == 1 {
        "axis"@
    } else {
        "axes"@
    }) + ")"@
}

pub open spec fn all_blank(texts: Seq<String>) -> bool {
    forall|i: int| 0 <= i < texts.len() ==> (#[trigger] texts[i])@.len() == 0
}

/// True for a font that was opened from these bytes, with all three editors filled in from
/// it.
pub open spec fn is_opened(o: Opened, data: Seq<u8>) -> bool {
    let tables = tables_in(data);
    let names = font_names(tables);
    &&& o.font@ == data
    &&& axis_records(tables) matches Ok(records) && are_axes(axis_views(o.axes@), records, names)
    &&& o.axis_text@.len() == o.axes@.len()
    &&& all_blank(o.axis_text@)
    &&& o.names@ == rows_in(names, NAME_EDITOR_IDS@)
    &&& o.bits == flags_in(tables)
    &&& o.status@ == status_text(
        name_text(names, 1),
        version_text(name_text(names, 5)),
        o.axes@.len(),
    )
}

/// What goes wrong when a font is opened.
pub open spec fn open_problem(data: Seq<u8>) -> Option<(Seq<char>, Problem)> {
    match loaded(data) {
        Err(e) => Some(
            (
                "An error was encountered during the attempt to load your font. See details below."@,
                e,
            ),
        ),
        Ok(bytes) => if !has_fvar(tables_in(bytes)) {
            Some(
                (
                    "The file does not appear to be a variable font. See details below."@,
                    Problem::NotVariable,
                ),
            )
        } else {
            match font_tables(bytes) {
                Err(e) => Some(("The font's axes could not be read."@, e)),
                Ok(tables) => match axis_records(tables) {
                    Err(e) => Some(("The font's axes could not be read."@, e)),
                    Ok(_) => None,
                },
            }
        },
    }
}

/// Take on a newly opened font, filling in all three editors.
pub fn load_font(data: Vec<u8>) -> (r: Result<Opened, OpenProblem>)
    ensures
        match r {
            Ok(o) => open_problem(data@) is None && is_opened(o, loaded(data@)->Ok_0),
            Err(p) => open_problem(data@) == Some((p.summary@, p.details@)),
        },
{
    let font: SliceFont = match SliceFont::load(data) {
        Ok(font) => font,
        Err(e) => {
            return Err(
                OpenProblem {
                    summary: "An error was encountered during the attempt to load your font. See details below.",
                    details: e,
                },
            );
        },
    };
    if !font.is_variable() {
        return Err(
            OpenProblem {
                summary: "The file does not appear to be a variable font. See details below.",
                details: SliceError::NotVariable,
            },
        );
    }
    let axes: Vec<AxisSpec> = match font.axes() {
        Ok(axes) => axes,
        Err(e) => {
            return Err(
                OpenProblem { summary: "The font's axes could not be read.", details: e },
            );
        },
    };
    let family: String = match font.family_name() {
        Some(family) => family,
        None => "Unnamed".to_owned(),
    };
    let version: String = match font.version() {
        Some(version) => version,
        None => "".to_owned(),
    };
    let unit: &str = if axes.len() == 1 {
        "axis"
    } else {
        "axes"
    };
    let status: String = family.concat(" ").concat(version.as_str()).concat(" loaded (").concat(
        decimal_of(axes.len() as u64).as_str(),
    ).concat(" ").concat(unit).concat(")");
    let mut axis_text: Vec<String> = Vec::new();
    for i in 0..axes.len()
        invariant
            axis_text@.len() == i,
            all_blank(axis_text@),
    {
        let blank: String = "".to_owned();
        proof {
            reveal_strlit("");
        }
        axis_text.push(blank);
    }
    let names: NameEdits = font.name_edits();
    let bits: BitFlags = font.bit_flags();
    Ok(Opened { font, axes, axis_text, names, bits, status })
}

// ------------------------------------------------------------------------ reading the cells

/// The text of a cell; a missing one is blank.
pub open spec fn cell_text(texts: Seq<Seq<char>>, i: int) -> Seq<char> {
    if 0 <= i < texts.len() {
        texts[i]
    } else {
        Seq::empty()
    }
}

/// The first problem among the cells of the first `n` axes.
pub open spec fn cell_problem(tags: Seq<Seq<char>>, texts: Seq<Seq<char>>, n: int) -> Option<
    Problem,
>
    decreases n,
{
    if n <= 0 {
        None
    } else {
        match cell_problem(tags, texts, n - 1) {
            Some(e) => Some(e),
            None => match entry_of(cell_text(texts, n - 1), tags[n - 1]) {
                Err(e) => Some(e),
                Ok(_) => None,
            },
        }
    }
}

proof fn lemma_cell_problem(tags: Seq<Seq<char>>, texts: Seq<Seq<char>>, n: int, m: int)
    requires
        0 <= n <= m,
        cell_problem(tags, texts, n) is Some,
    ensures
        cell_problem(tags, texts, m) == cell_problem(tags, texts, n),
    decreases m,
{
    if n < m {
        lemma_cell_problem(tags, texts, n, m - 1);
    }
}

/// Read the cells of the Axis Editor, one per axis, or say what is wrong with the first that
/// cannot be understood.
pub fn read_cells(axes: &Vec<AxisSpec>, texts: &Vec<String>) -> (r: Result<
    Vec<AxisEntry>,
    SliceError,
>)
    ensures
        ({
            let tags = axis_tags(axis_views(axes@));
            let views = text_views(texts@);
            match r {
                Ok(entries) => {
                    &&& cell_problem(tags, views, axes@.len() as int) is None
                    &&& entries@.len() == axes@.len()
                    &&& forall|i: int|
                        0 <= i < entries@.len() ==> entry_of(cell_text(views, i), tags[i])
                            == Ok::<EntryView, Problem>((#[trigger] entries@[i])@)
                },
                Err(e) => cell_problem(tags, views, axes@.len() as int) == Some(e@),
            }
        }),
{
    let ghost tags = axis_tags(axis_views(axes@));
    let ghost views = text_views(texts@);
    let mut entries: Vec<AxisEntry> = Vec::new();
    for i in 0..axes.len()
        invariant
            tags == axis_tags(axis_views(axes@)),
            views == text_views(texts@),
            cell_problem(tags, views, i as int) is None,
            entries@.len() == i,
            forall|k: int|
                0 <= k < i ==> entry_of(cell_text(views, k), tags[k]) == Ok::<EntryView, Problem>(
                    (#[trigger] entries@[k])@,
                ),
    {
        let tag: &str = axes[i].tag.as_str();
        assert(tags[i as int] == tag@);
        let text: &str = if i < texts.len() {
            assert(views[i as int] == texts@[i as int]@);
            texts[i].as_str()
        } else {
            proof {
                reveal_strlit("");
                assert(""@ =~= Seq::<char>::empty());
            }
            ""
        };
        match parse_axis_limit(text, tag) {
            Ok(entry) => {
                entries.push(entry);
            },
            Err(e) => {
                proof {
                    lemma_cell_problem(tags, views, i + 1, axes@.len() as int);
                }
                return Err(e);
            },
        }
    }
    Ok(entries)
}

// ------------------------------------------------------------------------ naming the output

/// Where `c` last stands before `n`, if it does.
pub open spec fn last_before(s: Seq<char>, c: char, n: int) -> Option<int>
    decreases n,
{
    if n <= 0 {
        None
    } else if s[n - 1] == c {
        Some(n - 1)
    } else {
        last_before(s, c, n - 1)
    }
}

/// A file name without its extension; a stand-in where nothing is left.
pub open spec fn stem_of(name: Seq<char>) -> Seq<char> {
    let stem = match last_before(name, '.', name.len() as int) {
        Some(at) => name.take(at),
        None => name,
    };
    if stem.len() == 0 {
        "sliced"@
    } else {
        stem
    }
}

fn file_stem(name: &str) -> (r: String)
    ensures
        r@ == stem_of(name@),
{
    let chars: Vec<char> = chars_of(name);
    let mut n: usize = chars.len();
    while n > 0 && chars[n - 1] != '.'
        invariant
            n <= chars@.len(),
            last_before(chars@, '.', chars@.len() as int) == last_before(chars@, '.', n as int),
        decreases n,
    {
        n = n - 1;
    }
    let to: usize = if n > 0 {
        n - 1
    } else {
        chars.len()
    };
    if to == 0 {
        assert(chars@.take(0).len() == 0);
        return "sliced".to_owned();
    }
    let stem: Vec<char> = copy_chars(chars.as_slice(), 0, to);
    assert(stem@ =~= chars@.take(to as int));
    assert(chars@.take(chars@.len() as int) =~= chars@);
    string_of(stem.as_slice())
}

/// A number as it stands in a file name.
pub open spec fn name_number(text: Seq<char>) -> Seq<char> {
    text.map_values(
        |c: char|
            if c == '.' {
                '_'
            } else {
                c
            },
    )
}

/// Write a number for a file name: `800` stays as it is, and the point of `0.5` becomes an
/// underscore.
pub fn trim_number(text: &str) -> (r: String)
    ensures
        r@ == name_number(text@),
{
    let chars: Vec<char> = chars_of(text);
    let mut out: Vec<char> = Vec::new();
    for i in 0..chars.len()
        invariant
            chars@ == text@,
            out@ == name_number(text@).take(i as int),
    {
        out.push(
            if chars[i] == '.' {
                '_'
            } else {
                chars[i]
            },
        );
        assert(out@ =~= name_number(text@).take(i + 1));
    }
    assert(out@ =~= name_number(text@));
    string_of(out.as_slice())
}

/// What is said of one axis in a file name: nothing where it stays whole.
pub open spec fn name_part(tag: Seq<char>, entry: EntryView) -> Option<Seq<char>> {
    match entry {
        EntryView::Full => None,
        EntryView::Pin(v) => Some(tag + name_number(v)),
        EntryView::Range { start, end } => Some(tag + name_number(start) + "-"@ + name_number(end)),
    }
}

/// What is said of the first `n` axes in a file name, each part after a hyphen.
pub open spec fn name_parts(
    tags: Seq<Seq<char>>,
    entries: Seq<EntryView>,
    n: int,
) -> Seq<char>
    decreases n,
{
    if n <= 0 {
        Seq::empty()
    } else {
        let before = name_parts(tags, entries, n - 1);
        match name_part(tags[n - 1], entries[n - 1]) {
            Some(part) => before + "-"@ + part,
            None => before,
        }
    }
}

pub open spec fn entry_views(entries: Seq<AxisEntry>) -> Seq<EntryView> {
    entries.map_values(|e: AxisEntry| e@)
}

pub open spec fn axis_tags(axes: Seq<AxisView>) -> Seq<Seq<char>> {
    axes.map_values(|a: AxisView| a.tag)
}

/// A sensible file name for the result, derived from the input and the settings.
///
/// `Recursive-VF.ttf` sliced at `wght=800` becomes `Recursive-VF-wght800.ttf`, so a folder
/// full of instances is self-describing. The numbers of the entries are written as they are
/// to be shown, the lower end of a range first; a cell that cannot be understood counts as
/// blank.
pub fn suggested_output_name(
    file_name: &str,
    axes: &Vec<AxisSpec>,
    entries: &Vec<AxisEntry>,
    format: OutputFormat,
    is_truetype: bool,
) -> (r: String)
    requires
        entries@.len() == axes@.len(),
    ensures
        r@ == stem_of(file_name@) + name_parts(
            axis_tags(axis_views(axes@)),
            entry_views(entries@),
            axes@.len() as int,
        ) + "."@ + extension_text(format, is_truetype),
{
    let ghost tags = axis_tags(axis_views(axes@));
    let ghost views = entry_views(entries@);
    let ghost stem = stem_of(file_name@);
    let mut name: String = file_stem(file_name);
    assert(stem + name_parts(tags, views, 0) =~= stem);
    for i in 0..axes.len()
        invariant
            entries@.len() == axes@.len(),
            tags == axis_tags(axis_views(axes@)),
            views == entry_views(entries@),
            name@ == stem + name_parts(tags, views, i as int),
    {
        let tag: &str = axes[i].tag.as_str();
        assert(tags[i as int] == tag@);
        assert(views[i as int] == entries@[i as int]@);
        let ghost before = name_parts(tags, views, i as int);
        match &entries[i] {
            AxisEntry::Full => {},
            AxisEntry::Pin(v) => {
                let part: String = join2(tag, trim_number(v.as_str()).as_str());
                name = name.concat("-").concat(part.as_str());
                assert(stem + before + "-"@ + part@ =~= stem + (before + "-"@ + part@));
            },
            AxisEntry::Range { start, end } => {
                let part: String = join2(tag, trim_number(start.as_str()).as_str()).concat(
                    "-",
                ).concat(trim_number(end.as_str()).as_str());
                name = name.concat("-").concat(part.as_str());
                assert(stem + before + "-"@ + part@ =~= stem + (before + "-"@ + part@));
            },
        }
    }
    name.concat(".").concat(format.extension(is_truetype))
}

} // verus!
