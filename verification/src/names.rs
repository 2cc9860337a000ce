//! The Name Editor: the nine `name` table records Slice lets you rewrite.
use std::collections::BTreeMap;
use vstd::prelude::*;


verus! {

broadcast use {vstd::std_specs::btree::group_btree_axioms, vstd::laws_cmp::group_laws_cmp};

/// The nameIDs the Name Editor shows, in editor row order.
pub const NAME_EDITOR_IDS: [u16; 9] = [1, 2, 3, 4, 6, 16, 17, 21, 22];

/// nameIDs that must always be present in the output, even when their row is blank.
pub const MANDATORY_IDS: [u16; 5] = [1, 2, 3, 4, 6];

/// nameIDs that are written when non-empty and *deleted* when the user clears them.
pub const OPTIONAL_IDS: [u16; 4] = [16, 17, 21, 22];

/// The label of a row; blank for an ID the editor does not show.
pub open spec fn label_text(name_id: u16) -> Seq<char> {
    match name_id {
        1 => "01 Family"@,
        2 => "02 Subfamily"@,
        3 => "03 Unique"@,
        4 => "04 Full"@,
        6 => "06 Postscript"@,
        16 => "16 Typo Family"@,
        17 => "17 Typo Subfamily"@,
        21 => "21 WWS Family"@,
        22 => "22 WWS Subfamily"@,
        _ => ""@,
    }
}

/// The row label shown at the left of the Name Editor.
pub fn row_label(name_id: u16) -> (r: &'static str)
    ensures
        r@ == label_text(name_id),
{
    match name_id {
        1 => "01 Family",
        2 => "02 Subfamily",
        3 => "03 Unique",
        4 => "04 Full",
        6 => "06 Postscript",
        16 => "16 Typo Family",
        17 => "17 Typo Subfamily",
        21 => "21 WWS Family",
        22 => "22 WWS Subfamily",
        _ => "",
    }
}

/// The explanation of a row; blank for an ID the editor does not show.
pub open spec fn hint_text(name_id: u16) -> Seq<char> {
    match name_id {
        1 => "Font Family name. Limited to four styles per family by legacy systems."@,
        2 => "Font Subfamily name. Regular, Italic, Bold or Bold Italic."@,
        3 => "Unique font identifier."@,
        4 => "Full font name, usually Family plus Subfamily."@,
        6 => "PostScript name. No spaces, at most 63 characters."@,
        16 => "Typographic Family name, when the family has more than four styles."@,
        17 => "Typographic Subfamily name, when the family has more than four styles."@,
        21 => "WWS Family name, for families that vary beyond weight/width/slope."@,
        22 => "WWS Subfamily name, for families that vary beyond weight/width/slope."@,
        _ => ""@,
    }
}

/// A longer explanation, shown as a tooltip.
pub fn row_hint(name_id: u16) -> (r: &'static str)
    ensures
        r@ == hint_text(name_id),
{
    match name_id {
        1 => "Font Family name. Limited to four styles per family by legacy systems.",
        2 => "Font Subfamily name. Regular, Italic, Bold or Bold Italic.",
        3 => "Unique font identifier.",
        4 => "Full font name, usually Family plus Subfamily.",
        6 => "PostScript name. No spaces, at most 63 characters.",
        16 => "Typographic Family name, when the family has more than four styles.",
        17 => "Typographic Subfamily name, when the family has more than four styles.",
        21 => "WWS Family name, for families that vary beyond weight/width/slope.",
        22 => "WWS Subfamily name, for families that vary beyond weight/width/slope.",
        _ => "",
    }
}

/// The contents of the Name Editor.
#[derive(Clone, Debug, PartialEq, Eq)]
pub struct NameEdits {
    values: BTreeMap<u16, String>,
}

impl View for NameEdits {
    type V = Map<u16, Seq<char>>;

    closed spec fn view(&self) -> Map<u16, Seq<char>> {
        self.values@.map_values(|s: String| s@)
    }
}

impl NameEdits {
    pub fn new() -> (r: NameEdits)
        ensures
            r@ == Map::<u16, Seq<char>>::empty(),
    {
        let r: NameEdits = NameEdits { values: BTreeMap::new() };
        assert(r@ =~= Map::<u16, Seq<char>>::empty());
        r
    }

    /// Put `value` into a row.
    pub fn set(&mut self, name_id: u16, value: &str) -> (r: &mut NameEdits)
        ensures
            r@ == old(self)@.insert(name_id, value@),
            final(self)@ == final(r)@,
    {
        let ghost before = self@;
        self.values.insert(name_id, value.to_owned());
        assert(self@ =~= before.insert(name_id, value@));
        self
    }

    /// The editor cell contents, treating a missing row as blank.
    pub fn get_or_empty(&self, name_id: u16) -> (r: &str)
        ensures
            r@ == text_of(self@, name_id),
    {
        match self.values.get(&name_id) {
            Some(text) => text.as_str(),
            None => {
                proof {
                    reveal_strlit("");
                    assert(""@ =~= Seq::<char>::empty());
                }
                ""
            },
        }
    }

    /// The editor cell contents, or `None` when the row is blank.
    pub fn get(&self, name_id: u16) -> (r: Option<&str>)
        ensures
            match r {
                Some(text) => text@ == text_of(self@, name_id) && text@.len() > 0,
                None => text_of(self@, name_id).len() == 0,
            },
    {
        let text: &str = self.get_or_empty(name_id);
        if text.is_empty() {
            None
        } else {
            Some(text)
        }
    }

    /// Rows in editor order, as `(nameID, text)`.
    pub fn rows(&self) -> (r: Vec<(u16, String)>)
        ensures
            pairs(r@) == all_texts(self@, NAME_EDITOR_IDS@),
    {
        let mut out: Vec<(u16, String)> = Vec::new();
        let ghost ids = NAME_EDITOR_IDS@;
        for i in 0..9usize
            invariant
                ids == NAME_EDITOR_IDS@,
                pairs(out@) == all_texts(self@, ids.take(i as int)),
        {
            let id: u16 = NAME_EDITOR_IDS[i];
            let ghost before = pairs(out@);
            out.push((id, self.get_or_empty(id).to_owned()));
            assert(pairs(out@) =~= before.push((id, text_of(self@, id))));
            assert(all_texts(self@, ids.take(i + 1)) =~= before.push((id, text_of(self@, id))));
        }
        assert(ids.take(9) =~= ids);
        out
    }

    /// The records to write, and the records to delete, when applying these edits.
    ///
    /// Mandatory IDs are always written. Optional IDs are written when the user typed
    /// something and removed when they cleared the field.
    pub fn plan(&self) -> (r: (Vec<(u16, String)>, Vec<u16>))
        ensures
            pairs(r.0@) == planned_writes(self@),
            r.1@ == planned_deletes(self@),
    {
        let mut writes: Vec<(u16, String)> = Vec::new();
        let mut deletes: Vec<u16> = Vec::new();
        let ghost mandatory = MANDATORY_IDS@;
        for i in 0..5usize
            invariant
                mandatory == MANDATORY_IDS@,
                pairs(writes@) == all_texts(self@, mandatory.take(i as int)),
        {
            let id: u16 = MANDATORY_IDS[i];
            let ghost before = pairs(writes@);
            writes.push((id, self.get_or_empty(id).to_owned()));
            assert(pairs(writes@) =~= before.push((id, text_of(self@, id))));
            assert(all_texts(self@, mandatory.take(i + 1)) =~= before.push(
                (id, text_of(self@, id)),
            ));
        }
        assert(mandatory.take(5) =~= mandatory);
        let ghost first = pairs(writes@);
        let ghost optional = OPTIONAL_IDS@;
        assert(pairs(writes@) =~= first + filled(self@, optional.take(0)));
        for i in 0..4usize
            invariant
                optional == OPTIONAL_IDS@,
                pairs(writes@) == first + filled(self@, optional.take(i as int)),
                deletes@ == cleared(self@, optional.take(i as int)),
        {
            let id: u16 = OPTIONAL_IDS[i];
            let ghost before = pairs(writes@);
            assert(optional.take(i + 1).drop_last() =~= optional.take(i as int));
            match self.get(id) {
                Some(text) => {
                    writes.push((id, text.to_owned()));
                    assert(pairs(writes@) =~= before.push((id, text_of(self@, id))));
                    assert(pairs(writes@) =~= first + filled(self@, optional.take(i + 1)));
                },
                None => {
                    deletes.push(id);
                },
            }
        }
        assert(optional.take(4) =~= optional);
        (writes, deletes)
    }

    /// True when nothing was put into any row, not even a blank.
    pub fn is_untouched(&self) -> (r: bool)
        ensures
            r == (self@ == Map::<u16, Seq<char>>::empty()),
    {
        let r: bool = self.values.len() == 0;
        proof {
            let map = self.values@;
            assert(self@.dom() =~= map.dom());
            if r {
                assert(map.dom() =~= Set::<u16>::empty());
                assert(self@ =~= Map::<u16, Seq<char>>::empty());
            } else if self@ == Map::<u16, Seq<char>>::empty() {
                assert(map.dom() =~= Set::<u16>::empty());
            }
        }
        r
    }

    /// True when no row has any text in it.
    pub fn is_empty(&self) -> (r: bool)
        ensures
            r == (forall|i: int|
                0 <= i < NAME_EDITOR_IDS@.len() ==> text_of(
                    self@,
                    #[trigger] NAME_EDITOR_IDS@[i],
                ).len() == 0),
    {
        for i in 0..9usize
            invariant
                forall|k: int|
                    0 <= k < i ==> text_of(self@, #[trigger] NAME_EDITOR_IDS@[k]).len() == 0,
        {
            let id: u16 = NAME_EDITOR_IDS[i];
            if self.get(id).is_some() {
                assert(text_of(self@, NAME_EDITOR_IDS@[i as int]).len() > 0);
                return false;
            }
        }
        true
    }
}

impl Default for NameEdits {
    fn default() -> (r: NameEdits)
        ensures
            r@ == Map::<u16, Seq<char>>::empty(),
    {
        NameEdits::new()
    }
}

/// The text of a row; nothing where the row is missing.
pub open spec fn text_of(edits: Map<u16, Seq<char>>, name_id: u16) -> Seq<char> {
    if edits.dom().contains(name_id) {
        edits[name_id]
    } else {
        Seq::empty()
    }
}

pub open spec fn pairs(rows: Seq<(u16, String)>) -> Seq<(u16, Seq<char>)> {
    rows.map_values(|row: (u16, String)| (row.0, row.1@))
}

/// Each of `ids` with the text of its row.
pub open spec fn all_texts(edits: Map<u16, Seq<char>>, ids: Seq<u16>) -> Seq<(u16, Seq<char>)> {
    ids.map_values(|id: u16| (id, text_of(edits, id)))
}

/// Those of `ids` whose rows hold text, with the text.
pub open spec fn filled(edits: Map<u16, Seq<char>>, ids: Seq<u16>) -> Seq<(u16, Seq<char>)>
    decreases ids.len(),
{
    if ids.len() == 0 {
        Seq::empty()
    } else if text_of(edits, ids.last()).len() > 0 {
        filled(edits, ids.drop_last()).push((ids.last(), text_of(edits, ids.last())))
    } else {
        filled(edits, ids.drop_last())
    }
}

/// Those of `ids` whose rows are blank.
pub open spec fn cleared(edits: Map<u16, Seq<char>>, ids: Seq<u16>) -> Seq<u16>
    decreases ids.len(),
{
    if ids.len() == 0 {
        Seq::empty()
    } else if text_of(edits, ids.last()).len() > 0 {
        cleared(edits, ids.drop_last())
    } else {
        cleared(edits, ids.drop_last()).push(ids.last())
    }
}

/// The records that are written: every mandatory one, and the optional ones that hold
/// text.
pub open spec fn planned_writes(edits: Map<u16, Seq<char>>) -> Seq<(u16, Seq<char>)> {
    all_texts(edits, MANDATORY_IDS@) + filled(edits, OPTIONAL_IDS@)
}

/// The records that are deleted: the optional ones that are blank.
pub open spec fn planned_deletes(edits: Map<u16, Seq<char>>) -> Seq<u16> {
    cleared(edits, OPTIONAL_IDS@)
}

pub(crate) proof fn lemma_filled(edits: Map<u16, Seq<char>>, ids: Seq<u16>, id: u16)
    ensures
        filled(edits, ids).contains((id, text_of(edits, id))) <==> ids.contains(id) && text_of(
            edits,
            id,
        ).len() > 0,
        forall|text: Seq<char>|
            filled(edits, ids).contains((id, text)) ==> text == text_of(edits, id),
        cleared(edits, ids).contains(id) <==> ids.contains(id) && text_of(edits, id).len() == 0,
    decreases ids.len(),
{
    if ids.len() > 0 {
        let front = ids.drop_last();
        let last = ids.last();
        lemma_filled(edits, front, id);
        assert(ids =~= front.push(last));
        assert(ids.contains(id) <==> front.contains(id) || id == last) by {
            if ids.contains(id) {
                let k = choose|k: int| 0 <= k < ids.len() && ids[k] == id;
                if k < front.len() {
                    assert(front[k] == id);
                }
            }
            if front.contains(id) {
                let k = choose|k: int| 0 <= k < front.len() && front[k] == id;
                assert(ids[k] == id);
            }
            if id == last {
                assert(ids[ids.len() - 1] == id);
            }
        }
        let f = filled(edits, front);
        let entry = (last, text_of(edits, last));
        assert forall|e: (u16, Seq<char>)| #[trigger] f.push(entry).contains(e) <==> f.contains(e)
            || e == entry by {
            if f.contains(e) {
                let k = choose|k: int| 0 <= k < f.len() && f[k] == e;
                assert(f.push(entry)[k] == e);
            }
            if e == entry {
                assert(f.push(entry)[f.len() as int] == e);
            }
        }
        let c = cleared(edits, front);
        assert(c.push(last).contains(id) <==> c.contains(id) || id == last) by {
            if c.contains(id) {
                let k = choose|k: int| 0 <= k < c.len() && c[k] == id;
                assert(c.push(last)[k] == id);
            }
            if id == last {
                assert(c.push(last)[c.len() as int] == id);
            }
        }
    }
}

/// Every mandatory record is written with the text of its row, even a blank one.
pub proof fn mandatory_records_are_always_written(edits: Map<u16, Seq<char>>, i: int)
    requires
        0 <= i < MANDATORY_IDS@.len(),
    ensures
        planned_writes(edits).contains((MANDATORY_IDS@[i], text_of(edits, MANDATORY_IDS@[i]))),
{
    assert(planned_writes(edits)[i] == (MANDATORY_IDS@[i], text_of(edits, MANDATORY_IDS@[i])));
}

/// Every optional record is either written or deleted, and never both: written when its
/// row holds text, even a single space, and deleted when it is blank.
pub proof fn optional_records_are_written_or_deleted(edits: Map<u16, Seq<char>>, i: int)
    requires
        0 <= i < OPTIONAL_IDS@.len(),
    ensures
        planned_deletes(edits).contains(OPTIONAL_IDS@[i]) <==> text_of(
            edits,
            OPTIONAL_IDS@[i],
        ).len() == 0,
        planned_writes(edits).contains((OPTIONAL_IDS@[i], text_of(edits, OPTIONAL_IDS@[i])))
            <==> text_of(edits, OPTIONAL_IDS@[i]).len() > 0,
{
    let id = OPTIONAL_IDS@[i];
    let entry = (id, text_of(edits, id));
    lemma_filled(edits, OPTIONAL_IDS@, id);
    assert(OPTIONAL_IDS@.contains(id));
    let front = all_texts(edits, MANDATORY_IDS@);
    let back = filled(edits, OPTIONAL_IDS@);
    assert(OPTIONAL_IDS@ =~= seq![16u16, 17u16, 21u16, 22u16]);
    assert(MANDATORY_IDS@ =~= seq![1u16, 2u16, 3u16, 4u16, 6u16]);
    if planned_writes(edits).contains(entry) {
        let k = choose|k: int| 0 <= k < planned_writes(edits).len() && planned_writes(edits)[k] == entry;
        if k < front.len() {
            assert(front[k].0 == MANDATORY_IDS@[k]);
        } else {
            assert(back[k - front.len()] == entry);
        }
    }
    if back.contains(entry) {
        let k = choose|k: int| 0 <= k < back.len() && back[k] == entry;
        assert(planned_writes(edits)[front.len() + k] == entry);
    }
}

/// What is written for a row is the text of the row; a record is written for a mandatory
/// row, and for an optional one that holds text.
pub proof fn lemma_planned_write(edits: Map<u16, Seq<char>>, entry: (u16, Seq<char>))
    ensures
        planned_writes(edits).contains(entry) <==> entry.1 == text_of(edits, entry.0) && (
        MANDATORY_IDS@.contains(entry.0) || (OPTIONAL_IDS@.contains(entry.0) && entry.1.len() > 0)),
{
    let front = all_texts(edits, MANDATORY_IDS@);
    let back = filled(edits, OPTIONAL_IDS@);
    let all = planned_writes(edits);
    lemma_filled(edits, OPTIONAL_IDS@, entry.0);
    if all.contains(entry) {
        let k = choose|k: int| 0 <= k < all.len() && all[k] == entry;
        if k < front.len() {
            assert(front[k] == entry);
            assert(MANDATORY_IDS@[k] == entry.0);
        } else {
            assert(back[k - front.len()] == entry);
            assert(back.contains((entry.0, entry.1)));
        }
    }
    if MANDATORY_IDS@.contains(entry.0) && entry.1 == text_of(edits, entry.0) {
        let k = choose|k: int| 0 <= k < MANDATORY_IDS@.len() && MANDATORY_IDS@[k] == entry.0;
        assert(all[k] == entry);
    }
    if back.contains(entry) {
        let k = choose|k: int| 0 <= k < back.len() && back[k] == entry;
        assert(all[front.len() + k] == entry);
    }
}

/// The rows of the editor are the mandatory and the optional ones.
pub proof fn lemma_editor_ids(id: u16)
    ensures
        NAME_EDITOR_IDS@.contains(id) <==> MANDATORY_IDS@.contains(id) || OPTIONAL_IDS@.contains(
            id,
        ),
        !(MANDATORY_IDS@.contains(id) && OPTIONAL_IDS@.contains(id)),
{
    let all = NAME_EDITOR_IDS@;
    let m = MANDATORY_IDS@;
    let o = OPTIONAL_IDS@;
    assert(all =~= seq![1u16, 2u16, 3u16, 4u16, 6u16, 16u16, 17u16, 21u16, 22u16]);
    assert(m =~= seq![1u16, 2u16, 3u16, 4u16, 6u16]);
    assert(o =~= seq![16u16, 17u16, 21u16, 22u16]);
    assert(forall|i: int| 0 <= i < 5 ==> #[trigger] m[i] == all[i]);
    assert(forall|i: int| 0 <= i < 4 ==> #[trigger] o[i] == all[i + 5]);
    assert(forall|i: int| 0 <= i < 5 ==> #[trigger] all[i] == m[i]);
    assert(forall|i: int| 5 <= i < 9 ==> #[trigger] all[i] == o[i - 5]);
}

} // verus!
