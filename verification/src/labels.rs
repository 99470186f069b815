//! Label definitions, and the table that holds them in the order of their declaration.

use indexmap::IndexMap;
use vstd::prelude::*;

verus! {

/// A label definition.
#[derive(Clone, Copy, Debug, PartialEq, Eq)]
pub struct LabelDef {
    /// The offset of the label in the program.
    pub position: usize,
    /// Whether the offset was changed after the label was declared.
    pub updated: bool,
}

impl LabelDef {
    /// Create a new `LabelDef`.
    pub fn new(position: usize) -> (def: Self)
        ensures
            def == (LabelDef { position, updated: false }),
    {
        Self { position, updated: false }
    }

    /// Get the position of the label.
    pub fn position(&self) -> (position: usize)
        ensures
            position == self.position,
    {
        self.position
    }
}

#[verifier::external_type_specification]
#[verifier::external_body]
#[verifier::reject_recursive_types(K)]
#[verifier::reject_recursive_types(V)]
#[verifier::reject_recursive_types(S)]
pub struct ExIndexMap<K, V, S>(IndexMap<K, V, S>);

/// The labels of a table with their definitions, in the order of their declaration.
pub uninterp spec fn label_entries(table: IndexMap<String, Option<LabelDef>>) -> Seq<
    (Seq<char>, Option<LabelDef>),
>;

/// Where `label` stands among `entries`, if it does.
pub open spec fn label_index(
    entries: Seq<(Seq<char>, Option<LabelDef>)>,
    label: Seq<char>,
) -> Option<int>
    decreases entries.len(),
{
    if entries.len() == 0 {
        None
    } else if entries.last().0 == label {
        Some(entries.len() - 1)
    } else {
        label_index(entries.drop_last(), label)
    }
}

/// What `entries` holds of `label`: `None` where the label was never declared, `Some(None)` where it
/// has no position yet.
pub open spec fn label_lookup(
    entries: Seq<(Seq<char>, Option<LabelDef>)>,
    label: Seq<char>,
) -> Option<Option<LabelDef>> {
    match label_index(entries, label) {
        Some(index) => Some(entries[index].1),
        None => None,
    }
}

/// `entries` after `label` was given `def`: in its place where it has one, else behind the others.
pub open spec fn label_insert(
    entries: Seq<(Seq<char>, Option<LabelDef>)>,
    label: Seq<char>,
    def: Option<LabelDef>,
) -> Seq<(Seq<char>, Option<LabelDef>)> {
    match label_index(entries, label) {
        Some(index) => entries.update(index, (label, def)),
        None => entries.push((label, def)),
    }
}

/// The table without labels.
///
/// Calls `IndexMap::new`, which returns an empty map.
#[verifier::external_body]
pub(crate) fn new_labels() -> (table: IndexMap<String, Option<LabelDef>>)
    ensures
        label_entries(table) == Seq::<(Seq<char>, Option<LabelDef>)>::empty(),
{
    IndexMap::new()
}

/// Whether the table holds `label`.
///
/// Calls `IndexMap::contains_key`, which looks for an equal key.
#[verifier::external_body]
pub(crate) fn contains_label(
    table: &IndexMap<String, Option<LabelDef>>,
    label: &str,
) -> (found: bool)
    ensures
        found == (label_index(label_entries(*table), label@) is Some),
{
    table.contains_key(label)
}

/// What the table holds of `label`.
///
/// Calls `IndexMap::get`, which returns the value of the equal key, if there is one.
#[verifier::external_body]
pub(crate) fn get_label(
    table: &IndexMap<String, Option<LabelDef>>,
    label: &str,
) -> (def: Option<Option<LabelDef>>)
    ensures
        def == label_lookup(label_entries(*table), label@),
{
    table.get(label).copied()
}

/// Gives `label` a definition, and returns the one that it had.
///
/// Calls `IndexMap::insert`, which replaces the value of an equal key in its place, and puts a new
/// key behind the others.
#[verifier::external_body]
pub(crate) fn insert_label(
    table: &mut IndexMap<String, Option<LabelDef>>,
    label: String,
    def: Option<LabelDef>,
) -> (previous: Option<Option<LabelDef>>)
    ensures
        label_entries(*final(table)) == label_insert(label_entries(*old(table)), label@, def),
        previous == label_lookup(label_entries(*old(table)), label@),
{
    table.insert(label, def)
}

/// The number of labels in the table.
///
/// Calls `IndexMap::len`, which counts the entries.
#[verifier::external_body]
pub(crate) fn count_labels(table: &IndexMap<String, Option<LabelDef>>) -> (count: usize)
    ensures
        count == label_entries(*table).len(),
{
    table.len()
}

/// The definition of the label at `index`.
///
/// Calls `IndexMap::get_index`, which returns the entry at a position in the order of insertion.
#[verifier::external_body]
pub(crate) fn label_def_at(
    table: &IndexMap<String, Option<LabelDef>>,
    index: usize,
) -> (def: Option<LabelDef>)
    requires
        index < label_entries(*table).len(),
    ensures
        def == label_entries(*table)[index as int].1,
{
    *table.get_index(index).unwrap().1
}

/// Gives the label at `index` another definition.
///
/// Calls `IndexMap::get_index_mut`, which hands out the value at a position in the order of
/// insertion; the keys and the other values stay.
#[verifier::external_body]
pub(crate) fn set_label_def_at(
    table: &mut IndexMap<String, Option<LabelDef>>,
    index: usize,
    def: Option<LabelDef>,
)
    requires
        index < label_entries(*old(table)).len(),
    ensures
        label_entries(*final(table)) == label_entries(*old(table)).update(
            index as int,
            (label_entries(*old(table))[index as int].0, def),
        ),
{
    *table.get_index_mut(index).unwrap().1 = def;
}

} // verus!
