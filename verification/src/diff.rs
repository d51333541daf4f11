//! Node-level structural diff of two code graphs.
//!
//! Nodes are matched by position: a position held by nodes of the same
//! type in both graphs is unchanged; otherwise the old node is removed
//! and the new node added.

use vstd::prelude::*;
use vstd::string::{StringExecFns, StrSliceExecFns};
use crate::ast_matrix::{CodeGraph, CodeNode, label_view};
use crate::text::{decimal, decimal_string};

verus! {

/// One entry of a structural diff.
#[derive(Debug, Clone)]
pub enum DiffEntry {
    /// Node added in the new graph.
    Added { index: usize, node_type: String, label: Option<String> },
    /// Node removed from the old graph.
    Removed { index: usize, node_type: String, label: Option<String> },
    /// Node of the same type at the same position in both graphs.
    Unchanged { index: usize, node_type: String },
}

/// The content of a diff entry.
pub enum EntryModel {
    Added { index: usize, node_type: Seq<char>, label: Option<Seq<char>> },
    Removed { index: usize, node_type: Seq<char>, label: Option<Seq<char>> },
    Unchanged { index: usize, node_type: Seq<char> },
}

impl View for DiffEntry {
    type V = EntryModel;

    open spec fn view(&self) -> EntryModel {
        match *self {
            DiffEntry::Added { index, node_type, label } => EntryModel::Added {
                index,
                node_type: node_type@,
                label: label_view(label),
            },
            DiffEntry::Removed { index, node_type, label } => EntryModel::Removed {
                index,
                node_type: node_type@,
                label: label_view(label),
            },
            DiffEntry::Unchanged { index, node_type } => EntryModel::Unchanged {
                index,
                node_type: node_type@,
            },
        }
    }
}

/// The entries that position `i` contributes to the diff of the node
/// lists `old` and `new`.
pub open spec fn entries_at(old: Seq<CodeNode>, new: Seq<CodeNode>, i: int) -> Seq<EntryModel> {
    if i < old.len() && i < new.len() {
        if old[i].node_type@ == new[i].node_type@ {
            seq![EntryModel::Unchanged { index: i as usize, node_type: old[i].node_type@ }]
        } else {
            seq![
                EntryModel::Removed {
                    index: i as usize,
                    node_type: old[i].node_type@,
                    label: label_view(old[i].label),
                },
                EntryModel::Added {
                    index: i as usize,
                    node_type: new[i].node_type@,
                    label: label_view(new[i].label),
                },
            ]
        }
    } else if i < old.len() {
        seq![
            EntryModel::Removed {
                index: i as usize,
                node_type: old[i].node_type@,
                label: label_view(old[i].label),
            },
        ]
    } else if i < new.len() {
        seq![
            EntryModel::Added {
                index: i as usize,
                node_type: new[i].node_type@,
                label: label_view(new[i].label),
            },
        ]
    } else {
        seq![]
    }
}

/// The entries of positions `0..k`, in order.
pub open spec fn diff_entries(old: Seq<CodeNode>, new: Seq<CodeNode>, k: int) -> Seq<EntryModel>
    decreases k,
{
    if k <= 0 {
        seq![]
    } else {
        diff_entries(old, new, k - 1) + entries_at(old, new, k - 1)
    }
}

/// The number of added entries.
pub open spec fn count_added(s: Seq<EntryModel>) -> nat
    decreases s.len(),
{
    if s.len() == 0 {
        0
    } else {
        count_added(s.drop_last()) + if s.last() is Added {
            1nat
        } else {
            0nat
        }
    }
}

/// The number of removed entries.
pub open spec fn count_removed(s: Seq<EntryModel>) -> nat
    decreases s.len(),
{
    if s.len() == 0 {
        0
    } else {
        count_removed(s.drop_last()) + if s.last() is Removed {
            1nat
        } else {
            0nat
        }
    }
}

/// The number of unchanged entries.
pub open spec fn count_unchanged(s: Seq<EntryModel>) -> nat
    decreases s.len(),
{
    if s.len() == 0 {
        0
    } else {
        count_unchanged(s.drop_last()) + if s.last() is Unchanged {
            1nat
        } else {
            0nat
        }
    }
}

/// A copy of an optional label.
fn copy_label(l: &Option<String>) -> (r: Option<String>)
    ensures
        label_view(r) == label_view(*l),
{
    match l {
        Some(s) => Some(s.clone()),
        None => None,
    }
}

/// The node-level diff between two code graphs.
#[derive(Debug, Clone)]
pub struct StructuralDiff {
    /// Individual entries, in position order.
    pub entries: Vec<DiffEntry>,
    /// Number of nodes in the old graph.
    pub old_node_count: usize,
    /// Number of nodes in the new graph.
    pub new_node_count: usize,
}

impl StructuralDiff {
    /// The model of the entries.
    pub open spec fn entries_view(self) -> Seq<EntryModel> {
        self.entries@.map_values(|e: DiffEntry| e@)
    }

    /// Compares `old` and `new` position by position, over the larger of
    /// the two node counts.
    pub fn diff(old: &CodeGraph, new: &CodeGraph) -> (d: Self)
        requires
            old.node_count <= old.nodes@.len() || old.node_count <= new.nodes@.len(),
            new.node_count <= old.nodes@.len() || new.node_count <= new.nodes@.len(),
        ensures
            d.entries_view() == diff_entries(
                old.nodes@,
                new.nodes@,
                if old.node_count >= new.node_count {
                    old.node_count as int
                } else {
                    new.node_count as int
                },
            ),
            d.old_node_count == old.node_count,
            d.new_node_count == new.node_count,
    {
        let max_len = if old.node_count >= new.node_count {
            old.node_count
        } else {
            new.node_count
        };
        let mut entries: Vec<DiffEntry> = Vec::new();
        let mut i: usize = 0;
        while i < max_len
            invariant
                i <= max_len,
                max_len <= old.nodes@.len() || max_len <= new.nodes@.len(),
                entries@.map_values(|e: DiffEntry| e@) == diff_entries(
                    old.nodes@,
                    new.nodes@,
                    i as int,
                ),
            decreases max_len - i,
        {
            let ghost before = entries@;
            if i < old.nodes.len() && i < new.nodes.len() {
                let o = &old.nodes[i];
                let n = &new.nodes[i];
                if o.node_type == n.node_type {
                    entries.push(DiffEntry::Unchanged { index: i, node_type: o.node_type.clone() });
                } else {
                    entries.push(
                        DiffEntry::Removed {
                            index: i,
                            node_type: o.node_type.clone(),
                            label: copy_label(&o.label),
                        },
                    );
                    entries.push(
                        DiffEntry::Added {
                            index: i,
                            node_type: n.node_type.clone(),
                            label: copy_label(&n.label),
                        },
                    );
                }
            } else if i < old.nodes.len() {
                let o = &old.nodes[i];
                entries.push(
                    DiffEntry::Removed {
                        index: i,
                        node_type: o.node_type.clone(),
                        label: copy_label(&o.label),
                    },
                );
            } else {
                let n = &new.nodes[i];
                entries.push(
                    DiffEntry::Added {
                        index: i,
                        node_type: n.node_type.clone(),
                        label: copy_label(&n.label),
                    },
                );
            }
            proof {
                assert(entries@.map_values(|e: DiffEntry| e@) =~= before.map_values(
                    |e: DiffEntry| e@,
                ) + entries_at(old.nodes@, new.nodes@, i as int));
            }
            i = i + 1;
        }
        StructuralDiff { entries, old_node_count: old.node_count, new_node_count: new.node_count }
    }

    /// Number of added nodes.
    pub fn added_count(&self) -> (c: usize)
        ensures
            c == count_added(self.entries_view()),
    {
        let mut c: usize = 0;
        let mut i: usize = 0;
        while i < self.entries.len()
            invariant
                i <= self.entries.len(),
                c <= i,
                c == count_added(self.entries_view().take(i as int)),
            decreases self.entries.len() - i,
        {
            proof {
                assert(self.entries_view().take(i + 1).drop_last() =~= self.entries_view().take(
                    i as int,
                ));
            }
            match &self.entries[i] {
                DiffEntry::Added { .. } => {
                    c = c + 1;
                },
                _ => {},
            }
            i = i + 1;
        }
        proof {
            assert(self.entries_view().take(self.entries.len() as int) =~= self.entries_view());
        }
        c
    }

    /// Number of removed nodes.
    pub fn removed_count(&self) -> (c: usize)
        ensures
            c == count_removed(self.entries_view()),
    {
        let mut c: usize = 0;
        let mut i: usize = 0;
        while i < self.entries.len()
            invariant
                i <= self.entries.len(),
                c <= i,
                c == count_removed(self.entries_view().take(i as int)),
            decreases self.entries.len() - i,
        {
            proof {
                assert(self.entries_view().take(i + 1).drop_last() =~= self.entries_view().take(
                    i as int,
                ));
            }
            match &self.entries[i] {
                DiffEntry::Removed { .. } => {
                    c = c + 1;
                },
                _ => {},
            }
            i = i + 1;
        }
        proof {
            assert(self.entries_view().take(self.entries.len() as int) =~= self.entries_view());
        }
        c
    }

    /// Number of unchanged nodes.
    pub fn unchanged_count(&self) -> (c: usize)
        ensures
            c == count_unchanged(self.entries_view()),
    {
        let mut c: usize = 0;
        let mut i: usize = 0;
        while i < self.entries.len()
            invariant
                i <= self.entries.len(),
                c <= i,
                c == count_unchanged(self.entries_view().take(i as int)),
            decreases self.entries.len() - i,
        {
            proof {
                assert(self.entries_view().take(i + 1).drop_last() =~= self.entries_view().take(
                    i as int,
                ));
            }
            match &self.entries[i] {
                DiffEntry::Unchanged { .. } => {
                    c = c + 1;
                },
                _ => {},
            }
            i = i + 1;
        }
        proof {
            assert(self.entries_view().take(self.entries.len() as int) =~= self.entries_view());
        }
        c
    }
}

/// Counting entries of each kind distributes over concatenation.
pub proof fn lemma_counts_concat(a: Seq<EntryModel>, b: Seq<EntryModel>)
    ensures
        count_added(a + b) == count_added(a) + count_added(b),
        count_removed(a + b) == count_removed(a) + count_removed(b),
        count_unchanged(a + b) == count_unchanged(a) + count_unchanged(b),
    decreases b.len(),
{
    if b.len() > 0 {
        assert((a + b).drop_last() =~= a + b.drop_last());
        lemma_counts_concat(a, b.drop_last());
    } else {
        assert(a + b =~= a);
    }
}

proof fn lemma_counts_prefix(old: Seq<CodeNode>, new: Seq<CodeNode>, k: int)
    requires
        0 <= k,
    ensures
        count_added(diff_entries(old, new, k)) + count_unchanged(diff_entries(old, new, k)) == if k
            <= new.len() {
            k
        } else {
            new.len() as int
        },
        count_removed(diff_entries(old, new, k)) + count_unchanged(diff_entries(old, new, k)) == if k
            <= old.len() {
            k
        } else {
            old.len() as int
        },
    decreases k,
{
    if k > 0 {
        lemma_counts_prefix(old, new, k - 1);
        lemma_counts_concat(diff_entries(old, new, k - 1), entries_at(old, new, k - 1));
        lemma_counts_at(old, new, k - 1);
    }
}

/// The counts that one position contributes.
proof fn lemma_counts_at(old: Seq<CodeNode>, new: Seq<CodeNode>, i: int)
    requires
        0 <= i,
    ensures
        count_added(entries_at(old, new, i)) + count_unchanged(entries_at(old, new, i)) == if i
            < new.len() {
            1int
        } else {
            0
        },
        count_removed(entries_at(old, new, i)) + count_unchanged(entries_at(old, new, i)) == if i
            < old.len() {
            1int
        } else {
            0
        },
        i < old.len() && i < new.len() && old[i].node_type@ == new[i].node_type@ ==> {
            &&& count_added(entries_at(old, new, i)) == 0
            &&& count_removed(entries_at(old, new, i)) == 0
            &&& count_unchanged(entries_at(old, new, i)) == 1
        },
{
    let e = entries_at(old, new, i);
    reveal_with_fuel(count_added, 3);
    reveal_with_fuel(count_removed, 3);
    reveal_with_fuel(count_unchanged, 3);
    if e.len() == 2 {
        assert(e.drop_last().drop_last() =~= Seq::<EntryModel>::empty());
        assert(e.drop_last().last() == e[0]);
    } else if e.len() == 1 {
        assert(e.drop_last() =~= Seq::<EntryModel>::empty());
    } else {
        assert(e =~= Seq::<EntryModel>::empty());
    }
}

/// Every position of the new graph is either added or unchanged, and every
/// position of the old graph is either removed or unchanged:
/// `added + unchanged == new nodes` and `removed + unchanged == old nodes`.
pub proof fn lemma_diff_accounts_for_every_node(old: CodeGraph, new: CodeGraph)
    requires
        old.node_count == old.nodes@.len(),
        new.node_count == new.nodes@.len(),
    ensures
        ({
            let e = diff_entries(
                old.nodes@,
                new.nodes@,
                if old.node_count >= new.node_count {
                    old.node_count as int
                } else {
                    new.node_count as int
                },
            );
            &&& count_added(e) + count_unchanged(e) == new.node_count
            &&& count_removed(e) + count_unchanged(e) == old.node_count
        }),
{
    let m = if old.node_count >= new.node_count {
        old.node_count as int
    } else {
        new.node_count as int
    };
    lemma_counts_prefix(old.nodes@, new.nodes@, m);
}

/// Graphs whose nodes have the same types, position by position, differ by
/// nothing: no node is added or removed, and every node is unchanged.
pub proof fn lemma_diff_same_types(old: CodeGraph, new: CodeGraph)
    requires
        old.node_count == old.nodes@.len(),
        new.node_count == new.nodes@.len(),
        old.node_count == new.node_count,
        forall|i: int|
            0 <= i < old.node_count ==> (#[trigger] old.nodes@[i]).node_type@
                == new.nodes@[i].node_type@,
    ensures
        ({
            let e = diff_entries(old.nodes@, new.nodes@, old.node_count as int);
            &&& count_added(e) == 0
            &&& count_removed(e) == 0
            &&& count_unchanged(e) == old.node_count
        }),
{
    lemma_same_types_prefix(old.nodes@, new.nodes@, old.node_count as int);
}

proof fn lemma_same_types_prefix(old: Seq<CodeNode>, new: Seq<CodeNode>, k: int)
    requires
        0 <= k <= old.len(),
        old.len() == new.len(),
        forall|i: int| 0 <= i < old.len() ==> (#[trigger] old[i]).node_type@ == new[i].node_type@,
    ensures
        count_added(diff_entries(old, new, k)) == 0,
        count_removed(diff_entries(old, new, k)) == 0,
        count_unchanged(diff_entries(old, new, k)) == k,
    decreases k,
{
    if k > 0 {
        lemma_same_types_prefix(old, new, k - 1);
        lemma_counts_concat(diff_entries(old, new, k - 1), entries_at(old, new, k - 1));
        assert(old[k - 1].node_type@ == new[k - 1].node_type@);
        lemma_counts_at(old, new, k - 1);
    }
}

/// One position contributes to the diff of `new` against `old` the added
/// and removed counts that it contributes to the diff of `old` against
/// `new`, swapped, and the same unchanged count.
proof fn lemma_counts_at_swapped(old: Seq<CodeNode>, new: Seq<CodeNode>, i: int)
    requires
        0 <= i,
    ensures
        count_added(entries_at(new, old, i)) == count_removed(entries_at(old, new, i)),
        count_removed(entries_at(new, old, i)) == count_added(entries_at(old, new, i)),
        count_unchanged(entries_at(new, old, i)) == count_unchanged(entries_at(old, new, i)),
{
    let e = entries_at(old, new, i);
    let f = entries_at(new, old, i);
    reveal_with_fuel(count_added, 3);
    reveal_with_fuel(count_removed, 3);
    reveal_with_fuel(count_unchanged, 3);
    if e.len() == 2 {
        assert(e.drop_last().drop_last() =~= Seq::<EntryModel>::empty());
        assert(e.drop_last().last() == e[0]);
    } else if e.len() == 1 {
        assert(e.drop_last() =~= Seq::<EntryModel>::empty());
    } else {
        assert(e =~= Seq::<EntryModel>::empty());
    }
    if f.len() == 2 {
        assert(f.drop_last().drop_last() =~= Seq::<EntryModel>::empty());
        assert(f.drop_last().last() == f[0]);
    } else if f.len() == 1 {
        assert(f.drop_last() =~= Seq::<EntryModel>::empty());
    } else {
        assert(f =~= Seq::<EntryModel>::empty());
    }
}

proof fn lemma_counts_swapped_prefix(old: Seq<CodeNode>, new: Seq<CodeNode>, k: int)
    requires
        0 <= k,
    ensures
        count_added(diff_entries(new, old, k)) == count_removed(diff_entries(old, new, k)),
        count_removed(diff_entries(new, old, k)) == count_added(diff_entries(old, new, k)),
        count_unchanged(diff_entries(new, old, k)) == count_unchanged(diff_entries(old, new, k)),
    decreases k,
{
    if k > 0 {
        lemma_counts_swapped_prefix(old, new, k - 1);
        lemma_counts_concat(diff_entries(old, new, k - 1), entries_at(old, new, k - 1));
        lemma_counts_concat(diff_entries(new, old, k - 1), entries_at(new, old, k - 1));
        lemma_counts_at_swapped(old, new, k - 1);
    }
}

/// Diffing the graphs the other way round swaps the added and removed
/// counts and keeps the unchanged count: with `d1 = diff(old, new)` and
/// `d2 = diff(new, old)`, `d2` adds what `d1` removes, removes what `d1`
/// adds, and leaves the same nodes unchanged.
pub proof fn lemma_diff_swapped(old: CodeGraph, new: CodeGraph)
    ensures
        ({
            let m = if old.node_count >= new.node_count {
                old.node_count as int
            } else {
                new.node_count as int
            };
            let m2 = if new.node_count >= old.node_count {
                new.node_count as int
            } else {
                old.node_count as int
            };
            let d1 = diff_entries(old.nodes@, new.nodes@, m);
            let d2 = diff_entries(new.nodes@, old.nodes@, m2);
            &&& count_added(d2) == count_removed(d1)
            &&& count_removed(d2) == count_added(d1)
            &&& count_unchanged(d2) == count_unchanged(d1)
        }),
{
    let m = if old.node_count >= new.node_count {
        old.node_count as int
    } else {
        new.node_count as int
    };
    lemma_counts_swapped_prefix(old.nodes@, new.nodes@, m);
}

/// What an entry says of the node at its index in `old` and `new`: a
/// removed entry names an old node, with its type and label; an added
/// entry names a new node, with its type and label; an unchanged entry
/// names a position held in both, by nodes of its type.
pub open spec fn names_its_node(e: EntryModel, old: Seq<CodeNode>, new: Seq<CodeNode>) -> bool {
    match e {
        EntryModel::Removed { index, node_type, label } => {
            &&& index < old.len()
            &&& node_type == old[index as int].node_type@
            &&& label == label_view(old[index as int].label)
        },
        EntryModel::Added { index, node_type, label } => {
            &&& index < new.len()
            &&& node_type == new[index as int].node_type@
            &&& label == label_view(new[index as int].label)
        },
        EntryModel::Unchanged { index, node_type } => {
            &&& index < old.len()
            &&& index < new.len()
            &&& node_type == old[index as int].node_type@
            &&& node_type == new[index as int].node_type@
        },
    }
}

/// The index of an entry.
pub open spec fn entry_index(e: EntryModel) -> usize {
    match e {
        EntryModel::Added { index, .. } => index,
        EntryModel::Removed { index, .. } => index,
        EntryModel::Unchanged { index, .. } => index,
    }
}

proof fn lemma_entries_prefix_name_nodes(old: Seq<CodeNode>, new: Seq<CodeNode>, k: int)
    requires
        0 <= k <= usize::MAX + 1,
    ensures
        forall|j: int|
            0 <= j < diff_entries(old, new, k).len() ==> {
                &&& names_its_node(#[trigger] diff_entries(old, new, k)[j], old, new)
                &&& entry_index(diff_entries(old, new, k)[j]) < k
            },
    decreases k,
{
    if k > 0 {
        lemma_entries_prefix_name_nodes(old, new, k - 1);
        let a = diff_entries(old, new, k - 1);
        let b = entries_at(old, new, k - 1);
        assert forall|j: int| 0 <= j < (a + b).len() implies {
            &&& names_its_node(#[trigger] (a + b)[j], old, new)
            &&& entry_index((a + b)[j]) < k
        } by {
            if j >= a.len() {
                assert((a + b)[j] == b[j - a.len()]);
            } else {
                assert((a + b)[j] == a[j]);
            }
        }
    }
}

/// Every entry of a diff names a node at its own index: a removed entry
/// with index `i` carries the type and the label of the old graph's node
/// `i`, and `i` is below the old graph's node count; an added entry with
/// index `i` carries the type and the label of the new graph's node `i`,
/// and `i` is below the new graph's node count; an unchanged entry with
/// index `i` carries the type that node `i` has in both graphs.
pub proof fn lemma_diff_entries_name_their_nodes(old: CodeGraph, new: CodeGraph)
    requires
        old.node_count == old.nodes@.len(),
        new.node_count == new.nodes@.len(),
    ensures
        ({
            let e = diff_entries(
                old.nodes@,
                new.nodes@,
                if old.node_count >= new.node_count {
                    old.node_count as int
                } else {
                    new.node_count as int
                },
            );
            forall|j: int|
                0 <= j < e.len() ==> match #[trigger] e[j] {
                    EntryModel::Removed { index, node_type, label } => {
                        &&& index < old.node_count
                        &&& node_type == old.nodes@[index as int].node_type@
                        &&& label == label_view(old.nodes@[index as int].label)
                    },
                    EntryModel::Added { index, node_type, label } => {
                        &&& index < new.node_count
                        &&& node_type == new.nodes@[index as int].node_type@
                        &&& label == label_view(new.nodes@[index as int].label)
                    },
                    EntryModel::Unchanged { index, node_type } => {
                        &&& index < old.node_count
                        &&& index < new.node_count
                        &&& node_type == old.nodes@[index as int].node_type@
                        &&& node_type == new.nodes@[index as int].node_type@
                    },
                }
        }),
{
    let m = if old.node_count >= new.node_count {
        old.node_count as int
    } else {
        new.node_count as int
    };
    lemma_entries_prefix_name_nodes(old.nodes@, new.nodes@, m);
    let e = diff_entries(old.nodes@, new.nodes@, m);
    assert forall|j: int| 0 <= j < e.len() implies names_its_node(#[trigger] e[j], old.nodes@, new.nodes@) by {}
}

/// `n` in decimal, right-aligned with spaces to at least `width` characters.
pub open spec fn padded(n: nat, width: nat) -> Seq<char> {
    if decimal(n).len() < width {
        Seq::new((width - decimal(n).len()) as nat, |i: int| ' ') + decimal(n)
    } else {
        decimal(n)
    }
}

/// `" (label)"` for a label, nothing without one.
pub open spec fn label_suffix(label: Option<Seq<char>>) -> Seq<char> {
    match label {
        Some(l) => " ("@ + l + ")"@,
        None => Seq::empty(),
    }
}

/// The report line of an entry: a marker (`+` added, `-` removed, a space
/// unchanged), the index right-aligned in three columns between brackets,
/// the node type, and the label in parentheses where there is one.
pub open spec fn entry_line(e: EntryModel) -> Seq<char> {
    match e {
        EntryModel::Added { index, node_type, label } => "+ ["@ + padded(index as nat, 3) + "] "@
            + node_type + label_suffix(label),
        EntryModel::Removed { index, node_type, label } => "- ["@ + padded(index as nat, 3)
            + "] "@ + node_type + label_suffix(label),
        EntryModel::Unchanged { index, node_type } => "  ["@ + padded(index as nat, 3) + "] "@
            + node_type,
    }
}

/// `padded(n, width)` is `n` in decimal preceded by `width - digits` spaces
/// when `n` has fewer than `width` digits, and by none otherwise: it is
/// `max(width, digits)` characters long, all spaces but the last `digits`,
/// which spell `n`.
pub proof fn lemma_padded_shape(n: nat, width: nat)
    ensures
        ({
            let p = padded(n, width);
            let d = decimal(n);
            &&& p.len() == if d.len() < width {
                width as int
            } else {
                d.len() as int
            }
            &&& forall|j: int| 0 <= j < p.len() - d.len() ==> #[trigger] p[j] == ' '
            &&& p.subrange(p.len() - d.len(), p.len() as int) == d
        }),
{
    let p = padded(n, width);
    let d = decimal(n);
    if d.len() < width {
        let sp = Seq::new((width - d.len()) as nat, |i: int| ' ');
        assert(p.subrange(p.len() - d.len(), p.len() as int) =~= d);
        assert forall|j: int| 0 <= j < p.len() - d.len() implies #[trigger] p[j] == ' ' by {
            assert(p[j] == sp[j]);
        }
    } else {
        assert(p.subrange(0, p.len() as int) =~= d);
    }
}

/// The index column of every report line: the marker and a space, then
/// `[`, then the entry's index in decimal right-aligned in three columns,
/// then `]`. The text between the brackets is `max(3, digits)` characters
/// long: `3 - digits` spaces when the index has fewer than three digits,
/// none otherwise, then the digits of the index.
pub proof fn lemma_line_index_column(e: EntryModel)
    ensures
        ({
            let line = entry_line(e);
            let d = decimal(entry_index(e) as nat);
            let w: int = if d.len() < 3 {
                3
            } else {
                d.len() as int
            };
            &&& line.len() > 3 + w
            &&& line[2] == '['
            &&& line[3 + w] == ']'
            &&& forall|j: int| 3 <= j < 3 + w - d.len() ==> #[trigger] line[j] == ' '
            &&& line.subrange(3 + w - d.len(), 3 + w) == d
        }),
{
    reveal_strlit("+ [");
    reveal_strlit("- [");
    reveal_strlit("  [");
    reveal_strlit("] ");
    let n = entry_index(e) as nat;
    lemma_padded_shape(n, 3);
    let p = padded(n, 3);
    let d = decimal(n);
    let line = entry_line(e);
    let head: Seq<char> = match e {
        EntryModel::Added { .. } => "+ ["@,
        EntryModel::Removed { .. } => "- ["@,
        EntryModel::Unchanged { .. } => "  ["@,
    };
    let tail: Seq<char> = match e {
        EntryModel::Added { node_type, label, .. } => node_type + label_suffix(label),
        EntryModel::Removed { node_type, label, .. } => node_type + label_suffix(label),
        EntryModel::Unchanged { node_type, .. } => node_type,
    };
    assert(line =~= head + p + "] "@ + tail);
    assert forall|j: int| 3 <= j < 3 + p.len() - d.len() implies #[trigger] line[j] == ' ' by {
        assert(line[j] == p[j - 3]);
    }
    assert(line.subrange(3 + p.len() - d.len(), 3 + p.len() as int) =~= p.subrange(
        p.len() - d.len(),
        p.len() as int,
    ));
}

/// Appends `n` right-aligned in three columns.
fn append_index(s: &mut String, n: usize)
    ensures
        final(s)@ == old(s)@ + padded(n as nat, 3),
{
    let digits = decimal_string(n);
    let ghost start = s@;
    let mut k: usize = digits.as_str().unicode_len();
    while k < 3
        invariant
            digits@ == decimal(n as nat),
            k <= 3 || k == digits@.len(),
            k >= digits@.len(),
            s@ == start + Seq::new((k - digits@.len()) as nat, |i: int| ' '),
        decreases 3 - k,
    {
        let ghost before = s@;
        s.append(" ");
        proof {
            reveal_strlit(" ");
            assert(s@ =~= start + Seq::new((k + 1 - digits@.len()) as nat, |i: int| ' '));
        }
        k = k + 1;
    }
    let ghost mid = s@;
    s.append(digits.as_str());
    proof {
        if digits@.len() >= 3 {
            assert(mid =~= start);
        }
        assert(s@ =~= start + padded(n as nat, 3));
    }
}

/// Appends `" (label)"` for a label.
fn append_label(s: &mut String, label: &Option<String>)
    ensures
        final(s)@ == old(s)@ + label_suffix(label_view(*label)),
{
    match label {
        Some(l) => {
            s.append(" (");
            s.append(l.as_str());
            s.append(")");
        },
        None => {
            assert(s@ =~= s@ + Seq::<char>::empty());
        },
    }
}

impl DiffEntry {
    /// The report line of this entry (see `entry_line`).
    pub fn line(&self) -> (r: String)
        ensures
            r@ == entry_line(self@),
    {
        match self {
            DiffEntry::Added { index, node_type, label } => {
                let mut s = String::from_str("+ [");
                append_index(&mut s, *index);
                s.append("] ");
                s.append(node_type.as_str());
                append_label(&mut s, label);
                s
            },
            DiffEntry::Removed { index, node_type, label } => {
                let mut s = String::from_str("- [");
                append_index(&mut s, *index);
                s.append("] ");
                s.append(node_type.as_str());
                append_label(&mut s, label);
                s
            },
            DiffEntry::Unchanged { index, node_type } => {
                let mut s = String::from_str("  [");
                append_index(&mut s, *index);
                s.append("] ");
                s.append(node_type.as_str());
                s
            },
        }
    }
}

impl StructuralDiff {
    /// `"Structural Diff: {old} → {new} nodes"`.
    pub fn title_line(&self) -> (r: String)
        ensures
            r@ == "Structural Diff: "@ + decimal(self.old_node_count as nat) + " → "@ + decimal(
                self.new_node_count as nat,
            ) + " nodes"@,
    {
        let mut s = String::from_str("Structural Diff: ");
        s.append(decimal_string(self.old_node_count).as_str());
        s.append(" → ");
        s.append(decimal_string(self.new_node_count).as_str());
        s.append(" nodes");
        s
    }

    /// `"  Added: {a}  Removed: {r}  Unchanged: {u}"` with the entry counts.
    pub fn counts_line(&self) -> (r: String)
        ensures
            r@ == "  Added: "@ + decimal(count_added(self.entries_view())) + "  Removed: "@
                + decimal(count_removed(self.entries_view())) + "  Unchanged: "@ + decimal(
                count_unchanged(self.entries_view()),
            ),
    {
        let mut s = String::from_str("  Added: ");
        s.append(decimal_string(self.added_count()).as_str());
        s.append("  Removed: ");
        s.append(decimal_string(self.removed_count()).as_str());
        s.append("  Unchanged: ");
        s.append(decimal_string(self.unchanged_count()).as_str());
        s
    }
}

} // verus!
