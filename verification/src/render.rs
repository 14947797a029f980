//! A report drawn as trees of text.

use vstd::prelude::*;
use crate::groups::{GroupKey, Groups};
use crate::manifest::{Document, DocumentView};
use crate::paths::path_views;
use crate::scan::Report;

verus! {

/// One branch of a tree: its label, and the leaves that hang from it.
pub struct Branch {
    pub label: String,
    pub leaves: Vec<String>,
}

/// The labels of a list of branches.
pub open spec fn branch_labels(branches: Seq<Branch>) -> Seq<Seq<char>> {
    branches.map_values(|branch: Branch| branch.label@)
}

/// The leaves of a list of branches, branch by branch.
pub open spec fn branch_leaves(branches: Seq<Branch>) -> Seq<Seq<Seq<char>>> {
    branches.map_values(|branch: Branch| path_views(branch.leaves@))
}

/// The text that `termtree` draws for the tree with the root `root`, one
/// branch for each of `labels`, and below the branch at position `i` one
/// leaf for each of `leaves[i]`.
pub uninterp spec fn tree_text(
    root: Seq<char>,
    labels: Seq<Seq<char>>,
    leaves: Seq<Seq<Seq<char>>>,
) -> Seq<char>;

/// Draws a tree of two levels with `termtree`.
///
/// The arguments are made into a `termtree::Tree<String>`: `Tree::new` makes
/// the root and each branch, `Tree::with_leaves` hangs the leaves of a
/// branch below it, and `Tree::push` hangs the branches below the root, all
/// in the order given. The text is what the `Display` impl of that tree
/// writes. The contract claims of it only that it is `tree_text` of the
/// labels handed in: the same labels give the same text.
#[verifier::external_body]
fn draw_tree(root: &str, branches: &Vec<Branch>) -> (text: String)
    ensures
        text@ == tree_text(root@, branch_labels(branches@), branch_leaves(branches@)),
{
    let mut tree = termtree::Tree::new(root.to_string());
    for branch in branches {
        let leaves = branch.leaves.iter().cloned();
        tree.push(termtree::Tree::new(branch.label.clone()).with_leaves(leaves));
    }
    tree.to_string()
}

/// A key that a group can be labelled with when it is drawn.
pub trait BranchLabel: GroupKey {
    /// The label of the group with the identity `id`.
    spec fn label_of(id: Self::Id) -> Seq<char>;

    fn label(&self) -> (label: String)
        ensures
            label@ == Self::label_of(self.id()),
    ;
}

/// A key is labelled with its identifier.
impl BranchLabel for String {
    open spec fn label_of(id: Seq<char>) -> Seq<char> {
        id
    }

    fn label(&self) -> (label: String) {
        self.clone()
    }
}

/// A manifest is labelled with its name.
impl BranchLabel for Document {
    open spec fn label_of(id: DocumentView) -> Seq<char> {
        id.meta.name
    }

    fn label(&self) -> (label: String) {
        self.get_meta().get_name().to_owned()
    }
}

/// The labels under which the groups of a mapping are drawn.
pub open spec fn group_labels<K: BranchLabel>(groups: Groups<K>) -> Seq<Seq<char>> {
    groups.ids().map_values(|id: K::Id| K::label_of(id))
}

/// The branches that draw a mapping: one for each group, in the order of
/// the groups, with the files of the group as its leaves.
pub fn branches<K: BranchLabel>(groups: &Groups<K>) -> (branches: Vec<Branch>)
    requires
        groups.well_formed(),
    ensures
        branch_labels(branches@) == group_labels(*groups),
        branch_leaves(branches@) == groups.listings(),
{
    let mut branches: Vec<Branch> = Vec::new();
    let mut i: usize = 0;
    while i < groups.len()
        invariant
            groups.well_formed(),
            i <= groups.ids().len(),
            branches@.len() == i,
            forall|j: int| 0 <= j < i ==> (#[trigger] branches@[j]).label@ == K::label_of(groups.ids()[j]),
            forall|j: int|
                0 <= j < i ==> path_views((#[trigger] branches@[j]).leaves@) == groups.listing(j),
        decreases groups.ids().len() - i,
    {
        let label = groups.key(i).label();
        let leaves = groups.files(i).to_vec();
        branches.push(Branch { label, leaves });
        i += 1;
    }
    proof {
        assert(branch_labels(branches@) =~= group_labels(*groups));
        assert(branch_leaves(branches@) =~= groups.listings());
    }
    branches
}

/// Draws a mapping as a tree below the root `root`.
pub fn render<K: BranchLabel>(root: &str, groups: &Groups<K>) -> (text: String)
    requires
        groups.well_formed(),
    ensures
        text@ == tree_text(root@, group_labels(*groups), groups.listings()),
{
    let branches = branches(groups);
    draw_tree(root, &branches)
}

impl Report {
    /// The tree of the keys in use: below each key, the files that use it.
    pub fn render_key_usage(&self) -> (text: String)
        requires
            self.well_formed(),
        ensures
            text@ == tree_text(
                "kms_keys"@,
                group_labels(self.key_usage),
                self.key_usage.listings(),
            ),
    {
        render("kms_keys", &self.key_usage)
    }

    /// The tree of the duplicated manifests: below the name of each, the
    /// files that hold it.
    pub fn render_duplicates(&self) -> (text: String)
        requires
            self.well_formed(),
        ensures
            text@ == tree_text(
                "duped documents"@,
                group_labels(self.duplicates),
                self.duplicates.listings(),
            ),
    {
        render("duped documents", &self.duplicates)
    }
}

} // verus!
