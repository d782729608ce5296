//! Trees made for showing: what each snapshot differs by from its parent,
//! and one line of text for each node.

use crate::inference::driver::{compare_versions, compared, no_difference};
use crate::text::{decimal, push_decimal};
use crate::tree::{
    lemma_mapped_related, lemma_mapped_related_with_parent, lemma_may_map_all,
    lemma_may_map_with_parent_all, related, related_with_parent, TreeNode,
};
use crate::types::{DiffInfo, DiffSummary, DivCalcResult, Version};
use vstd::prelude::*;
use vstd::string::StringExecFns;

verus! {

/// What a snapshot with this name differs by, given the result of its
/// comparison.
pub open spec fn summary_of(name: Seq<char>, result: DivCalcResult) -> DiffSummary {
    DiffSummary {
        name,
        added: result.added,
        deleted: result.deleted,
        modified: result.modified,
        divergence: result.divergence,
    }
}

/// What a snapshot differs by from its parent; from nothing, where it has
/// no parent.
pub open spec fn version_summary(version: Version, parent: Option<Version>) -> DiffSummary {
    match parent {
        Some(p) => summary_of(version.name@, compared(p.files@, version.files@).0),
        None => summary_of(version.name@, no_difference()),
    }
}

/// The information says what the snapshot differs by from its parent.
pub open spec fn summarises(version: Version, parent: Option<Version>, info: DiffInfo) -> bool {
    info@ == version_summary(version, parent)
}

/// Says what a snapshot differs by from its parent.
fn describe_version(v: &Version, parent: Option<&Version>) -> (info: DiffInfo)
    ensures
        info@ == version_summary(*v, crate::tree::parent_value(parent)),
{
    match parent {
        Some(p) => {
            let forward = compare_versions(p, v).0;
            DiffInfo {
                name: v.name.clone(),
                added: forward.added,
                deleted: forward.deleted,
                modified: forward.modified,
                divergence: forward.divergence,
            }
        },
        None => DiffInfo { name: v.name.clone(), added: 0, deleted: 0, modified: 0, divergence: 0 },
    }
}

/// Turns a tree of snapshots into the tree of what each snapshot differs by
/// from its parent: the same shape, and at each place the snapshot's name
/// with the files added, deleted and modified on the way from the parent
/// and the divergence of that way. The root differs by nothing.
pub fn produce_diff_tree(node: &TreeNode<Version>) -> (diff_tree: TreeNode<DiffInfo>)
    ensures
        related_with_parent(
            node@,
            None,
            diff_tree@,
            |v: Version, p: Option<Version>, d: DiffInfo| summarises(v, p, d),
        ),
{
    proof {
        lemma_may_map_with_parent_all(node@, None, describe_version);
    }
    let diff_tree = node.map_with_parent(&describe_version, None);
    proof {
        lemma_mapped_related_with_parent(
            node@,
            None,
            describe_version,
            diff_tree@,
            |v: Version, p: Option<Version>, d: DiffInfo| summarises(v, p, d),
        );
    }
    diff_tree
}

/// The line that stands for a node: the name, then the numbers of files
/// added, deleted and modified.
pub open spec fn label_text(info: DiffSummary) -> Seq<char> {
    info.name + " - FILES: "@ + decimal(info.added as nat) + " A, "@ + decimal(
        info.deleted as nat,
    ) + " D, "@ + decimal(info.modified as nat) + " M"@
}

/// The label is the line that stands for the information.
pub open spec fn labels(info: DiffInfo, label: String) -> bool {
    label@ == label_text(info@)
}

/// Writes the line that stands for a node.
fn label_of(d: &DiffInfo) -> (label: String)
    ensures
        label@ == label_text(d@),
{
    let mut label = d.name.clone();
    label.append(" - FILES: ");
    push_decimal(&mut label, d.added as u128);
    label.append(" A, ");
    push_decimal(&mut label, d.deleted as u128);
    label.append(" D, ");
    push_decimal(&mut label, d.modified as u128);
    label.append(" M");
    label
}

/// Turns the tree of differences into a tree of lines of text: the same
/// shape, and at each place the line `NAME - FILES: a A, d D, m M` of the
/// node at that place.
pub fn produce_label_tree(diff_tree: &TreeNode<DiffInfo>) -> (label_tree: TreeNode<String>)
    ensures
        related(diff_tree@, label_tree@, |d: DiffInfo, label: String| labels(d, label)),
{
    proof {
        lemma_may_map_all(diff_tree@, label_of);
    }
    let label_tree = diff_tree.map(&label_of);
    proof {
        lemma_mapped_related(
            diff_tree@,
            label_of,
            label_tree@,
            |d: DiffInfo, label: String| labels(d, label),
        );
    }
    label_tree
}

} // verus!
