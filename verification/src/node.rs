//! The size tree and its mathematical model.

use vstd::prelude::*;

verus! {

/// One node of the size tree.
///
/// A `Directory` owns its children exclusively (a tree, not a graph); a `File`
/// is always a leaf and carries how its bytes are distributed over source
/// lines. Children are keyed by the `name` stored in each child; a lookup
/// takes the first match, and construction never creates a second child with
/// the name of an existing one. The `size` of every node is a plain count of
/// attributed bytes.
#[derive(Debug, PartialEq, Eq)]
pub enum TreemapNode {
    Directory { name: String, size: u64, children: Vec<TreemapNode> },
    File { name: String, size: u64, line_to_bytes: Vec<(u32, u64)> },
}

/// A bare aggregation node: a byte count and how it is distributed among
/// named children, with no variant tag and no per-line detail.
#[derive(Debug, PartialEq, Eq)]
pub struct DataNode {
    pub size: u64,
    pub sub_components: Vec<(String, DataNode)>,
}

/// The model of a [`TreemapNode`]: names as character sequences and sizes as
/// unbounded naturals. All contracts of this crate speak over this type.
pub enum NodeModel {
    Directory { name: Seq<char>, size: nat, children: Seq<NodeModel> },
    File { name: Seq<char>, size: nat, line_bytes: Seq<(u32, nat)> },
}

impl NodeModel {
    /// The byte count of the node, whichever variant it is.
    pub open spec fn size(self) -> nat {
        match self {
            NodeModel::Directory { size, .. } => size,
            NodeModel::File { size, .. } => size,
        }
    }

    /// The name of the node, whichever variant it is.
    pub open spec fn name(self) -> Seq<char> {
        match self {
            NodeModel::Directory { name, .. } => name,
            NodeModel::File { name, .. } => name,
        }
    }
}

/// The model of a node: sizes become naturals, strings become their
/// character sequences.
pub open spec fn node_model(n: TreemapNode) -> NodeModel
    decreases n,
{
    match n {
        TreemapNode::Directory { name, size, children } => NodeModel::Directory {
            name: name@,
            size: size as nat,
            children: children_model(children@),
        },
        TreemapNode::File { name, size, line_to_bytes } => NodeModel::File {
            name: name@,
            size: size as nat,
            line_bytes: lines_model(line_to_bytes@),
        },
    }
}

/// The models of a sequence of nodes, in order.
pub open spec fn children_model(s: Seq<TreemapNode>) -> Seq<NodeModel>
    decreases s,
{
    if s.len() == 0 {
        Seq::empty()
    } else {
        children_model(s.drop_last()).push(node_model(s.last()))
    }
}

/// The model of a line table: counts become naturals.
pub open spec fn lines_model(s: Seq<(u32, u64)>) -> Seq<(u32, nat)>
    decreases s,
{
    if s.len() == 0 {
        Seq::empty()
    } else {
        lines_model(s.drop_last()).push((s.last().0, s.last().1 as nat))
    }
}

impl View for TreemapNode {
    type V = NodeModel;

    open spec fn view(&self) -> NodeModel {
        node_model(*self)
    }
}

/// `children_model` maps `node_model` over the sequence, element by element.
pub proof fn lemma_children_model(s: Seq<TreemapNode>)
    ensures
        children_model(s).len() == s.len(),
        forall|i: int| 0 <= i < s.len() ==> #[trigger] children_model(s)[i] == node_model(s[i]),
    decreases s,
{
    if s.len() > 0 {
        lemma_children_model(s.drop_last());
    }
}

/// `lines_model` keeps keys and lifts counts, element by element.
pub proof fn lemma_lines_model(s: Seq<(u32, u64)>)
    ensures
        lines_model(s).len() == s.len(),
        forall|i: int| 0 <= i < s.len() ==> #[trigger] lines_model(s)[i]
            == (s[i].0, s[i].1 as nat),
    decreases s,
{
    if s.len() > 0 {
        lemma_lines_model(s.drop_last());
    }
}

/// The sum of the sizes of a sequence of nodes.
pub open spec fn sum_sizes(s: Seq<NodeModel>) -> nat
    decreases s,
{
    if s.len() == 0 {
        0
    } else {
        sum_sizes(s.drop_last()) + s.last().size()
    }
}

/// The sum of the byte counts of a line table.
pub open spec fn sum_lines(s: Seq<(u32, nat)>) -> nat
    decreases s,
{
    if s.len() == 0 {
        0
    } else {
        sum_lines(s.drop_last()) + s.last().1
    }
}

/// The accounting invariant: no node claims fewer bytes than its parts.
///
/// A `Directory` holds at least the sum of its children's sizes, and a `File`
/// at least the sum of its per-line counts; the difference is the bytes known
/// at this node but not attributable one level deeper.
pub open spec fn m_acc(n: NodeModel) -> bool
    decreases n,
{
    match n {
        NodeModel::Directory { size, children, .. } => sum_sizes(children) <= size
            && acc_children(children),
        NodeModel::File { size, line_bytes, .. } => sum_lines(line_bytes) <= size,
    }
}

pub open spec fn acc_children(s: Seq<NodeModel>) -> bool
    decreases s,
{
    if s.len() == 0 {
        true
    } else {
        acc_children(s.drop_last()) && m_acc(s.last())
    }
}

/// Exact accounting for every directory in the subtree: each directory's size
/// equals the sum of its children's sizes, with nothing attributed directly at
/// the directory itself.
pub open spec fn dirs_exact(n: NodeModel) -> bool
    decreases n,
{
    match n {
        NodeModel::Directory { size, children, .. } => size == sum_sizes(children)
            && dirs_exact_children(children),
        NodeModel::File { .. } => true,
    }
}

pub open spec fn dirs_exact_children(s: Seq<NodeModel>) -> bool
    decreases s,
{
    if s.len() == 0 {
        true
    } else {
        dirs_exact_children(s.drop_last()) && dirs_exact(s.last())
    }
}

/// Line completeness: every file in the subtree attributes each of its bytes
/// to a line, so its size equals the sum of its line counts. This holds of a
/// built tree whenever the resolver reported a line for every byte that
/// reached a file.
pub open spec fn lines_exact(n: NodeModel) -> bool
    decreases n,
{
    match n {
        NodeModel::File { size, line_bytes, .. } => size == sum_lines(line_bytes),
        NodeModel::Directory { children, .. } => lines_exact_children(children),
    }
}

pub open spec fn lines_exact_children(s: Seq<NodeModel>) -> bool
    decreases s,
{
    if s.len() == 0 {
        true
    } else {
        lines_exact_children(s.drop_last()) && lines_exact(s.last())
    }
}

/// `lines_exact_children` holds exactly when every element satisfies
/// `lines_exact`.
pub proof fn lemma_lines_exact_children(s: Seq<NodeModel>)
    ensures
        lines_exact_children(s) == (forall|i: int|
            0 <= i < s.len() ==> lines_exact(#[trigger] s[i])),
    decreases s,
{
    if s.len() > 0 {
        lemma_lines_exact_children(s.drop_last());
        if forall|i: int| 0 <= i < s.len() ==> lines_exact(#[trigger] s[i]) {
            assert forall|i: int| 0 <= i < s.drop_last().len() implies lines_exact(
                #[trigger] s.drop_last()[i],
            ) by {
                assert(s.drop_last()[i] == s[i]);
            }
        }
        if lines_exact_children(s) {
            assert forall|i: int| 0 <= i < s.len() implies lines_exact(#[trigger] s[i]) by {
                if i < s.len() - 1 {
                    assert(s[i] == s.drop_last()[i]);
                }
            }
        }
    }
}

/// Every child whose name is empty is a `File`, throughout the subtree.
///
/// Path segments are never empty, so the empty name is reserved for the
/// synthetic leaf that keeps a conflicted node's own bytes apart from its
/// children's (see [`crate::engine`]).
pub open spec fn synth_ok(n: NodeModel) -> bool
    decreases n,
{
    match n {
        NodeModel::Directory { children, .. } => (forall|i: int|
            0 <= i < children.len() && children[i].name() == Seq::<char>::empty()
                ==> children[i] is File) && synth_ok_children(children),
        NodeModel::File { .. } => true,
    }
}

pub open spec fn synth_ok_children(s: Seq<NodeModel>) -> bool
    decreases s,
{
    if s.len() == 0 {
        true
    } else {
        synth_ok_children(s.drop_last()) && synth_ok(s.last())
    }
}

/// `acc_children` holds exactly when every element satisfies `m_acc`.
pub proof fn lemma_acc_children(s: Seq<NodeModel>)
    ensures
        acc_children(s) == (forall|i: int| 0 <= i < s.len() ==> m_acc(#[trigger] s[i])),
    decreases s,
{
    if s.len() > 0 {
        lemma_acc_children(s.drop_last());
        if forall|i: int| 0 <= i < s.len() ==> m_acc(#[trigger] s[i]) {
            assert forall|i: int| 0 <= i < s.drop_last().len() implies m_acc(
                #[trigger] s.drop_last()[i],
            ) by {
                assert(s.drop_last()[i] == s[i]);
            }
        }
        if acc_children(s) {
            assert forall|i: int| 0 <= i < s.len() implies m_acc(#[trigger] s[i]) by {
                if i < s.len() - 1 {
                    assert(s[i] == s.drop_last()[i]);
                }
            }
        }
    }
}

/// `dirs_exact_children` holds exactly when every element satisfies `dirs_exact`.
pub proof fn lemma_dirs_exact_children(s: Seq<NodeModel>)
    ensures
        dirs_exact_children(s) == (forall|i: int|
            0 <= i < s.len() ==> dirs_exact(#[trigger] s[i])),
    decreases s,
{
    if s.len() > 0 {
        lemma_dirs_exact_children(s.drop_last());
        if forall|i: int| 0 <= i < s.len() ==> dirs_exact(#[trigger] s[i]) {
            assert forall|i: int| 0 <= i < s.drop_last().len() implies dirs_exact(
                #[trigger] s.drop_last()[i],
            ) by {
                assert(s.drop_last()[i] == s[i]);
            }
        }
        if dirs_exact_children(s) {
            assert forall|i: int| 0 <= i < s.len() implies dirs_exact(#[trigger] s[i]) by {
                if i < s.len() - 1 {
                    assert(s[i] == s.drop_last()[i]);
                }
            }
        }
    }
}

/// `synth_ok_children` holds exactly when every element satisfies `synth_ok`.
pub proof fn lemma_synth_ok_children(s: Seq<NodeModel>)
    ensures
        synth_ok_children(s) == (forall|i: int| 0 <= i < s.len() ==> synth_ok(#[trigger] s[i])),
    decreases s,
{
    if s.len() > 0 {
        lemma_synth_ok_children(s.drop_last());
        if forall|i: int| 0 <= i < s.len() ==> synth_ok(#[trigger] s[i]) {
            assert forall|i: int| 0 <= i < s.drop_last().len() implies synth_ok(
                #[trigger] s.drop_last()[i],
            ) by {
                assert(s.drop_last()[i] == s[i]);
            }
        }
        if synth_ok_children(s) {
            assert forall|i: int| 0 <= i < s.len() implies synth_ok(#[trigger] s[i]) by {
                if i < s.len() - 1 {
                    assert(s[i] == s.drop_last()[i]);
                }
            }
        }
    }
}

/// Every element's size is bounded by the sum of the sizes.
pub proof fn lemma_sum_sizes_bound(s: Seq<NodeModel>)
    ensures
        forall|i: int| 0 <= i < s.len() ==> (#[trigger] s[i]).size() <= sum_sizes(s),
    decreases s,
{
    if s.len() > 0 {
        lemma_sum_sizes_bound(s.drop_last());
        assert forall|i: int| 0 <= i < s.len() implies (#[trigger] s[i]).size() <= sum_sizes(
            s,
        ) by {
            if i < s.len() - 1 {
                assert(s[i] == s.drop_last()[i]);
            }
        }
    }
}

/// Every line's byte count is bounded by the sum of the counts.
pub proof fn lemma_sum_lines_bound(s: Seq<(u32, nat)>)
    ensures
        forall|i: int| 0 <= i < s.len() ==> (#[trigger] s[i]).1 <= sum_lines(s),
    decreases s,
{
    if s.len() > 0 {
        lemma_sum_lines_bound(s.drop_last());
        assert forall|i: int| 0 <= i < s.len() implies (#[trigger] s[i]).1 <= sum_lines(s) by {
            if i < s.len() - 1 {
                assert(s[i] == s.drop_last()[i]);
            }
        }
    }
}

/// Appending a node adds its size to the sum.
pub proof fn lemma_sum_sizes_push(s: Seq<NodeModel>, x: NodeModel)
    ensures
        sum_sizes(s.push(x)) == sum_sizes(s) + x.size(),
{
    assert(s.push(x).drop_last() =~= s);
}

/// Replacing a node changes the sum by the difference of the sizes.
pub proof fn lemma_sum_sizes_update(s: Seq<NodeModel>, j: int, x: NodeModel)
    requires
        0 <= j < s.len(),
    ensures
        sum_sizes(s.update(j, x)) + s[j].size() == sum_sizes(s) + x.size(),
    decreases s,
{
    if s.len() > 0 {
        if j == s.len() - 1 {
            assert(s.update(j, x).drop_last() =~= s.drop_last());
        } else {
            lemma_sum_sizes_update(s.drop_last(), j, x);
            assert(s.update(j, x).drop_last() =~= s.drop_last().update(j, x));
        }
    }
}

/// Appending a line entry adds its count to the sum.
pub proof fn lemma_sum_lines_push(s: Seq<(u32, nat)>, x: (u32, nat))
    ensures
        sum_lines(s.push(x)) == sum_lines(s) + x.1,
{
    assert(s.push(x).drop_last() =~= s);
}

/// Replacing a line entry changes the sum by the difference of the counts.
pub proof fn lemma_sum_lines_update(s: Seq<(u32, nat)>, j: int, x: (u32, nat))
    requires
        0 <= j < s.len(),
    ensures
        sum_lines(s.update(j, x)) + s[j].1 == sum_lines(s) + x.1,
    decreases s,
{
    if s.len() > 0 {
        if j == s.len() - 1 {
            assert(s.update(j, x).drop_last() =~= s.drop_last());
        } else {
            lemma_sum_lines_update(s.drop_last(), j, x);
            assert(s.update(j, x).drop_last() =~= s.drop_last().update(j, x));
        }
    }
}

/// The same node with its size one higher.
pub open spec fn sized_up(n: NodeModel) -> NodeModel {
    match n {
        NodeModel::Directory { name, size, children } => NodeModel::Directory {
            name,
            size: (size + 1) as nat,
            children,
        },
        NodeModel::File { name, size, line_bytes } => NodeModel::File {
            name,
            size: (size + 1) as nat,
            line_bytes,
        },
    }
}

impl TreemapNode {
    /// The name of the node, whichever variant it is.
    pub fn name(&self) -> (r: &String)
        ensures
            r@ == self@.name(),
    {
        match self {
            TreemapNode::Directory { name, .. } => name,
            TreemapNode::File { name, .. } => name,
        }
    }

    /// The byte count of the node, whichever variant it is.
    pub fn size(&self) -> (r: u64)
        ensures
            r as nat == self@.size(),
    {
        match self {
            TreemapNode::Directory { size, .. } => *size,
            TreemapNode::File { size, .. } => *size,
        }
    }

    /// Count one more byte at this node, leaving everything else unchanged.
    pub fn increment_size(&mut self)
        requires
            old(self)@.size() < u64::MAX,
        ensures
            final(self)@ == sized_up(old(self)@),
    {
        match self {
            TreemapNode::Directory { size, .. } => {
                *size = *size + 1;
            },
            TreemapNode::File { size, .. } => {
                *size = *size + 1;
            },
        }
    }
}

} // verus!
