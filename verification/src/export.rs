//! Depth-limited export of a size tree into a wire-friendly nested shape.
//!
//! An exported node is either a leaf carrying a value or an internal node
//! carrying children: a tree node within the depth budget that has something
//! to expand is exported with its parts as children, anything else collapses
//! to a single leaf carrying the node's own size, so no byte count is ever
//! lost, only its breakdown.

use vstd::prelude::*;

use crate::engine::{
    count_resolved, fully_resolved, lemma_attribute_props, m_attribute, LocationModel,
};
use crate::node::{
    acc_children, children_model, dirs_exact, dirs_exact_children, lemma_acc_children,
    lemma_children_model, lemma_dirs_exact_children, lemma_lines_exact_children,
    lemma_lines_model, lines_exact, lines_model, m_acc, sum_lines, sum_sizes, NodeModel,
    TreemapNode,
};

verus! {

/// What an exported node holds besides its name: a plain value, or children.
#[derive(Debug, PartialEq, Eq)]
pub enum NodeKind {
    Value(u64),
    Children(Vec<Node>),
}

/// One node of the exported shape.
#[derive(Debug, PartialEq, Eq)]
pub struct Node {
    pub name: String,
    pub kind: NodeKind,
}

/// The model of an exported node.
pub enum ExportModel {
    Value { name: Seq<char>, value: nat },
    Children { name: Seq<char>, children: Seq<ExportModel> },
}

/// The model of a [`Node`].
pub open spec fn export_node_model(n: Node) -> ExportModel
    decreases n,
{
    match n.kind {
        NodeKind::Value(v) => ExportModel::Value { name: n.name@, value: v as nat },
        NodeKind::Children(cs) => ExportModel::Children {
            name: n.name@,
            children: export_children_model(cs@),
        },
    }
}

/// The models of a sequence of exported nodes, in order.
pub open spec fn export_children_model(s: Seq<Node>) -> Seq<ExportModel>
    decreases s,
{
    if s.len() == 0 {
        Seq::empty()
    } else {
        export_children_model(s.drop_last()).push(export_node_model(s.last()))
    }
}

impl View for Node {
    type V = ExportModel;

    open spec fn view(&self) -> ExportModel {
        export_node_model(*self)
    }
}

/// `export_children_model` maps `export_node_model`, element by element.
pub proof fn lemma_export_children_model(s: Seq<Node>)
    ensures
        export_children_model(s).len() == s.len(),
        forall|i: int| 0 <= i < s.len() ==> #[trigger] export_children_model(s)[i]
            == export_node_model(s[i]),
    decreases s,
{
    if s.len() > 0 {
        lemma_export_children_model(s.drop_last());
    }
}

/// The decimal digit for `d`.
pub open spec fn digit_char(d: nat) -> char {
    if d == 0 {
        '0'
    } else if d == 1 {
        '1'
    } else if d == 2 {
        '2'
    } else if d == 3 {
        '3'
    } else if d == 4 {
        '4'
    } else if d == 5 {
        '5'
    } else if d == 6 {
        '6'
    } else if d == 7 {
        '7'
    } else if d == 8 {
        '8'
    } else {
        '9'
    }
}

/// The decimal digits of `n`, most significant first.
pub open spec fn dec_digits(n: nat) -> Seq<char>
    decreases n,
{
    if n < 10 {
        seq![digit_char(n)]
    } else {
        dec_digits(n / 10).push(digit_char(n % 10))
    }
}

/// The single-digit string for `d`.
fn digit_str(d: u32) -> (r: &'static str)
    requires
        d < 10,
    ensures
        r@ == seq![digit_char(d as nat)],
{
    let r: &'static str = if d == 0 {
        "0"
    } else if d == 1 {
        "1"
    } else if d == 2 {
        "2"
    } else if d == 3 {
        "3"
    } else if d == 4 {
        "4"
    } else if d == 5 {
        "5"
    } else if d == 6 {
        "6"
    } else if d == 7 {
        "7"
    } else if d == 8 {
        "8"
    } else {
        "9"
    };
    proof {
        reveal_strlit("0");
        reveal_strlit("1");
        reveal_strlit("2");
        reveal_strlit("3");
        reveal_strlit("4");
        reveal_strlit("5");
        reveal_strlit("6");
        reveal_strlit("7");
        reveal_strlit("8");
        reveal_strlit("9");
        assert(r@ =~= seq![digit_char(d as nat)]);
    }
    r
}

/// `n` written in decimal.
pub fn decimal_string(n: u32) -> (r: String)
    ensures
        r@ == dec_digits(n as nat),
    decreases n,
{
    if n < 10 {
        let d = digit_str(n);
        let r = d.to_owned();
        proof {
            assert(r@ =~= dec_digits(n as nat));
        }
        r
    } else {
        let mut r = decimal_string(n / 10);
        let d = digit_str(n % 10);
        r.append(d);
        proof {
            assert(r@ =~= dec_digits(n as nat));
        }
        r
    }
}

/// The per-line leaves a file expands into: one value leaf per line, named
/// by the line number in decimal.
pub open spec fn m_lines_export(s: Seq<(u32, nat)>) -> Seq<ExportModel>
    decreases s,
{
    if s.len() == 0 {
        Seq::empty()
    } else {
        m_lines_export(s.drop_last()).push(
            ExportModel::Value { name: dec_digits(s.last().0 as nat), value: s.last().1 },
        )
    }
}

/// `m_lines_export` maps line entries to value leaves, element by element.
pub proof fn lemma_m_lines_export(s: Seq<(u32, nat)>)
    ensures
        m_lines_export(s).len() == s.len(),
        forall|i: int| 0 <= i < s.len() ==> #[trigger] m_lines_export(s)[i]
            == (ExportModel::Value { name: dec_digits(s[i].0 as nat), value: s[i].1 }),
    decreases s,
{
    if s.len() > 0 {
        lemma_m_lines_export(s.drop_last());
    }
}

/// The export of a node within a depth budget: a directory with children and
/// a file with line data each expand one level, if the budget allows, and
/// anything else collapses to a value leaf carrying the node's own size.
pub open spec fn m_export(n: NodeModel, depth: nat) -> ExportModel
    decreases n, 1int,
{
    match n {
        NodeModel::Directory { name, size, children } => {
            if depth > 0 && children.len() > 0 {
                ExportModel::Children {
                    name,
                    children: m_export_children(children, (depth - 1) as nat),
                }
            } else {
                ExportModel::Value { name, value: size }
            }
        },
        NodeModel::File { name, size, line_bytes } => {
            if depth > 0 && line_bytes.len() > 0 {
                ExportModel::Children { name, children: m_lines_export(line_bytes) }
            } else {
                ExportModel::Value { name, value: size }
            }
        },
    }
}

/// The exports of a sequence of nodes, in order, each within `depth`.
pub open spec fn m_export_children(s: Seq<NodeModel>, depth: nat) -> Seq<ExportModel>
    decreases s, 0int,
{
    if s.len() == 0 {
        Seq::empty()
    } else {
        m_export_children(s.drop_last(), depth).push(m_export(s.last(), depth))
    }
}

/// `m_export_children` maps `m_export`, element by element.
pub proof fn lemma_m_export_children(s: Seq<NodeModel>, depth: nat)
    ensures
        m_export_children(s, depth).len() == s.len(),
        forall|i: int| 0 <= i < s.len() ==> #[trigger] m_export_children(s, depth)[i]
            == m_export(s[i], depth),
    decreases s,
{
    if s.len() > 0 {
        lemma_m_export_children(s.drop_last(), depth);
    }
}

/// The total of an exported node: its value, or the total of its children.
pub open spec fn esum(e: ExportModel) -> nat
    decreases e, 1int,
{
    match e {
        ExportModel::Value { value, .. } => value,
        ExportModel::Children { children, .. } => esum_seq(children),
    }
}

/// The total of a sequence of exported nodes.
pub open spec fn esum_seq(s: Seq<ExportModel>) -> nat
    decreases s, 0int,
{
    if s.len() == 0 {
        0
    } else {
        esum_seq(s.drop_last()) + esum(s.last())
    }
}

/// Exact accounting wherever export can expand: a directory with children
/// holds exactly their sum, and a file with line data holds exactly the sum
/// of its line counts, throughout the subtree.
pub open spec fn m_exact(n: NodeModel) -> bool
    decreases n,
{
    match n {
        NodeModel::Directory { size, children, .. } => (children.len() > 0 ==> size == sum_sizes(
            children,
        )) && m_exact_children(children),
        NodeModel::File { size, line_bytes, .. } => line_bytes.len() > 0 ==> size == sum_lines(
            line_bytes,
        ),
    }
}

pub open spec fn m_exact_children(s: Seq<NodeModel>) -> bool
    decreases s,
{
    if s.len() == 0 {
        true
    } else {
        m_exact_children(s.drop_last()) && m_exact(s.last())
    }
}

/// The sum of the per-line leaves is the sum of the line counts.
proof fn lemma_lines_export_totals(s: Seq<(u32, nat)>)
    ensures
        esum_seq(m_lines_export(s)) == sum_lines(s),
    decreases s,
{
    if s.len() > 0 {
        lemma_lines_export_totals(s.drop_last());
        let leaf = ExportModel::Value { name: dec_digits(s.last().0 as nat), value: s.last().1 };
        assert(m_lines_export(s) == m_lines_export(s.drop_last()).push(leaf));
        assert(esum(leaf) == s.last().1);
        assert(m_lines_export(s).last() == leaf);
        assert(m_lines_export(s).drop_last() =~= m_lines_export(s.drop_last()));
    }
}

/// Export preserves totals: for every node with exact accounting and every
/// depth, the values in its export sum to exactly the node's own size —
/// collapsing changes granularity, never the aggregate.
pub proof fn lemma_export_totals(n: NodeModel, depth: nat)
    requires
        m_exact(n),
    ensures
        esum(m_export(n, depth)) == n.size(),
    decreases n, 1int,
{
    match n {
        NodeModel::Directory { name, size, children } => {
            if depth > 0 && children.len() > 0 {
                lemma_export_children_totals(children, (depth - 1) as nat);
            }
        },
        NodeModel::File { name, size, line_bytes } => {
            if depth > 0 && line_bytes.len() > 0 {
                lemma_lines_export_totals(line_bytes);
            }
        },
    }
}

/// The exports of exact nodes sum to the sum of their sizes.
proof fn lemma_export_children_totals(s: Seq<NodeModel>, depth: nat)
    requires
        m_exact_children(s),
    ensures
        esum_seq(m_export_children(s, depth)) == sum_sizes(s),
    decreases s, 0int,
{
    if s.len() > 0 {
        lemma_export_children_totals(s.drop_last(), depth);
        lemma_export_totals(s.last(), depth);
        assert(m_export_children(s, depth).drop_last() =~= m_export_children(
            s.drop_last(),
            depth,
        ));
    }
}

/// `m_exact_children` holds exactly when every element satisfies `m_exact`.
pub proof fn lemma_m_exact_children(s: Seq<NodeModel>)
    ensures
        m_exact_children(s) == (forall|i: int| 0 <= i < s.len() ==> m_exact(#[trigger] s[i])),
    decreases s,
{
    if s.len() > 0 {
        lemma_m_exact_children(s.drop_last());
        if forall|i: int| 0 <= i < s.len() ==> m_exact(#[trigger] s[i]) {
            assert forall|i: int| 0 <= i < s.drop_last().len() implies m_exact(
                #[trigger] s.drop_last()[i],
            ) by {
                assert(s.drop_last()[i] == s[i]);
            }
        }
        if m_exact_children(s) {
            assert forall|i: int| 0 <= i < s.len() implies m_exact(#[trigger] s[i]) by {
                if i < s.len() - 1 {
                    assert(s[i] == s.drop_last()[i]);
                }
            }
        }
    }
}

/// A subtree whose directories are exact and whose files are line-complete
/// is exact for export throughout.
pub proof fn lemma_exact_from_parts(n: NodeModel)
    requires
        dirs_exact(n),
        lines_exact(n),
    ensures
        m_exact(n),
    decreases n,
{
    match n {
        NodeModel::Directory { name, size, children } => {
            lemma_dirs_exact_children(children);
            lemma_lines_exact_children(children);
            lemma_m_exact_children(children);
            assert forall|k: int| 0 <= k < children.len() implies m_exact(
                #[trigger] children[k],
            ) by {
                lemma_exact_from_parts(children[k]);
            }
        },
        NodeModel::File { .. } => {},
    }
}

/// For a tree built from outputs that always carried a usable path and a
/// line number, export preserves totals outright: at every depth, the values
/// of the exported tree sum to the root's size, which is the number of
/// resolved bytes.
pub proof fn lemma_built_tree_export_totals(
    name: Seq<char>,
    outs: Seq<Option<LocationModel>>,
    depth: nat,
)
    requires
        fully_resolved(outs),
    ensures
        m_exact(m_attribute(name, outs)),
        esum(m_export(m_attribute(name, outs), depth)) == count_resolved(outs),
{
    lemma_attribute_props(name, outs);
    let t = m_attribute(name, outs);
    lemma_exact_from_parts(t);
    lemma_export_totals(t, depth);
}

/// Export never invents bytes: under sound accounting — which every built
/// tree satisfies — the values in a node's export sum to at most the node's
/// own size, at every depth. Only bytes a node cannot attribute one level
/// deeper (a line unknown, or a pathless byte at the root) fall away when
/// the node is expanded instead of collapsed.
pub proof fn lemma_export_totals_bounded(n: NodeModel, depth: nat)
    requires
        m_acc(n),
    ensures
        esum(m_export(n, depth)) <= n.size(),
    decreases n, 1int,
{
    match n {
        NodeModel::Directory { name, size, children } => {
            if depth > 0 && children.len() > 0 {
                lemma_acc_children(children);
                lemma_export_children_totals_bounded(children, (depth - 1) as nat);
            }
        },
        NodeModel::File { name, size, line_bytes } => {
            if depth > 0 && line_bytes.len() > 0 {
                lemma_lines_export_totals(line_bytes);
            }
        },
    }
}

/// The exports of soundly accounted nodes sum to at most the sum of their
/// sizes.
proof fn lemma_export_children_totals_bounded(s: Seq<NodeModel>, depth: nat)
    requires
        acc_children(s),
    ensures
        esum_seq(m_export_children(s, depth)) <= sum_sizes(s),
    decreases s, 0int,
{
    if s.len() > 0 {
        lemma_export_children_totals_bounded(s.drop_last(), depth);
        lemma_export_totals_bounded(s.last(), depth);
        assert(m_export_children(s, depth).drop_last() =~= m_export_children(
            s.drop_last(),
            depth,
        ));
    }
}

/// Convert one tree node into the exported shape, within `max_depth`.
pub fn node_to_node(node: &TreemapNode, max_depth: u64) -> (r: Node)
    ensures
        r@ == m_export(node@, max_depth as nat),
    decreases node,
{
    match node {
        TreemapNode::Directory { name, size, children } => {
            if max_depth > 0 && children.len() > 0 {
                let ghost gmodel = children_model(children@);
                let ghost gdepth = (max_depth - 1) as nat;
                let mut out: Vec<Node> = Vec::new();
                let n = children.len();
                let mut k: usize = 0;
                while k < n
                    invariant
                        0 <= k <= n,
                        n == children@.len(),
                        max_depth > 0,
                        *node is Directory,
                        children@ == node->Directory_children@,
                        gmodel == children_model(children@),
                        gdepth == (max_depth - 1) as nat,
                        out@.len() == k,
                        forall|i: int| 0 <= i < k ==> (#[trigger] out@[i])@ == m_export(
                            children@[i]@,
                            gdepth,
                        ),
                    decreases n - k,
                {
                    proof {
                        assert(decreases_to!(*node => node->Directory_children));
                        assert(decreases_to!(node->Directory_children
                            => node->Directory_children@));
                        assert(decreases_to!(node->Directory_children@
                            => node->Directory_children@[k as int]));
                        assert(children@ == node->Directory_children@);
                        assert(decreases_to!(*node => children@[k as int]));
                    }
                    let child_node = node_to_node(&children[k], max_depth - 1);
                    out.push(child_node);
                    k = k + 1;
                }
                let r = Node { name: name.clone(), kind: NodeKind::Children(out) };
                proof {
                    lemma_children_model(children@);
                    lemma_m_export_children(gmodel, gdepth);
                    lemma_export_children_model(r.kind->Children_0@);
                    assert(export_children_model(r.kind->Children_0@) =~= m_export_children(
                        gmodel,
                        gdepth,
                    ));
                }
                r
            } else {
                Node { name: name.clone(), kind: NodeKind::Value(*size) }
            }
        },
        TreemapNode::File { name, size, line_to_bytes } => {
            if max_depth > 0 && line_to_bytes.len() > 0 {
                let ghost gmodel = lines_model(line_to_bytes@);
                let mut out: Vec<Node> = Vec::new();
                let n = line_to_bytes.len();
                let mut k: usize = 0;
                while k < n
                    invariant
                        0 <= k <= n,
                        n == line_to_bytes@.len(),
                        gmodel == lines_model(line_to_bytes@),
                        out@.len() == k,
                        forall|i: int| 0 <= i < k ==> (#[trigger] out@[i])@
                            == (ExportModel::Value {
                            name: dec_digits(line_to_bytes@[i].0 as nat),
                            value: line_to_bytes@[i].1 as nat,
                        }),
                    decreases n - k,
                {
                    let entry = line_to_bytes[k];
                    let leaf = Node {
                        name: decimal_string(entry.0),
                        kind: NodeKind::Value(entry.1),
                    };
                    out.push(leaf);
                    k = k + 1;
                }
                let r = Node { name: name.clone(), kind: NodeKind::Children(out) };
                proof {
                    lemma_lines_model(line_to_bytes@);
                    lemma_m_lines_export(gmodel);
                    lemma_export_children_model(r.kind->Children_0@);
                    assert(export_children_model(r.kind->Children_0@) =~= m_lines_export(gmodel));
                }
                r
            } else {
                Node { name: name.clone(), kind: NodeKind::Value(*size) }
            }
        },
    }
}

/// Depth-limited export: the whole subtree under `node`, with levels beyond
/// `max_depth` collapsed into aggregate leaves.
pub fn export(node: &TreemapNode, max_depth: u64) -> (r: Node)
    ensures
        r@ == m_export(node@, max_depth as nat),
{
    node_to_node(node, max_depth)
}

} // verus!
