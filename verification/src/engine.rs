//! The attribution engine.
//!
//! One resolver output is recorded per probed byte offset: a byte with no
//! debug location touches nothing, any other byte is counted at the root and
//! then routed along the segments of its resolved file path, creating
//! directory nodes per segment and a file node at the final segment, and
//! finally counted against the resolved line if one is present.
//!
//! A resolver may (in principle) return one path both as a terminal file and
//! as a strict prefix of a deeper path. The node variant is then in conflict:
//! a `File` asked to act as a directory is promoted to a `Directory`, and the
//! bytes and line data of its own are kept in a synthetic leaf child with the
//! empty name, which no real path segment can ever denote. Bytes that land
//! terminally on an existing `Directory` are likewise kept in that synthetic
//! leaf, so that every directory's size stays exactly the sum of its
//! children's sizes.

use vstd::prelude::*;

use crate::node::{
    acc_children, children_model, dirs_exact, dirs_exact_children, lemma_acc_children,
    lemma_children_model, lemma_dirs_exact_children, lemma_lines_exact_children,
    lemma_lines_model, lemma_sum_lines_bound, lemma_sum_lines_push, lemma_sum_lines_update,
    lemma_sum_sizes_bound, lemma_sum_sizes_push, lemma_sum_sizes_update, lemma_synth_ok_children,
    lines_exact, lines_exact_children, lines_model, m_acc, sum_lines, sum_sizes, synth_ok,
    synth_ok_children, NodeModel, TreemapNode,
};
use crate::paths::{lemma_seg_split_nonempty, seg_split, split_path};

verus! {

/// A source location resolved for one byte offset: a file path, of which a
/// line number may be known. A resolver that reports a line without a file
/// violates its contract; such a line is ignored.
#[derive(Debug, PartialEq, Eq)]
pub struct Location {
    pub file: Option<String>,
    pub line: Option<u32>,
}

/// The model of a [`Location`].
pub struct LocationModel {
    pub file: Option<Seq<char>>,
    pub line: Option<u32>,
}

impl View for Location {
    type V = LocationModel;

    open spec fn view(&self) -> LocationModel {
        LocationModel {
            file: match self.file {
                Option::None => Option::None,
                Option::Some(f) => Option::Some(f@),
            },
            line: self.line,
        }
    }
}

/// The model of one resolver output.
pub open spec fn out_model(o: Option<Location>) -> Option<LocationModel> {
    match o {
        Option::None => Option::None,
        Option::Some(loc) => Option::Some(loc@),
    }
}

/// Index of the first child with the given name, or `-1` if there is none.
pub open spec fn find_child(s: Seq<NodeModel>, name: Seq<char>) -> int
    decreases s,
{
    if s.len() == 0 {
        -1
    } else if s[0].name() == name {
        0
    } else {
        let r = find_child(s.drop_first(), name);
        if r < 0 {
            -1
        } else {
            1 + r
        }
    }
}

pub proof fn lemma_find_child(s: Seq<NodeModel>, name: Seq<char>)
    ensures
        find_child(s, name) < 0 ==> forall|i: int|
            0 <= i < s.len() ==> (#[trigger] s[i]).name() != name,
        find_child(s, name) >= 0 ==> {
            &&& find_child(s, name) < s.len()
            &&& s[find_child(s, name)].name() == name
            &&& forall|i: int| 0 <= i < find_child(s, name) ==> (#[trigger] s[i]).name() != name
        },
    decreases s,
{
    if s.len() > 0 && s[0].name() != name {
        lemma_find_child(s.drop_first(), name);
        let r = find_child(s.drop_first(), name);
        if r < 0 {
            assert forall|i: int| 0 <= i < s.len() implies (#[trigger] s[i]).name() != name by {
                if i > 0 {
                    assert(s.drop_first()[i - 1].name() != name);
                }
            }
        } else {
            assert(s[1 + r] == s.drop_first()[r]);
            assert forall|i: int| 0 <= i < 1 + r implies (#[trigger] s[i]).name() != name by {
                if i > 0 {
                    assert(s.drop_first()[i - 1].name() != name);
                }
            }
        }
    }
}

/// Index of the entry for the given line, or `-1` if there is none.
pub open spec fn find_line(s: Seq<(u32, nat)>, line: u32) -> int
    decreases s,
{
    if s.len() == 0 {
        -1
    } else if s[0].0 == line {
        0
    } else {
        let r = find_line(s.drop_first(), line);
        if r < 0 {
            -1
        } else {
            1 + r
        }
    }
}

pub proof fn lemma_find_line(s: Seq<(u32, nat)>, line: u32)
    ensures
        find_line(s, line) < 0 ==> forall|i: int|
            0 <= i < s.len() ==> (#[trigger] s[i]).0 != line,
        find_line(s, line) >= 0 ==> {
            &&& find_line(s, line) < s.len()
            &&& s[find_line(s, line)].0 == line
            &&& forall|i: int| 0 <= i < find_line(s, line) ==> (#[trigger] s[i]).0 != line
        },
    decreases s,
{
    if s.len() > 0 && s[0].0 != line {
        lemma_find_line(s.drop_first(), line);
        let r = find_line(s.drop_first(), line);
        if r < 0 {
            assert forall|i: int| 0 <= i < s.len() implies (#[trigger] s[i]).0 != line by {
                if i > 0 {
                    assert(s.drop_first()[i - 1].0 != line);
                }
            }
        } else {
            assert(s[1 + r] == s.drop_first()[r]);
            assert forall|i: int| 0 <= i < 1 + r implies (#[trigger] s[i]).0 != line by {
                if i > 0 {
                    assert(s.drop_first()[i - 1].0 != line);
                }
            }
        }
    }
}

/// One more byte for the given line: the entry is raised by one, or created
/// at one; with no line, the table is unchanged.
pub open spec fn bump_lines(s: Seq<(u32, nat)>, line: Option<u32>) -> Seq<(u32, nat)> {
    match line {
        Option::None => s,
        Option::Some(l) => {
            let j = find_line(s, l);
            if j < 0 {
                s.push((l, 1))
            } else {
                s.update(j, (l, (s[j].1 + 1) as nat))
            }
        },
    }
}

/// The sum of a line table grows by one exactly when a line is present.
pub proof fn lemma_bump_lines_sum(s: Seq<(u32, nat)>, line: Option<u32>)
    ensures
        sum_lines(bump_lines(s, line)) == sum_lines(s) + match line {
            Option::None => 0,
            Option::Some(_) => 1nat,
        },
{
    match line {
        Option::None => {},
        Option::Some(l) => {
            lemma_find_line(s, l);
            let j = find_line(s, l);
            if j < 0 {
                lemma_sum_lines_push(s, (l, 1));
            } else {
                lemma_sum_lines_update(s, j, (l, (s[j].1 + 1) as nat));
            }
        },
    }
}

/// One more byte at an existing node that a path ends on: the size is raised
/// and, on a `File`, the line table is updated. A `Directory` hit this way is
/// handled by [`bump_synth`], so its children are left alone here.
pub open spec fn child_bump(n: NodeModel, line: Option<u32>) -> NodeModel {
    match n {
        NodeModel::File { name, size, line_bytes } => NodeModel::File {
            name,
            size: size + 1,
            line_bytes: bump_lines(line_bytes, line),
        },
        NodeModel::Directory { name, size, children } => NodeModel::Directory {
            name,
            size: size + 1,
            children,
        },
    }
}

/// Route one byte that ends on a directory into the synthetic leaf child
/// with the empty name, creating that leaf if it is not there yet.
pub open spec fn bump_synth(children: Seq<NodeModel>, line: Option<u32>) -> Seq<NodeModel> {
    let j = find_child(children, Seq::<char>::empty());
    if j < 0 {
        children.push(
            NodeModel::File {
                name: Seq::<char>::empty(),
                size: 1,
                line_bytes: bump_lines(Seq::<(u32, nat)>::empty(), line),
            },
        )
    } else {
        children.update(j, child_bump(children[j], line))
    }
}

/// The children a `File` gets when it is promoted to a `Directory`: its own
/// bytes and line data live on in a synthetic leaf with the empty name.
pub open spec fn promoted_children(size: nat, line_bytes: Seq<(u32, nat)>) -> Seq<NodeModel> {
    seq![NodeModel::File { name: Seq::<char>::empty(), size, line_bytes }]
}

/// A node created for the segment at `i`: a `File` at the final segment, a
/// `Directory` elsewhere, in either case still holding no bytes.
pub open spec fn fresh_node(segs: Seq<Seq<char>>, i: int) -> NodeModel {
    if i == segs.len() - 1 {
        NodeModel::File { name: segs[i], size: 0, line_bytes: Seq::empty() }
    } else {
        NodeModel::Directory { name: segs[i], size: 0, children: Seq::empty() }
    }
}

/// Enter a node with one byte whose remaining path is `segs[i..]`: the node's
/// size is raised by one, and the byte is routed one level deeper unless the
/// path ends here.
pub open spec fn m_enter(n: NodeModel, segs: Seq<Seq<char>>, i: int, line: Option<u32>) -> NodeModel
    decreases segs.len() - i, 1int,
{
    if i >= segs.len() {
        match n {
            NodeModel::File { name, size, line_bytes } => NodeModel::File {
                name,
                size: size + 1,
                line_bytes: bump_lines(line_bytes, line),
            },
            NodeModel::Directory { name, size, children } => NodeModel::Directory {
                name,
                size: size + 1,
                children: bump_synth(children, line),
            },
        }
    } else {
        match n {
            NodeModel::Directory { name, size, children } => NodeModel::Directory {
                name,
                size: size + 1,
                children: m_step(children, segs, i, line),
            },
            NodeModel::File { name, size, line_bytes } => NodeModel::Directory {
                name,
                size: size + 1,
                children: m_step(promoted_children(size, line_bytes), segs, i, line),
            },
        }
    }
}

/// Route one byte into the child for the segment at `i`, creating that child
/// first if it is not there yet.
pub open spec fn m_step(
    children: Seq<NodeModel>,
    segs: Seq<Seq<char>>,
    i: int,
    line: Option<u32>,
) -> Seq<NodeModel>
    decreases segs.len() - i, 0int,
{
    if i >= segs.len() {
        children
    } else {
        let j = find_child(children, segs[i]);
        if j < 0 {
            children.push(m_enter(fresh_node(segs, i), segs, i + 1, line))
        } else {
            children.update(j, m_enter(children[j], segs, i + 1, line))
        }
    }
}

/// Entering a node adds exactly one byte to its size and keeps its name, and
/// the accounting, synthetic-leaf and directory-exactness invariants are
/// preserved, provided every remaining segment is nonempty.
pub proof fn lemma_enter_props(n: NodeModel, segs: Seq<Seq<char>>, i: int, line: Option<u32>)
    requires
        0 <= i <= segs.len(),
        m_acc(n),
        synth_ok(n),
        forall|k: int| i <= k < segs.len() ==> (#[trigger] segs[k]).len() > 0,
    ensures
        m_enter(n, segs, i, line).size() == n.size() + 1,
        m_enter(n, segs, i, line).name() == n.name(),
        m_acc(m_enter(n, segs, i, line)),
        synth_ok(m_enter(n, segs, i, line)),
        dirs_exact(n) ==> dirs_exact(m_enter(n, segs, i, line)),
        lines_exact(n) && line is Some ==> lines_exact(m_enter(n, segs, i, line)),
    decreases segs.len() - i, 1int,
{
    let r = m_enter(n, segs, i, line);
    if i >= segs.len() {
        match n {
            NodeModel::File { name, size, line_bytes } => {
                lemma_bump_lines_sum(line_bytes, line);
            },
            NodeModel::Directory { name, size, children } => {
                let e = Seq::<char>::empty();
                lemma_find_child(children, e);
                lemma_acc_children(children);
                lemma_synth_ok_children(children);
                lemma_dirs_exact_children(children);
                let j = find_child(children, e);
                let nc = bump_synth(children, line);
                if j < 0 {
                    let f = NodeModel::File {
                        name: e,
                        size: 1,
                        line_bytes: bump_lines(Seq::<(u32, nat)>::empty(), line),
                    };
                    lemma_bump_lines_sum(Seq::<(u32, nat)>::empty(), line);
                    lemma_sum_sizes_push(children, f);
                    lemma_acc_children(nc);
                    lemma_synth_ok_children(nc);
                    lemma_dirs_exact_children(nc);
                    assert(m_acc(f));
                    assert forall|k: int| 0 <= k < nc.len() implies m_acc(#[trigger] nc[k])
                        && synth_ok(nc[k]) by {
                        if k < children.len() {
                            assert(nc[k] == children[k]);
                        }
                    }
                    if dirs_exact(n) {
                        assert forall|k: int| 0 <= k < nc.len() implies dirs_exact(
                            #[trigger] nc[k],
                        ) by {
                            if k < children.len() {
                                assert(nc[k] == children[k]);
                            }
                        }
                    }
                    if lines_exact(n) && line is Some {
                        lemma_lines_exact_children(children);
                        lemma_lines_exact_children(nc);
                        assert forall|k: int| 0 <= k < nc.len() implies lines_exact(
                            #[trigger] nc[k],
                        ) by {
                            if k < children.len() {
                                assert(nc[k] == children[k]);
                            }
                        }
                    }
                } else {
                    let c = children[j];
                    assert(c is File);
                    let c2 = child_bump(c, line);
                    lemma_bump_lines_sum(c->File_line_bytes, line);
                    lemma_sum_sizes_update(children, j, c2);
                    lemma_acc_children(nc);
                    lemma_synth_ok_children(nc);
                    lemma_dirs_exact_children(nc);
                    assert forall|k: int| 0 <= k < nc.len() implies m_acc(#[trigger] nc[k])
                        && synth_ok(nc[k]) by {
                        if k != j {
                            assert(nc[k] == children[k]);
                        }
                    }
                    if dirs_exact(n) {
                        assert forall|k: int| 0 <= k < nc.len() implies dirs_exact(
                            #[trigger] nc[k],
                        ) by {
                            if k != j {
                                assert(nc[k] == children[k]);
                            }
                        }
                    }
                    if lines_exact(n) && line is Some {
                        lemma_lines_exact_children(children);
                        lemma_lines_exact_children(nc);
                        assert forall|k: int| 0 <= k < nc.len() implies lines_exact(
                            #[trigger] nc[k],
                        ) by {
                            if k != j {
                                assert(nc[k] == children[k]);
                            }
                        }
                    }
                }
            },
        }
    } else {
        match n {
            NodeModel::Directory { name, size, children } => {
                lemma_step_props(children, segs, i, line);
            },
            NodeModel::File { name, size, line_bytes } => {
                let pc = promoted_children(size, line_bytes);
                let f = NodeModel::File { name: Seq::<char>::empty(), size, line_bytes };
                assert(pc.len() == 1);
                assert(pc.last() == f);
                assert(f.size() == size);
                assert(pc.drop_last() =~= Seq::<NodeModel>::empty());
                assert(sum_sizes(pc.drop_last()) == 0);
                assert(sum_sizes(pc) == size);
                lemma_acc_children(pc);
                lemma_synth_ok_children(pc);
                lemma_dirs_exact_children(pc);
                lemma_lines_exact_children(pc);
                lemma_step_props(pc, segs, i, line);
            },
        }
    }
}

/// Routing one byte into the children of a directory raises the sum of their
/// sizes by exactly one, keeps every present child's name (and every child
/// with the empty name untouched), gives a pushed child the name of the
/// segment it was created for, and preserves the invariants.
pub proof fn lemma_step_props(
    children: Seq<NodeModel>,
    segs: Seq<Seq<char>>,
    i: int,
    line: Option<u32>,
)
    requires
        0 <= i < segs.len(),
        acc_children(children),
        synth_ok_children(children),
        forall|k: int| i <= k < segs.len() ==> (#[trigger] segs[k]).len() > 0,
    ensures
        ({
            let r = m_step(children, segs, i, line);
            &&& sum_sizes(r) == sum_sizes(children) + 1
            &&& acc_children(r)
            &&& synth_ok_children(r)
            &&& r.len() == children.len() || r.len() == children.len() + 1
            &&& forall|k: int|
                0 <= k < children.len() ==> (#[trigger] r[k]).name() == children[k].name()
            &&& forall|k: int|
                0 <= k < children.len() && children[k].name() == Seq::<char>::empty()
                    ==> #[trigger] r[k] == children[k]
            &&& r.len() == children.len() + 1 ==> r[children.len() as int].name() == segs[i]
            &&& dirs_exact_children(children) ==> dirs_exact_children(r)
            &&& lines_exact_children(children) && line is Some ==> lines_exact_children(r)
        }),
    decreases segs.len() - i, 0int,
{
    let r = m_step(children, segs, i, line);
    lemma_find_child(children, segs[i]);
    lemma_acc_children(children);
    lemma_synth_ok_children(children);
    lemma_dirs_exact_children(children);
    lemma_lines_exact_children(children);
    lemma_acc_children(r);
    lemma_synth_ok_children(r);
    lemma_dirs_exact_children(r);
    lemma_lines_exact_children(r);
    let j = find_child(children, segs[i]);
    if j < 0 {
        let f = fresh_node(segs, i);
        if i == segs.len() - 1 {
            assert(m_acc(f));
            assert(sum_lines(Seq::<(u32, nat)>::empty()) == 0);
            assert(lines_exact(f));
        } else {
            assert(sum_sizes(Seq::<NodeModel>::empty()) == 0);
            assert(lines_exact_children(Seq::<NodeModel>::empty()));
        }
        lemma_enter_props(f, segs, i + 1, line);
        let c2 = m_enter(f, segs, i + 1, line);
        lemma_sum_sizes_push(children, c2);
        assert forall|k: int| 0 <= k < r.len() implies m_acc(#[trigger] r[k]) && synth_ok(
            r[k],
        ) by {
            if k < children.len() {
                assert(r[k] == children[k]);
            }
        }
        if dirs_exact_children(children) {
            assert forall|k: int| 0 <= k < r.len() implies dirs_exact(#[trigger] r[k]) by {
                if k < children.len() {
                    assert(r[k] == children[k]);
                }
            }
        }
        if lines_exact_children(children) && line is Some {
            assert forall|k: int| 0 <= k < r.len() implies lines_exact(#[trigger] r[k]) by {
                if k < children.len() {
                    assert(r[k] == children[k]);
                }
            }
        }
    } else {
        let c = children[j];
        lemma_enter_props(c, segs, i + 1, line);
        let c2 = m_enter(c, segs, i + 1, line);
        lemma_sum_sizes_update(children, j, c2);
        assert forall|k: int| 0 <= k < r.len() implies m_acc(#[trigger] r[k]) && synth_ok(
            r[k],
        ) by {
            if k != j {
                assert(r[k] == children[k]);
            }
        }
        if dirs_exact_children(children) {
            assert forall|k: int| 0 <= k < r.len() implies dirs_exact(#[trigger] r[k]) by {
                if k != j {
                    assert(r[k] == children[k]);
                }
            }
        }
        if lines_exact_children(children) && line is Some {
            assert forall|k: int| 0 <= k < r.len() implies lines_exact(#[trigger] r[k]) by {
                if k != j {
                    assert(r[k] == children[k]);
                }
            }
        }
        assert forall|k: int|
            0 <= k < children.len() && children[k].name() == Seq::<char>::empty() implies
            #[trigger] r[k] == children[k] by {
            if k == j {
                assert(segs[i].len() > 0);
            }
        }
    }
}

/// The path segments along which one resolver output is routed: those of its
/// file path, or none when no file (or no usable segment) was resolved.
pub open spec fn out_segs(loc: LocationModel) -> Seq<Seq<char>> {
    match loc.file {
        Option::None => Seq::empty(),
        Option::Some(f) => seg_split(f),
    }
}

/// Record one resolver output against the root: an unresolved byte touches
/// nothing; any other byte is counted at the root, and routed deeper along
/// its path segments if it has any.
pub open spec fn m_record(root: NodeModel, out: Option<LocationModel>) -> NodeModel {
    match out {
        Option::None => root,
        Option::Some(loc) => match root {
            NodeModel::Directory { name, size, children } => {
                let segs = out_segs(loc);
                if segs.len() == 0 {
                    NodeModel::Directory { name, size: size + 1, children }
                } else {
                    NodeModel::Directory {
                        name,
                        size: size + 1,
                        children: m_step(children, segs, 0, loc.line),
                    }
                }
            },
            NodeModel::File { .. } => root,
        },
    }
}

/// The tree built from a whole sequence of resolver outputs, one per probed
/// byte offset, starting from an empty root directory carrying `name` as a
/// label.
pub open spec fn m_attribute(name: Seq<char>, outs: Seq<Option<LocationModel>>) -> NodeModel
    decreases outs,
{
    if outs.len() == 0 {
        NodeModel::Directory { name, size: 0, children: Seq::empty() }
    } else {
        m_record(m_attribute(name, outs.drop_last()), outs.last())
    }
}

/// How many outputs resolved to a location at all.
pub open spec fn count_resolved(outs: Seq<Option<LocationModel>>) -> nat
    decreases outs,
{
    if outs.len() == 0 {
        0
    } else {
        count_resolved(outs.drop_last()) + match outs.last() {
            Option::None => 0nat,
            Option::Some(_) => 1nat,
        }
    }
}

/// How many outputs resolved to a location but to no usable path segment:
/// they are counted at the root alone.
pub open spec fn count_pathless(outs: Seq<Option<LocationModel>>) -> nat
    decreases outs,
{
    if outs.len() == 0 {
        0
    } else {
        count_pathless(outs.drop_last()) + match outs.last() {
            Option::None => 0nat,
            Option::Some(loc) => if out_segs(loc).len() == 0 {
                1nat
            } else {
                0nat
            },
        }
    }
}

/// Recording one output raises the root's size by one exactly when the
/// output is resolved, routes one byte into the children exactly when it has
/// a usable segment, and preserves the invariants.
pub proof fn lemma_record_props(root: NodeModel, out: Option<LocationModel>)
    requires
        root is Directory,
        m_acc(root),
        synth_ok(root),
    ensures
        ({
            let r = m_record(root, out);
            &&& r is Directory
            &&& r.name() == root.name()
            &&& m_acc(r)
            &&& synth_ok(r)
            &&& r.size() == root.size() + match out {
                Option::None => 0nat,
                Option::Some(_) => 1nat,
            }
            &&& sum_sizes(r->Directory_children) == sum_sizes(root->Directory_children) + match out {
                Option::None => 0nat,
                Option::Some(loc) => if out_segs(loc).len() == 0 {
                    0nat
                } else {
                    1nat
                },
            }
            &&& dirs_exact_children(root->Directory_children) ==> dirs_exact_children(
                r->Directory_children,
            )
            &&& lines_exact_children(root->Directory_children) && match out {
                Option::None => true,
                Option::Some(loc) => out_segs(loc).len() == 0 || loc.line is Some,
            } ==> lines_exact_children(r->Directory_children)
        }),
{
    match out {
        Option::None => {},
        Option::Some(loc) => {
            let segs = out_segs(loc);
            if segs.len() > 0 {
                match loc.file {
                    Option::Some(f) => {
                        lemma_seg_split_nonempty(f);
                    },
                    Option::None => {},
                }
                lemma_step_props(root->Directory_children, segs, 0, loc.line);
            }
        },
    }
}

/// Every resolved output carried a usable path segment and a line number.
pub open spec fn fully_resolved(outs: Seq<Option<LocationModel>>) -> bool {
    forall|k: int| 0 <= k < outs.len() ==> match #[trigger] outs[k] {
        Option::None => true,
        Option::Some(loc) => out_segs(loc).len() > 0 && loc.line is Some,
    }
}

/// The invariants of a built tree: a directory root carrying the given label,
/// sound accounting throughout, synthetic leaves well formed, every directory
/// below the root exact, the root's size the number of resolved outputs, and
/// the root's excess over its children the number of resolved outputs that
/// had no usable path.
pub proof fn lemma_attribute_props(name: Seq<char>, outs: Seq<Option<LocationModel>>)
    ensures
        ({
            let t = m_attribute(name, outs);
            &&& t is Directory
            &&& t.name() == name
            &&& m_acc(t)
            &&& synth_ok(t)
            &&& t.size() == count_resolved(outs)
            &&& dirs_exact_children(t->Directory_children)
            &&& t.size() == sum_sizes(t->Directory_children) + count_pathless(outs)
            &&& fully_resolved(outs) ==> lines_exact_children(t->Directory_children)
                && count_pathless(outs) == 0
        }),
    decreases outs,
{
    if outs.len() == 0 {
        assert(sum_sizes(Seq::<NodeModel>::empty()) == 0);
        assert(acc_children(Seq::<NodeModel>::empty()));
        assert(synth_ok_children(Seq::<NodeModel>::empty()));
        assert(dirs_exact_children(Seq::<NodeModel>::empty()));
        assert(lines_exact_children(Seq::<NodeModel>::empty()));
    } else {
        lemma_attribute_props(name, outs.drop_last());
        lemma_record_props(m_attribute(name, outs.drop_last()), outs.last());
        if fully_resolved(outs) {
            assert forall|k: int| 0 <= k < outs.drop_last().len() implies match #[trigger] outs.drop_last()[k] {
                Option::None => true,
                Option::Some(loc) => out_segs(loc).len() > 0 && loc.line is Some,
            } by {
                assert(outs.drop_last()[k] == outs[k]);
            }
            assert(fully_resolved(outs.drop_last()));
            assert(outs.last() == outs[outs.len() - 1]);
        }
    }
}

/// Conservation: for any sequence of resolver outputs, the root's size equals
/// the count of offsets for which the resolver returned a location at all.
pub proof fn lemma_conservation(name: Seq<char>, outs: Seq<Option<LocationModel>>)
    ensures
        m_attribute(name, outs).size() == count_resolved(outs),
{
    lemma_attribute_props(name, outs);
}

/// No double counting: in a built tree, every directory below the root holds
/// exactly the sum of its children's sizes, and the root is the only node
/// that receives contributions without a path: it exceeds the sum of its
/// children's sizes by exactly the resolved bytes that had no usable path
/// segment.
pub proof fn lemma_no_double_count(name: Seq<char>, outs: Seq<Option<LocationModel>>)
    ensures
        ({
            let t = m_attribute(name, outs);
            &&& t is Directory
            &&& forall|k: int|
                0 <= k < t->Directory_children.len() ==> dirs_exact(
                    #[trigger] t->Directory_children[k],
                )
            &&& t.size() == sum_sizes(t->Directory_children) + count_pathless(outs)
        }),
{
    lemma_attribute_props(name, outs);
    lemma_dirs_exact_children(m_attribute(name, outs)->Directory_children);
}

/// At most every output can resolve.
pub proof fn lemma_count_resolved_le(outs: Seq<Option<LocationModel>>)
    ensures
        count_resolved(outs) <= outs.len(),
    decreases outs,
{
    if outs.len() > 0 {
        lemma_count_resolved_le(outs.drop_last());
    }
}

/// The models of a sequence of resolver outputs.
pub open spec fn outs_model(s: Seq<Option<Location>>) -> Seq<Option<LocationModel>> {
    Seq::new(s.len(), |i: int| out_model(s[i]))
}

/// One more byte for the given line, on the executable line table.
fn bump_lines_exec(lines: Vec<(u32, u64)>, line: Option<u32>) -> (r: Vec<(u32, u64)>)
    requires
        forall|k: int| 0 <= k < lines@.len() ==> (#[trigger] lines@[k]).1 < u64::MAX,
    ensures
        lines_model(r@) == bump_lines(lines_model(lines@), line),
{
    proof {
        lemma_lines_model(lines@);
    }
    match line {
        Option::None => lines,
        Option::Some(l) => {
            let ghost gmodel = lines_model(lines@);
            let mut j: usize = 0;
            let n = lines.len();
            while j < n && lines[j].0 != l
                invariant
                    0 <= j <= n,
                    n == lines@.len(),
                    forall|k: int| 0 <= k < j ==> (#[trigger] lines@[k]).0 != l,
                decreases n - j,
            {
                j = j + 1;
            }
            proof {
                lemma_find_line(gmodel, l);
                lemma_lines_model(lines@);
                assert(gmodel.len() == lines@.len());
                assert(j as int == find_line(gmodel, l) || (j == n && find_line(gmodel, l)
                    < 0)) by {
                    let f = find_line(gmodel, l);
                    if f >= 0 && f < j {
                        assert(lines@[f].0 != l);
                        assert(gmodel[f] == (lines@[f].0, lines@[f].1 as nat));
                    }
                    if j < n && (f < 0 || j < f) {
                        assert(gmodel[j as int] == (lines@[j as int].0, lines@[j as int].1
                            as nat));
                    }
                }
            }
            let ghost gvec = lines@;
            let mut lines = lines;
            if j == n {
                lines.push((l, 1));
                proof {
                    lemma_lines_model(lines@);
                    assert(lines@ =~= gvec.push((l, 1)));
                    assert(lines_model(lines@) =~= bump_lines(gmodel, line));
                }
            } else {
                let old_entry = lines.remove(j);
                lines.insert(j, (l, old_entry.1 + 1));
                proof {
                    lemma_lines_model(lines@);
                    assert(lines@ =~= gvec.update(j as int, (l, (old_entry.1 + 1) as u64)));
                    assert(lines_model(lines@) =~= bump_lines(gmodel, line));
                }
            }
            lines
        },
    }
}

/// One more byte at a node that a path ends on, on the executable tree.
fn child_bump_exec(n: TreemapNode, line: Option<u32>) -> (r: TreemapNode)
    requires
        m_acc(n@),
        n@.size() < u64::MAX,
    ensures
        r@ == child_bump(n@, line),
{
    match n {
        TreemapNode::File { name, size, line_to_bytes } => {
            proof {
                lemma_lines_model(line_to_bytes@);
                lemma_sum_lines_bound(lines_model(line_to_bytes@));
                assert forall|k: int| 0 <= k < line_to_bytes@.len() implies (
                #[trigger] line_to_bytes@[k]).1 < u64::MAX by {
                    assert(lines_model(line_to_bytes@)[k] == (line_to_bytes@[k].0,
                    line_to_bytes@[k].1 as nat));
                }
            }
            let new_lines = bump_lines_exec(line_to_bytes, line);
            TreemapNode::File { name, size: size + 1, line_to_bytes: new_lines }
        },
        TreemapNode::Directory { name, size, children } => TreemapNode::Directory {
            name,
            size: size + 1,
            children,
        },
    }
}

/// Route one byte that ends on a directory into its synthetic leaf child, on
/// the executable tree.
fn bump_synth_exec(children: Vec<TreemapNode>, line: Option<u32>) -> (r: Vec<TreemapNode>)
    requires
        acc_children(children_model(children@)),
        sum_sizes(children_model(children@)) < u64::MAX,
    ensures
        children_model(r@) == bump_synth(children_model(children@), line),
{
    let ghost gmodel = children_model(children@);
    proof {
        lemma_children_model(children@);
        lemma_acc_children(gmodel);
        lemma_sum_sizes_bound(gmodel);
        lemma_find_child(gmodel, Seq::<char>::empty());
    }
    let n = children.len();
    let mut j: usize = 0;
    while j < n && !children[j].name().as_str().is_empty()
        invariant
            0 <= j <= n,
            n == children@.len(),
            forall|k: int| 0 <= k < j ==> (#[trigger] children@[k])@.name()
                != Seq::<char>::empty(),
        decreases n - j,
    {
        j = j + 1;
    }
    proof {
        let f = find_child(gmodel, Seq::<char>::empty());
        if j < n {
            assert(children@[j as int]@.name() =~= Seq::<char>::empty());
        }
        assert(j as int == f || (j == n && f < 0)) by {
            if f >= 0 && f < j {
                assert(children@[f]@.name() != Seq::<char>::empty());
                assert(gmodel[f] == children@[f]@);
            }
            if j < n && (f < 0 || j < f) {
                assert(gmodel[j as int] == children@[j as int]@);
            }
        }
    }
    let ghost gvec = children@;
    let mut children = children;
    if j == n {
        let no_lines: Vec<(u32, u64)> = Vec::new();
        proof {
            assert(lines_model(no_lines@) =~= Seq::<(u32, nat)>::empty());
        }
        let new_lines = bump_lines_exec(no_lines, line);
        children.push(
            TreemapNode::File { name: String::new(), size: 1, line_to_bytes: new_lines },
        );
        proof {
            lemma_children_model(children@);
            assert(children@ =~= gvec.push(children@[gvec.len() as int]));
            assert(children_model(children@) =~= bump_synth(gmodel, line));
        }
    } else {
        let child = children.remove(j);
        proof {
            assert(child@ == gmodel[j as int]);
        }
        let child2 = child_bump_exec(child, line);
        children.insert(j, child2);
        proof {
            lemma_children_model(children@);
            assert(children@ =~= gvec.update(j as int, children@[j as int]));
            assert(children_model(children@) =~= bump_synth(gmodel, line));
        }
    }
    children
}

impl TreemapNode {
    /// Enter this node with one byte whose remaining path is `segs[i..]`.
    fn entered(self, segs: &Vec<String>, i: usize, line: Option<u32>) -> (r: Self)
        requires
            i <= segs@.len(),
            m_acc(self@),
            self@.size() < u64::MAX,
        ensures
            r@ == m_enter(self@, segs.deep_view(), i as int, line),
        decreases segs@.len() - i, 1int,
    {
        proof {
            assert(segs.deep_view().len() == segs@.len());
        }
        if i == segs.len() {
            match self {
                TreemapNode::File { name, size, line_to_bytes } => {
                    proof {
                        lemma_lines_model(line_to_bytes@);
                        lemma_sum_lines_bound(lines_model(line_to_bytes@));
                        assert forall|k: int| 0 <= k < line_to_bytes@.len() implies (
                        #[trigger] line_to_bytes@[k]).1 < u64::MAX by {
                            assert(lines_model(line_to_bytes@)[k] == (line_to_bytes@[k].0,
                            line_to_bytes@[k].1 as nat));
                        }
                    }
                    let new_lines = bump_lines_exec(line_to_bytes, line);
                    TreemapNode::File { name, size: size + 1, line_to_bytes: new_lines }
                },
                TreemapNode::Directory { name, size, children } => {
                    let new_children = bump_synth_exec(children, line);
                    TreemapNode::Directory { name, size: size + 1, children: new_children }
                },
            }
        } else {
            match self {
                TreemapNode::Directory { name, size, children } => {
                    let new_children = step_nodes(children, segs, i, line);
                    TreemapNode::Directory { name, size: size + 1, children: new_children }
                },
                TreemapNode::File { name, size, line_to_bytes } => {
                    let mut promoted: Vec<TreemapNode> = Vec::new();
                    promoted.push(
                        TreemapNode::File { name: String::new(), size, line_to_bytes },
                    );
                    proof {
                        lemma_children_model(promoted@);
                        assert(children_model(promoted@) =~= promoted_children(
                            size as nat,
                            lines_model(line_to_bytes@),
                        ));
                        assert(promoted@[0]@ == NodeModel::File {
                            name: Seq::<char>::empty(),
                            size: size as nat,
                            line_bytes: lines_model(line_to_bytes@),
                        });
                        lemma_acc_children(children_model(promoted@));
                        assert(children_model(promoted@).drop_last()
                            =~= Seq::<NodeModel>::empty());
                        assert(sum_sizes(Seq::<NodeModel>::empty()) == 0);
                        assert(children_model(promoted@).last() == promoted@[0]@);
                        assert(sum_sizes(children_model(promoted@)) == size as nat);
                    }
                    let new_children = step_nodes(promoted, segs, i, line);
                    TreemapNode::Directory { name, size: size + 1, children: new_children }
                },
            }
        }
    }
}

/// Route one byte into the child for the segment at `i`, on the executable
/// tree, creating that child first if it is not there yet.
fn step_nodes(children: Vec<TreemapNode>, segs: &Vec<String>, i: usize, line: Option<u32>) -> (r:
    Vec<TreemapNode>)
    requires
        i < segs@.len(),
        acc_children(children_model(children@)),
        sum_sizes(children_model(children@)) < u64::MAX,
    ensures
        children_model(r@) == m_step(children_model(children@), segs.deep_view(), i as int, line),
    decreases segs@.len() - i, 0int,
{
    let ghost gmodel = children_model(children@);
    let ghost gsegs = segs.deep_view();
    proof {
        lemma_children_model(children@);
        lemma_acc_children(gmodel);
        lemma_sum_sizes_bound(gmodel);
        lemma_find_child(gmodel, gsegs[i as int]);
        assert(gsegs[i as int] == segs@[i as int]@);
    }
    let n = children.len();
    let seg_count = segs.len();
    let target: &String = &segs[i];
    let mut j: usize = 0;
    while j < n && !(*children[j].name() == *target)
        invariant
            0 <= j <= n,
            n == children@.len(),
            target@ == segs@[i as int]@,
            i < segs@.len(),
            forall|k: int| 0 <= k < j ==> (#[trigger] children@[k])@.name() != target@,
        decreases n - j,
    {
        j = j + 1;
    }
    proof {
        let f = find_child(gmodel, gsegs[i as int]);
        assert(j as int == f || (j == n && f < 0)) by {
            if f >= 0 && f < j {
                assert(children@[f]@.name() != target@);
                assert(gmodel[f] == children@[f]@);
            }
            if j < n && (f < 0 || j < f) {
                assert(gmodel[j as int] == children@[j as int]@);
            }
        }
    }
    let ghost gvec = children@;
    let mut children = children;
    if j == n {
        let terminal = i + 1 == seg_count;
        let fresh = if terminal {
            TreemapNode::File { name: target.clone(), size: 0, line_to_bytes: Vec::new() }
        } else {
            TreemapNode::Directory { name: target.clone(), size: 0, children: Vec::new() }
        };
        proof {
            if terminal {
                assert(lines_model(fresh->File_line_to_bytes@) =~= Seq::<(u32, nat)>::empty());
            } else {
                assert(children_model(fresh->Directory_children@) =~= Seq::<NodeModel>::empty());
                assert(sum_sizes(children_model(fresh->Directory_children@)) == 0);
                assert(acc_children(children_model(fresh->Directory_children@)));
            }
            assert(fresh@ == fresh_node(gsegs, i as int));
            assert(m_acc(fresh@));
        }
        let entered_fresh = fresh.entered(segs, i + 1, line);
        children.push(entered_fresh);
        proof {
            lemma_children_model(children@);
            assert(children@ =~= gvec.push(children@[gvec.len() as int]));
            assert(children_model(children@) =~= m_step(gmodel, gsegs, i as int, line));
        }
    } else {
        let child = children.remove(j);
        proof {
            assert(child@ == gmodel[j as int]);
        }
        let entered_child = child.entered(segs, i + 1, line);
        children.insert(j, entered_child);
        proof {
            lemma_children_model(children@);
            assert(children@ =~= gvec.update(j as int, children@[j as int]));
            assert(children_model(children@) =~= m_step(gmodel, gsegs, i as int, line));
        }
    }
    children
}

impl TreemapNode {
    /// Record one resolver output against this root.
    ///
    /// An unresolved byte touches nothing. A resolved byte is counted at the
    /// root and routed along the segments of its file path, if it has any;
    /// the line number, if present, is counted at the node the path ends on.
    pub fn record(self, output: &Option<Location>) -> (r: Self)
        requires
            m_acc(self@),
            self@.size() < u64::MAX,
        ensures
            r@ == m_record(self@, out_model(*output)),
    {
        match output {
            Option::None => self,
            Option::Some(loc) => {
                match self {
                    TreemapNode::Directory { name, size, children } => {
                        let segs: Vec<String> = match &loc.file {
                            Option::None => Vec::new(),
                            Option::Some(f) => split_path(f.as_str()),
                        };
                        proof {
                            if loc.file is None {
                                assert(segs.deep_view() =~~= Seq::<Seq<char>>::empty());
                            }
                            assert(segs.deep_view() == out_segs(loc@));
                            assert(segs.deep_view().len() == segs@.len());
                        }
                        if segs.len() == 0 {
                            TreemapNode::Directory { name, size: size + 1, children }
                        } else {
                            let new_children = step_nodes(children, &segs, 0, loc.line);
                            TreemapNode::Directory {
                                name,
                                size: size + 1,
                                children: new_children,
                            }
                        }
                    },
                    other => other,
                }
            },
        }
    }
}

/// Build the size tree for a binary of `outputs.len()` bytes from the
/// resolver's output for each offset, starting from an empty root directory
/// that carries `name` as a label.
pub fn attribute(name: String, outputs: &Vec<Option<Location>>) -> (r: TreemapNode)
    ensures
        r@ == m_attribute(name@, outs_model(outputs@)),
{
    let ghost gname: Seq<char> = name@;
    let ghost gouts: Seq<Option<LocationModel>> = outs_model(outputs@);
    let mut tree = TreemapNode::Directory { name, size: 0, children: Vec::new() };
    proof {
        assert(children_model(tree->Directory_children@) =~= Seq::<NodeModel>::empty());
        assert(tree@ =~= m_attribute(gname, gouts.subrange(0, 0)));
    }
    let count = outputs.len();
    let mut k: usize = 0;
    while k < count
        invariant
            0 <= k <= count,
            count == outputs@.len(),
            gouts == outs_model(outputs@),
            tree@ == m_attribute(gname, gouts.subrange(0, k as int)),
        decreases count - k,
    {
        proof {
            let prefix = gouts.subrange(0, k as int);
            lemma_attribute_props(gname, prefix);
            lemma_count_resolved_le(prefix);
            assert(count_resolved(prefix) <= k);
        }
        tree = tree.record(&outputs[k]);
        proof {
            let prefix = gouts.subrange(0, k as int);
            let prefix1 = gouts.subrange(0, k as int + 1);
            assert(prefix1.drop_last() =~= prefix);
            assert(prefix1.last() == out_model(outputs@[k as int]));
        }
        k = k + 1;
    }
    proof {
        assert(gouts.subrange(0, count as int) =~= gouts);
    }
    tree
}

} // verus!
