//! Path-indexed query of the size tree.

use vstd::prelude::*;

use crate::engine::{find_child, lemma_find_child};
use crate::node::{children_model, lemma_children_model, NodeModel, TreemapNode};
use crate::paths::{seg_split, split_path};

verus! {

/// The node the segments `segs[i..]` lead to from `n`: descend into the child
/// matching each segment in turn; the query fails on a missing child, and on
/// a file while segments remain, since nothing lies below a file.
pub open spec fn m_query(n: NodeModel, segs: Seq<Seq<char>>, i: int) -> Option<NodeModel>
    decreases segs.len() - i,
{
    if i >= segs.len() {
        Option::Some(n)
    } else {
        match n {
            NodeModel::File { .. } => Option::None,
            NodeModel::Directory { children, .. } => {
                let j = find_child(children, segs[i]);
                if j < 0 {
                    Option::None
                } else {
                    m_query(children[j], segs, i + 1)
                }
            },
        }
    }
}

/// The node an optional path addresses in `n`: `n` itself when no path is
/// given, else the node that the path's nonempty segments lead to.
pub open spec fn m_query_path(n: NodeModel, path: Option<Seq<char>>) -> Option<NodeModel> {
    match path {
        Option::None => Option::Some(n),
        Option::Some(p) => m_query(n, seg_split(p), 0),
    }
}

/// The model of an optional path.
pub open spec fn path_model(path: Option<String>) -> Option<Seq<char>> {
    match path {
        Option::None => Option::None,
        Option::Some(p) => Option::Some(p@),
    }
}

/// Querying is idempotent: the result is a pure function of the tree and the
/// path, so two queries with the same path return structurally equal
/// subtrees.
pub proof fn lemma_query_idempotent(n: NodeModel, p1: Option<Seq<char>>, p2: Option<Seq<char>>)
    requires
        p1 == p2,
    ensures
        m_query_path(n, p1) == m_query_path(n, p2),
{
}

/// Path equivalence: two paths with the same nonempty segments address the
/// same subtree, so leading, trailing and doubled separators do not matter.
pub proof fn lemma_path_equivalence(n: NodeModel, p: Seq<char>, q: Seq<char>)
    requires
        seg_split(p) == seg_split(q),
    ensures
        m_query_path(n, Option::Some(p)) == m_query_path(n, Option::Some(q)),
{
}

impl TreemapNode {
    /// The subtree that `path` addresses, or `None` when there is no such
    /// node. No path, and a path without a nonempty segment, address the
    /// node itself; the result is a shared, read-only view.
    pub fn for_path<'a>(&'a self, path: &Option<String>) -> (r: Option<&'a TreemapNode>)
        ensures
            match r {
                Option::Some(node) => m_query_path(self@, path_model(*path)) == Option::Some(
                    node@,
                ),
                Option::None => m_query_path(self@, path_model(*path)) is None,
            },
    {
        match path {
            Option::None => Option::Some(self),
            Option::Some(p) => {
                let segs = split_path(p.as_str());
                self.lookup(&segs, 0)
            },
        }
    }

    /// Walk the segments `segs[i..]` down from this node.
    fn lookup<'a>(&'a self, segs: &Vec<String>, i: usize) -> (r: Option<&'a TreemapNode>)
        requires
            i <= segs@.len(),
        ensures
            match r {
                Option::Some(node) => m_query(self@, segs.deep_view(), i as int) == Option::Some(
                    node@,
                ),
                Option::None => m_query(self@, segs.deep_view(), i as int) is None,
            },
        decreases segs@.len() - i,
    {
        proof {
            assert(segs.deep_view().len() == segs@.len());
        }
        if i == segs.len() {
            return Option::Some(self);
        }
        match self {
            TreemapNode::File { .. } => Option::None,
            TreemapNode::Directory { children, .. } => {
                let ghost gmodel = children_model(children@);
                let ghost gsegs = segs.deep_view();
                proof {
                    lemma_children_model(children@);
                    lemma_find_child(gmodel, gsegs[i as int]);
                    assert(gsegs[i as int] == segs@[i as int]@);
                }
                let n = children.len();
                let target: &String = &segs[i];
                let mut j: usize = 0;
                while j < n && !(*children[j].name() == *target)
                    invariant
                        0 <= j <= n,
                        n == children@.len(),
                        target@ == segs@[i as int]@,
                        i < segs@.len(),
                        forall|k: int| 0 <= k < j ==> (#[trigger] children@[k])@.name()
                            != target@,
                    decreases n - j,
                {
                    j = j + 1;
                }
                proof {
                    let f = find_child(gmodel, gsegs[i as int]);
                    assert(j as int == f || (j == n && f < 0)) by {
                        if f >= 0 && f < j {
                            assert(children@[f]@.name() != target@);
                            assert(gmodel[f] == children@[f]@);
                        }
                        if j < n && (f < 0 || j < f) {
                            assert(gmodel[j as int] == children@[j as int]@);
                        }
                    }
                }
                if j == n {
                    Option::None
                } else {
                    proof {
                        assert(children@[j as int]@ == gmodel[j as int]);
                    }
                    children[j].lookup(segs, i + 1)
                }
            },
        }
    }
}

} // verus!
