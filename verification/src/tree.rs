//! The arena that owns every node of a scanned file tree. Nodes refer to
//! each other by index: each node's parent index is smaller than its own
//! (children are created after their parent), which keeps the structure
//! acyclic and gives every recursion over it a measure.

use vstd::prelude::*;
use crate::files::{Files, GNode, RawMeta, spec_classify, spec_mode_str};
use crate::text::{hidden_name, lex_le};

verus! {

/// A scanned file tree: the node arena, the depth bound the scan was run
/// with, and whether hidden entries were included.
#[derive(Debug)]
pub struct Tree {
    /// All nodes; index `0` is the root.
    pub nodes: Vec<Files>,
    /// Number of directory levels that may be opened below the root.
    pub deep: usize,
    /// Hidden entries were included.
    pub all: bool,
}

impl View for Tree {
    type V = Seq<GNode>;

    open spec fn view(&self) -> Seq<GNode> {
        self.nodes@.map(|i: int, f: Files| f@)
    }
}

/// The parent index of node `i`, or `-1` for the root.
pub open spec fn parent_idx(v: Seq<GNode>, i: int) -> int {
    match v[i].parent {
        Some(p) => p as int,
        None => -1,
    }
}

/// Node `n` is a directory.
pub open spec fn is_dir_at(v: Seq<GNode>, n: int) -> bool {
    v[n].kind is Directory
}

/// The backbone of the arena: a root without parent at index `0`, every
/// other node with a parent of smaller index, and every child index lying
/// strictly between its parent's index and the arena's length.
pub open spec fn parents_ok(v: Seq<GNode>) -> bool {
    &&& v.len() >= 1
    &&& v[0].parent is None
    &&& forall|i: int|
        1 <= i < v.len() ==> (#[trigger] v[i].parent) is Some && 0 <= parent_idx(v, i) < i
    &&& forall|n: int, j: int|
        0 <= n < v.len() && 0 <= j < v[n].kids.len() ==> n < #[trigger] v[n].kids[j] < v.len()
}

/// The linkage of child lists: a child's parent pointer returns to the
/// list's owner, no child is listed twice, only directories have children,
/// and children come sorted by path.
pub open spec fn links_ok(v: Seq<GNode>) -> bool {
    &&& forall|n: int, j: int|
        0 <= n < v.len() && 0 <= j < v[n].kids.len() ==> parent_idx(
            v,
            #[trigger] v[n].kids[j] as int,
        ) == n
    &&& forall|n: int, j1: int, j2: int|
        0 <= n < v.len() && 0 <= j1 < j2 < v[n].kids.len() ==> #[trigger] v[n].kids[j1]
            != #[trigger] v[n].kids[j2]
    &&& forall|n: int|
        0 <= n < v.len() && !is_dir_at(v, n) ==> (#[trigger] v[n].kids).len() == 0
    &&& forall|n: int, j1: int, j2: int|
        0 <= n < v.len() && 0 <= j1 < j2 < v[n].kids.len() ==> lex_le(
            v[#[trigger] v[n].kids[j1] as int].path,
            v[#[trigger] v[n].kids[j2] as int].path,
        )
    &&& forall|n: int, j1: int, j2: int|
        0 <= n < v.len() && 0 <= j1 < j2 < v[n].kids.len() ==> v[#[trigger] v[n].kids[j1] as int].path
            != v[#[trigger] v[n].kids[j2] as int].path
}

/// How many directory levels lie between the root and node `i`.
pub open spec fn depth_of(v: Seq<GNode>, i: int) -> nat
    decreases i,
    when parents_ok(v) && 0 <= i < v.len()
{
    if i <= 0 {
        0
    } else {
        1 + depth_of(v, parent_idx(v, i))
    }
}

/// The node an index stack points at: each level picks one child of the
/// node the previous levels reached; a stack of one entry points at the
/// root.
pub open spec fn path_node(v: Seq<GNode>, stack: Seq<usize>) -> int
    decreases stack.len(),
{
    if stack.len() <= 1 {
        0
    } else {
        v[path_node(v, stack.drop_last())].kids[stack.last() as int] as int
    }
}

/// An index stack is valid when its first entry is `0` and each further
/// entry indexes into the child list of the node reached so far.
pub open spec fn valid_stack(v: Seq<GNode>, stack: Seq<usize>) -> bool
    decreases stack.len(),
{
    if stack.len() == 0 {
        true
    } else if stack.len() == 1 {
        stack[0] == 0
    } else {
        &&& valid_stack(v, stack.drop_last())
        &&& (stack.last() as int) < v[path_node(v, stack.drop_last())].kids.len()
    }
}

pub proof fn lemma_path_node_in_range(v: Seq<GNode>, stack: Seq<usize>)
    requires
        parents_ok(v),
        valid_stack(v, stack),
        stack.len() >= 1,
    ensures
        0 <= path_node(v, stack) < v.len(),
    decreases stack.len(),
{
    if stack.len() > 1 {
        lemma_path_node_in_range(v, stack.drop_last());
    }
}

/// A valid stack measures depth: the node it reaches sits exactly
/// `stack.len() - 1` directory levels below the root.
pub proof fn lemma_path_node_depth(v: Seq<GNode>, stack: Seq<usize>)
    requires
        parents_ok(v),
        links_ok(v),
        valid_stack(v, stack),
        stack.len() >= 1,
    ensures
        0 <= path_node(v, stack) < v.len(),
        depth_of(v, path_node(v, stack)) == stack.len() - 1,
        stack.len() >= 2 ==> path_node(v, stack) >= 1 && parent_idx(v, path_node(v, stack))
            == path_node(v, stack.drop_last()),
    decreases stack.len(),
{
    lemma_path_node_in_range(v, stack);
    if stack.len() >= 2 {
        lemma_path_node_depth(v, stack.drop_last());
    }
}


/// Expanding a directory the cursor points at disturbs no index stack:
/// the stack's levels only read child lists of the target's ancestors,
/// and those are untouched.
pub proof fn lemma_stack_stable(v1: Seq<GNode>, v2: Seq<GNode>, s: Seq<usize>, d: int)
    requires
        parents_ok(v1),
        valid_stack(v1, s),
        s.len() >= 1,
        path_node(v1, s) <= d,
        v1.len() <= v2.len(),
        forall|k: int| 0 <= k < v1.len() && k != d ==> #[trigger] v2[k].kids == v1[k].kids,
    ensures
        valid_stack(v2, s),
        path_node(v2, s) == path_node(v1, s),
    decreases s.len(),
{
    if s.len() > 1 {
        lemma_path_node_in_range(v1, s.drop_last());
        let p = path_node(v1, s.drop_last());
        assert(path_node(v1, s) == v1[p].kids[s.last() as int] as int);
        assert(p < path_node(v1, s));
        lemma_stack_stable(v1, v2, s.drop_last(), d);
        assert(v2[p].kids == v1[p].kids);
    }
}

impl Tree {
    /// Everything the library maintains about a tree: sound parent and
    /// child indices, linkage, sorted child lists, the depth bound, and
    /// the absence of hidden names when they were not asked for.
    pub open spec fn wf(self) -> bool {
        &&& parents_ok(self@)
        &&& links_ok(self@)
        &&& forall|i: int| 0 <= i < self@.len() ==> #[trigger] depth_of(self@, i) <= self.deep
        &&& !self.all ==> forall|i: int|
            1 <= i < self@.len() ==> !hidden_name(#[trigger] self@[i].name)
    }

    /// Creates a tree holding only the root entry, built from the
    /// starting path's metadata.
    pub fn new(meta: &RawMeta, deep: usize, all: bool) -> (t: Tree)
        ensures
            t.wf(),
            t@.len() == 1,
            t@[0].path == meta@.name,
            t@[0].name == meta@.name,
            t@[0].kind == spec_classify(meta@),
            t@[0].mode == spec_mode_str(meta@.mode),
            t@[0].kids =~= Seq::<usize>::empty(),
            t@[0].parent is None,
            t.deep == deep,
            t.all == all,
    {
        let root = Files::new(meta.name.clone(), meta);
        let mut nodes: Vec<Files> = Vec::new();
        nodes.push(root);
        let t = Tree { nodes, deep, all };
        proof {
            assert(t@.len() == 1);
            assert(depth_of(t@, 0) == 0);
        }
        t
    }

    /// Walks the parent chain to measure how deep a node sits.
    pub fn depth_of_node(&self, i: usize) -> (d: usize)
        requires
            self.wf(),
            i < self@.len(),
        ensures
            d as nat == depth_of(self@, i as int),
    {
        let mut cur = i;
        let mut d: usize = 0;
        loop
            invariant
                self.wf(),
                cur < self@.len(),
                d <= i - cur,
                d + depth_of(self@, cur as int) == depth_of(self@, i as int),
            decreases cur,
        {
            match self.nodes[cur].parent {
                None => {
                    proof {
                        assert(self@[cur as int] == self.nodes@[cur as int]@);
                        if cur != 0 {
                            assert(self@[cur as int].parent is Some);
                        }
                    }
                    return d;
                },
                Some(p) => {
                    proof {
                        assert(self@[cur as int] == self.nodes@[cur as int]@);
                        assert(self@[cur as int].parent is Some);
                        assert(cur != 0);
                        assert(0 <= parent_idx(self@, cur as int) < cur);
                    }
                    cur = p;
                    d = d + 1;
                },
            }
        }
    }
}

} // verus!
