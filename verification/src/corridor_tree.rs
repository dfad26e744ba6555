//! The corridor forest: one rooted tree of carve steps per corridor strand.
//!
//! Nodes live in an arena and refer to each other by index: a node's parent
//! is an optional index, its children a list of indices. Nodes are allocated
//! in carve order, so a parent's index is always smaller than its children's;
//! that makes the forest acyclic by construction. Removing a node unlinks
//! exactly one entry of its parent's child list and nothing else.

use vstd::prelude::*;

verus! {

/// One carve step of a corridor strand.
pub struct CorridorNode {
    pub x: u16,
    pub y: u16,
    pub parent: Option<usize>,
    pub children: Vec<usize>,
}

/// The arena of carve steps, plus the root node of each carving run.
pub struct CorridorTree {
    pub nodes: Vec<CorridorNode>,
    pub roots: Vec<usize>,
}

impl CorridorTree {
    /// Node `i` links only downward in allocation order: its parent has a
    /// smaller index, its children larger, in-range indices — and every
    /// listed child points back at `i`.
    pub open spec fn node_wf(self, i: int) -> bool {
        &&& (self.nodes@[i].parent matches Some(p) ==> p < i)
        &&& (forall|j: int|
            0 <= j < self.nodes@[i].children@.len() ==> i < #[trigger] self.nodes@[i].children@[j]
                < self.nodes@.len())
        &&& (forall|j: int|
            0 <= j < self.nodes@[i].children@.len()
                ==> self.nodes@[#[trigger] self.nodes@[i].children@[j] as int].parent == Some(
                i as usize,
            ))
    }

    /// Every node and root index is in range and ordered, and every listed
    /// root is parentless; the forest is acyclic because every parent
    /// precedes its children.
    pub open spec fn wf(self) -> bool {
        &&& (forall|i: int| 0 <= i < self.nodes@.len() ==> #[trigger] self.node_wf(i))
        &&& (forall|r: int|
            0 <= r < self.roots@.len() ==> (#[trigger] self.roots@[r]) < self.nodes@.len()
                && self.nodes@[self.roots@[r] as int].parent is None)
    }

    /// An empty forest.
    pub fn new() -> (t: CorridorTree)
        ensures
            t.nodes@.len() == 0,
            t.roots@.len() == 0,
            t.wf(),
    {
        CorridorTree { nodes: Vec::new(), roots: Vec::new() }
    }
}

/// `i` lies in the subtree rooted at `r`: its chain of parent
/// back-references reaches `r`. Parents precede children in the arena, so
/// every chain descends in index and the walk terminates.
pub open spec fn in_subtree(t: CorridorTree, r: int, i: int) -> bool
    decreases i,
{
    if i == r {
        true
    } else if i <= r {
        false
    } else {
        match t.nodes@[i].parent {
            Some(p) => p < i && in_subtree(t, r, p as int),
            None => false,
        }
    }
}

/// The number of parent steps from `i` up to `r`, for `i` in the subtree
/// rooted at `r`; zero elsewhere.
pub open spec fn rel_depth(t: CorridorTree, r: int, i: int) -> int
    decreases i,
{
    if i <= r {
        0
    } else {
        match t.nodes@[i].parent {
            Some(p) => if p < i {
                rel_depth(t, r, p as int) + 1
            } else {
                0
            },
            None => 0,
        }
    }
}

/// Every node with a parent stands in that parent's child list: nothing
/// has been detached yet. Carving builds the forest in this state.
pub open spec fn fully_attached(t: CorridorTree) -> bool {
    forall|i: int|
        0 <= i < t.nodes@.len() ==> ((#[trigger] t.nodes@[i]).parent matches Some(p)
            ==> t.nodes@[p as int].children@.contains(i as usize))
}

/// A node no longer held by its parent is childless: detaching happens
/// leaf-first, so nothing attached ever hangs below a detached node.
pub open spec fn detached_closed(t: CorridorTree) -> bool {
    forall|i: int|
        0 <= i < t.nodes@.len() ==> ((#[trigger] t.nodes@[i]).parent matches Some(p)
            ==> (t.nodes@[p as int].children@.contains(i as usize) || t.nodes@[i].children@.len()
                == 0))
}

/// A fully attached forest is trivially detached-closed.
pub proof fn lemma_attached_closed(t: CorridorTree)
    requires
        fully_attached(t),
    ensures
        detached_closed(t),
{
}

/// A subtree member never precedes its root.
pub proof fn lemma_subtree_ge(t: CorridorTree, r: int, i: int)
    requires
        in_subtree(t, r, i),
    ensures
        i >= r,
{
}

/// Subtree membership and chain depth depend only on the parent links,
/// which pruning never changes.
pub proof fn lemma_chain_same(t1: CorridorTree, t2: CorridorTree, r: int, i: int)
    requires
        t1.nodes@.len() == t2.nodes@.len(),
        forall|j: int|
            0 <= j < t1.nodes@.len() ==> (#[trigger] t2.nodes@[j]).parent == t1.nodes@[j].parent,
        0 <= i < t1.nodes@.len(),
    ensures
        in_subtree(t2, r, i) == in_subtree(t1, r, i),
        rel_depth(t2, r, i) == rel_depth(t1, r, i),
    decreases i,
{
    if i != r && i > r {
        match t1.nodes@[i].parent {
            Some(p) => {
                if p < i {
                    lemma_chain_same(t1, t2, r, p as int);
                }
            },
            None => {},
        }
    }
}

/// Subtree membership is transitive along the chain.
pub proof fn lemma_subtree_trans(t: CorridorTree, a: int, b: int, c: int)
    requires
        in_subtree(t, a, b),
        in_subtree(t, b, c),
    ensures
        in_subtree(t, a, c),
    decreases c,
{
    lemma_subtree_ge(t, a, b);
    if c != b {
        lemma_subtree_ge(t, b, c);
        let p = t.nodes@[c].parent.unwrap() as int;
        lemma_subtree_trans(t, a, b, p);
    }
}

/// Two roots that share a member stand on one chain.
pub proof fn lemma_subtree_meet(t: CorridorTree, r1: int, r2: int, i: int)
    requires
        in_subtree(t, r1, i),
        in_subtree(t, r2, i),
        r1 <= r2,
    ensures
        in_subtree(t, r1, r2),
    decreases i,
{
    if i != r2 {
        lemma_subtree_ge(t, r2, i);
        let p = t.nodes@[i].parent.unwrap() as int;
        lemma_subtree_meet(t, r1, r2, p);
    }
}

/// A strict subtree member descends through exactly one child of the
/// subtree's root, and its chain depth splits there.
pub proof fn lemma_subtree_child(t: CorridorTree, r: int, i: int)
    requires
        in_subtree(t, r, i),
        i != r,
    ensures
        exists|v: int|
            {
                &&& r < v <= i
                &&& (#[trigger] t.nodes@[v].parent) matches Some(q) && q as int == r
                &&& in_subtree(t, v, i)
                &&& rel_depth(t, r, i) == rel_depth(t, v, i) + 1
            },
    decreases i,
{
    lemma_subtree_ge(t, r, i);
    assert(r < i);
    assert(t.nodes@[i].parent is Some);
    let p = t.nodes@[i].parent.unwrap() as int;
    assert(p < i && in_subtree(t, r, p));
    assert(rel_depth(t, r, i) == rel_depth(t, r, p) + 1);
    if p == r {
        assert(rel_depth(t, r, p) == 0);
        assert(in_subtree(t, i, i));
        assert(rel_depth(t, i, i) == 0);
        assert({
            &&& r < i <= i
            &&& t.nodes@[i].parent matches Some(q) && q as int == r
            &&& in_subtree(t, i, i)
            &&& rel_depth(t, r, i) == rel_depth(t, i, i) + 1
        });
    } else {
        lemma_subtree_child(t, r, p);
        let v = choose|v: int|
            {
                &&& r < v <= p
                &&& (#[trigger] t.nodes@[v].parent) matches Some(q) && q as int == r
                &&& in_subtree(t, v, p)
                &&& rel_depth(t, r, p) == rel_depth(t, v, p) + 1
            };
        assert(v <= p && p < i);
        assert(in_subtree(t, v, i));
        assert(rel_depth(t, v, i) == rel_depth(t, v, p) + 1);
        assert({
            &&& r < v <= i
            &&& t.nodes@[v].parent matches Some(q) && q as int == r
            &&& in_subtree(t, v, i)
            &&& rel_depth(t, r, i) == rel_depth(t, v, i) + 1
        });
    }
}

/// Below a childless detached node everything is detached and childless.
pub proof fn lemma_detached_subtree(t: CorridorTree, v: int, i: int)
    requires
        t.wf(),
        detached_closed(t),
        0 <= v < t.nodes@.len(),
        t.nodes@[v].children@.len() == 0,
        in_subtree(t, v, i),
        i != v,
        0 <= i < t.nodes@.len(),
    ensures
        t.nodes@[i].parent matches Some(q) ==> !t.nodes@[q as int].children@.contains(i as usize),
        t.nodes@[i].children@.len() == 0,
    decreases i,
{
    lemma_subtree_ge(t, v, i);
    let q = t.nodes@[i].parent.unwrap() as int;
    if q == v {
        assert(!t.nodes@[v].children@.contains(i as usize)) by {
            if t.nodes@[v].children@.contains(i as usize) {
                let k = choose|k: int|
                    0 <= k < t.nodes@[v].children@.len() && t.nodes@[v].children@[k]
                        == i as usize;
            }
        }
    } else {
        lemma_detached_subtree(t, v, q);
        assert(!t.nodes@[q].children@.contains(i as usize)) by {
            if t.nodes@[q].children@.contains(i as usize) {
                let k = choose|k: int|
                    0 <= k < t.nodes@[q].children@.len() && t.nodes@[q].children@[k]
                        == i as usize;
            }
        }
    }
}

/// Link `node`'s back-reference to `parent`. The parent must already be
/// allocated, so that allocation order keeps the forest acyclic; a listed
/// root keeps no parent.
pub fn set_parent(tree: &mut CorridorTree, node: usize, parent: usize)
    requires
        old(tree).wf(),
        parent < node < old(tree).nodes@.len(),
        forall|r: int| 0 <= r < old(tree).roots@.len() ==> old(tree).roots@[r] != node,
        forall|i: int, j: int|
            0 <= i < old(tree).nodes@.len() && 0 <= j < old(tree).nodes@[i].children@.len()
                ==> #[trigger] old(tree).nodes@[i].children@[j] != node,
    ensures
        final(tree).wf(),
        final(tree).nodes@.len() == old(tree).nodes@.len(),
        final(tree).roots@ == old(tree).roots@,
        final(tree).nodes@[node as int].parent == Some(parent),
        final(tree).nodes@[node as int].x == old(tree).nodes@[node as int].x,
        final(tree).nodes@[node as int].y == old(tree).nodes@[node as int].y,
        final(tree).nodes@[node as int].children == old(tree).nodes@[node as int].children,
        forall|i: int|
            0 <= i < old(tree).nodes@.len() && i != node ==> final(tree).nodes@[i] == old(
                tree,
            ).nodes@[i],
{
    let node_ref = &mut tree.nodes[node];
    node_ref.parent = Some(parent);
    proof {
        assert forall|i: int| 0 <= i < tree.nodes@.len() implies #[trigger] tree.node_wf(i) by {
            assert(old(tree).node_wf(i));
            let ch = tree.nodes@[i].children@;
            assert forall|j: int| 0 <= j < ch.len() implies tree.nodes@[
                #[trigger] ch[j] as int
            ].parent == Some(i as usize) by {
                assert(ch == old(tree).nodes@[i].children@);
                assert(old(tree).nodes@[i].children@[j] != node);
                assert(old(tree).nodes@[ch[j] as int].parent == Some(i as usize));
            }
        }
    }
}

/// Make `child` a child of `node`: set the back-reference and append `child`
/// to `node`'s child list.
pub fn add_child(tree: &mut CorridorTree, node: usize, child: usize)
    requires
        old(tree).wf(),
        node < child < old(tree).nodes@.len(),
        forall|r: int| 0 <= r < old(tree).roots@.len() ==> old(tree).roots@[r] != child,
        forall|i: int, j: int|
            0 <= i < old(tree).nodes@.len() && 0 <= j < old(tree).nodes@[i].children@.len()
                ==> #[trigger] old(tree).nodes@[i].children@[j] != child,
    ensures
        final(tree).wf(),
        final(tree).nodes@.len() == old(tree).nodes@.len(),
        final(tree).roots@ == old(tree).roots@,
        final(tree).nodes@[child as int].parent == Some(node),
        final(tree).nodes@[child as int].x == old(tree).nodes@[child as int].x,
        final(tree).nodes@[child as int].y == old(tree).nodes@[child as int].y,
        final(tree).nodes@[child as int].children == old(tree).nodes@[child as int].children,
        final(tree).nodes@[node as int].parent == old(tree).nodes@[node as int].parent,
        final(tree).nodes@[node as int].x == old(tree).nodes@[node as int].x,
        final(tree).nodes@[node as int].y == old(tree).nodes@[node as int].y,
        final(tree).nodes@[node as int].children@ == old(tree).nodes@[node as int].children@.push(
            child,
        ),
        forall|i: int|
            0 <= i < old(tree).nodes@.len() && i != node && i != child ==> final(tree).nodes@[i]
                == old(tree).nodes@[i],
{
    set_parent(tree, child, node);
    let node_ref = &mut tree.nodes[node];
    node_ref.children.push(child);
    proof {
        assert forall|i: int| 0 <= i < tree.nodes@.len() implies #[trigger] tree.node_wf(i) by {
            assert(old(tree).node_wf(i));
            let ch = tree.nodes@[i].children@;
            if i == node {
                assert forall|j: int| 0 <= j < ch.len() implies i < #[trigger] ch[j]
                    < tree.nodes@.len() by {
                    if j < ch.len() - 1 {
                        assert(ch[j] == old(tree).nodes@[i].children@[j]);
                    }
                }
                assert forall|j: int| 0 <= j < ch.len() implies tree.nodes@[
                    #[trigger] ch[j] as int
                ].parent == Some(i as usize) by {
                    if j < ch.len() - 1 {
                        assert(ch[j] == old(tree).nodes@[i].children@[j]);
                        assert(ch[j] != child);
                        assert(old(tree).nodes@[ch[j] as int].parent == Some(i as usize));
                    } else {
                        assert(ch[j] == child);
                    }
                }
            } else {
                assert(ch == old(tree).nodes@[i].children@);
                assert forall|j: int| 0 <= j < ch.len() implies tree.nodes@[
                    #[trigger] ch[j] as int
                ].parent == Some(i as usize) by {
                    assert(ch[j] != child);
                    assert(old(tree).nodes@[ch[j] as int].parent == Some(i as usize));
                }
            }
        }
    }
}

/// The parent index of `node`, if it has one.
pub fn get_parent(tree: &CorridorTree, node: usize) -> (r: Option<usize>)
    requires
        node < tree.nodes@.len(),
    ensures
        r == tree.nodes@[node as int].parent,
{
    tree.nodes[node].parent
}

/// Detach `node` from its parent: remove every entry equal to `node` from the
/// parent's child list. The node's own fields, and every other node, are
/// untouched; a root node (no parent) is left as it is.
pub fn remove_node(tree: &mut CorridorTree, node: usize)
    requires
        old(tree).wf(),
        node < old(tree).nodes@.len(),
    ensures
        final(tree).wf(),
        final(tree).nodes@.len() == old(tree).nodes@.len(),
        final(tree).roots@ == old(tree).roots@,
        old(tree).nodes@[node as int].parent matches Some(p) ==> {
            &&& final(tree).nodes@[p as int].children@ == old(
                tree,
            ).nodes@[p as int].children@.filter(|c: usize| c != node)
            &&& forall|t: int|
                0 <= t < final(tree).nodes@[p as int].children@.len() ==> old(
                    tree,
                ).nodes@[p as int].children@.contains(
                    #[trigger] final(tree).nodes@[p as int].children@[t],
                )
            &&& final(tree).nodes@[p as int].parent == old(tree).nodes@[p as int].parent
            &&& final(tree).nodes@[p as int].x == old(tree).nodes@[p as int].x
            &&& final(tree).nodes@[p as int].y == old(tree).nodes@[p as int].y
            &&& forall|i: int|
                0 <= i < old(tree).nodes@.len() && i != p ==> final(tree).nodes@[i] == old(
                    tree,
                ).nodes@[i]
        },
        old(tree).nodes@[node as int].parent is None ==> final(tree).nodes@ == old(tree).nodes@,
{
    let parent = get_parent(tree, node);
    match parent {
        Some(p) => {
            proof {
                assert(tree.node_wf(node as int));
            }
            let ghost old_children = tree.nodes@[p as int].children@;
            let n = tree.nodes[p].children.len();
            let mut kept: Vec<usize> = Vec::new();
            let mut k: usize = 0;
            while k < n
                invariant
                    *tree == *old(tree),
                    n == old_children.len(),
                    p < tree.nodes@.len(),
                    old_children == tree.nodes@[p as int].children@,
                    k <= n,
                    kept@ == old_children.take(k as int).filter(|c: usize| c != node),
                    forall|j: int|
                        0 <= j < kept@.len() ==> old_children.contains(#[trigger] kept@[j]),
                decreases n - k,
            {
                let c = tree.nodes[p].children[k];
                proof {
                    assert(old_children[k as int] == c);
                    assert(old_children.contains(c));
                }
                proof {
                    reveal(Seq::filter);
                    assert(old_children.take(k + 1).drop_last() =~= old_children.take(k as int));
                    assert(old_children.take(k + 1).last() == c);
                }
                if c != node {
                    kept.push(c);
                }
                k += 1;
            }
            proof {
                assert(old_children.take(n as int) =~= old_children);
            }
            let node_ref = &mut tree.nodes[p];
            node_ref.children = kept;
            proof {
                broadcast use vstd::seq_lib::group_filter_ensures;

                let pred = |c: usize| c != node;
                let newch = tree.nodes@[p as int].children@;
                assert forall|i: int| 0 <= i < tree.nodes@.len() implies #[trigger] tree.node_wf(
                    i,
                ) by {
                    assert(old(tree).node_wf(i));
                    if i == p {
                        assert forall|j: int| 0 <= j < newch.len() implies i < #[trigger] newch[j]
                            < tree.nodes@.len() by {
                            assert(old_children.contains(newch[j]));
                        }
                        assert forall|j: int| 0 <= j < newch.len() implies tree.nodes@[
                            #[trigger] newch[j] as int
                        ].parent == Some(i as usize) by {
                            assert(old_children.contains(newch[j]));
                            let t = choose|t: int|
                                0 <= t < old_children.len() && old_children[t] == newch[j];
                            assert(old(tree).nodes@[old_children[t] as int].parent == Some(
                                i as usize,
                            ));
                        }
                    } else {
                        let ch = tree.nodes@[i].children@;
                        assert(ch == old(tree).nodes@[i].children@);
                        assert forall|j: int| 0 <= j < ch.len() implies tree.nodes@[
                            #[trigger] ch[j] as int
                        ].parent == Some(i as usize) by {
                            assert(old(tree).nodes@[ch[j] as int].parent == Some(i as usize));
                        }
                    }
                }
            }
        },
        None => {},
    }
}

/// Copy a list of node indices, so a traversal can walk a snapshot while the
/// tree changes underneath it.
pub(crate) fn copy_indices(v: &Vec<usize>) -> (r: Vec<usize>)
    ensures
        r@ == v@,
{
    let mut r: Vec<usize> = Vec::new();
    let mut k: usize = 0;
    while k < v.len()
        invariant
            k <= v@.len(),
            r@ == v@.take(k as int),
        decreases v@.len() - k,
    {
        let c = v[k];
        r.push(c);
        proof {
            assert(v@.take(k + 1) =~= v@.take(k as int).push(c));
        }
        k += 1;
    }
    proof {
        assert(v@.take(v@.len() as int) =~= v@);
    }
    r
}

impl CorridorNode {
    /// Allocate a carve step at `(x, y)` in the arena, wired under `parent`
    /// when one is given, and return its index.
    pub fn new(tree: &mut CorridorTree, parent: Option<usize>, x: u16, y: u16) -> (idx: usize)
        requires
            old(tree).wf(),
            parent matches Some(p) ==> p < old(tree).nodes@.len(),
        ensures
            final(tree).wf(),
            idx == old(tree).nodes@.len(),
            final(tree).nodes@.len() == old(tree).nodes@.len() + 1,
            final(tree).roots@ == old(tree).roots@,
            final(tree).nodes@[idx as int].x == x,
            final(tree).nodes@[idx as int].y == y,
            final(tree).nodes@[idx as int].parent == parent,
            final(tree).nodes@[idx as int].children@.len() == 0,
            parent matches Some(p) ==> {
                &&& final(tree).nodes@[p as int].children@ == old(
                    tree,
                ).nodes@[p as int].children@.push(idx)
                &&& final(tree).nodes@[p as int].parent == old(tree).nodes@[p as int].parent
                &&& final(tree).nodes@[p as int].x == old(tree).nodes@[p as int].x
                &&& final(tree).nodes@[p as int].y == old(tree).nodes@[p as int].y
                &&& forall|i: int|
                    0 <= i < old(tree).nodes@.len() && i != p ==> final(tree).nodes@[i] == old(
                        tree,
                    ).nodes@[i]
            },
            parent is None ==> forall|i: int|
                0 <= i < old(tree).nodes@.len() ==> final(tree).nodes@[i] == old(tree).nodes@[i],
    {
        let idx = tree.nodes.len();
        tree.nodes.push(CorridorNode { x, y, parent, children: Vec::new() });
        proof {
            assert forall|i: int| 0 <= i < tree.nodes@.len() implies #[trigger] tree.node_wf(
                i,
            ) by {
                if i < idx {
                    assert(old(tree).node_wf(i));
                }
            }
        }
        match parent {
            Some(p) => {
                proof {
                    assert forall|r: int| 0 <= r < tree.roots@.len() implies tree.roots@[r]
                        != idx by {
                        assert(old(tree).roots@[r] < old(tree).nodes@.len());
                    }
                    assert forall|i: int, j: int|
                        0 <= i < tree.nodes@.len() && 0 <= j < tree.nodes@[i].children@.len()
                        implies #[trigger] tree.nodes@[i].children@[j] != idx by {
                        if i < idx {
                            assert(old(tree).node_wf(i));
                            assert(old(tree).nodes@[i].children@[j] < old(tree).nodes@.len());
                        }
                    }
                }
                add_child(tree, p, idx);
            },
            None => {},
        }
        idx
    }
}

} // verus!
