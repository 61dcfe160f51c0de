//! The interned (hash-consed) quadtree store. Handles are indices into an
//! append-only vector of nodes; an intern table keyed on the node value keeps
//! every structural value at exactly one index, so equality of handles is
//! equality of subtrees. A parallel vector caches each node's population and
//! a memo table caches the step operator's results.

use vstd::prelude::*;
use vstd::arithmetic::power2::pow2;
use std::collections::HashMap;
use crate::p3::{P3, quad_index, sub_coord, in_square};
use crate::life::life_n;

verus! {

broadcast use vstd::std_specs::hash::group_hash_axioms;

/// A handle: a stable index into the node store.
#[derive(Clone, Copy, PartialEq, Eq, Hash, Debug, Structural)]
pub struct TreeRef(pub usize);

/// A node value: a single cell, or four child handles in NW, NE, SW, SE order.
#[derive(Clone, Copy, PartialEq, Eq, Debug, Structural)]
pub enum Tree {
    Leaf { alive: bool },
    Branch { nw: TreeRef, ne: TreeRef, sw: TreeRef, se: TreeRef },
}

/// Child of a branch by quadrant index (0 = NW, 1 = NE, 2 = SW, 3 = SE).
pub open spec fn child_of(t: Tree, q: int) -> TreeRef {
    match t {
        Tree::Leaf { .. } => TreeRef(0usize),
        Tree::Branch { nw, ne, sw, se } => if q == 0 {
            nw
        } else if q == 1 {
            ne
        } else if q == 2 {
            sw
        } else {
            se
        },
    }
}

/// Depth of the node at index `i`: 0 for a leaf, one more than its NW child
/// for a branch. Total by following strictly decreasing indices.
pub open spec fn depth_at(nodes: Seq<Tree>, i: int) -> nat
    decreases i,
{
    if 0 <= i < nodes.len() {
        match nodes[i] {
            Tree::Leaf { .. } => 0,
            Tree::Branch { nw, .. } => if nw.0 < i {
                depth_at(nodes, nw.0 as int) + 1
            } else {
                0
            },
        }
    } else {
        0
    }
}

/// Exact population (number of live cells) of the subtree at index `i`.
pub open spec fn pop_at(nodes: Seq<Tree>, i: int) -> nat
    decreases i,
{
    if 0 <= i < nodes.len() {
        match nodes[i] {
            Tree::Leaf { alive } => if alive {
                1
            } else {
                0
            },
            Tree::Branch { nw, ne, sw, se } => if nw.0 < i && ne.0 < i && sw.0 < i && se.0 < i {
                pop_at(nodes, nw.0 as int) + pop_at(nodes, ne.0 as int) + pop_at(
                    nodes,
                    sw.0 as int,
                ) + pop_at(nodes, se.0 as int)
            } else {
                0
            },
        }
    } else {
        0
    }
}

pub open spec fn leaf_alive(nodes: Seq<Tree>, i: int) -> bool {
    if 0 <= i < nodes.len() {
        match nodes[i] {
            Tree::Leaf { alive } => alive,
            Tree::Branch { .. } => false,
        }
    } else {
        false
    }
}

/// The cell of the depth-`z` subtree at `i` addressed by the centred
/// coordinate `(y, x)`: descend `z` levels picking quadrants by sign.
pub open spec fn cell_at(nodes: Seq<Tree>, i: int, z: nat, y: int, x: int) -> bool
    decreases z,
{
    if z == 0 {
        leaf_alive(nodes, i)
    } else {
        match nodes[i] {
            Tree::Leaf { .. } => false,
            Tree::Branch { .. } => cell_at(
                nodes,
                child_of(nodes[i], quad_index(y, x)).0 as int,
                (z - 1) as nat,
                sub_coord(y, z),
                sub_coord(x, z),
            ),
        }
    }
}

/// The handle reached from `i` by descending `z` levels along `(y, x)`.
pub open spec fn spec_get(nodes: Seq<Tree>, i: int, z: nat, y: int, x: int) -> int
    decreases z,
{
    if z == 0 {
        i
    } else {
        match nodes[i] {
            Tree::Leaf { .. } => i,
            Tree::Branch { .. } => spec_get(
                nodes,
                child_of(nodes[i], quad_index(y, x)).0 as int,
                (z - 1) as nat,
                sub_coord(y, z),
                sub_coord(x, z),
            ),
        }
    }
}

/// The set of live cells of the depth-`z` subtree at `i`, in its own centred
/// coordinates.
pub open spec fn cells_of(nodes: Seq<Tree>, i: int, z: nat) -> Set<(int, int)> {
    Set::new(|p: (int, int)| in_square(p.0, p.1, z) && cell_at(nodes, i, z, p.0, p.1))
}

/// A single node is well formed: a branch's children sit strictly below it
/// in the store and share one depth.
pub open spec fn node_ok(nodes: Seq<Tree>, i: int) -> bool {
    match nodes[i] {
        Tree::Leaf { .. } => true,
        Tree::Branch { nw, ne, sw, se } => {
            &&& nw.0 < i
            &&& ne.0 < i
            &&& sw.0 < i
            &&& se.0 < i
            &&& depth_at(nodes, ne.0 as int) == depth_at(nodes, nw.0 as int)
            &&& depth_at(nodes, sw.0 as int) == depth_at(nodes, nw.0 as int)
            &&& depth_at(nodes, se.0 as int) == depth_at(nodes, nw.0 as int)
        },
    }
}

pub open spec fn store_wf(nodes: Seq<Tree>) -> bool {
    forall|i: int| 0 <= i < nodes.len() ==> #[trigger] node_ok(nodes, i)
}

/// The store only ever grows, and what is stored never changes.
pub open spec fn extends(pre: Seq<Tree>, post: Seq<Tree>) -> bool {
    &&& pre.len() <= post.len()
    &&& forall|i: int| 0 <= i < pre.len() ==> post[i] == #[trigger] pre[i]
}

/// A value a caller may hand to the intern operation: children (if any) are
/// valid handles of one common depth.
pub open spec fn tree_valid(nodes: Seq<Tree>, t: Tree) -> bool {
    match t {
        Tree::Leaf { .. } => true,
        Tree::Branch { nw, ne, sw, se } => {
            &&& nw.0 < nodes.len()
            &&& ne.0 < nodes.len()
            &&& sw.0 < nodes.len()
            &&& se.0 < nodes.len()
            &&& depth_at(nodes, ne.0 as int) == depth_at(nodes, nw.0 as int)
            &&& depth_at(nodes, sw.0 as int) == depth_at(nodes, nw.0 as int)
            &&& depth_at(nodes, se.0 as int) == depth_at(nodes, nw.0 as int)
        },
    }
}

/// Depth the value `t` will have once stored.
pub open spec fn tree_depth(nodes: Seq<Tree>, t: Tree) -> nat {
    match t {
        Tree::Leaf { .. } => 0,
        Tree::Branch { nw, .. } => depth_at(nodes, nw.0 as int) + 1,
    }
}

/// Population the value `t` will have once stored.
pub open spec fn tree_pop(nodes: Seq<Tree>, t: Tree) -> nat {
    match t {
        Tree::Leaf { alive } => if alive {
            1
        } else {
            0
        },
        Tree::Branch { nw, ne, sw, se } => pop_at(nodes, nw.0 as int) + pop_at(nodes, ne.0 as int)
            + pop_at(nodes, sw.0 as int) + pop_at(nodes, se.0 as int),
    }
}

/// Populations are cached saturated at `u64::MAX`.
pub open spec fn sat64(p: nat) -> nat {
    if p > 0xffff_ffff_ffff_ffffnat {
        0xffff_ffff_ffff_ffffnat
    } else {
        p
    }
}

/// Hash bucket for a node value in the intern table. Collisions are allowed:
/// buckets are searched by structural equality.
pub open spec fn spec_bucket_key(t: Tree) -> u64 {
    match t {
        Tree::Leaf { alive } => if alive {
            1u64
        } else {
            0u64
        },
        Tree::Branch { nw, ne, sw, se } => (nw.0 as u64) ^ ((ne.0 as u64) << 16) ^ ((sw.0
            as u64) << 32) ^ ((se.0 as u64) << 48),
    }
}

pub open spec fn bucket_ok(nodes: Seq<Tree>, b: Seq<TreeRef>, k: u64) -> bool {
    forall|j: int|
        0 <= j < b.len() ==> {
            &&& (#[trigger] b[j]).0 < nodes.len()
            &&& nodes[b[j].0 as int] is Branch
            &&& spec_bucket_key(nodes[b[j].0 as int]) == k
        }
}

/// Key of the step memo: input handle paired with the effective superspeed
/// level `s` (the step advances the centre by `2^(s-2)` generations).
pub open spec fn memo_key(i: int, s: int) -> u128 {
    (i * 0x1_0000_0000_0000_0000 + s) as u128
}

pub proof fn lemma_memo_key_injective(i1: int, s1: int, i2: int, s2: int)
    requires
        0 <= i1 < 0x1_0000_0000_0000_0000,
        0 <= s1 < 0x1_0000_0000_0000_0000,
        0 <= i2 < 0x1_0000_0000_0000_0000,
        0 <= s2 < 0x1_0000_0000_0000_0000,
        memo_key(i1, s1) == memo_key(i2, s2),
    ensures
        i1 == i2 && s1 == s2,
{
    let m = 0x1_0000_0000_0000_0000int;
    assert(0 <= i1 * 0x1_0000_0000_0000_0000 + s1
        < 0x1_0000_0000_0000_0000_0000_0000_0000_0000int) by (nonlinear_arith)
        requires
            0 <= i1 < 0x1_0000_0000_0000_0000,
            0 <= s1 < 0x1_0000_0000_0000_0000,
    ;
    assert(0 <= i2 * 0x1_0000_0000_0000_0000 + s2
        < 0x1_0000_0000_0000_0000_0000_0000_0000_0000int) by (nonlinear_arith)
        requires
            0 <= i2 < 0x1_0000_0000_0000_0000,
            0 <= s2 < 0x1_0000_0000_0000_0000,
    ;
    assert(i1 * m + s1 == i2 * m + s2);
    assert(i1 * m + s1 == i2 * m + s2 && 0 <= s1 < m && 0 <= s2 < m && 0 <= i1 && 0 <= i2 ==> i1
        == i2 && s1 == s2) by (nonlinear_arith);
}

/// What a memo entry promises: `r` is the depth-`(d-1)` centre of `i`
/// advanced by `2^(s-2)` generations.
pub open spec fn step_post(nodes: Seq<Tree>, i: int, s: int, r: int) -> bool {
    let d = depth_at(nodes, i) as int;
    &&& 0 <= i < nodes.len()
    &&& 0 <= r < nodes.len()
    &&& 2 <= s <= d
    &&& depth_at(nodes, r) == d - 1
    &&& forall|y: int, x: int|
        in_square(y, x, (d - 1) as nat) ==> #[trigger] cell_at(nodes, r, (d - 1) as nat, y, x)
            == life_n(cells_of(nodes, i, d as nat), pow2((s - 2) as nat)).contains((y, x))
}

pub open spec fn memo_ok(m: Map<u128, TreeRef>, nodes: Seq<Tree>) -> bool {
    forall|i: int, s: int|
        0 <= i < 0x1_0000_0000_0000_0000 && 0 <= s < 0x1_0000_0000_0000_0000
            && #[trigger] m.contains_key(memo_key(i, s)) ==> {
            &&& i < nodes.len()
            &&& step_post(nodes, i, s, m[memo_key(i, s)].0 as int)
        }
}

/// The interned node store.
#[derive(Debug, Clone)]
pub struct Universe {
    /// Append-only node vector; `TreeRef` indexes into it.
    pub nodes: Vec<Tree>,
    /// `empty_trees[z]` is the canonical all-dead node of depth `z`.
    pub empty_trees: Vec<TreeRef>,
    /// `populations[i]` is the live-cell count of node `i`, saturated at `u64::MAX`.
    pub populations: Vec<u64>,
    /// Memo of the step operator, keyed on `(handle, superspeed level)`.
    pub next_gen: HashMap<u128, TreeRef>,
    /// Intern table: bucket key of a node value to the handles bearing it.
    pub interned_nodes: HashMap<u64, Vec<TreeRef>>,
}

impl Universe {
    /// Everything the store guarantees between operations: canonicalisation
    /// (no value stored twice), depth uniformity, correct populations, the
    /// canonical empty-tree table, a complete intern table, and a sound memo.
    pub open spec fn wf(self) -> bool {
        let nodes = self.nodes@;
        &&& self.populations@.len() == nodes.len()
        &&& nodes.len() >= 2
        &&& nodes[0] == (Tree::Leaf { alive: false })
        &&& nodes[1] == (Tree::Leaf { alive: true })
        &&& store_wf(nodes)
        &&& forall|i: int|
            0 <= i < nodes.len() ==> (#[trigger] self.populations@[i]) as nat == sat64(
                pop_at(nodes, i),
            )
        &&& forall|i: int, j: int| 0 <= i < j < nodes.len() ==> #[trigger] nodes[i] != #[trigger] nodes[j]
        &&& forall|k: u64|
            self.interned_nodes@.contains_key(k) ==> bucket_ok(
                nodes,
                (#[trigger] self.interned_nodes@[k])@,
                k,
            )
        &&& forall|i: int|
            0 <= i < nodes.len() && (#[trigger] nodes[i]) is Branch ==> {
                &&& self.interned_nodes@.contains_key(spec_bucket_key(nodes[i]))
                &&& self.interned_nodes@[spec_bucket_key(nodes[i])]@.contains(
                    TreeRef(i as usize),
                )
            }
        &&& forall|z: int|
            0 <= z < self.empty_trees@.len() ==> {
                &&& (#[trigger] self.empty_trees@[z]).0 < nodes.len()
                &&& depth_at(nodes, self.empty_trees@[z].0 as int) == z
                &&& pop_at(nodes, self.empty_trees@[z].0 as int) == 0
                &&& nodes[self.empty_trees@[z].0 as int] == (if z == 0 {
                    Tree::Leaf { alive: false }
                } else {
                    Tree::Branch {
                        nw: self.empty_trees@[z - 1],
                        ne: self.empty_trees@[z - 1],
                        sw: self.empty_trees@[z - 1],
                        se: self.empty_trees@[z - 1],
                    }
                })
            }
        &&& memo_ok(self.next_gen@, nodes)
    }

    pub open spec fn valid(self, tr: TreeRef) -> bool {
        tr.0 < self.nodes@.len()
    }

    pub open spec fn node_of(self, tr: TreeRef) -> Tree {
        self.nodes@[tr.0 as int]
    }

    pub open spec fn depth_of(self, tr: TreeRef) -> nat {
        depth_at(self.nodes@, tr.0 as int)
    }

    /// The tables a pure intern step leaves untouched.
    pub open spec fn tables_unchanged(self, pre: Universe) -> bool {
        &&& self.empty_trees@ == pre.empty_trees@
        &&& self.next_gen@ == pre.next_gen@
    }
}

// ---------------------------------------------------------------------------
// Frame lemmas: growing the store changes nothing about existing nodes.
// ---------------------------------------------------------------------------

pub proof fn lemma_frame_depth(pre: Seq<Tree>, post: Seq<Tree>, i: int)
    requires
        extends(pre, post),
        store_wf(pre),
        0 <= i < pre.len(),
    ensures
        depth_at(post, i) == depth_at(pre, i),
    decreases i,
{
    assert(node_ok(pre, i));
    match pre[i] {
        Tree::Leaf { .. } => {},
        Tree::Branch { nw, .. } => {
            lemma_frame_depth(pre, post, nw.0 as int);
        },
    }
}

pub proof fn lemma_frame_pop(pre: Seq<Tree>, post: Seq<Tree>, i: int)
    requires
        extends(pre, post),
        store_wf(pre),
        0 <= i < pre.len(),
    ensures
        pop_at(post, i) == pop_at(pre, i),
    decreases i,
{
    assert(node_ok(pre, i));
    match pre[i] {
        Tree::Leaf { .. } => {},
        Tree::Branch { nw, ne, sw, se } => {
            lemma_frame_pop(pre, post, nw.0 as int);
            lemma_frame_pop(pre, post, ne.0 as int);
            lemma_frame_pop(pre, post, sw.0 as int);
            lemma_frame_pop(pre, post, se.0 as int);
        },
    }
}

pub proof fn lemma_frame_cell(pre: Seq<Tree>, post: Seq<Tree>, i: int, z: nat, y: int, x: int)
    requires
        extends(pre, post),
        store_wf(pre),
        0 <= i < pre.len(),
    ensures
        cell_at(post, i, z, y, x) == cell_at(pre, i, z, y, x),
    decreases z,
{
    assert(node_ok(pre, i));
    if z == 0 {
    } else {
        match pre[i] {
            Tree::Leaf { .. } => {},
            Tree::Branch { .. } => {
                let c = child_of(pre[i], quad_index(y, x));
                lemma_frame_cell(pre, post, c.0 as int, (z - 1) as nat, sub_coord(y, z), sub_coord(x, z));
            },
        }
    }
}

/// All the frame facts at once, quantified, for rewriting after a store growth.
pub proof fn lemma_frame_all(pre: Seq<Tree>, post: Seq<Tree>)
    requires
        extends(pre, post),
        store_wf(pre),
    ensures
        forall|i: int| 0 <= i < pre.len() ==> #[trigger] depth_at(post, i) == depth_at(pre, i),
        forall|i: int| 0 <= i < pre.len() ==> #[trigger] pop_at(post, i) == pop_at(pre, i),
        forall|i: int, z: nat, y: int, x: int|
            0 <= i < pre.len() ==> #[trigger] cell_at(post, i, z, y, x) == cell_at(pre, i, z, y, x),
        forall|i: int, z: nat|
            0 <= i < pre.len() ==> #[trigger] cells_of(post, i, z) == cells_of(pre, i, z),
{
    assert forall|i: int| 0 <= i < pre.len() implies #[trigger] depth_at(post, i) == depth_at(
        pre,
        i,
    ) by {
        lemma_frame_depth(pre, post, i);
    }
    assert forall|i: int| 0 <= i < pre.len() implies #[trigger] pop_at(post, i) == pop_at(
        pre,
        i,
    ) by {
        lemma_frame_pop(pre, post, i);
    }
    assert forall|i: int, z: nat, y: int, x: int| 0 <= i < pre.len() implies #[trigger] cell_at(
        post,
        i,
        z,
        y,
        x,
    ) == cell_at(pre, i, z, y, x) by {
        lemma_frame_cell(pre, post, i, z, y, x);
    }
    assert forall|i: int, z: nat| 0 <= i < pre.len() implies #[trigger] cells_of(post, i, z)
        == cells_of(pre, i, z) by {
        assert(cells_of(post, i, z) =~= cells_of(pre, i, z));
    }
}

pub proof fn lemma_extends_trans(a: Seq<Tree>, b: Seq<Tree>, c: Seq<Tree>)
    requires
        extends(a, b),
        extends(b, c),
    ensures
        extends(a, c),
{
}

/// A sound memo stays sound when the store grows.
pub proof fn lemma_memo_frame(m: Map<u128, TreeRef>, pre: Seq<Tree>, post: Seq<Tree>)
    requires
        memo_ok(m, pre),
        extends(pre, post),
        store_wf(pre),
    ensures
        memo_ok(m, post),
{
    lemma_frame_all(pre, post);
    assert forall|i: int, s: int|
        0 <= i < 0x1_0000_0000_0000_0000 && 0 <= s < 0x1_0000_0000_0000_0000
            && #[trigger] m.contains_key(memo_key(i, s)) implies {
        &&& i < post.len()
        &&& step_post(post, i, s, m[memo_key(i, s)].0 as int)
    } by {
        let r = m[memo_key(i, s)].0 as int;
        assert(step_post(pre, i, s, r));
        let d = depth_at(pre, i) as int;
        assert(depth_at(post, i) == d);
        assert(depth_at(post, r) == d - 1);
        assert(cells_of(post, i, d as nat) == cells_of(pre, i, d as nat));
        assert forall|y: int, x: int| in_square(y, x, (d - 1) as nat) implies #[trigger] cell_at(
            post,
            r,
            (d - 1) as nat,
            y,
            x,
        ) == life_n(cells_of(post, i, d as nat), pow2((s - 2) as nat)).contains((y, x)) by {
            assert(cell_at(post, r, (d - 1) as nat, y, x) == cell_at(pre, r, (d - 1) as nat, y, x));
        }
    }
}

// ---------------------------------------------------------------------------
// Structural helper lemmas.
// ---------------------------------------------------------------------------

/// A node of positive depth is a branch; its children are one level shallower.
pub proof fn lemma_child_depth(nodes: Seq<Tree>, i: int, q: int)
    requires
        store_wf(nodes),
        0 <= i < nodes.len(),
        nodes[i] is Branch,
        0 <= q < 4,
    ensures
        child_of(nodes[i], q).0 < i,
        depth_at(nodes, child_of(nodes[i], q).0 as int) == depth_at(nodes, i) - 1,
        depth_at(nodes, i) >= 1,
{
    assert(node_ok(nodes, i));
}

/// Depth 0 under well-formedness means the node is a leaf.
pub proof fn lemma_depth_zero_leaf(nodes: Seq<Tree>, i: int)
    requires
        store_wf(nodes),
        0 <= i < nodes.len(),
        depth_at(nodes, i) == 0,
    ensures
        nodes[i] is Leaf,
{
    assert(node_ok(nodes, i));
}

/// In a canonical store a value appears at one index only.
pub proof fn lemma_canonical_unique(u: Universe, a: TreeRef, b: TreeRef)
    requires
        u.wf(),
        u.valid(a),
        u.valid(b),
        u.node_of(a) == u.node_of(b),
    ensures
        a.0 == b.0,
{
    if a.0 < b.0 {
        assert(u.nodes@[a.0 as int] != u.nodes@[b.0 as int]);
    } else if b.0 < a.0 {
        assert(u.nodes@[b.0 as int] != u.nodes@[a.0 as int]);
    }
}

/// A subtree of population zero has no live cell.
pub proof fn lemma_pop_zero_dead(nodes: Seq<Tree>, i: int, z: nat, y: int, x: int)
    requires
        store_wf(nodes),
        0 <= i < nodes.len(),
        depth_at(nodes, i) == z,
        pop_at(nodes, i) == 0,
    ensures
        !cell_at(nodes, i, z, y, x),
    decreases z,
{
    assert(node_ok(nodes, i));
    if z == 0 {
        assert(nodes[i] is Leaf);
    } else {
        match nodes[i] {
            Tree::Leaf { .. } => {},
            Tree::Branch { .. } => {
                let c = child_of(nodes[i], quad_index(y, x));
                lemma_child_depth(nodes, i, quad_index(y, x));
                lemma_pop_zero_dead(
                    nodes,
                    c.0 as int,
                    (z - 1) as nat,
                    sub_coord(y, z),
                    sub_coord(x, z),
                );
            },
        }
    }
}

// ---------------------------------------------------------------------------
// Saturating population arithmetic.
// ---------------------------------------------------------------------------

proof fn lemma_sat64_fold(x: nat, y: nat)
    ensures
        sat64(sat64(x) + y) == sat64(x + y),
        sat64(x + sat64(y)) == sat64(x + y),
{
}

fn sat_add(a: u64, b: u64) -> (r: u64)
    ensures
        r as nat == sat64(a as nat + b as nat),
{
    if a > u64::MAX - b {
        u64::MAX
    } else {
        a + b
    }
}


/// Cell-level meaning of wrapping a tree in a dead border: the centre of the
/// doubled square shows the old cells, the ring shows nothing.
proof fn lemma_expand_cells(
    nodes: Seq<Tree>,
    tr: int,
    r: int,
    border: TreeRef,
    z: nat,
)
    requires
        store_wf(nodes),
        0 <= tr < nodes.len(),
        0 <= r < nodes.len(),
        border.0 < nodes.len(),
        z >= 1,
        depth_at(nodes, tr) == z,
        nodes[tr] is Branch,
        depth_at(nodes, border.0 as int) == (z - 1) as nat,
        pop_at(nodes, border.0 as int) == 0,
        nodes[r] is Branch,
        ({
            let a = child_of(nodes[r], 0);
            let b = child_of(nodes[r], 1);
            let c = child_of(nodes[r], 2);
            let d = child_of(nodes[r], 3);
            &&& a.0 < nodes.len() && b.0 < nodes.len() && c.0 < nodes.len() && d.0 < nodes.len()
            &&& nodes[a.0 as int] == (Tree::Branch {
                nw: border,
                ne: border,
                sw: border,
                se: child_of(nodes[tr], 0),
            })
            &&& nodes[b.0 as int] == (Tree::Branch {
                nw: border,
                ne: border,
                sw: child_of(nodes[tr], 1),
                se: border,
            })
            &&& nodes[c.0 as int] == (Tree::Branch {
                nw: border,
                ne: child_of(nodes[tr], 2),
                sw: border,
                se: border,
            })
            &&& nodes[d.0 as int] == (Tree::Branch {
                nw: child_of(nodes[tr], 3),
                ne: border,
                sw: border,
                se: border,
            })
        }),
    ensures
        forall|y: int, x: int|
            in_square(y, x, (z + 1) as nat) ==> #[trigger] cell_at(nodes, r, (z + 1) as nat, y, x)
                == (in_square(y, x, z) && cell_at(nodes, tr, z, y, x)),
{
    crate::arith::lemma_pow2_double((z - 1) as nat);
    if z >= 2 {
        crate::arith::lemma_pow2_double((z - 2) as nat);
    }
    assert(node_ok(nodes, tr));
    assert forall|y: int, x: int| in_square(y, x, (z + 1) as nat) implies #[trigger] cell_at(
        nodes,
        r,
        (z + 1) as nat,
        y,
        x,
    ) == (in_square(y, x, z) && cell_at(nodes, tr, z, y, x)) by {
        let y1 = sub_coord(y, (z + 1) as nat);
        let x1 = sub_coord(x, (z + 1) as nat);
        let q0 = quad_index(y, x);
        assert(cell_at(nodes, r, (z + 1) as nat, y, x) == cell_at(
            nodes,
            child_of(nodes[r], q0).0 as int,
            z,
            y1,
            x1,
        ));
        let mid_tr = child_of(nodes[r], q0);
        let q1 = quad_index(y1, x1);
        let y2 = sub_coord(y1, z);
        let x2 = sub_coord(x1, z);
        assert(cell_at(nodes, mid_tr.0 as int, z, y1, x1) == cell_at(
            nodes,
            child_of(nodes[mid_tr.0 as int], q1).0 as int,
            (z - 1) as nat,
            y2,
            x2,
        ));
        if in_square(y, x, z) {
            assert(q1 == 3 - q0);
            assert(child_of(nodes[mid_tr.0 as int], q1) == child_of(nodes[tr], q0));
            assert(y2 == sub_coord(y, z) && x2 == sub_coord(x, z));
            assert(cell_at(nodes, tr, z, y, x) == cell_at(
                nodes,
                child_of(nodes[tr], q0).0 as int,
                (z - 1) as nat,
                sub_coord(y, z),
                sub_coord(x, z),
            ));
        } else {
            assert(q1 != 3 - q0);
            assert(child_of(nodes[mid_tr.0 as int], q1) == border);
            lemma_pop_zero_dead(nodes, border.0 as int, (z - 1) as nat, y2, x2);
        }
    }
}

impl Universe {
    /// A fresh store holding only the two leaves.
    pub fn new() -> (r: Universe)
        ensures
            r.wf(),
            r.nodes@.len() == 2,
            r.empty_trees@.len() == 0,
            r.next_gen@ == Map::<u128, TreeRef>::empty(),
    {
        let mut nodes: Vec<Tree> = Vec::new();
        nodes.push(Tree::Leaf { alive: false });
        nodes.push(Tree::Leaf { alive: true });
        let mut populations: Vec<u64> = Vec::new();
        populations.push(0);
        populations.push(1);
        let u = Universe {
            nodes,
            empty_trees: Vec::new(),
            populations,
            next_gen: HashMap::new(),
            interned_nodes: HashMap::new(),
        };
        proof {
            assert(forall|i: int|
                0 <= i < u.nodes@.len() ==> #[trigger] node_ok(u.nodes@, i));
            assert(u.populations@[0] as nat == sat64(pop_at(u.nodes@, 0)));
            assert(u.populations@[1] as nat == sat64(pop_at(u.nodes@, 1)));
        }
        u
    }

    /// Deterministically return the unique handle of the given node value,
    /// storing it (with its population) on first sight.
    pub fn canonicalise(&mut self, t: Tree) -> (r: TreeRef)
        requires
            old(self).wf(),
            tree_valid(old(self).nodes@, t),
        ensures
            final(self).wf(),
            extends(old(self).nodes@, final(self).nodes@),
            final(self).tables_unchanged(*old(self)),
            final(self).valid(r),
            final(self).node_of(r) == t,
            final(self).nodes@.len() <= old(self).nodes@.len() + 1,
            final(self).depth_of(r) == tree_depth(old(self).nodes@, t),
            pop_at(final(self).nodes@, r.0 as int) == tree_pop(old(self).nodes@, t),
    {
        let ghost pre = self.nodes@;
        match t {
            Tree::Leaf { alive } => {
                let r = if alive {
                    TreeRef(1)
                } else {
                    TreeRef(0)
                };
                assert(extends(pre, self.nodes@));
                r
            },
            Tree::Branch { nw, ne, sw, se } => {
                let k: u64 = (nw.0 as u64) ^ ((ne.0 as u64) << 16) ^ ((sw.0 as u64) << 32) ^ ((se.0
                    as u64) << 48);
                proof {
                    assert(k == spec_bucket_key(t));
                }
                // Search the bucket for a structurally equal node.
                let mut found: Option<TreeRef> = None;
                match self.interned_nodes.get(&k) {
                    Some(bucket) => {
                        let mut j: usize = 0;
                        proof {
                            assert(bucket_ok(self.nodes@, bucket@, k));
                        }
                        while j < bucket.len()
                            invariant
                                self.wf(),
                                bucket_ok(self.nodes@, bucket@, k),
                                j <= bucket@.len(),
                                found is None ==> forall|jj: int|
                                    0 <= jj < j ==> self.nodes@[(#[trigger] bucket@[jj]).0 as int]
                                        != t,
                                found is Some ==> {
                                    &&& (found->0).0 < self.nodes@.len()
                                    &&& self.nodes@[(found->0).0 as int] == t
                                },
                            decreases bucket@.len() - j,
                        {
                            if found.is_none() {
                                let cand = bucket[j];
                                if self.nodes[cand.0] == t {
                                    found = Some(cand);
                                }
                            }
                            j += 1;
                        }
                        if let Some(r) = found {
                            proof {
                                assert(extends(pre, self.nodes@));
                                assert(node_ok(self.nodes@, r.0 as int));
                                assert(depth_at(self.nodes@, r.0 as int) == depth_at(
                                    self.nodes@,
                                    nw.0 as int,
                                ) + 1);
                            }
                            return r;
                        }
                        // No handle bears this value: the invariant says any
                        // branch with this value would sit in this bucket.
                        proof {
                            vstd::std_specs::vec::axiom_spec_len(&self.nodes);
                            assert(*bucket == self.interned_nodes@[k]);
                            assert forall|i: int| 0 <= i < self.nodes@.len() implies self.nodes@[i]
                                != t by {
                                if self.nodes@[i] == t {
                                    assert(i <= usize::MAX);
                                    assert(self.nodes@[i] is Branch);
                                    assert(spec_bucket_key(self.nodes@[i]) == k);
                                    assert(self.interned_nodes@[k]@.contains(TreeRef(i as usize)));
                                    assert(bucket@.contains(TreeRef(i as usize)));
                                    let jj = choose|jj: int|
                                        0 <= jj < bucket@.len() && bucket@[jj] == TreeRef(
                                            i as usize,
                                        );
                                    assert((bucket@[jj]).0 as int == i);
                                    assert(self.nodes@[(bucket@[jj]).0 as int] != t);
                                }
                            }
                        }
                    },
                    None => {
                        proof {
                            assert forall|i: int| 0 <= i < self.nodes@.len() implies self.nodes@[i]
                                != t by {
                                if self.nodes@[i] == t {
                                    assert(self.nodes@[i] is Branch);
                                    assert(self.interned_nodes@.contains_key(spec_bucket_key(t)));
                                }
                            }
                        }
                    },
                }
                // Not present: append the node, cache its population, index it.
                let n = self.nodes.len();
                let pa = self.populations[nw.0];
                let pb = self.populations[ne.0];
                let pc = self.populations[sw.0];
                let pd = self.populations[se.0];
                let p = sat_add(sat_add(sat_add(pa, pb), pc), pd);
                proof {
                    lemma_sat64_fold(pop_at(pre, nw.0 as int), pb as nat);
                    lemma_sat64_fold(
                        pop_at(pre, nw.0 as int) + pb as nat,
                        pop_at(pre, ne.0 as int),
                    );
                    lemma_sat64_fold(
                        (pop_at(pre, nw.0 as int) + pop_at(pre, ne.0 as int)) as nat,
                        pc as nat,
                    );
                    lemma_sat64_fold(
                        (pop_at(pre, nw.0 as int) + pop_at(pre, ne.0 as int) + pc as nat) as nat,
                        pop_at(pre, sw.0 as int),
                    );
                    lemma_sat64_fold(
                        (pop_at(pre, nw.0 as int) + pop_at(pre, ne.0 as int) + pop_at(
                            pre,
                            sw.0 as int,
                        )) as nat,
                        pd as nat,
                    );
                    lemma_sat64_fold(
                        (pop_at(pre, nw.0 as int) + pop_at(pre, ne.0 as int) + pop_at(
                            pre,
                            sw.0 as int,
                        ) + pd as nat) as nat,
                        pop_at(pre, se.0 as int),
                    );
                }
                self.nodes.push(t);
                self.populations.push(p);
                let mut bucket: Vec<TreeRef> = match self.interned_nodes.remove(&k) {
                    Some(b) => b,
                    None => Vec::new(),
                };
                bucket.push(TreeRef(n));
                self.interned_nodes.insert(k, bucket);
                let r = TreeRef(n);
                proof {
                    let post = self.nodes@;
                    assert(post == pre.push(t));
                    assert(post.len() == pre.len() + 1);
                    assert(post[n as int] == t);
                    assert(extends(pre, post));
                    lemma_frame_all(pre, post);
                    assert(depth_at(post, nw.0 as int) == depth_at(pre, nw.0 as int));
                    assert(pop_at(post, nw.0 as int) == pop_at(pre, nw.0 as int));
                    assert(pop_at(post, ne.0 as int) == pop_at(pre, ne.0 as int));
                    assert(pop_at(post, sw.0 as int) == pop_at(pre, sw.0 as int));
                    assert(pop_at(post, se.0 as int) == pop_at(pre, se.0 as int));
                    // the new node is well formed
                    assert forall|i: int| 0 <= i < post.len() implies #[trigger] node_ok(
                        post,
                        i,
                    ) by {
                        if i < pre.len() {
                            assert(node_ok(pre, i));
                            match pre[i] {
                                Tree::Leaf { .. } => {},
                                Tree::Branch { .. } => {},
                            }
                        } else {
                            assert(post[i] == t);
                        }
                    }
                    assert(store_wf(post));
                    assert(depth_at(post, n as int) == depth_at(pre, nw.0 as int) + 1);
                    assert(pop_at(post, n as int) == tree_pop(pre, t));
                    // populations stay correct
                    assert forall|i: int| 0 <= i < post.len() implies (
                    #[trigger] self.populations@[i]) as nat == sat64(pop_at(post, i)) by {
                        if i < pre.len() {
                            assert(self.populations@[i] == old(self).populations@[i]);
                        }
                    }
                    // canonicality: t was nowhere in the old store
                    assert forall|i: int, j: int| 0 <= i < j < post.len() implies #[trigger] post[i]
                        != #[trigger] post[j] by {
                        if j < pre.len() {
                            assert(pre[i] != pre[j]);
                        } else {
                            assert(post[j] == t);
                            assert(pre[i] != t);
                        }
                    }
                    // intern table invariants
                    assert forall|kk: u64| self.interned_nodes@.contains_key(kk) implies bucket_ok(
                        post,
                        (#[trigger] self.interned_nodes@[kk])@,
                        kk,
                    ) by {
                        if kk == k {
                            assert(self.interned_nodes@[kk]@ == bucket@);
                        } else {
                            assert(old(self).interned_nodes@.contains_key(kk));
                            assert(bucket_ok(pre, old(self).interned_nodes@[kk]@, kk));
                            assert(self.interned_nodes@[kk]@ == old(self).interned_nodes@[kk]@);
                        }
                    }
                    assert forall|i: int|
                        0 <= i < post.len() && (#[trigger] post[i]) is Branch implies {
                        &&& self.interned_nodes@.contains_key(spec_bucket_key(post[i]))
                        &&& self.interned_nodes@[spec_bucket_key(post[i])]@.contains(
                            TreeRef(i as usize),
                        )
                    } by {
                        if i < pre.len() {
                            let ki = spec_bucket_key(pre[i]);
                            assert(old(self).interned_nodes@.contains_key(ki));
                            assert(old(self).interned_nodes@[ki]@.contains(TreeRef(i as usize)));
                            if ki == k {
                                assert(self.interned_nodes@[ki]@ == bucket@);
                                let jj = choose|jj: int|
                                    0 <= jj < old(self).interned_nodes@[ki]@.len() && old(
                                        self,
                                    ).interned_nodes@[ki]@[jj] == TreeRef(i as usize);
                                assert(bucket@[jj] == TreeRef(i as usize));
                            } else {
                                assert(self.interned_nodes@[ki]@ == old(
                                    self,
                                ).interned_nodes@[ki]@);
                            }
                        } else {
                            assert(post[i] == t);
                            assert(bucket@[bucket@.len() - 1] == TreeRef(n));
                        }
                    }
                    // empty-tree table untouched, entries framed
                    assert forall|z: int| 0 <= z < self.empty_trees@.len() implies {
                        &&& (#[trigger] self.empty_trees@[z]).0 < post.len()
                        &&& depth_at(post, self.empty_trees@[z].0 as int) == z
                        &&& pop_at(post, self.empty_trees@[z].0 as int) == 0
                        &&& post[self.empty_trees@[z].0 as int] == (if z == 0 {
                            Tree::Leaf { alive: false }
                        } else {
                            Tree::Branch {
                                nw: self.empty_trees@[z - 1],
                                ne: self.empty_trees@[z - 1],
                                sw: self.empty_trees@[z - 1],
                                se: self.empty_trees@[z - 1],
                            }
                        })
                    } by {}
                    lemma_memo_frame(self.next_gen@, pre, post);
                }
                r
            },
        }
    }

    /// True population of a leaf (only leaves carry cells directly).
    pub fn alive(&self, tr: TreeRef) -> (r: bool)
        requires
            self.wf(),
            self.valid(tr),
            self.node_of(tr) is Leaf,
        ensures
            r == leaf_alive(self.nodes@, tr.0 as int),
            r == cell_at(self.nodes@, tr.0 as int, 0, 0, 0),
    {
        match self.nodes[tr.0] {
            Tree::Leaf { alive } => alive,
            Tree::Branch { .. } => false,
        }
    }

    /// The four children of a branch, NW, NE, SW, SE.
    pub fn subtree(&self, tr: TreeRef) -> (r: [TreeRef; 4])
        requires
            self.wf(),
            self.valid(tr),
            self.node_of(tr) is Branch,
        ensures
            forall|q: int| 0 <= q < 4 ==> r@[q] == child_of(self.node_of(tr), q),
    {
        match self.nodes[tr.0] {
            Tree::Leaf { .. } => [tr, tr, tr, tr],
            Tree::Branch { nw, ne, sw, se } => [nw, ne, sw, se],
        }
    }

    /// Cached population: exact when below `u64::MAX`, else saturated.
    pub fn population(&self, tr: TreeRef) -> (r: u64)
        requires
            self.wf(),
            self.valid(tr),
        ensures
            r as nat == sat64(pop_at(self.nodes@, tr.0 as int)),
            r == 0 <==> pop_at(self.nodes@, tr.0 as int) == 0,
    {
        self.populations[tr.0]
    }

    /// The canonical all-dead tree of the requested depth, building the
    /// table `empty_trees[0..=depth]` as needed.
    pub fn empty_tree(&mut self, depth: usize) -> (r: TreeRef)
        requires
            old(self).wf(),
        ensures
            final(self).wf(),
            extends(old(self).nodes@, final(self).nodes@),
            final(self).next_gen@ == old(self).next_gen@,
            old(self).empty_trees@.len() <= final(self).empty_trees@.len(),
            forall|z: int|
                0 <= z < old(self).empty_trees@.len() ==> #[trigger] final(self).empty_trees@[z]
                    == old(self).empty_trees@[z],
            final(self).empty_trees@.len() > depth as int,
            r == final(self).empty_trees@[depth as int],
            final(self).valid(r),
            final(self).depth_of(r) == depth,
            pop_at(final(self).nodes@, r.0 as int) == 0,
    {
        let ghost orig = *self;
        while self.empty_trees.len() <= depth
            invariant
                self.wf(),
                extends(orig.nodes@, self.nodes@),
                self.next_gen@ == orig.next_gen@,
                orig.empty_trees@.len() <= self.empty_trees@.len(),
                forall|z: int|
                    0 <= z < orig.empty_trees@.len() ==> #[trigger] self.empty_trees@[z]
                        == orig.empty_trees@[z],
            decreases depth + 1 - self.empty_trees@.len(),
        {
            let n = self.empty_trees.len();
            let t: Tree = if n == 0 {
                Tree::Leaf { alive: false }
            } else {
                let e = self.empty_trees[n - 1];
                Tree::Branch { nw: e, ne: e, sw: e, se: e }
            };
            let tr = self.canonicalise(t);
            self.empty_trees.push(tr);
            proof {
                assert(self.empty_trees@[n as int] == tr);
                assert forall|z: int| 0 <= z < self.empty_trees@.len() implies {
                    &&& (#[trigger] self.empty_trees@[z]).0 < self.nodes@.len()
                    &&& depth_at(self.nodes@, self.empty_trees@[z].0 as int) == z
                    &&& pop_at(self.nodes@, self.empty_trees@[z].0 as int) == 0
                    &&& self.nodes@[self.empty_trees@[z].0 as int] == (if z == 0 {
                        Tree::Leaf { alive: false }
                    } else {
                        Tree::Branch {
                            nw: self.empty_trees@[z - 1],
                            ne: self.empty_trees@[z - 1],
                            sw: self.empty_trees@[z - 1],
                            se: self.empty_trees@[z - 1],
                        }
                    })
                } by {}
            }
        }
        self.empty_trees[depth]
    }

    /// Read access: descend `p.z` levels from `tr` along the centred
    /// coordinate `(p.y, p.x)` and return the handle found there.
    pub fn get_node(&self, tr: TreeRef, p: P3) -> (r: TreeRef)
        requires
            self.wf(),
            self.valid(tr),
            p.z <= 64,
            p.z as nat <= self.depth_of(tr),
        ensures
            self.valid(r),
            r.0 as int == spec_get(self.nodes@, tr.0 as int, p.z as nat, p.y as int, p.x as int),
            self.depth_of(r) == self.depth_of(tr) - p.z,
    {
        let mut cur = tr;
        let mut q = p;
        while q.z > 0
            invariant
                self.wf(),
                self.valid(cur),
                q.z <= 64,
                q.z as nat <= depth_at(self.nodes@, cur.0 as int),
                depth_at(self.nodes@, cur.0 as int) == self.depth_of(tr) - (p.z - q.z),
                spec_get(self.nodes@, cur.0 as int, q.z as nat, q.y as int, q.x as int)
                    == spec_get(self.nodes@, tr.0 as int, p.z as nat, p.y as int, p.x as int),
            decreases q.z,
        {
            let ghost qpre = q;
            let ghost cpre = cur;
            let io = q.descend();
            let i = match io {
                Some(i) => i,
                None => 0,
            };
            proof {
                if self.node_of(cur) is Leaf {
                    assert(depth_at(self.nodes@, cur.0 as int) == 0);
                }
                assert(self.node_of(cur) is Branch);
                assert(0 <= i < 4);
                lemma_child_depth(self.nodes@, cur.0 as int, i as int);
            }
            let st = self.subtree(cur);
            cur = st[i];
            proof {
                assert(cur == child_of(self.node_of(cpre), quad_index(qpre.y as int, qpre.x as int)));
                assert(spec_get(self.nodes@, cpre.0 as int, qpre.z as nat, qpre.y as int, qpre.x as int)
                    == spec_get(self.nodes@, cur.0 as int, q.z as nat, q.y as int, q.x as int));
            }
        }
        cur
    }

    /// A new tree equal to `tr` except that the cell addressed by `p` is
    /// alive. A re-interned path copy; the store is extended, never changed.
    #[verifier::rlimit(60)]
    pub fn set_bit(&mut self, tr: TreeRef, p: P3) -> (r: TreeRef)
        requires
            old(self).wf(),
            old(self).valid(tr),
            p.z <= 64,
            old(self).depth_of(tr) == p.z,
            in_square(p.y as int, p.x as int, p.z as nat),
        ensures
            final(self).wf(),
            extends(old(self).nodes@, final(self).nodes@),
            final(self).tables_unchanged(*old(self)),
            final(self).valid(r),
            final(self).depth_of(r) == p.z,
            forall|y: int, x: int|
                in_square(y, x, p.z as nat) ==> #[trigger] cell_at(
                    final(self).nodes@,
                    r.0 as int,
                    p.z as nat,
                    y,
                    x,
                ) == (cell_at(old(self).nodes@, tr.0 as int, p.z as nat, y, x) || (y == p.y as int
                    && x == p.x as int)),
            pop_at(final(self).nodes@, r.0 as int) == pop_at(old(self).nodes@, tr.0 as int) + (
            if cell_at(old(self).nodes@, tr.0 as int, p.z as nat, p.y as int, p.x as int) {
                0int
            } else {
                1int
            }),
        decreases p.z,
    {
        let ghost pre = self.nodes@;
        if p.z == 0 {
            let r = self.canonicalise(Tree::Leaf { alive: true });
            proof {
                lemma_frame_all(pre, self.nodes@);
                lemma_depth_zero_leaf(pre, tr.0 as int);
                match pre[tr.0 as int] {
                    Tree::Leaf { alive } => {
                        assert(pop_at(pre, tr.0 as int) == (if alive { 1int } else { 0int }));
                        assert(cell_at(pre, tr.0 as int, 0, 0, 0) == alive);
                    },
                    Tree::Branch { .. } => {},
                }
                assert(pop_at(self.nodes@, r.0 as int) == 1);
            }
            r
        } else {
            proof {
                if self.node_of(tr) is Leaf {
                    assert(depth_at(self.nodes@, tr.0 as int) == 0);
                }
                assert(self.node_of(tr) is Branch);
            }
            let st = self.subtree(tr);
            let mut q = p;
            let io = q.descend();
            let i = match io {
                Some(i) => i,
                None => 0,
            };
            proof {
                assert(0 <= i < 4);
                lemma_child_depth(self.nodes@, tr.0 as int, i as int);
                crate::p3::lemma_sub_in_square(p.y as int, p.x as int, p.z as nat);
            }
            let child = st[i];
            let nc = self.set_bit(child, q);
            let ghost mid = self.nodes@;
            proof {
                assert(node_ok(pre, tr.0 as int));
                assert(child_of(pre[tr.0 as int], 0).0 < tr.0);
                assert(child_of(pre[tr.0 as int], 1).0 < tr.0);
                assert(child_of(pre[tr.0 as int], 2).0 < tr.0);
                assert(child_of(pre[tr.0 as int], 3).0 < tr.0);
            }
            let t = if i == 0 {
                Tree::Branch { nw: nc, ne: st[1], sw: st[2], se: st[3] }
            } else if i == 1 {
                Tree::Branch { nw: st[0], ne: nc, sw: st[2], se: st[3] }
            } else if i == 2 {
                Tree::Branch { nw: st[0], ne: st[1], sw: nc, se: st[3] }
            } else {
                Tree::Branch { nw: st[0], ne: st[1], sw: st[2], se: nc }
            };
            proof {
                lemma_frame_all(pre, mid);
                lemma_child_depth(mid, tr.0 as int, 0);
                lemma_child_depth(mid, tr.0 as int, 1);
                lemma_child_depth(mid, tr.0 as int, 2);
                lemma_child_depth(mid, tr.0 as int, 3);
                assert(depth_at(mid, nc.0 as int) == (p.z - 1) as nat);
                assert(tree_valid(mid, t));
            }
            let r = self.canonicalise(t);
            proof {
                let post = self.nodes@;
                lemma_frame_all(mid, post);
                lemma_frame_all(pre, post);
                assert(extends(pre, post));
                let z = p.z as nat;
                let pi = quad_index(p.y as int, p.x as int);
                // population: only the addressed child's count moved
                let ghost dlt: int = if cell_at(pre, child.0 as int, (z - 1) as nat, q.y as int, q.x as int) {
                    0
                } else {
                    1
                };
                assert(cell_at(pre, tr.0 as int, z, p.y as int, p.x as int) == cell_at(
                    pre,
                    child.0 as int,
                    (z - 1) as nat,
                    q.y as int,
                    q.x as int,
                ));
                assert(pop_at(mid, nc.0 as int) == pop_at(pre, child.0 as int) + dlt);
                assert(pop_at(pre, tr.0 as int) == pop_at(pre, child_of(pre[tr.0 as int], 0).0 as int)
                    + pop_at(pre, child_of(pre[tr.0 as int], 1).0 as int) + pop_at(
                    pre,
                    child_of(pre[tr.0 as int], 2).0 as int,
                ) + pop_at(pre, child_of(pre[tr.0 as int], 3).0 as int));
                assert(pop_at(post, r.0 as int) == tree_pop(mid, t));
                lemma_frame_pop(pre, mid, child_of(pre[tr.0 as int], 0).0 as int);
                lemma_frame_pop(pre, mid, child_of(pre[tr.0 as int], 1).0 as int);
                lemma_frame_pop(pre, mid, child_of(pre[tr.0 as int], 2).0 as int);
                lemma_frame_pop(pre, mid, child_of(pre[tr.0 as int], 3).0 as int);
                assert(pop_at(post, r.0 as int) == pop_at(pre, tr.0 as int) + dlt);
                assert forall|y: int, x: int| in_square(y, x, z) implies #[trigger] cell_at(
                    post,
                    r.0 as int,
                    z,
                    y,
                    x,
                ) == (cell_at(pre, tr.0 as int, z, y, x) || (y == p.y as int && x == p.x
                    as int)) by {
                    let qi = quad_index(y, x);
                    let y1 = sub_coord(y, z);
                    let x1 = sub_coord(x, z);
                    crate::p3::lemma_sub_in_square(y, x, z);
                    assert(post[r.0 as int] == t);
                    assert(cell_at(post, r.0 as int, z, y, x) == cell_at(
                        post,
                        child_of(t, qi).0 as int,
                        (z - 1) as nat,
                        y1,
                        x1,
                    ));
                    assert(cell_at(pre, tr.0 as int, z, y, x) == cell_at(
                        pre,
                        child_of(pre[tr.0 as int], qi).0 as int,
                        (z - 1) as nat,
                        y1,
                        x1,
                    ));
                    if qi == pi {
                        assert(child_of(t, qi) == nc);
                        assert(cell_at(mid, nc.0 as int, (z - 1) as nat, y1, x1) == (cell_at(
                            pre,
                            child.0 as int,
                            (z - 1) as nat,
                            y1,
                            x1,
                        ) || (y1 == q.y as int && x1 == q.x as int)));
                        assert(cell_at(post, nc.0 as int, (z - 1) as nat, y1, x1) == cell_at(
                            mid,
                            nc.0 as int,
                            (z - 1) as nat,
                            y1,
                            x1,
                        ));
                        assert(child_of(pre[tr.0 as int], qi) == child);
                        if y1 == q.y as int && x1 == q.x as int {
                            // only the addressed cell has this quadrant and offset
                            crate::p3::lemma_descend_injective(
                                y,
                                x,
                                p.y as int,
                                p.x as int,
                                z,
                            );
                            assert(y == p.y as int && x == p.x as int);
                        } else {
                            assert(!(y == p.y as int && x == p.x as int));
                        }
                    } else {
                        assert(child_of(t, qi) == child_of(pre[tr.0 as int], qi));
                        assert(child_of(pre[tr.0 as int], qi).0 < tr.0);
                        assert(cell_at(post, child_of(t, qi).0 as int, (z - 1) as nat, y1, x1)
                            == cell_at(
                            pre,
                            child_of(pre[tr.0 as int], qi).0 as int,
                            (z - 1) as nat,
                            y1,
                            x1,
                        ));
                        assert(!(y == p.y as int && x == p.x as int));
                    }
                }
            }
            r
        }
    }

    /// Wrap `tr` in a depth-`(level+1)` tree whose centre is `tr` and whose
    /// border is dead: the same cells in a square twice the side.
    #[verifier::rlimit(100)]
    #[verifier::spinoff_prover]
    pub fn expand_universe(&mut self, level: usize, tr: TreeRef) -> (r: TreeRef)
        requires
            old(self).wf(),
            old(self).valid(tr),
            old(self).depth_of(tr) == level,
            level >= 1,
        ensures
            final(self).wf(),
            extends(old(self).nodes@, final(self).nodes@),
            final(self).next_gen@ == old(self).next_gen@,
            final(self).valid(r),
            final(self).depth_of(r) == level + 1,
            pop_at(final(self).nodes@, r.0 as int) == pop_at(old(self).nodes@, tr.0 as int),
            forall|y: int, x: int|
                in_square(y, x, level as nat) ==> #[trigger] cell_at(
                    final(self).nodes@,
                    r.0 as int,
                    (level + 1) as nat,
                    y,
                    x,
                ) == cell_at(old(self).nodes@, tr.0 as int, level as nat, y, x),
            forall|y: int, x: int|
                in_square(y, x, (level + 1) as nat) && !in_square(y, x, level as nat)
                    ==> !(#[trigger] cell_at(
                    final(self).nodes@,
                    r.0 as int,
                    (level + 1) as nat,
                    y,
                    x,
                )),
            cells_of(final(self).nodes@, r.0 as int, (level + 1) as nat) == cells_of(
                old(self).nodes@,
                tr.0 as int,
                level as nat,
            ),
    {
        let ghost pre = self.nodes@;
        proof {
            if self.node_of(tr) is Leaf {
                assert(depth_at(self.nodes@, tr.0 as int) == 0);
            }
            assert(self.node_of(tr) is Branch);
            assert(node_ok(pre, tr.0 as int));
            lemma_child_depth(pre, tr.0 as int, 0);
            lemma_child_depth(pre, tr.0 as int, 1);
            lemma_child_depth(pre, tr.0 as int, 2);
            lemma_child_depth(pre, tr.0 as int, 3);
        }
        let st = self.subtree(tr);
        let border = self.empty_tree(level - 1);
        let ghost g1 = self.nodes@;
        proof {
            lemma_frame_depth(pre, g1, st[0].0 as int);
            lemma_frame_depth(pre, g1, st[1].0 as int);
            lemma_frame_depth(pre, g1, st[2].0 as int);
            lemma_frame_depth(pre, g1, st[3].0 as int);
        }
        let a = self.canonicalise(Tree::Branch { nw: border, ne: border, sw: border, se: st[0] });
        let ghost g2 = self.nodes@;
        proof {
            lemma_frame_depth(g1, g2, st[1].0 as int);
            lemma_frame_depth(g1, g2, border.0 as int);
        }
        let b = self.canonicalise(Tree::Branch { nw: border, ne: border, sw: st[1], se: border });
        let ghost g3 = self.nodes@;
        proof {
            lemma_frame_depth(g1, g2, st[2].0 as int);
            lemma_frame_depth(g2, g3, st[2].0 as int);
            lemma_frame_depth(g2, g3, border.0 as int);
        }
        let c = self.canonicalise(Tree::Branch { nw: border, ne: st[2], sw: border, se: border });
        let ghost g4 = self.nodes@;
        proof {
            lemma_frame_depth(g1, g2, st[3].0 as int);
            lemma_frame_depth(g2, g3, st[3].0 as int);
            lemma_frame_depth(g3, g4, st[3].0 as int);
            lemma_frame_depth(g3, g4, border.0 as int);
        }
        let d = self.canonicalise(Tree::Branch { nw: st[3], ne: border, sw: border, se: border });
        let ghost g5 = self.nodes@;
        proof {
            lemma_frame_depth(g2, g3, a.0 as int);
            lemma_frame_depth(g3, g4, a.0 as int);
            lemma_frame_depth(g4, g5, a.0 as int);
            lemma_frame_depth(g3, g4, b.0 as int);
            lemma_frame_depth(g4, g5, b.0 as int);
            lemma_frame_depth(g4, g5, c.0 as int);
        }
        let r = self.canonicalise(Tree::Branch { nw: a, ne: b, sw: c, se: d });
        let ghost post = self.nodes@;
        proof {
            let z = level as nat;
            lemma_extends_trans(pre, g1, g2);
            lemma_extends_trans(pre, g2, g3);
            lemma_extends_trans(pre, g3, g4);
            lemma_extends_trans(pre, g4, g5);
            lemma_extends_trans(pre, g5, post);
            assert(extends(pre, post));
            lemma_extends_trans(g1, g2, g3);
            lemma_extends_trans(g1, g3, g4);
            lemma_extends_trans(g1, g4, g5);
            lemma_extends_trans(g1, g5, post);
            lemma_extends_trans(g2, g3, g4);
            lemma_extends_trans(g2, g4, g5);
            lemma_extends_trans(g2, g5, post);
            lemma_extends_trans(g3, g4, g5);
            lemma_extends_trans(g3, g5, post);
            lemma_extends_trans(g4, g5, post);
            // node values of the five new branches, carried to the final store
            assert(post[tr.0 as int] == pre[tr.0 as int]);
            assert(post[a.0 as int] == g2[a.0 as int]);
            assert(post[b.0 as int] == g3[b.0 as int]);
            assert(post[c.0 as int] == g4[c.0 as int]);
            assert(post[d.0 as int] == g5[d.0 as int]);
            // populations: the border contributes nothing
            lemma_frame_pop(g1, post, border.0 as int);
            lemma_frame_pop(pre, post, st[0].0 as int);
            lemma_frame_pop(pre, post, st[1].0 as int);
            lemma_frame_pop(pre, post, st[2].0 as int);
            lemma_frame_pop(pre, post, st[3].0 as int);
            lemma_frame_pop(g1, g2, st[0].0 as int);
            lemma_frame_pop(g1, g2, border.0 as int);
            lemma_frame_pop(g2, g3, st[1].0 as int);
            lemma_frame_pop(g2, g3, border.0 as int);
            lemma_frame_pop(g3, g4, st[2].0 as int);
            lemma_frame_pop(g3, g4, border.0 as int);
            lemma_frame_pop(g4, g5, st[3].0 as int);
            lemma_frame_pop(g4, g5, border.0 as int);
            lemma_frame_pop(g2, g3, a.0 as int);
            lemma_frame_pop(g3, g4, a.0 as int);
            lemma_frame_pop(g4, g5, a.0 as int);
            lemma_frame_pop(g3, g4, b.0 as int);
            lemma_frame_pop(g4, g5, b.0 as int);
            lemma_frame_pop(g4, g5, c.0 as int);
            lemma_frame_pop(g1, g2, st[1].0 as int);
            lemma_frame_pop(g1, g2, st[2].0 as int);
            lemma_frame_pop(g1, g2, st[3].0 as int);
            lemma_frame_pop(g2, g3, st[2].0 as int);
            lemma_frame_pop(g2, g3, st[3].0 as int);
            lemma_frame_pop(g3, g4, st[3].0 as int);
            lemma_frame_pop(pre, g1, st[0].0 as int);
            lemma_frame_pop(pre, g1, st[1].0 as int);
            lemma_frame_pop(pre, g1, st[2].0 as int);
            lemma_frame_pop(pre, g1, st[3].0 as int);
            assert(pop_at(g5, a.0 as int) == pop_at(pre, st[0].0 as int));
            assert(pop_at(g5, b.0 as int) == pop_at(pre, st[1].0 as int));
            assert(pop_at(g5, c.0 as int) == pop_at(pre, st[2].0 as int));
            assert(pop_at(g5, d.0 as int) == pop_at(pre, st[3].0 as int));
            assert(pop_at(post, r.0 as int) == pop_at(g5, a.0 as int) + pop_at(g5, b.0 as int)
                + pop_at(g5, c.0 as int) + pop_at(g5, d.0 as int));
            assert(pop_at(pre, tr.0 as int) == pop_at(pre, st[0].0 as int) + pop_at(
                pre,
                st[1].0 as int,
            ) + pop_at(pre, st[2].0 as int) + pop_at(pre, st[3].0 as int));
            assert(pop_at(post, r.0 as int) == pop_at(pre, tr.0 as int));
            // depths needed by the cell lemma
            lemma_frame_depth(g1, g2, border.0 as int);
            lemma_frame_depth(g2, g3, border.0 as int);
            lemma_frame_depth(g3, g4, border.0 as int);
            lemma_frame_depth(g4, g5, border.0 as int);
            lemma_frame_depth(g5, post, border.0 as int);
            lemma_frame_depth(pre, post, tr.0 as int);
            assert(depth_at(post, border.0 as int) == (z - 1) as nat);
            assert(depth_at(post, tr.0 as int) == z);
            lemma_expand_cells(post, tr.0 as int, r.0 as int, border, z);
            assert forall|y: int, x: int| in_square(y, x, z) implies #[trigger] cell_at(
                post,
                r.0 as int,
                (z + 1) as nat,
                y,
                x,
            ) == cell_at(pre, tr.0 as int, z, y, x) by {
                crate::arith::lemma_pow2_double((z - 1) as nat);
                assert(in_square(y, x, (z + 1) as nat));
                lemma_frame_cell(pre, post, tr.0 as int, z, y, x);
            }
            crate::arith::lemma_pow2_double((z - 1) as nat);
            assert forall|p: (int, int)|
                cells_of(post, r.0 as int, (z + 1) as nat).contains(p) == cells_of(
                    pre,
                    tr.0 as int,
                    z,
                ).contains(p) by {
                let (y, x) = (p.0, p.1);
                if in_square(y, x, z) {
                    assert(in_square(y, x, (z + 1) as nat));
                    assert(cell_at(post, r.0 as int, (z + 1) as nat, y, x) == cell_at(
                        pre,
                        tr.0 as int,
                        z,
                        y,
                        x,
                    ));
                } else if in_square(y, x, (z + 1) as nat) {
                    assert(!cell_at(post, r.0 as int, (z + 1) as nat, y, x));
                }
            }
            assert(cells_of(post, r.0 as int, (z + 1) as nat) =~= cells_of(pre, tr.0 as int, z));
        }
        r
    }
}


} // verus!
