//! The engine façade: a universe, a current root and its depth. It grows the
//! world on demand, keeps a dead border before stepping, and exposes writes,
//! superspeed steps, iteration over live cells and world equality — all
//! against the `life` semantics on the set of live cells.

use vstd::prelude::*;
use vstd::arithmetic::power2::{pow2, lemma2_to64};
use crate::arith::{pow2_i64, lemma_pow2_double, lemma_pow2_le, lemma_pow2_le_max, lemma_pow2_pos_any};
use crate::p3::{P3, quad_index, sub_coord, in_square, lemma_sub_in_square};
use crate::life::{life_n, shift, bounded_by, lemma_life_n_bounded, lemma_shift_len};
use crate::universe::{
    Tree, TreeRef, Universe, cell_at, cells_of, child_of, depth_at, lemma_child_depth,
    lemma_depth_zero_leaf, lemma_frame_all, lemma_pop_zero_dead, node_ok, pop_at, sat64,
    spec_get, step_post, store_wf,
};
use crate::step::{lemma_cell_leaf, lemma_get_valid};
use crate::pattern::{
    cell_set, insert_cell, is_max_col_of, is_max_row_of, is_min_col_of, is_min_row_of,
    lemma_list_maxima_to_set, lemma_list_minima_to_set, no_dup,
};
use crate::state::{State, cells_equal, norm_coords_ok};
use crate::basic_state::BasicState;

verus! {

/// The cell of the world at the absolute coordinate `(qy, qx)`, where the
/// subtree at `i` (depth `z`) is centred at `(cy, cx)`.
pub open spec fn world_cell(
    nodes: Seq<Tree>,
    i: int,
    z: nat,
    cy: int,
    cx: int,
    qy: int,
    qx: int,
) -> bool {
    in_square(qy - cy, qx - cx, z) && cell_at(nodes, i, z, qy - cy, qx - cx)
}

/// A subtree with live cells has a live cell at some in-range coordinate.
pub proof fn lemma_pop_pos_cell(nodes: Seq<Tree>, i: int, z: nat)
    requires
        store_wf(nodes),
        0 <= i < nodes.len(),
        depth_at(nodes, i) == z,
        pop_at(nodes, i) > 0,
    ensures
        exists|y: int, x: int| in_square(y, x, z) && #[trigger] cell_at(nodes, i, z, y, x),
    decreases z,
{
    assert(node_ok(nodes, i));
    if z == 0 {
        match nodes[i] {
            Tree::Leaf { alive } => {
                assert(alive);
                assert(in_square(0, 0, 0) && cell_at(nodes, i, 0, 0, 0));
            },
            Tree::Branch { .. } => {},
        }
    } else {
        match nodes[i] {
            Tree::Leaf { .. } => {
                assert(depth_at(nodes, i) == 0);
            },
            Tree::Branch { nw, ne, sw, se } => {
                let q: int = if pop_at(nodes, nw.0 as int) > 0 {
                    0
                } else if pop_at(nodes, ne.0 as int) > 0 {
                    1
                } else if pop_at(nodes, sw.0 as int) > 0 {
                    2
                } else {
                    3
                };
                let c = child_of(nodes[i], q);
                assert(pop_at(nodes, c.0 as int) > 0);
                lemma_child_depth(nodes, i, q);
                lemma_pop_pos_cell(nodes, c.0 as int, (z - 1) as nat);
                let (y1, x1) = choose|y1: int, x1: int|
                    in_square(y1, x1, (z - 1) as nat) && #[trigger] cell_at(
                        nodes,
                        c.0 as int,
                        (z - 1) as nat,
                        y1,
                        x1,
                    );
                if z >= 2 {
                    lemma_pow2_double((z - 2) as nat);
                } else {
                    lemma2_to64();
                }
                let oy: int = if q == 0 || q == 1 {
                    if z == 1 {
                        -1
                    } else {
                        -pow2((z - 2) as nat)
                    }
                } else {
                    if z == 1 {
                        0
                    } else {
                        pow2((z - 2) as nat) as int
                    }
                };
                let ox: int = if q == 0 || q == 2 {
                    if z == 1 {
                        -1
                    } else {
                        -pow2((z - 2) as nat)
                    }
                } else {
                    if z == 1 {
                        0
                    } else {
                        pow2((z - 2) as nat) as int
                    }
                };
                let y = y1 + oy;
                let x = x1 + ox;
                assert(in_square(y, x, z));
                assert(quad_index(y, x) == q);
                assert(sub_coord(y, z) == y1 && sub_coord(x, z) == x1);
                assert(cell_at(nodes, i, z, y, x));
            },
        }
    }
}

/// The world seen through a branch is the union of the worlds of its four
/// children, each centred a quarter-side away.
pub proof fn lemma_world_partition(
    nodes: Seq<Tree>,
    i: int,
    z: nat,
    cy: int,
    cx: int,
    qy: int,
    qx: int,
)
    requires
        store_wf(nodes),
        0 <= i < nodes.len(),
        depth_at(nodes, i) == z,
        z >= 1,
        nodes[i] is Branch,
    ensures
        ({
            let neg: int = if z == 1 {
                -1
            } else {
                -pow2((z - 2) as nat)
            };
            let pos: int = if z == 1 {
                0
            } else {
                pow2((z - 2) as nat) as int
            };
            world_cell(nodes, i, z, cy, cx, qy, qx) == {
                ||| world_cell(nodes, child_of(nodes[i], 0).0 as int, (z - 1) as nat, cy + neg, cx + neg, qy, qx)
                ||| world_cell(nodes, child_of(nodes[i], 1).0 as int, (z - 1) as nat, cy + neg, cx + pos, qy, qx)
                ||| world_cell(nodes, child_of(nodes[i], 2).0 as int, (z - 1) as nat, cy + pos, cx + neg, qy, qx)
                ||| world_cell(nodes, child_of(nodes[i], 3).0 as int, (z - 1) as nat, cy + pos, cx + pos, qy, qx)
            }
        }),
{
    let neg: int = if z == 1 {
        -1
    } else {
        -pow2((z - 2) as nat)
    };
    let pos: int = if z == 1 {
        0
    } else {
        pow2((z - 2) as nat) as int
    };
    if z >= 2 {
        lemma_pow2_double((z - 2) as nat);
    } else {
        lemma2_to64();
    }
    assert(node_ok(nodes, i));
    if world_cell(nodes, i, z, cy, cx, qy, qx) {
        let yy = qy - cy;
        let xx = qx - cx;
        let q = quad_index(yy, xx);
        lemma_sub_in_square(yy, xx, z);
        assert(cell_at(nodes, i, z, yy, xx) == cell_at(
            nodes,
            child_of(nodes[i], q).0 as int,
            (z - 1) as nat,
            sub_coord(yy, z),
            sub_coord(xx, z),
        ));
        let oy: int = if q == 0 || q == 1 {
            neg
        } else {
            pos
        };
        let ox: int = if q == 0 || q == 2 {
            neg
        } else {
            pos
        };
        assert(sub_coord(yy, z) == qy - (cy + oy));
        assert(sub_coord(xx, z) == qx - (cx + ox));
        assert(world_cell(nodes, child_of(nodes[i], q).0 as int, (z - 1) as nat, cy + oy, cx + ox, qy, qx));
    }
    assert forall|k: int| 0 <= k < 4 implies !world_cell(nodes, i, z, cy, cx, qy, qx)
        ==> !world_cell(
        nodes,
        child_of(nodes[i], k).0 as int,
        (z - 1) as nat,
        cy + (if k == 0 || k == 1 { neg } else { pos }),
        cx + (if k == 0 || k == 2 { neg } else { pos }),
        qy,
        qx,
    ) by {
        let oy: int = if k == 0 || k == 1 {
            neg
        } else {
            pos
        };
        let ox: int = if k == 0 || k == 2 {
            neg
        } else {
            pos
        };
        if world_cell(nodes, child_of(nodes[i], k).0 as int, (z - 1) as nat, cy + oy, cx + ox, qy, qx) {
            let y1 = qy - (cy + oy);
            let x1 = qx - (cx + ox);
            let yy = y1 + oy;
            let xx = x1 + ox;
            assert(in_square(yy, xx, z));
            assert(quad_index(yy, xx) == k);
            assert(sub_coord(yy, z) == y1 && sub_coord(xx, z) == x1);
            assert(cell_at(nodes, i, z, yy, xx));
            assert(world_cell(nodes, i, z, cy, cx, qy, qx));
        }
    }
}

/// The square of depth `z` centred at `c` stays inside the depth-63 world.
pub open spec fn centre_ok(c: int, z: nat) -> bool {
    let h: int = if z == 0 {
        0
    } else {
        pow2((z - 1) as nat) as int
    };
    -0x4000_0000_0000_0000 <= c - h && c + h <= 0x4000_0000_0000_0000
}


/// Two disjoint finite sets add their sizes.
proof fn lemma_len_disjoint_union(s1: Set<(int, int)>, s2: Set<(int, int)>)
    requires
        s1.finite(),
        s2.finite(),
        forall|p: (int, int)| !(#[trigger] s1.contains(p) && s2.contains(p)),
    ensures
        s1.union(s2).finite(),
        s1.union(s2).len() == s1.len() + s2.len(),
    decreases s1.len(),
{
    if s1.len() == 0 {
        s1.lemma_len0_is_empty();
        assert(s1.union(s2) =~= s2);
    } else {
        let a = s1.choose();
        assert(s1.contains(a));
        assert(!s2.contains(a));
        lemma_len_disjoint_union(s1.remove(a), s2);
        assert(s1.union(s2) =~= s1.remove(a).union(s2).insert(a));
        assert(!s1.remove(a).union(s2).contains(a));
    }
}

/// The cached population is the exact number of live cells: the cell set of
/// a well-formed subtree is finite and its size is the subtree's population.
pub proof fn lemma_pop_is_card(nodes: Seq<Tree>, i: int, z: nat)
    requires
        store_wf(nodes),
        0 <= i < nodes.len(),
        depth_at(nodes, i) == z,
    ensures
        cells_of(nodes, i, z).finite(),
        pop_at(nodes, i) == cells_of(nodes, i, z).len(),
    decreases z,
{
    let s = cells_of(nodes, i, z);
    assert(node_ok(nodes, i));
    if z == 0 {
        lemma_depth_zero_leaf(nodes, i);
        match nodes[i] {
            Tree::Leaf { alive } => {
                if alive {
                    assert(s =~= Set::<(int, int)>::empty().insert((0int, 0int)));
                } else {
                    assert(s =~= Set::<(int, int)>::empty());
                }
            },
            Tree::Branch { .. } => {},
        }
    } else {
        match nodes[i] {
            Tree::Leaf { .. } => {
                assert(depth_at(nodes, i) == 0);
            },
            Tree::Branch { nw, ne, sw, se } => {
                let neg: int = if z == 1 {
                    -1
                } else {
                    -pow2((z - 2) as nat)
                };
                let pos: int = if z == 1 {
                    0
                } else {
                    pow2((z - 2) as nat) as int
                };
                if z >= 2 {
                    lemma_pow2_double((z - 2) as nat);
                } else {
                    lemma2_to64();
                }
                lemma_child_depth(nodes, i, 0);
                lemma_child_depth(nodes, i, 1);
                lemma_child_depth(nodes, i, 2);
                lemma_child_depth(nodes, i, 3);
                lemma_pop_is_card(nodes, nw.0 as int, (z - 1) as nat);
                lemma_pop_is_card(nodes, ne.0 as int, (z - 1) as nat);
                lemma_pop_is_card(nodes, sw.0 as int, (z - 1) as nat);
                lemma_pop_is_card(nodes, se.0 as int, (z - 1) as nat);
                let c0 = cells_of(nodes, nw.0 as int, (z - 1) as nat);
                let c1 = cells_of(nodes, ne.0 as int, (z - 1) as nat);
                let c2 = cells_of(nodes, sw.0 as int, (z - 1) as nat);
                let c3 = cells_of(nodes, se.0 as int, (z - 1) as nat);
                let u0 = shift(c0, neg, neg);
                let u1 = shift(c1, neg, pos);
                let u2 = shift(c2, pos, neg);
                let u3 = shift(c3, pos, pos);
                lemma_shift_len(c0, neg, neg);
                lemma_shift_len(c1, neg, pos);
                lemma_shift_len(c2, pos, neg);
                lemma_shift_len(c3, pos, pos);
                // each quadrant image keeps its signs, so the four are disjoint
                assert forall|q: (int, int)| #[trigger] u0.contains(q) implies q.0 < 0 && q.1
                    < 0 by {
                    assert(in_square(q.0 - neg, q.1 - neg, (z - 1) as nat));
                }
                assert forall|q: (int, int)| #[trigger] u1.contains(q) implies q.0 < 0 && q.1
                    >= 0 by {
                    assert(in_square(q.0 - neg, q.1 - pos, (z - 1) as nat));
                }
                assert forall|q: (int, int)| #[trigger] u2.contains(q) implies q.0 >= 0 && q.1
                    < 0 by {
                    assert(in_square(q.0 - pos, q.1 - neg, (z - 1) as nat));
                }
                assert forall|q: (int, int)| #[trigger] u3.contains(q) implies q.0 >= 0 && q.1
                    >= 0 by {
                    assert(in_square(q.0 - pos, q.1 - pos, (z - 1) as nat));
                }
                // the whole square is the union of the four quadrant images
                assert forall|q: (int, int)|
                    #[trigger] s.contains(q) == u0.union(u1).union(u2.union(u3)).contains(q) by {
                    lemma_world_partition(nodes, i, z, 0, 0, q.0, q.1);
                    assert(world_cell(nodes, i, z, 0, 0, q.0, q.1) == s.contains(q));
                    assert(world_cell(nodes, nw.0 as int, (z - 1) as nat, neg, neg, q.0, q.1)
                        == u0.contains(q));
                    assert(world_cell(nodes, ne.0 as int, (z - 1) as nat, neg, pos, q.0, q.1)
                        == u1.contains(q));
                    assert(world_cell(nodes, sw.0 as int, (z - 1) as nat, pos, neg, q.0, q.1)
                        == u2.contains(q));
                    assert(world_cell(nodes, se.0 as int, (z - 1) as nat, pos, pos, q.0, q.1)
                        == u3.contains(q));
                }
                assert(s =~= u0.union(u1).union(u2.union(u3)));
                lemma_len_disjoint_union(u0, u1);
                lemma_len_disjoint_union(u2, u3);
                lemma_len_disjoint_union(u0.union(u1), u2.union(u3));
            },
        }
    }
}

/// Collect the live cells of the subtree at `tr`, centred at `(p.y, p.x)`,
/// into `out`, without duplicates.
fn collect_cells(u: &Universe, tr: TreeRef, p: P3, out: &mut Vec<(i64, i64)>)
    requires
        u.wf(),
        u.valid(tr),
        u.depth_of(tr) == p.z,
        p.z <= 63,
        centre_ok(p.y as int, p.z as nat),
        centre_ok(p.x as int, p.z as nat),
        no_dup(old(out)@),
    ensures
        no_dup(final(out)@),
        forall|q: (int, int)|
            #[trigger] cell_set(final(out)@).contains(q) == (cell_set(old(out)@).contains(q)
                || world_cell(u.nodes@, tr.0 as int, p.z as nat, p.y as int, p.x as int, q.0, q.1)),
    decreases p.z,
{
    proof {
        lemma_pow2_le_max(62);
        lemma2_to64();
    }
    if u.population(tr) == 0 {
        proof {
            assert forall|q: (int, int)|
                #[trigger] cell_set(out@).contains(q) == (cell_set(out@).contains(q) || world_cell(
                    u.nodes@,
                    tr.0 as int,
                    p.z as nat,
                    p.y as int,
                    p.x as int,
                    q.0,
                    q.1,
                )) by {
                lemma_pop_zero_dead(
                    u.nodes@,
                    tr.0 as int,
                    p.z as nat,
                    q.0 - p.y as int,
                    q.1 - p.x as int,
                );
            }
        }
        return ;
    }
    if p.z == 0 {
        proof {
            lemma_depth_zero_leaf(u.nodes@, tr.0 as int);
            match u.nodes@[tr.0 as int] {
                Tree::Leaf { alive } => {
                    assert(alive);
                },
                Tree::Branch { .. } => {},
            }
            assert(cell_at(u.nodes@, tr.0 as int, 0, 0, 0));
        }
        insert_cell(out, (p.y, p.x));
        proof {
            assert forall|q: (int, int)|
                #[trigger] cell_set(out@).contains(q) == (cell_set(old(out)@).contains(q)
                    || world_cell(
                    u.nodes@,
                    tr.0 as int,
                    0,
                    p.y as int,
                    p.x as int,
                    q.0,
                    q.1,
                )) by {
                if world_cell(u.nodes@, tr.0 as int, 0, p.y as int, p.x as int, q.0, q.1) {
                    assert(q.0 == p.y as int && q.1 == p.x as int);
                }
            }
        }
        return ;
    }
    proof {
        if u.node_of(tr) is Leaf {
            assert(u.depth_of(tr) == 0);
        }
        if p.z >= 2 {
            lemma_pow2_double((p.z - 2) as nat);
        }
        lemma_pow2_le((p.z - 1) as nat, 62);
    }
    let st = u.subtree(tr);
    let (w, neg): (i64, i64) = if p.z == 1 {
        (0, -1)
    } else {
        proof {
            lemma_pow2_le((p.z - 2) as nat, 61);
            vstd::arithmetic::power2::lemma2_to64_rest();
        }
        let w = pow2_i64(p.z - 2);
        (w, -w)
    };
    proof {
        lemma_child_depth(u.nodes@, tr.0 as int, 0);
        lemma_child_depth(u.nodes@, tr.0 as int, 1);
        lemma_child_depth(u.nodes@, tr.0 as int, 2);
        lemma_child_depth(u.nodes@, tr.0 as int, 3);
        if p.z >= 2 {
            assert(centre_ok(p.y as int + neg, (p.z - 1) as nat));
            assert(centre_ok(p.y as int + w, (p.z - 1) as nat));
            assert(centre_ok(p.x as int + neg, (p.z - 1) as nat));
            assert(centre_ok(p.x as int + w, (p.z - 1) as nat));
        } else {
            assert(centre_ok(p.y as int + neg, 0) && centre_ok(p.y as int + w, 0));
            assert(centre_ok(p.x as int + neg, 0) && centre_ok(p.x as int + w, 0));
        }
    }
    let ghost mid0 = out@;
    collect_cells(u, st[0], P3::new(p.y + neg, p.x + neg, p.z - 1), out);
    let ghost mid1 = out@;
    collect_cells(u, st[1], P3::new(p.y + neg, p.x + w, p.z - 1), out);
    let ghost mid2 = out@;
    collect_cells(u, st[2], P3::new(p.y + w, p.x + neg, p.z - 1), out);
    let ghost mid3 = out@;
    collect_cells(u, st[3], P3::new(p.y + w, p.x + w, p.z - 1), out);
    proof {
        let nodes = u.nodes@;
        let z = p.z as nat;
        let cy = p.y as int;
        let cx = p.x as int;
        assert forall|q: (int, int)|
            #[trigger] cell_set(out@).contains(q) == (cell_set(mid0).contains(q) || world_cell(
                nodes,
                tr.0 as int,
                z,
                cy,
                cx,
                q.0,
                q.1,
            )) by {
            lemma_world_partition(nodes, tr.0 as int, z, cy, cx, q.0, q.1);
            assert(cell_set(out@).contains(q) == (cell_set(mid3).contains(q) || world_cell(
                nodes,
                child_of(nodes[tr.0 as int], 3).0 as int,
                (z - 1) as nat,
                cy + w as int,
                cx + w as int,
                q.0,
                q.1,
            )));
        }
    }
}

/// A whole HashLife world: the interned store, the current root and depth.
#[derive(Debug, Clone)]
pub struct HashLife {
    pub universe: Universe,
    pub depth: usize,
    pub root: TreeRef,
}

impl HashLife {
    /// Valid between operations: a well-formed store whose root is a tree of
    /// the recorded depth, at least 2 deep.
    pub open spec fn wf(self) -> bool {
        &&& self.universe.wf()
        &&& self.universe.valid(self.root)
        &&& self.universe.depth_of(self.root) == self.depth
        &&& self.depth >= 2
    }

    /// The set of live cells, in absolute coordinates.
    pub open spec fn cells(self) -> Set<(int, int)> {
        cells_of(self.universe.nodes@, self.root.0 as int, self.depth as nat)
    }

    /// An empty world at the minimum depth.
    pub fn new() -> (r: HashLife)
        ensures
            r.wf(),
            r.depth == 2,
            r.cells() == Set::<(int, int)>::empty(),
    {
        let mut universe = Universe::new();
        let root = universe.empty_tree(2);
        let r = HashLife { universe, depth: 2, root };
        proof {
            assert forall|q: (int, int)| !(#[trigger] r.cells().contains(q)) by {
                lemma_pop_zero_dead(r.universe.nodes@, r.root.0 as int, 2, q.0, q.1);
            }
            assert(r.cells() =~= Set::<(int, int)>::empty());
        }
        r
    }

    /// Double the world's side, keeping every cell where it is.
    pub fn expand(&mut self)
        requires
            old(self).wf(),
            old(self).depth < usize::MAX,
        ensures
            final(self).wf(),
            final(self).depth == old(self).depth + 1,
            final(self).cells() == old(self).cells(),
            pop_at(final(self).universe.nodes@, final(self).root.0 as int) == pop_at(
                old(self).universe.nodes@,
                old(self).root.0 as int,
            ),
    {
        let r = self.universe.expand_universe(self.depth, self.root);
        self.root = r;
        self.depth = self.depth + 1;
    }

    /// The world contains the coordinate.
    pub fn contains(&self, p: (i64, i64)) -> (r: bool)
        ensures
            r == in_square(p.0 as int, p.1 as int, self.depth as nat),
    {
        P3::new(p.0, p.1, self.depth).within_tree()
    }

    /// Make one cell live, growing the world as needed to hold it.
    pub fn set_bit(&mut self, p: (i64, i64))
        requires
            old(self).wf(),
            old(self).depth <= 63,
            -0x4000_0000_0000_0000 <= p.0 < 0x4000_0000_0000_0000,
            -0x4000_0000_0000_0000 <= p.1 < 0x4000_0000_0000_0000,
        ensures
            final(self).wf(),
            final(self).depth <= 63,
            final(self).depth >= old(self).depth,
            in_square(p.0 as int, p.1 as int, old(self).depth as nat) ==> final(self).depth == old(
                self,
            ).depth,
            !in_square(p.0 as int, p.1 as int, old(self).depth as nat) ==> in_square(
                p.0 as int,
                p.1 as int,
                final(self).depth as nat,
            ) && !in_square(p.0 as int, p.1 as int, (final(self).depth - 1) as nat),
            final(self).cells() == old(self).cells().insert((p.0 as int, p.1 as int)),
    {
        while !self.contains(p)
            invariant
                self.wf(),
                self.depth <= 63,
                self.depth >= old(self).depth,
                -0x4000_0000_0000_0000 <= p.0 < 0x4000_0000_0000_0000,
                -0x4000_0000_0000_0000 <= p.1 < 0x4000_0000_0000_0000,
                self.depth == old(self).depth || !in_square(
                    p.0 as int,
                    p.1 as int,
                    (self.depth - 1) as nat,
                ),
                self.cells() == old(self).cells(),
            decreases 63 - self.depth,
        {
            proof {
                if self.depth >= 63 {
                    vstd::arithmetic::power2::lemma2_to64_rest();
                    assert(in_square(p.0 as int, p.1 as int, self.depth as nat));
                }
            }
            self.expand();
        }
        proof {
            if in_square(p.0 as int, p.1 as int, old(self).depth as nat)
                && self.depth != old(self).depth {
                crate::p3::lemma_in_square_mono(
                    p.0 as int,
                    p.1 as int,
                    old(self).depth as nat,
                    (self.depth - 1) as nat,
                );
            }
        }
        let ghost pre = self.universe.nodes@;
        let ghost pre_cells = self.cells();
        let r = self.universe.set_bit(self.root, P3::new(p.0, p.1, self.depth));
        proof {
            let post = self.universe.nodes@;
            let z = self.depth as nat;
            assert forall|q: (int, int)|
                #[trigger] cells_of(post, r.0 as int, z).contains(q) == pre_cells.insert(
                    (p.0 as int, p.1 as int),
                ).contains(q) by {
                if in_square(q.0, q.1, z) {
                    assert(cell_at(post, r.0 as int, z, q.0, q.1) == (cell_at(
                        pre,
                        self.root.0 as int,
                        z,
                        q.0,
                        q.1,
                    ) || (q.0 == p.0 as int && q.1 == p.1 as int)));
                }
            }
            assert(cells_of(post, r.0 as int, z) =~= pre_cells.insert((p.0 as int, p.1 as int)));
        }
        self.root = r;
    }

    /// Read one cell.
    pub fn get_bit(&self, p: (i64, i64)) -> (r: bool)
        requires
            self.wf(),
            self.depth <= 64,
            in_square(p.0 as int, p.1 as int, self.depth as nat),
        ensures
            r == self.cells().contains((p.0 as int, p.1 as int)),
    {
        let g = self.universe.get_node(self.root, P3::new(p.0, p.1, self.depth));
        proof {
            lemma_cell_leaf(
                self.universe.nodes@,
                self.root.0 as int,
                self.depth as nat,
                p.0 as int,
                p.1 as int,
            );
            lemma_depth_zero_leaf(self.universe.nodes@, g.0 as int);
        }
        self.universe.alive(g)
    }

    /// All twelve grandchildren outside the centre half are dead: every live
    /// cell sits in the inner half of the world.
    #[verifier::rlimit(100)]
    #[verifier::spinoff_prover]
    fn all_in_centre(&self) -> (r: bool)
        requires
            self.wf(),
        ensures
            r ==> forall|q: (int, int)|
                #[trigger] self.cells().contains(q) ==> in_square(
                    q.0,
                    q.1,
                    (self.depth - 1) as nat,
                ),
    {
        proof {
            if self.universe.node_of(self.root) is Leaf {
                assert(self.universe.depth_of(self.root) == 0);
            }
            lemma_child_depth(self.universe.nodes@, self.root.0 as int, 0);
            lemma_child_depth(self.universe.nodes@, self.root.0 as int, 1);
            lemma_child_depth(self.universe.nodes@, self.root.0 as int, 2);
            lemma_child_depth(self.universe.nodes@, self.root.0 as int, 3);
        }
        let st = self.universe.subtree(self.root);
        proof {
            if self.universe.node_of(st[0]) is Leaf {
                assert(depth_at(self.universe.nodes@, st@[0].0 as int) == 0);
            }
            if self.universe.node_of(st[1]) is Leaf {
                assert(depth_at(self.universe.nodes@, st@[1].0 as int) == 0);
            }
            if self.universe.node_of(st[2]) is Leaf {
                assert(depth_at(self.universe.nodes@, st@[2].0 as int) == 0);
            }
            if self.universe.node_of(st[3]) is Leaf {
                assert(depth_at(self.universe.nodes@, st@[3].0 as int) == 0);
            }
            lemma_child_depth(self.universe.nodes@, st@[0].0 as int, 0);
            lemma_child_depth(self.universe.nodes@, st@[0].0 as int, 1);
            lemma_child_depth(self.universe.nodes@, st@[0].0 as int, 2);
            lemma_child_depth(self.universe.nodes@, st@[0].0 as int, 3);
            lemma_child_depth(self.universe.nodes@, st@[1].0 as int, 0);
            lemma_child_depth(self.universe.nodes@, st@[1].0 as int, 1);
            lemma_child_depth(self.universe.nodes@, st@[1].0 as int, 2);
            lemma_child_depth(self.universe.nodes@, st@[1].0 as int, 3);
            lemma_child_depth(self.universe.nodes@, st@[2].0 as int, 0);
            lemma_child_depth(self.universe.nodes@, st@[2].0 as int, 1);
            lemma_child_depth(self.universe.nodes@, st@[2].0 as int, 2);
            lemma_child_depth(self.universe.nodes@, st@[2].0 as int, 3);
            lemma_child_depth(self.universe.nodes@, st@[3].0 as int, 0);
            lemma_child_depth(self.universe.nodes@, st@[3].0 as int, 1);
            lemma_child_depth(self.universe.nodes@, st@[3].0 as int, 2);
            lemma_child_depth(self.universe.nodes@, st@[3].0 as int, 3);
        }
        let ga = self.universe.subtree(st[0]);
        let gb = self.universe.subtree(st[1]);
        let gc = self.universe.subtree(st[2]);
        let gd = self.universe.subtree(st[3]);
        let r = self.universe.population(ga[0]) == 0 && self.universe.population(ga[1]) == 0
            && self.universe.population(ga[2]) == 0 && self.universe.population(gb[0]) == 0
            && self.universe.population(gb[1]) == 0 && self.universe.population(gb[3]) == 0
            && self.universe.population(gc[0]) == 0 && self.universe.population(gc[2]) == 0
            && self.universe.population(gc[3]) == 0 && self.universe.population(gd[1]) == 0
            && self.universe.population(gd[2]) == 0 && self.universe.population(gd[3]) == 0;
        proof {
            if r {
                let nodes = self.universe.nodes@;
                let i = self.root.0 as int;
                let z = self.depth as nat;
                lemma_pow2_double((z - 1) as nat);
                if z >= 2 {
                    lemma_pow2_double((z - 2) as nat);
                }
                assert forall|q: (int, int)| #[trigger] self.cells().contains(q) implies in_square(
                    q.0,
                    q.1,
                    (z - 1) as nat,
                ) by {
                    if !in_square(q.0, q.1, (z - 1) as nat) {
                        let (yy, xx) = (q.0, q.1);
                        let q0 = quad_index(yy, xx);
                        let y1 = sub_coord(yy, z);
                        let x1 = sub_coord(xx, z);
                        let mid = child_of(nodes[i], q0);
                        assert(cell_at(nodes, i, z, yy, xx) == cell_at(
                            nodes,
                            mid.0 as int,
                            (z - 1) as nat,
                            y1,
                            x1,
                        ));
                        let q1 = quad_index(y1, x1);
                        let y2 = sub_coord(y1, (z - 1) as nat);
                        let x2 = sub_coord(x1, (z - 1) as nat);
                        assert(cell_at(nodes, mid.0 as int, (z - 1) as nat, y1, x1) == cell_at(
                            nodes,
                            child_of(nodes[mid.0 as int], q1).0 as int,
                            (z - 2) as nat,
                            y2,
                            x2,
                        ));
                        assert(q1 != 3 - q0);
                        assert(pop_at(nodes, child_of(nodes[mid.0 as int], q1).0 as int) == 0);
                        lemma_child_depth(nodes, mid.0 as int, q1);
                        lemma_pop_zero_dead(
                            nodes,
                            child_of(nodes[mid.0 as int], q1).0 as int,
                            (z - 2) as nat,
                            y2,
                            x2,
                        );
                    }
                }
            }
        }
        r
    }

    /// Advance the world by `2^log2_steps` generations.
    pub fn step(&mut self, log2_steps: usize)
        requires
            old(self).wf(),
            log2_steps + 4 <= usize::MAX,
            old(self).depth + 2 <= usize::MAX,
        ensures
            final(self).wf(),
            final(self).depth >= log2_steps + 2,
            final(self).depth <= (if old(self).depth >= log2_steps + 2 {
                old(self).depth as int
            } else {
                log2_steps + 2
            }) + 1,
            final(self).cells() == life_n(old(self).cells(), pow2(log2_steps as nat)),
    {
        let superspeed_depth = log2_steps + 2;
        while self.depth < superspeed_depth
            invariant
                self.wf(),
                self.cells() == old(self).cells(),
                superspeed_depth + 2 <= usize::MAX,
                self.depth <= superspeed_depth || self.depth == old(self).depth,
                old(self).depth + 2 <= usize::MAX,
            decreases superspeed_depth - self.depth,
        {
            self.expand();
        }
        let ghost k = log2_steps as nat;
        let ghost c = self.cells();
        let centred = self.all_in_centre();
        if !centred {
            self.expand();
        }
        self.expand();
        proof {
            // every live cell now sits in the centre quarter of the world
            assert(self.cells() == c);
            assert forall|q: (int, int)| #[trigger] c.contains(q) implies in_square(
                q.0,
                q.1,
                (self.depth - 2) as nat,
            ) by {
                if centred {
                    assert(in_square(q.0, q.1, (old(self).depth - 1) as nat) || in_square(
                        q.0,
                        q.1,
                        (self.depth - 2) as nat,
                    ));
                }
            }
        }
        let ghost entry = *self;
        let r = self.universe.step(self.root, self.depth, superspeed_depth);
        proof {
            let post = self.universe.nodes@;
            let d = entry.depth as nat;
            let s = superspeed_depth as int;
            lemma_frame_all(entry.universe.nodes@, post);
            assert(cells_of(post, entry.root.0 as int, d) == c);
            assert(step_post(post, entry.root.0 as int, s, r.0 as int));
            assert(pow2((s - 2) as nat) == pow2(k));
            // nothing escapes the centre: Life runs at speed one
            lemma_pow2_double((d - 2) as nat);
            lemma_pow2_double((d - 3) as nat);
            lemma_pow2_le((s - 2) as nat, (d - 3) as nat);
            assert(bounded_by(c, pow2((d - 3) as nat) as int));
            lemma_life_n_bounded(c, pow2((d - 3) as nat) as int, pow2(k));
            assert forall|q: (int, int)|
                #[trigger] cells_of(post, r.0 as int, (d - 1) as nat).contains(q) == life_n(
                    c,
                    pow2(k),
                ).contains(q) by {
                if in_square(q.0, q.1, (d - 1) as nat) {
                    assert(cell_at(post, r.0 as int, (d - 1) as nat, q.0, q.1) == life_n(
                        cells_of(post, entry.root.0 as int, d),
                        pow2((s - 2) as nat),
                    ).contains((q.0, q.1)));
                } else {
                    assert(!(life_n(c, pow2(k)).contains(q))) by {
                        if life_n(c, pow2(k)).contains(q) {
                            assert(-(pow2((d - 3) as nat) + pow2(k)) <= q.0 < pow2(
                                (d - 3) as nat,
                            ) + pow2(k));
                        }
                    }
                }
            }
            assert(cells_of(post, r.0 as int, (d - 1) as nat) =~= life_n(c, pow2(k)));
        }
        self.root = r;
        self.depth = self.depth - 1;
    }

    /// The live cells as a list, each exactly once; as many entries as the
    /// root's population.
    pub fn to_cells(&self) -> (r: Vec<(i64, i64)>)
        requires
            self.wf(),
            self.depth <= 63,
        ensures
            no_dup(r@),
            forall|q: (int, int)| #[trigger] cell_set(r@).contains(q) == self.cells().contains(q),
            r@.len() == pop_at(self.universe.nodes@, self.root.0 as int),
    {
        let mut out: Vec<(i64, i64)> = Vec::new();
        proof {
            lemma_pow2_le((self.depth - 1) as nat, 62);
            lemma_pow2_pos_any((self.depth - 1) as nat);
            vstd::arithmetic::power2::lemma2_to64_rest();
        }
        collect_cells(&self.universe, self.root, P3::origin(self.depth), &mut out);
        proof {
            assert forall|q: (int, int)|
                #[trigger] cell_set(out@).contains(q) == self.cells().contains(q) by {
                assert(cell_set(out@).contains(q) == world_cell(
                    self.universe.nodes@,
                    self.root.0 as int,
                    self.depth as nat,
                    0,
                    0,
                    q.0,
                    q.1,
                ));
            }
            crate::pattern::lemma_cell_set_len(out@);
            lemma_pop_is_card(self.universe.nodes@, self.root.0 as int, self.depth as nat);
            assert(cell_set(out@) =~= self.cells());
        }
        out
    }

    /// Build a world by making the given cells live, one by one.
    pub fn from_cells(cells: &Vec<(i64, i64)>) -> (r: HashLife)
        requires
            forall|i: int|
                0 <= i < cells@.len() ==> {
                    &&& -0x4000_0000_0000_0000 <= (#[trigger] cells@[i]).0 < 0x4000_0000_0000_0000
                    &&& -0x4000_0000_0000_0000 <= cells@[i].1 < 0x4000_0000_0000_0000
                },
        ensures
            r.wf(),
            r.depth <= 63,
            r.cells() == cell_set(cells@),
            pop_at(r.universe.nodes@, r.root.0 as int) == cell_set(cells@).len(),
    {
        let mut hl = HashLife::new();
        let mut i: usize = 0;
        while i < cells.len()
            invariant
                hl.wf(),
                hl.depth <= 63,
                i <= cells@.len(),
                forall|j: int|
                    0 <= j < cells@.len() ==> {
                        &&& -0x4000_0000_0000_0000 <= (#[trigger] cells@[j]).0
                            < 0x4000_0000_0000_0000
                        &&& -0x4000_0000_0000_0000 <= cells@[j].1 < 0x4000_0000_0000_0000
                    },
                hl.cells() == cell_set(cells@.subrange(0, i as int)),
            decreases cells@.len() - i,
        {
            let p = cells[i];
            hl.set_bit(p);
            proof {
                let t = cells@.subrange(0, i + 1);
                let t0 = cells@.subrange(0, i as int);
                assert forall|q: (int, int)|
                    cell_set(t).contains(q) == cell_set(t0).insert(
                        ((cells@[i as int]).0 as int, (cells@[i as int]).1 as int),
                    ).contains(q) by {
                    if cell_set(t).contains(q) {
                        let j = choose|j: int|
                            0 <= j < t.len() && (#[trigger] t[j]).0 == q.0 && t[j].1 == q.1;
                        if j < i {
                            assert(t0[j] == t[j]);
                        } else {
                            assert(t[j] == cells@[i as int]);
                        }
                    }
                    if cell_set(t0).contains(q) {
                        let j = choose|j: int|
                            0 <= j < t0.len() && (#[trigger] t0[j]).0 == q.0 && t0[j].1 == q.1;
                        assert(t[j] == t0[j]);
                    }
                    if q == ((cells@[i as int]).0 as int, (cells@[i as int]).1 as int) {
                        assert(t[i as int] == cells@[i as int]);
                    }
                }
                assert(cell_set(t) =~= cell_set(t0).insert(
                    ((cells@[i as int]).0 as int, (cells@[i as int]).1 as int),
                ));
            }
            i = i + 1;
        }
        proof {
            assert(cells@.subrange(0, cells@.len() as int) =~= cells@);
            lemma_pop_is_card(hl.universe.nodes@, hl.root.0 as int, hl.depth as nat);
        }
        hl
    }

    /// Worlds are equal when they have the same current depth and hold the
    /// same live cells.
    pub fn eq(&self, other: &HashLife) -> (r: bool)
        requires
            self.wf(),
            other.wf(),
            self.depth <= 63,
            other.depth <= 63,
        ensures
            r == (self.depth == other.depth && self.cells() == other.cells()),
    {
        if self.depth != other.depth {
            return false;
        }
        let a = self.to_cells();
        let b = other.to_cells();
        let r = cells_equal(&a, &b);
        proof {
            assert(cell_set(a@) =~= self.cells());
            assert(cell_set(b@) =~= other.cells());
            if self.cells() == other.cells() {
                assert(cell_set(a@) == cell_set(b@));
            }
            if cell_set(a@) == cell_set(b@) {
                assert(self.cells() =~= other.cells());
            }
        }
        r
    }

    /// The world as a reference-simulator state.
    pub fn to_state(&self) -> (r: State)
        requires
            self.wf(),
            self.depth <= 63,
        ensures
            r.wf(),
            r.set() == self.cells(),
    {
        let cs = self.to_cells();
        proof {
            lemma_pow2_le((self.depth - 1) as nat, 62);
            vstd::arithmetic::power2::lemma2_to64_rest();
            assert forall|i: int|
                0 <= i < cs@.len() implies {
                &&& -0x4000_0000_0000_0000 <= (#[trigger] cs@[i]).0 <= 0x3fff_ffff_ffff_ffff
                &&& -0x4000_0000_0000_0000 <= cs@[i].1 <= 0x3fff_ffff_ffff_ffff
            } by {
                assert(cell_set(cs@).contains(((cs@[i]).0 as int, (cs@[i]).1 as int)));
                assert(self.cells().contains(((cs@[i]).0 as int, (cs@[i]).1 as int)));
                assert(in_square((cs@[i]).0 as int, (cs@[i]).1 as int, self.depth as nat));
            }
            let st = State { cells: cs };
            assert(st.set() =~= self.cells());
        }
        State { cells: cs }
    }

    /// Build a world from a reference state, centring it first so small
    /// patterns get shallow trees.
    pub fn from_state(st: &State) -> (r: HashLife)
        requires
            st.wf(),
            norm_coords_ok(st.cells@),
        ensures
            r.wf(),
            r.depth <= 63,
            st.cells@.len() == 0 ==> r.cells() == st.set(),
            st.cells@.len() > 0 ==> exists|y0: int, y1: int, x0: int, x1: int|
                {
                    &&& is_min_row_of(st.set(), y0)
                    &&& is_max_row_of(st.set(), y1)
                    &&& is_min_col_of(st.set(), x0)
                    &&& is_max_col_of(st.set(), x1)
                    &&& r.cells() == #[trigger] shift(
                        st.set(),
                        -(y0 + (y1 + 1 - y0) / 2),
                        -(x0 + (x1 + 1 - x0) / 2),
                    )
                },
    {
        let cs = st.to_cells();
        let b = BasicState { cells: cs };
        let ghost b0 = b;
        let centred = b.normalize();
        proof {
            assert forall|i: int|
                0 <= i < centred.cells@.len() implies {
                &&& -0x4000_0000_0000_0000 <= (#[trigger] centred.cells@[i]).0
                    < 0x4000_0000_0000_0000
                &&& -0x4000_0000_0000_0000 <= centred.cells@[i].1 < 0x4000_0000_0000_0000
            } by {}
        }
        let r = HashLife::from_cells(&centred.cells);
        proof {
            if st.cells@.len() == 0 {
                assert(centred.set() == b0.set());
                assert(r.cells() == cell_set(centred.cells@));
                assert(r.cells() =~= st.set());
            } else {
                let (y0, y1, x0, x1) = choose|y0: int, y1: int, x0: int, x1: int|
                    {
                        &&& (forall|i: int|
                            0 <= i < b0.cells@.len() ==> y0 <= (#[trigger] b0.cells@[i]).0 <= y1
                                && x0 <= b0.cells@[i].1 <= x1)
                        &&& (exists|i: int|
                            0 <= i < b0.cells@.len() && (#[trigger] b0.cells@[i]).0 == y0)
                        &&& (exists|i: int|
                            0 <= i < b0.cells@.len() && (#[trigger] b0.cells@[i]).0 == y1)
                        &&& (exists|i: int|
                            0 <= i < b0.cells@.len() && (#[trigger] b0.cells@[i]).1 == x0)
                        &&& (exists|i: int|
                            0 <= i < b0.cells@.len() && (#[trigger] b0.cells@[i]).1 == x1)
                        &&& centred.set() == #[trigger] shift(
                            b0.set(),
                            -(y0 + (y1 + 1 - y0) / 2),
                            -(x0 + (x1 + 1 - x0) / 2),
                        )
                    };
                lemma_list_minima_to_set(b0.cells@, y0, x0);
                lemma_list_maxima_to_set(b0.cells@, y1, x1);
                assert(b0.set() == st.set());
                assert(is_min_row_of(st.set(), y0) && is_max_row_of(st.set(), y1)
                    && is_min_col_of(st.set(), x0) && is_max_col_of(st.set(), x1) && r.cells()
                    == shift(
                    st.set(),
                    -(y0 + (y1 + 1 - y0) / 2),
                    -(x0 + (x1 + 1 - x0) / 2),
                ));
            }
        }
        r
    }

    /// Build a world from a plain-text pattern, centred.
    pub fn from_str(s: &str) -> (r: Result<HashLife, String>)
        requires
            s@.len() <= 0x1000_0000_0000_0000,
        ensures
            r is Ok <==> crate::pattern::chars_ok(s@, 0),
            r is Err ==> exists|j: int|
                {
                    &&& 0 <= j < s@.len()
                    &&& !(#[trigger] crate::pattern::ok_at(s@, j))
                    &&& (forall|jj: int| 0 <= jj < j ==> crate::pattern::ok_at(s@, jj))
                    &&& (r->Err_0)@ == "Unexpected character "@ + seq![s@[j]]
                },
            r is Ok ==> {
                let hl = r->Ok_0;
                &&& hl.wf()
                &&& hl.depth <= 63
                &&& (crate::pattern::raw_cells(s@, 0, 0, 0) == Set::<(int, int)>::empty()
                    ==> hl.cells() == crate::pattern::raw_cells(s@, 0, 0, 0))
                &&& (crate::pattern::raw_cells(s@, 0, 0, 0) != Set::<(int, int)>::empty()
                    ==> exists|y0: int, y1: int, x0: int, x1: int|
                    {
                        &&& is_min_row_of(crate::pattern::raw_cells(s@, 0, 0, 0), y0)
                        &&& is_max_row_of(crate::pattern::raw_cells(s@, 0, 0, 0), y1)
                        &&& is_min_col_of(crate::pattern::raw_cells(s@, 0, 0, 0), x0)
                        &&& is_max_col_of(crate::pattern::raw_cells(s@, 0, 0, 0), x1)
                        &&& hl.cells() == #[trigger] shift(
                            crate::pattern::raw_cells(s@, 0, 0, 0),
                            -(y0 + (y1 + 1 - y0) / 2),
                            -(x0 + (x1 + 1 - x0) / 2),
                        )
                    })
            },
    {
        match BasicState::from_str(s) {
            Err(e) => Err(e),
            Ok(b) => {
                proof {
                    assert forall|i: int|
                        0 <= i < b.cells@.len() implies {
                        &&& -0x4000_0000_0000_0000 <= (#[trigger] b.cells@[i]).0
                            < 0x4000_0000_0000_0000
                        &&& -0x4000_0000_0000_0000 <= b.cells@[i].1 < 0x4000_0000_0000_0000
                    } by {}
                }
                let hl = HashLife::from_cells(&b.cells);
                proof {
                    let raw = crate::pattern::raw_cells(s@, 0, 0, 0);
                    if raw == Set::<(int, int)>::empty() {
                        assert(b.set() == raw);
                        assert(hl.cells() == b.set());
                    } else {
                        let (y0, y1, x0, x1) = choose|y0: int, y1: int, x0: int, x1: int|
                            {
                                &&& is_min_row_of(raw, y0)
                                &&& is_max_row_of(raw, y1)
                                &&& is_min_col_of(raw, x0)
                                &&& is_max_col_of(raw, x1)
                                &&& b.set() == #[trigger] shift(
                                    raw,
                                    -(y0 + (y1 + 1 - y0) / 2),
                                    -(x0 + (x1 + 1 - x0) / 2),
                                )
                            };
                        assert(hl.cells() == shift(
                            raw,
                            -(y0 + (y1 + 1 - y0) / 2),
                            -(x0 + (x1 + 1 - x0) / 2),
                        ));
                    }
                }
                Ok(hl)
            },
        }
    }

    /// Render the world as plain text.
    pub fn to_string(&self) -> (r: String)
        requires
            self.wf(),
            self.depth <= 63,
        ensures
            exists|cs: Seq<(i64, i64)>|
                {
                    &&& #[trigger] no_dup(cs)
                    &&& (forall|q: (int, int)|
                        #[trigger] cell_set(cs).contains(q) == self.cells().contains(q))
                    &&& (cs.len() == 0 ==> r@ == Seq::<char>::empty())
                    &&& (cs.len() > 0 ==> exists|x0: int|
                        {
                            &&& #[trigger] crate::pattern::is_min_x(
                                crate::pattern::sorted_spec(cs),
                                x0,
                            )
                            &&& r@ == crate::pattern::render_from(
                                crate::pattern::sorted_spec(cs),
                                x0,
                                0,
                                crate::pattern::sorted_spec(cs)[0].0 as int,
                                x0,
                            )
                        })
                },
    {
        let st = self.to_state();
        let r = st.to_string();
        proof {
            assert(no_dup(st.cells@) && (forall|q: (int, int)|
                #[trigger] cell_set(st.cells@).contains(q) == self.cells().contains(q)));
        }
        r
    }

    /// Population of the block of side `2^(depth - lvl)` found by descending
    /// `lvl` levels towards `(y, x)`; zero outside the world. Saturated at
    /// `u64::MAX`. This is the integer core of the rendering hook.
    pub fn block_population(&self, y: i64, x: i64, lvl: usize) -> (r: u64)
        requires
            self.wf(),
            lvl <= self.depth,
            lvl <= 63,
        ensures
            in_square(y as int, x as int, lvl as nat) ==> r as nat == sat64(
                pop_at(
                    self.universe.nodes@,
                    spec_get(self.universe.nodes@, self.root.0 as int, lvl as nat, y as int, x as int),
                ),
            ),
            !in_square(y as int, x as int, lvl as nat) ==> r == 0,
    {
        if !P3::new(y, x, lvl).within_tree() {
            return 0;
        }
        let g = self.universe.get_node(self.root, P3::new(y, x, lvl));
        proof {
            lemma_get_valid(
                self.universe.nodes@,
                self.root.0 as int,
                lvl as nat,
                y as int,
                x as int,
            );
        }
        self.universe.population(g)
    }
}

} // verus!
