//! The step engine: `reframe` crops a window of a tree at any granularity,
//! and `step` advances a tree's centre subquadrant by `2^(s-2)` generations
//! through the recursive 9-to-4-to-1 HashLife scheme, memoised per
//! `(handle, superspeed level)`.

use vstd::prelude::*;
use vstd::arithmetic::power2::{pow2, lemma_pow2_adds, lemma_pow2_pos, lemma2_to64};
use crate::p3::{P3, quad_index, sub_coord, in_square, lemma_sub_in_square};
use crate::life::{
    life, life_n, next_alive, occ, iabs, shift, agree_within, lemma_life_n_add,
    lemma_life_n_local, lemma_life_n_shift,
};
use crate::arith::{pow2_i64, lemma_pow2_double, lemma_pow2_le, lemma_pow2_le_max};
use crate::universe::{
    Tree, TreeRef, Universe, cell_at, cells_of, child_of, depth_at, extends, leaf_alive, lemma_child_depth, lemma_extends_trans, lemma_frame_all, lemma_frame_cell, lemma_frame_depth,
    lemma_memo_key_injective, memo_key, memo_ok, node_ok, pop_at,
    spec_get, step_post, store_wf, tree_valid,
};

verus! {

broadcast use vstd::std_specs::hash::group_hash_axioms;

/// `spec_get` stays inside the store and lands `z` levels down.
pub proof fn lemma_get_valid(nodes: Seq<Tree>, i: int, z: nat, y: int, x: int)
    requires
        store_wf(nodes),
        0 <= i < nodes.len(),
        depth_at(nodes, i) >= z,
    ensures
        0 <= spec_get(nodes, i, z, y, x) < nodes.len(),
        depth_at(nodes, spec_get(nodes, i, z, y, x)) == depth_at(nodes, i) - z,
    decreases z,
{
    if z == 0 {
    } else {
        assert(node_ok(nodes, i));
        if depth_at(nodes, i) == 0 {
        } else {
            match nodes[i] {
                Tree::Leaf { .. } => {
                    assert(depth_at(nodes, i) == 0);
                },
                Tree::Branch { .. } => {
                    let q = quad_index(y, x);
                    lemma_child_depth(nodes, i, q);
                    lemma_get_valid(
                        nodes,
                        child_of(nodes[i], q).0 as int,
                        (z - 1) as nat,
                        sub_coord(y, z),
                        sub_coord(x, z),
                    );
                },
            }
        }
    }
}

/// Reading a cell is reading the leaf that `spec_get` reaches.
pub proof fn lemma_cell_leaf(nodes: Seq<Tree>, i: int, z: nat, y: int, x: int)
    requires
        store_wf(nodes),
        0 <= i < nodes.len(),
        depth_at(nodes, i) >= z,
    ensures
        cell_at(nodes, i, z, y, x) == leaf_alive(nodes, spec_get(nodes, i, z, y, x)),
    decreases z,
{
    if z == 0 {
    } else {
        assert(node_ok(nodes, i));
        match nodes[i] {
            Tree::Leaf { .. } => {
                assert(depth_at(nodes, i) == 0);
            },
            Tree::Branch { .. } => {
                let q = quad_index(y, x);
                lemma_child_depth(nodes, i, q);
                lemma_cell_leaf(
                    nodes,
                    child_of(nodes[i], q).0 as int,
                    (z - 1) as nat,
                    sub_coord(y, z),
                    sub_coord(x, z),
                );
            },
        }
    }
}

/// The block decomposition of the address algebra: the cell `(ry, rx)` of the
/// depth-`(z - zr)` block found at block coordinate `(by, bx)` of resolution
/// `zr` is the cell of the whole tree at the block's centre plus the offset.
pub proof fn lemma_block_cells(
    nodes: Seq<Tree>,
    i: int,
    z: nat,
    zr: nat,
    by: int,
    bx: int,
    ry: int,
    rx: int,
)
    requires
        store_wf(nodes),
        0 <= i < nodes.len(),
        depth_at(nodes, i) == z,
        1 <= zr,
        zr + 1 <= z,
        in_square(by, bx, zr),
        in_square(ry, rx, (z - zr) as nat),
    ensures
        cell_at(nodes, spec_get(nodes, i, zr, by, bx), (z - zr) as nat, ry, rx) == cell_at(
            nodes,
            i,
            z,
            by * pow2((z - zr) as nat) + pow2((z - zr - 1) as nat) + ry,
            bx * pow2((z - zr) as nat) + pow2((z - zr - 1) as nat) + rx,
        ),
    decreases zr,
{
    let b = (z - zr) as nat;
    let yy = by * pow2(b) + pow2((b - 1) as nat) + ry;
    let xx = bx * pow2(b) + pow2((b - 1) as nat) + rx;
    lemma_pow2_double((b - 1) as nat);
    assert(node_ok(nodes, i));
    assert(depth_at(nodes, i) >= 1);
    assert(nodes[i] is Branch) by {
        if nodes[i] is Leaf {
            assert(depth_at(nodes, i) == 0);
        }
    }
    // the cell's sign agrees with the block's sign on each axis
    if by < 0 {
        assert(yy < 0) by (nonlinear_arith)
            requires
                by <= -1,
                ry < pow2((b - 1) as nat),
                pow2(b) == 2 * pow2((b - 1) as nat),
                yy == by * pow2(b) + pow2((b - 1) as nat) + ry,
                pow2(b) >= 1,
        ;
    } else {
        assert(yy >= 0) by (nonlinear_arith)
            requires
                by >= 0,
                -pow2((b - 1) as nat) <= ry,
                yy == by * pow2(b) + pow2((b - 1) as nat) + ry,
        ;
    }
    if bx < 0 {
        assert(xx < 0) by (nonlinear_arith)
            requires
                bx <= -1,
                rx < pow2((b - 1) as nat),
                pow2(b) == 2 * pow2((b - 1) as nat),
                xx == bx * pow2(b) + pow2((b - 1) as nat) + rx,
                pow2(b) >= 1,
        ;
    } else {
        assert(xx >= 0) by (nonlinear_arith)
            requires
                bx >= 0,
                -pow2((b - 1) as nat) <= rx,
                xx == bx * pow2(b) + pow2((b - 1) as nat) + rx,
        ;
    }
    let q = quad_index(by, bx);
    assert(quad_index(yy, xx) == q);
    let c = child_of(nodes[i], q);
    lemma_child_depth(nodes, i, q);
    if zr == 1 {
        // one descend step; the block is the child itself
        assert(spec_get(nodes, i, 1, by, bx) == spec_get(
            nodes,
            c.0 as int,
            0,
            sub_coord(by, 1),
            sub_coord(bx, 1),
        ));
        assert(z == b + 1);
        lemma2_to64();
        assert(by == -1 || by == 0);
        assert(bx == -1 || bx == 0);
        if by == -1 {
            assert(by * pow2(b) == -pow2(b)) by (nonlinear_arith)
                requires
                    by == -1,
            ;
        } else {
            assert(by * pow2(b) == 0) by (nonlinear_arith)
                requires
                    by == 0,
            ;
        }
        if bx == -1 {
            assert(bx * pow2(b) == -pow2(b)) by (nonlinear_arith)
                requires
                    bx == 0 - 1,
            ;
        } else {
            assert(bx * pow2(b) == 0) by (nonlinear_arith)
                requires
                    bx == 0,
            ;
        }
        assert(sub_coord(yy, z) == ry) by {
            assert(pow2((z - 2) as nat) == pow2((b - 1) as nat));
        }
        assert(sub_coord(xx, z) == rx) by {
            assert(pow2((z - 2) as nat) == pow2((b - 1) as nat));
        }
        assert(cell_at(nodes, i, z, yy, xx) == cell_at(nodes, c.0 as int, b, ry, rx));
    } else {
        let by1 = sub_coord(by, zr);
        let bx1 = sub_coord(bx, zr);
        lemma_sub_in_square(by, bx, zr);
        lemma_pow2_adds((zr - 2) as nat, b);
        assert(pow2((z - 2) as nat) == pow2((zr - 2) as nat) * pow2(b));
        assert(sub_coord(yy, z) == by1 * pow2(b) + pow2((b - 1) as nat) + ry) by (nonlinear_arith)
            requires
                zr >= 2,
                z == zr + b,
                z >= 3,
                yy == by * pow2(b) + pow2((b - 1) as nat) + ry,
                pow2((z - 2) as nat) == pow2((zr - 2) as nat) * pow2(b),
                by1 == sub_coord(by, zr),
                sub_coord(yy, z) == (if yy < 0 { yy + pow2((z - 2) as nat) } else { yy - pow2((z - 2) as nat) }),
                by1 == (if by < 0 { by + pow2((zr - 2) as nat) } else { by - pow2((zr - 2) as nat) }),
                by < 0 ==> yy < 0,
                by >= 0 ==> yy >= 0,
        ;
        assert(sub_coord(xx, z) == bx1 * pow2(b) + pow2((b - 1) as nat) + rx) by (nonlinear_arith)
            requires
                zr >= 2,
                z == zr + b,
                z >= 3,
                xx == bx * pow2(b) + pow2((b - 1) as nat) + rx,
                pow2((z - 2) as nat) == pow2((zr - 2) as nat) * pow2(b),
                bx1 == sub_coord(bx, zr),
                sub_coord(xx, z) == (if xx < 0 { xx + pow2((z - 2) as nat) } else { xx - pow2((z - 2) as nat) }),
                bx1 == (if bx < 0 { bx + pow2((zr - 2) as nat) } else { bx - pow2((zr - 2) as nat) }),
                bx < 0 ==> xx < 0,
                bx >= 0 ==> xx >= 0,
        ;
        lemma_block_cells(nodes, c.0 as int, (z - 1) as nat, (zr - 1) as nat, by1, bx1, ry, rx);
        assert(cell_at(nodes, i, z, yy, xx) == cell_at(
            nodes,
            c.0 as int,
            (z - 1) as nat,
            sub_coord(yy, z),
            sub_coord(xx, z),
        ));
        assert(spec_get(nodes, i, zr, by, bx) == spec_get(
            nodes,
            c.0 as int,
            (zr - 1) as nat,
            by1,
            bx1,
        ));
    }
}

/// The window of blocks `[py - 2^(zw-1), py + 2^(zw-1))` (and likewise for
/// `px`) at resolution `zc` lies inside the centred square.
pub open spec fn window_ok(py: int, px: int, zw: nat, zc: nat) -> bool {
    &&& zw >= 1
    &&& zc >= zw
    &&& py - pow2((zw - 1) as nat) >= -pow2((zc - 1) as nat)
    &&& py + pow2((zw - 1) as nat) <= pow2((zc - 1) as nat)
    &&& px - pow2((zw - 1) as nat) >= -pow2((zc - 1) as nat)
    &&& px + pow2((zw - 1) as nat) <= pow2((zc - 1) as nat)
}

impl Universe {
    /// Crop: a depth-`(d - p.z + z)` tree whose block grid of resolution `z`
    /// is read from `tr`'s block grid of resolution `p.z`, centred at
    /// `(p.y, p.x)`. In cell terms the result is `tr` translated by
    /// `(-p.y, -p.x)` block widths; at window depth 0 it is the single block
    /// that `get_node` finds.
    #[verifier::rlimit(100)]
    #[verifier::spinoff_prover]
    pub fn reframe(&mut self, tr: TreeRef, p: P3, z: usize) -> (r: TreeRef)
        requires
            old(self).wf(),
            old(self).valid(tr),
            z <= p.z,
            p.z <= 63,
            p.z as nat <= old(self).depth_of(tr),
            z >= 1 ==> window_ok(p.y as int, p.x as int, z as nat, p.z as nat),
        ensures
            final(self).wf(),
            extends(old(self).nodes@, final(self).nodes@),
            final(self).tables_unchanged(*old(self)),
            final(self).valid(r),
            final(self).depth_of(r) == old(self).depth_of(tr) - p.z + z,
            z == 0 ==> r.0 as int == spec_get(
                old(self).nodes@,
                tr.0 as int,
                p.z as nat,
                p.y as int,
                p.x as int,
            ),
            z >= 1 ==> forall|yy: int, xx: int|
                in_square(yy, xx, (old(self).depth_of(tr) - p.z + z) as nat)
                    ==> #[trigger] cell_at(
                    final(self).nodes@,
                    r.0 as int,
                    (old(self).depth_of(tr) - p.z + z) as nat,
                    yy,
                    xx,
                ) == cell_at(
                    old(self).nodes@,
                    tr.0 as int,
                    old(self).depth_of(tr),
                    yy + p.y * pow2((old(self).depth_of(tr) - p.z) as nat),
                    xx + p.x * pow2((old(self).depth_of(tr) - p.z) as nat),
                ),
        decreases z,
    {
        let ghost pre = self.nodes@;
        let ghost d = old(self).depth_of(tr);
        let ghost b = (d - p.z) as nat;
        proof {
            if p.z >= 1 {
                lemma_pow2_le_max((p.z - 1) as nat);
            }
            lemma2_to64();
            if z >= 2 {
                lemma_pow2_double((z - 2) as nat);
            }
        }
        if z == 0 {
            let g = self.get_node(tr, p);
            return g;
        }
        if z == 1 {
            let g0 = self.get_node(tr, P3::new(p.y - 1, p.x - 1, p.z));
            let g1 = self.get_node(tr, P3::new(p.y - 1, p.x, p.z));
            let g2 = self.get_node(tr, P3::new(p.y, p.x - 1, p.z));
            let g3 = self.get_node(tr, P3::new(p.y, p.x, p.z));
            let r = self.canonicalise(Tree::Branch { nw: g0, ne: g1, sw: g2, se: g3 });
            proof {
                let post = self.nodes@;
                lemma_frame_all(pre, post);
                assert forall|yy: int, xx: int| in_square(yy, xx, (b + 1) as nat) implies
                    #[trigger] cell_at(post, r.0 as int, (b + 1) as nat, yy, xx) == cell_at(
                    pre,
                    tr.0 as int,
                    d,
                    yy + p.y * pow2(b),
                    xx + p.x * pow2(b),
                ) by {
                    let q = quad_index(yy, xx);
                    let y1 = sub_coord(yy, (b + 1) as nat);
                    let x1 = sub_coord(xx, (b + 1) as nat);
                    let uy: int = if yy < 0 { -1 } else { 0 };
                    let ux: int = if xx < 0 { -1 } else { 0 };
                    let blk = spec_get(pre, tr.0 as int, p.z as nat, p.y + uy, p.x + ux);
                    assert(post[r.0 as int] == (Tree::Branch { nw: g0, ne: g1, sw: g2, se: g3 }));
                    assert(child_of(post[r.0 as int], q).0 as int == blk);
                    assert(cell_at(post, r.0 as int, (b + 1) as nat, yy, xx) == cell_at(
                        post,
                        blk,
                        b,
                        y1,
                        x1,
                    ));
                    lemma_get_valid(pre, tr.0 as int, p.z as nat, p.y + uy, p.x + ux);
                    lemma_frame_cell(pre, post, blk, b, y1, x1);
                    if b == 0 {
                        lemma_cell_leaf(pre, tr.0 as int, p.z as nat, p.y + uy, p.x + ux);
                        assert(pow2(0) == 1);
                        assert(yy + p.y * 1 == p.y + uy && xx + p.x * 1 == p.x + ux);
                    } else {
                        lemma_pow2_double((b - 1) as nat);
                        lemma_block_cells(
                            pre,
                            tr.0 as int,
                            d,
                            p.z as nat,
                            p.y + uy,
                            p.x + ux,
                            y1,
                            x1,
                        );
                        assert((p.y + uy) * pow2(b) + pow2((b - 1) as nat) + y1 == yy + p.y * pow2(
                            b,
                        )) by (nonlinear_arith)
                            requires
                                uy == (if yy < 0 { -1int } else { 0int }),
                                y1 == (if yy < 0 { yy + pow2((b - 1) as nat) } else { yy - pow2((b - 1) as nat) }),
                                pow2(b) == 2 * pow2((b - 1) as nat),
                        ;
                        assert((p.x + ux) * pow2(b) + pow2((b - 1) as nat) + x1 == xx + p.x * pow2(
                            b,
                        )) by (nonlinear_arith)
                            requires
                                ux == (if xx < 0 { -1int } else { 0int }),
                                x1 == (if xx < 0 { xx + pow2((b - 1) as nat) } else { xx - pow2((b - 1) as nat) }),
                                pow2(b) == 2 * pow2((b - 1) as nat),
                        ;
                    }
                }
            }
            r
        } else {
            let w = pow2_i64(z - 2);
            proof {
                lemma_pow2_le((p.z - 1) as nat, 62);
                assert(window_ok(p.y - w as int, p.x - w as int, (z - 1) as nat, p.z as nat));
                assert(window_ok(p.y - w as int, p.x + w as int, (z - 1) as nat, p.z as nat));
                assert(window_ok(p.y + w as int, p.x - w as int, (z - 1) as nat, p.z as nat));
                assert(window_ok(p.y + w as int, p.x + w as int, (z - 1) as nat, p.z as nat));
            }
            let a = self.reframe(tr, P3::new(p.y - w, p.x - w, p.z), z - 1);
            let ghost ga = self.nodes@;
            proof {
                lemma_frame_depth(pre, ga, tr.0 as int);
            }
            let bq = self.reframe(tr, P3::new(p.y - w, p.x + w, p.z), z - 1);
            let ghost gb = self.nodes@;
            proof {
                lemma_frame_depth(ga, gb, tr.0 as int);
            }
            let cq = self.reframe(tr, P3::new(p.y + w, p.x - w, p.z), z - 1);
            let ghost gc = self.nodes@;
            proof {
                lemma_frame_depth(gb, gc, tr.0 as int);
            }
            let dq = self.reframe(tr, P3::new(p.y + w, p.x + w, p.z), z - 1);
            let ghost gd = self.nodes@;
            proof {
                lemma_frame_depth(ga, gb, a.0 as int);
                lemma_frame_depth(gb, gc, a.0 as int);
                lemma_frame_depth(gc, gd, a.0 as int);
                lemma_frame_depth(gb, gc, bq.0 as int);
                lemma_frame_depth(gc, gd, bq.0 as int);
                lemma_frame_depth(gc, gd, cq.0 as int);
            }
            let r = self.canonicalise(Tree::Branch { nw: a, ne: bq, sw: cq, se: dq });
            proof {
                let post = self.nodes@;
                lemma_extends_trans(pre, ga, gb);
                lemma_extends_trans(pre, gb, gc);
                lemma_extends_trans(pre, gc, gd);
                lemma_extends_trans(pre, gd, post);
                lemma_extends_trans(ga, gb, gc);
                lemma_extends_trans(ga, gc, gd);
                lemma_extends_trans(ga, gd, post);
                lemma_extends_trans(gb, gc, gd);
                lemma_extends_trans(gb, gd, post);
                lemma_extends_trans(gc, gd, post);
                lemma_pow2_adds((z - 2) as nat, b);
                lemma_pow2_double((b + z - 2) as nat);
                assert(post[r.0 as int] == (Tree::Branch { nw: a, ne: bq, sw: cq, se: dq }));
                assert forall|yy: int, xx: int| in_square(yy, xx, (b + z) as nat) implies
                    #[trigger] cell_at(post, r.0 as int, (b + z) as nat, yy, xx) == cell_at(
                    pre,
                    tr.0 as int,
                    d,
                    yy + p.y * pow2(b),
                    xx + p.x * pow2(b),
                ) by {
                    let q = quad_index(yy, xx);
                    let y1 = sub_coord(yy, (b + z) as nat);
                    let x1 = sub_coord(xx, (b + z) as nat);
                    lemma_sub_in_square(yy, xx, (b + z) as nat);
                    let uy: int = if yy < 0 { -(w as int) } else { w as int };
                    let ux: int = if xx < 0 { -(w as int) } else { w as int };
                    let sub = child_of(post[r.0 as int], q);
                    assert(cell_at(post, r.0 as int, (b + z) as nat, yy, xx) == cell_at(
                        post,
                        sub.0 as int,
                        (b + z - 1) as nat,
                        y1,
                        x1,
                    ));
                    // the selected child window reads `tr` at its own centre
                    if q == 0 {
                        assert(sub == a);
                        lemma_frame_cell(ga, post, a.0 as int, (b + z - 1) as nat, y1, x1);
                        assert(cell_at(ga, a.0 as int, (b + z - 1) as nat, y1, x1) == cell_at(
                            pre,
                            tr.0 as int,
                            d,
                            y1 + (p.y - w) * pow2(b),
                            x1 + (p.x - w) * pow2(b),
                        ));
                    } else if q == 1 {
                        assert(sub == bq);
                        lemma_frame_cell(gb, post, bq.0 as int, (b + z - 1) as nat, y1, x1);
                        assert(cell_at(gb, bq.0 as int, (b + z - 1) as nat, y1, x1) == cell_at(
                            ga,
                            tr.0 as int,
                            d,
                            y1 + (p.y - w) * pow2(b),
                            x1 + (p.x + w) * pow2(b),
                        ));
                        lemma_frame_cell(
                            pre,
                            ga,
                            tr.0 as int,
                            d,
                            y1 + (p.y - w) * pow2(b),
                            x1 + (p.x + w) * pow2(b),
                        );
                    } else if q == 2 {
                        assert(sub == cq);
                        lemma_frame_cell(gc, post, cq.0 as int, (b + z - 1) as nat, y1, x1);
                        assert(cell_at(gc, cq.0 as int, (b + z - 1) as nat, y1, x1) == cell_at(
                            gb,
                            tr.0 as int,
                            d,
                            y1 + (p.y + w) * pow2(b),
                            x1 + (p.x - w) * pow2(b),
                        ));
                        lemma_frame_cell(
                            pre,
                            gb,
                            tr.0 as int,
                            d,
                            y1 + (p.y + w) * pow2(b),
                            x1 + (p.x - w) * pow2(b),
                        );
                    } else {
                        assert(sub == dq);
                        lemma_frame_cell(gd, post, dq.0 as int, (b + z - 1) as nat, y1, x1);
                        assert(cell_at(gd, dq.0 as int, (b + z - 1) as nat, y1, x1) == cell_at(
                            gc,
                            tr.0 as int,
                            d,
                            y1 + (p.y + w) * pow2(b),
                            x1 + (p.x + w) * pow2(b),
                        ));
                        lemma_frame_cell(
                            pre,
                            gc,
                            tr.0 as int,
                            d,
                            y1 + (p.y + w) * pow2(b),
                            x1 + (p.x + w) * pow2(b),
                        );
                    }
                    // the child-centre translation composes to the parent's
                    assert(y1 + (p.y + uy) * pow2(b) == yy + p.y * pow2(b)) by (nonlinear_arith)
                        requires
                            uy == (if yy < 0 { -(w as int) } else { w as int }),
                            y1 == (if yy < 0 { yy + pow2((b + z - 2) as nat) } else { yy - pow2((b + z - 2) as nat) }),
                            w as int == pow2((z - 2) as nat),
                            pow2((b + z - 2) as nat) == pow2((z - 2) as nat) * pow2(b),
                    ;
                    assert(x1 + (p.x + ux) * pow2(b) == xx + p.x * pow2(b)) by (nonlinear_arith)
                        requires
                            ux == (if xx < 0 { -(w as int) } else { w as int }),
                            x1 == (if xx < 0 { xx + pow2((b + z - 2) as nat) } else { xx - pow2((b + z - 2) as nat) }),
                            w as int == pow2((z - 2) as nat),
                            pow2((b + z - 2) as nat) == pow2((z - 2) as nat) * pow2(b),
                    ;
                }
            }
            r
        }
    }
}

// ---------------------------------------------------------------------------
// The 4x4 base case: a 16-bit snapshot evaluated by the B3/S23 rule.
// ---------------------------------------------------------------------------

/// Bit `k` of a 16-bit row-major snapshot of a 4x4 square.
pub open spec fn bit16(m: u16, k: int) -> bool {
    if 0 <= k < 16 {
        (m >> (k as u16)) & 1 == 1
    } else {
        false
    }
}

/// Row-major position of the cell `(y, x)` of a 4x4 square, `y, x in [-2, 2)`.
pub open spec fn cell_index4(y: int, x: int) -> int {
    (y + 2) * 4 + (x + 2)
}

/// The cells a bitmask stands for.
pub open spec fn mask_cells(m: u16) -> Set<(int, int)> {
    Set::new(|p: (int, int)| in_square(p.0, p.1, 2) && bit16(m, 15 - cell_index4(p.0, p.1)))
}

proof fn lemma_u16_bit_zero(m: u16, b: u16, m2: u16)
    requires
        m < 0x8000,
        b <= 1,
        m2 == m * 2 + b,
    ensures
        (m2 >> 0u16) & 1 == b,
{
    assert((m2 >> 0u16) & 1 == b) by (bit_vector)
        requires
            m < 0x8000,
            b <= 1,
            m2 == m * 2 + b,
    ;
}

proof fn lemma_u16_bit_step(m: u16, b: u16, m2: u16, k: u16, k1: u16)
    requires
        m < 0x8000,
        b <= 1,
        m2 == m * 2 + b,
        k < 16,
        k1 < 15,
        k == k1 + 1,
    ensures
        (m2 >> k) & 1 == (m >> k1) & 1,
{
    assert((m2 >> k) & 1 == (m >> k1) & 1) by (bit_vector)
        requires
            m < 0x8000,
            b <= 1,
            m2 == m * 2 + b,
            k < 16,
            k1 < 15,
            k == k1 + 1,
    ;
}

/// One bit of the snapshot, read back out.
fn mask_bit_at(m: u16, y: i64, x: i64) -> (r: bool)
    requires
        -2 <= y < 2,
        -2 <= x < 2,
    ensures
        r == bit16(m, 15 - cell_index4(y as int, x as int)),
{
    let k: u16 = (15 - ((y + 2) * 4 + (x + 2))) as u16;
    ((m >> k) & 1) == 1
}

/// The B3/S23 rule for one of the four centre cells of the snapshot.
fn l2_next(m: u16, y: i64, x: i64) -> (r: bool)
    requires
        -1 <= y <= 0,
        -1 <= x <= 0,
    ensures
        r == next_alive(mask_cells(m), y as int, x as int),
{
    let alive = mask_bit_at(m, y, x);
    let mut n: u32 = 0;
    if mask_bit_at(m, y - 1, x - 1) {
        n = n + 1;
    }
    if mask_bit_at(m, y - 1, x) {
        n = n + 1;
    }
    if mask_bit_at(m, y - 1, x + 1) {
        n = n + 1;
    }
    if mask_bit_at(m, y, x - 1) {
        n = n + 1;
    }
    if mask_bit_at(m, y, x + 1) {
        n = n + 1;
    }
    if mask_bit_at(m, y + 1, x - 1) {
        n = n + 1;
    }
    if mask_bit_at(m, y + 1, x) {
        n = n + 1;
    }
    if mask_bit_at(m, y + 1, x + 1) {
        n = n + 1;
    }
    let r = if alive {
        n == 2 || n == 3
    } else {
        n == 3
    };
    proof {
        lemma2_to64();
        let s = mask_cells(m);
        let yi = y as int;
        let xi = x as int;
        assert(occ(s, yi - 1, xi - 1) + occ(s, yi - 1, xi) + occ(s, yi - 1, xi + 1) + occ(
            s,
            yi,
            xi - 1,
        ) + occ(s, yi, xi + 1) + occ(s, yi + 1, xi - 1) + occ(s, yi + 1, xi) + occ(
            s,
            yi + 1,
            xi + 1,
        ) == n as int);
        assert(s.contains((yi, xi)) == alive);
    }
    r
}

// ---------------------------------------------------------------------------
// Windows of a cell set, and how stepping and assembling transform them.
// ---------------------------------------------------------------------------

/// The depth-`zz` tree at `m` shows, over its whole square, the cell set `t`
/// read at the offset `(oy, ox)`: it is a window of `t` centred there.
pub open spec fn win_fact(
    nodes: Seq<Tree>,
    m: TreeRef,
    zz: nat,
    t: Set<(int, int)>,
    oy: int,
    ox: int,
) -> bool {
    &&& m.0 < nodes.len()
    &&& depth_at(nodes, m.0 as int) == zz
    &&& forall|yy: int, xx: int|
        in_square(yy, xx, zz) ==> #[trigger] cell_at(nodes, m.0 as int, zz, yy, xx) == t.contains(
            (yy + oy, xx + ox),
        )
}

pub proof fn lemma_win_fact_frame(
    pre: Seq<Tree>,
    post: Seq<Tree>,
    m: TreeRef,
    zz: nat,
    t: Set<(int, int)>,
    oy: int,
    ox: int,
)
    requires
        win_fact(pre, m, zz, t, oy, ox),
        extends(pre, post),
        store_wf(pre),
    ensures
        win_fact(post, m, zz, t, oy, ox),
{
    lemma_frame_depth(pre, post, m.0 as int);
    assert forall|yy: int, xx: int| in_square(yy, xx, zz) implies #[trigger] cell_at(
        post,
        m.0 as int,
        zz,
        yy,
        xx,
    ) == t.contains((yy + oy, xx + ox)) by {
        lemma_frame_cell(pre, post, m.0 as int, zz, yy, xx);
    }
}

/// Evolving a window: if `r`'s cells are the `del`-generation evolution of the
/// window `m` (restricted to the centre), then `r` is a window of the evolved
/// set, at the same offset. Life's speed limit keeps everything inside `m`.
pub proof fn lemma_window_evolve(
    nodes: Seq<Tree>,
    m: TreeRef,
    zz: nat,
    c: Set<(int, int)>,
    oy: int,
    ox: int,
    r: TreeRef,
    del: nat,
)
    requires
        zz >= 2,
        win_fact(nodes, m, zz, c, oy, ox),
        del <= pow2((zz - 2) as nat),
        r.0 < nodes.len(),
        depth_at(nodes, r.0 as int) == (zz - 1) as nat,
        forall|yy: int, xx: int|
            in_square(yy, xx, (zz - 1) as nat) ==> #[trigger] cell_at(
                nodes,
                r.0 as int,
                (zz - 1) as nat,
                yy,
                xx,
            ) == life_n(cells_of(nodes, m.0 as int, zz), del).contains((yy, xx)),
    ensures
        win_fact(nodes, r, (zz - 1) as nat, life_n(c, del), oy, ox),
{
    let w = cells_of(nodes, m.0 as int, zz);
    let sc = shift(c, -oy, -ox);
    lemma_pow2_double((zz - 2) as nat);
    lemma_pow2_pos((zz - 2) as nat);
    lemma_life_n_shift(c, -oy, -ox, del);
    assert forall|yy: int, xx: int| in_square(yy, xx, (zz - 1) as nat) implies #[trigger] cell_at(
        nodes,
        r.0 as int,
        (zz - 1) as nat,
        yy,
        xx,
    ) == life_n(c, del).contains((yy + oy, xx + ox)) by {
        assert forall|p: (int, int)|
            iabs(p.0 - yy) <= del as int && iabs(p.1 - xx) <= del as int implies (w.contains(p)
            <==> #[trigger] sc.contains(p)) by {
            assert(in_square(p.0, p.1, zz));
        }
        assert(agree_within(w, sc, yy, xx, del as int));
        lemma_life_n_local(w, sc, yy, xx, del as int, del);
        assert(iabs(yy - yy) <= 0 && iabs(xx - xx) <= 0);
        assert(life_n(w, del).contains((yy, xx)) <==> life_n(sc, del).contains((yy, xx)));
        assert(life_n(sc, del).contains((yy, xx)) == life_n(c, del).contains((yy + oy, xx + ox)));
    }
}

/// Assembling four quadrant windows of one set into the window at their
/// common centre.
pub proof fn lemma_quad_assemble(
    nodes: Seq<Tree>,
    t: TreeRef,
    s: Set<(int, int)>,
    cy: int,
    cx: int,
    z: nat,
)
    requires
        store_wf(nodes),
        t.0 < nodes.len(),
        z >= 2,
        depth_at(nodes, t.0 as int) == z,
        nodes[t.0 as int] is Branch,
        win_fact(
            nodes,
            child_of(nodes[t.0 as int], 0),
            (z - 1) as nat,
            s,
            cy - pow2((z - 2) as nat),
            cx - pow2((z - 2) as nat),
        ),
        win_fact(
            nodes,
            child_of(nodes[t.0 as int], 1),
            (z - 1) as nat,
            s,
            cy - pow2((z - 2) as nat),
            cx + pow2((z - 2) as nat),
        ),
        win_fact(
            nodes,
            child_of(nodes[t.0 as int], 2),
            (z - 1) as nat,
            s,
            cy + pow2((z - 2) as nat),
            cx - pow2((z - 2) as nat),
        ),
        win_fact(
            nodes,
            child_of(nodes[t.0 as int], 3),
            (z - 1) as nat,
            s,
            cy + pow2((z - 2) as nat),
            cx + pow2((z - 2) as nat),
        ),
    ensures
        win_fact(nodes, t, z, s, cy, cx),
{
    lemma_pow2_double((z - 2) as nat);
    assert forall|yy: int, xx: int| in_square(yy, xx, z) implies #[trigger] cell_at(
        nodes,
        t.0 as int,
        z,
        yy,
        xx,
    ) == s.contains((yy + cy, xx + cx)) by {
        let q = quad_index(yy, xx);
        let y1 = sub_coord(yy, z);
        let x1 = sub_coord(xx, z);
        lemma_sub_in_square(yy, xx, z);
        assert(cell_at(nodes, t.0 as int, z, yy, xx) == cell_at(
            nodes,
            child_of(nodes[t.0 as int], q).0 as int,
            (z - 1) as nat,
            y1,
            x1,
        ));
    }
}

/// Cell offsets of the nine overlapping windows, indexed row-major; the
/// exponent is `depth - 2`.
pub open spec fn nine_y(k: int, e: nat) -> int {
    (k / 3 - 1) * pow2(e)
}

pub open spec fn nine_x(k: int, e: nat) -> int {
    (k % 3 - 1) * pow2(e)
}

/// Cell offsets of the four assembled groupings; the exponent is `depth - 3`.
pub open spec fn four_y(j: int, e: nat) -> int {
    (j / 2 * 2 - 1) * pow2(e)
}

pub open spec fn four_x(j: int, e: nat) -> int {
    (j % 2 * 2 - 1) * pow2(e)
}

/// Generations advanced by the first phase of a recursive step: a half step
/// when superspeed applies at this level, none otherwise.
pub open spec fn del1(depth: int, s: int) -> nat {
    if s == depth {
        pow2((s - 3) as nat)
    } else {
        0
    }
}

/// Generations advanced by the second phase.
pub open spec fn del2(depth: int, s: int) -> nat {
    if s == depth {
        pow2((s - 3) as nat)
    } else {
        pow2((s - 2) as nat)
    }
}

impl Universe {
    /// Row-major 16-bit snapshot of a depth-2 (4x4) tree.
    pub fn make_l2_bitmask(&self, tr: TreeRef) -> (m: u16)
        requires
            self.wf(),
            self.valid(tr),
            self.depth_of(tr) == 2,
        ensures
            forall|y: int, x: int|
                in_square(y, x, 2) ==> #[trigger] bit16(m, 15 - cell_index4(y, x)) == cell_at(
                    self.nodes@,
                    tr.0 as int,
                    2,
                    y,
                    x,
                ),
    {
        let mut m: u16 = 0;
        let mut t: usize = 0;
        proof {
            lemma2_to64();
        }
        while t < 16
            invariant
                self.wf(),
                self.valid(tr),
                self.depth_of(tr) == 2,
                t <= 16,
                (m as nat) < pow2(t as nat),
                forall|y0: int, x0: int|
                    in_square(y0, x0, 2) && cell_index4(y0, x0) < t ==> #[trigger] bit16(
                        m,
                        t - 1 - cell_index4(y0, x0),
                    ) == cell_at(self.nodes@, tr.0 as int, 2, y0, x0),
            decreases 16 - t,
        {
            let yc = (t / 4) as i64 - 2;
            let xc = (t % 4) as i64 - 2;
            proof {
                lemma2_to64();
                assert(cell_index4(yc as int, xc as int) == t);
            }
            let g = self.get_node(tr, P3::new(yc, xc, 2));
            proof {
                lemma_cell_leaf(self.nodes@, tr.0 as int, 2, yc as int, xc as int);
                crate::universe::lemma_depth_zero_leaf(self.nodes@, g.0 as int);
            }
            let a = self.alive(g);
            let b: u16 = if a {
                1
            } else {
                0
            };
            proof {
                crate::arith::lemma_pow2_le(t as nat, 15);
                lemma2_to64();
                lemma_pow2_double(t as nat);
            }
            let m2 = m * 2 + b;
            proof {
                lemma_u16_bit_zero(m, b, m2);
                assert forall|y0: int, x0: int|
                    in_square(y0, x0, 2) && cell_index4(y0, x0) < t + 1 implies #[trigger] bit16(
                    m2,
                    t - cell_index4(y0, x0),
                ) == cell_at(self.nodes@, tr.0 as int, 2, y0, x0) by {
                    let t0 = cell_index4(y0, x0);
                    if t0 == t {
                        assert(y0 == yc as int && x0 == xc as int);
                        assert(bit16(m2, 0) == (b == 1));
                    } else {
                        lemma_u16_bit_step(m, b, m2, (t - t0) as u16, (t - 1 - t0) as u16);
                        assert(bit16(m2, t - t0) == bit16(m, t - 1 - t0));
                    }
                }
            }
            m = m2;
            t = t + 1;
        }
        proof {
            lemma2_to64();
            assert forall|y: int, x: int| in_square(y, x, 2) implies #[trigger] bit16(
                m,
                15 - cell_index4(y, x),
            ) == cell_at(self.nodes@, tr.0 as int, 2, y, x) by {
                assert(0 <= cell_index4(y, x) < 16);
                assert(cell_index4(y, x) < t);
                assert(bit16(m, t - 1 - cell_index4(y, x)) == cell_at(
                    self.nodes@,
                    tr.0 as int,
                    2,
                    y,
                    x,
                ));
                assert(t - 1 - cell_index4(y, x) == 15 - cell_index4(y, x));
            }
        }
        m
    }

    /// The centre 2x2 of a 4x4 snapshot, one generation on: four canonical
    /// leaves combined into a depth-1 branch.
    pub fn l2_gen(&mut self, bitmask: u16) -> (r: TreeRef)
        requires
            old(self).wf(),
        ensures
            final(self).wf(),
            extends(old(self).nodes@, final(self).nodes@),
            final(self).tables_unchanged(*old(self)),
            final(self).valid(r),
            final(self).depth_of(r) == 1,
            forall|y: int, x: int|
                in_square(y, x, 1) ==> #[trigger] cell_at(final(self).nodes@, r.0 as int, 1, y, x)
                    == next_alive(mask_cells(bitmask), y, x),
    {
        let c0 = l2_next(bitmask, -1, -1);
        let c1 = l2_next(bitmask, -1, 0);
        let c2 = l2_next(bitmask, 0, -1);
        let c3 = l2_next(bitmask, 0, 0);
        let l0 = self.canonicalise(Tree::Leaf { alive: c0 });
        let ghost g1 = self.nodes@;
        let l1 = self.canonicalise(Tree::Leaf { alive: c1 });
        let ghost g2 = self.nodes@;
        let l2 = self.canonicalise(Tree::Leaf { alive: c2 });
        let ghost g3 = self.nodes@;
        let l3 = self.canonicalise(Tree::Leaf { alive: c3 });
        let ghost g4 = self.nodes@;
        let r = self.canonicalise(Tree::Branch { nw: l0, ne: l1, sw: l2, se: l3 });
        proof {
            let post = self.nodes@;
            lemma2_to64();
            lemma_extends_trans(g1, g2, g3);
            lemma_extends_trans(g1, g3, g4);
            lemma_extends_trans(g1, g4, post);
            lemma_extends_trans(g2, g3, g4);
            lemma_extends_trans(g2, g4, post);
            lemma_extends_trans(g3, g4, post);
            assert(post[r.0 as int] == (Tree::Branch { nw: l0, ne: l1, sw: l2, se: l3 }));
            assert(post[l0.0 as int] == g1[l0.0 as int]);
            assert(post[l0.0 as int] == (Tree::Leaf { alive: c0 }));
            assert(post[l1.0 as int] == (Tree::Leaf { alive: c1 }));
            assert(post[l2.0 as int] == (Tree::Leaf { alive: c2 }));
            assert(post[l3.0 as int] == (Tree::Leaf { alive: c3 }));
            assert forall|y: int, x: int| in_square(y, x, 1) implies #[trigger] cell_at(
                post,
                r.0 as int,
                1,
                y,
                x,
            ) == next_alive(mask_cells(bitmask), y, x) by {
                assert(y == -1 || y == 0);
                assert(x == -1 || x == 0);
                assert(sub_coord(y, 1) == 0 && sub_coord(x, 1) == 0);
                let q = quad_index(y, x);
                let ch = child_of(post[r.0 as int], q);
                assert(cell_at(post, r.0 as int, 1, y, x) == cell_at(post, ch.0 as int, 0, 0, 0));
                assert(cell_at(post, ch.0 as int, 0, 0, 0) == leaf_alive(post, ch.0 as int));
                if y == -1 && x == -1 {
                    assert(ch == l0);
                } else if y == -1 {
                    assert(ch == l1);
                } else if x == -1 {
                    assert(ch == l2);
                } else {
                    assert(ch == l3);
                }
            }
        }
        r
    }

    /// The nine overlapping depth-`(depth-1)` windows of `tr`, centres on the
    /// grid of spacing `2^(depth-2)`.
    fn windows9(&mut self, tr: TreeRef, depth: usize) -> (nine: Vec<TreeRef>)
        requires
            old(self).wf(),
            old(self).valid(tr),
            old(self).depth_of(tr) == depth,
            3 <= depth,
        ensures
            final(self).wf(),
            extends(old(self).nodes@, final(self).nodes@),
            final(self).tables_unchanged(*old(self)),
            nine@.len() == 9,
            forall|k: int|
                0 <= k < 9 ==> #[trigger] win_fact(
                    final(self).nodes@,
                    nine@[k],
                    (depth - 1) as nat,
                    cells_of(old(self).nodes@, tr.0 as int, depth as nat),
                    nine_y(k, (depth - 2) as nat),
                    nine_x(k, (depth - 2) as nat),
                ),
        decreases depth, 0int,
    {
        let ghost c = cells_of(old(self).nodes@, tr.0 as int, depth as nat);
        let ghost orig = self.nodes@;
        let ghost m0 = self.next_gen@;
        let ghost e0 = self.empty_trees@;
        let mut nine: Vec<TreeRef> = Vec::new();
        let mut k: usize = 0;
        while k < 9
            invariant
                self.wf(),
                extends(orig, self.nodes@),
                self.next_gen@ == m0,
                self.empty_trees@ == e0,
                tr.0 < orig.len(),
                orig.len() <= self.nodes@.len(),
                depth_at(self.nodes@, tr.0 as int) == depth,
                3 <= depth,
                store_wf(orig),
                cells_of(self.nodes@, tr.0 as int, depth as nat) == c,
                nine@.len() == k,
                k <= 9,
                forall|kk: int|
                    0 <= kk < k ==> #[trigger] win_fact(
                        self.nodes@,
                        nine@[kk],
                        (depth - 1) as nat,
                        c,
                        nine_y(kk, (depth - 2) as nat),
                        nine_x(kk, (depth - 2) as nat),
                    ),
            decreases 9 - k,
        {
            let ky = (k / 3) as i64 * 2 - 2;
            let kx = (k % 3) as i64 * 2 - 2;
            proof {
                lemma2_to64();
                assert(window_ok(ky as int, kx as int, 2, 3));
            }
            let ghost pre = self.nodes@;
            let w = self.reframe(tr, P3::new(ky, kx, 3), 2);
            proof {
                let cur = self.nodes@;
                let ghost b = (depth - 3) as nat;
                lemma_frame_all(pre, cur);
                assert(cells_of(cur, tr.0 as int, depth as nat) == c);
                assert forall|kk: int| 0 <= kk < k implies #[trigger] win_fact(
                    cur,
                    nine@[kk],
                    (depth - 1) as nat,
                    c,
                    nine_y(kk, (depth - 2) as nat),
                    nine_x(kk, (depth - 2) as nat),
                ) by {
                    lemma_win_fact_frame(
                        pre,
                        cur,
                        nine@[kk],
                        (depth - 1) as nat,
                        c,
                        nine_y(kk, (depth - 2) as nat),
                        nine_x(kk, (depth - 2) as nat),
                    );
                }
                // the fresh window is a window of `c`
                lemma_pow2_double(b);
                assert((ky as int) * pow2(b) == nine_y(k as int, (depth - 2) as nat))
                    by (nonlinear_arith)
                    requires
                        ky as int == (k as int / 3) * 2 - 2,
                        pow2((depth - 2) as nat) == 2 * pow2(b),
                        nine_y(k as int, (depth - 2) as nat) == (k as int / 3 - 1) * pow2(
                            (depth - 2) as nat,
                        ),
                ;
                assert((kx as int) * pow2(b) == nine_x(k as int, (depth - 2) as nat))
                    by (nonlinear_arith)
                    requires
                        kx as int == (k as int % 3) * 2 - 2,
                        pow2((depth - 2) as nat) == 2 * pow2(b),
                        nine_x(k as int, (depth - 2) as nat) == (k as int % 3 - 1) * pow2(
                            (depth - 2) as nat,
                        ),
                ;
                let oy = nine_y(k as int, (depth - 2) as nat);
                let ox = nine_x(k as int, (depth - 2) as nat);
                lemma_pow2_pos((depth - 2) as nat);
                assert(0 <= k as int / 3 <= 2 && 0 <= k as int % 3 <= 2);
                assert(-pow2((depth - 2) as nat) <= oy <= pow2((depth - 2) as nat))
                    by (nonlinear_arith)
                    requires
                        oy == (k as int / 3 - 1) * pow2((depth - 2) as nat),
                        0 <= k as int / 3 <= 2,
                        pow2((depth - 2) as nat) >= 1,
                ;
                assert(-pow2((depth - 2) as nat) <= ox <= pow2((depth - 2) as nat))
                    by (nonlinear_arith)
                    requires
                        ox == (k as int % 3 - 1) * pow2((depth - 2) as nat),
                        0 <= k as int % 3 <= 2,
                        pow2((depth - 2) as nat) >= 1,
                ;
                lemma_pow2_double((depth - 2) as nat);
                assert forall|yy: int, xx: int| in_square(yy, xx, (depth - 1) as nat) implies
                    #[trigger] cell_at(cur, w.0 as int, (depth - 1) as nat, yy, xx) == c.contains(
                    (yy + oy, xx + ox),
                ) by {
                    assert(cell_at(cur, w.0 as int, (depth - 1) as nat, yy, xx) == cell_at(
                        pre,
                        tr.0 as int,
                        depth as nat,
                        yy + (ky as int) * pow2(b),
                        xx + (kx as int) * pow2(b),
                    ));
                    assert(in_square(yy + oy, xx + ox, depth as nat));
                    lemma_frame_cell(pre, cur, tr.0 as int, depth as nat, yy + oy, xx + ox);
                    assert(cells_of(pre, tr.0 as int, depth as nat) == c);
                }
                assert(win_fact(cur, w, (depth - 1) as nat, c, oy, ox));
            }
            nine.push(w);
            k = k + 1;
        }
        nine
    }

    /// Advance each of the nine windows by `del1` generations: recursively in
    /// superspeed mode, by taking the centre otherwise.
    fn evolve_nine(&mut self, nine: &Vec<TreeRef>, tr: Ghost<Set<(int, int)>>, depth: usize, s: usize) -> (out: Vec<
        TreeRef,
    >)
        requires
            old(self).wf(),
            3 <= depth,
            2 <= s <= depth,
            nine@.len() == 9,
            forall|k: int|
                0 <= k < 9 ==> #[trigger] win_fact(
                    old(self).nodes@,
                    nine@[k],
                    (depth - 1) as nat,
                    tr@,
                    nine_y(k, (depth - 2) as nat),
                    nine_x(k, (depth - 2) as nat),
                ),
        ensures
            final(self).wf(),
            extends(old(self).nodes@, final(self).nodes@),
            final(self).empty_trees@ == old(self).empty_trees@,
            out@.len() == 9,
            forall|k: int|
                0 <= k < 9 ==> #[trigger] win_fact(
                    final(self).nodes@,
                    out@[k],
                    (depth - 2) as nat,
                    life_n(tr@, del1(depth as int, s as int)),
                    nine_y(k, (depth - 2) as nat),
                    nine_x(k, (depth - 2) as nat),
                ),
        decreases depth, 1int,
    {
        let ghost c = tr@;
        let ghost dd1 = del1(depth as int, s as int);
        let ghost orig = self.nodes@;
        let ghost e0 = self.empty_trees@;
        let mut out: Vec<TreeRef> = Vec::new();
        let mut k: usize = 0;
        while k < 9
            invariant
                self.wf(),
                extends(orig, self.nodes@),
                self.empty_trees@ == e0,
                store_wf(orig),
                3 <= depth,
                2 <= s <= depth,
                nine@.len() == 9,
                out@.len() == k,
                k <= 9,
                dd1 == del1(depth as int, s as int),
                forall|kk: int|
                    k <= kk < 9 ==> #[trigger] win_fact(
                        self.nodes@,
                        nine@[kk],
                        (depth - 1) as nat,
                        c,
                        nine_y(kk, (depth - 2) as nat),
                        nine_x(kk, (depth - 2) as nat),
                    ),
                forall|kk: int|
                    0 <= kk < k ==> #[trigger] win_fact(
                        self.nodes@,
                        out@[kk],
                        (depth - 2) as nat,
                        life_n(c, dd1),
                        nine_y(kk, (depth - 2) as nat),
                        nine_x(kk, (depth - 2) as nat),
                    ),
            decreases 9 - k,
        {
            let ghost pre = self.nodes@;
            let ghost oy = nine_y(k as int, (depth - 2) as nat);
            let ghost ox = nine_x(k as int, (depth - 2) as nat);
            let wk = nine[k];
            proof {
                assert(win_fact(pre, nine@[k as int], (depth - 1) as nat, c, oy, ox));
            }
            let rk: TreeRef;
            if s == depth {
                rk = self.step_rec(wk, depth - 1, s - 1);
                proof {
                    let cur = self.nodes@;
                    lemma_win_fact_frame(pre, cur, wk, (depth - 1) as nat, c, oy, ox);
                    assert(step_post(cur, wk.0 as int, (s - 1) as int, rk.0 as int));
                    assert(pow2((s - 3) as nat) == del1(depth as int, s as int));
                    lemma_window_evolve(cur, wk, (depth - 1) as nat, c, oy, ox, rk, dd1);
                }
            } else {
                proof {
                    lemma2_to64();
                    lemma_pow2_pos((depth - 3) as nat);
                    assert(window_ok(0, 0, 1, 2));
                }
                rk = self.reframe(wk, P3::origin(2), 1);
                proof {
                    let cur = self.nodes@;
                    lemma_win_fact_frame(pre, cur, wk, (depth - 1) as nat, c, oy, ox);
                    let m = wk.0 as int;
                    let ghost b = (depth - 3) as nat;
                    // the centre window shows the same cells, unmoved
                    crate::arith::lemma_pow2_le((depth - 3) as nat, (depth - 2) as nat);
                    assert forall|yy: int, xx: int| in_square(yy, xx, (depth - 2) as nat) implies
                        #[trigger] cell_at(cur, rk.0 as int, (depth - 2) as nat, yy, xx) == life_n(
                        cells_of(cur, m, (depth - 1) as nat),
                        0,
                    ).contains((yy, xx)) by {
                        assert(0 * pow2(b) == 0) by (nonlinear_arith);
                        assert(cell_at(cur, rk.0 as int, (depth - 2) as nat, yy, xx) == cell_at(
                            pre,
                            m,
                            (depth - 1) as nat,
                            yy,
                            xx,
                        ));
                        lemma_frame_cell(pre, cur, m, (depth - 1) as nat, yy, xx);
                        assert(in_square(yy, xx, (depth - 1) as nat));
                    }
                    lemma_window_evolve(cur, wk, (depth - 1) as nat, c, oy, ox, rk, 0);
                }
            }
            proof {
                let cur = self.nodes@;
                assert forall|kk: int| k + 1 <= kk < 9 implies #[trigger] win_fact(
                    cur,
                    nine@[kk],
                    (depth - 1) as nat,
                    c,
                    nine_y(kk, (depth - 2) as nat),
                    nine_x(kk, (depth - 2) as nat),
                ) by {
                    lemma_win_fact_frame(
                        pre,
                        cur,
                        nine@[kk],
                        (depth - 1) as nat,
                        c,
                        nine_y(kk, (depth - 2) as nat),
                        nine_x(kk, (depth - 2) as nat),
                    );
                }
                assert forall|kk: int| 0 <= kk < k implies #[trigger] win_fact(
                    cur,
                    out@[kk],
                    (depth - 2) as nat,
                    life_n(c, dd1),
                    nine_y(kk, (depth - 2) as nat),
                    nine_x(kk, (depth - 2) as nat),
                ) by {
                    lemma_win_fact_frame(
                        pre,
                        cur,
                        out@[kk],
                        (depth - 2) as nat,
                        life_n(c, dd1),
                        nine_y(kk, (depth - 2) as nat),
                        nine_x(kk, (depth - 2) as nat),
                    );
                }
            }
            out.push(rk);
            k = k + 1;
        }
        out
    }

    /// Group the nine advanced windows into four overlapping quadrant trees
    /// and advance each by `del2` generations.
    fn assemble_four(&mut self, nine: &Vec<TreeRef>, tr: Ghost<Set<(int, int)>>, depth: usize, s: usize) -> (out: Vec<
        TreeRef,
    >)
        requires
            old(self).wf(),
            3 <= depth,
            2 <= s <= depth,
            nine@.len() == 9,
            forall|k: int|
                0 <= k < 9 ==> #[trigger] win_fact(
                    old(self).nodes@,
                    nine@[k],
                    (depth - 2) as nat,
                    tr@,
                    nine_y(k, (depth - 2) as nat),
                    nine_x(k, (depth - 2) as nat),
                ),
        ensures
            final(self).wf(),
            extends(old(self).nodes@, final(self).nodes@),
            final(self).empty_trees@ == old(self).empty_trees@,
            out@.len() == 4,
            forall|j: int|
                0 <= j < 4 ==> #[trigger] win_fact(
                    final(self).nodes@,
                    out@[j],
                    (depth - 2) as nat,
                    life_n(tr@, del2(depth as int, s as int)),
                    four_y(j, (depth - 3) as nat),
                    four_x(j, (depth - 3) as nat),
                ),
        decreases depth, 1int,
    {
        let ghost c = tr@;
        let ghost dd2 = del2(depth as int, s as int);
        let ghost orig = self.nodes@;
        let ghost e0 = self.empty_trees@;
        let s2 = if s == depth {
            s - 1
        } else {
            s
        };
        let mut out: Vec<TreeRef> = Vec::new();
        let mut j: usize = 0;
        while j < 4
            invariant
                self.wf(),
                extends(orig, self.nodes@),
                self.empty_trees@ == e0,
                store_wf(orig),
                3 <= depth,
                2 <= s <= depth,
                s2 == (if s == depth { s - 1 } else { s as int }),
                nine@.len() == 9,
                out@.len() == j,
                j <= 4,
                dd2 == del2(depth as int, s as int),
                forall|kk: int|
                    0 <= kk < 9 ==> #[trigger] win_fact(
                        self.nodes@,
                        nine@[kk],
                        (depth - 2) as nat,
                        c,
                        nine_y(kk, (depth - 2) as nat),
                        nine_x(kk, (depth - 2) as nat),
                    ),
                forall|jj: int|
                    0 <= jj < j ==> #[trigger] win_fact(
                        self.nodes@,
                        out@[jj],
                        (depth - 2) as nat,
                        life_n(c, dd2),
                        four_y(jj, (depth - 3) as nat),
                        four_x(jj, (depth - 3) as nat),
                    ),
            decreases 4 - j,
        {
            let base = (j / 2) * 3 + (j % 2);
            let ghost cy = four_y(j as int, (depth - 3) as nat);
            let ghost cx = four_x(j as int, (depth - 3) as nat);
            let ghost pre = self.nodes@;
            let ghost e2 = (depth - 2) as nat;
            proof {
                assert(base + 4 < 9);
                assert(win_fact(pre, nine@[base as int], (depth - 2) as nat, c,
                    nine_y(base as int, e2), nine_x(base as int, e2)));
                assert(win_fact(pre, nine@[base as int + 1], (depth - 2) as nat, c,
                    nine_y(base as int + 1, e2), nine_x(base as int + 1, e2)));
                assert(win_fact(pre, nine@[base as int + 3], (depth - 2) as nat, c,
                    nine_y(base as int + 3, e2), nine_x(base as int + 3, e2)));
                assert(win_fact(pre, nine@[base as int + 4], (depth - 2) as nat, c,
                    nine_y(base as int + 4, e2), nine_x(base as int + 4, e2)));
                assert(tree_valid(pre, Tree::Branch {
                    nw: nine@[base as int],
                    ne: nine@[base as int + 1],
                    sw: nine@[base as int + 3],
                    se: nine@[base as int + 4],
                }));
            }
            let tj = self.canonicalise(
                Tree::Branch {
                    nw: nine[base],
                    ne: nine[base + 1],
                    sw: nine[base + 3],
                    se: nine[base + 4],
                },
            );
            proof {
                let cur = self.nodes@;
                assert forall|kk: int| 0 <= kk < 9 implies #[trigger] win_fact(
                    cur,
                    nine@[kk],
                    (depth - 2) as nat,
                    c,
                    nine_y(kk, (depth - 2) as nat),
                    nine_x(kk, (depth - 2) as nat),
                ) by {
                    lemma_win_fact_frame(
                        pre,
                        cur,
                        nine@[kk],
                        (depth - 2) as nat,
                        c,
                        nine_y(kk, (depth - 2) as nat),
                        nine_x(kk, (depth - 2) as nat),
                    );
                }
                assert forall|jj: int| 0 <= jj < j implies #[trigger] win_fact(
                    cur,
                    out@[jj],
                    (depth - 2) as nat,
                    life_n(c, dd2),
                    four_y(jj, (depth - 3) as nat),
                    four_x(jj, (depth - 3) as nat),
                ) by {
                    lemma_win_fact_frame(
                        pre,
                        cur,
                        out@[jj],
                        (depth - 2) as nat,
                        life_n(c, dd2),
                        four_y(jj, (depth - 3) as nat),
                        four_x(jj, (depth - 3) as nat),
                    );
                }
                // offsets of the four children match the grouping's centre
                let e3 = (depth - 3) as nat;
                lemma_pow2_double(e3);
                assert((j as int) / 2 == (base as int) / 3 && (j as int) % 2 == (base as int) % 3)
                    by {
                    assert(base as int == (j as int / 2) * 3 + (j as int % 2));
                }
                assert(nine_y(base as int, e2) == cy - pow2(e3)) by (nonlinear_arith)
                    requires
                        nine_y(base as int, e2) == (base as int / 3 - 1) * pow2(e2),
                        cy == (j as int / 2 * 2 - 1) * pow2(e3),
                        pow2(e2) == 2 * pow2(e3),
                        base as int / 3 == j as int / 2,
                ;
                assert(nine_x(base as int, e2) == cx - pow2(e3)) by (nonlinear_arith)
                    requires
                        nine_x(base as int, e2) == (base as int % 3 - 1) * pow2(e2),
                        cx == (j as int % 2 * 2 - 1) * pow2(e3),
                        pow2(e2) == 2 * pow2(e3),
                        base as int % 3 == j as int % 2,
                ;
                assert((base + 1) as int / 3 == j as int / 2 && (base + 1) as int % 3 == j as int
                    % 2 + 1);
                assert((base + 3) as int / 3 == j as int / 2 + 1 && (base + 3) as int % 3 == j
                    as int % 2);
                assert((base + 4) as int / 3 == j as int / 2 + 1 && (base + 4) as int % 3 == j
                    as int % 2 + 1);
                assert(nine_y(base as int + 1, e2) == cy - pow2(e3) && nine_x(base as int + 1, e2)
                    == cx + pow2(e3)) by (nonlinear_arith)
                    requires
                        nine_y(base as int + 1, e2) == ((base + 1) as int / 3 - 1) * pow2(e2),
                        nine_x(base as int + 1, e2) == ((base + 1) as int % 3 - 1) * pow2(e2),
                        (base + 1) as int / 3 == j as int / 2,
                        (base + 1) as int % 3 == j as int % 2 + 1,
                        cy == (j as int / 2 * 2 - 1) * pow2(e3),
                        cx == (j as int % 2 * 2 - 1) * pow2(e3),
                        pow2(e2) == 2 * pow2(e3),
                ;
                assert(nine_y(base as int + 3, e2) == cy + pow2(e3) && nine_x(base as int + 3, e2)
                    == cx - pow2(e3)) by (nonlinear_arith)
                    requires
                        nine_y(base as int + 3, e2) == ((base + 3) as int / 3 - 1) * pow2(e2),
                        nine_x(base as int + 3, e2) == ((base + 3) as int % 3 - 1) * pow2(e2),
                        (base + 3) as int / 3 == j as int / 2 + 1,
                        (base + 3) as int % 3 == j as int % 2,
                        cy == (j as int / 2 * 2 - 1) * pow2(e3),
                        cx == (j as int % 2 * 2 - 1) * pow2(e3),
                        pow2(e2) == 2 * pow2(e3),
                ;
                assert(nine_y(base as int + 4, e2) == cy + pow2(e3) && nine_x(base as int + 4, e2)
                    == cx + pow2(e3)) by (nonlinear_arith)
                    requires
                        nine_y(base as int + 4, e2) == ((base + 4) as int / 3 - 1) * pow2(e2),
                        nine_x(base as int + 4, e2) == ((base + 4) as int % 3 - 1) * pow2(e2),
                        (base + 4) as int / 3 == j as int / 2 + 1,
                        (base + 4) as int % 3 == j as int % 2 + 1,
                        cy == (j as int / 2 * 2 - 1) * pow2(e3),
                        cx == (j as int % 2 * 2 - 1) * pow2(e3),
                        pow2(e2) == 2 * pow2(e3),
                ;
                assert(cur[tj.0 as int] == (Tree::Branch {
                    nw: nine@[base as int],
                    ne: nine@[base as int + 1],
                    sw: nine@[base as int + 3],
                    se: nine@[base as int + 4],
                }));
                assert(depth_at(cur, tj.0 as int) == (depth - 1) as nat);
                assert(win_fact(cur, nine@[base as int], (depth - 2) as nat, c, cy - pow2(e3), cx - pow2(e3)));
                assert(win_fact(cur, nine@[base as int + 1], (depth - 2) as nat, c, cy - pow2(e3), cx + pow2(e3)));
                assert(win_fact(cur, nine@[base as int + 3], (depth - 2) as nat, c, cy + pow2(e3), cx - pow2(e3)));
                assert(win_fact(cur, nine@[base as int + 4], (depth - 2) as nat, c, cy + pow2(e3), cx + pow2(e3)));
                lemma_quad_assemble(cur, tj, c, cy, cx, (depth - 1) as nat);
            }
            let ghost mid = self.nodes@;
            let uj = self.step_rec(tj, depth - 1, s2);
            proof {
                let cur = self.nodes@;
                lemma_win_fact_frame(mid, cur, tj, (depth - 1) as nat, c, cy, cx);
                assert(step_post(cur, tj.0 as int, s2 as int, uj.0 as int));
                assert(pow2((s2 - 2) as nat) == dd2);
                if s != depth {
                    crate::arith::lemma_pow2_le((s2 - 2) as nat, (depth - 3) as nat);
                }
                lemma_window_evolve(cur, tj, (depth - 1) as nat, c, cy, cx, uj, dd2);
                assert forall|kk: int| 0 <= kk < 9 implies #[trigger] win_fact(
                    cur,
                    nine@[kk],
                    (depth - 2) as nat,
                    c,
                    nine_y(kk, (depth - 2) as nat),
                    nine_x(kk, (depth - 2) as nat),
                ) by {
                    lemma_win_fact_frame(
                        mid,
                        cur,
                        nine@[kk],
                        (depth - 2) as nat,
                        c,
                        nine_y(kk, (depth - 2) as nat),
                        nine_x(kk, (depth - 2) as nat),
                    );
                }
                assert forall|jj: int| 0 <= jj < j implies #[trigger] win_fact(
                    cur,
                    out@[jj],
                    (depth - 2) as nat,
                    life_n(c, dd2),
                    four_y(jj, (depth - 3) as nat),
                    four_x(jj, (depth - 3) as nat),
                ) by {
                    lemma_win_fact_frame(
                        mid,
                        cur,
                        out@[jj],
                        (depth - 2) as nat,
                        life_n(c, dd2),
                        four_y(jj, (depth - 3) as nat),
                        four_x(jj, (depth - 3) as nat),
                    );
                }
            }
            out.push(uj);
            j = j + 1;
        }
        out
    }

    /// One recursive step: the depth-`(depth-1)` centre of `tr`, advanced by
    /// `2^(s-2)` generations, memoised on `(tr, s)`.
    fn step_rec(&mut self, tr: TreeRef, depth: usize, s: usize) -> (r: TreeRef)
        requires
            old(self).wf(),
            old(self).valid(tr),
            old(self).depth_of(tr) == depth,
            2 <= s <= depth,
        ensures
            final(self).wf(),
            extends(old(self).nodes@, final(self).nodes@),
            final(self).empty_trees@ == old(self).empty_trees@,
            final(self).valid(r),
            step_post(final(self).nodes@, tr.0 as int, s as int, r.0 as int),
            final(self).next_gen@.contains_key(memo_key(tr.0 as int, s as int)),
            final(self).next_gen@[memo_key(tr.0 as int, s as int)] == r,
        decreases depth, 2int,
    {
        let ghost c = cells_of(old(self).nodes@, tr.0 as int, depth as nat);
        let key: u128 = (tr.0 as u128) * 0x1_0000_0000_0000_0000u128 + (s as u128);
        proof {
            assert(((tr.0 as int) * 0x1_0000_0000_0000_0000 + (s as int))
                < 0x1_0000_0000_0000_0000_0000_0000_0000_0000int) by (nonlinear_arith)
                requires
                    0 <= (tr.0 as int) < 0x1_0000_0000_0000_0000,
                    0 <= (s as int) < 0x1_0000_0000_0000_0000,
            ;
            assert(key == memo_key(tr.0 as int, s as int));
        }
        let cached = match self.next_gen.get(&key) {
            Some(m) => Some(*m),
            None => None,
        };
        if let Some(m) = cached {
            proof {
                assert(self.next_gen@.contains_key(memo_key(tr.0 as int, s as int)));
                assert(self.next_gen@[memo_key(tr.0 as int, s as int)] == m);
                assert(step_post(self.nodes@, tr.0 as int, s as int, m.0 as int));
            }
            return m;
        }
        let r: TreeRef;
        if depth == 2 {
            let mask = self.make_l2_bitmask(tr);
            r = self.l2_gen(mask);
            proof {
                let post = self.nodes@;
                lemma_frame_all(old(self).nodes@, post);
                lemma2_to64();
                assert(mask_cells(mask) =~= c);
                assert(life_n(c, 1) == life(life_n(c, 0)));
                assert(life_n(c, 0) == c);
                assert forall|y: int, x: int| in_square(y, x, 1) implies #[trigger] cell_at(
                    post,
                    r.0 as int,
                    1,
                    y,
                    x,
                ) == life_n(cells_of(post, tr.0 as int, 2), pow2((s - 2) as nat)).contains(
                    (y, x),
                ) by {
                    assert(cell_at(post, r.0 as int, 1, y, x) == next_alive(mask_cells(mask), y, x));
                    assert(next_alive(c, y, x) == life(c).contains((y, x)));
                    assert(cells_of(post, tr.0 as int, 2) == c);
                }
                assert(step_post(post, tr.0 as int, s as int, r.0 as int));
            }
        } else {
            let nine = self.windows9(tr, depth);
            let nine2 = self.evolve_nine(&nine, Ghost(c), depth, s);
            let four = self.assemble_four(&nine2, Ghost(life_n(c, del1(depth as int, s as int))), depth, s);
            let ghost g3 = self.nodes@;
            let f0 = four[0];
            let f1 = four[1];
            let f2 = four[2];
            let f3 = four[3];
            proof {
                let ghost dd1 = del1(depth as int, s as int);
                let ghost dd2 = del2(depth as int, s as int);
                let ghost fin = life_n(life_n(c, dd1), dd2);
                let e3 = (depth - 3) as nat;
                assert(win_fact(g3, four@[0], (depth - 2) as nat, fin, four_y(0, e3), four_x(0, e3)));
                assert(win_fact(g3, four@[1], (depth - 2) as nat, fin, four_y(1, e3), four_x(1, e3)));
                assert(win_fact(g3, four@[2], (depth - 2) as nat, fin, four_y(2, e3), four_x(2, e3)));
                assert(win_fact(g3, four@[3], (depth - 2) as nat, fin, four_y(3, e3), four_x(3, e3)));
                assert(tree_valid(g3, Tree::Branch { nw: f0, ne: f1, sw: f2, se: f3 }));
            }
            r = self.canonicalise(Tree::Branch { nw: f0, ne: f1, sw: f2, se: f3 });
            proof {
                let post = self.nodes@;
                let ghost dd1 = del1(depth as int, s as int);
                let ghost dd2 = del2(depth as int, s as int);
                let ghost t1 = life_n(c, dd1);
                let ghost fin = life_n(t1, dd2);
                assert forall|jj: int| 0 <= jj < 4 implies #[trigger] win_fact(
                    post,
                    four@[jj],
                    (depth - 2) as nat,
                    fin,
                    four_y(jj, (depth - 3) as nat),
                    four_x(jj, (depth - 3) as nat),
                ) by {
                    lemma_win_fact_frame(
                        g3,
                        post,
                        four@[jj],
                        (depth - 2) as nat,
                        fin,
                        four_y(jj, (depth - 3) as nat),
                        four_x(jj, (depth - 3) as nat),
                    );
                }
                lemma_pow2_pos((depth - 3) as nat);
                assert(four_y(0, (depth - 3) as nat) == -pow2((depth - 3) as nat)
                    && four_x(0, (depth - 3) as nat) == -pow2((depth - 3) as nat))
                    by (nonlinear_arith)
                    requires
                        four_y(0, (depth - 3) as nat) == (0int / 2 * 2 - 1) * pow2((depth - 3) as nat),
                        four_x(0, (depth - 3) as nat) == (0int % 2 * 2 - 1) * pow2((depth - 3) as nat),
                ;
                assert(four_y(1, (depth - 3) as nat) == -pow2((depth - 3) as nat)
                    && four_x(1, (depth - 3) as nat) == pow2((depth - 3) as nat))
                    by (nonlinear_arith)
                    requires
                        four_y(1, (depth - 3) as nat) == (1int / 2 * 2 - 1) * pow2((depth - 3) as nat),
                        four_x(1, (depth - 3) as nat) == (1int % 2 * 2 - 1) * pow2((depth - 3) as nat),
                ;
                assert(four_y(2, (depth - 3) as nat) == pow2((depth - 3) as nat)
                    && four_x(2, (depth - 3) as nat) == -pow2((depth - 3) as nat))
                    by (nonlinear_arith)
                    requires
                        four_y(2, (depth - 3) as nat) == (2int / 2 * 2 - 1) * pow2((depth - 3) as nat),
                        four_x(2, (depth - 3) as nat) == (2int % 2 * 2 - 1) * pow2((depth - 3) as nat),
                ;
                assert(four_y(3, (depth - 3) as nat) == pow2((depth - 3) as nat)
                    && four_x(3, (depth - 3) as nat) == pow2((depth - 3) as nat))
                    by (nonlinear_arith)
                    requires
                        four_y(3, (depth - 3) as nat) == (3int / 2 * 2 - 1) * pow2((depth - 3) as nat),
                        four_x(3, (depth - 3) as nat) == (3int % 2 * 2 - 1) * pow2((depth - 3) as nat),
                ;
                assert(post[r.0 as int] == (Tree::Branch { nw: f0, ne: f1, sw: f2, se: f3 }));
                assert(win_fact(post, four@[0], (depth - 2) as nat, fin, four_y(0, (depth - 3) as nat), four_x(0, (depth - 3) as nat)));
                assert(depth_at(post, r.0 as int) == (depth - 1) as nat);
                lemma_quad_assemble(post, r, fin, 0, 0, (depth - 1) as nat);
                // the two phases compose to the full 2^(s-2) generations
                lemma_life_n_add(c, dd1, dd2);
                if s == depth {
                    lemma_pow2_double((s - 3) as nat);
                }
                assert(dd1 + dd2 == pow2((s - 2) as nat));
                assert(fin == life_n(c, pow2((s - 2) as nat)));
                lemma_frame_all(old(self).nodes@, post);
                assert(cells_of(post, tr.0 as int, depth as nat) == c);
                assert forall|y: int, x: int| in_square(y, x, (depth - 1) as nat) implies
                    #[trigger] cell_at(post, r.0 as int, (depth - 1) as nat, y, x) == life_n(
                    cells_of(post, tr.0 as int, depth as nat),
                    pow2((s - 2) as nat),
                ).contains((y, x)) by {
                    assert(cell_at(post, r.0 as int, (depth - 1) as nat, y, x) == fin.contains(
                        (y + 0, x + 0),
                    ));
                }
                assert(step_post(post, tr.0 as int, s as int, r.0 as int));
            }
        }
        let ghost before = self.next_gen@;
        let ghost nodes_now = self.nodes@;
        self.next_gen.insert(key, r);
        proof {
            assert(self.next_gen@ == before.insert(key, r));
            assert forall|i: int, s2: int|
                0 <= i < 0x1_0000_0000_0000_0000 && 0 <= s2 < 0x1_0000_0000_0000_0000
                    && #[trigger] self.next_gen@.contains_key(memo_key(i, s2)) implies {
                &&& i < nodes_now.len()
                &&& step_post(nodes_now, i, s2, self.next_gen@[memo_key(i, s2)].0 as int)
            } by {
                if memo_key(i, s2) == key {
                    lemma_memo_key_injective(i, s2, tr.0 as int, s as int);
                    assert(i == tr.0 as int && s2 == s as int);
                    assert(self.next_gen@[memo_key(i, s2)] == r);
                } else {
                    assert(before.contains_key(memo_key(i, s2)));
                    assert(self.next_gen@[memo_key(i, s2)] == before[memo_key(i, s2)]);
                }
            }
            assert(memo_ok(self.next_gen@, self.nodes@));
        }
        r
    }

    /// Advance the centre of `tr` by `2^(min(depth, superspeed_depth) - 2)`
    /// generations, one level shallower. The effective superspeed level is
    /// part of the memo key, so cached results from other calls stay sound.
    pub fn step(&mut self, tr: TreeRef, depth: usize, superspeed_depth: usize) -> (r: TreeRef)
        requires
            old(self).wf(),
            old(self).valid(tr),
            old(self).depth_of(tr) == depth,
            2 <= depth,
            2 <= superspeed_depth,
        ensures
            final(self).wf(),
            extends(old(self).nodes@, final(self).nodes@),
            final(self).empty_trees@ == old(self).empty_trees@,
            final(self).valid(r),
            step_post(
                final(self).nodes@,
                tr.0 as int,
                if superspeed_depth < depth {
                    superspeed_depth as int
                } else {
                    depth as int
                },
                r.0 as int,
            ),
            final(self).next_gen@.contains_key(
                memo_key(
                    tr.0 as int,
                    if superspeed_depth < depth {
                        superspeed_depth as int
                    } else {
                        depth as int
                    },
                ),
            ),
            final(self).next_gen@[memo_key(
                tr.0 as int,
                if superspeed_depth < depth {
                    superspeed_depth as int
                } else {
                    depth as int
                },
            )] == r,
    {
        let s = if superspeed_depth < depth {
            superspeed_depth
        } else {
            depth
        };
        self.step_rec(tr, depth, s)
    }
}

} // verus!
