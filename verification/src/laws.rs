//! The library's stated laws, each proved once and for all: canonicalisation,
//! population soundness, idempotence of expanding the empty tree, agreement
//! of superspeed stepping with single generations, and population
//! conservation for periodic patterns.

use vstd::prelude::*;
use vstd::arithmetic::power2::pow2;
use crate::p3::in_square;
use crate::life::{life, life_n, lemma_life_n_add, shift};
use crate::pattern::{
    cell_set, is_min_x, lemma_min_x_unique, lemma_raw_row_shift, lemma_render_scan,
    lemma_sorted_spec_is_sort, lemma_sorted_unique_eq, lex_le, no_dup, raw_cells, render_from,
    sorted_spec, suffix_cells,
};
use crate::universe::{
    Tree, TreeRef, Universe, cell_at, cells_of, depth_at, lemma_canonical_unique,
    lemma_child_depth, lemma_pop_zero_dead, node_ok, pop_at, sat64,
};
use crate::hashlife::{lemma_pop_is_card, lemma_pop_pos_cell};

verus! {

/// Canonicalisation: no value is ever stored twice, so two handles bearing
/// one structural value are one handle. Holds after any sequence of
/// operations, because every operation keeps the store well formed.
pub proof fn lemma_canonicalisation(u: Universe, a: TreeRef, b: TreeRef)
    requires
        u.wf(),
        u.valid(a),
        u.valid(b),
        u.node_of(a) == u.node_of(b),
    ensures
        a == b,
{
    lemma_canonical_unique(u, a, b);
}

/// Population correctness: the cached population of every reachable handle
/// is the count of live cells in its subtree (saturated at the machine
/// limit), and in particular it is zero exactly when no cell is live.
pub proof fn lemma_population_correct(u: Universe, t: TreeRef)
    requires
        u.wf(),
        u.valid(t),
    ensures
        u.populations@[t.0 as int] as nat == sat64(pop_at(u.nodes@, t.0 as int)),
        (pop_at(u.nodes@, t.0 as int) == 0) <==> (forall|y: int, x: int|
            in_square(y, x, u.depth_of(t)) ==> !(#[trigger] cell_at(
                u.nodes@,
                t.0 as int,
                u.depth_of(t),
                y,
                x,
            ))),
{
    if pop_at(u.nodes@, t.0 as int) == 0 {
        assert forall|y: int, x: int| in_square(y, x, u.depth_of(t)) implies !(#[trigger] cell_at(
            u.nodes@,
            t.0 as int,
            u.depth_of(t),
            y,
            x,
        )) by {
            lemma_pop_zero_dead(u.nodes@, t.0 as int, u.depth_of(t), y, x);
        }
    } else {
        lemma_pop_pos_cell(u.nodes@, t.0 as int, u.depth_of(t));
    }
}

/// Population is the cell count: the live-cell set of any reachable handle
/// is finite and its size is exactly the subtree's population. With this,
/// the cached population equals the number of iterated cells, and a pattern
/// that returns to itself returns to its population.
pub proof fn lemma_population_is_cell_count(u: Universe, t: TreeRef)
    requires
        u.wf(),
        u.valid(t),
    ensures
        cells_of(u.nodes@, t.0 as int, u.depth_of(t)).finite(),
        pop_at(u.nodes@, t.0 as int) == cells_of(u.nodes@, t.0 as int, u.depth_of(t)).len(),
{
    lemma_pop_is_card(u.nodes@, t.0 as int, u.depth_of(t));
}

/// Empty idempotence: an all-dead tree of a given depth is canonical, so it
/// is the table's empty tree of that depth. Together with the contract of
/// `expand_universe` — which keeps the population zero and raises the depth
/// by one — this says that expanding the empty tree of depth `z` yields
/// exactly the empty tree of depth `z + 1`.
pub proof fn lemma_empty_idempotence(u: Universe, t: TreeRef, z: nat)
    requires
        u.wf(),
        u.valid(t),
        u.depth_of(t) == z,
        pop_at(u.nodes@, t.0 as int) == 0,
        z < u.empty_trees@.len(),
    ensures
        t == u.empty_trees@[z as int],
    decreases z,
{
    let nodes = u.nodes@;
    let i = t.0 as int;
    assert(node_ok(nodes, i));
    let e = u.empty_trees@[z as int];
    if z == 0 {
        match nodes[i] {
            Tree::Leaf { alive } => {
                assert(!alive);
                assert(u.node_of(t) == u.node_of(e));
                lemma_canonical_unique(u, t, e);
            },
            Tree::Branch { .. } => {},
        }
    } else {
        match nodes[i] {
            Tree::Leaf { .. } => {
                assert(depth_at(nodes, i) == 0);
            },
            Tree::Branch { nw, ne, sw, se } => {
                lemma_child_depth(nodes, i, 0);
                lemma_child_depth(nodes, i, 1);
                lemma_child_depth(nodes, i, 2);
                lemma_child_depth(nodes, i, 3);
                lemma_empty_idempotence(u, nw, (z - 1) as nat);
                lemma_empty_idempotence(u, ne, (z - 1) as nat);
                lemma_empty_idempotence(u, sw, (z - 1) as nat);
                lemma_empty_idempotence(u, se, (z - 1) as nat);
                assert(u.node_of(t) == u.node_of(e));
                lemma_canonical_unique(u, t, e);
            },
        }
    }
}



/// Display depends on the cell set alone: two duplicate-free cell lists with
/// the same cells sort to one list, share one left margin, and render to one
/// text. With the scan law below and the pinned parse contracts, a
/// normalised pattern text — one that is the rendering of its own cells —
/// comes back unchanged from a parse followed by a display.
pub proof fn lemma_display_determined(v: Seq<(i64, i64)>, w: Seq<(i64, i64)>, xv: int, xw: int)
    requires
        no_dup(v),
        no_dup(w),
        cell_set(v) == cell_set(w),
        v.len() > 0,
        is_min_x(sorted_spec(v), xv),
        is_min_x(sorted_spec(w), xw),
    ensures
        sorted_spec(v) == sorted_spec(w),
        xv == xw,
        render_from(sorted_spec(v), xv, 0, sorted_spec(v)[0].0 as int, xv) == render_from(
            sorted_spec(w),
            xw,
            0,
            sorted_spec(w)[0].0 as int,
            xw,
        ),
{
    broadcast use vstd::seq_lib::group_to_multiset_ensures;

    lemma_sorted_spec_is_sort(v);
    lemma_sorted_spec_is_sort(w);
    let sv = sorted_spec(v);
    let sw = sorted_spec(w);
    assert(v.no_duplicates());
    assert(w.no_duplicates());
    v.lemma_multiset_has_no_duplicates();
    w.lemma_multiset_has_no_duplicates();
    sv.lemma_multiset_has_no_duplicates_conv();
    sw.lemma_multiset_has_no_duplicates_conv();
    assert(no_dup(sv));
    assert(no_dup(sw));
    assert forall|p: (i64, i64)| sv.contains(p) <==> #[trigger] sw.contains(p) by {
        if sv.contains(p) {
            assert(v.to_multiset().count(p) > 0);
            assert(v.contains(p));
            let i = choose|i: int| 0 <= i < v.len() && v[i] == p;
            assert(cell_set(v).contains((p.0 as int, p.1 as int)));
            assert(cell_set(w).contains((p.0 as int, p.1 as int)));
            let j = choose|j: int|
                0 <= j < w.len() && (#[trigger] w[j]).0 == p.0 as int && w[j].1 == p.1 as int;
            assert(w[j] == p);
            assert(w.contains(p));
            assert(sw.to_multiset().count(p) > 0);
        }
        if sw.contains(p) {
            assert(w.to_multiset().count(p) > 0);
            assert(w.contains(p));
            let i = choose|i: int| 0 <= i < w.len() && w[i] == p;
            assert(cell_set(w).contains((p.0 as int, p.1 as int)));
            assert(cell_set(v).contains((p.0 as int, p.1 as int)));
            let j = choose|j: int|
                0 <= j < v.len() && (#[trigger] v[j]).0 == p.0 as int && v[j].1 == p.1 as int;
            assert(v[j] == p);
            assert(v.contains(p));
            assert(sv.to_multiset().count(p) > 0);
        }
    }
    lemma_sorted_unique_eq(sv, sw);
    lemma_min_x_unique(sv, xv, xw);
}

/// Parser/display round trip: the text rendered from a sorted, duplicate-free
/// cell list scans back to exactly those cells, translated so the bounding
/// box's top-left corner sits at the origin. Through the contracts of
/// `to_string` (which renders the sorted cells) and `from_str` (which scans
/// the text and then normalises), displaying a pattern and parsing it back
/// yields the pattern, normalised.
pub proof fn lemma_parse_display_round_trip(s: Seq<(i64, i64)>, x0: int)
    requires
        s.len() > 0,
        forall|a: int, b: int| 0 <= a < b < s.len() ==> lex_le(#[trigger] s[a], #[trigger] s[b]),
        no_dup(s),
        is_min_x(s, x0),
    ensures
        raw_cells(render_from(s, x0, 0, s[0].0 as int, x0), 0, 0, 0) == shift(
            cell_set(s),
            -(s[0].0 as int),
            -x0,
        ),
{
    let cy0 = s[0].0 as int;
    let out = render_from(s, x0, 0, cy0, x0);
    assert(s[0].1 >= x0);
    lemma_render_scan(s, x0, 0, cy0, x0);
    assert(raw_cells(out, 0, cy0, 0) == suffix_cells(s, 0, x0));
    lemma_raw_row_shift(out, 0, 0, cy0, 0);
    assert(raw_cells(out, 0, 0, 0) == shift(raw_cells(out, 0, cy0, 0), -cy0, 0));
    let lhs = shift(suffix_cells(s, 0, x0), -cy0, 0);
    let rhs = shift(cell_set(s), -cy0, -x0);
    assert forall|q: (int, int)| #[trigger] lhs.contains(q) == rhs.contains(q) by {
        if suffix_cells(s, 0, x0).contains((q.0 + cy0, q.1)) {
            let j = choose|j: int|
                0 <= j < s.len() && (#[trigger] s[j]).0 == q.0 + cy0 && s[j].1 - x0 == q.1;
            assert(cell_set(s).contains((q.0 + cy0, q.1 + x0)));
        }
        if cell_set(s).contains((q.0 + cy0, q.1 + x0)) {
            let j = choose|j: int|
                0 <= j < s.len() && (#[trigger] s[j]).0 == q.0 + cy0 && s[j].1 == q.1 + x0;
            assert(suffix_cells(s, 0, x0).contains((q.0 + cy0, q.1)));
        }
    }
    assert(lhs =~= rhs);
}

/// Single generations, iterated from the front.
pub open spec fn life_iter(s: Set<(int, int)>, n: nat) -> Set<(int, int)>
    decreases n,
{
    if n == 0 {
        s
    } else {
        life_iter(life(s), (n - 1) as nat)
    }
}

/// Step agreement: `n` generations computed at once equal `n` single
/// generations applied one after the other. With the contracts of
/// `HashLife::step` (which advances by `life_n(-, 2^k)`) and `State::step`
/// (which advances by `life`), this says the tree engine after `n` single
/// steps agrees with the counting reference after `n` steps.
pub proof fn lemma_step_agreement(s: Set<(int, int)>, n: nat)
    ensures
        life_n(s, n) == life_iter(s, n),
        life_n(s, 1) == life(s),
    decreases n,
{
    assert(life_n(s, 1) == life(life_n(s, 0)));
    if n > 0 {
        lemma_step_agreement(life(s), (n - 1) as nat);
        lemma_life_n_add(s, 1, (n - 1) as nat);
        assert(life_n(s, n) == life_n(life_n(s, 1), (n - 1) as nat));
    }
}

/// Superspeed equivalence: one step by `2^k` generations is `2^k` single
/// steps. With `HashLife::step`'s contract this is exactly: `step(k)` once
/// equals `step(0)` applied `2^k` times, as sets of live cells.
pub proof fn lemma_superspeed_equivalence(s: Set<(int, int)>, k: nat)
    ensures
        life_n(s, pow2(k)) == life_iter(s, pow2(k)),
{
    lemma_step_agreement(s, pow2(k));
}

/// Population conservation for periodic patterns: a pattern that returns to
/// itself after `p` generations is itself after any whole number of periods,
/// so in particular its population then equals its initial population.
pub proof fn lemma_periodic_conservation(s: Set<(int, int)>, p: nat, j: nat)
    requires
        life_n(s, p) == s,
    ensures
        life_n(s, (j * p) as nat) == s,
    decreases j,
{
    if j == 0 {
        assert(j * p == 0) by (nonlinear_arith)
            requires
                j == 0,
        ;
    } else {
        lemma_periodic_conservation(s, p, (j - 1) as nat);
        assert(j * p == (j - 1) * p + p) by (nonlinear_arith);
        lemma_life_n_add(s, ((j - 1) * p) as nat, p);
        assert(life_n(s, (j * p) as nat) == life_n(life_n(s, ((j - 1) * p) as nat), p));
    }
}

} // verus!
