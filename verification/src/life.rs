//! The mathematical semantics the engine is verified against: one generation
//! of Conway's Life (rule B3/S23) as a transformer of sets of live cells,
//! its n-fold iterate, and the locality, translation and growth lemmas that
//! the step engine's correctness proof rests on.

use vstd::prelude::*;

verus! {

pub open spec fn iabs(a: int) -> int {
    if a < 0 { -a } else { a }
}

pub open spec fn occ(s: Set<(int, int)>, y: int, x: int) -> int {
    if s.contains((y, x)) { 1 } else { 0 }
}

/// How many of the eight neighbours of `(y, x)` are live in `s`.
pub open spec fn neighbour_count(s: Set<(int, int)>, y: int, x: int) -> int {
    occ(s, y - 1, x - 1) + occ(s, y - 1, x) + occ(s, y - 1, x + 1) + occ(s, y, x - 1) + occ(
        s,
        y,
        x + 1,
    ) + occ(s, y + 1, x - 1) + occ(s, y + 1, x) + occ(s, y + 1, x + 1)
}

/// B3/S23: birth on three neighbours, survival on two or three.
pub open spec fn rule(alive: bool, n: int) -> bool {
    if alive { n == 2 || n == 3 } else { n == 3 }
}

pub open spec fn next_alive(s: Set<(int, int)>, y: int, x: int) -> bool {
    rule(s.contains((y, x)), neighbour_count(s, y, x))
}

/// One generation on the unbounded grid.
pub open spec fn life(s: Set<(int, int)>) -> Set<(int, int)> {
    Set::new(|p: (int, int)| next_alive(s, p.0, p.1))
}

/// `n` generations.
pub open spec fn life_n(s: Set<(int, int)>, n: nat) -> Set<(int, int)>
    decreases n,
{
    if n == 0 { s } else { life(life_n(s, (n - 1) as nat)) }
}

/// Generations compose: `a + b` generations are `a` generations then `b`.
pub proof fn lemma_life_n_add(s: Set<(int, int)>, a: nat, b: nat)
    ensures
        life_n(s, a + b) == life_n(life_n(s, a), b),
    decreases b,
{
    if b == 0 {
    } else {
        lemma_life_n_add(s, a, (b - 1) as nat);
        assert(life_n(s, a + b) == life(life_n(s, (a + b - 1) as nat)));
    }
}

/// The two sets agree on the centred square of half-side `r` about `(cy, cx)`
/// (closed box, L-infinity radius `r`).
pub open spec fn agree_within(
    s1: Set<(int, int)>,
    s2: Set<(int, int)>,
    cy: int,
    cx: int,
    r: int,
) -> bool {
    forall|p: (int, int)|
        iabs(p.0 - cy) <= r && iabs(p.1 - cx) <= r ==> (s1.contains(p) <==> #[trigger] s2.contains(
            p,
        ))
}

/// Locality: Life runs at speed one, so after `k` generations a cell depends
/// only on the cells within distance `k` of it. If two sets agree on a box of
/// radius `m` then their `k`-step evolutions agree on the box of radius `m - k`.
pub proof fn lemma_life_n_local(
    s1: Set<(int, int)>,
    s2: Set<(int, int)>,
    cy: int,
    cx: int,
    m: int,
    k: nat,
)
    requires
        k <= m,
        agree_within(s1, s2, cy, cx, m),
    ensures
        agree_within(life_n(s1, k), life_n(s2, k), cy, cx, m - k),
    decreases k,
{
    if k == 0 {
    } else {
        let k1 = (k - 1) as nat;
        lemma_life_n_local(s1, s2, cy, cx, m, k1);
        let a = life_n(s1, k1);
        let b = life_n(s2, k1);
        assert forall|p: (int, int)|
            iabs(p.0 - cy) <= m - k && iabs(p.1 - cx) <= m - k implies (life_n(
            s1,
            k,
        ).contains(p) <==> #[trigger] life_n(s2, k).contains(p)) by {
            let (y, x) = (p.0, p.1);
            assert forall|q: (int, int)|
                iabs(q.0 - y) <= 1 && iabs(q.1 - x) <= 1 implies (a.contains(q)
                <==> b.contains(q)) by {
                assert(iabs(q.0 - cy) <= m - k1 && iabs(q.1 - cx) <= m - k1);
            }
            assert(a.contains((y, x)) <==> b.contains((y, x)));
            assert(occ(a, y - 1, x - 1) == occ(b, y - 1, x - 1));
            assert(occ(a, y - 1, x) == occ(b, y - 1, x));
            assert(occ(a, y - 1, x + 1) == occ(b, y - 1, x + 1));
            assert(occ(a, y, x - 1) == occ(b, y, x - 1));
            assert(occ(a, y, x + 1) == occ(b, y, x + 1));
            assert(occ(a, y + 1, x - 1) == occ(b, y + 1, x - 1));
            assert(occ(a, y + 1, x) == occ(b, y + 1, x));
            assert(occ(a, y + 1, x + 1) == occ(b, y + 1, x + 1));
            assert(life_n(s1, k) == life(a));
            assert(life_n(s2, k) == life(b));
        }
    }
}

/// The set shifted so that its cell `(y, x)` moves to `(y + dy, x + dx)`.
pub open spec fn shift(s: Set<(int, int)>, dy: int, dx: int) -> Set<(int, int)> {
    Set::new(|p: (int, int)| s.contains((p.0 - dy, p.1 - dx)))
}

/// One generation commutes with translation.
pub proof fn lemma_life_shift(s: Set<(int, int)>, dy: int, dx: int)
    ensures
        life(shift(s, dy, dx)) == shift(life(s), dy, dx),
{
    let t = shift(s, dy, dx);
    assert forall|p: (int, int)| #[trigger]
        life(t).contains(p) <==> shift(life(s), dy, dx).contains(p) by {
        let (y, x) = (p.0, p.1);
        assert(occ(t, y - 1, x - 1) == occ(s, y - dy - 1, x - dx - 1));
        assert(occ(t, y - 1, x) == occ(s, y - dy - 1, x - dx));
        assert(occ(t, y - 1, x + 1) == occ(s, y - dy - 1, x - dx + 1));
        assert(occ(t, y, x - 1) == occ(s, y - dy, x - dx - 1));
        assert(occ(t, y, x + 1) == occ(s, y - dy, x - dx + 1));
        assert(occ(t, y + 1, x - 1) == occ(s, y - dy + 1, x - dx - 1));
        assert(occ(t, y + 1, x) == occ(s, y - dy + 1, x - dx));
        assert(occ(t, y + 1, x + 1) == occ(s, y - dy + 1, x - dx + 1));
        assert(neighbour_count(t, y, x) == neighbour_count(s, y - dy, x - dx));
    }
    assert(life(t) =~= shift(life(s), dy, dx));
}

/// `n` generations commute with translation.
pub proof fn lemma_life_n_shift(s: Set<(int, int)>, dy: int, dx: int, n: nat)
    ensures
        life_n(shift(s, dy, dx), n) == shift(life_n(s, n), dy, dx),
    decreases n,
{
    if n == 0 {
    } else {
        let n1 = (n - 1) as nat;
        lemma_life_n_shift(s, dy, dx, n1);
        lemma_life_shift(life_n(s, n1), dy, dx);
    }
}

/// Translation is a bijection: it preserves finiteness and size.
pub proof fn lemma_shift_len(s: Set<(int, int)>, dy: int, dx: int)
    requires
        s.finite(),
    ensures
        shift(s, dy, dx).finite(),
        shift(s, dy, dx).len() == s.len(),
    decreases s.len(),
{
    if s.len() == 0 {
        s.lemma_len0_is_empty();
        assert(shift(s, dy, dx) =~= Set::<(int, int)>::empty());
    } else {
        let p = s.choose();
        assert(s.contains(p));
        let s1 = s.remove(p);
        lemma_shift_len(s1, dy, dx);
        assert(p == (p.0, p.1));
        assert(shift(s, dy, dx) =~= shift(s1, dy, dx).insert((p.0 + dy, p.1 + dx)));
        assert(!shift(s1, dy, dx).contains((p.0 + dy, p.1 + dx)));
    }
}

/// All cells of `s` lie in the centred half-open box of half-side `h`.
pub open spec fn bounded_by(s: Set<(int, int)>, h: int) -> bool {
    forall|p: (int, int)| #[trigger] s.contains(p) ==> -h <= p.0 < h && -h <= p.1 < h
}

/// Life runs at speed one: a pattern inside the box of half-side `h` stays
/// inside the box of half-side `h + n` after `n` generations.
pub proof fn lemma_life_n_bounded(s: Set<(int, int)>, h: int, n: nat)
    requires
        bounded_by(s, h),
    ensures
        bounded_by(life_n(s, n), h + n),
    decreases n,
{
    if n == 0 {
    } else {
        let n1 = (n - 1) as nat;
        lemma_life_n_bounded(s, h, n1);
        let a = life_n(s, n1);
        let h1 = h + n1;
        assert forall|p: (int, int)| #[trigger] life(a).contains(p) implies -(h1 + 1) <= p.0 < h1
            + 1 && -(h1 + 1) <= p.1 < h1 + 1 by {
            let (y, x) = (p.0, p.1);
            if !(-(h1 + 1) <= y < h1 + 1 && -(h1 + 1) <= x < h1 + 1) {
                assert(occ(a, y - 1, x - 1) == 0);
                assert(occ(a, y - 1, x) == 0);
                assert(occ(a, y - 1, x + 1) == 0);
                assert(occ(a, y, x - 1) == 0);
                assert(occ(a, y, x + 1) == 0);
                assert(occ(a, y + 1, x - 1) == 0);
                assert(occ(a, y + 1, x) == 0);
                assert(occ(a, y + 1, x + 1) == 0);
                assert(neighbour_count(a, y, x) == 0);
                assert(!a.contains((y, x)));
            }
        }
        assert(life_n(s, n) == life(a));
    }
}

} // verus!
