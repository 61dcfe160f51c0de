//! The reference simulator: a plain set of live cells stepped by counting
//! neighbours, with parsing, rendering and top-left normalisation. Verified
//! against the same `life` semantics as the tree engine.

use vstd::prelude::*;
use crate::life::{life, next_alive, neighbour_count, occ, shift};
use crate::pattern::{
    bounds, cell_set, chars_ok, contains_cell, coords_ok, insert_cell, is_min_col_of, is_min_x,
    is_min_row_of, lemma_list_minima_to_set, lemma_sorted_unique_eq, lex_le, no_dup, parse_cells,
    raw_cells, render_cells, render_from, shift_cells, sorted_cells, sorted_spec,
};

verus! {

/// The eight neighbours of a point.
pub open spec fn nbr_set(p: (i64, i64)) -> Set<(int, int)> {
    Set::new(
        |q: (int, int)|
            {
                let dy = q.0 - p.0 as int;
                let dx = q.1 - p.1 as int;
                &&& -1 <= dy <= 1
                &&& -1 <= dx <= 1
                &&& (dy, dx) != (0int, 0int)
            },
    )
}

/// Cells close enough to the origin that normalising (shifting by the
/// bounding-box corner) stays in range.
pub open spec fn norm_coords_ok(s: Seq<(i64, i64)>) -> bool {
    forall|i: int|
        0 <= i < s.len() ==> {
            &&& -0x1000_0000_0000_0000 <= (#[trigger] s[i]).0 <= 0x1000_0000_0000_0000
            &&& -0x1000_0000_0000_0000 <= s[i].1 <= 0x1000_0000_0000_0000
        }
}

/// Cells far enough from the machine edge that one neighbour step is safe.
pub open spec fn step_coords_ok(s: Seq<(i64, i64)>) -> bool {
    forall|i: int|
        0 <= i < s.len() ==> {
            &&& -0x3fff_ffff_ffff_fffe <= (#[trigger] s[i]).0 <= 0x3fff_ffff_ffff_fffe
            &&& -0x3fff_ffff_ffff_fffe <= s[i].1 <= 0x3fff_ffff_ffff_fffe
        }
}

/// Push the eight neighbours of `p` into `v`, without duplicates.
fn push_neighbours(v: &mut Vec<(i64, i64)>, p: (i64, i64)) -> (u: ())
    requires
        no_dup(old(v)@),
        -0x3fff_ffff_ffff_fffe <= p.0 <= 0x3fff_ffff_ffff_fffe,
        -0x3fff_ffff_ffff_fffe <= p.1 <= 0x3fff_ffff_ffff_fffe,
    ensures
        no_dup(final(v)@),
        cell_set(final(v)@) == cell_set(old(v)@).union(nbr_set(p)),
        forall|i: int|
            0 <= i < final(v)@.len() ==> old(v)@.contains(#[trigger] final(v)@[i]) || nbr_set(
                p,
            ).contains(((final(v)@[i]).0 as int, (final(v)@[i]).1 as int)),
{
    insert_cell(v, (p.0 - 1, p.1 - 1));
    insert_cell(v, (p.0 - 1, p.1));
    insert_cell(v, (p.0 - 1, p.1 + 1));
    insert_cell(v, (p.0, p.1 - 1));
    insert_cell(v, (p.0, p.1 + 1));
    insert_cell(v, (p.0 + 1, p.1 - 1));
    insert_cell(v, (p.0 + 1, p.1));
    insert_cell(v, (p.0 + 1, p.1 + 1));
    proof {
        assert(cell_set(v@) =~= cell_set(old(v)@).union(nbr_set(p)));
    }
}

/// How many of the eight neighbours of `q` are in the list.
fn count_neighbours(cells: &Vec<(i64, i64)>, q: (i64, i64)) -> (n: u32)
    requires
        -0x3fff_ffff_ffff_ffff <= q.0 <= 0x3fff_ffff_ffff_ffff,
        -0x3fff_ffff_ffff_ffff <= q.1 <= 0x3fff_ffff_ffff_ffff,
    ensures
        n as int == neighbour_count(cell_set(cells@), q.0 as int, q.1 as int),
{
    let s = Ghost(cell_set(cells@));
    let mut n: u32 = 0;
    if contains_cell(cells, (q.0 - 1, q.1 - 1)) {
        n = n + 1;
    }
    if contains_cell(cells, (q.0 - 1, q.1)) {
        n = n + 1;
    }
    if contains_cell(cells, (q.0 - 1, q.1 + 1)) {
        n = n + 1;
    }
    if contains_cell(cells, (q.0, q.1 - 1)) {
        n = n + 1;
    }
    if contains_cell(cells, (q.0, q.1 + 1)) {
        n = n + 1;
    }
    if contains_cell(cells, (q.0 + 1, q.1 - 1)) {
        n = n + 1;
    }
    if contains_cell(cells, (q.0 + 1, q.1)) {
        n = n + 1;
    }
    if contains_cell(cells, (q.0 + 1, q.1 + 1)) {
        n = n + 1;
    }
    proof {
        let (y, x) = (q.0 as int, q.1 as int);
        assert(n as int == occ(s@, y - 1, x - 1) + occ(s@, y - 1, x) + occ(s@, y - 1, x + 1) + occ(
            s@,
            y,
            x - 1,
        ) + occ(s@, y, x + 1) + occ(s@, y + 1, x - 1) + occ(s@, y + 1, x) + occ(s@, y + 1, x + 1));
    }
    n
}

/// One generation of the cell list under B3/S23, as a fresh list.
pub fn step_cells(cells: &Vec<(i64, i64)>) -> (r: Vec<(i64, i64)>)
    requires
        no_dup(cells@),
        step_coords_ok(cells@),
    ensures
        no_dup(r@),
        coords_ok(r@),
        cell_set(r@) == life(cell_set(cells@)),
{
    let ghost s = cell_set(cells@);
    let mut cand: Vec<(i64, i64)> = Vec::new();
    let mut i: usize = 0;
    while i < cells.len()
        invariant
            no_dup(cells@),
            step_coords_ok(cells@),
            i <= cells@.len(),
            no_dup(cand@),
            forall|j: int|
                0 <= j < cand@.len() ==> {
                    &&& -0x3fff_ffff_ffff_ffff <= (#[trigger] cand@[j]).0 <= 0x3fff_ffff_ffff_ffff
                    &&& -0x3fff_ffff_ffff_ffff <= cand@[j].1 <= 0x3fff_ffff_ffff_ffff
                },
            forall|q: (int, int)|
                #[trigger] cell_set(cand@).contains(q) <==> exists|j: int|
                    0 <= j < i && nbr_set(#[trigger] cells@[j]).contains(q),
        decreases cells@.len() - i,
    {
        let ghost pre = cand@;
        proof {
            assert(-0x3fff_ffff_ffff_fffe <= (cells@[i as int]).0 <= 0x3fff_ffff_ffff_fffe);
        }
        let p = cells[i];
        push_neighbours(&mut cand, p);
        proof {
            assert forall|j: int|
                0 <= j < cand@.len() implies {
                &&& -0x3fff_ffff_ffff_ffff <= (#[trigger] cand@[j]).0 <= 0x3fff_ffff_ffff_ffff
                &&& -0x3fff_ffff_ffff_ffff <= cand@[j].1 <= 0x3fff_ffff_ffff_ffff
            } by {
                if pre.contains(cand@[j]) {
                    let jj = choose|jj: int| 0 <= jj < pre.len() && pre[jj] == cand@[j];
                } else {
                    assert(nbr_set(p).contains(((cand@[j]).0 as int, (cand@[j]).1 as int)));
                }
            }
            assert forall|q: (int, int)| #[trigger]
                cell_set(cand@).contains(q) <==> exists|j: int|
                    0 <= j < i + 1 && nbr_set(#[trigger] cells@[j]).contains(q) by {
                if cell_set(cand@).contains(q) {
                    if cell_set(pre).contains(q) {
                        let jj = choose|jj: int| 0 <= jj < i && nbr_set(cells@[jj]).contains(q);
                        assert(0 <= jj < i + 1 && nbr_set(cells@[jj]).contains(q));
                    } else {
                        assert(nbr_set(cells@[i as int]).contains(q));
                    }
                }
                if exists|j: int| 0 <= j < i + 1 && nbr_set(#[trigger] cells@[j]).contains(q) {
                    let jj = choose|jj: int| 0 <= jj < i + 1 && nbr_set(cells@[jj]).contains(q);
                    if jj < i {
                        assert(cell_set(pre).contains(q));
                    }
                    assert(cell_set(cand@).contains(q));
                }
            }
        }
        i = i + 1;
    }
    let mut out: Vec<(i64, i64)> = Vec::new();
    let mut k: usize = 0;
    while k < cand.len()
        invariant
            no_dup(cells@),
            step_coords_ok(cells@),
            s == cell_set(cells@),
            k <= cand@.len(),
            no_dup(cand@),
            no_dup(out@),
            forall|j: int|
                0 <= j < cand@.len() ==> {
                    &&& -0x3fff_ffff_ffff_ffff <= (#[trigger] cand@[j]).0 <= 0x3fff_ffff_ffff_ffff
                    &&& -0x3fff_ffff_ffff_ffff <= cand@[j].1 <= 0x3fff_ffff_ffff_ffff
                },
            forall|q: (int, int)|
                #[trigger] cell_set(cand@).contains(q) <==> exists|j: int|
                    0 <= j < cells@.len() && nbr_set(#[trigger] cells@[j]).contains(q),
            coords_ok(out@),
            forall|q: (int, int)|
                #[trigger] cell_set(out@).contains(q) <==> (next_alive(s, q.0, q.1) && exists|
                    j: int,
                |
                    0 <= j < k && (#[trigger] cand@[j]).0 == q.0 && cand@[j].1 == q.1),
        decreases cand@.len() - k,
    {
        let ghost pre_out = out@;
        let q = cand[k];
        let n = count_neighbours(cells, q);
        let alive = contains_cell(cells, q);
        let live_next = if alive {
            n == 2 || n == 3
        } else {
            n == 3
        };
        if live_next {
            insert_cell(&mut out, q);
        }
        proof {
            assert(next_alive(s, q.0 as int, q.1 as int) == live_next);
            assert forall|qq: (int, int)| #[trigger]
                cell_set(out@).contains(qq) <==> (next_alive(s, qq.0, qq.1) && exists|j: int|
                    0 <= j < k + 1 && (#[trigger] cand@[j]).0 == qq.0 && cand@[j].1 == qq.1) by {
                if cell_set(out@).contains(qq) {
                    if cell_set(pre_out).contains(qq) {
                        let jj = choose|jj: int|
                            0 <= jj < k && (#[trigger] cand@[jj]).0 == qq.0 && cand@[jj].1 == qq.1;
                        assert(0 <= jj < k + 1 && cand@[jj].0 == qq.0 && cand@[jj].1 == qq.1);
                    } else {
                        assert(qq == (q.0 as int, q.1 as int));
                        assert(cand@[k as int].0 == qq.0 && cand@[k as int].1 == qq.1);
                    }
                }
                if next_alive(s, qq.0, qq.1) && exists|j: int|
                    0 <= j < k + 1 && (#[trigger] cand@[j]).0 == qq.0 && cand@[j].1 == qq.1 {
                    let jj = choose|jj: int|
                        0 <= jj < k + 1 && (#[trigger] cand@[jj]).0 == qq.0 && cand@[jj].1 == qq.1;
                    if jj < k {
                        assert(cell_set(pre_out).contains(qq));
                    } else {
                        assert(qq == (q.0 as int, q.1 as int));
                    }
                    assert(cell_set(out@).contains(qq));
                }
            }
        }
        k = k + 1;
    }
    proof {
        assert forall|q: (int, int)| #[trigger]
            cell_set(out@).contains(q) == life(s).contains(q) by {
            if cell_set(out@).contains(q) {
                assert(next_alive(s, q.0, q.1));
            }
            if life(s).contains(q) {
                assert(next_alive(s, q.0, q.1));
                // a cell alive next has a live neighbour now, so it is a candidate
                let (y, x) = (q.0, q.1);
                assert(neighbour_count(s, y, x) >= 1);
                assert(occ(s, y - 1, x - 1) == 1 || occ(s, y - 1, x) == 1 || occ(s, y - 1, x + 1)
                    == 1 || occ(s, y, x - 1) == 1 || occ(s, y, x + 1) == 1 || occ(s, y + 1, x - 1)
                    == 1 || occ(s, y + 1, x) == 1 || occ(s, y + 1, x + 1) == 1);
                let w = choose|w: (int, int)|
                    #![auto]
                    s.contains(w) && -1 <= w.0 - y <= 1 && -1 <= w.1 - x <= 1 && w != q;
                assert(s.contains(w) && -1 <= w.0 - y <= 1 && -1 <= w.1 - x <= 1 && w != q) by {
                    if occ(s, y - 1, x - 1) == 1 {
                        assert(s.contains((y - 1, x - 1)));
                    } else if occ(s, y - 1, x) == 1 {
                        assert(s.contains((y - 1, x)));
                    } else if occ(s, y - 1, x + 1) == 1 {
                        assert(s.contains((y - 1, x + 1)));
                    } else if occ(s, y, x - 1) == 1 {
                        assert(s.contains((y, x - 1)));
                    } else if occ(s, y, x + 1) == 1 {
                        assert(s.contains((y, x + 1)));
                    } else if occ(s, y + 1, x - 1) == 1 {
                        assert(s.contains((y + 1, x - 1)));
                    } else if occ(s, y + 1, x) == 1 {
                        assert(s.contains((y + 1, x)));
                    } else {
                        assert(s.contains((y + 1, x + 1)));
                    }
                }
                let jj = choose|jj: int|
                    0 <= jj < cells@.len() && (#[trigger] cells@[jj]).0 == w.0 && cells@[jj].1
                        == w.1;
                assert(nbr_set(cells@[jj]).contains(q));
                assert(cell_set(cand@).contains(q));
                let kk = choose|kk: int|
                    0 <= kk < cand@.len() && (#[trigger] cand@[kk]).0 == q.0 && cand@[kk].1 == q.1;
                assert(cell_set(out@).contains(q));
            }
        }
        assert(cell_set(out@) =~= life(s));
    }
    out
}

/// A finite world of live cells, stepped by the counting rule.
#[derive(Debug, Clone)]
pub struct State {
    pub cells: Vec<(i64, i64)>,
}

impl State {
    pub open spec fn wf(self) -> bool {
        &&& no_dup(self.cells@)
        &&& coords_ok(self.cells@)
    }

    /// The set of live cells.
    pub open spec fn set(self) -> Set<(int, int)> {
        cell_set(self.cells@)
    }

    pub fn new() -> (r: State)
        ensures
            r.wf(),
            r.set() == Set::<(int, int)>::empty(),
    {
        let r = State { cells: Vec::new() };
        proof {
            assert(r.set() =~= Set::<(int, int)>::empty());
        }
        r
    }

    /// Make one cell live.
    pub fn set_bit(&mut self, p: (i64, i64))
        requires
            old(self).wf(),
            -0x4000_0000_0000_0000 <= p.0 <= 0x3fff_ffff_ffff_ffff,
            -0x4000_0000_0000_0000 <= p.1 <= 0x3fff_ffff_ffff_ffff,
        ensures
            final(self).wf(),
            final(self).set() == old(self).set().insert((p.0 as int, p.1 as int)),
    {
        insert_cell(&mut self.cells, p);
    }

    /// One generation of the counting rule: exactly `life` on the cell set.
    pub fn step(&self) -> (r: State)
        requires
            self.wf(),
            step_coords_ok(self.cells@),
        ensures
            r.wf(),
            r.set() == life(self.set()),
    {
        State { cells: step_cells(&self.cells) }
    }

    /// Translate so the bounding box's top-left corner is at the origin.
    pub fn normalize(self) -> (r: State)
        requires
            self.wf(),
            norm_coords_ok(self.cells@),
        ensures
            r.wf(),
            self.cells@.len() == 0 ==> r.set() == self.set(),
            self.cells@.len() > 0 ==> exists|dy: int, dx: int|
                {
                    &&& (exists|i: int|
                        0 <= i < self.cells@.len() && (#[trigger] self.cells@[i]).0 == dy)
                    &&& (exists|i: int|
                        0 <= i < self.cells@.len() && (#[trigger] self.cells@[i]).1 == dx)
                    &&& (forall|i: int|
                        0 <= i < self.cells@.len() ==> (#[trigger] self.cells@[i]).0 >= dy
                            && self.cells@[i].1 >= dx)
                    &&& r.set() == #[trigger] shift(self.set(), -dy, -dx)
                },
    {
        match bounds(&self.cells) {
            None => self,
            Some(((y0, _), (x0, _))) => {
                proof {
                    let iy = choose|i: int|
                        0 <= i < self.cells@.len() && (#[trigger] self.cells@[i]).0 == y0;
                    let ix = choose|i: int|
                        0 <= i < self.cells@.len() && (#[trigger] self.cells@[i]).1 == x0;
                    assert(-0x1000_0000_0000_0000 <= y0 <= 0x1000_0000_0000_0000);
                    assert(-0x1000_0000_0000_0000 <= x0 <= 0x1000_0000_0000_0000);
                }
                let shifted = shift_cells(&self.cells, y0, x0);
                let out = State { cells: shifted };
                proof {
                    assert forall|j: int|
                        0 <= j < shifted@.len() implies {
                        &&& -0x4000_0000_0000_0000 <= (#[trigger] shifted@[j]).0
                            <= 0x3fff_ffff_ffff_ffff
                        &&& -0x4000_0000_0000_0000 <= shifted@[j].1 <= 0x3fff_ffff_ffff_ffff
                    } by {
                        assert(shifted@[j] == (
                            (self.cells@[j].0 - y0) as i64,
                            (self.cells@[j].1 - x0) as i64,
                        ));
                        assert(-0x1000_0000_0000_0000 <= (self.cells@[j]).0
                            <= 0x1000_0000_0000_0000 && -0x1000_0000_0000_0000
                            <= (self.cells@[j]).1 <= 0x1000_0000_0000_0000);
                    }
                    assert(out.set() == shift(self.set(), -(y0 as int), -(x0 as int)));
                    assert(exists|dy: int, dx: int|
                        {
                            &&& (exists|i: int|
                                0 <= i < self.cells@.len() && (#[trigger] self.cells@[i]).0 == dy)
                            &&& (exists|i: int|
                                0 <= i < self.cells@.len() && (#[trigger] self.cells@[i]).1 == dx)
                            &&& (forall|i: int|
                                0 <= i < self.cells@.len() ==> (#[trigger] self.cells@[i]).0 >= dy
                                    && self.cells@[i].1 >= dx)
                            &&& out.set() == #[trigger] shift(self.set(), -dy, -dx)
                        }) by {
                        assert((exists|i: int|
                            0 <= i < self.cells@.len() && (#[trigger] self.cells@[i]).0 == y0
                                as int) && (exists|i: int|
                            0 <= i < self.cells@.len() && (#[trigger] self.cells@[i]).1 == x0
                                as int) && (forall|i: int|
                            0 <= i < self.cells@.len() ==> (#[trigger] self.cells@[i]).0 >= y0
                                as int && self.cells@[i].1 >= x0 as int) && out.set() == shift(
                            self.set(),
                            -(y0 as int),
                            -(x0 as int),
                        ));
                    }
                }
                out
            },
        }
    }

    /// The bounding box as half-open ranges `((y_start, y_end), (x_start, x_end))`.
    pub fn span(&self) -> (r: Option<((i64, i64), (i64, i64))>)
        requires
            self.wf(),
        ensures
            r is None <==> self.cells@.len() == 0,
            r is Some ==> {
                let ((y0, y1), (x0, x1)) = r->0;
                &&& (exists|i: int|
                    0 <= i < self.cells@.len() && (#[trigger] self.cells@[i]).0 == y0)
                &&& (exists|i: int|
                    0 <= i < self.cells@.len() && (#[trigger] self.cells@[i]).1 == x0)
                &&& (forall|i: int|
                    0 <= i < self.cells@.len() ==> y0 <= (#[trigger] self.cells@[i]).0 < y1 && x0
                        <= self.cells@[i].1 < x1)
                &&& (exists|i: int|
                    0 <= i < self.cells@.len() && (#[trigger] self.cells@[i]).0 == y1 - 1)
                &&& (exists|i: int|
                    0 <= i < self.cells@.len() && (#[trigger] self.cells@[i]).1 == x1 - 1)
            },
    {
        match bounds(&self.cells) {
            None => None,
            Some(((y0, ymax), (x0, xmax))) => {
                proof {
                    let iy = choose|i: int|
                        0 <= i < self.cells@.len() && (#[trigger] self.cells@[i]).0 == ymax;
                    let ix = choose|i: int|
                        0 <= i < self.cells@.len() && (#[trigger] self.cells@[i]).1 == xmax;
                    assert(ymax <= 0x3fff_ffff_ffff_ffff && xmax <= 0x3fff_ffff_ffff_ffff);
                }
                Some(((y0, ymax + 1), (x0, xmax + 1)))
            },
        }
    }

    /// Parse a plain-text pattern, then normalise it.
    pub fn from_str(s: &str) -> (r: Result<State, String>)
        requires
            s@.len() <= 0x1000_0000_0000_0000,
        ensures
            r is Ok <==> chars_ok(s@, 0),
            r is Err ==> exists|j: int|
                {
                    &&& 0 <= j < s@.len()
                    &&& !(#[trigger] crate::pattern::ok_at(s@, j))
                    &&& (forall|jj: int| 0 <= jj < j ==> crate::pattern::ok_at(s@, jj))
                    &&& (r->Err_0)@ == "Unexpected character "@ + seq![s@[j]]
                },
            r is Ok ==> {
                let st = r->Ok_0;
                &&& st.wf()
                &&& (raw_cells(s@, 0, 0, 0) == Set::<(int, int)>::empty() ==> st.set()
                    == raw_cells(s@, 0, 0, 0))
                &&& (raw_cells(s@, 0, 0, 0) != Set::<(int, int)>::empty() ==> exists|
                    dy: int,
                    dx: int,
                |
                    {
                        &&& is_min_row_of(raw_cells(s@, 0, 0, 0), dy)
                        &&& is_min_col_of(raw_cells(s@, 0, 0, 0), dx)
                        &&& st.set() == #[trigger] shift(raw_cells(s@, 0, 0, 0), -dy, -dx)
                    })
            },
    {
        match parse_cells(s) {
            Err(e) => Err(e),
            Ok(v) => {
                let st = State { cells: v };
                let ghost raw = raw_cells(s@, 0, 0, 0);
                proof {
                    assert forall|i: int|
                        0 <= i < st.cells@.len() implies {
                        &&& -0x1000_0000_0000_0000 <= (#[trigger] st.cells@[i]).0
                            <= 0x1000_0000_0000_0000
                        &&& -0x1000_0000_0000_0000 <= st.cells@[i].1 <= 0x1000_0000_0000_0000
                    } by {
                        assert(0 <= (st.cells@[i]).0 <= s@.len() && 0 <= (st.cells@[i]).1
                            <= s@.len());
                    }
                    assert(norm_coords_ok(st.cells@));
                }
                let r = st.normalize();
                proof {
                    if st.cells@.len() == 0 {
                        assert(raw =~= Set::<(int, int)>::empty());
                        assert(r.set() == raw);
                    } else {
                        assert(raw.contains(((st.cells@[0]).0 as int, (st.cells@[0]).1 as int)))
                            by {
                            assert(st.set().contains(
                                ((st.cells@[0]).0 as int, (st.cells@[0]).1 as int),
                            ));
                        }
                        assert(raw != Set::<(int, int)>::empty());
                        let (dy, dx) = choose|dy: int, dx: int|
                            {
                                &&& (exists|i: int|
                                    0 <= i < st.cells@.len() && (#[trigger] st.cells@[i]).0 == dy)
                                &&& (exists|i: int|
                                    0 <= i < st.cells@.len() && (#[trigger] st.cells@[i]).1 == dx)
                                &&& (forall|i: int|
                                    0 <= i < st.cells@.len() ==> (#[trigger] st.cells@[i]).0 >= dy
                                        && st.cells@[i].1 >= dx)
                                &&& r.set() == #[trigger] shift(st.set(), -dy, -dx)
                            };
                        lemma_list_minima_to_set(st.cells@, dy, dx);
                        assert(is_min_row_of(raw, dy) && is_min_col_of(raw, dx) && r.set()
                            == shift(raw, -dy, -dx));
                    }
                }
                Ok(r)
            },
        }
    }

    /// Render as plain text, in reading order.
    pub fn to_string(&self) -> (r: String)
        requires
            self.wf(),
        ensures
            self.cells@.len() == 0 ==> r@ == Seq::<char>::empty(),
            self.cells@.len() > 0 ==> exists|x0: int|
                {
                    &&& #[trigger] is_min_x(sorted_spec(self.cells@), x0)
                    &&& r@ == render_from(
                        sorted_spec(self.cells@),
                        x0,
                        0,
                        sorted_spec(self.cells@)[0].0 as int,
                        x0,
                    )
                },
    {
        render_cells(&self.cells)
    }

    /// The live cells as a list, without duplicates.
    pub fn to_cells(&self) -> (r: Vec<(i64, i64)>)
        requires
            self.wf(),
        ensures
            r@ == self.cells@,
    {
        let mut r: Vec<(i64, i64)> = Vec::new();
        let mut i: usize = 0;
        while i < self.cells.len()
            invariant
                i <= self.cells@.len(),
                r@ == self.cells@.subrange(0, i as int),
            decreases self.cells@.len() - i,
        {
            r.push(self.cells[i]);
            proof {
                assert(r@ =~= self.cells@.subrange(0, i + 1));
            }
            i = i + 1;
        }
        proof {
            assert(r@ =~= self.cells@);
        }
        r
    }
}

impl Default for State {
    fn default() -> (r: State)
        ensures
            r.wf(),
            r.set() == Set::<(int, int)>::empty(),
    {
        State::new()
    }
}

/// Compare two cell lists as sets.
pub fn cells_equal(a: &Vec<(i64, i64)>, b: &Vec<(i64, i64)>) -> (r: bool)
    requires
        no_dup(a@),
        no_dup(b@),
    ensures
        r == (cell_set(a@) == cell_set(b@)),
{
    let sa = sorted_cells(a);
    let sb = sorted_cells(b);
    proof {
        lemma_sorted_set_view(a@, sa@);
        lemma_sorted_set_view(b@, sb@);
    }
    if sa.len() != sb.len() {
        proof {
            if cell_set(a@) == cell_set(b@) {
                assert forall|p: (i64, i64)| sa@.contains(p) <==> #[trigger] sb@.contains(p) by {
                    lemma_seq_set_member(sa@, p);
                    lemma_seq_set_member(sb@, p);
                    assert(cell_set(sa@).contains((p.0 as int, p.1 as int)) == cell_set(
                        sb@,
                    ).contains((p.0 as int, p.1 as int)));
                }
                lemma_sorted_unique_eq(sa@, sb@);
            }
        }
        return false;
    }
    let mut i: usize = 0;
    while i < sa.len()
        invariant
            sa@.len() == sb@.len(),
            i <= sa@.len(),
            no_dup(sa@),
            no_dup(sb@),
            forall|j: int, k: int|
                0 <= j < k < sa@.len() ==> lex_le(#[trigger] sa@[j], #[trigger] sa@[k]),
            forall|j: int, k: int|
                0 <= j < k < sb@.len() ==> lex_le(#[trigger] sb@[j], #[trigger] sb@[k]),
            cell_set(sa@) == cell_set(a@),
            cell_set(sb@) == cell_set(b@),
            forall|p: (i64, i64)| sa@.contains(p) <==> #[trigger] a@.contains(p),
            forall|p: (i64, i64)| sb@.contains(p) <==> #[trigger] b@.contains(p),
            forall|j: int| 0 <= j < i ==> #[trigger] sa@[j] == sb@[j],
        decreases sa@.len() - i,
    {
        if !(sa[i].0 == sb[i].0 && sa[i].1 == sb[i].1) {
            proof {
                if cell_set(a@) == cell_set(b@) {
                    assert forall|p: (i64, i64)| sa@.contains(p) <==> #[trigger] sb@.contains(
                        p,
                    ) by {
                        lemma_seq_set_member(sa@, p);
                        lemma_seq_set_member(sb@, p);
                        assert(cell_set(sa@).contains((p.0 as int, p.1 as int)) == cell_set(
                            sb@,
                        ).contains((p.0 as int, p.1 as int)));
                    }
                    lemma_sorted_unique_eq(sa@, sb@);
                    assert(sa@[i as int] == sb@[i as int]);
                }
            }
            return false;
        }
        i = i + 1;
    }
    proof {
        assert(sa@ =~= sb@);
        assert forall|q: (int, int)|
            cell_set(a@).contains(q) == cell_set(b@).contains(q) by {
            assert(cell_set(sa@).contains(q) == cell_set(sb@).contains(q));
        }
        assert(cell_set(a@) =~= cell_set(b@));
    }
    true
}

/// Sorting neither adds nor loses members.
proof fn lemma_sorted_set_view(v: Seq<(i64, i64)>, s: Seq<(i64, i64)>)
    requires
        s.to_multiset() == v.to_multiset(),
        no_dup(v),
    ensures
        cell_set(s) == cell_set(v),
        no_dup(s),
        forall|p: (i64, i64)| s.contains(p) <==> #[trigger] v.contains(p),
{
    broadcast use vstd::seq_lib::group_to_multiset_ensures;

    assert(v.no_duplicates());
    v.lemma_multiset_has_no_duplicates();
    s.lemma_multiset_has_no_duplicates_conv();
    assert(s.no_duplicates());
    assert(no_dup(s));
    assert forall|p: (i64, i64)| s.contains(p) <==> #[trigger] v.contains(p) by {
        if s.contains(p) {
            assert(s.to_multiset().count(p) > 0);
        }
        if v.contains(p) {
            assert(v.to_multiset().count(p) > 0);
        }
    }
    assert forall|q: (int, int)|
        cell_set(s).contains(q) == cell_set(v).contains(q) by {
        if cell_set(s).contains(q) {
            let j = choose|j: int| 0 <= j < s.len() && (#[trigger] s[j]).0 == q.0 && s[j].1 == q.1;
            assert(s.contains(s[j]));
            assert(v.contains(s[j]));
            let k = choose|k: int| 0 <= k < v.len() && v[k] == s[j];
            assert((v[k]).0 == q.0 && (v[k]).1 == q.1);
        }
        if cell_set(v).contains(q) {
            let j = choose|j: int| 0 <= j < v.len() && (#[trigger] v[j]).0 == q.0 && v[j].1 == q.1;
            assert(v.contains(v[j]));
            assert(s.contains(v[j]));
            let k = choose|k: int| 0 <= k < s.len() && s[k] == v[j];
            assert((s[k]).0 == q.0 && (s[k]).1 == q.1);
        }
    }
    assert(cell_set(s) =~= cell_set(v));
}

/// Membership in the list and in its set agree.
proof fn lemma_seq_set_member(s: Seq<(i64, i64)>, p: (i64, i64))
    ensures
        s.contains(p) == cell_set(s).contains((p.0 as int, p.1 as int)),
{
    if s.contains(p) {
        let j = choose|j: int| 0 <= j < s.len() && s[j] == p;
        assert((s[j]).0 == p.0 as int && (s[j]).1 == p.1 as int);
    }
    if cell_set(s).contains((p.0 as int, p.1 as int)) {
        let j = choose|j: int| 0 <= j < s.len() && (#[trigger] s[j]).0 == p.0 as int && s[j].1 == p.1 as int;
        assert(s[j] == p);
    }
}

impl PartialEq for State {
    /// Equality of the denoted cell sets.
    fn eq(&self, other: &State) -> (r: bool) {
        let a = dedup(&self.cells);
        let b = dedup(&other.cells);
        let r = cells_equal(&a, &b);
        proof {
            assert(cell_set(a@) == cell_set(self.cells@));
            assert(cell_set(b@) == cell_set(other.cells@));
        }
        r
    }
}

impl vstd::std_specs::cmp::PartialEqSpecImpl for State {
    open spec fn obeys_eq_spec() -> bool {
        true
    }

    open spec fn eq_spec(&self, other: &State) -> bool {
        cell_set(self.cells@) == cell_set(other.cells@)
    }
}

/// Copy a list, dropping duplicate cells.
pub fn dedup(v: &Vec<(i64, i64)>) -> (r: Vec<(i64, i64)>)
    ensures
        no_dup(r@),
        cell_set(r@) == cell_set(v@),
{
    let mut r: Vec<(i64, i64)> = Vec::new();
    let mut i: usize = 0;
    while i < v.len()
        invariant
            i <= v@.len(),
            no_dup(r@),
            cell_set(r@) == cell_set(v@.subrange(0, i as int)),
        decreases v@.len() - i,
    {
        let ghost pre = r@;
        insert_cell(&mut r, v[i]);
        proof {
            let t = v@.subrange(0, i + 1);
            assert forall|q: (int, int)|
                cell_set(r@).contains(q) == cell_set(t).contains(q) by {
                let t0 = v@.subrange(0, i as int);
                if cell_set(r@).contains(q) {
                    if cell_set(t0).contains(q) {
                        let j = choose|j: int|
                            0 <= j < t0.len() && (#[trigger] t0[j]).0 == q.0 && t0[j].1 == q.1;
                        assert(t[j] == t0[j]);
                    } else {
                        assert(q == ((v@[i as int]).0 as int, (v@[i as int]).1 as int));
                        assert(t[i as int] == v@[i as int]);
                    }
                }
                if cell_set(t).contains(q) {
                    let j = choose|j: int|
                        0 <= j < t.len() && (#[trigger] t[j]).0 == q.0 && t[j].1 == q.1;
                    if j < i {
                        assert(v@.subrange(0, i as int)[j] == t[j]);
                        assert(cell_set(v@.subrange(0, i as int)).contains(q));
                    } else {
                        assert(t[j] == v@[i as int]);
                    }
                }
            }
            assert(cell_set(r@) =~= cell_set(t));
        }
        i = i + 1;
    }
    proof {
        assert(v@.subrange(0, v@.len() as int) =~= v@);
    }
    r
}

} // verus!
