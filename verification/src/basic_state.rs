//! A second plain-cell world, identical to `State` except that its
//! normalisation centres the bounding box on the origin instead of pinning
//! its top-left corner there. The pattern constructor of the tree engine
//! uses this centring so small patterns get shallow trees.

use vstd::prelude::*;
use crate::life::{life, shift};
use crate::pattern::{
    bounds, cell_set, chars_ok, coords_ok, insert_cell, is_max_col_of, is_max_row_of,
    is_min_col_of, is_min_row_of, is_min_x, lemma_list_maxima_to_set, lemma_list_minima_to_set,
    no_dup, parse_cells, raw_cells, render_cells, render_from, shift_cells, sorted_spec,
};
use crate::state::{cells_equal, dedup, norm_coords_ok, step_cells, step_coords_ok};

verus! {

/// A finite world of live cells with centred normalisation.
#[derive(Debug, Clone)]
pub struct BasicState {
    pub cells: Vec<(i64, i64)>,
}

impl BasicState {
    pub open spec fn wf(self) -> bool {
        &&& no_dup(self.cells@)
        &&& coords_ok(self.cells@)
    }

    /// The set of live cells.
    pub open spec fn set(self) -> Set<(int, int)> {
        cell_set(self.cells@)
    }

    pub fn new() -> (r: BasicState)
        ensures
            r.wf(),
            r.set() == Set::<(int, int)>::empty(),
    {
        let r = BasicState { cells: Vec::new() };
        proof {
            assert(r.set() =~= Set::<(int, int)>::empty());
        }
        r
    }

    /// Make one cell live.
    pub fn set_bit(&mut self, p: (i64, i64))
        requires
            old(self).wf(),
            -0x4000_0000_0000_0000 <= p.0 <= 0x3fff_ffff_ffff_ffff,
            -0x4000_0000_0000_0000 <= p.1 <= 0x3fff_ffff_ffff_ffff,
        ensures
            final(self).wf(),
            final(self).set() == old(self).set().insert((p.0 as int, p.1 as int)),
    {
        insert_cell(&mut self.cells, p);
    }

    /// One generation of the counting rule: exactly `life` on the cell set.
    pub fn step(&self) -> (r: BasicState)
        requires
            self.wf(),
            step_coords_ok(self.cells@),
        ensures
            r.wf(),
            r.set() == life(self.set()),
    {
        BasicState { cells: step_cells(&self.cells) }
    }

    /// Translate so the bounding box is centred on the origin.
    pub fn normalize(self) -> (r: BasicState)
        requires
            self.wf(),
            norm_coords_ok(self.cells@),
        ensures
            r.wf(),
            self.cells@.len() == 0 ==> r.set() == self.set(),
            self.cells@.len() > 0 ==> exists|y0: int, y1: int, x0: int, x1: int|
                {
                    &&& (forall|i: int|
                        0 <= i < self.cells@.len() ==> y0 <= (#[trigger] self.cells@[i]).0 <= y1
                            && x0 <= self.cells@[i].1 <= x1)
                    &&& (exists|i: int|
                        0 <= i < self.cells@.len() && (#[trigger] self.cells@[i]).0 == y0)
                    &&& (exists|i: int|
                        0 <= i < self.cells@.len() && (#[trigger] self.cells@[i]).0 == y1)
                    &&& (exists|i: int|
                        0 <= i < self.cells@.len() && (#[trigger] self.cells@[i]).1 == x0)
                    &&& (exists|i: int|
                        0 <= i < self.cells@.len() && (#[trigger] self.cells@[i]).1 == x1)
                    &&& r.set() == #[trigger] shift(
                        self.set(),
                        -(y0 + (y1 + 1 - y0) / 2),
                        -(x0 + (x1 + 1 - x0) / 2),
                    )
                },
    {
        match bounds(&self.cells) {
            None => self,
            Some(((y0, y1), (x0, x1))) => {
                proof {
                    let iy = choose|i: int|
                        0 <= i < self.cells@.len() && (#[trigger] self.cells@[i]).0 == y0;
                    let iy1 = choose|i: int|
                        0 <= i < self.cells@.len() && (#[trigger] self.cells@[i]).0 == y1;
                    let ix = choose|i: int|
                        0 <= i < self.cells@.len() && (#[trigger] self.cells@[i]).1 == x0;
                    let ix1 = choose|i: int|
                        0 <= i < self.cells@.len() && (#[trigger] self.cells@[i]).1 == x1;
                    assert(-0x1000_0000_0000_0000 <= y0 <= 0x1000_0000_0000_0000);
                    assert(-0x1000_0000_0000_0000 <= y1 <= 0x1000_0000_0000_0000);
                    assert(-0x1000_0000_0000_0000 <= x0 <= 0x1000_0000_0000_0000);
                    assert(-0x1000_0000_0000_0000 <= x1 <= 0x1000_0000_0000_0000);
                    assert(y0 <= y1 && x0 <= x1) by {
                        assert(y0 <= (self.cells@[iy1]).0 <= y1 || true);
                        assert(y0 <= (self.cells@[0]).0 <= y1);
                        assert(x0 <= (self.cells@[0]).1 <= x1);
                    }
                }
                let dy = y0 + (y1 + 1 - y0) / 2;
                let dx = x0 + (x1 + 1 - x0) / 2;
                let shifted = shift_cells(&self.cells, dy, dx);
                let out = BasicState { cells: shifted };
                proof {
                    assert forall|j: int|
                        0 <= j < shifted@.len() implies {
                        &&& -0x4000_0000_0000_0000 <= (#[trigger] shifted@[j]).0
                            <= 0x3fff_ffff_ffff_ffff
                        &&& -0x4000_0000_0000_0000 <= shifted@[j].1 <= 0x3fff_ffff_ffff_ffff
                    } by {
                        assert(shifted@[j] == (
                            (self.cells@[j].0 - dy) as i64,
                            (self.cells@[j].1 - dx) as i64,
                        ));
                        assert(-0x1000_0000_0000_0000 <= (self.cells@[j]).0
                            <= 0x1000_0000_0000_0000 && -0x1000_0000_0000_0000
                            <= (self.cells@[j]).1 <= 0x1000_0000_0000_0000);
                    }
                    assert(out.set() == shift(self.set(), -(dy as int), -(dx as int)));
                    assert(dy as int == y0 + (y1 + 1 - y0) / 2);
                    assert(dx as int == x0 + (x1 + 1 - x0) / 2);
                    assert(out.set() == shift(
                        self.set(),
                        -((y0 as int) + ((y1 as int) + 1 - (y0 as int)) / 2),
                        -((x0 as int) + ((x1 as int) + 1 - (x0 as int)) / 2),
                    ));
                }
                out
            },
        }
    }

    /// Parse a plain-text pattern, then centre it.
    pub fn from_str(s: &str) -> (r: Result<BasicState, String>)
        requires
            s@.len() <= 0x1000_0000_0000_0000,
        ensures
            r is Ok <==> chars_ok(s@, 0),
            r is Err ==> exists|j: int|
                {
                    &&& 0 <= j < s@.len()
                    &&& !(#[trigger] crate::pattern::ok_at(s@, j))
                    &&& (forall|jj: int| 0 <= jj < j ==> crate::pattern::ok_at(s@, jj))
                    &&& (r->Err_0)@ == "Unexpected character "@ + seq![s@[j]]
                },
            r is Ok ==> {
                let st = r->Ok_0;
                &&& st.wf()
                &&& (raw_cells(s@, 0, 0, 0) == Set::<(int, int)>::empty() ==> st.set()
                    == raw_cells(s@, 0, 0, 0))
                &&& (raw_cells(s@, 0, 0, 0) != Set::<(int, int)>::empty() ==> exists|
                    y0: int,
                    y1: int,
                    x0: int,
                    x1: int,
                |
                    {
                        &&& is_min_row_of(raw_cells(s@, 0, 0, 0), y0)
                        &&& is_max_row_of(raw_cells(s@, 0, 0, 0), y1)
                        &&& is_min_col_of(raw_cells(s@, 0, 0, 0), x0)
                        &&& is_max_col_of(raw_cells(s@, 0, 0, 0), x1)
                        &&& st.set() == #[trigger] shift(
                            raw_cells(s@, 0, 0, 0),
                            -(y0 + (y1 + 1 - y0) / 2),
                            -(x0 + (x1 + 1 - x0) / 2),
                        )
                    })
            },
    {
        match parse_cells(s) {
            Err(e) => Err(e),
            Ok(v) => {
                let st = BasicState { cells: v };
                let ghost raw = raw_cells(s@, 0, 0, 0);
                proof {
                    assert forall|i: int|
                        0 <= i < st.cells@.len() implies {
                        &&& -0x1000_0000_0000_0000 <= (#[trigger] st.cells@[i]).0
                            <= 0x1000_0000_0000_0000
                        &&& -0x1000_0000_0000_0000 <= st.cells@[i].1 <= 0x1000_0000_0000_0000
                    } by {
                        assert(0 <= (st.cells@[i]).0 <= s@.len() && 0 <= (st.cells@[i]).1
                            <= s@.len());
                    }
                    assert(norm_coords_ok(st.cells@));
                }
                let r = st.normalize();
                proof {
                    if st.cells@.len() == 0 {
                        assert(raw =~= Set::<(int, int)>::empty());
                        assert(r.set() == raw);
                    } else {
                        assert(raw.contains(((st.cells@[0]).0 as int, (st.cells@[0]).1 as int)))
                            by {
                            assert(st.set().contains(
                                ((st.cells@[0]).0 as int, (st.cells@[0]).1 as int),
                            ));
                        }
                        assert(raw != Set::<(int, int)>::empty());
                        let (y0, y1, x0, x1) = choose|y0: int, y1: int, x0: int, x1: int|
                            {
                                &&& (forall|i: int|
                                    0 <= i < st.cells@.len() ==> y0 <= (
                                    #[trigger] st.cells@[i]).0 <= y1 && x0 <= st.cells@[i].1 <= x1)
                                &&& (exists|i: int|
                                    0 <= i < st.cells@.len() && (#[trigger] st.cells@[i]).0 == y0)
                                &&& (exists|i: int|
                                    0 <= i < st.cells@.len() && (#[trigger] st.cells@[i]).0 == y1)
                                &&& (exists|i: int|
                                    0 <= i < st.cells@.len() && (#[trigger] st.cells@[i]).1 == x0)
                                &&& (exists|i: int|
                                    0 <= i < st.cells@.len() && (#[trigger] st.cells@[i]).1 == x1)
                                &&& r.set() == #[trigger] shift(
                                    st.set(),
                                    -(y0 + (y1 + 1 - y0) / 2),
                                    -(x0 + (x1 + 1 - x0) / 2),
                                )
                            };
                        lemma_list_minima_to_set(st.cells@, y0, x0);
                        lemma_list_maxima_to_set(st.cells@, y1, x1);
                        assert(is_min_row_of(raw, y0) && is_max_row_of(raw, y1) && is_min_col_of(
                            raw,
                            x0,
                        ) && is_max_col_of(raw, x1) && r.set() == shift(
                            raw,
                            -(y0 + (y1 + 1 - y0) / 2),
                            -(x0 + (x1 + 1 - x0) / 2),
                        ));
                    }
                }
                Ok(r)
            },
        }
    }

    /// Render as plain text, in reading order.
    pub fn to_string(&self) -> (r: String)
        requires
            self.wf(),
        ensures
            self.cells@.len() == 0 ==> r@ == Seq::<char>::empty(),
            self.cells@.len() > 0 ==> exists|x0: int|
                {
                    &&& #[trigger] is_min_x(sorted_spec(self.cells@), x0)
                    &&& r@ == render_from(
                        sorted_spec(self.cells@),
                        x0,
                        0,
                        sorted_spec(self.cells@)[0].0 as int,
                        x0,
                    )
                },
    {
        render_cells(&self.cells)
    }

    /// The live cells as a list, without duplicates.
    pub fn to_cells(&self) -> (r: Vec<(i64, i64)>)
        requires
            self.wf(),
        ensures
            r@ == self.cells@,
    {
        let mut r: Vec<(i64, i64)> = Vec::new();
        let mut i: usize = 0;
        while i < self.cells.len()
            invariant
                i <= self.cells@.len(),
                r@ == self.cells@.subrange(0, i as int),
            decreases self.cells@.len() - i,
        {
            r.push(self.cells[i]);
            proof {
                assert(r@ =~= self.cells@.subrange(0, i + 1));
            }
            i = i + 1;
        }
        proof {
            assert(r@ =~= self.cells@);
        }
        r
    }
}

impl Default for BasicState {
    fn default() -> (r: BasicState)
        ensures
            r.wf(),
            r.set() == Set::<(int, int)>::empty(),
    {
        BasicState::new()
    }
}

impl PartialEq for BasicState {
    /// Equality of the denoted cell sets.
    fn eq(&self, other: &BasicState) -> (r: bool) {
        let a = dedup(&self.cells);
        let b = dedup(&other.cells);
        cells_equal(&a, &b)
    }
}

impl vstd::std_specs::cmp::PartialEqSpecImpl for BasicState {
    open spec fn obeys_eq_spec() -> bool {
        true
    }

    open spec fn eq_spec(&self, other: &BasicState) -> bool {
        cell_set(self.cells@) == cell_set(other.cells@)
    }
}

} // verus!
