//! Centred coordinates `(y, x, z)`: a node of depth `z` spans the cells
//! `y, x in [-2^(z-1), 2^(z-1))`, and `z = 0` addresses the single cell
//! `(y, x)`. `descend` and `quadrants` are the only operations that apply
//! the encoding; everything above composes them.

use vstd::prelude::*;
use vstd::arithmetic::power2::{
    pow2, lemma_pow2_strictly_increases, lemma2_to64, lemma2_to64_rest,
};
use crate::arith::{pow2_i64, lemma_pow2_le_max};

verus! {

#[derive(Clone, Copy, PartialEq, Eq, Structural, Debug)]
pub struct P3 {
    pub y: i64,
    pub x: i64,
    pub z: usize,
}

/// Which quadrant of a centred square holds the cell at `(y, x)`:
/// 0 = NW, 1 = NE, 2 = SW, 3 = SE.
pub open spec fn quad_index(y: int, x: int) -> int {
    if y < 0 {
        if x < 0 { 0 } else { 1 }
    } else {
        if x < 0 { 2 } else { 3 }
    }
}

/// One coordinate component, re-expressed relative to the centre of the child
/// quadrant it falls in: the descend step of the address algebra.
pub open spec fn sub_coord(c: int, z: nat) -> int {
    if z <= 1 {
        0
    } else if c < 0 {
        c + pow2((z - 2) as nat)
    } else {
        c - pow2((z - 2) as nat)
    }
}

/// `(y, x)` addresses a cell inside a centred square of depth `z`.
pub open spec fn in_square(y: int, x: int, z: nat) -> bool {
    if z == 0 {
        y == 0 && x == 0
    } else {
        &&& -pow2((z - 1) as nat) <= y < pow2((z - 1) as nat)
        &&& -pow2((z - 1) as nat) <= x < pow2((z - 1) as nat)
    }
}

/// The square addressed by `o` lies inside the square addressed by `s`:
/// equality at equal-or-shallower depth, a centred box test below it.
pub open spec fn spec_contains(s: P3, o: P3) -> bool {
    if o.z >= s.z {
        s == o
    } else {
        let w = pow2((s.z - o.z - 1) as nat);
        &&& -w <= o.y - s.y < w
        &&& -w <= o.x - s.x < w
    }
}

/// Descending keeps a coordinate inside its (half-sized) child square.
pub proof fn lemma_sub_in_square(y: int, x: int, z: nat)
    requires
        z >= 1,
        in_square(y, x, z),
    ensures
        in_square(sub_coord(y, z), sub_coord(x, z), (z - 1) as nat),
{
    if z >= 2 {
        crate::arith::lemma_pow2_double((z - 2) as nat);
    }
}

/// A cell inside a square is inside every deeper square.
pub proof fn lemma_in_square_mono(y: int, x: int, z1: nat, z2: nat)
    requires
        z1 <= z2,
        in_square(y, x, z1),
    ensures
        in_square(y, x, z2),
{
    if z1 == 0 {
        if z2 > 0 {
            crate::arith::lemma_pow2_pos_any((z2 - 1) as nat);
        }
    } else if z1 < z2 {
        crate::arith::lemma_pow2_le((z1 - 1) as nat, (z2 - 1) as nat);
    }
}

/// Two distinct in-range cells stay distinct under one descend step: the
/// quadrant index together with the re-centred coordinate determines the cell.
pub proof fn lemma_descend_injective(y: int, x: int, py: int, px: int, z: nat)
    requires
        z >= 1,
        in_square(y, x, z),
        in_square(py, px, z),
        quad_index(y, x) == quad_index(py, px),
        sub_coord(y, z) == sub_coord(py, z),
        sub_coord(x, z) == sub_coord(px, z),
    ensures
        y == py && x == px,
{
    if z == 1 {
        lemma2_to64();
    }
}

impl P3 {
    pub fn new(y: i64, x: i64, z: usize) -> (r: Self)
        ensures
            r == (P3 { y, x, z }),
    {
        Self { y, x, z }
    }

    pub fn origin(z: usize) -> (r: Self)
        ensures
            r == (P3 { y: 0i64, x: 0i64, z }),
    {
        Self::new(0, 0, z)
    }

    /// The cell `(y, x)` fits inside a tree of depth `z` about the origin.
    pub fn within_tree(&self) -> (r: bool)
        ensures
            r == in_square(self.y as int, self.x as int, self.z as nat),
    {
        if self.z == 0 {
            self.y == 0 && self.x == 0
        } else if self.z >= 64 {
            proof {
                if ((self.z - 1) as nat) > 63 {
                    lemma_pow2_strictly_increases(63, (self.z - 1) as nat);
                }
                lemma2_to64_rest();
            }
            true
        } else {
            let w = pow2_i64(self.z - 1);
            -w <= self.y && self.y < w && -w <= self.x && self.x < w
        }
    }

    /// Box test for one centred address lying inside another.
    pub fn contains(&self, other: P3) -> (r: bool)
        requires
            -0x8000_0000_0000_0000 <= other.y - self.y <= 0x7fff_ffff_ffff_ffff,
            -0x8000_0000_0000_0000 <= other.x - self.x <= 0x7fff_ffff_ffff_ffff,
        ensures
            r == spec_contains(*self, other),
    {
        if other.z >= self.z {
            return *self == other;
        }
        let rel_y = other.y - self.y;
        let rel_x = other.x - self.x;
        let rel_z = self.z - other.z;
        if rel_z - 1 >= 63 {
            proof {
                if ((rel_z - 1) as nat) > 63 {
                    lemma_pow2_strictly_increases(63, (rel_z - 1) as nat);
                }
                lemma2_to64_rest();
            }
            true
        } else {
            let w = pow2_i64(rel_z - 1);
            -w <= rel_y && rel_y < w && -w <= rel_x && rel_x < w
        }
    }

    /// Step one level down: report the quadrant holding this cell and
    /// re-centre the coordinate on that quadrant. `None` at depth 0.
    pub fn descend(&mut self) -> (r: Option<usize>)
        requires
            old(self).z <= 64,
        ensures
            r is Some <==> old(self).z >= 1,
            r is None ==> *final(self) == *old(self),
            r is Some ==> {
                &&& r->0 == quad_index(old(self).y as int, old(self).x as int)
                &&& final(self).z == old(self).z - 1
                &&& final(self).y as int == sub_coord(old(self).y as int, old(self).z as nat)
                &&& final(self).x as int == sub_coord(old(self).x as int, old(self).z as nat)
            },
    {
        if self.z == 0 {
            return None;
        }
        let i: usize = if self.y < 0 {
            if self.x < 0 { 0 } else { 1 }
        } else {
            if self.x < 0 { 2 } else { 3 }
        };
        if self.z == 1 {
            self.y = 0;
            self.x = 0;
        } else {
            proof {
                lemma_pow2_le_max((self.z - 2) as nat);
            }
            let w = pow2_i64(self.z - 2);
            self.y = if self.y < 0 { self.y + w } else { self.y - w };
            self.x = if self.x < 0 { self.x + w } else { self.x - w };
        }
        self.z = self.z - 1;
        Some(i)
    }

    /// The centres of the four subquadrants, NW, NE, SW, SE. `None` at depth 0.
    pub fn quadrants(&self) -> (r: Option<[P3; 4]>)
        requires
            self.z <= 63,
            -0x4000_0000_0000_0000 <= self.y <= 0x4000_0000_0000_0000,
            -0x4000_0000_0000_0000 <= self.x <= 0x4000_0000_0000_0000,
        ensures
            r is Some <==> self.z >= 1,
            r is Some ==> {
                let qs = r->0;
                let neg = if self.z == 1 { -1int } else { -pow2((self.z - 2) as nat) };
                let pos = if self.z == 1 { 0int } else { pow2((self.z - 2) as nat) as int };
                &&& qs@.len() == 4
                &&& qs@[0] == (P3 { y: (self.y + neg) as i64, x: (self.x + neg) as i64, z: (self.z - 1) as usize })
                &&& qs@[1] == (P3 { y: (self.y + neg) as i64, x: (self.x + pos) as i64, z: (self.z - 1) as usize })
                &&& qs@[2] == (P3 { y: (self.y + pos) as i64, x: (self.x + neg) as i64, z: (self.z - 1) as usize })
                &&& qs@[3] == (P3 { y: (self.y + pos) as i64, x: (self.x + pos) as i64, z: (self.z - 1) as usize })
            },
    {
        if self.z == 0 {
            return None;
        }
        proof {
            lemma2_to64();
        }
        let (pos, neg): (i64, i64) = if self.z == 1 {
            (0, -1)
        } else {
            proof {
                crate::arith::lemma_pow2_double((self.z - 2) as nat);
                crate::arith::lemma_pow2_le((self.z - 2) as nat, 61);
                lemma2_to64_rest();
            }
            let w = pow2_i64(self.z - 2);
            (w, -w)
        };
        let z = self.z - 1;
        Some([
            P3 { y: self.y + neg, x: self.x + neg, z },
            P3 { y: self.y + neg, x: self.x + pos, z },
            P3 { y: self.y + pos, x: self.x + neg, z },
            P3 { y: self.y + pos, x: self.x + pos, z },
        ])
    }
}

} // verus!
