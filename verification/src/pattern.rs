//! Plain lists of live cells: membership, insertion without duplicates,
//! sorting and extrema (through itertools), the plain-text pattern format,
//! and the bounding-box normalisations.

use vstd::prelude::*;
use crate::life::shift;
use itertools::Itertools;
use itertools::MinMaxResult;

verus! {

broadcast use vstd::seq_lib::group_to_multiset_ensures;

/// The set of coordinates a cell list denotes.
pub open spec fn cell_set(s: Seq<(i64, i64)>) -> Set<(int, int)> {
    Set::new(
        |q: (int, int)|
            exists|i: int| 0 <= i < s.len() && (#[trigger] s[i]).0 == q.0 && s[i].1 == q.1,
    )
}

pub open spec fn no_dup(s: Seq<(i64, i64)>) -> bool {
    forall|i: int, j: int| 0 <= i < j < s.len() ==> #[trigger] s[i] != #[trigger] s[j]
}

/// All coordinates comfortably inside the machine range, so that shifting a
/// pattern and looking at neighbours can never overflow.
pub open spec fn coords_ok(s: Seq<(i64, i64)>) -> bool {
    forall|i: int|
        0 <= i < s.len() ==> {
            &&& -0x4000_0000_0000_0000 <= (#[trigger] s[i]).0 <= 0x3fff_ffff_ffff_ffff
            &&& -0x4000_0000_0000_0000 <= s[i].1 <= 0x3fff_ffff_ffff_ffff
        }
}

/// Lexicographic order on coordinates, the order `Ord` gives tuples.
pub open spec fn lex_le(a: (i64, i64), b: (i64, i64)) -> bool {
    a.0 < b.0 || (a.0 == b.0 && a.1 <= b.1)
}

/// Appending one cell to a list adds exactly that coordinate to its set.
pub proof fn lemma_cell_set_push(pre: Seq<(i64, i64)>, p: (i64, i64))
    ensures
        cell_set(pre.push(p)) == cell_set(pre).insert((p.0 as int, p.1 as int)),
{
    let post = pre.push(p);
    assert forall|q: (int, int)|
        cell_set(post).contains(q) == cell_set(pre).insert((p.0 as int, p.1 as int)).contains(
            q,
        ) by {
        if cell_set(post).contains(q) {
            let j = choose|j: int|
                0 <= j < post.len() && (#[trigger] post[j]).0 == q.0 && post[j].1 == q.1;
            if j < pre.len() {
                assert(pre[j] == post[j]);
            }
        }
        if cell_set(pre).contains(q) {
            let j = choose|j: int|
                0 <= j < pre.len() && (#[trigger] pre[j]).0 == q.0 && pre[j].1 == q.1;
            assert(post[j] == pre[j]);
        }
        if q == (p.0 as int, p.1 as int) {
            assert(post[post.len() - 1] == p);
        }
    }
    assert(cell_set(post) =~= cell_set(pre).insert((p.0 as int, p.1 as int)));
}

pub fn contains_cell(v: &Vec<(i64, i64)>, p: (i64, i64)) -> (r: bool)
    ensures
        r == cell_set(v@).contains((p.0 as int, p.1 as int)),
{
    let mut i: usize = 0;
    while i < v.len()
        invariant
            i <= v@.len(),
            forall|j: int| 0 <= j < i ==> #[trigger] v@[j] != p,
        decreases v@.len() - i,
    {
        if v[i].0 == p.0 && v[i].1 == p.1 {
            proof {
                assert((v@[i as int]).0 == p.0 as int && (v@[i as int]).1 == p.1 as int);
                assert(cell_set(v@).contains((p.0 as int, p.1 as int)));
            }
            return true;
        }
        i = i + 1;
    }
    proof {
        if cell_set(v@).contains((p.0 as int, p.1 as int)) {
            let j = choose|j: int|
                0 <= j < v@.len() && (#[trigger] v@[j]).0 == p.0 as int && v@[j].1 == p.1 as int;
            assert(v@[j] != p);
        }
    }
    false
}

/// Insert a cell, keeping the list free of duplicates.
pub fn insert_cell(v: &mut Vec<(i64, i64)>, p: (i64, i64))
    requires
        no_dup(old(v)@),
    ensures
        no_dup(final(v)@),
        cell_set(final(v)@) == cell_set(old(v)@).insert((p.0 as int, p.1 as int)),
        final(v)@.len() >= old(v)@.len(),
        forall|i: int|
            0 <= i < final(v)@.len() ==> #[trigger] final(v)@[i] == p || old(v)@.contains(
                final(v)@[i],
            ),
{
    let present = contains_cell(v, p);
    if !present {
        proof {
            lemma_cell_set_push(v@, p);
        }
        v.push(p);
    } else {
        proof {
            assert(cell_set(v@) =~= cell_set(v@).insert((p.0 as int, p.1 as int)));
        }
    }
    proof {
        assert forall|i: int|
            0 <= i < v@.len() implies #[trigger] v@[i] == p || old(v)@.contains(v@[i]) by {
            if i < old(v)@.len() {
                assert(old(v)@[i] == v@[i]);
            }
        }
    }
}

/// Relies on `itertools::Itertools::sorted`, which collects into a vector and
/// runs the standard stable sort under the derived lexicographic `Ord` of
/// integer pairs: the result is an ascending rearrangement of the input.
#[verifier::external_body]
pub fn sorted_cells(v: &Vec<(i64, i64)>) -> (r: Vec<(i64, i64)>)
    ensures
        r@.len() == v@.len(),
        r@.to_multiset() == v@.to_multiset(),
        forall|i: int, j: int| 0 <= i < j < r@.len() ==> lex_le(#[trigger] r@[i], #[trigger] r@[j]),
{
    v.iter().copied().sorted().collect()
}

/// Relies on `itertools::Itertools::minmax`: over a non-empty iterator it
/// yields the least and greatest element (one element stands for both).
#[verifier::external_body]
pub fn minmax_i64(v: &Vec<i64>) -> (r: Option<(i64, i64)>)
    ensures
        r is None <==> v@.len() == 0,
        r is Some ==> {
            let (lo, hi) = r->0;
            &&& v@.contains(lo)
            &&& v@.contains(hi)
            &&& forall|i: int| 0 <= i < v@.len() ==> lo <= #[trigger] v@[i] <= hi
        },
{
    match v.iter().copied().minmax() {
        MinMaxResult::NoElements => None,
        MinMaxResult::OneElement(a) => Some((a, a)),
        MinMaxResult::MinMax(a, b) => Some((a, b)),
    }
}


/// `v` is the least row of the set (some cell has it; none is above it).
pub open spec fn is_min_row_of(s: Set<(int, int)>, v: int) -> bool {
    &&& exists|p: (int, int)| #[trigger] s.contains(p) && p.0 == v
    &&& forall|p: (int, int)| #[trigger] s.contains(p) ==> p.0 >= v
}

pub open spec fn is_min_col_of(s: Set<(int, int)>, v: int) -> bool {
    &&& exists|p: (int, int)| #[trigger] s.contains(p) && p.1 == v
    &&& forall|p: (int, int)| #[trigger] s.contains(p) ==> p.1 >= v
}

pub open spec fn is_max_row_of(s: Set<(int, int)>, v: int) -> bool {
    &&& exists|p: (int, int)| #[trigger] s.contains(p) && p.0 == v
    &&& forall|p: (int, int)| #[trigger] s.contains(p) ==> p.0 <= v
}

pub open spec fn is_max_col_of(s: Set<(int, int)>, v: int) -> bool {
    &&& exists|p: (int, int)| #[trigger] s.contains(p) && p.1 == v
    &&& forall|p: (int, int)| #[trigger] s.contains(p) ==> p.1 <= v
}

/// Extrema over the list's entries are extrema of its cell set.
pub proof fn lemma_list_minima_to_set(v: Seq<(i64, i64)>, dy: int, dx: int)
    requires
        exists|i: int| 0 <= i < v.len() && (#[trigger] v[i]).0 == dy,
        exists|i: int| 0 <= i < v.len() && (#[trigger] v[i]).1 == dx,
        forall|i: int| 0 <= i < v.len() ==> (#[trigger] v[i]).0 >= dy && v[i].1 >= dx,
    ensures
        is_min_row_of(cell_set(v), dy),
        is_min_col_of(cell_set(v), dx),
{
    let iy = choose|i: int| 0 <= i < v.len() && (#[trigger] v[i]).0 == dy;
    let ix = choose|i: int| 0 <= i < v.len() && (#[trigger] v[i]).1 == dx;
    assert(cell_set(v).contains(((v[iy]).0 as int, (v[iy]).1 as int)));
    assert(cell_set(v).contains(((v[ix]).0 as int, (v[ix]).1 as int)));
    assert forall|p: (int, int)| #[trigger] cell_set(v).contains(p) implies p.0 >= dy && p.1
        >= dx by {
        let j = choose|j: int| 0 <= j < v.len() && (#[trigger] v[j]).0 == p.0 && v[j].1 == p.1;
    }
}

pub proof fn lemma_list_maxima_to_set(v: Seq<(i64, i64)>, dy: int, dx: int)
    requires
        exists|i: int| 0 <= i < v.len() && (#[trigger] v[i]).0 == dy,
        exists|i: int| 0 <= i < v.len() && (#[trigger] v[i]).1 == dx,
        forall|i: int| 0 <= i < v.len() ==> (#[trigger] v[i]).0 <= dy && v[i].1 <= dx,
    ensures
        is_max_row_of(cell_set(v), dy),
        is_max_col_of(cell_set(v), dx),
{
    let iy = choose|i: int| 0 <= i < v.len() && (#[trigger] v[i]).0 == dy;
    let ix = choose|i: int| 0 <= i < v.len() && (#[trigger] v[i]).1 == dx;
    assert(cell_set(v).contains(((v[iy]).0 as int, (v[iy]).1 as int)));
    assert(cell_set(v).contains(((v[ix]).0 as int, (v[ix]).1 as int)));
    assert forall|p: (int, int)| #[trigger] cell_set(v).contains(p) implies p.0 <= dy && p.1
        <= dx by {
        let j = choose|j: int| 0 <= j < v.len() && (#[trigger] v[j]).0 == p.0 && v[j].1 == p.1;
    }
}

/// A duplicate-free list denotes a set of exactly its length.
pub proof fn lemma_cell_set_len(v: Seq<(i64, i64)>)
    requires
        no_dup(v),
    ensures
        cell_set(v).finite(),
        cell_set(v).len() == v.len(),
    decreases v.len(),
{
    if v.len() == 0 {
        assert(cell_set(v) =~= Set::<(int, int)>::empty());
    } else {
        let t = v.drop_last();
        let last = v.last();
        assert(forall|i: int, j: int| 0 <= i < j < t.len() ==> #[trigger] t[i] != #[trigger] t[j]);
        lemma_cell_set_len(t);
        assert(v =~= t.push(last));
        lemma_cell_set_push(t, last);
        assert(cell_set(v) == cell_set(t).insert((last.0 as int, last.1 as int)));
        assert(!cell_set(t).contains((last.0 as int, last.1 as int))) by {
            if cell_set(t).contains((last.0 as int, last.1 as int)) {
                let j = choose|j: int|
                    0 <= j < t.len() && (#[trigger] t[j]).0 == last.0 as int && t[j].1 == last.1
                        as int;
                assert(v[j] == t[j]);
                assert(v[j] == last);
                assert(v[j] != v[v.len() - 1]);
            }
        }
    }
}

/// Two duplicate-free ascending cell lists with the same members are equal.
pub proof fn lemma_sorted_unique_eq(s1: Seq<(i64, i64)>, s2: Seq<(i64, i64)>)
    requires
        forall|i: int, j: int| 0 <= i < j < s1.len() ==> lex_le(#[trigger] s1[i], #[trigger] s1[j]),
        forall|i: int, j: int| 0 <= i < j < s2.len() ==> lex_le(#[trigger] s2[i], #[trigger] s2[j]),
        no_dup(s1),
        no_dup(s2),
        forall|p: (i64, i64)| s1.contains(p) <==> #[trigger] s2.contains(p),
    ensures
        s1 == s2,
    decreases s1.len(),
{
    if s1.len() == 0 {
        if s2.len() > 0 {
            assert(s2.contains(s2[0]));
            assert(s1.contains(s2[0]));
        }
        assert(s1 =~= s2);
    } else {
        let h1 = s1[0];
        assert(s1.contains(h1));
        assert(s2.contains(h1));
        assert(s2.len() > 0);
        let h2 = s2[0];
        assert(s2.contains(h2));
        assert(s1.contains(h2));
        // each head is a minimum of its list, so the heads agree
        let i2 = choose|i: int| 0 <= i < s2.len() && s2[i] == h1;
        if i2 > 0 {
            assert(lex_le(s2[0], s2[i2]));
        }
        let i1 = choose|i: int| 0 <= i < s1.len() && s1[i] == h2;
        if i1 > 0 {
            assert(lex_le(s1[0], s1[i1]));
        }
        assert(lex_le(h1, h2) && lex_le(h2, h1));
        assert(h1 == h2);
        let t1 = s1.subrange(1, s1.len() as int);
        let t2 = s2.subrange(1, s2.len() as int);
        assert forall|p: (i64, i64)| t1.contains(p) implies #[trigger] t2.contains(p) by {
            let i = choose|i: int| 0 <= i < t1.len() && t1[i] == p;
            assert(s1[i + 1] == p);
            assert(s1.contains(p));
            assert(s2.contains(p));
            let j = choose|j: int| 0 <= j < s2.len() && s2[j] == p;
            assert(p != h1);
            assert(j != 0);
            assert(t2[j - 1] == p);
        }
        assert forall|p: (i64, i64)| t2.contains(p) implies #[trigger] t1.contains(p) by {
            let i = choose|i: int| 0 <= i < t2.len() && t2[i] == p;
            assert(s2[i + 1] == p);
            assert(s2.contains(p));
            assert(s1.contains(p));
            let j = choose|j: int| 0 <= j < s1.len() && s1[j] == p;
            assert(p != h1);
            assert(j != 0);
            assert(t1[j - 1] == p);
        }
        assert forall|i: int, j: int| 0 <= i < j < t1.len() implies lex_le(
            #[trigger] t1[i],
            #[trigger] t1[j],
        ) by {
            assert(t1[i] == s1[i + 1] && t1[j] == s1[j + 1]);
        }
        assert forall|i: int, j: int| 0 <= i < j < t2.len() implies lex_le(
            #[trigger] t2[i],
            #[trigger] t2[j],
        ) by {
            assert(t2[i] == s2[i + 1] && t2[j] == s2[j + 1]);
        }
        assert forall|i: int, j: int| 0 <= i < j < t1.len() implies #[trigger] t1[i]
            != #[trigger] t1[j] by {
            assert(t1[i] == s1[i + 1] && t1[j] == s1[j + 1]);
        }
        assert forall|i: int, j: int| 0 <= i < j < t2.len() implies #[trigger] t2[i]
            != #[trigger] t2[j] by {
            assert(t2[i] == s2[i + 1] && t2[j] == s2[j + 1]);
        }
        lemma_sorted_unique_eq(t1, t2);
        assert(s1 =~= seq![h1] + t1);
        assert(s2 =~= seq![h1] + t2);
    }
}

/// The cells a pattern text denotes, scanning from position `i` with the
/// cursor at row `y`, column `x`: `'o'` is a live cell, a line separator
/// starts the next row, any other character leaves the grid unchanged.
pub open spec fn raw_cells(s: Seq<char>, i: int, y: int, x: int) -> Set<(int, int)>
    decreases s.len() - i,
{
    if i < 0 || i >= s.len() {
        Set::empty()
    } else if s[i] == '\n' {
        raw_cells(s, i + 1, y + 1, 0)
    } else if s[i] == 'o' {
        raw_cells(s, i + 1, y, x + 1).insert((y, x))
    } else if s[i] == '\r' && i + 1 < s.len() && s[i + 1] == '\n' {
        raw_cells(s, i + 1, y, x)
    } else {
        raw_cells(s, i + 1, y, x + 1)
    }
}

/// Scanning can only find cells at or after the cursor, in reading order.
pub proof fn lemma_raw_order(s: Seq<char>, i: int, y: int, x: int)
    ensures
        forall|q: (int, int)|
            #[trigger] raw_cells(s, i, y, x).contains(q) ==> q.0 > y || (q.0 == y && q.1 >= x),
    decreases s.len() - i,
{
    if i < 0 || i >= s.len() {
    } else if s[i] == '\n' {
        lemma_raw_order(s, i + 1, y + 1, 0);
        assert(raw_cells(s, i, y, x) == raw_cells(s, i + 1, y + 1, 0));
        assert forall|q: (int, int)| #[trigger] raw_cells(s, i, y, x).contains(q) implies q.0 > y
            || (q.0 == y && q.1 >= x) by {
            assert(raw_cells(s, i + 1, y + 1, 0).contains(q));
        }
    } else if s[i] == '\r' && i + 1 < s.len() && s[i + 1] == '\n' {
        lemma_raw_order(s, i + 1, y, x);
        assert forall|q: (int, int)| #[trigger] raw_cells(s, i, y, x).contains(q) implies q.0 > y
            || (q.0 == y && q.1 >= x) by {
            assert(raw_cells(s, i + 1, y, x).contains(q));
        }
    } else {
        lemma_raw_order(s, i + 1, y, x + 1);
        assert forall|q: (int, int)| #[trigger] raw_cells(s, i, y, x).contains(q) implies q.0 > y
            || (q.0 == y && q.1 >= x) by {
            if q != (y, x) {
                assert(raw_cells(s, i + 1, y, x + 1).contains(q));
            }
        }
    }
}

/// A character the pattern format accepts anywhere: a space, a live-cell
/// mark or a line separator.
pub open spec fn ok_char(c: char) -> bool {
    c == ' ' || c == 'o' || c == '\n'
}

/// The character at position `j` is acceptable: one of the three, or a
/// carriage return that is part of a two-character line break.
pub open spec fn ok_at(s: Seq<char>, j: int) -> bool {
    ok_char(s[j]) || (s[j] == '\r' && j + 1 < s.len() && s[j + 1] == '\n')
}

/// Every character from position `i` on is acceptable.
pub open spec fn chars_ok(s: Seq<char>, i: int) -> bool {
    forall|j: int| i <= j < s.len() ==> #[trigger] ok_at(s, j)
}

/// Relies on `format!` and `char`'s `Display`: a character formats as itself,
/// appended to the prefix.
#[verifier::external_body]
fn char_message(prefix: &str, c: char) -> (r: String)
    ensures
        r@ == prefix@ + seq![c],
{
    format!("{prefix}{c}")
}

/// Parse a plain-text pattern into its (unnormalised) list of live cells.
/// An unexpected character is reported, naming it.
pub fn parse_cells(s: &str) -> (r: Result<Vec<(i64, i64)>, String>)
    requires
        s@.len() <= 0x3fff_ffff_ffff_ffff,
    ensures
        r is Ok <==> chars_ok(s@, 0),
        r is Ok ==> {
            let v = r->Ok_0;
            &&& no_dup(v@)
            &&& coords_ok(v@)
            &&& cell_set(v@) == raw_cells(s@, 0, 0, 0)
            &&& forall|i: int|
                0 <= i < v@.len() ==> 0 <= (#[trigger] v@[i]).0 <= s@.len() && 0 <= v@[i].1
                    <= s@.len()
        },
        r is Err ==> exists|j: int|
            {
                &&& 0 <= j < s@.len()
                &&& !(#[trigger] ok_at(s@, j))
                &&& (forall|jj: int| 0 <= jj < j ==> ok_at(s@, jj))
                &&& (r->Err_0)@ == "Unexpected character "@ + seq![s@[j]]
            },
{
    let n = s.unicode_len();
    let mut v: Vec<(i64, i64)> = Vec::new();
    let mut i: usize = 0;
    let mut y: i64 = 0;
    let mut x: i64 = 0;
    while i < n
        invariant
            n == s@.len(),
            n <= 0x3fff_ffff_ffff_ffff,
            i <= n,
            0 <= y <= i,
            0 <= x <= i,
            no_dup(v@),
            coords_ok(v@),
            forall|j: int|
                0 <= j < v@.len() ==> 0 <= (#[trigger] v@[j]).0 <= n && 0 <= v@[j].1 <= n,
            forall|j: int| 0 <= j < i ==> #[trigger] ok_at(s@, j),
            raw_cells(s@, 0, 0, 0) == raw_cells(s@, i as int, y as int, x as int).union(
                cell_set(v@),
            ),
            forall|q: (int, int)|
                #[trigger] raw_cells(s@, i as int, y as int, x as int).contains(q) ==> !cell_set(
                    v@,
                ).contains(q),
        decreases n - i,
    {
        let c = s.get_char(i);
        let ghost pre_set = raw_cells(s@, i as int, y as int, x as int);
        let ghost vset = cell_set(v@);
        if c == '\n' {
            proof {
                assert(pre_set == raw_cells(s@, i as int + 1, y as int + 1, 0));
            }
            y = y + 1;
            x = 0;
        } else if c == 'o' {
            proof {
                assert(pre_set == raw_cells(s@, i as int + 1, y as int, x as int + 1).insert(
                    (y as int, x as int),
                ));
                assert(pre_set.contains((y as int, x as int)));
                assert(!vset.contains((y as int, x as int)));
                lemma_cell_set_push(v@, (y, x));
                lemma_raw_order(s@, i as int + 1, y as int, x as int + 1);
            }
            v.push((y, x));
            x = x + 1;
        } else if c == ' ' {
            proof {
                assert(pre_set == raw_cells(s@, i as int + 1, y as int, x as int + 1));
            }
            x = x + 1;
        } else if c == '\r' && i + 1 < n && s.get_char(i + 1) == '\n' {
            proof {
                assert(pre_set == raw_cells(s@, i as int + 1, y as int, x as int));
                assert(ok_at(s@, i as int));
            }
        } else {
            let e = char_message("Unexpected character ", c);
            proof {
                assert(s@[i as int] == c);
                assert(!ok_at(s@, i as int));
                assert(!chars_ok(s@, 0));
                assert(e@ == "Unexpected character "@ + seq![s@[i as int]]);
            }
            return Err(e);
        }
        i = i + 1;
        proof {
            assert(raw_cells(s@, 0, 0, 0) =~= raw_cells(s@, i as int, y as int, x as int).union(
                cell_set(v@),
            ));
            lemma_raw_order(s@, i as int, y as int, x as int);
            assert forall|q: (int, int)|
                #[trigger] raw_cells(s@, i as int, y as int, x as int).contains(q) implies
                !cell_set(v@).contains(q) by {
                assert(pre_set.contains(q) || q.0 > y || (q.0 == y && q.1 >= x));
                if pre_set.contains(q) {
                    assert(!vset.contains(q));
                }
                assert(q.0 > y || (q.0 == y && q.1 >= x) ==> q != (y as int, x as int) || true);
            }
        }
    }
    proof {
        assert(raw_cells(s@, n as int, y as int, x as int) =~= Set::<(int, int)>::empty());
        assert(cell_set(v@) =~= raw_cells(s@, 0, 0, 0));
        assert(chars_ok(s@, 0));
    }
    Ok(v)
}

/// Least and greatest row and column of a cell list:
/// `((min_y, max_y), (min_x, max_x))`, or `None` when it is empty.
pub fn bounds(v: &Vec<(i64, i64)>) -> (r: Option<((i64, i64), (i64, i64))>)
    ensures
        r is None <==> v@.len() == 0,
        r is Some ==> {
            let ((y0, y1), (x0, x1)) = r->0;
            &&& exists|i: int| 0 <= i < v@.len() && (#[trigger] v@[i]).0 == y0
            &&& exists|i: int| 0 <= i < v@.len() && (#[trigger] v@[i]).0 == y1
            &&& exists|i: int| 0 <= i < v@.len() && (#[trigger] v@[i]).1 == x0
            &&& exists|i: int| 0 <= i < v@.len() && (#[trigger] v@[i]).1 == x1
            &&& forall|i: int| 0 <= i < v@.len() ==> y0 <= (#[trigger] v@[i]).0 <= y1
            &&& forall|i: int| 0 <= i < v@.len() ==> x0 <= (#[trigger] v@[i]).1 <= x1
        },
{
    let mut ys: Vec<i64> = Vec::new();
    let mut xs: Vec<i64> = Vec::new();
    let mut i: usize = 0;
    while i < v.len()
        invariant
            i <= v@.len(),
            ys@.len() == i,
            xs@.len() == i,
            forall|j: int| 0 <= j < i ==> #[trigger] ys@[j] == v@[j].0,
            forall|j: int| 0 <= j < i ==> #[trigger] xs@[j] == v@[j].1,
        decreases v@.len() - i,
    {
        let p = v[i];
        ys.push(p.0);
        xs.push(p.1);
        i = i + 1;
    }
    let my = minmax_i64(&ys);
    let mx = minmax_i64(&xs);
    match (my, mx) {
        (Some((y0, y1)), Some((x0, x1))) => {
            proof {
                let iy0 = choose|j: int| 0 <= j < ys@.len() && ys@[j] == y0;
                let iy1 = choose|j: int| 0 <= j < ys@.len() && ys@[j] == y1;
                let ix0 = choose|j: int| 0 <= j < xs@.len() && xs@[j] == x0;
                let ix1 = choose|j: int| 0 <= j < xs@.len() && xs@[j] == x1;
                assert(ys@.contains(y0) && ys@.contains(y1) && xs@.contains(x0) && xs@.contains(
                    x1,
                ));
                assert(v@[iy0].0 == y0 && v@[iy1].0 == y1 && v@[ix0].1 == x0 && v@[ix1].1 == x1);
                assert forall|j: int| 0 <= j < v@.len() implies y0 <= (#[trigger] v@[j]).0 <= y1
                    && x0 <= v@[j].1 <= x1 by {
                    assert(ys@[j] == v@[j].0 && xs@[j] == v@[j].1);
                }
            }
            Some(((y0, y1), (x0, x1)))
        },
        _ => None,
    }
}

/// Shift every cell by `(-dy, -dx)`.
pub fn shift_cells(v: &Vec<(i64, i64)>, dy: i64, dx: i64) -> (r: Vec<(i64, i64)>)
    requires
        coords_ok(v@),
        -0x4000_0000_0000_0000 <= dy <= 0x3fff_ffff_ffff_ffff,
        -0x4000_0000_0000_0000 <= dx <= 0x3fff_ffff_ffff_ffff,
    ensures
        r@.len() == v@.len(),
        forall|i: int|
            0 <= i < v@.len() ==> #[trigger] r@[i] == (
                (v@[i].0 - dy) as i64,
                (v@[i].1 - dx) as i64,
            ),
        cell_set(r@) == crate::life::shift(cell_set(v@), -dy as int, -dx as int),
        no_dup(v@) ==> no_dup(r@),
{
    let mut r: Vec<(i64, i64)> = Vec::new();
    let mut i: usize = 0;
    while i < v.len()
        invariant
            coords_ok(v@),
            -0x4000_0000_0000_0000 <= dy <= 0x3fff_ffff_ffff_ffff,
            -0x4000_0000_0000_0000 <= dx <= 0x3fff_ffff_ffff_ffff,
            i <= v@.len(),
            r@.len() == i,
            forall|j: int|
                0 <= j < i ==> #[trigger] r@[j] == ((v@[j].0 - dy) as i64, (v@[j].1 - dx) as i64),
        decreases v@.len() - i,
    {
        proof {
            assert(-0x4000_0000_0000_0000 <= (v@[i as int]).0 <= 0x3fff_ffff_ffff_ffff);
            assert(-0x4000_0000_0000_0000 <= (v@[i as int]).1 <= 0x3fff_ffff_ffff_ffff);
        }
        let p = v[i];
        r.push((p.0 - dy, p.1 - dx));
        i = i + 1;
    }
    proof {
        assert forall|q: (int, int)|
            cell_set(r@).contains(q) == crate::life::shift(
                cell_set(v@),
                -dy as int,
                -dx as int,
            ).contains(q) by {
            if cell_set(r@).contains(q) {
                let j = choose|j: int|
                    0 <= j < r@.len() && (#[trigger] r@[j]).0 == q.0 && r@[j].1 == q.1;
                assert(-0x4000_0000_0000_0000 <= (v@[j]).0 <= 0x3fff_ffff_ffff_ffff && -0x4000_0000_0000_0000 <= (v@[j]).1 <= 0x3fff_ffff_ffff_ffff);
                assert(r@[j] == ((v@[j].0 - dy) as i64, (v@[j].1 - dx) as i64));
                assert((v@[j]).0 == q.0 + dy && (v@[j]).1 == q.1 + dx);
            }
            if crate::life::shift(cell_set(v@), -dy as int, -dx as int).contains(q) {
                let j = choose|j: int|
                    0 <= j < v@.len() && (#[trigger] v@[j]).0 == q.0 + dy && v@[j].1 == q.1 + dx;
                assert(-0x4000_0000_0000_0000 <= (v@[j]).0 <= 0x3fff_ffff_ffff_ffff && -0x4000_0000_0000_0000 <= (v@[j]).1 <= 0x3fff_ffff_ffff_ffff);
                assert(r@[j] == ((v@[j].0 - dy) as i64, (v@[j].1 - dx) as i64));
                assert((r@[j]).0 == q.0 && (r@[j]).1 == q.1);
                assert(cell_set(r@).contains(q));
            }
        }
        assert(cell_set(r@) =~= crate::life::shift(cell_set(v@), -dy as int, -dx as int));
        if no_dup(v@) {
            assert forall|i1: int, j1: int| 0 <= i1 < j1 < r@.len() implies #[trigger] r@[i1]
                != #[trigger] r@[j1] by {
                assert(v@[i1] != v@[j1]);
                assert(-0x4000_0000_0000_0000 <= (v@[i1]).0 <= 0x3fff_ffff_ffff_ffff
                    && -0x4000_0000_0000_0000 <= (v@[i1]).1 <= 0x3fff_ffff_ffff_ffff);
                assert(-0x4000_0000_0000_0000 <= (v@[j1]).0 <= 0x3fff_ffff_ffff_ffff
                    && -0x4000_0000_0000_0000 <= (v@[j1]).1 <= 0x3fff_ffff_ffff_ffff);
                assert(r@[i1] == ((v@[i1].0 - dy) as i64, (v@[i1].1 - dx) as i64));
                assert(r@[j1] == ((v@[j1].0 - dy) as i64, (v@[j1].1 - dx) as i64));
            }
        }
    }
    r
}

/// A run of spaces.
pub open spec fn spaces(n: nat) -> Seq<char> {
    Seq::new(n, |i: int| ' ')
}

/// The text a sorted, duplicate-free cell list renders to, scanning from
/// entry `i` with the output cursor at `(cy, cx)`; after a line separator the
/// cursor returns to the bounding box's least column `x0`.
pub open spec fn render_from(s: Seq<(i64, i64)>, x0: int, i: int, cy: int, cx: int) -> Seq<char>
    decreases s.len() - i, (if 0 <= i < s.len() { s[i].0 - cy } else { 0 }),
{
    if i < 0 || i >= s.len() {
        Seq::empty()
    } else if (s[i].0 as int) > cy {
        seq!['\n'] + render_from(s, x0, i, cy + 1, x0)
    } else {
        spaces((s[i].1 - cx) as nat) + seq!['o'] + render_from(s, x0, i + 1, cy, s[i].1 + 1)
    }
}

/// The least column of any cell in the list.
pub open spec fn is_min_x(s: Seq<(i64, i64)>, x0: int) -> bool {
    &&& exists|i: int| 0 <= i < s.len() && (#[trigger] s[i]).1 == x0
    &&& forall|i: int| 0 <= i < s.len() ==> (#[trigger] s[i]).1 >= x0
}

/// The unique ascending duplicate-free rearrangement of a cell list.
pub open spec fn sorted_spec(s: Seq<(i64, i64)>) -> Seq<(i64, i64)> {
    choose|t: Seq<(i64, i64)>|
        {
            &&& t.to_multiset() == s.to_multiset()
            &&& forall|i: int, j: int|
                0 <= i < j < t.len() ==> lex_le(#[trigger] t[i], #[trigger] t[j])
        }
}


/// Insert an element into an ascending list, keeping it ascending.
pub open spec fn insert_sorted(t: Seq<(i64, i64)>, e: (i64, i64)) -> Seq<(i64, i64)>
    decreases t.len(),
{
    if t.len() == 0 {
        seq![e]
    } else if lex_le(e, t[0]) {
        seq![e] + t
    } else {
        seq![t[0]] + insert_sorted(t.subrange(1, t.len() as int), e)
    }
}

/// An ascending rearrangement of any cell list, by insertion.
pub open spec fn sort_cells_spec(v: Seq<(i64, i64)>) -> Seq<(i64, i64)>
    decreases v.len(),
{
    if v.len() == 0 {
        Seq::empty()
    } else {
        insert_sorted(sort_cells_spec(v.drop_last()), v.last())
    }
}

proof fn lemma_insert_sorted(t: Seq<(i64, i64)>, e: (i64, i64))
    requires
        forall|i: int, j: int| 0 <= i < j < t.len() ==> lex_le(#[trigger] t[i], #[trigger] t[j]),
    ensures
        insert_sorted(t, e).to_multiset() == t.to_multiset().insert(e),
        forall|i: int, j: int|
            0 <= i < j < insert_sorted(t, e).len() ==> lex_le(
                #[trigger] insert_sorted(t, e)[i],
                #[trigger] insert_sorted(t, e)[j],
            ),
    decreases t.len(),
{
    broadcast use vstd::seq_lib::group_to_multiset_ensures;

    let r = insert_sorted(t, e);
    if t.len() == 0 {
        assert(r =~= Seq::<(i64, i64)>::empty().push(e));
        assert(r.to_multiset() =~= t.to_multiset().insert(e));
    } else if lex_le(e, t[0]) {
        lemma_multiset_cons(e, t);
        assert forall|i: int, j: int| 0 <= i < j < r.len() implies lex_le(
            #[trigger] r[i],
            #[trigger] r[j],
        ) by {
            if i == 0 {
                assert(r[j] == t[j - 1]);
                if j > 1 {
                    assert(lex_le(t[0], t[j - 1]));
                }
            } else {
                assert(r[i] == t[i - 1] && r[j] == t[j - 1]);
            }
        }
    } else {
        let t1 = t.subrange(1, t.len() as int);
        assert forall|i: int, j: int| 0 <= i < j < t1.len() implies lex_le(
            #[trigger] t1[i],
            #[trigger] t1[j],
        ) by {
            assert(t1[i] == t[i + 1] && t1[j] == t[j + 1]);
        }
        lemma_insert_sorted(t1, e);
        let r1 = insert_sorted(t1, e);
        lemma_multiset_cons(t[0], r1);
        lemma_multiset_cons(t[0], t1);
        assert(t =~= seq![t[0]] + t1);
        assert(r.to_multiset() =~= t.to_multiset().insert(e)) by {
            assert(r.to_multiset() == r1.to_multiset().insert(t[0]));
            assert(r1.to_multiset() == t1.to_multiset().insert(e));
            assert(t.to_multiset() == t1.to_multiset().insert(t[0]));
            assert(t1.to_multiset().insert(e).insert(t[0]) =~= t1.to_multiset().insert(
                t[0],
            ).insert(e));
        }
        // the kept head is a lower bound for everything behind it
        assert(lex_le(t[0], e));
        assert forall|j: int| 0 <= j < r1.len() implies lex_le(t[0], #[trigger] r1[j]) by {
            assert(r1.to_multiset().count(r1[j]) > 0);
            assert(t1.to_multiset().insert(e).count(r1[j]) > 0);
            if r1[j] != e {
                assert(t1.to_multiset().count(r1[j]) > 0);
                assert(t1.contains(r1[j]));
                let k = choose|k: int| 0 <= k < t1.len() && t1[k] == r1[j];
                assert(t[k + 1] == r1[j]);
                assert(lex_le(t[0], t[k + 1]));
            }
        }
        assert forall|i: int, j: int| 0 <= i < j < r.len() implies lex_le(
            #[trigger] r[i],
            #[trigger] r[j],
        ) by {
            if i == 0 {
                assert(r[j] == r1[j - 1]);
                assert(lex_le(t[0], r1[j - 1]));
            } else {
                assert(r[i] == r1[i - 1] && r[j] == r1[j - 1]);
            }
        }
    }
}

proof fn lemma_sort_cells_spec(v: Seq<(i64, i64)>)
    ensures
        sort_cells_spec(v).to_multiset() == v.to_multiset(),
        forall|i: int, j: int|
            0 <= i < j < sort_cells_spec(v).len() ==> lex_le(
                #[trigger] sort_cells_spec(v)[i],
                #[trigger] sort_cells_spec(v)[j],
            ),
    decreases v.len(),
{
    broadcast use vstd::seq_lib::group_to_multiset_ensures;

    if v.len() == 0 {
    } else {
        let t = v.drop_last();
        lemma_sort_cells_spec(t);
        lemma_insert_sorted(sort_cells_spec(t), v.last());
        assert(v =~= t.push(v.last()));
        assert(sort_cells_spec(v).to_multiset() =~= v.to_multiset()) by {
            assert(sort_cells_spec(v).to_multiset() == sort_cells_spec(t).to_multiset().insert(
                v.last(),
            ));
            assert(v.to_multiset() == t.to_multiset().insert(v.last()));
        }
    }
}

/// `sorted_spec` is total: it always denotes the ascending rearrangement.
pub proof fn lemma_sorted_spec_is_sort(v: Seq<(i64, i64)>)
    ensures
        sorted_spec(v) == sort_cells_spec(v),
        sorted_spec(v).to_multiset() == v.to_multiset(),
        forall|i: int, j: int|
            0 <= i < j < sorted_spec(v).len() ==> lex_le(
                #[trigger] sorted_spec(v)[i],
                #[trigger] sorted_spec(v)[j],
            ),
{
    lemma_sort_cells_spec(v);
    lemma_sorted_is_sorted_spec(v, sort_cells_spec(v));
}

/// The least column is unique.
pub proof fn lemma_min_x_unique(s: Seq<(i64, i64)>, a: int, b: int)
    requires
        is_min_x(s, a),
        is_min_x(s, b),
    ensures
        a == b,
{
    let ia = choose|i: int| 0 <= i < s.len() && (#[trigger] s[i]).1 == a;
    let ib = choose|i: int| 0 <= i < s.len() && (#[trigger] s[i]).1 == b;
}

/// Render a cell list as plain text: live cells in reading order, blank
/// lines for empty rows, spaces for dead cells, trimmed at both ends.
pub fn render_cells(v: &Vec<(i64, i64)>) -> (r: String)
    requires
        coords_ok(v@),
        no_dup(v@),
    ensures
        v@.len() == 0 ==> r@ == Seq::<char>::empty(),
        v@.len() > 0 ==> exists|x0: int|
            {
                &&& #[trigger] is_min_x(sorted_spec(v@), x0)
                &&& r@ == render_from(sorted_spec(v@), x0, 0, sorted_spec(v@)[0].0 as int, x0)
            },
{
    let s = sorted_cells(v);
    proof {
        assert(v@.no_duplicates());
        v@.lemma_multiset_has_no_duplicates();
        assert forall|i: int| 0 <= i < s@.len() implies v@.contains(#[trigger] s@[i]) by {
            assert(s@.to_multiset().count(s@[i]) > 0);
        }
        s@.lemma_multiset_has_no_duplicates_conv();
        assert(s@.no_duplicates());
        assert(no_dup(s@));
        assert forall|i: int|
            0 <= i < s@.len() implies -0x4000_0000_0000_0000 <= (#[trigger] s@[i]).0
            <= 0x3fff_ffff_ffff_ffff && -0x4000_0000_0000_0000 <= s@[i].1
            <= 0x3fff_ffff_ffff_ffff by {
            assert(v@.contains(s@[i]));
            let j = choose|j: int| 0 <= j < v@.len() && v@[j] == s@[i];
            assert(-0x4000_0000_0000_0000 <= (v@[j]).0 <= 0x3fff_ffff_ffff_ffff && -0x4000_0000_0000_0000 <= (v@[j]).1 <= 0x3fff_ffff_ffff_ffff);
        }
        assert(coords_ok(s@));
        lemma_sorted_is_sorted_spec(v@, s@);
        reveal_strlit("");
        reveal_strlit("\n");
        reveal_strlit("o");
        reveal_strlit(" ");
    }
    let mut out = String::from_str("");
    proof {
        assert(out@ =~= Seq::<char>::empty());
    }
    if s.len() == 0 {
        return out;
    }
    let b = bounds(&s);
    let x0: i64 = match b {
        Some(((_, _), (bx0, _))) => bx0,
        None => 0,
    };
    proof {
        assert(is_min_x(s@, x0 as int));
        assert(s@[0].1 >= x0);
        assert(-0x4000_0000_0000_0000 <= x0 <= 0x3fff_ffff_ffff_ffff) by {
            assert(exists|i: int| 0 <= i < s@.len() && (#[trigger] s@[i]).1 == x0);
            let j = choose|j: int| 0 <= j < s@.len() && (#[trigger] s@[j]).1 == x0;
        }
    }
    let mut i: usize = 0;
    let mut cy: i64 = s[0].0;
    let mut cx: i64 = x0;
    while i < s.len()
        invariant
            coords_ok(s@),
            no_dup(s@),
            forall|a: int, b2: int|
                0 <= a < b2 < s@.len() ==> lex_le(#[trigger] s@[a], #[trigger] s@[b2]),
            s@.len() > 0,
            i <= s@.len(),
            -0x4000_0000_0000_0000 <= x0 <= 0x3fff_ffff_ffff_ffff,
            forall|j: int| 0 <= j < s@.len() ==> (#[trigger] s@[j]).1 >= x0,
            i < s@.len() ==> (cy < s@[i as int].0 || (cy == s@[i as int].0 && cx
                <= s@[i as int].1)),
            -0x4000_0000_0000_0000 <= cy <= 0x4000_0000_0000_0001,
            -0x4000_0000_0000_0000 <= cx <= 0x4000_0000_0000_0001,
            out@ + render_from(s@, x0 as int, i as int, cy as int, cx as int) == render_from(
                s@,
                x0 as int,
                0,
                s@[0].0 as int,
                x0 as int,
            ),
        decreases s@.len() - i, (if i < s@.len() { s@[i as int].0 - cy } else { 0 }),
    {
        let p = s[i];
        if p.0 > cy {
            proof {
                reveal_strlit("\n");
                assert(render_from(s@, x0 as int, i as int, cy as int, cx as int) == seq!['\n']
                    + render_from(s@, x0 as int, i as int, cy as int + 1, x0 as int));
                assert("\n"@ =~= seq!['\n']);
            }
            out.append("\n");
            cy = cy + 1;
            cx = x0;
            proof {
                assert(out@ + render_from(s@, x0 as int, i as int, cy as int, cx as int)
                    =~= render_from(s@, x0 as int, 0, s@[0].0 as int, x0 as int));
            }
        } else {
            proof {
                assert(s@[i as int].0 == cy);
            }
            let mut gap = p.1 - cx;
            let ghost tail = render_from(
                s@,
                x0 as int,
                i as int + 1,
                cy as int,
                s@[i as int].1 + 1,
            );
            proof {
                assert(render_from(s@, x0 as int, i as int, cy as int, cx as int) == spaces(
                    (s@[i as int].1 - cx) as nat,
                ) + seq!['o'] + tail);
            }
            while gap > 0
                invariant
                    0 <= gap,
                    i < s@.len(),
                    s@[i as int].0 == cy,
                    cx == s@[i as int].1 - gap,
                    -0x4000_0000_0000_0000 <= s@[i as int].1 <= 0x3fff_ffff_ffff_ffff,
                    -0x4000_0000_0000_0001 <= cx <= 0x4000_0000_0000_0001,
                    tail == render_from(s@, x0 as int, i as int + 1, cy as int, s@[i as int].1 + 1),
                    out@ + spaces(gap as nat) + seq!['o'] + tail == render_from(
                        s@,
                        x0 as int,
                        0,
                        s@[0].0 as int,
                        x0 as int,
                    ),
                decreases gap,
            {
                proof {
                    reveal_strlit(" ");
                    assert(" "@ =~= seq![' ']);
                    assert(spaces(gap as nat) =~= seq![' '] + spaces((gap - 1) as nat));
                    assert((out@ + seq![' ']) + spaces((gap - 1) as nat) + seq!['o'] + tail
                        =~= out@ + spaces(gap as nat) + seq!['o'] + tail);
                }
                out.append(" ");
                gap = gap - 1;
                cx = cx + 1;
            }
            proof {
                reveal_strlit("o");
                assert("o"@ =~= seq!['o']);
                assert(spaces(0) =~= Seq::<char>::empty());
                assert((out@ + seq!['o']) + tail =~= out@ + spaces(0) + seq!['o'] + tail);
            }
            out.append("o");
            cx = p.1 + 1;
            i = i + 1;
            proof {
                assert(out@ + render_from(s@, x0 as int, i as int, cy as int, cx as int)
                    =~= render_from(s@, x0 as int, 0, s@[0].0 as int, x0 as int));
                if i < s@.len() {
                    assert(lex_le(s@[i - 1], s@[i as int]));
                    assert(s@[i - 1] != s@[i as int]);
                }
            }
        }
    }
    proof {
        assert(render_from(s@, x0 as int, i as int, cy as int, cx as int) == Seq::<
            char,
        >::empty());
        assert(out@ =~= render_from(s@, x0 as int, 0, s@[0].0 as int, x0 as int));
        assert(is_min_x(sorted_spec(v@), x0 as int));
    }
    out
}


/// Scanning a concatenation past its first part scans the second part.
pub proof fn lemma_raw_index_shift(a: Seq<char>, b: Seq<char>, j: int, y: int, x: int)
    requires
        0 <= j <= b.len(),
    ensures
        raw_cells(a + b, a.len() + j, y, x) == raw_cells(b, j, y, x),
    decreases b.len() - j,
{
    let t = a + b;
    if j >= b.len() {
        assert(raw_cells(t, a.len() + j, y, x) =~= raw_cells(b, j, y, x));
    } else {
        assert(t[a.len() + j] == b[j]);
        if j + 1 < b.len() {
            assert(t[a.len() + j + 1] == b[j + 1]);
        }
        if b[j] == '\n' {
            lemma_raw_index_shift(a, b, j + 1, y + 1, 0);
        } else if b[j] == '\r' && j + 1 < b.len() && b[j + 1] == '\n' {
            lemma_raw_index_shift(a, b, j + 1, y, x);
        } else {
            lemma_raw_index_shift(a, b, j + 1, y, x + 1);
            if b[j] == '\r' {
                assert(a.len() + j + 1 >= t.len() || t[a.len() + j + 1] != '\n');
            }
        }
    }
}

/// Scanning a run of spaces just moves the cursor along the row.
pub proof fn lemma_raw_spaces(g: nat, t: Seq<char>, y: int, x: int)
    ensures
        raw_cells(spaces(g) + t, 0, y, x) == raw_cells(t, 0, y, x + g),
    decreases g,
{
    if g == 0 {
        assert(spaces(0) + t =~= t);
    } else {
        let u = spaces(g) + t;
        assert(u[0] == ' ');
        assert(u =~= seq![' '] + (spaces((g - 1) as nat) + t));
        lemma_raw_index_shift(seq![' '], spaces((g - 1) as nat) + t, 0, y, x + 1);
        assert(raw_cells(u, 1, y, x + 1) == raw_cells(spaces((g - 1) as nat) + t, 0, y, x + 1));
        lemma_raw_spaces((g - 1) as nat, t, y, x + 1);
    }
}

/// Scanning is equivariant in the starting row.
pub proof fn lemma_raw_row_shift(t: Seq<char>, i: int, y1: int, y2: int, x: int)
    ensures
        raw_cells(t, i, y1, x) == shift(raw_cells(t, i, y2, x), y1 - y2, 0),
    decreases t.len() - i,
{
    if i < 0 || i >= t.len() {
        assert(raw_cells(t, i, y1, x) =~= shift(raw_cells(t, i, y2, x), y1 - y2, 0));
    } else if t[i] == '\n' {
        lemma_raw_row_shift(t, i + 1, y1 + 1, y2 + 1, 0);
        assert(raw_cells(t, i, y1, x) =~= shift(raw_cells(t, i, y2, x), y1 - y2, 0));
    } else if t[i] == 'o' {
        lemma_raw_row_shift(t, i + 1, y1, y2, x + 1);
        assert(raw_cells(t, i, y1, x) =~= shift(raw_cells(t, i, y2, x), y1 - y2, 0));
    } else if t[i] == '\r' && i + 1 < t.len() && t[i + 1] == '\n' {
        lemma_raw_row_shift(t, i + 1, y1, y2, x);
        assert(raw_cells(t, i, y1, x) =~= shift(raw_cells(t, i, y2, x), y1 - y2, 0));
    } else {
        lemma_raw_row_shift(t, i + 1, y1, y2, x + 1);
        assert(raw_cells(t, i, y1, x) =~= shift(raw_cells(t, i, y2, x), y1 - y2, 0));
    }
}

/// The cells of a suffix of a sorted list, columns measured from the margin.
pub open spec fn suffix_cells(s: Seq<(i64, i64)>, i: int, x0: int) -> Set<(int, int)> {
    Set::new(
        |q: (int, int)|
            exists|j: int|
                i <= j < s.len() && (#[trigger] s[j]).0 == q.0 && s[j].1 - x0 == q.1,
    )
}

/// Scanning the rendered text of a sorted suffix finds exactly its cells:
/// rows absolute, columns measured from the left margin `x0`.
pub proof fn lemma_render_scan(s: Seq<(i64, i64)>, x0: int, i: int, cy: int, cx: int)
    requires
        0 <= i <= s.len(),
        forall|a: int, b: int| 0 <= a < b < s.len() ==> lex_le(#[trigger] s[a], #[trigger] s[b]),
        no_dup(s),
        forall|j: int| 0 <= j < s.len() ==> (#[trigger] s[j]).1 >= x0,
        i < s.len() ==> (cy < s[i].0 || (cy == s[i].0 && cx <= s[i].1)),
        x0 <= cx,
    ensures
        raw_cells(render_from(s, x0, i, cy, cx), 0, cy, cx - x0) == suffix_cells(s, i, x0),
    decreases s.len() - i, (if 0 <= i < s.len() { s[i].0 - cy } else { 0 }),
{
    if i >= s.len() {
        assert(raw_cells(render_from(s, x0, i, cy, cx), 0, cy, cx - x0) =~= suffix_cells(
            s,
            i,
            x0,
        ));
    } else if (s[i].0 as int) > cy {
        let rest = render_from(s, x0, i, cy + 1, x0);
        let t = seq!['\n'] + rest;
        assert(render_from(s, x0, i, cy, cx) == t);
        assert(t[0] == '\n');
        assert(raw_cells(t, 0, cy, cx - x0) == raw_cells(t, 1, cy + 1, 0));
        lemma_raw_index_shift(seq!['\n'], rest, 0, cy + 1, 0);
        assert(raw_cells(t, 1, cy + 1, 0) == raw_cells(rest, 0, cy + 1, 0));
        lemma_render_scan(s, x0, i, cy + 1, x0);
        assert(raw_cells(rest, 0, cy + 1, x0 - x0) == suffix_cells(s, i, x0));
    } else {
        let g = (s[i].1 - cx) as nat;
        let tail = render_from(s, x0, i + 1, cy, s[i].1 + 1);
        let t = seq!['o'] + tail;
        assert(render_from(s, x0, i, cy, cx) == spaces(g) + seq!['o'] + tail);
        assert(spaces(g) + seq!['o'] + tail =~= spaces(g) + t);
        lemma_raw_spaces(g, t, cy, cx - x0);
        let px = cx - x0 + g;
        assert(px == s[i].1 - x0);
        assert(t[0] == 'o');
        assert(raw_cells(t, 0, cy, px) == raw_cells(t, 1, cy, px + 1).insert((cy, px)));
        lemma_raw_index_shift(seq!['o'], tail, 0, cy, px + 1);
        assert(raw_cells(t, 1, cy, px + 1) == raw_cells(tail, 0, cy, px + 1));
        if i + 1 < s.len() {
            assert(lex_le(s[i], s[i + 1]));
            assert(s[i] != s[i + 1]);
        }
        lemma_render_scan(s, x0, i + 1, cy, (s[i].1 + 1) as int);
        assert(raw_cells(tail, 0, cy, s[i].1 + 1 - x0) == suffix_cells(s, i + 1, x0));
        assert forall|q: (int, int)|
            suffix_cells(s, i, x0).contains(q) == suffix_cells(s, i + 1, x0).insert(
                (cy, px),
            ).contains(q) by {
            if suffix_cells(s, i, x0).contains(q) {
                let j = choose|j: int|
                    i <= j < s.len() && (#[trigger] s[j]).0 == q.0 && s[j].1 - x0 == q.1;
                if j == i {
                    assert(q == (cy, px));
                }
            }
            if suffix_cells(s, i + 1, x0).contains(q) {
                let j = choose|j: int|
                    i + 1 <= j < s.len() && (#[trigger] s[j]).0 == q.0 && s[j].1 - x0 == q.1;
                assert(i <= j < s.len());
            }
            if q == (cy, px) {
                assert(s[i].0 == q.0 && s[i].1 - x0 == q.1);
            }
        }
        assert(suffix_cells(s, i, x0) =~= suffix_cells(s, i + 1, x0).insert((cy, px)));
    }
}

proof fn lemma_sorted_is_sorted_spec(v: Seq<(i64, i64)>, s: Seq<(i64, i64)>)
    requires
        s.to_multiset() == v.to_multiset(),
        forall|i: int, j: int| 0 <= i < j < s.len() ==> lex_le(#[trigger] s[i], #[trigger] s[j]),
    ensures
        sorted_spec(v) == s,
{
    let t = sorted_spec(v);
    assert(t.to_multiset() == v.to_multiset() && forall|i: int, j: int|
        0 <= i < j < t.len() ==> lex_le(#[trigger] t[i], #[trigger] t[j])) by {
        assert(s.to_multiset() == v.to_multiset() && forall|i: int, j: int|
            0 <= i < j < s.len() ==> lex_le(#[trigger] s[i], #[trigger] s[j]));
    }
    lemma_sorted_multiset_unique(t, s);
}

/// Two ascending sequences with one multiset are one sequence.
proof fn lemma_sorted_multiset_unique(a: Seq<(i64, i64)>, b: Seq<(i64, i64)>)
    requires
        a.to_multiset() == b.to_multiset(),
        forall|i: int, j: int| 0 <= i < j < a.len() ==> lex_le(#[trigger] a[i], #[trigger] a[j]),
        forall|i: int, j: int| 0 <= i < j < b.len() ==> lex_le(#[trigger] b[i], #[trigger] b[j]),
    ensures
        a == b,
    decreases a.len(),
{
    assert(a.to_multiset().len() == a.len());
    assert(b.to_multiset().len() == b.len());
    if a.len() == 0 {
        assert(a =~= b);
    } else {
        assert(b.len() == a.len());
        // both heads are minima of the common multiset, so they agree
        let ha = a[0];
        let hb = b[0];
        assert(a.to_multiset().count(ha) > 0);
        assert(b.to_multiset().count(ha) > 0);
        assert(b.contains(ha));
        let ia = choose|i: int| 0 <= i < b.len() && b[i] == ha;
        if ia > 0 {
            assert(lex_le(b[0], b[ia]));
        }
        assert(b.to_multiset().count(hb) > 0);
        assert(a.to_multiset().count(hb) > 0);
        assert(a.contains(hb));
        let ib = choose|i: int| 0 <= i < a.len() && a[i] == hb;
        if ib > 0 {
            assert(lex_le(a[0], a[ib]));
        }
        assert(lex_le(ha, hb) && lex_le(hb, ha));
        assert(ha == hb);
        let ta = a.subrange(1, a.len() as int);
        let tb = b.subrange(1, b.len() as int);
        assert(a =~= seq![ha] + ta);
        assert(b =~= seq![ha] + tb);
        lemma_multiset_cons(ha, ta);
        lemma_multiset_cons(ha, tb);
        assert(ta.to_multiset().insert(ha) == tb.to_multiset().insert(ha));
        assert forall|p: (i64, i64)|
            ta.to_multiset().count(p) == #[trigger] tb.to_multiset().count(p) by {
            assert(ta.to_multiset().insert(ha).count(p) == tb.to_multiset().insert(ha).count(p));
        }
        assert(ta.to_multiset() =~= tb.to_multiset());
        assert forall|i: int, j: int| 0 <= i < j < ta.len() implies lex_le(
            #[trigger] ta[i],
            #[trigger] ta[j],
        ) by {
            assert(ta[i] == a[i + 1] && ta[j] == a[j + 1]);
        }
        assert forall|i: int, j: int| 0 <= i < j < tb.len() implies lex_le(
            #[trigger] tb[i],
            #[trigger] tb[j],
        ) by {
            assert(tb[i] == b[i + 1] && tb[j] == b[j + 1]);
        }
        lemma_sorted_multiset_unique(ta, tb);
    }
}

proof fn lemma_multiset_cons(h: (i64, i64), t: Seq<(i64, i64)>)
    ensures
        (seq![h] + t).to_multiset() == t.to_multiset().insert(h),
    decreases t.len(),
{
    let s = seq![h] + t;
    if t.len() == 0 {
        assert(s =~= Seq::<(i64, i64)>::empty().push(h));
        assert(s.to_multiset() =~= t.to_multiset().insert(h));
    } else {
        let t1 = t.drop_last();
        assert(s =~= (seq![h] + t1).push(t.last()));
        lemma_multiset_cons(h, t1);
        assert(t =~= t1.push(t.last()));
        assert(s.to_multiset() =~= (seq![h] + t1).to_multiset().insert(t.last()));
        assert(t.to_multiset() =~= t1.to_multiset().insert(t.last()));
        assert(s.to_multiset() =~= t1.to_multiset().insert(h).insert(t.last()));
        assert(t1.to_multiset().insert(h).insert(t.last()) =~= t1.to_multiset().insert(
            t.last(),
        ).insert(h));
    }
}

} // verus!
