//! Kuhn triangulation of the unit tesseract into tetrahedral cells.
//!
//! The tesseract's 16 corners are numbered by their coordinate bits (bit
//! `d` set means coordinate `d` is at its upper end). Each order of the four
//! axes gives a 5-cell: start at corner 0 and step along the axes in that
//! order. Every 5-cell has five tetrahedral facets (drop one vertex); the
//! triangulation keeps each distinct facet once, at its first occurrence,
//! with the axis orders taken in lexicographic order.

use crate::mesh::Tetrahedron;
use vstd::prelude::*;

verus! {

/// The corner bit of axis `d` (0..4).
pub open spec fn axis_bit(d: int) -> int {
    if d == 0 {
        1
    } else if d == 1 {
        2
    } else if d == 2 {
        4
    } else {
        8
    }
}

/// The `j`-th axis of the order numbered `code`: the base-4 digits of
/// `code`, most significant first.
pub open spec fn order_axis(code: int, j: int) -> int {
    if j == 0 {
        code / 64
    } else if j == 1 {
        (code / 16) % 4
    } else if j == 2 {
        (code / 4) % 4
    } else {
        code % 4
    }
}

/// `code` (0..256) numbers an order of the four axes: its digits differ.
pub open spec fn is_axis_order(code: int) -> bool {
    &&& 0 <= code < 256
    &&& forall|i: int, j: int| 0 <= i < j < 4 ==> #[trigger] order_axis(code, i) != #[trigger] order_axis(code, j)
}

/// The `k`-th vertex (0..=4) of the 5-cell of axis order `code`: the corner
/// reached after stepping along its first `k` axes.
pub open spec fn kuhn_vertex(code: int, k: int) -> int
    decreases k,
{
    if k <= 0 {
        0
    } else {
        kuhn_vertex(code, k - 1) + axis_bit(order_axis(code, k - 1))
    }
}

/// The facet of the 5-cell of `code` without its vertex `o`, with every
/// corner offset by `base`.
pub open spec fn kuhn_facet(base: int, code: int, o: int) -> Seq<int> {
    Seq::new(
        4,
        |m: int|
            base + kuhn_vertex(
                code,
                if m < o {
                    m
                } else {
                    m + 1
                },
            ),
    )
}

/// Facets are enumerated by key `code * 5 + o`.
pub open spec fn facet_of_key(base: int, key: int) -> Seq<int> {
    kuhn_facet(base, key / 5, key % 5)
}

/// The key belongs to an axis order, and no earlier such key gives the
/// same facet.
pub open spec fn first_facet_key(base: int, key: int) -> bool {
    &&& is_axis_order(key / 5)
    &&& forall|k: int| 0 <= k < key && is_axis_order(k / 5) ==> #[trigger] facet_of_key(base, k) != facet_of_key(base, key)
}

/// The distinct facets among the first `n` keys, each at its first
/// occurrence.
pub open spec fn kuhn_prefix(base: int, n: int) -> Seq<Seq<int>>
    decreases n,
{
    if n <= 0 {
        Seq::empty()
    } else if first_facet_key(base, n - 1) {
        kuhn_prefix(base, n - 1).push(facet_of_key(base, n - 1))
    } else {
        kuhn_prefix(base, n - 1)
    }
}

/// The cells of the triangulation of the tesseract whose corners are
/// numbered `base..base + 16`.
pub open spec fn kuhn_cells(base: int) -> Seq<Seq<int>> {
    kuhn_prefix(base, 1280)
}

/// A cell's indices as integers.
pub open spec fn cell_seq(t: Tetrahedron) -> Seq<int> {
    Seq::new(4, |m: int| t.indices[m] as int)
}

/// `c` is the facet of a first key below `n`.
pub open spec fn from_first_key(base: int, n: int, c: Seq<int>) -> bool {
    exists|k: int| 0 <= k < n && first_facet_key(base, k) && c == #[trigger] facet_of_key(base, k)
}

/// What the first `n` keys give: each cell is a first facet, every facet
/// so far is present, and none twice.
pub proof fn lemma_kuhn_prefix(base: int, n: int)
    requires
        0 <= n,
    ensures
        forall|t: int|
            0 <= t < kuhn_prefix(base, n).len() ==> from_first_key(base, n, #[trigger] kuhn_prefix(base, n)[t]),
        forall|k: int|
            0 <= k < n && is_axis_order(k / 5) ==> kuhn_prefix(base, n).contains(#[trigger] facet_of_key(base, k)),
        kuhn_prefix(base, n).no_duplicates(),
    decreases n,
{
    if n > 0 {
        lemma_kuhn_prefix(base, n - 1);
        let before = kuhn_prefix(base, n - 1);
        let now = kuhn_prefix(base, n);
        let f = facet_of_key(base, n - 1);
        if first_facet_key(base, n - 1) {
            assert(now == before.push(f));
            assert(!before.contains(f)) by {
                if before.contains(f) {
                    let t = choose|t: int| 0 <= t < before.len() && before[t] == f;
                    assert(from_first_key(base, n - 1, before[t]));
                    let k = choose|k: int|
                        0 <= k < n - 1 && first_facet_key(base, k) && before[t] == #[trigger] facet_of_key(base, k);
                    assert(facet_of_key(base, k) == f);
                }
            }
            assert forall|t: int| 0 <= t < now.len() implies from_first_key(base, n, #[trigger] now[t]) by {
                if t < before.len() {
                    assert(now[t] == before[t]);
                    assert(from_first_key(base, n - 1, before[t]));
                    let k = choose|k: int|
                        0 <= k < n - 1 && first_facet_key(base, k) && before[t] == #[trigger] facet_of_key(base, k);
                    assert(now[t] == facet_of_key(base, k));
                } else {
                    assert(now[t] == facet_of_key(base, n - 1));
                }
            }
            assert forall|k: int| 0 <= k < n && is_axis_order(k / 5) implies now.contains(
                #[trigger] facet_of_key(base, k),
            ) by {
                if k < n - 1 {
                    let t = choose|t: int| 0 <= t < before.len() && before[t] == facet_of_key(base, k);
                    assert(now[t] == before[t]);
                } else {
                    assert(now[before.len() as int] == f);
                }
            }
            assert forall|a: int, b: int| 0 <= a < now.len() && 0 <= b < now.len() && a != b implies now[a]
                != now[b] by {
                if a == before.len() {
                    assert(before.contains(now[b]));
                } else if b == before.len() {
                    assert(before.contains(now[a]));
                }
            }
        } else {
            assert(now == before);
            assert forall|k: int| 0 <= k < n && is_axis_order(k / 5) implies now.contains(
                #[trigger] facet_of_key(base, k),
            ) by {
                if k == n - 1 {
                    let k2 = choose|k2: int|
                        0 <= k2 < n - 1 && is_axis_order(k2 / 5) && #[trigger] facet_of_key(base, k2)
                            == facet_of_key(base, n - 1);
                    assert(before.contains(facet_of_key(base, k2)));
                }
            }
            assert forall|t: int| 0 <= t < now.len() implies from_first_key(base, n, #[trigger] now[t]) by {
                assert(from_first_key(base, n - 1, before[t]));
                let k = choose|k: int|
                    0 <= k < n - 1 && first_facet_key(base, k) && before[t] == #[trigger] facet_of_key(base, k);
            }
        }
    }
}

/// Joining distinct axis bits with `|` adds them.
proof fn lemma_kuhn_bits(a: usize, b: usize, c: usize, d: usize)
    by (bit_vector)
    requires
        a < 4,
        b < 4,
        c < 4,
        d < 4,
        a != b,
        a != c,
        a != d,
        b != c,
        b != d,
        c != d,
    ensures
        0usize | (1usize << a) == (1usize << a),
        (1usize << a) | (1usize << b) == ((1usize << a) + (1usize << b)) as usize,
        (((1usize << a) + (1usize << b)) as usize) | (1usize << c) == ((1usize << a) + (1usize << b) + (1usize
            << c)) as usize,
        (((1usize << a) + (1usize << b) + (1usize << c)) as usize) | (1usize << d) == ((1usize << a) + (1usize
            << b) + (1usize << c) + (1usize << d)) as usize,
        (1usize << a) + (1usize << b) + (1usize << c) + (1usize << d) == 15,
{
}

/// `1 << d` is the corner bit of axis `d`.
proof fn lemma_axis_bit(d: usize)
    requires
        d < 4,
    ensures
        (1usize << d) as int == axis_bit(d as int),
{
    if d == 0 {
        assert(1usize << 0usize == 1usize) by (bit_vector);
    } else if d == 1 {
        assert(1usize << 1usize == 2usize) by (bit_vector);
    } else if d == 2 {
        assert(1usize << 2usize == 4usize) by (bit_vector);
    } else {
        assert(1usize << 3usize == 8usize) by (bit_vector);
    }
}

/// Some cell of `cells` has exactly the indices `v`.
fn contains_cell(cells: &Vec<Tetrahedron>, v: &[usize; 4]) -> (r: bool)
    ensures
        r == exists|t: int| 0 <= t < cells@.len() && #[trigger] cells@[t].indices@ == v@,
{
    let mut k: usize = 0;
    while k < cells.len()
        invariant
            k <= cells@.len(),
            forall|t: int| 0 <= t < k ==> #[trigger] cells@[t].indices@ != v@,
        decreases cells@.len() - k,
    {
        let c = &cells[k];
        if c.indices[0] == v[0] && c.indices[1] == v[1] && c.indices[2] == v[2] && c.indices[3] == v[3] {
            assert(cells@[k as int].indices@ =~= v@);
            return true;
        }
        k = k + 1;
    }
    false
}

/// The Kuhn triangulation of one tesseract-shaped cell whose 16 corners are
/// the vertices `base_idx..base_idx + 16` (corner `i` at `base_idx + i`).
///
/// Each of the 24 axis orders gives a 5-cell; each 5-cell contributes its
/// five facets, and a facet already produced by an earlier 5-cell is
/// skipped. The facets come out in ascending index order already, so they
/// are compared as they are.
pub fn decompose_cell_to_tetrahedra(base_idx: usize) -> (r: Vec<Tetrahedron>)
    requires
        base_idx <= usize::MAX - 15,
    ensures
        r@.len() == kuhn_cells(base_idx as int).len(),
        forall|t: int| 0 <= t < r@.len() ==> #[trigger] cell_seq(r@[t]) == kuhn_cells(base_idx as int)[t],
{
    let ghost base = base_idx as int;
    let mut out: Vec<Tetrahedron> = Vec::new();
    let mut code: usize = 0;
    while code < 256
        invariant
            base == base_idx as int,
            base_idx <= usize::MAX - 15,
            code <= 256,
            out@.len() == kuhn_prefix(base, code * 5).len(),
            forall|t: int| 0 <= t < out@.len() ==> #[trigger] cell_seq(out@[t]) == kuhn_prefix(base, code * 5)[t],
        decreases 256 - code,
    {
        let a = code / 64;
        let b = (code / 16) % 4;
        let c = (code / 4) % 4;
        let d = code % 4;
        proof {
            assert(a as int == order_axis(code as int, 0));
            assert(b as int == order_axis(code as int, 1));
            assert(c as int == order_axis(code as int, 2));
            assert(d as int == order_axis(code as int, 3));
        }
        if a != b && a != c && a != d && b != c && b != d && c != d {
            proof {
                lemma_kuhn_bits(a, b, c, d);
                lemma_axis_bit(a);
                lemma_axis_bit(b);
                lemma_axis_bit(c);
                lemma_axis_bit(d);
                assert(is_axis_order(code as int)) by {
                    assert forall|i: int, j: int| 0 <= i < j < 4 implies #[trigger] order_axis(code as int, i)
                        != #[trigger] order_axis(code as int, j) by {}
                }
            }
            let mut current: usize = 0;
            let v0 = current;
            current = current | (1usize << a);
            let v1 = current;
            current = current | (1usize << b);
            let v2 = current;
            current = current | (1usize << c);
            let v3 = current;
            current = current | (1usize << d);
            let v4 = current;
            let simplex: [usize; 5] = [v0, v1, v2, v3, v4];
            proof {
                let ci = code as int;
                assert(kuhn_vertex(ci, 0) == 0);
                assert(kuhn_vertex(ci, 1) == kuhn_vertex(ci, 0) + axis_bit(order_axis(ci, 0)));
                assert(kuhn_vertex(ci, 2) == kuhn_vertex(ci, 1) + axis_bit(order_axis(ci, 1)));
                assert(kuhn_vertex(ci, 3) == kuhn_vertex(ci, 2) + axis_bit(order_axis(ci, 2)));
                assert(kuhn_vertex(ci, 4) == kuhn_vertex(ci, 3) + axis_bit(order_axis(ci, 3)));
                assert forall|k: int| 0 <= k < 5 implies #[trigger] simplex@[k] as int == kuhn_vertex(ci, k)
                    && simplex@[k] <= 15 by {}
            }
            let mut omit: usize = 0;
            while omit < 5
                invariant
                    base == base_idx as int,
                    base_idx <= usize::MAX - 15,
                    code < 256,
                    is_axis_order(code as int),
                    omit <= 5,
                    forall|k: int| 0 <= k < 5 ==> #[trigger] simplex@[k] as int == kuhn_vertex(code as int, k)
                        && simplex@[k] <= 15,
                    out@.len() == kuhn_prefix(base, code * 5 + omit).len(),
                    forall|t: int|
                        0 <= t < out@.len() ==> #[trigger] cell_seq(out@[t]) == kuhn_prefix(base, code * 5 + omit)[t],
                decreases 5 - omit,
            {
                let i0: usize = if 0 < omit { 0 } else { 1 };
                let i1: usize = if 1 < omit { 1 } else { 2 };
                let i2: usize = if 2 < omit { 2 } else { 3 };
                let i3: usize = if 3 < omit { 3 } else { 4 };
                let tet_verts: [usize; 4] = [
                    base_idx + simplex[i0],
                    base_idx + simplex[i1],
                    base_idx + simplex[i2],
                    base_idx + simplex[i3],
                ];
                let ghost key = code * 5 + omit;
                let ghost f = facet_of_key(base, key as int);
                proof {
                    assert(key / 5 == code && key % 5 == omit);
                    assert forall|m: int| 0 <= m < 4 implies #[trigger] f[m] == tet_verts@[m] as int by {}
                    lemma_kuhn_prefix(base, key as int);
                }
                let seen = contains_cell(&out, &tet_verts);
                let ghost p = kuhn_prefix(base, key as int);
                proof {
                    assert(seen == p.contains(f)) by {
                        if seen {
                            let t = choose|t: int| 0 <= t < out@.len() && #[trigger] out@[t].indices@ == tet_verts@;
                            assert(cell_seq(out@[t]) =~= f);
                            assert(p[t] == f);
                        }
                        if p.contains(f) {
                            let t = choose|t: int| 0 <= t < p.len() && p[t] == f;
                            assert(cell_seq(out@[t]) == f);
                            assert forall|m: int| 0 <= m < 4 implies out@[t].indices@[m] == tet_verts@[m] by {
                                assert(cell_seq(out@[t])[m] == f[m]);
                            }
                            assert(out@[t].indices@ =~= tet_verts@);
                        }
                    }
                    assert(seen == !first_facet_key(base, key as int)) by {
                        if seen {
                            let t = choose|t: int| 0 <= t < p.len() && p[t] == f;
                            assert(from_first_key(base, key as int, p[t]));
                            let k = choose|k: int|
                                0 <= k < key && first_facet_key(base, k) && p[t] == #[trigger] facet_of_key(base, k);
                            assert(facet_of_key(base, k) == f);
                        }
                        if !first_facet_key(base, key as int) {
                            let k = choose|k: int|
                                0 <= k < key && is_axis_order(k / 5) && #[trigger] facet_of_key(base, k) == facet_of_key(base, key as int);
                            assert(p.contains(facet_of_key(base, k)));
                        }
                    }
                }
                if !seen {
                    out.push(Tetrahedron::new(tet_verts));
                    proof {
                        assert(cell_seq(out@[out@.len() - 1]) =~= f);
                    }
                }
                omit = omit + 1;
                proof {
                    assert(kuhn_prefix(base, key + 1) == if first_facet_key(base, key as int) {
                        p.push(f)
                    } else {
                        p
                    });
                }
            }
        } else {
            proof {
                assert(!is_axis_order(code as int)) by {
                    if a == b {
                        assert(order_axis(code as int, 0) == order_axis(code as int, 1));
                    } else if a == c {
                        assert(order_axis(code as int, 0) == order_axis(code as int, 2));
                    } else if a == d {
                        assert(order_axis(code as int, 0) == order_axis(code as int, 3));
                    } else if b == c {
                        assert(order_axis(code as int, 1) == order_axis(code as int, 2));
                    } else if b == d {
                        assert(order_axis(code as int, 1) == order_axis(code as int, 3));
                    } else {
                        assert(order_axis(code as int, 2) == order_axis(code as int, 3));
                    }
                }
                let n0 = code * 5;
                assert forall|key: int| n0 <= key < n0 + 5 implies !#[trigger] first_facet_key(base, key) by {
                    assert(key / 5 == code);
                }
                assert(kuhn_prefix(base, n0 + 1) == kuhn_prefix(base, n0 + 0));
                assert(kuhn_prefix(base, n0 + 2) == kuhn_prefix(base, n0 + 1));
                assert(kuhn_prefix(base, n0 + 3) == kuhn_prefix(base, n0 + 2));
                assert(kuhn_prefix(base, n0 + 4) == kuhn_prefix(base, n0 + 3));
                assert(kuhn_prefix(base, n0 + 5) == kuhn_prefix(base, n0 + 4));
            }
        }
        code = code + 1;
    }
    out
}

/// The Kuhn triangulation of the tesseract whose corners are vertices
/// `0..16`.
pub fn compute_tetrahedra() -> (r: Vec<Tetrahedron>)
    ensures
        r@.len() == kuhn_cells(0).len(),
        forall|t: int| 0 <= t < r@.len() ==> #[trigger] cell_seq(r@[t]) == kuhn_cells(0)[t],
{
    decompose_cell_to_tetrahedra(0)
}

/// No cell of the triangulation occurs twice.
pub proof fn law_kuhn_cells_distinct(base: int)
    ensures
        kuhn_cells(base).no_duplicates(),
{
    lemma_kuhn_prefix(base, 1280);
}

/// Every facet of every 5-cell of the triangulation is one of its cells.
pub proof fn law_kuhn_cells_cover_every_facet(base: int, code: int, o: int)
    requires
        is_axis_order(code),
        0 <= o < 5,
    ensures
        kuhn_cells(base).contains(kuhn_facet(base, code, o)),
{
    lemma_kuhn_prefix(base, 1280);
    let key = code * 5 + o;
    assert(key / 5 == code && key % 5 == o);
    assert(facet_of_key(base, key) == kuhn_facet(base, code, o));
}

/// Every cell is a facet of one of the 5-cells, with its four corners in
/// strictly ascending order within `base..base + 16`.
pub proof fn law_kuhn_cells_are_ascending_facets(base: int, t: int)
    requires
        0 <= t < kuhn_cells(base).len(),
    ensures
        exists|code: int, o: int|
            is_axis_order(code) && 0 <= o < 5 && kuhn_cells(base)[t] == #[trigger] kuhn_facet(base, code, o),
        base <= kuhn_cells(base)[t][0],
        kuhn_cells(base)[t][0] < kuhn_cells(base)[t][1],
        kuhn_cells(base)[t][1] < kuhn_cells(base)[t][2],
        kuhn_cells(base)[t][2] < kuhn_cells(base)[t][3],
        kuhn_cells(base)[t][3] < base + 16,
{
    lemma_kuhn_prefix(base, 1280);
    let c = kuhn_cells(base)[t];
    assert(from_first_key(base, 1280, c));
    let k = choose|k: int| 0 <= k < 1280 && first_facet_key(base, k) && c == #[trigger] facet_of_key(base, k);
    let code = k / 5;
    let o = k % 5;
    assert(c == kuhn_facet(base, code, o));
    let a = order_axis(code, 0);
    let b = order_axis(code, 1);
    let cc = order_axis(code, 2);
    let d = order_axis(code, 3);
    assert(0 <= a < 4 && 0 <= b < 4 && 0 <= cc < 4 && 0 <= d < 4);
    assert(a != b && a != cc && a != d && b != cc && b != d && cc != d);
    assert(axis_bit(a) + axis_bit(b) + axis_bit(cc) + axis_bit(d) == 15);
    assert(kuhn_vertex(code, 0) == 0);
    assert(kuhn_vertex(code, 1) == kuhn_vertex(code, 0) + axis_bit(a));
    assert(kuhn_vertex(code, 2) == kuhn_vertex(code, 1) + axis_bit(b));
    assert(kuhn_vertex(code, 3) == kuhn_vertex(code, 2) + axis_bit(cc));
    assert(kuhn_vertex(code, 4) == kuhn_vertex(code, 3) + axis_bit(d));
}

} // verus!
