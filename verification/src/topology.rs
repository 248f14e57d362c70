//! Cell topology of the procedural primitives: which vertex indices form
//! the cells, independent of where the vertices are placed.

use crate::mesh::{distinct6, prism_cells, split_prism, Tetrahedron};
use vstd::prelude::*;

verus! {

/// The 8-way subdivision of a tetrahedron, expressed over its 4 corners and
/// 6 edge midpoints.
///
/// Index convention for the returned cells: `0..4` are the corners
/// `v0..v3`; `4..10` are the midpoints of edges
/// `(0,1), (0,2), (0,3), (1,2), (1,3), (2,3)` in that order.
///
/// Cutting off the 4 corner tetrahedra leaves a central octahedron with
/// vertices at the 6 midpoints, which is split into 4 tetrahedra around its
/// `m01–m23` diagonal.
pub const TET_SUBDIVISION: [[usize; 4]; 8] = [
    [0, 4, 5, 6],
    [1, 4, 7, 8],
    [2, 5, 7, 9],
    [3, 6, 8, 9],
    [4, 9, 5, 6],
    [4, 9, 6, 8],
    [4, 9, 8, 7],
    [4, 9, 7, 5],
];

/// The midpoint edge list matching [`TET_SUBDIVISION`]'s index convention.
pub const TET_EDGES: [(usize, usize); 6] = [(0, 1), (0, 2), (0, 3), (1, 2), (1, 3), (2, 3)];

/// The cells of the 5-cell's boundary: cell `skip` is every vertex of
/// `0..5` but `skip`, ascending.
pub open spec fn pentachoron_cell(skip: int) -> Seq<usize> {
    Seq::new(4, |m: int| (if m < skip { m } else { m + 1 }) as usize)
}

/// The 5-cell's boundary: every 4-subset of its 5 vertices.
pub fn pentachoron_cells() -> (r: Vec<Tetrahedron>)
    ensures
        r@.len() == 5,
        forall|skip: int| 0 <= skip < 5 ==> #[trigger] r@[skip].indices@ == pentachoron_cell(skip),
{
    let mut out: Vec<Tetrahedron> = Vec::new();
    let mut skip: usize = 0;
    while skip < 5
        invariant
            skip <= 5,
            out@.len() == skip,
            forall|s: int| 0 <= s < skip ==> #[trigger] out@[s].indices@ == pentachoron_cell(s),
        decreases 5 - skip,
    {
        let mut idx: [usize; 4] = [0, 0, 0, 0];
        let mut k: usize = 0;
        let mut i: usize = 0;
        while i < 5
            invariant
                skip < 5,
                i <= 5,
                k == if i <= skip { i } else { (i - 1) as usize },
                forall|m: int| 0 <= m < k ==> #[trigger] idx@[m] == pentachoron_cell(skip as int)[m],
            decreases 5 - i,
        {
            if i != skip {
                idx.set(k, i);
                k = k + 1;
            }
            i = i + 1;
        }
        proof {
            assert(idx@ =~= pentachoron_cell(skip as int));
        }
        out.push(Tetrahedron::new(idx));
        skip = skip + 1;
    }
    out
}

/// Cell `signs` of the 16-cell: one vertex from each axis pair, vertex
/// `2 * axis` (the positive end) where bit `axis` of `signs` is clear, and
/// `2 * axis + 1` where it is set.
pub open spec fn hexadecachoron_cell(signs: int) -> Seq<usize> {
    seq![
        (signs % 2) as usize,
        (2 + (signs / 2) % 2) as usize,
        (4 + (signs / 4) % 2) as usize,
        (6 + (signs / 8) % 2) as usize,
    ]
}

/// The 16-cell's boundary, with vertices `2 * axis` and `2 * axis + 1` at
/// the positive and negative ends of each axis: one cell per sign pattern.
pub fn hexadecachoron_cells() -> (r: Vec<Tetrahedron>)
    ensures
        r@.len() == 16,
        forall|s: int| 0 <= s < 16 ==> #[trigger] r@[s].indices@ == hexadecachoron_cell(s),
{
    let mut out: Vec<Tetrahedron> = Vec::new();
    let mut signs: u32 = 0;
    while signs < 16
        invariant
            signs <= 16,
            out@.len() == signs,
            forall|s: int| 0 <= s < signs ==> #[trigger] out@[s].indices@ == hexadecachoron_cell(s),
        decreases 16 - signs,
    {
        let x = signs;
        let b0: u32 = x & 1;
        let b1: u32 = (x >> 1) & 1;
        let b2: u32 = (x >> 2) & 1;
        let b3: u32 = (x >> 3) & 1;
        proof {
            assert(x & 1 == x % 2) by (bit_vector);
            assert((x >> 1) & 1 == (x / 2) % 2) by (bit_vector);
            assert((x >> 2) & 1 == (x / 4) % 2) by (bit_vector);
            assert((x >> 3) & 1 == (x / 8) % 2) by (bit_vector);
        }
        let idx: [usize; 4] = [b0 as usize, 2 + b1 as usize, 4 + b2 as usize, 6 + b3 as usize];
        proof {
            assert(idx@ =~= hexadecachoron_cell(signs as int));
        }
        out.push(Tetrahedron::new(idx));
        signs = signs + 1;
    }
    out
}

/// Hands out one vertex index per logical key, in order of first request,
/// so that every piece of a composite boundary references the same index
/// for a shared point.
pub struct VertexPool {
    keys: Vec<(u32, u32)>,
}

impl VertexPool {
    /// The keys in the order their indices were handed out (index = position).
    pub closed spec fn spec_keys(&self) -> Seq<(u32, u32)> {
        self.keys@
    }

    /// An empty pool.
    pub fn new() -> (r: Self)
        ensures
            r.spec_keys() == Seq::<(u32, u32)>::empty(),
    {
        VertexPool { keys: Vec::new() }
    }

    /// The number of vertices handed out.
    pub fn len(&self) -> (r: usize)
        ensures
            r == self.spec_keys().len(),
    {
        self.keys.len()
    }

    /// The index for `key`, and whether it is new (the caller then adds the
    /// vertex's position at that index).
    pub fn get(&mut self, key: (u32, u32)) -> (r: (usize, bool))
        requires
            old(self).spec_keys().no_duplicates(),
        ensures
            final(self).spec_keys().no_duplicates(),
            old(self).spec_keys().contains(key) ==> !r.1 && final(self).spec_keys() == old(self).spec_keys()
                && old(self).spec_keys()[r.0 as int] == key,
            !old(self).spec_keys().contains(key) ==> r.1 && r.0 == old(self).spec_keys().len()
                && final(self).spec_keys() == old(self).spec_keys().push(key),
            r.0 < final(self).spec_keys().len(),
            final(self).spec_keys()[r.0 as int] == key,
    {
        let mut k: usize = 0;
        while k < self.keys.len()
            invariant
                k <= self.keys@.len(),
                self.keys@ == old(self).keys@,
                old(self).spec_keys().no_duplicates(),
                forall|j: int| 0 <= j < k ==> self.keys@[j] != key,
            decreases self.keys@.len() - k,
        {
            let e = self.keys[k];
            if e.0 == key.0 && e.1 == key.1 {
                return (k, false);
            }
            k = k + 1;
        }
        let idx = self.keys.len();
        let ghost before = self.keys@;
        self.keys.push(key);
        proof {
            assert forall|a: int, b: int| 0 <= a < self.keys@.len() && 0 <= b < self.keys@.len() && a != b implies self.keys@[a]
                != self.keys@[b] by {
                if a < before.len() && b < before.len() {
                } else if a < before.len() {
                    assert(self.keys@[a] == before[a]);
                } else {
                    assert(self.keys@[b] == before[b]);
                }
            }
        }
        (idx, true)
    }
}

/// The edge between `x` and `y`, smaller end first.
pub open spec fn edge_key(x: usize, y: usize) -> (usize, usize) {
    if x <= y {
        (x, y)
    } else {
        (y, x)
    }
}

/// Edge `k % 3` of triangle `k / 3`: its edges are `(a, b)`, `(b, c)`,
/// `(c, a)` in that order.
pub open spec fn tri_edge_key(tris: Seq<[usize; 3]>, k: int) -> (usize, usize) {
    let t = tris[k / 3];
    if k % 3 == 0 {
        edge_key(t[0], t[1])
    } else if k % 3 == 1 {
        edge_key(t[1], t[2])
    } else {
        edge_key(t[2], t[0])
    }
}

/// The number of triangle edges, three per triangle.
pub open spec fn edge_count(tris: Seq<[usize; 3]>) -> int {
    (tris.len() * 3) as int
}

/// The distinct edges among the first `n` triangle edges, in order of
/// first appearance: the edges that get a midpoint vertex.
pub open spec fn midpoint_keys(tris: Seq<[usize; 3]>, n: int) -> Seq<(usize, usize)>
    decreases n,
{
    if n <= 0 {
        Seq::empty()
    } else {
        let p = midpoint_keys(tris, n - 1);
        let key = tri_edge_key(tris, n - 1);
        if p.contains(key) {
            p
        } else {
            p.push(key)
        }
    }
}

/// Where `key` stands in `keys`.
pub open spec fn key_index(keys: Seq<(usize, usize)>, key: (usize, usize)) -> int {
    choose|i: int| 0 <= i < keys.len() && keys[i] == key
}

/// The vertex index of the midpoint of edge `(x, y)`: new vertices are
/// numbered from `vertex_count` in order of first appearance of their edge.
pub open spec fn midpoint_vertex(tris: Seq<[usize; 3]>, vertex_count: int, x: usize, y: usize) -> int {
    vertex_count + key_index(midpoint_keys(tris, edge_count(tris)), edge_key(x, y))
}

/// A triangle's indices as integers.
pub open spec fn tri_ints(t: [usize; 3]) -> Seq<int> {
    seq![t[0] as int, t[1] as int, t[2] as int]
}

/// Child `q` of triangle `t`: the three corner triangles, then the middle
/// one.
pub open spec fn subdivided_triangle(tris: Seq<[usize; 3]>, vertex_count: int, t: int, q: int) -> Seq<int> {
    let a = tris[t][0];
    let b = tris[t][1];
    let c = tris[t][2];
    let ab = midpoint_vertex(tris, vertex_count, a, b);
    let bc = midpoint_vertex(tris, vertex_count, b, c);
    let ca = midpoint_vertex(tris, vertex_count, c, a);
    if q == 0 {
        seq![a as int, ab, ca]
    } else if q == 1 {
        seq![b as int, bc, ab]
    } else if q == 2 {
        seq![c as int, ca, bc]
    } else {
        seq![ab, bc, ca]
    }
}

/// The midpoint edges so far are distinct, hold every edge seen, and only
/// grow.
pub proof fn lemma_midpoint_keys(tris: Seq<[usize; 3]>, n: int, m: int)
    requires
        0 <= n <= m,
    ensures
        midpoint_keys(tris, m).no_duplicates(),
        midpoint_keys(tris, n).len() <= midpoint_keys(tris, m).len(),
        midpoint_keys(tris, m).take(midpoint_keys(tris, n).len() as int) == midpoint_keys(tris, n),
        forall|k: int| 0 <= k < m ==> midpoint_keys(tris, m).contains(#[trigger] tri_edge_key(tris, k)),
        midpoint_keys(tris, m).len() <= m,
    decreases m, m - n,
{
    if m == 0 {
        assert(midpoint_keys(tris, 0).take(0) =~= midpoint_keys(tris, 0));
    } else if n == m {
        lemma_midpoint_keys(tris, m - 1, m - 1);
        assert(midpoint_keys(tris, m).take(midpoint_keys(tris, m).len() as int) =~= midpoint_keys(tris, m));
        let p = midpoint_keys(tris, m - 1);
        let key = tri_edge_key(tris, m - 1);
        if !p.contains(key) {
            let q = p.push(key);
            assert forall|a: int, b: int| 0 <= a < q.len() && 0 <= b < q.len() && a != b implies q[a] != q[b] by {
                if a == p.len() {
                    assert(p.contains(q[b]));
                } else if b == p.len() {
                    assert(p.contains(q[a]));
                }
            }
            assert forall|k: int| 0 <= k < m implies q.contains(#[trigger] tri_edge_key(tris, k)) by {
                if k < m - 1 {
                    let i = choose|i: int| 0 <= i < p.len() && p[i] == tri_edge_key(tris, k);
                    assert(q[i] == p[i]);
                } else {
                    assert(q[p.len() as int] == key);
                }
            }
        }
    } else {
        lemma_midpoint_keys(tris, n, m - 1);
        lemma_midpoint_keys(tris, m, m);
        let p = midpoint_keys(tris, m - 1);
        let key = tri_edge_key(tris, m - 1);
        let pn = midpoint_keys(tris, n);
        if !p.contains(key) {
            assert(p.push(key).take(pn.len() as int) =~= p.take(pn.len() as int));
        }
    }
}

/// The index of the midpoint vertex of edge `(x, y)`, adding the edge to
/// `cache` on first sight.
fn midpoint_index(cache: &mut Vec<(usize, usize)>, x: usize, y: usize, base: usize) -> (r: usize)
    requires
        base + old(cache)@.len() < usize::MAX,
    ensures
        old(cache)@.contains(edge_key(x, y)) ==> final(cache)@ == old(cache)@,
        !old(cache)@.contains(edge_key(x, y)) ==> final(cache)@ == old(cache)@.push(edge_key(x, y)),
        r < base + final(cache)@.len(),
        r >= base,
        final(cache)@[r - base] == edge_key(x, y),
{
    let key = if x <= y { (x, y) } else { (y, x) };
    let mut k: usize = 0;
    while k < cache.len()
        invariant
            k <= cache@.len(),
            cache@ == old(cache)@,
            base + old(cache)@.len() < usize::MAX,
            key == edge_key(x, y),
            forall|j: int| 0 <= j < k ==> cache@[j] != key,
        decreases cache@.len() - k,
    {
        let e = cache[k];
        if e.0 == key.0 && e.1 == key.1 {
            assert(cache@[k as int] == key);
            return base + k;
        }
        k = k + 1;
    }
    let idx = base + cache.len();
    cache.push(key);
    idx
}

/// One level of triangle subdivision: each triangle `(a, b, c)` becomes
/// `(a, ab, ca)`, `(b, bc, ab)`, `(c, ca, bc)` and `(ab, bc, ca)`, where
/// `ab` is the new vertex at the midpoint of edge `(a, b)`, shared by both
/// triangles at that edge.
///
/// Returns the new triangles and the edges that got a midpoint vertex, in
/// the order of their new indices `vertex_count, vertex_count + 1, ...`.
pub fn subdivide_triangles(tris: &[[usize; 3]], vertex_count: usize) -> (r: (Vec<[usize; 3]>, Vec<(usize, usize)>))
    requires
        vertex_count + 3 * tris@.len() < usize::MAX,
    ensures
        r.1@ == midpoint_keys(tris@, edge_count(tris@)),
        r.0@.len() == tris@.len() * 4,
        forall|t: int, q: int|
            0 <= t < tris@.len() && 0 <= q < 4 ==> #[trigger] tri_ints(r.0@[t * 4 + q])
                == subdivided_triangle(tris@, vertex_count as int, t, q),
{
    let ghost all = midpoint_keys(tris@, edge_count(tris@));
    let mut cache: Vec<(usize, usize)> = Vec::new();
    let mut next: Vec<[usize; 3]> = Vec::new();
    let mut t: usize = 0;
    proof {
        lemma_midpoint_keys(tris@, 0, edge_count(tris@));
        assert(cache@ =~= midpoint_keys(tris@, 0));
    }
    while t < tris.len()
        invariant
            all == midpoint_keys(tris@, edge_count(tris@)),
            all.no_duplicates(),
            vertex_count + 3 * tris@.len() < usize::MAX,
            t <= tris@.len(),
            cache@ == midpoint_keys(tris@, t * 3),
            next@.len() == t * 4,
            forall|t2: int, q: int|
                0 <= t2 < t && 0 <= q < 4 ==> #[trigger] tri_ints(next@[t2 * 4 + q])
                    == subdivided_triangle(tris@, vertex_count as int, t2, q),
        decreases tris@.len() - t,
    {
        let tri = tris[t];
        let a = tri[0];
        let b = tri[1];
        let c = tri[2];
        proof {
            lemma_midpoint_keys(tris@, t * 3, edge_count(tris@));
            lemma_midpoint_keys(tris@, t * 3, t * 3);
        }
        let ab = midpoint_index(&mut cache, a, b, vertex_count);
        let ghost c1 = cache@;
        proof {
            assert(tri_edge_key(tris@, t * 3) == edge_key(a, b));
            assert(cache@ == midpoint_keys(tris@, t * 3 + 1));
            lemma_midpoint_keys(tris@, t * 3 + 1, t * 3 + 1);
        }
        let bc = midpoint_index(&mut cache, b, c, vertex_count);
        let ghost c2 = cache@;
        proof {
            assert(tri_edge_key(tris@, t * 3 + 1) == edge_key(b, c));
            assert(cache@ == midpoint_keys(tris@, t * 3 + 2));
            lemma_midpoint_keys(tris@, t * 3 + 2, t * 3 + 2);
        }
        let ca = midpoint_index(&mut cache, c, a, vertex_count);
        proof {
            assert(tri_edge_key(tris@, t * 3 + 2) == edge_key(c, a));
            assert(cache@ == midpoint_keys(tris@, t * 3 + 3));
            assert((t + 1) * 3 == t * 3 + 3);
            lemma_midpoint_keys(tris@, t * 3 + 3, edge_count(tris@));
            let cl = cache@.len() as int;
            assert(all.take(cl) == cache@);
            assert(c2[ab - vertex_count] == c1[ab - vertex_count]);
            assert(cache@[ab - vertex_count] == c2[ab - vertex_count]);
            assert(cache@[bc - vertex_count] == c2[bc - vertex_count]);
            assert(all[ab - vertex_count] == cache@[ab - vertex_count]);
            assert(all[bc - vertex_count] == cache@[bc - vertex_count]);
            assert(all[ca - vertex_count] == cache@[ca - vertex_count]);
            assert(all[ab - vertex_count] == edge_key(a, b));
            assert(all[bc - vertex_count] == edge_key(b, c));
            assert(all[ca - vertex_count] == edge_key(c, a));
            assert(key_index(all, edge_key(a, b)) == ab - vertex_count);
            assert(key_index(all, edge_key(b, c)) == bc - vertex_count);
            assert(key_index(all, edge_key(c, a)) == ca - vertex_count);
        }
        let ghost before = next@;
        next.push([a, ab, ca]);
        next.push([b, bc, ab]);
        next.push([c, ca, bc]);
        next.push([ab, bc, ca]);
        proof {
            assert forall|t2: int, q: int|
                0 <= t2 < t + 1 && 0 <= q < 4 implies #[trigger] tri_ints(next@[t2 * 4 + q])
                    == subdivided_triangle(tris@, vertex_count as int, t2, q) by {
                if t2 < t {
                    assert(t2 * 4 + q < t * 4) by (nonlinear_arith)
                        requires
                            t2 < t,
                            q < 4,
                    ;
                    assert(next@[t2 * 4 + q] == before[t2 * 4 + q]);
                } else {
                    assert(tris@[t2] == tri);
                    assert(tri_ints(next@[t2 * 4 + q]) =~= subdivided_triangle(
                        tris@,
                        vertex_count as int,
                        t2,
                        q,
                    ));
                }
            }
        }
        t = t + 1;
    }
    proof {
        assert(t * 3 == edge_count(tris@));
    }
    (next, cache)
}

/// Where `key` stands in `keys`.
pub open spec fn position_of<K>(keys: Seq<K>, key: K) -> int {
    choose|i: int| 0 <= i < keys.len() && keys[i] == key
}

/// The number of prism corners, six per prism.
pub open spec fn corner_count(prisms: Seq<[(u32, u32); 6]>) -> int {
    (prisms.len() * 6) as int
}

/// The distinct keys among the first `n` prism corners (in prism order,
/// corners in order), each at its first appearance: the pooled vertices.
pub open spec fn pooled_keys(prisms: Seq<[(u32, u32); 6]>, n: int) -> Seq<(u32, u32)>
    decreases n,
{
    if n <= 0 {
        Seq::empty()
    } else {
        let p = pooled_keys(prisms, n - 1);
        let key = prisms[(n - 1) / 6][(n - 1) % 6];
        if p.contains(key) {
            p
        } else {
            p.push(key)
        }
    }
}

/// The vertex indices of prism `k`'s corners.
pub open spec fn prism_indices(prisms: Seq<[(u32, u32); 6]>, k: int) -> Seq<usize> {
    Seq::new(
        6,
        |m: int| position_of(pooled_keys(prisms, corner_count(prisms)), prisms[k][m]) as usize,
    )
}

/// The six corner keys of the prism differ.
pub open spec fn distinct_corners(p: [(u32, u32); 6]) -> bool {
    forall|a: int, b: int| 0 <= a < b < 6 ==> #[trigger] p[a] != #[trigger] p[b]
}

/// The pooled keys are distinct, hold every corner seen, only grow, and
/// number at most the corners seen.
pub proof fn lemma_pooled_keys(prisms: Seq<[(u32, u32); 6]>, n: int, m: int)
    requires
        0 <= n <= m,
    ensures
        pooled_keys(prisms, m).no_duplicates(),
        pooled_keys(prisms, n).len() <= pooled_keys(prisms, m).len(),
        pooled_keys(prisms, m).take(pooled_keys(prisms, n).len() as int) == pooled_keys(prisms, n),
        forall|k: int| 0 <= k < m ==> pooled_keys(prisms, m).contains(#[trigger] prisms[k / 6][k % 6]),
        pooled_keys(prisms, m).len() <= m,
    decreases m, m - n,
{
    if m == 0 {
        assert(pooled_keys(prisms, 0).take(0) =~= pooled_keys(prisms, 0));
    } else if n == m {
        lemma_pooled_keys(prisms, m - 1, m - 1);
        assert(pooled_keys(prisms, m).take(pooled_keys(prisms, m).len() as int) =~= pooled_keys(prisms, m));
        let p = pooled_keys(prisms, m - 1);
        let key = prisms[(m - 1) / 6][(m - 1) % 6];
        if !p.contains(key) {
            let q = p.push(key);
            assert forall|a: int, b: int| 0 <= a < q.len() && 0 <= b < q.len() && a != b implies q[a] != q[b] by {
                if a == p.len() {
                    assert(p.contains(q[b]));
                } else if b == p.len() {
                    assert(p.contains(q[a]));
                }
            }
            assert forall|k: int| 0 <= k < m implies q.contains(#[trigger] prisms[k / 6][k % 6]) by {
                if k < m - 1 {
                    let i = choose|i: int| 0 <= i < p.len() && p[i] == prisms[k / 6][k % 6];
                    assert(q[i] == p[i]);
                } else {
                    assert(q[p.len() as int] == key);
                }
            }
        }
    } else {
        lemma_pooled_keys(prisms, n, m - 1);
        lemma_pooled_keys(prisms, m, m);
        let p = pooled_keys(prisms, m - 1);
        let key = prisms[(m - 1) / 6][(m - 1) % 6];
        let pn = pooled_keys(prisms, n);
        if !p.contains(key) {
            assert(p.push(key).take(pn.len() as int) =~= p.take(pn.len() as int));
        }
    }
}

/// Turn prisms given by logical vertex keys into cells: each distinct key
/// gets a vertex index in order of first appearance (shared corners share
/// an index), and each prism is split into three tetrahedra.
///
/// Returns the keys in index order and the cells, three per prism.
pub fn build_cells(prisms: &[[(u32, u32); 6]]) -> (r: (Vec<(u32, u32)>, Vec<Tetrahedron>))
    requires
        forall|k: int| 0 <= k < prisms@.len() ==> distinct_corners(#[trigger] prisms@[k]),
        prisms@.len() * 6 <= usize::MAX,
    ensures
        r.0@ == pooled_keys(prisms@, corner_count(prisms@)),
        r.1@.len() == prisms@.len() * 3,
        forall|k: int, q: int|
            0 <= k < prisms@.len() && 0 <= q < 3 ==> #[trigger] r.1@[k * 3 + q].indices@ == prism_cells(
                prism_indices(prisms@, k),
            )[q],
{
    let ghost all = pooled_keys(prisms@, corner_count(prisms@));
    let mut pool = VertexPool::new();
    let mut tets: Vec<Tetrahedron> = Vec::new();
    proof {
        lemma_pooled_keys(prisms@, 0, corner_count(prisms@));
        assert(pool.spec_keys() =~= pooled_keys(prisms@, 0));
    }
    let mut k: usize = 0;
    while k < prisms.len()
        invariant
            all == pooled_keys(prisms@, corner_count(prisms@)),
            all.no_duplicates(),
            forall|kk: int| 0 <= kk < prisms@.len() ==> distinct_corners(#[trigger] prisms@[kk]),
            prisms@.len() * 6 <= usize::MAX,
            k <= prisms@.len(),
            pool.spec_keys() == pooled_keys(prisms@, k * 6),
            tets@.len() == k * 3,
            forall|k2: int, q: int|
                0 <= k2 < k && 0 <= q < 3 ==> #[trigger] tets@[k2 * 3 + q].indices@ == prism_cells(
                    prism_indices(prisms@, k2),
                )[q],
        decreases prisms@.len() - k,
    {
        let p = prisms[k];
        let mut idx: [usize; 6] = [0, 0, 0, 0, 0, 0];
        let mut m: usize = 0;
        while m < 6
            invariant
                all == pooled_keys(prisms@, corner_count(prisms@)),
                all.no_duplicates(),
                k < prisms@.len(),
                prisms@.len() * 6 <= usize::MAX,
                p == prisms@[k as int],
                m <= 6,
                pool.spec_keys() == pooled_keys(prisms@, k * 6 + m),
                forall|mm: int| 0 <= mm < m ==> (#[trigger] idx@[mm]) < pool.spec_keys().len() && pool.spec_keys()[idx@[mm] as int] == p[mm],
            decreases 6 - m,
        {
            proof {
                lemma_pooled_keys(prisms@, k * 6 + m, k * 6 + m);
                let n = k * 6 + m;
                assert(n / 6 == k && n % 6 == m);
            }
            let ghost before = pool.spec_keys();
            let (i, _) = pool.get(p[m]);
            proof {
                let n = k * 6 + m;
                assert(prisms@[n / 6][n % 6] == p[m as int]);
                assert(pool.spec_keys() == pooled_keys(prisms@, n + 1));
            }
            idx.set(m, i);
            proof {
                assert forall|mm: int| 0 <= mm < m + 1 implies (#[trigger] idx@[mm]) < pool.spec_keys().len()
                    && pool.spec_keys()[idx@[mm] as int] == p[mm] by {
                    if mm < m {
                        assert(before.len() <= pool.spec_keys().len());
                        assert(pool.spec_keys()[idx@[mm] as int] == before[idx@[mm] as int]);
                    }
                }
            }
            m = m + 1;
        }
        proof {
            let kk = k as int;
            lemma_pooled_keys(prisms@, kk * 6 + 6, corner_count(prisms@));
            let cur = pool.spec_keys();
            assert(all.take(cur.len() as int) == cur);
            assert forall|mm: int| 0 <= mm < 6 implies #[trigger] idx@[mm] == prism_indices(prisms@, kk)[mm] by {
                assert(all[idx@[mm] as int] == cur[idx@[mm] as int]);
                assert(all[idx@[mm] as int] == p[mm]);
                let j = position_of(all, p[mm]);
                assert(0 <= j < all.len() && all[j] == p[mm]);
            }
            assert(idx@ =~= prism_indices(prisms@, kk));
            assert forall|a: int, b: int| 0 <= a < b < 6 implies #[trigger] idx@[a] != #[trigger] idx@[b] by {
                assert(p[a] != p[b]);
            }
            assert(distinct6(idx@));
        }
        let ghost t0 = tets@;
        split_prism(idx, &mut tets);
        proof {
            assert forall|k2: int, q: int|
                0 <= k2 < k + 1 && 0 <= q < 3 implies #[trigger] tets@[k2 * 3 + q].indices@ == prism_cells(
                    prism_indices(prisms@, k2),
                )[q] by {
                if k2 < k {
                    assert(k2 * 3 + q < k * 3) by (nonlinear_arith)
                        requires
                            k2 < k,
                            q < 3,
                    ;
                    assert(tets@.take(t0.len() as int)[k2 * 3 + q] == t0[k2 * 3 + q]);
                } else {
                    assert(k2 * 3 + q == t0.len() + q);
                }
            }
            assert((k + 1) * 6 == k * 6 + 6);
        }
        k = k + 1;
    }
    proof {
        assert(k * 6 == corner_count(prisms@));
    }
    (pool.keys, tets)
}

/// The key of the point at ring position `i` (taken modulo `n`).
pub open spec fn ring_index(i: int, n: int) -> u32 {
    (i % n) as u32
}

/// Consecutive ring positions differ (there are at least two).
proof fn lemma_ring_step(i: int, n: int)
    requires
        0 <= i < n,
        2 <= n <= u32::MAX,
    ensures
        ring_index(i, n) != ring_index(i + 1, n),
        ring_index(i, n) == i,
        ring_index(i, n) < u32::MAX,
        ring_index(i + 1, n) < u32::MAX,
{
    vstd::arithmetic::div_mod::lemma_small_mod(i as nat, n as nat);
    if i + 1 < n {
        vstd::arithmetic::div_mod::lemma_small_mod((i + 1) as nat, n as nat);
    } else {
        assert((i + 1) % n == 0) by {
            vstd::arithmetic::div_mod::lemma_fundamental_div_mod_converse(i + 1, n, 1, 0);
        }
    }
}

/// Prism `k` of the cubinder with `seg` circle segments, as corner keys:
/// `(ring position, square corner)`, with ring position `u32::MAX` for the
/// disk centre. First the shell (circle segment × the square's triangles
/// `(0, 1, 2)` and `(0, 2, 3)`), then the four plates (disk fan triangle ×
/// square edge).
pub open spec fn cubinder_prism(seg: int, k: int) -> Seq<(u32, u32)> {
    if k < 2 * seg {
        let i = k / 2;
        let t: Seq<u32> = if k % 2 == 0 {
            seq![0u32, 1u32, 2u32]
        } else {
            seq![0u32, 2u32, 3u32]
        };
        seq![
            (ring_index(i, seg), t[0]),
            (ring_index(i, seg), t[1]),
            (ring_index(i, seg), t[2]),
            (ring_index(i + 1, seg), t[0]),
            (ring_index(i + 1, seg), t[1]),
            (ring_index(i + 1, seg), t[2]),
        ]
    } else {
        let m = k - 2 * seg;
        let edge = m / seg;
        let i = m % seg;
        let c0 = edge as u32;
        let c1 = ((edge + 1) % 4) as u32;
        seq![
            (u32::MAX, c0),
            (ring_index(i, seg), c0),
            (ring_index(i + 1, seg), c0),
            (u32::MAX, c1),
            (ring_index(i, seg), c1),
            (ring_index(i + 1, seg), c1),
        ]
    }
}

/// The number of circle segments actually used (at least 3).
pub open spec fn used_segments(segments: u32) -> int {
    if segments < 3 {
        3
    } else {
        segments as int
    }
}

/// The prisms of the cubinder boundary (S¹ × square shell, then disk ×
/// square-edge plates) as corner keys; every prism's corners differ.
pub fn cubinder_prisms(segments: u32) -> (r: Vec<[(u32, u32); 6]>)
    requires
        used_segments(segments) * 36 <= usize::MAX,
    ensures
        r@.len() == 6 * used_segments(segments),
        forall|k: int| 0 <= k < r@.len() ==> (#[trigger] r@[k])@ == cubinder_prism(used_segments(segments), k),
        forall|k: int| 0 <= k < r@.len() ==> distinct_corners(#[trigger] r@[k]),
{
    let seg: usize = if segments < 3 { 3 } else { segments as usize };
    let ghost sg = used_segments(segments);
    let mut out: Vec<[(u32, u32); 6]> = Vec::new();
    let mut i: usize = 0;
    while i < seg
        invariant
            seg == sg,
            3 <= sg <= u32::MAX,
            sg * 36 <= usize::MAX,
            i <= seg,
            out@.len() == 2 * i,
            forall|k: int| 0 <= k < out@.len() ==> (#[trigger] out@[k])@ == cubinder_prism(sg, k),
            forall|k: int| 0 <= k < out@.len() ==> distinct_corners(#[trigger] out@[k]),
        decreases seg - i,
    {
        let a = (i % seg) as u32;
        let b = ((i + 1) % seg) as u32;
        proof {
            lemma_ring_step(i as int, sg);
            assert(a == ring_index(i as int, sg));
            assert(b == ring_index(i + 1, sg));
            assert(a != b);
        }
        let mut t: usize = 0;
        while t < 2
            invariant
                seg == sg,
                3 <= sg <= u32::MAX,
                i < seg,
                t <= 2,
                a == ring_index(i as int, sg),
                b == ring_index(i + 1, sg),
                a != b,
                out@.len() == 2 * i + t,
                forall|k: int| 0 <= k < out@.len() ==> (#[trigger] out@[k])@ == cubinder_prism(sg, k),
                forall|k: int| 0 <= k < out@.len() ==> distinct_corners(#[trigger] out@[k]),
            decreases 2 - t,
        {
            let tri: [u32; 3] = if t == 0 { [0, 1, 2] } else { [0, 2, 3] };
            let prism: [(u32, u32); 6] = [(a, tri[0]), (a, tri[1]), (a, tri[2]), (b, tri[0]), (b, tri[1]), (b, tri[2])];
            proof {
                let k = 2 * i + t;
                assert(k / 2 == i && k % 2 == t);
                assert(k < 2 * sg);
                assert(prism@ =~= cubinder_prism(sg, k as int));
            }
            out.push(prism);
            t = t + 1;
        }
        i = i + 1;
    }
    let mut edge: usize = 0;
    while edge < 4
        invariant
            seg == sg,
            3 <= sg <= u32::MAX,
            sg * 36 <= usize::MAX,
            edge <= 4,
            out@.len() == 2 * sg + edge * sg,
            forall|k: int| 0 <= k < out@.len() ==> (#[trigger] out@[k])@ == cubinder_prism(sg, k),
            forall|k: int| 0 <= k < out@.len() ==> distinct_corners(#[trigger] out@[k]),
        decreases 4 - edge,
    {
        let c0 = edge as u32;
        let c1 = ((edge + 1) % 4) as u32;
        let mut i: usize = 0;
        while i < seg
            invariant
                seg == sg,
                3 <= sg <= u32::MAX,
                sg * 36 <= usize::MAX,
                edge < 4,
                c0 == edge as u32,
                c1 == ((edge + 1) % 4) as u32,
                i <= seg,
                out@.len() == 2 * sg + edge * sg + i,
                forall|k: int| 0 <= k < out@.len() ==> (#[trigger] out@[k])@ == cubinder_prism(sg, k),
                forall|k: int| 0 <= k < out@.len() ==> distinct_corners(#[trigger] out@[k]),
            decreases seg - i,
        {
            let a = (i % seg) as u32;
            let b = ((i + 1) % seg) as u32;
            let prism: [(u32, u32); 6] = [(u32::MAX, c0), (a, c0), (b, c0), (u32::MAX, c1), (a, c1), (b, c1)];
            proof {
                let k = 2 * sg + edge * sg + i;
                let m = k - 2 * sg;
                vstd::arithmetic::div_mod::lemma_fundamental_div_mod_converse(m, sg, edge as int, i as int);
                lemma_ring_step(i as int, sg);
                assert(a == ring_index(i as int, sg));
                assert(b == ring_index(i + 1, sg));
                assert(a != b);
                assert(prism@ =~= cubinder_prism(sg, k));
                assert(edge * sg + i < 4 * sg) by (nonlinear_arith)
                    requires
                        edge < 4,
                        i < sg,
                ;
            }
            out.push(prism);
            i = i + 1;
            proof {
                assert(2 * sg + edge * sg + i == out@.len());
            }
        }
        edge = edge + 1;
        proof {
            assert(2 * sg + (edge - 1) * sg + sg == 2 * sg + edge * sg) by (nonlinear_arith);
        }
    }
    proof {
        assert(2 * sg + 4 * sg == 6 * sg);
    }
    out
}

/// Prism `k` of the duocylinder with `n1` and `n2` segments on its two
/// circles, as corner keys `(position on circle 1, position on circle 2)`,
/// with `u32::MAX` for a circle's centre. First the solid torus
/// S¹(r1) × D²(r2) (disk 2 fanned, extruded along circle 1), then its
/// mirror D²(r1) × S¹(r2).
pub open spec fn duocylinder_prism(n1: int, n2: int, k: int) -> Seq<(u32, u32)> {
    if k < n1 * n2 {
        let i = k / n2;
        let j = k % n2;
        seq![
            (ring_index(i, n1), u32::MAX),
            (ring_index(i, n1), ring_index(j, n2)),
            (ring_index(i, n1), ring_index(j + 1, n2)),
            (ring_index(i + 1, n1), u32::MAX),
            (ring_index(i + 1, n1), ring_index(j, n2)),
            (ring_index(i + 1, n1), ring_index(j + 1, n2)),
        ]
    } else {
        let m = k - n1 * n2;
        let j = m / n1;
        let i = m % n1;
        seq![
            (u32::MAX, ring_index(j, n2)),
            (ring_index(i, n1), ring_index(j, n2)),
            (ring_index(i + 1, n1), ring_index(j, n2)),
            (u32::MAX, ring_index(j + 1, n2)),
            (ring_index(i, n1), ring_index(j + 1, n2)),
            (ring_index(i + 1, n1), ring_index(j + 1, n2)),
        ]
    }
}

/// The prisms of the duocylinder boundary (the two solid tori) as corner
/// keys; every prism's corners differ.
pub fn duocylinder_prisms(segments1: u32, segments2: u32) -> (r: Vec<[(u32, u32); 6]>)
    requires
        used_segments(segments1) * used_segments(segments2) * 72 <= usize::MAX,
    ensures
        r@.len() == 2 * used_segments(segments1) * used_segments(segments2),
        forall|k: int|
            0 <= k < r@.len() ==> (#[trigger] r@[k])@ == duocylinder_prism(
                used_segments(segments1),
                used_segments(segments2),
                k,
            ),
        forall|k: int| 0 <= k < r@.len() ==> distinct_corners(#[trigger] r@[k]),
{
    let n1: usize = if segments1 < 3 { 3 } else { segments1 as usize };
    let n2: usize = if segments2 < 3 { 3 } else { segments2 as usize };
    let ghost g1 = used_segments(segments1);
    let ghost g2 = used_segments(segments2);
    proof {
        assert(g1 * g2 <= g1 * g2 * 72) by (nonlinear_arith)
            requires
                g1 >= 3,
                g2 >= 3,
        ;
    }
    let mut out: Vec<[(u32, u32); 6]> = Vec::new();
    let mut i: usize = 0;
    while i < n1
        invariant
            n1 == g1,
            n2 == g2,
            3 <= g1 <= u32::MAX,
            3 <= g2 <= u32::MAX,
            g1 * g2 * 72 <= usize::MAX,
            i <= n1,
            out@.len() == i * g2,
            forall|k: int| 0 <= k < out@.len() ==> (#[trigger] out@[k])@ == duocylinder_prism(g1, g2, k),
            forall|k: int| 0 <= k < out@.len() ==> distinct_corners(#[trigger] out@[k]),
        decreases n1 - i,
    {
        let a = (i % n1) as u32;
        let a1 = ((i + 1) % n1) as u32;
        proof {
            lemma_ring_step(i as int, g1);
        }
        let mut j: usize = 0;
        while j < n2
            invariant
                n1 == g1,
                n2 == g2,
                3 <= g1 <= u32::MAX,
                3 <= g2 <= u32::MAX,
                g1 * g2 * 72 <= usize::MAX,
                i < n1,
                a == ring_index(i as int, g1),
                a1 == ring_index(i + 1, g1),
                a != a1,
                j <= n2,
                out@.len() == i * g2 + j,
                forall|k: int| 0 <= k < out@.len() ==> (#[trigger] out@[k])@ == duocylinder_prism(g1, g2, k),
                forall|k: int| 0 <= k < out@.len() ==> distinct_corners(#[trigger] out@[k]),
            decreases n2 - j,
        {
            let b = (j % n2) as u32;
            let b1 = ((j + 1) % n2) as u32;
            let prism: [(u32, u32); 6] = [(a, u32::MAX), (a, b), (a, b1), (a1, u32::MAX), (a1, b), (a1, b1)];
            proof {
                lemma_ring_step(j as int, g2);
                let k = i * g2 + j;
                vstd::arithmetic::div_mod::lemma_fundamental_div_mod_converse(k, g2, i as int, j as int);
                assert(k < g1 * g2) by (nonlinear_arith)
                    requires
                        k == i * g2 + j,
                        i < g1,
                        j < g2,
                ;
                assert(prism@ =~= duocylinder_prism(g1, g2, k));
                assert(k + 1 <= g1 * g2);
            }
            out.push(prism);
            j = j + 1;
        }
        i = i + 1;
        proof {
            assert((i - 1) * g2 + g2 == i * g2) by (nonlinear_arith);
        }
    }
    let mut j: usize = 0;
    while j < n2
        invariant
            n1 == g1,
            n2 == g2,
            3 <= g1 <= u32::MAX,
            3 <= g2 <= u32::MAX,
            g1 * g2 * 72 <= usize::MAX,
            j <= n2,
            out@.len() == g1 * g2 + j * g1,
            forall|k: int| 0 <= k < out@.len() ==> (#[trigger] out@[k])@ == duocylinder_prism(g1, g2, k),
            forall|k: int| 0 <= k < out@.len() ==> distinct_corners(#[trigger] out@[k]),
        decreases n2 - j,
    {
        let b = (j % n2) as u32;
        let b1 = ((j + 1) % n2) as u32;
        proof {
            lemma_ring_step(j as int, g2);
        }
        let mut i: usize = 0;
        while i < n1
            invariant
                n1 == g1,
                n2 == g2,
                3 <= g1 <= u32::MAX,
                3 <= g2 <= u32::MAX,
                g1 * g2 * 72 <= usize::MAX,
                j < n2,
                b == ring_index(j as int, g2),
                b1 == ring_index(j + 1, g2),
                b != b1,
                i <= n1,
                out@.len() == g1 * g2 + j * g1 + i,
                forall|k: int| 0 <= k < out@.len() ==> (#[trigger] out@[k])@ == duocylinder_prism(g1, g2, k),
                forall|k: int| 0 <= k < out@.len() ==> distinct_corners(#[trigger] out@[k]),
            decreases n1 - i,
        {
            let a = (i % n1) as u32;
            let a1 = ((i + 1) % n1) as u32;
            let prism: [(u32, u32); 6] = [(u32::MAX, b), (a, b), (a1, b), (u32::MAX, b1), (a, b1), (a1, b1)];
            proof {
                lemma_ring_step(i as int, g1);
                let k = g1 * g2 + j * g1 + i;
                let m = k - g1 * g2;
                vstd::arithmetic::div_mod::lemma_fundamental_div_mod_converse(m, g1, j as int, i as int);
                assert(prism@ =~= duocylinder_prism(g1, g2, k));
                assert(j * g1 + i < g2 * g1) by (nonlinear_arith)
                    requires
                        j < g2,
                        i < g1,
                ;
            }
            out.push(prism);
            i = i + 1;
        }
        j = j + 1;
        proof {
            assert((j - 1) * g1 + g1 == j * g1) by (nonlinear_arith);
        }
    }
    proof {
        assert(g1 * g2 + g2 * g1 == 2 * g1 * g2) by (nonlinear_arith);
    }
    out
}

} // verus!
