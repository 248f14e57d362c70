//! Tetrahedral mesh topology: cells, cell validation, index rebasing, and
//! the prism split used by the curved primitives.
//!
//! Vertex positions are floating point and live with the geometry code;
//! everything here works on vertex indices only.

use vstd::prelude::*;

verus! {

/// A tetrahedral cell: four indices into a vertex list.
#[derive(Clone, Copy, Debug, PartialEq, Eq, Hash)]
pub struct Tetrahedron {
    /// The cell's vertex indices
    pub indices: [usize; 4],
}

/// How often `v` occurs among the first four entries of `s`.
pub open spec fn occurrences(s: Seq<usize>, v: usize) -> int {
    (if s[0] == v { 1int } else { 0int }) + (if s[1] == v { 1int } else { 0int }) + (if s[2] == v {
        1int
    } else {
        0int
    }) + (if s[3] == v { 1int } else { 0int })
}

/// The four entries are in ascending order.
pub open spec fn sorted4(s: Seq<usize>) -> bool {
    s[0] <= s[1] && s[1] <= s[2] && s[2] <= s[3]
}

/// Some index occurs twice among the four.
pub open spec fn has_repeat(s: Seq<usize>) -> bool {
    s[0] == s[1] || s[0] == s[2] || s[0] == s[3] || s[1] == s[2] || s[1] == s[3] || s[2] == s[3]
}

impl Tetrahedron {
    /// Create a cell from four vertex indices.
    pub fn new(indices: [usize; 4]) -> (r: Self)
        ensures
            r.indices == indices,
    {
        Tetrahedron { indices }
    }

    /// The indices in ascending order (so cells and faces compare
    /// independently of vertex order).
    pub fn canonical(&self) -> (r: [usize; 4])
        ensures
            r@.len() == 4,
            sorted4(r@),
            forall|v: usize| occurrences(r@, v) == occurrences(self.indices@, v),
    {
        let mut a = self.indices[0];
        let mut b = self.indices[1];
        let mut c = self.indices[2];
        let mut d = self.indices[3];
        let ghost s = self.indices@;
        if a > b {
            let t = a;
            a = b;
            b = t;
        }
        if c > d {
            let t = c;
            c = d;
            d = t;
        }
        if a > c {
            let t = a;
            a = c;
            c = t;
        }
        if b > d {
            let t = b;
            b = d;
            d = t;
        }
        if b > c {
            let t = b;
            b = c;
            c = t;
        }
        let r = [a, b, c, d];
        assert(r@ == seq![a, b, c, d]);
        assert forall|v: usize| occurrences(r@, v) == occurrences(s, v) by {}
        r
    }
}

/// Errors reported by [`validate_cells`].
#[derive(Clone, Debug, PartialEq, Eq, Structural)]
pub enum MeshError {
    /// A tetrahedron references a vertex index outside the vertex array.
    IndexOutOfBounds {
        /// Index of the offending tetrahedron in the cell list
        tet: usize,
        /// The out-of-bounds vertex index
        index: usize,
    },
    /// A tetrahedron uses the same vertex index more than once.
    DegenerateCell {
        /// Index of the offending tetrahedron in the cell list
        tet: usize,
    },
}

/// What is wrong with one cell, if anything: its first index (in order)
/// that is out of bounds, else a repeated index.
pub open spec fn cell_error(vertex_count: usize, t: Tetrahedron, ti: usize) -> Option<MeshError> {
    let s = t.indices@;
    if s[0] >= vertex_count {
        Some(MeshError::IndexOutOfBounds { tet: ti, index: s[0] })
    } else if s[1] >= vertex_count {
        Some(MeshError::IndexOutOfBounds { tet: ti, index: s[1] })
    } else if s[2] >= vertex_count {
        Some(MeshError::IndexOutOfBounds { tet: ti, index: s[2] })
    } else if s[3] >= vertex_count {
        Some(MeshError::IndexOutOfBounds { tet: ti, index: s[3] })
    } else if has_repeat(s) {
        Some(MeshError::DegenerateCell { tet: ti })
    } else {
        None
    }
}

/// The result of validating the first `n` cells: the first cell error, if any.
pub open spec fn cells_result(vertex_count: usize, tets: Seq<Tetrahedron>, n: int) -> Result<(), MeshError>
    decreases n,
{
    if n <= 0 {
        Ok(())
    } else {
        match cells_result(vertex_count, tets, n - 1) {
            Err(e) => Err(e),
            Ok(()) => match cell_error(vertex_count, tets[n - 1], (n - 1) as usize) {
                Some(e) => Err(e),
                None => Ok(()),
            },
        }
    }
}

/// Once a prefix has an error, every longer prefix reports the same error.
proof fn lemma_cells_result_error_persists(vertex_count: usize, tets: Seq<Tetrahedron>, k: int, n: int)
    requires
        0 <= k <= n,
        cells_result(vertex_count, tets, k) is Err,
    ensures
        cells_result(vertex_count, tets, n) == cells_result(vertex_count, tets, k),
    decreases n - k,
{
    if n > k {
        lemma_cells_result_error_persists(vertex_count, tets, k, n - 1);
    }
}

/// Every index of the cell is below `vertex_count` and no two of its
/// indices are equal.
pub open spec fn cell_proper(vertex_count: usize, t: Tetrahedron) -> bool {
    &&& forall|m: int| 0 <= m < 4 ==> #[trigger] t.indices@[m] < vertex_count
    &&& forall|a: int, b: int| 0 <= a < b < 4 ==> #[trigger] t.indices@[a] != #[trigger] t.indices@[b]
}

/// Validation succeeds exactly when every cell is proper; an out-of-bounds
/// report names a cell and one of its indices that is out of bounds, and a
/// degenerate report names a cell with two equal indices.
pub proof fn law_validation_accepts_exactly_proper_cells(vertex_count: usize, tets: Seq<Tetrahedron>, n: int)
    requires
        0 <= n <= tets.len(),
        tets.len() <= usize::MAX,
    ensures
        cells_result(vertex_count, tets, n) is Ok <==> forall|t: int| 0 <= t < n ==> cell_proper(vertex_count, #[trigger] tets[t]),
        cells_result(vertex_count, tets, n) matches Err(MeshError::IndexOutOfBounds { tet, index }) ==> tet < n
            && index >= vertex_count && exists|m: int| 0 <= m < 4 && #[trigger] tets[tet as int].indices@[m] == index,
        cells_result(vertex_count, tets, n) matches Err(MeshError::DegenerateCell { tet }) ==> tet < n && exists|a: int, b: int|
            0 <= a < b < 4 && #[trigger] tets[tet as int].indices@[a] == #[trigger] tets[tet as int].indices@[b],
    decreases n,
{
    if n > 0 {
        law_validation_accepts_exactly_proper_cells(vertex_count, tets, n - 1);
        let t = tets[n - 1];
        let s = t.indices@;
        if cells_result(vertex_count, tets, n - 1) is Ok {
            if cell_error(vertex_count, t, (n - 1) as usize) is None {
                assert(cell_proper(vertex_count, t)) by {
                    assert(!has_repeat(s));
                    assert forall|m: int| 0 <= m < 4 implies #[trigger] s[m] < vertex_count by {}
                }
                assert forall|i: int| 0 <= i < n implies cell_proper(vertex_count, #[trigger] tets[i]) by {}
            } else {
                assert(!cell_proper(vertex_count, t)) by {
                    if cell_proper(vertex_count, t) {
                        assert(s[0] < vertex_count && s[1] < vertex_count && s[2] < vertex_count && s[3] < vertex_count);
                        assert(s[0] != s[1] && s[0] != s[2] && s[0] != s[3]);
                        assert(s[1] != s[2] && s[1] != s[3] && s[2] != s[3]);
                    }
                }
                let ti = ((n - 1) as usize) as int;
                assert(ti == n - 1);
                let u = tets[ti].indices@;
                assert(u == s);
                if s[0] >= vertex_count {
                    assert(u[0] == s[0]);
                } else if s[1] >= vertex_count {
                    assert(u[1] == s[1]);
                } else if s[2] >= vertex_count {
                    assert(u[2] == s[2]);
                } else if s[3] >= vertex_count {
                    assert(u[3] == s[3]);
                } else {
                    if s[0] == s[1] {
                        assert(u[0] == u[1]);
                    } else if s[0] == s[2] {
                        assert(u[0] == u[2]);
                    } else if s[0] == s[3] {
                        assert(u[0] == u[3]);
                    } else if s[1] == s[2] {
                        assert(u[1] == u[2]);
                    } else if s[1] == s[3] {
                        assert(u[1] == u[3]);
                    } else {
                        assert(u[2] == u[3]);
                    }
                }
            }
        } else {
            assert(!(forall|i: int| 0 <= i < n - 1 ==> cell_proper(vertex_count, #[trigger] tets[i])));
            if forall|i: int| 0 <= i < n ==> cell_proper(vertex_count, #[trigger] tets[i]) {
                assert forall|i: int| 0 <= i < n - 1 implies cell_proper(vertex_count, #[trigger] tets[i]) by {}
            }
        }
    }
}

impl MeshError {
    /// The human-readable description of this error (what `Display` prints).
    pub fn message(&self) -> (r: String)
        ensures
            *self matches MeshError::DegenerateCell { tet } ==> r@ == "tetrahedron "@ + decimal_text(tet)
                + " has repeated vertex indices"@,
            *self matches MeshError::IndexOutOfBounds { tet, index } ==> r@ == "tetrahedron "@ + decimal_text(
                tet,
            ) + " references out-of-bounds vertex "@ + decimal_text(index),
    {
        match self {
            MeshError::IndexOutOfBounds { tet, index } => {
                let n = usize_text(*tet);
                let m = usize_text(*index);
                let r = String::from_str("tetrahedron ").concat(n.as_str()).concat(
                    " references out-of-bounds vertex ",
                ).concat(m.as_str());
                assert(r@ == "tetrahedron "@ + n@ + " references out-of-bounds vertex "@ + m@);
                r
            },
            MeshError::DegenerateCell { tet } => {
                let n = usize_text(*tet);
                let r = String::from_str("tetrahedron ").concat(n.as_str()).concat(
                    " has repeated vertex indices",
                );
                assert(r@ == "tetrahedron "@ + n@ + " has repeated vertex indices"@);
                r
            },
        }
    }
}

/// The character of a decimal digit (0..10).
pub open spec fn digit_char(d: int) -> char {
    if d == 0 {
        '0'
    } else if d == 1 {
        '1'
    } else if d == 2 {
        '2'
    } else if d == 3 {
        '3'
    } else if d == 4 {
        '4'
    } else if d == 5 {
        '5'
    } else if d == 6 {
        '6'
    } else if d == 7 {
        '7'
    } else if d == 8 {
        '8'
    } else {
        '9'
    }
}

/// The decimal digits of a number, most significant first, without
/// leading zeros ("0" for zero).
pub open spec fn decimal_text(n: usize) -> Seq<char>
    decreases n,
{
    if n < 10 {
        seq![digit_char(n as int)]
    } else {
        decimal_text(n / 10).push(digit_char((n % 10) as int))
    }
}

/// Writes a number in decimal with `usize`'s `Display`.
///
/// Trusted: `Display` for unsigned integers writes the decimal digits,
/// most significant first, without sign or leading zeros; the contract
/// states that.
#[verifier::external_body]
fn usize_text(n: usize) -> (r: String)
    ensures
        r@ == decimal_text(n),
{
    format!("{}", n)
}

/// Check index bounds and reject cells with repeated vertices.
///
/// Cells are checked in order; for each cell its indices in order, then
/// whether an index repeats. The first problem found is reported.
pub fn validate_cells(vertex_count: usize, tets: &[Tetrahedron]) -> (r: Result<(), MeshError>)
    ensures
        r == cells_result(vertex_count, tets@, tets@.len() as int),
        r is Ok <==> forall|t: int| 0 <= t < tets@.len() ==> cell_proper(vertex_count, #[trigger] tets@[t]),
{
    let count = tets.len();
    proof {
        assert(count == tets@.len());
        law_validation_accepts_exactly_proper_cells(vertex_count, tets@, tets@.len() as int);
    }
    let mut k: usize = 0;
    while k < tets.len()
        invariant
            k <= tets@.len(),
            cells_result(vertex_count, tets@, k as int) == Ok::<(), MeshError>(()),
        decreases tets@.len() - k,
    {
        let t = tets[k];
        let s = t.indices;
        let mut i: usize = 0;
        while i < 4
            invariant
                0 <= i <= 4,
                k < tets@.len(),
                s@ == tets@[k as int].indices@,
                cells_result(vertex_count, tets@, k as int) == Ok::<(), MeshError>(()),
                forall|m: int| 0 <= m < i ==> #[trigger] s@[m] < vertex_count,
            decreases 4 - i,
        {
            if s[i] >= vertex_count {
                proof {
                    assert(cell_error(vertex_count, tets@[k as int], k) == Some(
                        MeshError::IndexOutOfBounds { tet: k, index: s[i as int] },
                    ));
                    assert(cells_result(vertex_count, tets@, k + 1) == Err::<(), MeshError>(
                        MeshError::IndexOutOfBounds { tet: k, index: s[i as int] },
                    ));
                    lemma_cells_result_error_persists(vertex_count, tets@, k + 1, tets@.len() as int);
                }
                return Err(MeshError::IndexOutOfBounds { tet: k, index: s[i] });
            }
            i = i + 1;
        }
        if s[0] == s[1] || s[0] == s[2] || s[0] == s[3] || s[1] == s[2] || s[1] == s[3] || s[2]
            == s[3] {
            proof {
                assert(cells_result(vertex_count, tets@, k + 1) == Err::<(), MeshError>(
                    MeshError::DegenerateCell { tet: k },
                ));
                lemma_cells_result_error_persists(vertex_count, tets@, k + 1, tets@.len() as int);
            }
            return Err(MeshError::DegenerateCell { tet: k });
        }
        assert(cells_result(vertex_count, tets@, k + 1) == Ok::<(), MeshError>(()));
        k = k + 1;
    }
    Ok(())
}

/// Copies cells with every vertex index shifted by `base` (used when
/// appending one mesh's cells after another mesh's vertices).
pub fn rebase_cells(tets: &[Tetrahedron], base: usize) -> (r: Vec<Tetrahedron>)
    requires
        forall|k: int, i: int| 0 <= k < tets@.len() && 0 <= i < 4 ==> #[trigger] tets@[k].indices@[i] + base <= usize::MAX,
    ensures
        r@.len() == tets@.len(),
        forall|k: int, i: int| 0 <= k < tets@.len() && 0 <= i < 4 ==> #[trigger] r@[k].indices@[i] == tets@[k].indices@[i] + base,
{
    let mut out: Vec<Tetrahedron> = Vec::new();
    let mut k: usize = 0;
    while k < tets.len()
        invariant
            k <= tets@.len(),
            out@.len() == k,
            forall|kk: int, i: int| 0 <= kk < tets@.len() && 0 <= i < 4 ==> #[trigger] tets@[kk].indices@[i] + base <= usize::MAX,
            forall|kk: int, i: int| 0 <= kk < k && 0 <= i < 4 ==> #[trigger] out@[kk].indices@[i] == tets@[kk].indices@[i] + base,
        decreases tets@.len() - k,
    {
        let t = tets[k];
        assert(t.indices@[0] + base <= usize::MAX);
        assert(t.indices@[1] + base <= usize::MAX);
        assert(t.indices@[2] + base <= usize::MAX);
        assert(t.indices@[3] + base <= usize::MAX);
        let n = [t.indices[0] + base, t.indices[1] + base, t.indices[2] + base, t.indices[3] + base];
        out.push(Tetrahedron::new(n));
        proof {
            assert forall|kk: int, i: int| 0 <= kk < k + 1 && 0 <= i < 4 implies #[trigger] out@[kk].indices@[i]
                == tets@[kk].indices@[i] + base by {
                if kk == k {
                    assert(0 <= i < 4);
                }
            }
        }
        k = k + 1;
    }
    out
}

/// Copies cells with every vertex index `i` replaced by `remap[i]` (used
/// after vertices are merged, to point the cells at the kept vertices).
pub fn remap_cells(tets: &[Tetrahedron], remap: &[usize]) -> (r: Vec<Tetrahedron>)
    requires
        forall|k: int, i: int| 0 <= k < tets@.len() && 0 <= i < 4 ==> #[trigger] tets@[k].indices@[i] < remap@.len(),
    ensures
        r@.len() == tets@.len(),
        forall|k: int, i: int|
            0 <= k < tets@.len() && 0 <= i < 4 ==> #[trigger] r@[k].indices@[i] == remap@[tets@[k].indices@[i] as int],
{
    let mut out: Vec<Tetrahedron> = Vec::new();
    let mut k: usize = 0;
    while k < tets.len()
        invariant
            k <= tets@.len(),
            out@.len() == k,
            forall|kk: int, i: int| 0 <= kk < tets@.len() && 0 <= i < 4 ==> #[trigger] tets@[kk].indices@[i] < remap@.len(),
            forall|kk: int, i: int|
                0 <= kk < k && 0 <= i < 4 ==> #[trigger] out@[kk].indices@[i] == remap@[tets@[kk].indices@[i] as int],
        decreases tets@.len() - k,
    {
        let t = tets[k];
        assert(t.indices@[0] < remap@.len());
        assert(t.indices@[1] < remap@.len());
        assert(t.indices@[2] < remap@.len());
        assert(t.indices@[3] < remap@.len());
        let n = [remap[t.indices[0]], remap[t.indices[1]], remap[t.indices[2]], remap[t.indices[3]]];
        out.push(Tetrahedron::new(n));
        proof {
            assert forall|kk: int, i: int| 0 <= kk < k + 1 && 0 <= i < 4 implies #[trigger] out@[kk].indices@[i]
                == remap@[tets@[kk].indices@[i] as int] by {
                if kk == k {
                    assert(0 <= i < 4);
                }
            }
        }
        k = k + 1;
    }
    out
}

// === Prism splitting ===

/// The position (0..6) of the smallest of six indices (the first one on ties).
pub open spec fn min_position(p: Seq<usize>) -> int {
    if p[0] <= p[1] && p[0] <= p[2] && p[0] <= p[3] && p[0] <= p[4] && p[0] <= p[5] {
        0
    } else if p[1] <= p[2] && p[1] <= p[3] && p[1] <= p[4] && p[1] <= p[5] {
        1
    } else if p[2] <= p[3] && p[2] <= p[4] && p[2] <= p[5] {
        2
    } else if p[3] <= p[4] && p[3] <= p[5] {
        3
    } else if p[4] <= p[5] {
        4
    } else {
        5
    }
}

/// The prism relabelled by one of its symmetries (cyclic rotation of both
/// triangles, bottom/top flip) so that its smallest index comes first.
pub open spec fn normalized_prism(p: Seq<usize>) -> Seq<usize> {
    let m = min_position(p);
    if m == 0 {
        seq![p[0], p[1], p[2], p[3], p[4], p[5]]
    } else if m == 1 {
        seq![p[1], p[2], p[0], p[4], p[5], p[3]]
    } else if m == 2 {
        seq![p[2], p[0], p[1], p[5], p[3], p[4]]
    } else if m == 3 {
        seq![p[3], p[4], p[5], p[0], p[1], p[2]]
    } else if m == 4 {
        seq![p[4], p[5], p[3], p[1], p[2], p[0]]
    } else {
        seq![p[5], p[3], p[4], p[2], p[0], p[1]]
    }
}

/// The three cells a prism splits into, by the lowest-global-index rule.
pub open spec fn prism_cells(p: Seq<usize>) -> Seq<Seq<usize>> {
    let v = normalized_prism(p);
    let m = min4(v[1], v[2], v[4], v[5]);
    if m == v[1] || m == v[5] {
        seq![seq![v[0], v[1], v[2], v[5]], seq![v[0], v[1], v[5], v[4]], seq![v[0], v[4], v[5], v[3]]]
    } else {
        seq![seq![v[0], v[1], v[2], v[4]], seq![v[0], v[4], v[2], v[5]], seq![v[0], v[4], v[5], v[3]]]
    }
}

/// The smallest of four indices.
pub open spec fn min4(a: usize, b: usize, c: usize, d: usize) -> usize {
    let ab = if a <= b { a } else { b };
    let abc = if ab <= c { ab } else { c };
    if abc <= d { abc } else { d }
}

/// All six indices differ.
pub open spec fn distinct6(p: Seq<usize>) -> bool {
    forall|i: int, j: int| 0 <= i < j < 6 ==> #[trigger] p[i] != #[trigger] p[j]
}

/// Cell `c` has vertex `x`.
pub open spec fn cell_has(c: Seq<usize>, x: usize) -> bool {
    c[0] == x || c[1] == x || c[2] == x || c[3] == x
}

/// Some of the three cells has both `x` and `y` as vertices (the segment
/// `x`-`y` is an edge of the split).
pub open spec fn split_has_edge(cells: Seq<Seq<usize>>, x: usize, y: usize) -> bool {
    (cell_has(cells[0], x) && cell_has(cells[0], y)) || (cell_has(cells[1], x) && cell_has(cells[1], y))
        || (cell_has(cells[2], x) && cell_has(cells[2], y))
}

/// The quad `a b c d` (in cyclic order) is split along the diagonal that
/// starts at its smallest index, and not along the other diagonal.
pub open spec fn quad_split_by_lowest_index(cells: Seq<Seq<usize>>, a: usize, b: usize, c: usize, d: usize) -> bool {
    let m = min4(a, b, c, d);
    if m == a || m == c {
        split_has_edge(cells, a, c) && !split_has_edge(cells, b, d)
    } else {
        split_has_edge(cells, b, d) && !split_has_edge(cells, a, c)
    }
}

/// Each of a prism's three quad faces is split along the diagonal from its
/// smallest global index. The choice depends only on the quad's own four
/// indices, so two prisms sharing a quad face split it identically and the
/// mesh has no cracks along the seam.
pub proof fn law_prism_quads_split_by_lowest_index(prism: Seq<usize>)
    requires
        prism.len() == 6,
        distinct6(prism),
    ensures
        quad_split_by_lowest_index(prism_cells(prism), prism[0], prism[1], prism[4], prism[3]),
        quad_split_by_lowest_index(prism_cells(prism), prism[1], prism[2], prism[5], prism[4]),
        quad_split_by_lowest_index(prism_cells(prism), prism[2], prism[0], prism[3], prism[5]),
{
    assert(prism[0] != prism[1] && prism[0] != prism[2] && prism[0] != prism[3] && prism[0] != prism[4]
        && prism[0] != prism[5]);
    assert(prism[1] != prism[2] && prism[1] != prism[3] && prism[1] != prism[4] && prism[1] != prism[5]);
    assert(prism[2] != prism[3] && prism[2] != prism[4] && prism[2] != prism[5]);
    assert(prism[3] != prism[4] && prism[3] != prism[5]);
    assert(prism[4] != prism[5]);
}

/// The split yields three cells, each made of four distinct vertices of
/// the prism.
pub proof fn law_prism_cells_are_proper(prism: Seq<usize>)
    requires
        prism.len() == 6,
        distinct6(prism),
    ensures
        prism_cells(prism).len() == 3,
        forall|k: int| 0 <= k < 3 ==> {
            let c = #[trigger] prism_cells(prism)[k];
            &&& c.len() == 4
            &&& !has_repeat(c)
            &&& forall|i: int| 0 <= i < 4 ==> prism.contains(#[trigger] c[i])
        },
{
    assert(prism[0] != prism[1] && prism[0] != prism[2] && prism[0] != prism[3] && prism[0] != prism[4]
        && prism[0] != prism[5]);
    assert(prism[1] != prism[2] && prism[1] != prism[3] && prism[1] != prism[4] && prism[1] != prism[5]);
    assert(prism[2] != prism[3] && prism[2] != prism[4] && prism[2] != prism[5]);
    assert(prism[3] != prism[4] && prism[3] != prism[5]);
    assert(prism[4] != prism[5]);
    assert(prism.contains(prism[0]) && prism.contains(prism[1]) && prism.contains(prism[2]));
    assert(prism.contains(prism[3]) && prism.contains(prism[4]) && prism.contains(prism[5]));
}

/// Split a triangular prism into 3 tetrahedra using the lowest-global-index
/// rule, appending them to `out`.
///
/// `prism` lists global vertex indices as `[b0, b1, b2, t0, t1, t2]` where
/// `t_i` is the extruded copy of `b_i` (the three quads are `b0 b1 t1 t0`,
/// `b1 b2 t2 t1`, `b2 b0 t0 t2`).
///
/// All six indices must be distinct; every quad face is then split along
/// the diagonal from its smallest index, so adjacent prisms sharing a quad
/// face always split it the same way.
pub fn split_prism(prism: [usize; 6], out: &mut Vec<Tetrahedron>)
    requires
        distinct6(prism@),
    ensures
        final(out)@.len() == old(out)@.len() + 3,
        final(out)@.take(old(out)@.len() as int) == old(out)@,
        forall|k: int| 0 <= k < 3 ==> #[trigger] final(out)@[old(out)@.len() + k].indices@ == prism_cells(prism@)[k],
{
    let p = prism;
    let mut min_pos: usize = 0;
    let mut i: usize = 1;
    while i < 6
        invariant
            1 <= i <= 6,
            min_pos < i,
            p@ == prism@,
            forall|k: int| 0 <= k < i ==> p@[min_pos as int] <= #[trigger] p@[k],
            forall|k: int| 0 <= k < min_pos ==> p@[min_pos as int] < #[trigger] p@[k],
        decreases 6 - i,
    {
        if p[i] < p[min_pos] {
            min_pos = i;
        }
        i = i + 1;
    }
    assert(min_pos == min_position(p@));
    let v: [usize; 6] = if min_pos == 0 {
        p
    } else if min_pos == 1 {
        [p[1], p[2], p[0], p[4], p[5], p[3]]
    } else if min_pos == 2 {
        [p[2], p[0], p[1], p[5], p[3], p[4]]
    } else if min_pos == 3 {
        [p[3], p[4], p[5], p[0], p[1], p[2]]
    } else if min_pos == 4 {
        [p[4], p[5], p[3], p[1], p[2], p[0]]
    } else {
        [p[5], p[3], p[4], p[2], p[0], p[1]]
    };
    assert(v@ =~= normalized_prism(prism@));
    let m12 = if v[1] <= v[2] { v[1] } else { v[2] };
    let m124 = if m12 <= v[4] { m12 } else { v[4] };
    let m = if m124 <= v[5] { m124 } else { v[5] };
    let ghost start = old(out)@.len() as int;
    if m == v[1] || m == v[5] {
        out.push(Tetrahedron::new([v[0], v[1], v[2], v[5]]));
        out.push(Tetrahedron::new([v[0], v[1], v[5], v[4]]));
        out.push(Tetrahedron::new([v[0], v[4], v[5], v[3]]));
    } else {
        out.push(Tetrahedron::new([v[0], v[1], v[2], v[4]]));
        out.push(Tetrahedron::new([v[0], v[4], v[2], v[5]]));
        out.push(Tetrahedron::new([v[0], v[4], v[5], v[3]]));
    }
    assert(out@.take(start) =~= old(out)@);
    assert forall|k: int| 0 <= k < 3 implies #[trigger] out@[start + k].indices@ == prism_cells(prism@)[k] by {
        assert(out@[start + k].indices@ =~= prism_cells(prism@)[k]);
    }
}

} // verus!
