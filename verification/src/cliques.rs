//! Tetrahedral cells as the 4-cliques of an edge graph.
//!
//! The 600-cell's cells are exactly the 4-cliques of its nearest-neighbour
//! graph. Given the graph as ascending neighbour lists, the cells are
//! enumerated with ascending vertex indices, in lexicographic order.

use crate::mesh::Tetrahedron;
use vstd::prelude::*;

verus! {

/// The neighbour lists as sequences.
pub open spec fn adjacency(neighbors: Seq<Vec<usize>>) -> Seq<Seq<usize>> {
    neighbors.map_values(|v: Vec<usize>| v@)
}

/// The list is strictly ascending.
pub open spec fn list_ascending(s: Seq<usize>) -> bool {
    forall|a: int, b: int| 0 <= a < b < s.len() ==> #[trigger] s[a] < #[trigger] s[b]
}

/// The list names only vertices below `n`, and never `own`.
pub open spec fn list_in_graph(s: Seq<usize>, n: int, own: int) -> bool {
    forall|a: int| 0 <= a < s.len() ==> #[trigger] s[a] < n && s[a] != own
}

/// Every list is strictly ascending, names only vertices of the graph, and
/// never names its own vertex.
pub open spec fn adjacency_wf(adj: Seq<Seq<usize>>) -> bool {
    forall|i: int|
        0 <= i < adj.len() ==> list_ascending(#[trigger] adj[i]) && list_in_graph(adj[i], adj.len() as int, i)
}

/// `y` is in the neighbour list of `x`.
pub open spec fn adjacent(adj: Seq<Seq<usize>>, x: int, y: int) -> bool {
    0 <= x < adj.len() && adj[x].contains(y as usize) && 0 <= y
}

/// Four ascending vertices, each listed as a neighbour of every smaller one.
pub open spec fn is_clique4(adj: Seq<Seq<usize>>, q: Seq<usize>) -> bool {
    &&& q.len() == 4
    &&& q[0] < q[1] < q[2] < q[3]
    &&& adjacent(adj, q[0] as int, q[1] as int)
    &&& adjacent(adj, q[0] as int, q[2] as int)
    &&& adjacent(adj, q[0] as int, q[3] as int)
    &&& adjacent(adj, q[1] as int, q[2] as int)
    &&& adjacent(adj, q[1] as int, q[3] as int)
    &&& adjacent(adj, q[2] as int, q[3] as int)
}

/// `p` comes before `q` lexicographically.
pub open spec fn lex_less(p: Seq<usize>, q: Seq<usize>) -> bool {
    ||| p[0] < q[0]
    ||| p[0] == q[0] && p[1] < q[1]
    ||| p[0] == q[0] && p[1] == q[1] && p[2] < q[2]
    ||| p[0] == q[0] && p[1] == q[1] && p[2] == q[2] && p[3] < q[3]
}

/// `x` lies below the entry at `idx` (any `x` does once `idx` is past the
/// end).
pub open spec fn below(s: Seq<usize>, idx: int, x: usize) -> bool {
    idx >= s.len() || x < s[idx]
}

/// In a strictly ascending list, a listed value that is not below entry
/// `b` but is below entry `b + 1` is entry `b`.
proof fn lemma_ascending_step(s: Seq<usize>, x: usize, b: int)
    requires
        forall|a: int, c: int| 0 <= a < c < s.len() ==> #[trigger] s[a] < #[trigger] s[c],
        s.contains(x),
        0 <= b < s.len(),
        !below(s, b, x),
        below(s, b + 1, x),
    ensures
        x == s[b],
{
    let p = choose|p: int| 0 <= p < s.len() && s[p] == x;
    if p < b {
        assert(s[p] < s[b]);
    }
    if p > b {
        if p > b + 1 {
            assert(s[b + 1] < s[p]);
        }
    }
}

/// In a strictly ascending list, a listed value above entry `a` is not
/// below entry `a + 1`.
proof fn lemma_ascending_above(s: Seq<usize>, x: usize, a: int)
    requires
        forall|p: int, c: int| 0 <= p < c < s.len() ==> #[trigger] s[p] < #[trigger] s[c],
        s.contains(x),
        0 <= a < s.len(),
        x > s[a],
    ensures
        !below(s, a + 1, x),
{
    let p = choose|p: int| 0 <= p < s.len() && s[p] == x;
    if p <= a {
        if p < a {
            assert(s[p] < s[a]);
        }
    } else if p > a + 1 {
        assert(s[a + 1] < s[p]);
    }
}

/// `v` holds `x`.
fn list_contains(v: &Vec<usize>, x: usize) -> (r: bool)
    ensures
        r == v@.contains(x),
{
    let mut k: usize = 0;
    while k < v.len()
        invariant
            k <= v@.len(),
            forall|j: int| 0 <= j < k ==> v@[j] != x,
        decreases v@.len() - k,
    {
        if v[k] == x {
            return true;
        }
        k = k + 1;
    }
    false
}

/// Enumerate the 4-cliques `i < j < k < l` of the neighbour graph, in
/// lexicographic order, as tetrahedra.
pub fn clique_cells(neighbors: &Vec<Vec<usize>>) -> (r: Vec<Tetrahedron>)
    requires
        adjacency_wf(adjacency(neighbors@)),
    ensures
        forall|t: int| 0 <= t < r@.len() ==> is_clique4(adjacency(neighbors@), #[trigger] r@[t].indices@),
        forall|s: int, t: int| 0 <= s < t < r@.len() ==> lex_less(#[trigger] r@[s].indices@, #[trigger] r@[t].indices@),
        forall|q: Seq<usize>|
            #[trigger] is_clique4(adjacency(neighbors@), q) ==> exists|t: int| 0 <= t < r@.len() && r@[t].indices@ == q,
{
    let ghost adj = adjacency(neighbors@);
    let n = neighbors.len();
    let mut out: Vec<Tetrahedron> = Vec::new();
    let mut i: usize = 0;
    while i < n
        invariant
            adj == adjacency(neighbors@),
            adjacency_wf(adj),
            n == neighbors@.len(),
            i <= n,
            forall|t: int| 0 <= t < out@.len() ==> is_clique4(adj, #[trigger] out@[t].indices@),
            forall|s: int, t: int| 0 <= s < t < out@.len() ==> lex_less(#[trigger] out@[s].indices@, #[trigger] out@[t].indices@),
            forall|t: int| 0 <= t < out@.len() ==> (#[trigger] out@[t].indices@)[0] < i,
            forall|q: Seq<usize>|
                #[trigger] is_clique4(adj, q) && q[0] < i ==> exists|t: int| 0 <= t < out@.len() && out@[t].indices@ == q,
        decreases n - i,
    {
        let ni = &neighbors[i];
        let ghost s = adj[i as int];
        proof {
            assert(ni@ == s);
        }
        let mut a: usize = 0;
        while a < ni.len()
            invariant
                adj == adjacency(neighbors@),
                adjacency_wf(adj),
                n == neighbors@.len(),
                i < n,
                ni@ == s,
                s == adj[i as int],
                a <= s.len(),
                forall|t: int| 0 <= t < out@.len() ==> is_clique4(adj, #[trigger] out@[t].indices@),
                forall|x: int, t: int| 0 <= x < t < out@.len() ==> lex_less(#[trigger] out@[x].indices@, #[trigger] out@[t].indices@),
                forall|t: int|
                    0 <= t < out@.len() ==> (#[trigger] out@[t].indices@)[0] < i || ((out@[t].indices@)[0] == i
                        && below(s, a as int, (out@[t].indices@)[1])),
                forall|q: Seq<usize>|
                    #[trigger] is_clique4(adj, q) && (q[0] < i || (q[0] == i && below(s, a as int, q[1])))
                        ==> exists|t: int| 0 <= t < out@.len() && out@[t].indices@ == q,
            decreases s.len() - a,
        {
            let j = ni[a];
            if j < i {
                proof {
                    assert forall|q: Seq<usize>|
                        #[trigger] is_clique4(adj, q) && (q[0] < i || (q[0] == i && below(s, a + 1, q[1])))
                            implies exists|t: int| 0 <= t < out@.len() && out@[t].indices@ == q by {
                        if q[0] == i && !below(s, a as int, q[1]) {
                            lemma_ascending_step(s, q[1], a as int);
                        }
                    }
                    assert forall|t: int|
                        0 <= t < out@.len() implies (#[trigger] out@[t].indices@)[0] < i || ((out@[t].indices@)[0] == i
                            && below(s, a + 1, (out@[t].indices@)[1])) by {
                        if (out@[t].indices@)[0] == i {
                            if a + 1 < s.len() {
                                assert(s[a as int] < s[a + 1]);
                            }
                        }
                    }
                }
                a = a + 1;
                continue;
            }
            let ghost out_a = out@;
            let mut b: usize = a + 1;
            while b < ni.len()
                invariant
                    adj == adjacency(neighbors@),
                    adjacency_wf(adj),
                    n == neighbors@.len(),
                    i < n,
                    ni@ == s,
                    s == adj[i as int],
                    a < s.len(),
                    j == s[a as int],
                    j >= i,
                    a < b <= s.len(),
                    forall|t: int| 0 <= t < out@.len() ==> is_clique4(adj, #[trigger] out@[t].indices@),
                    forall|x: int, t: int| 0 <= x < t < out@.len() ==> lex_less(#[trigger] out@[x].indices@, #[trigger] out@[t].indices@),
                    forall|t: int|
                        0 <= t < out@.len() ==> (#[trigger] out@[t].indices@)[0] < i || ((out@[t].indices@)[0] == i
                            && below(s, a as int, (out@[t].indices@)[1])) || ((out@[t].indices@)[0] == i
                            && (out@[t].indices@)[1] == j && below(s, b as int, (out@[t].indices@)[2])),
                    forall|q: Seq<usize>|
                        #[trigger] is_clique4(adj, q) && (q[0] < i || (q[0] == i && below(s, a as int, q[1])) || (
                        q[0] == i && q[1] == j && below(s, b as int, q[2])))
                            ==> exists|t: int| 0 <= t < out@.len() && out@[t].indices@ == q,
                decreases s.len() - b,
            {
                let k = ni[b];
                proof {
                    assert(s[a as int] < s[b as int]);
                }
                if k < j || !list_contains(&neighbors[j], k) {
                    proof {
                        assert(neighbors@[j as int]@ == adj[j as int]);
                        assert forall|q: Seq<usize>|
                            #[trigger] is_clique4(adj, q) && (q[0] < i || (q[0] == i && below(s, a as int, q[1])) || (
                            q[0] == i && q[1] == j && below(s, b + 1, q[2])))
                                implies exists|t: int| 0 <= t < out@.len() && out@[t].indices@ == q by {
                            if q[0] == i && q[1] == j && !below(s, b as int, q[2]) && below(s, b + 1, q[2]) {
                                lemma_ascending_step(s, q[2], b as int);
                            }
                        }
                        assert forall|t: int|
                            0 <= t < out@.len() implies (#[trigger] out@[t].indices@)[0] < i || ((out@[t].indices@)[0] == i
                                && below(s, a as int, (out@[t].indices@)[1])) || ((out@[t].indices@)[0] == i
                                && (out@[t].indices@)[1] == j && below(s, b + 1, (out@[t].indices@)[2])) by {
                            if b + 1 < s.len() {
                                assert(s[b as int] < s[b + 1]);
                            }
                        }
                    }
                    b = b + 1;
                    continue;
                }
                let mut c: usize = 0;
                while c < ni.len()
                    invariant
                        adj == adjacency(neighbors@),
                        adjacency_wf(adj),
                        n == neighbors@.len(),
                        i < n,
                        ni@ == s,
                        s == adj[i as int],
                        a < s.len(),
                        j == s[a as int],
                        j >= i,
                        a < b < s.len(),
                        k == s[b as int],
                        k > j,
                        adj[j as int].contains(k),
                        c <= s.len(),
                        forall|t: int| 0 <= t < out@.len() ==> is_clique4(adj, #[trigger] out@[t].indices@),
                        forall|x: int, t: int|
                            0 <= x < t < out@.len() ==> lex_less(#[trigger] out@[x].indices@, #[trigger] out@[t].indices@),
                        forall|t: int|
                            0 <= t < out@.len() ==> (#[trigger] out@[t].indices@)[0] < i || ((out@[t].indices@)[0] == i
                                && below(s, a as int, (out@[t].indices@)[1])) || ((out@[t].indices@)[0] == i
                                && (out@[t].indices@)[1] == j && below(s, b as int, (out@[t].indices@)[2])) || (
                            (out@[t].indices@)[0] == i && (out@[t].indices@)[1] == j && (out@[t].indices@)[2] == k
                                && below(s, c as int, (out@[t].indices@)[3])),
                        forall|q: Seq<usize>|
                            #[trigger] is_clique4(adj, q) && (q[0] < i || (q[0] == i && below(s, a as int, q[1])) || (
                            q[0] == i && q[1] == j && below(s, b as int, q[2])) || (q[0] == i && q[1] == j && q[2] == k
                                && below(s, c as int, q[3])))
                                ==> exists|t: int| 0 <= t < out@.len() && out@[t].indices@ == q,
                    decreases s.len() - c,
                {
                    let l = ni[c];
                    let ghost before = out@;
                    proof {
                        assert(neighbors@[j as int]@ == adj[j as int]);
                        assert(neighbors@[k as int]@ == adj[k as int]);
                        assert(s.contains(l));
                        assert(s.contains(j));
                        assert(s.contains(k));
                    }
                    if l > k && list_contains(&neighbors[j], l) && list_contains(&neighbors[k], l) {
                        let tet = Tetrahedron::new([i, j, k, l]);
                        proof {
                            let q = tet.indices@;
                            assert(q =~= seq![i, j, k, l]);
                            assert(j != i);
                            assert(is_clique4(adj, q));
                            assert forall|x: int| 0 <= x < before.len() implies lex_less(#[trigger] before[x].indices@, q) by {
                                let p = before[x].indices@;
                                if p[0] == i && below(s, a as int, p[1]) {
                                    assert(j == s[a as int]);
                                }
                                if p[0] == i && p[1] == j && below(s, b as int, p[2]) {
                                    assert(k == s[b as int]);
                                }
                                if p[0] == i && p[1] == j && p[2] == k && below(s, c as int, p[3]) {
                                    assert(l == s[c as int]);
                                }
                            }
                        }
                        out.push(tet);
                        proof {
                            assert forall|x: int, t: int|
                                0 <= x < t < out@.len() implies lex_less(#[trigger] out@[x].indices@, #[trigger] out@[t].indices@) by {
                                if t < before.len() {
                                    assert(out@[x] == before[x]);
                                    assert(out@[t] == before[t]);
                                } else {
                                    assert(out@[x] == before[x]);
                                }
                            }
                            assert forall|t: int| 0 <= t < out@.len() implies is_clique4(adj, #[trigger] out@[t].indices@) by {
                                if t < before.len() {
                                    assert(out@[t] == before[t]);
                                }
                            }
                        }
                    }
                    proof {
                        assert forall|t: int|
                            0 <= t < out@.len() implies (#[trigger] out@[t].indices@)[0] < i || ((out@[t].indices@)[0] == i
                                && below(s, a as int, (out@[t].indices@)[1])) || ((out@[t].indices@)[0] == i
                                && (out@[t].indices@)[1] == j && below(s, b as int, (out@[t].indices@)[2])) || (
                            (out@[t].indices@)[0] == i && (out@[t].indices@)[1] == j && (out@[t].indices@)[2] == k
                                && below(s, c + 1, (out@[t].indices@)[3])) by {
                            if t < before.len() {
                                assert(out@[t] == before[t]);
                                if c + 1 < s.len() {
                                    assert(s[c as int] < s[c + 1]);
                                }
                            } else {
                                assert(out@[t].indices@ =~= seq![i, j, k, l]);
                                if c + 1 < s.len() {
                                    assert(s[c as int] < s[c + 1]);
                                }
                            }
                        }
                        assert forall|q: Seq<usize>|
                            #[trigger] is_clique4(adj, q) && (q[0] < i || (q[0] == i && below(s, a as int, q[1])) || (
                            q[0] == i && q[1] == j && below(s, b as int, q[2])) || (q[0] == i && q[1] == j && q[2] == k
                                && below(s, c + 1, q[3])))
                                implies exists|t: int| 0 <= t < out@.len() && out@[t].indices@ == q by {
                            let q_old = q[0] < i || (q[0] == i && below(s, a as int, q[1])) || (q[0] == i && q[1] == j
                                && below(s, b as int, q[2])) || (q[0] == i && q[1] == j && q[2] == k && below(s, c as int, q[3]));
                            if q_old {
                                let t = choose|t: int| 0 <= t < before.len() && before[t].indices@ == q;
                                assert(out@[t] == before[t]);
                            } else {
                                assert(adj[i as int].contains(q[3]));
                                lemma_ascending_step(s, q[3], c as int);
                                assert(q =~= seq![i, j, k, l]);
                                assert(out@[out@.len() - 1].indices@ =~= seq![i, j, k, l]);
                            }
                        }
                    }
                    c = c + 1;
                }
                proof {
                    assert forall|q: Seq<usize>|
                        #[trigger] is_clique4(adj, q) && (q[0] < i || (q[0] == i && below(s, a as int, q[1])) || (
                        q[0] == i && q[1] == j && below(s, b + 1, q[2])))
                            implies exists|t: int| 0 <= t < out@.len() && out@[t].indices@ == q by {
                        if q[0] == i && q[1] == j && !below(s, b as int, q[2]) && below(s, b + 1, q[2]) {
                            assert(adj[i as int].contains(q[2]));
                            lemma_ascending_step(s, q[2], b as int);
                            assert(adj[i as int].contains(q[3]));
                        }
                    }
                    assert forall|t: int|
                        0 <= t < out@.len() implies (#[trigger] out@[t].indices@)[0] < i || ((out@[t].indices@)[0] == i
                            && below(s, a as int, (out@[t].indices@)[1])) || ((out@[t].indices@)[0] == i
                            && (out@[t].indices@)[1] == j && below(s, b + 1, (out@[t].indices@)[2])) by {
                        if b + 1 < s.len() {
                            assert(s[b as int] < s[b + 1]);
                        }
                    }
                }
                b = b + 1;
            }
            proof {
                assert forall|q: Seq<usize>|
                    #[trigger] is_clique4(adj, q) && (q[0] < i || (q[0] == i && below(s, a + 1, q[1])))
                        implies exists|t: int| 0 <= t < out@.len() && out@[t].indices@ == q by {
                    if q[0] == i && !below(s, a as int, q[1]) && below(s, a + 1, q[1]) {
                        assert(adj[i as int].contains(q[1]));
                        lemma_ascending_step(s, q[1], a as int);
                        assert(adj[i as int].contains(q[2]));
                        lemma_ascending_above(s, q[2], a as int);
                    }
                }
                assert forall|t: int|
                    0 <= t < out@.len() implies (#[trigger] out@[t].indices@)[0] < i || ((out@[t].indices@)[0] == i
                        && below(s, a + 1, (out@[t].indices@)[1])) by {
                    if a + 1 < s.len() {
                        assert(s[a as int] < s[a + 1]);
                    }
                }
            }
            a = a + 1;
        }
        proof {
            assert forall|q: Seq<usize>|
                #[trigger] is_clique4(adj, q) && q[0] < i + 1 implies exists|t: int| 0 <= t < out@.len() && out@[t].indices@ == q by {
                if q[0] == i {
                    assert(below(s, s.len() as int, q[1]));
                }
            }
        }
        i = i + 1;
    }
    proof {
        assert forall|q: Seq<usize>|
            #[trigger] is_clique4(adj, q) implies exists|t: int| 0 <= t < out@.len() && out@[t].indices@ == q by {
            assert(adjacent(adj, q[0] as int, q[1] as int));
        }
    }
    out
}

} // verus!
