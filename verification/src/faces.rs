//! Face pairing of a tetrahedral boundary mesh.
//!
//! Each tetrahedron has four triangular faces. In a mesh that represents a
//! closed boundary 3-manifold (the boundary of a 4D solid), every face is
//! shared by exactly two cells. Faces are compared by their sorted vertex
//! indices.

use crate::mesh::{occurrences, sorted4, Tetrahedron};
use vstd::prelude::*;

verus! {

/// The cell's indices in ascending order.
pub open spec fn canon4(s: Seq<usize>) -> Seq<usize> {
    choose|r: Seq<usize>| r.len() == 4 && sorted4(r) && forall|v: usize| occurrences(r, v) == occurrences(s, v)
}

/// All faces of the cells, four per cell in cell order: face `k` of a
/// cell leaves out the `k`-th smallest of its indices.
pub open spec fn cell_faces(tets: Seq<Tetrahedron>) -> Seq<Seq<usize>> {
    Seq::new(tets.len() * 4, |k: int| canon4(tets[k / 4].indices@).remove(k % 4))
}

/// How many entries of `s` equal `f`.
pub open spec fn count_in(s: Seq<Seq<usize>>, f: Seq<usize>) -> nat
    decreases s.len(),
{
    if s.len() == 0 {
        0
    } else {
        count_in(s.drop_last(), f) + if s.last() == f {
            1nat
        } else {
            0nat
        }
    }
}

/// The number of distinct faces that exactly two cells share.
pub open spec fn paired_faces(tets: Seq<Tetrahedron>) -> nat {
    cell_faces(tets).to_set().filter(|f: Seq<usize>| count_in(cell_faces(tets), f) == 2).len()
}

/// The number of distinct faces that one cell, or more than two, have.
pub open spec fn unpaired_faces(tets: Seq<Tetrahedron>) -> nat {
    cell_faces(tets).to_set().filter(|f: Seq<usize>| count_in(cell_faces(tets), f) != 2).len()
}

/// Two ascending sequences of four with the same occurrences are equal.
proof fn lemma_sorted_unique(a: Seq<usize>, b: Seq<usize>)
    requires
        a.len() == 4,
        b.len() == 4,
        sorted4(a),
        sorted4(b),
        forall|v: usize| occurrences(a, v) == occurrences(b, v),
    ensures
        a == b,
{
    assert(occurrences(a, a[0]) == occurrences(b, a[0]));
    assert(occurrences(a, a[1]) == occurrences(b, a[1]));
    assert(occurrences(a, a[2]) == occurrences(b, a[2]));
    assert(occurrences(a, a[3]) == occurrences(b, a[3]));
    assert(occurrences(a, b[0]) == occurrences(b, b[0]));
    assert(occurrences(a, b[1]) == occurrences(b, b[1]));
    assert(occurrences(a, b[2]) == occurrences(b, b[2]));
    assert(occurrences(a, b[3]) == occurrences(b, b[3]));
    assert(a =~= b);
}

/// A sorted rearrangement of a cell is its canonical form.
proof fn lemma_canon4(s: Seq<usize>, r: Seq<usize>)
    requires
        r.len() == 4,
        sorted4(r),
        forall|v: usize| occurrences(r, v) == occurrences(s, v),
    ensures
        canon4(s) == r,
{
    let c = canon4(s);
    assert(c.len() == 4 && sorted4(c) && forall|v: usize| occurrences(c, v) == occurrences(s, v));
    lemma_sorted_unique(c, r);
}

/// Counting over one more entry.
proof fn lemma_count_push(s: Seq<Seq<usize>>, x: Seq<usize>, f: Seq<usize>)
    ensures
        count_in(s.push(x), f) == count_in(s, f) + if x == f {
            1nat
        } else {
            0nat
        },
{
    assert(s.push(x).drop_last() =~= s);
}

/// An entry of the sequence is counted at least once.
proof fn lemma_count_contains(s: Seq<Seq<usize>>, f: Seq<usize>)
    ensures
        s.contains(f) <==> count_in(s, f) > 0,
        count_in(s, f) <= s.len(),
    decreases s.len(),
{
    if s.len() > 0 {
        lemma_count_contains(s.drop_last(), f);
        assert(s.drop_last().push(s.last()) =~= s);
        if s.drop_last().contains(f) {
            let i = choose|i: int| 0 <= i < s.drop_last().len() && s.drop_last()[i] == f;
            assert(s[i] == f);
        }
        if s.contains(f) && s.last() != f {
            let i = choose|i: int| 0 <= i < s.len() && s[i] == f;
            assert(s.drop_last()[i] == f);
        }
    }
}

/// Position of `f` among `faces`.
fn face_pos(faces: &Vec<[usize; 3]>, f: &[usize; 3]) -> (r: Option<usize>)
    ensures
        r is Some ==> r->0 < faces@.len() && faces@[r->0 as int]@ == f@,
        r is None ==> forall|j: int| 0 <= j < faces@.len() ==> faces@[j]@ != f@,
{
    let mut k: usize = 0;
    while k < faces.len()
        invariant
            k <= faces@.len(),
            forall|j: int| 0 <= j < k ==> faces@[j]@ != f@,
        decreases faces@.len() - k,
    {
        let g = &faces[k];
        if g[0] == f[0] && g[1] == f[1] && g[2] == f[2] {
            assert(faces@[k as int]@ =~= f@);
            return Some(k);
        }
        k = k + 1;
    }
    None
}

/// The faces' sequences.
pub open spec fn face_views(faces: Seq<[usize; 3]>) -> Seq<Seq<usize>> {
    faces.map_values(|f: [usize; 3]| f@)
}

/// Count how the triangular faces of the cells pair up: returns
/// `(paired, unpaired)`, the number of distinct faces shared by exactly two
/// cells and the number of the other distinct faces.
///
/// Faces are compared by their sorted vertex indices, so cells built from
/// unshared vertices should be welded first.
pub fn face_pairing(tets: &[Tetrahedron]) -> (r: (usize, usize))
    requires
        tets@.len() * 4 <= usize::MAX,
    ensures
        r.0 == paired_faces(tets@),
        r.1 == unpaired_faces(tets@),
{
    let ghost all = cell_faces(tets@);
    let mut faces: Vec<[usize; 3]> = Vec::new();
    let mut counts: Vec<usize> = Vec::new();
    let mut i: usize = 0;
    while i < tets.len()
        invariant
            all == cell_faces(tets@),
            tets@.len() * 4 <= usize::MAX,
            i <= tets@.len(),
            faces@.len() == counts@.len(),
            face_views(faces@).no_duplicates(),
            face_views(faces@).to_set() == all.take(i * 4).to_set(),
            forall|j: int| 0 <= j < counts@.len() ==> #[trigger] counts@[j] == count_in(all.take(i * 4), faces@[j]@),
        decreases tets@.len() - i,
    {
        let c = tets[i].canonical();
        proof {
            lemma_canon4(tets@[i as int].indices@, c@);
        }
        let mut skip: usize = 0;
        while skip < 4
            invariant
                all == cell_faces(tets@),
                tets@.len() * 4 <= usize::MAX,
                i < tets@.len(),
                canon4(tets@[i as int].indices@) == c@,
                skip <= 4,
                faces@.len() == counts@.len(),
                face_views(faces@).no_duplicates(),
                face_views(faces@).to_set() == all.take(i * 4 + skip).to_set(),
                forall|j: int| 0 <= j < counts@.len() ==> #[trigger] counts@[j] == count_in(all.take(i * 4 + skip), faces@[j]@),
            decreases 4 - skip,
        {
            let i0: usize = if 0 < skip { 0 } else { 1 };
            let i1: usize = if 1 < skip { 1 } else { 2 };
            let i2: usize = if 2 < skip { 2 } else { 3 };
            let face: [usize; 3] = [c[i0], c[i1], c[i2]];
            let ghost n = i * 4 + skip;
            let ghost before = all.take(n as int);
            proof {
                assert(n / 4 == i && n % 4 == skip);
                assert(face@ =~= c@.remove(skip as int));
                assert(all[n as int] == face@);
                assert(all.take(n + 1) =~= before.push(face@));
                lemma_count_contains(before, face@);
            }
            let ghost fv0 = face_views(faces@);
            match face_pos(&faces, &face) {
                Some(p) => {
                    proof {
                        assert(fv0[p as int] == face@);
                        assert(fv0.contains(face@));
                        assert(before.to_set().contains(face@));
                        assert(before.contains(face@));
                        lemma_count_contains(before, face@);
                        lemma_count_push(before, face@, face@);
                    }
                    let cnt = counts[p];
                    counts.set(p, cnt + 1);
                    proof {
                        assert forall|j: int| 0 <= j < counts@.len() implies #[trigger] counts@[j] == count_in(
                            all.take(n + 1),
                            faces@[j]@,
                        ) by {
                            lemma_count_push(before, face@, faces@[j]@);
                            if j != p {
                                assert(fv0[j] == faces@[j]@);
                                assert(fv0[j] != fv0[p as int]);
                            }
                        }
                        assert(all.take(n + 1).to_set() =~= before.to_set());
                    }
                },
                None => {
                    proof {
                        assert(!fv0.contains(face@)) by {
                            if fv0.contains(face@) {
                                let j = choose|j: int| 0 <= j < fv0.len() && fv0[j] == face@;
                                assert(faces@[j]@ == face@);
                            }
                        }
                        assert(!before.to_set().contains(face@));
                        assert(!before.contains(face@));
                        lemma_count_contains(before, face@);
                        lemma_count_push(before, face@, face@);
                    }
                    faces.push(face);
                    counts.push(1);
                    proof {
                        let fv = face_views(faces@);
                        assert(fv =~= fv0.push(face@));
                        assert forall|a: int, b: int| 0 <= a < fv.len() && 0 <= b < fv.len() && a != b implies fv[a]
                            != fv[b] by {
                            if a < fv0.len() && b < fv0.len() {
                            } else if a < fv0.len() {
                                assert(fv0.contains(fv[a]));
                            } else {
                                assert(fv0.contains(fv[b]));
                            }
                        }
                        assert(fv.to_set() =~= all.take(n + 1).to_set()) by {
                            assert forall|x: Seq<usize>| fv.to_set().contains(x) <==> all.take(n + 1).to_set().contains(x) by {
                                if fv.contains(x) {
                                    let a = choose|a: int| 0 <= a < fv.len() && fv[a] == x;
                                    if a < fv0.len() {
                                        assert(fv0.contains(x));
                                        assert(before.to_set().contains(x));
                                        let b = choose|b: int| 0 <= b < before.len() && before[b] == x;
                                        assert(all.take(n + 1)[b] == x);
                                    } else {
                                        assert(all.take(n + 1)[n as int] == x);
                                    }
                                }
                                if all.take(n + 1).contains(x) {
                                    let tk = all.take(n + 1);
                                    let b = choose|b: int| 0 <= b < tk.len() && tk[b] == x;
                                    if b < n {
                                        assert(tk[b] == before[b]);
                                        assert(before[b] == x);
                                        assert(before.to_set().contains(x));
                                        assert(fv0.contains(x));
                                        let a = choose|a: int| 0 <= a < fv0.len() && fv0[a] == x;
                                        assert(fv[a] == x);
                                    } else {
                                        assert(fv[fv0.len() as int] == x);
                                    }
                                }
                            }
                        }
                        assert forall|j: int| 0 <= j < counts@.len() implies #[trigger] counts@[j] == count_in(
                            all.take(n + 1),
                            faces@[j]@,
                        ) by {
                            lemma_count_push(before, face@, faces@[j]@);
                            if j < fv0.len() {
                                assert(fv0[j] == faces@[j]@);
                                assert(fv0.contains(faces@[j]@));
                            }
                        }
                    }
                },
            }
            skip = skip + 1;
        }
        i = i + 1;
    }
    proof {
        assert(all.take((tets@.len() * 4) as int) =~= all);
    }
    let ghost dv = face_views(faces@);
    let ghost pred_two = |f: Seq<usize>| count_in(all, f) == 2;
    let mut paired: usize = 0;
    let mut unpaired: usize = 0;
    let ghost mut pd: Seq<Seq<usize>> = Seq::empty();
    let ghost mut ud: Seq<Seq<usize>> = Seq::empty();
    let mut j: usize = 0;
    while j < counts.len()
        invariant
            all == cell_faces(tets@),
            dv == face_views(faces@),
            dv.no_duplicates(),
            dv.to_set() == all.to_set(),
            faces@.len() == counts@.len(),
            forall|t: int| 0 <= t < counts@.len() ==> #[trigger] counts@[t] == count_in(all, faces@[t]@),
            j <= counts@.len(),
            paired == pd.len(),
            unpaired == ud.len(),
            paired + unpaired == j,
            pd.no_duplicates(),
            ud.no_duplicates(),
            forall|x: Seq<usize>| #[trigger] pd.contains(x) <==> (exists|t: int| 0 <= t < j && dv[t] == x) && count_in(all, x) == 2,
            forall|x: Seq<usize>| #[trigger] ud.contains(x) <==> (exists|t: int| 0 <= t < j && dv[t] == x) && count_in(all, x) != 2,
        decreases counts@.len() - j,
    {
        let ghost x = dv[j as int];
        proof {
            assert(x == faces@[j as int]@);
            assert(!(exists|t: int| 0 <= t < j && dv[t] == x)) by {
                if exists|t: int| 0 <= t < j && dv[t] == x {
                    let t = choose|t: int| 0 <= t < j && dv[t] == x;
                    assert(dv[t] != dv[j as int]);
                }
            }
        }
        if counts[j] == 2 {
            proof {
                let pd0 = pd;
                pd = pd.push(x);
                assert forall|a: int, b: int| 0 <= a < pd.len() && 0 <= b < pd.len() && a != b implies pd[a] != pd[b] by {
                    if a < pd0.len() && b < pd0.len() {
                    } else if a < pd0.len() {
                        assert(pd0.contains(pd[a]));
                    } else {
                        assert(pd0.contains(pd[b]));
                    }
                }
                assert forall|y: Seq<usize>| #[trigger] pd.contains(y) <==> (exists|t: int| 0 <= t < j + 1 && dv[t] == y) && count_in(all, y) == 2 by {
                    if pd.contains(y) {
                        let a = choose|a: int| 0 <= a < pd.len() && pd[a] == y;
                        if a < pd0.len() {
                            assert(pd0.contains(y));
                        } else {
                            assert(dv[j as int] == y);
                        }
                    }
                    if (exists|t: int| 0 <= t < j + 1 && dv[t] == y) && count_in(all, y) == 2 {
                        let t = choose|t: int| 0 <= t < j + 1 && dv[t] == y;
                        if t < j {
                            assert(pd0.contains(y));
                            let a = choose|a: int| 0 <= a < pd0.len() && pd0[a] == y;
                            assert(pd[a] == y);
                        } else {
                            assert(pd[pd0.len() as int] == y);
                        }
                    }
                }
                assert forall|y: Seq<usize>| #[trigger] ud.contains(y) <==> (exists|t: int| 0 <= t < j + 1 && dv[t] == y) && count_in(all, y) != 2 by {
                    if (exists|t: int| 0 <= t < j + 1 && dv[t] == y) && count_in(all, y) != 2 {
                        let t = choose|t: int| 0 <= t < j + 1 && dv[t] == y;
                        assert(t < j);
                    }
                }
            }
            paired = paired + 1;
        } else {
            proof {
                let ud0 = ud;
                ud = ud.push(x);
                assert forall|a: int, b: int| 0 <= a < ud.len() && 0 <= b < ud.len() && a != b implies ud[a] != ud[b] by {
                    if a < ud0.len() && b < ud0.len() {
                    } else if a < ud0.len() {
                        assert(ud0.contains(ud[a]));
                    } else {
                        assert(ud0.contains(ud[b]));
                    }
                }
                assert forall|y: Seq<usize>| #[trigger] ud.contains(y) <==> (exists|t: int| 0 <= t < j + 1 && dv[t] == y) && count_in(all, y) != 2 by {
                    if ud.contains(y) {
                        let a = choose|a: int| 0 <= a < ud.len() && ud[a] == y;
                        if a < ud0.len() {
                            assert(ud0.contains(y));
                        } else {
                            assert(dv[j as int] == y);
                        }
                    }
                    if (exists|t: int| 0 <= t < j + 1 && dv[t] == y) && count_in(all, y) != 2 {
                        let t = choose|t: int| 0 <= t < j + 1 && dv[t] == y;
                        if t < j {
                            assert(ud0.contains(y));
                            let a = choose|a: int| 0 <= a < ud0.len() && ud0[a] == y;
                            assert(ud[a] == y);
                        } else {
                            assert(ud[ud0.len() as int] == y);
                        }
                    }
                }
                assert forall|y: Seq<usize>| #[trigger] pd.contains(y) <==> (exists|t: int| 0 <= t < j + 1 && dv[t] == y) && count_in(all, y) == 2 by {
                    if (exists|t: int| 0 <= t < j + 1 && dv[t] == y) && count_in(all, y) == 2 {
                        let t = choose|t: int| 0 <= t < j + 1 && dv[t] == y;
                        assert(t < j);
                    }
                }
            }
            unpaired = unpaired + 1;
        }
        j = j + 1;
    }
    proof {
        let ps = all.to_set().filter(|f: Seq<usize>| count_in(all, f) == 2);
        let us = all.to_set().filter(|f: Seq<usize>| count_in(all, f) != 2);
        assert(pd.to_set() =~= ps) by {
            assert forall|x: Seq<usize>| pd.to_set().contains(x) <==> ps.contains(x) by {
                if pd.contains(x) {
                    let t = choose|t: int| 0 <= t < j && dv[t] == x;
                    assert(dv.contains(x));
                    assert(dv.to_set().contains(x));
                }
                if ps.contains(x) {
                    assert(all.to_set().contains(x));
                    assert(dv.to_set().contains(x));
                    let t = choose|t: int| 0 <= t < dv.len() && dv[t] == x;
                    assert(pd.contains(x));
                }
            }
        }
        assert(ud.to_set() =~= us) by {
            assert forall|x: Seq<usize>| ud.to_set().contains(x) <==> us.contains(x) by {
                if ud.contains(x) {
                    let t = choose|t: int| 0 <= t < j && dv[t] == x;
                    assert(dv.contains(x));
                    assert(dv.to_set().contains(x));
                }
                if us.contains(x) {
                    assert(all.to_set().contains(x));
                    assert(dv.to_set().contains(x));
                    let t = choose|t: int| 0 <= t < dv.len() && dv[t] == x;
                    assert(ud.contains(x));
                }
            }
        }
        pd.unique_seq_to_set();
        ud.unique_seq_to_set();
    }
    (paired, unpaired)
}

/// True if every triangular face is shared by exactly two cells (and there
/// is at least one cell): the cells form a closed 3-manifold with no
/// cracks, gaps, T-junctions, or duplicated cells.
pub fn is_watertight(tets: &[Tetrahedron]) -> (r: bool)
    requires
        tets@.len() * 4 <= usize::MAX,
    ensures
        r == (tets@.len() > 0 && unpaired_faces(tets@) == 0),
{
    tets.len() > 0 && face_pairing(tets).1 == 0
}

/// Every distinct face is counted once: as paired or as unpaired.
pub proof fn law_faces_are_paired_or_unpaired(tets: Seq<Tetrahedron>)
    ensures
        paired_faces(tets) + unpaired_faces(tets) == cell_faces(tets).to_set().len(),
{
    let all = cell_faces(tets);
    let fs = all.to_set();
    let ps = fs.filter(|f: Seq<usize>| count_in(all, f) == 2);
    let us = fs.filter(|f: Seq<usize>| count_in(all, f) != 2);
    vstd::seq_lib::seq_to_set_is_finite(all);
    vstd::set_lib::lemma_len_subset(ps, fs);
    vstd::set_lib::lemma_len_subset(us, fs);
    assert(ps.disjoint(us));
    assert(ps + us =~= fs);
    vstd::set_lib::lemma_set_disjoint_lens(ps, us);
}

/// A mesh is watertight exactly when it has cells and each of its
/// distinct faces is shared by exactly two of them.
pub proof fn law_watertight_means_every_face_paired(tets: Seq<Tetrahedron>)
    requires
        tets.len() > 0,
    ensures
        unpaired_faces(tets) == 0 <==> forall|f: Seq<usize>|
            #[trigger] cell_faces(tets).contains(f) ==> count_in(cell_faces(tets), f) == 2,
{
    let all = cell_faces(tets);
    let fs = all.to_set();
    let us = fs.filter(|f: Seq<usize>| count_in(all, f) != 2);
    vstd::seq_lib::seq_to_set_is_finite(all);
    vstd::set_lib::lemma_len_subset(us, fs);
    if unpaired_faces(tets) == 0 {
        assert forall|f: Seq<usize>| #[trigger] all.contains(f) implies count_in(all, f) == 2 by {
            if count_in(all, f) != 2 {
                assert(us.contains(f));
                if us.len() == 0 {
                    us.lemma_len0_is_empty();
                }
            }
        }
    }
    if forall|f: Seq<usize>| #[trigger] all.contains(f) ==> count_in(all, f) == 2 {
        assert(us =~= Set::<Seq<usize>>::empty());
    }
}

} // verus!
