//! The parent/child hierarchy of a world's entities.
//!
//! Entities are identified by their 64-bit keys (the bits of an ECS entity
//! handle). The hierarchy records each live entity's parent and its ordered
//! list of children, and never contains a cycle: every entity has a depth
//! (0 for roots, its parent's depth plus one otherwise).

use crate::hierarchy::HierarchyError;
use vstd::prelude::*;

verus! {

/// The key of an entity (the bits of its ECS handle).
pub type EntityKey = u64;

/// One entity's place in the hierarchy.
pub struct HierarchyNode {
    /// The entity
    pub entity: EntityKey,
    /// Its parent, if it has one
    pub parent: Option<EntityKey>,
    /// Its children, in the order they were attached
    pub children: Vec<EntityKey>,
}

/// The `k`-th ancestor of `e` (`e` itself for `k == 0`), following parents.
pub open spec fn ancestor_at(parent: Map<EntityKey, Option<EntityKey>>, e: EntityKey, k: nat) -> EntityKey
    decreases k,
{
    if k == 0 {
        e
    } else {
        parent[ancestor_at(parent, e, (k - 1) as nat)]->0
    }
}

/// `a` is a strict ancestor of `y`: some ancestor at distance 1..=depth(y).
pub open spec fn is_strict_ancestor(
    parent: Map<EntityKey, Option<EntityKey>>,
    depth: Map<EntityKey, nat>,
    a: EntityKey,
    y: EntityKey,
) -> bool {
    exists|k: nat| 1 <= k <= depth[y] && #[trigger] ancestor_at(parent, y, k) == a
}

/// Parent links and children lists agree: every parent is live and lists
/// its child, every listed child is live and points back, and no list
/// holds an entity twice.
pub open spec fn links_ok(
    parent: Map<EntityKey, Option<EntityKey>>,
    children: Map<EntityKey, Seq<EntityKey>>,
) -> bool {
    &&& children.dom() == parent.dom()
    &&& forall|e: EntityKey|
        #[trigger] parent.dom().contains(e) && parent[e] is Some ==> parent.dom().contains(parent[e]->0)
            && children[parent[e]->0].contains(e)
    &&& forall|e: EntityKey, y: EntityKey|
        parent.dom().contains(e) && #[trigger] children[e].contains(y) ==> parent.dom().contains(y)
            && parent[y] == Some(e)
    &&& forall|e: EntityKey| #[trigger] parent.dom().contains(e) ==> children[e].no_duplicates()
}

/// Depths follow the parent links: 0 for roots, one more than the parent's
/// otherwise (which makes the parent links acyclic).
pub open spec fn depths_ok(parent: Map<EntityKey, Option<EntityKey>>, depth: Map<EntityKey, nat>) -> bool {
    &&& depth.dom() == parent.dom()
    &&& forall|e: EntityKey|
        #[trigger] parent.dom().contains(e) && parent[e] is Some ==> parent.dom().contains(parent[e]->0)
    &&& forall|e: EntityKey|
        #[trigger] parent.dom().contains(e) ==> depth[e] == match parent[e] {
            Some(p) => depth[p] + 1,
            None => 0,
        }
}

/// The hierarchy maps are consistent and acyclic.
pub open spec fn graph_wf(
    parent: Map<EntityKey, Option<EntityKey>>,
    children: Map<EntityKey, Seq<EntityKey>>,
    depth: Map<EntityKey, nat>,
) -> bool {
    links_ok(parent, children) && depths_ok(parent, depth)
}

/// `x` is `c` or lies below it.
pub open spec fn in_subtree(
    parent: Map<EntityKey, Option<EntityKey>>,
    depth: Map<EntityKey, nat>,
    c: EntityKey,
    x: EntityKey,
) -> bool {
    x == c || is_strict_ancestor(parent, depth, c, x)
}

/// The depths after the subtree of `c` is moved so that `c` gets depth
/// `base`: every member of the subtree shifts by the same amount.
pub open spec fn shifted_depths(
    parent: Map<EntityKey, Option<EntityKey>>,
    depth: Map<EntityKey, nat>,
    c: EntityKey,
    base: nat,
) -> Map<EntityKey, nat> {
    Map::new(
        |x: EntityKey| depth.dom().contains(x),
        |x: EntityKey|
            if in_subtree(parent, depth, c, x) {
                (depth[x] - depth[c] + base) as nat
            } else {
                depth[x]
            },
    )
}

/// The position of the first entry equal to `v` (meaningful when `s`
/// contains `v`).
pub open spec fn first_index_of(s: Seq<EntityKey>, v: EntityKey) -> int {
    choose|k: int| 0 <= k < s.len() && s[k] == v && forall|j: int| 0 <= j < k ==> s[j] != v
}

/// The sequence with the first entry equal to `v` replaced by the last
/// entry and the last entry dropped (what `Vec::swap_remove` does at `v`'s
/// first position); unchanged if `v` is absent.
pub open spec fn swap_removed(s: Seq<EntityKey>, v: EntityKey) -> Seq<EntityKey> {
    if s.contains(v) {
        s.update(first_index_of(s, v), s.last()).drop_last()
    } else {
        s
    }
}

/// Ancestors within an entity's depth are live, and each step up lowers the
/// depth by one.
pub proof fn lemma_ancestor_live(
    parent: Map<EntityKey, Option<EntityKey>>,
    depth: Map<EntityKey, nat>,
    e: EntityKey,
    k: nat,
)
    requires
        depths_ok(parent, depth),
        parent.dom().contains(e),
        k <= depth[e],
    ensures
        parent.dom().contains(ancestor_at(parent, e, k)),
        depth[ancestor_at(parent, e, k)] == depth[e] - k,
        k < depth[e] ==> parent[ancestor_at(parent, e, k)] is Some,
    decreases k,
{
    if k > 0 {
        lemma_ancestor_live(parent, depth, e, (k - 1) as nat);
        let a = ancestor_at(parent, e, (k - 1) as nat);
        assert(parent.dom().contains(a));
        if parent[a] is None {
            assert(depth[a] == 0);
        }
    }
    let b = ancestor_at(parent, e, k);
    if parent[b] is None {
        assert(depth[b] == 0);
    }
}

/// Going `k + 1` steps up from `e` is going `k` steps up from its parent.
pub proof fn lemma_ancestor_step(parent: Map<EntityKey, Option<EntityKey>>, e: EntityKey, k: nat)
    requires
        parent[e] is Some,
    ensures
        ancestor_at(parent, e, k + 1) == ancestor_at(parent, parent[e]->0, k),
    decreases k,
{
    if k > 0 {
        lemma_ancestor_step(parent, e, (k - 1) as nat);
        assert(ancestor_at(parent, e, k + 1) == parent[ancestor_at(parent, e, k)]->0);
        assert(ancestor_at(parent, parent[e]->0, k) == parent[ancestor_at(parent, parent[e]->0, (k - 1) as nat)]->0);
    } else {
        assert(ancestor_at(parent, e, 0) == e);
        assert(ancestor_at(parent, e, 1) == parent[ancestor_at(parent, e, 0)]->0);
    }
}

/// A strict ancestor is live and shallower than its descendant, so nothing
/// is its own ancestor.
pub proof fn lemma_strict_ancestor_shallower(
    parent: Map<EntityKey, Option<EntityKey>>,
    depth: Map<EntityKey, nat>,
    a: EntityKey,
    y: EntityKey,
)
    requires
        depths_ok(parent, depth),
        parent.dom().contains(y),
        is_strict_ancestor(parent, depth, a, y),
    ensures
        parent.dom().contains(a),
        depth[a] < depth[y],
        a != y,
{
    let k = choose|k: nat| 1 <= k <= depth[y] && #[trigger] ancestor_at(parent, y, k) == a;
    lemma_ancestor_live(parent, depth, y, k);
}

/// The strict ancestors of an entity with a parent are that parent and the
/// parent's strict ancestors.
pub proof fn lemma_ancestor_via_parent(
    parent: Map<EntityKey, Option<EntityKey>>,
    depth: Map<EntityKey, nat>,
    a: EntityKey,
    x: EntityKey,
)
    requires
        depths_ok(parent, depth),
        parent.dom().contains(x),
        parent[x] is Some,
    ensures
        is_strict_ancestor(parent, depth, a, x) <==> (parent[x]->0 == a || is_strict_ancestor(
            parent,
            depth,
            a,
            parent[x]->0,
        )),
{
    let px = parent[x]->0;
    assert(depth[x] == depth[px] + 1);
    assert(ancestor_at(parent, x, 0) == x);
    assert(ancestor_at(parent, x, 1) == parent[ancestor_at(parent, x, 0)]->0);
    if is_strict_ancestor(parent, depth, a, x) {
        let k = choose|k: nat| 1 <= k <= depth[x] && #[trigger] ancestor_at(parent, x, k) == a;
        if k > 1 {
            lemma_ancestor_step(parent, x, (k - 1) as nat);
            assert(ancestor_at(parent, px, (k - 1) as nat) == a);
        }
    }
    if px == a {
        assert(ancestor_at(parent, x, 1) == a);
    }
    if is_strict_ancestor(parent, depth, a, px) {
        let k = choose|k: nat| 1 <= k <= depth[px] && #[trigger] ancestor_at(parent, px, k) == a;
        lemma_ancestor_step(parent, x, k);
        assert(ancestor_at(parent, x, k + 1) == a);
    }
}

/// A root has no strict ancestor.
pub proof fn lemma_root_has_no_ancestor(
    parent: Map<EntityKey, Option<EntityKey>>,
    depth: Map<EntityKey, nat>,
    a: EntityKey,
    x: EntityKey,
)
    requires
        depths_ok(parent, depth),
        parent.dom().contains(x),
        parent[x] is None,
    ensures
        !is_strict_ancestor(parent, depth, a, x),
{
    assert(depth[x] == 0);
}

/// Moving the subtree of `c` under a new parent outside it (or making `c` a
/// root), and shifting the subtree's depths accordingly, keeps the depths
/// consistent.
pub proof fn lemma_shift_depths(
    parent: Map<EntityKey, Option<EntityKey>>,
    depth: Map<EntityKey, nat>,
    c: EntityKey,
    np: Option<EntityKey>,
    base: nat,
)
    requires
        depths_ok(parent, depth),
        parent.dom().contains(c),
        match np {
            Some(p) => parent.dom().contains(p) && !in_subtree(parent, depth, c, p) && base == depth[p] + 1,
            None => base == 0,
        },
    ensures
        depths_ok(parent.insert(c, np), shifted_depths(parent, depth, c, base)),
{
    let p2 = parent.insert(c, np);
    let d2 = shifted_depths(parent, depth, c, base);
    assert(d2.dom() =~= p2.dom());
    assert forall|x: EntityKey| #[trigger] p2.dom().contains(x) implies d2[x] == match p2[x] {
        Some(p) => d2[p] + 1,
        None => 0,
    } by {
        if x == c {
            assert(in_subtree(parent, depth, c, c));
        } else {
            match parent[x] {
                Some(px) => {
                    lemma_ancestor_via_parent(parent, depth, c, x);
                    if is_strict_ancestor(parent, depth, c, x) {
                        lemma_strict_ancestor_shallower(parent, depth, c, x);
                    }
                    if is_strict_ancestor(parent, depth, c, px) {
                        lemma_strict_ancestor_shallower(parent, depth, c, px);
                    }
                },
                None => {
                    lemma_root_has_no_ancestor(parent, depth, c, x);
                },
            }
        }
    }
}

/// A sequence that holds `v` has a first position of `v`.
pub proof fn lemma_first_index(s: Seq<EntityKey>, v: EntityKey, i: int)
    requires
        0 <= i < s.len(),
        s[i] == v,
    ensures
        0 <= first_index_of(s, v) <= i,
        s[first_index_of(s, v)] == v,
        forall|j: int| 0 <= j < first_index_of(s, v) ==> s[j] != v,
    decreases i,
{
    if exists|j: int| 0 <= j < i && s[j] == v {
        let j = choose|j: int| 0 <= j < i && s[j] == v;
        lemma_first_index(s, v, j);
    } else {
        assert(0 <= i < s.len() && s[i] == v && forall|j: int| 0 <= j < i ==> s[j] != v);
    }
}

/// The entries of `swap_removed(s, v)`, position by position.
proof fn lemma_swap_removed_entries(s: Seq<EntityKey>, v: EntityKey)
    requires
        s.contains(v),
    ensures
        0 <= first_index_of(s, v) < s.len(),
        s[first_index_of(s, v)] == v,
        swap_removed(s, v).len() == s.len() - 1,
        forall|i: int|
            0 <= i < s.len() - 1 ==> #[trigger] swap_removed(s, v)[i] == (if i == first_index_of(s, v) {
                s[s.len() - 1]
            } else {
                s[i]
            }),
{
    let i = choose|i: int| 0 <= i < s.len() && s[i] == v;
    lemma_first_index(s, v, i);
}

/// `swap_removed` keeps every entry other than `v`, and adds none.
proof fn lemma_swap_removed_contains(s: Seq<EntityKey>, v: EntityKey, y: EntityKey)
    requires
        s.contains(v),
    ensures
        y != v ==> (swap_removed(s, v).contains(y) <==> s.contains(y)),
        swap_removed(s, v).contains(y) ==> s.contains(y),
{
    lemma_swap_removed_entries(s, v);
    let k = first_index_of(s, v);
    let r = swap_removed(s, v);
    let n = s.len();
    if y != v && s.contains(y) {
        let i = choose|i: int| 0 <= i < n && s[i] == y;
        if i == n - 1 {
            assert(r[k] == y);
        } else {
            assert(r[i] == y);
        }
    }
    if r.contains(y) {
        let i = choose|i: int| 0 <= i < n - 1 && r[i] == y;
        if i == k {
            assert(s[n - 1] == y);
        } else {
            assert(s[i] == y);
        }
    }
}

/// `swap_removed` keeps a duplicate-free sequence duplicate-free, and then
/// drops `v` entirely.
proof fn lemma_swap_removed_distinct(s: Seq<EntityKey>, v: EntityKey)
    requires
        s.contains(v),
        s.no_duplicates(),
    ensures
        swap_removed(s, v).no_duplicates(),
        !swap_removed(s, v).contains(v),
{
    lemma_swap_removed_entries(s, v);
    let k = first_index_of(s, v);
    let r = swap_removed(s, v);
    let n = s.len();
    assert forall|a: int, b: int| 0 <= a < r.len() && 0 <= b < r.len() && a != b implies r[a] != r[b] by {
        let ia = if a == k { n - 1 } else { a };
        let ib = if b == k { n - 1 } else { b };
        assert(r[a] == s[ia]);
        assert(r[b] == s[ib]);
    }
    if r.contains(v) {
        let i = choose|i: int| 0 <= i < n - 1 && r[i] == v;
        let ii = if i == k { n - 1 } else { i };
        assert(s[ii] == v);
    }
}

/// Facts about `swap_removed`: it drops `v` once and keeps every other
/// entry, and keeps a duplicate-free sequence duplicate-free (without `v`).
pub proof fn lemma_swap_removed(s: Seq<EntityKey>, v: EntityKey)
    ensures
        forall|y: EntityKey| y != v ==> (#[trigger] swap_removed(s, v).contains(y) <==> s.contains(y)),
        forall|y: EntityKey| #[trigger] swap_removed(s, v).contains(y) ==> s.contains(y),
        s.no_duplicates() ==> swap_removed(s, v).no_duplicates() && !swap_removed(s, v).contains(v),
        s.contains(v) ==> swap_removed(s, v).len() == s.len() - 1,
{
    if s.contains(v) {
        lemma_swap_removed_entries(s, v);
        assert forall|y: EntityKey| y != v implies (#[trigger] swap_removed(s, v).contains(y) <==> s.contains(y)) by {
            lemma_swap_removed_contains(s, v, y);
        }
        assert forall|y: EntityKey| #[trigger] swap_removed(s, v).contains(y) implies s.contains(y) by {
            lemma_swap_removed_contains(s, v, y);
        }
        if s.no_duplicates() {
            lemma_swap_removed_distinct(s, v);
        }
    }
}

/// The children lists after `c` leaves its parent's list (unchanged for a
/// root).
pub open spec fn children_after_detach(
    parent: Map<EntityKey, Option<EntityKey>>,
    children: Map<EntityKey, Seq<EntityKey>>,
    c: EntityKey,
) -> Map<EntityKey, Seq<EntityKey>> {
    match parent[c] {
        Some(op) => children.insert(op, swap_removed(children[op], c)),
        None => children,
    }
}

/// Detaching `c` from its parent (clearing its link and dropping it from
/// the parent's list) keeps the links consistent.
pub proof fn lemma_detach_links(
    parent: Map<EntityKey, Option<EntityKey>>,
    children: Map<EntityKey, Seq<EntityKey>>,
    c: EntityKey,
)
    requires
        links_ok(parent, children),
        parent.dom().contains(c),
    ensures
        links_ok(parent.insert(c, None), children_after_detach(parent, children, c)),
{
    if let Some(op) = parent[c] {
        let p2 = parent.insert(c, None);
        let c2 = children_after_detach(parent, children, c);
        lemma_swap_removed(children[op], c);
        assert(children[op].contains(c));
        assert(c2.dom() =~= p2.dom());
        assert forall|x: EntityKey| #[trigger] p2.dom().contains(x) && p2[x] is Some implies p2.dom().contains(
            p2[x]->0,
        ) && c2[p2[x]->0].contains(x) by {
            assert(x != c);
        }
        assert forall|e: EntityKey, y: EntityKey|
            p2.dom().contains(e) && #[trigger] c2[e].contains(y) implies p2.dom().contains(y) && p2[y]
                == Some(e) by {
            if e == op {
                assert(children[op].contains(y));
            } else {
                assert(children[e].contains(y));
            }
        }
        assert forall|e: EntityKey| #[trigger] p2.dom().contains(e) implies c2[e].no_duplicates() by {}
    } else {
        assert(parent.insert(c, None) =~= parent);
    }
}

/// Attaching a root `c` under a live `p` (setting its link and appending
/// it to `p`'s list) keeps the links consistent.
pub proof fn lemma_attach_links(
    parent: Map<EntityKey, Option<EntityKey>>,
    children: Map<EntityKey, Seq<EntityKey>>,
    c: EntityKey,
    p: EntityKey,
)
    requires
        links_ok(parent, children),
        parent.dom().contains(c),
        parent.dom().contains(p),
        parent[c] is None,
    ensures
        links_ok(parent.insert(c, Some(p)), children.insert(p, children[p].push(c))),
{
    let p2 = parent.insert(c, Some(p));
    let c2 = children.insert(p, children[p].push(c));
    assert(c2.dom() =~= p2.dom());
    assert(!children[p].contains(c));
    assert(children[p].push(c)[children[p].len() as int] == c);
    assert forall|x: EntityKey| #[trigger] p2.dom().contains(x) && p2[x] is Some implies p2.dom().contains(
        p2[x]->0,
    ) && c2[p2[x]->0].contains(x) by {
        if x != c && parent[x]->0 == p {
            let i = choose|i: int| 0 <= i < children[p].len() && children[p][i] == x;
            assert(c2[p][i] == x);
        }
    }
    assert forall|e: EntityKey, y: EntityKey|
        p2.dom().contains(e) && #[trigger] c2[e].contains(y) implies p2.dom().contains(y) && p2[y] == Some(
            e,
        ) by {
        if e == p {
            if y != c {
                let i = choose|i: int| 0 <= i < c2[p].len() && c2[p][i] == y;
                assert(children[p][i] == y);
                assert(children[p].contains(y));
            }
        } else {
            assert(children[e].contains(y));
        }
    }
    assert forall|e: EntityKey| #[trigger] p2.dom().contains(e) implies c2[e].no_duplicates() by {
        if e == p {
            assert forall|i: int, j: int|
                0 <= i < c2[p].len() && 0 <= j < c2[p].len() && i != j implies c2[p][i] != c2[p][j] by {
                if i < children[p].len() && j < children[p].len() {
                } else if i < children[p].len() {
                    assert(children[p].contains(c2[p][i]));
                } else {
                    assert(children[p].contains(c2[p][j]));
                }
            }
        }
    }
}

/// The outcome of attaching `child` under `parent`: the first check that
/// fails decides the error.
pub open spec fn add_child_outcome(h: Hierarchy, parent: EntityKey, child: EntityKey) -> Result<(), HierarchyError> {
    if !h.live(parent) || !h.live(child) {
        Err(HierarchyError::InvalidEntity)
    } else if parent == child {
        Err(HierarchyError::CyclicHierarchy)
    } else if h.parents()[child] == Some(parent) {
        Err(HierarchyError::AlreadyChild)
    } else if h.ancestor_of(child, parent) {
        Err(HierarchyError::CyclicHierarchy)
    } else {
        Ok(())
    }
}

/// The parent links after `e` is removed: `e` is gone and its children
/// become roots.
pub open spec fn parents_after_remove(
    parent: Map<EntityKey, Option<EntityKey>>,
    e: EntityKey,
) -> Map<EntityKey, Option<EntityKey>> {
    Map::new(
        |x: EntityKey| parent.dom().contains(x) && x != e,
        |x: EntityKey|
            if parent[x] == Some(e) {
                None
            } else {
                parent[x]
            },
    )
}

/// The children lists after `e` is removed: `e` leaves its parent's list
/// and its own list is gone.
pub open spec fn children_after_remove(
    parent: Map<EntityKey, Option<EntityKey>>,
    children: Map<EntityKey, Seq<EntityKey>>,
    e: EntityKey,
) -> Map<EntityKey, Seq<EntityKey>> {
    children_after_detach(parent, children, e).remove(e)
}

/// The depths after `e` is removed: everything below `e` moves up by
/// `e`'s depth plus one.
pub open spec fn depths_after_remove(
    parent: Map<EntityKey, Option<EntityKey>>,
    depth: Map<EntityKey, nat>,
    e: EntityKey,
) -> Map<EntityKey, nat> {
    Map::new(
        |x: EntityKey| parent.dom().contains(x) && x != e,
        |x: EntityKey|
            if is_strict_ancestor(parent, depth, e, x) {
                (depth[x] - depth[e] - 1) as nat
            } else {
                depth[x]
            },
    )
}

/// Removing an entity (orphaning its children) keeps the hierarchy
/// consistent and acyclic.
pub proof fn lemma_remove_graph(
    parent: Map<EntityKey, Option<EntityKey>>,
    children: Map<EntityKey, Seq<EntityKey>>,
    depth: Map<EntityKey, nat>,
    e: EntityKey,
)
    requires
        graph_wf(parent, children, depth),
        parent.dom().contains(e),
    ensures
        graph_wf(
            parents_after_remove(parent, e),
            children_after_remove(parent, children, e),
            depths_after_remove(parent, depth, e),
        ),
{
    let pa = parents_after_remove(parent, e);
    let ca = children_after_remove(parent, children, e);
    let da = depths_after_remove(parent, depth, e);
    if let Some(op) = parent[e] {
        lemma_swap_removed(children[op], e);
        assert(children[op].contains(e));
        assert(depth[e] == depth[op] + 1);
    }
    assert(ca.dom() =~= pa.dom());
    assert(da.dom() =~= pa.dom());
    assert forall|x: EntityKey| #[trigger] pa.dom().contains(x) && pa[x] is Some implies pa.dom().contains(
        pa[x]->0,
    ) && ca[pa[x]->0].contains(x) by {
        let y = parent[x]->0;
        assert(children[y].contains(x));
    }
    assert forall|a: EntityKey, y: EntityKey|
        pa.dom().contains(a) && #[trigger] ca[a].contains(y) implies pa.dom().contains(y) && pa[y] == Some(
            a,
        ) by {
        if parent[e] == Some(a) {
            assert(children[a].contains(y));
        } else {
            assert(children[a].contains(y));
        }
    }
    assert forall|x: EntityKey| #[trigger] pa.dom().contains(x) implies ca[x].no_duplicates() by {}
    assert forall|x: EntityKey| #[trigger] pa.dom().contains(x) && pa[x] is Some implies pa.dom().contains(
        pa[x]->0,
    ) by {}
    assert forall|x: EntityKey| #[trigger] pa.dom().contains(x) implies da[x] == match pa[x] {
        Some(p) => da[p] + 1,
        None => 0,
    } by {
        match parent[x] {
            Some(px) => {
                lemma_ancestor_via_parent(parent, depth, e, x);
                if is_strict_ancestor(parent, depth, e, x) {
                    lemma_strict_ancestor_shallower(parent, depth, e, x);
                }
                if px != e && is_strict_ancestor(parent, depth, e, px) {
                    lemma_strict_ancestor_shallower(parent, depth, e, px);
                }
            },
            None => {
                lemma_root_has_no_ancestor(parent, depth, e, x);
            },
        }
    }
}

/// The children lists of the entries of `s`, concatenated in order.
pub open spec fn flatten_children(children: Map<EntityKey, Seq<EntityKey>>, s: Seq<EntityKey>) -> Seq<EntityKey>
    decreases s.len(),
{
    if s.len() == 0 {
        Seq::empty()
    } else {
        flatten_children(children, s.drop_last()) + children[s.last()]
    }
}

/// `s[i]` is a child of `e` or of an entry before it (and before `bound`).
pub open spec fn parent_listed_before(
    parent: Map<EntityKey, Option<EntityKey>>,
    e: EntityKey,
    s: Seq<EntityKey>,
    i: int,
    bound: int,
) -> bool {
    parent[s[i]] == Some(e) || exists|j: int| 0 <= j < i && j < bound && parent[s[i]] == Some(s[j])
}

/// A sequence that holds the children of `e` and the children of each of
/// its own entries holds every entity below `e`.
pub proof fn lemma_closed_holds_descendants(
    parent: Map<EntityKey, Option<EntityKey>>,
    children: Map<EntityKey, Seq<EntityKey>>,
    depth: Map<EntityKey, nat>,
    e: EntityKey,
    s: Seq<EntityKey>,
    y: EntityKey,
)
    requires
        graph_wf(parent, children, depth),
        parent.dom().contains(y),
        is_strict_ancestor(parent, depth, e, y),
        forall|z: EntityKey| #[trigger] children[e].contains(z) ==> s.contains(z),
        forall|j: int, z: EntityKey| 0 <= j < s.len() && #[trigger] children[s[j]].contains(z) ==> s.contains(z),
    ensures
        s.contains(y),
    decreases depth[y],
{
    if parent[y] is None {
        lemma_root_has_no_ancestor(parent, depth, e, y);
    }
    let py = parent[y]->0;
    lemma_ancestor_via_parent(parent, depth, e, y);
    assert(children[py].contains(y));
    if py != e {
        assert(depth[y] == depth[py] + 1);
        lemma_closed_holds_descendants(parent, children, depth, e, s, py);
        let j = choose|j: int| 0 <= j < s.len() && s[j] == py;
        assert(children[s[j]].contains(y));
    }
}

/// The subtree of `e` (in `tr`) is closed under children once `e` has left
/// its parent's list, and every member but `e` has its parent inside it.
pub proof fn lemma_subtree_closed(
    parent: Map<EntityKey, Option<EntityKey>>,
    children: Map<EntityKey, Seq<EntityKey>>,
    depth: Map<EntityKey, nat>,
    e: EntityKey,
    tr: Seq<EntityKey>,
)
    requires
        graph_wf(parent, children, depth),
        parent.dom().contains(e),
        forall|y: EntityKey| #[trigger] tr.contains(y) <==> parent.dom().contains(y) && in_subtree(parent, depth, e, y),
    ensures
        forall|y: EntityKey, z: EntityKey|
            tr.contains(y) && #[trigger] children_after_detach(parent, children, e)[y].contains(z) ==> tr.contains(z),
        forall|x: EntityKey|
            #[trigger] tr.contains(x) && x != e ==> parent[x] is Some && tr.contains(parent[x]->0),
        parent[e] is Some ==> !tr.contains(parent[e]->0),
{
    let cm1 = children_after_detach(parent, children, e);
    if let Some(op) = parent[e] {
        assert(depth[e] == depth[op] + 1);
        if tr.contains(op) {
            if op != e {
                lemma_strict_ancestor_shallower(parent, depth, e, op);
            }
        }
    }
    assert forall|y: EntityKey, z: EntityKey|
        tr.contains(y) && #[trigger] cm1[y].contains(z) implies tr.contains(z) by {
        if let Some(op) = parent[e] {
            if y == op {
                lemma_strict_ancestor_shallower(parent, depth, e, op);
                assert(depth[e] == depth[op] + 1);
            }
        }
        assert(children[y].contains(z));
        lemma_ancestor_via_parent(parent, depth, e, z);
    }
    assert forall|x: EntityKey| #[trigger] tr.contains(x) && x != e implies parent[x] is Some && tr.contains(
        parent[x]->0,
    ) by {
        if parent[x] is None {
            lemma_root_has_no_ancestor(parent, depth, e, x);
        } else {
            lemma_ancestor_via_parent(parent, depth, e, x);
        }
    }
}

/// Drop the first occurrence of `x` from `v` by swapping in the last entry.
fn remove_entry(v: &mut Vec<EntityKey>, x: EntityKey)
    ensures
        final(v)@ == swap_removed(old(v)@, x),
{
    let mut k: usize = 0;
    while k < v.len()
        invariant
            k <= v@.len(),
            v@ == old(v)@,
            forall|j: int| 0 <= j < k ==> v@[j] != x,
        decreases v@.len() - k,
    {
        if v[k] == x {
            proof {
                lemma_first_index(v@, x, k as int);
                assert(v@.contains(x));
            }
            v.swap_remove(k);
            return;
        }
        k = k + 1;
    }
}

/// The node list holds each live entity exactly once, with the parent and
/// children that the maps give it.
spec fn storage_ok(
    nodes: Seq<HierarchyNode>,
    parent: Map<EntityKey, Option<EntityKey>>,
    children: Map<EntityKey, Seq<EntityKey>>,
) -> bool {
    &&& forall|i: int, j: int|
        0 <= i < j < nodes.len() ==> #[trigger] nodes[i].entity != #[trigger] nodes[j].entity
    &&& forall|i: int|
        0 <= i < nodes.len() ==> {
            let n = #[trigger] nodes[i];
            &&& parent.dom().contains(n.entity)
            &&& parent[n.entity] == n.parent
            &&& children[n.entity] == n.children@
        }
    &&& forall|e: EntityKey| #[trigger] parent.dom().contains(e) ==> exists|i: int|
        0 <= i < nodes.len() && #[trigger] nodes[i].entity == e
}

proof fn lemma_storage_update(
    nodes: Seq<HierarchyNode>,
    parent: Map<EntityKey, Option<EntityKey>>,
    children: Map<EntityKey, Seq<EntityKey>>,
    i: int,
    n: HierarchyNode,
)
    requires
        storage_ok(nodes, parent, children),
        0 <= i < nodes.len(),
        n.entity == nodes[i].entity,
    ensures
        storage_ok(
            nodes.update(i, n),
            parent.insert(n.entity, n.parent),
            children.insert(n.entity, n.children@),
        ),
{
    let ns = nodes.update(i, n);
    let p2 = parent.insert(n.entity, n.parent);
    let c2 = children.insert(n.entity, n.children@);
    assert forall|a: int| 0 <= a < ns.len() implies #[trigger] ns[a].entity == nodes[a].entity by {}
    assert forall|a: int, b: int| 0 <= a < b < ns.len() implies #[trigger] ns[a].entity
        != #[trigger] ns[b].entity by {
        assert(ns[a].entity == nodes[a].entity);
        assert(ns[b].entity == nodes[b].entity);
    }
    assert forall|a: int| 0 <= a < ns.len() implies {
        let m = #[trigger] ns[a];
        &&& p2.dom().contains(m.entity)
        &&& p2[m.entity] == m.parent
        &&& c2[m.entity] == m.children@
    } by {
        if a != i {
            assert(ns[a] == nodes[a]);
            if a < i {
                assert(nodes[a].entity != nodes[i].entity);
            } else {
                assert(nodes[i].entity != nodes[a].entity);
            }
        }
    }
    assert forall|e: EntityKey| #[trigger] p2.dom().contains(e) implies exists|a: int|
        0 <= a < ns.len() && #[trigger] ns[a].entity == e by {
        if e == n.entity {
            assert(ns[i].entity == e);
        } else {
            let a = choose|a: int| 0 <= a < nodes.len() && #[trigger] nodes[a].entity == e;
            assert(ns[a].entity == e);
        }
    }
}

proof fn lemma_storage_push(
    nodes: Seq<HierarchyNode>,
    parent: Map<EntityKey, Option<EntityKey>>,
    children: Map<EntityKey, Seq<EntityKey>>,
    n: HierarchyNode,
)
    requires
        storage_ok(nodes, parent, children),
        !parent.dom().contains(n.entity),
    ensures
        storage_ok(
            nodes.push(n),
            parent.insert(n.entity, n.parent),
            children.insert(n.entity, n.children@),
        ),
{
    let ns = nodes.push(n);
    let p2 = parent.insert(n.entity, n.parent);
    let c2 = children.insert(n.entity, n.children@);
    assert forall|a: int, b: int| 0 <= a < b < ns.len() implies #[trigger] ns[a].entity
        != #[trigger] ns[b].entity by {
        assert(ns[a] == nodes[a]);
        if b < nodes.len() {
            assert(ns[b] == nodes[b]);
        } else {
            assert(parent.dom().contains(nodes[a].entity));
        }
    }
    assert forall|a: int| 0 <= a < ns.len() implies {
        let m = #[trigger] ns[a];
        &&& p2.dom().contains(m.entity)
        &&& p2[m.entity] == m.parent
        &&& c2[m.entity] == m.children@
    } by {
        if a < nodes.len() {
            assert(ns[a] == nodes[a]);
            assert(parent.dom().contains(nodes[a].entity));
        }
    }
    assert forall|e: EntityKey| #[trigger] p2.dom().contains(e) implies exists|a: int|
        0 <= a < ns.len() && #[trigger] ns[a].entity == e by {
        if e == n.entity {
            assert(ns[nodes.len() as int].entity == e);
        } else {
            let a = choose|a: int| 0 <= a < nodes.len() && #[trigger] nodes[a].entity == e;
            assert(ns[a] == nodes[a]);
        }
    }
}

proof fn lemma_storage_remove(
    nodes: Seq<HierarchyNode>,
    parent: Map<EntityKey, Option<EntityKey>>,
    children: Map<EntityKey, Seq<EntityKey>>,
    i: int,
)
    requires
        storage_ok(nodes, parent, children),
        0 <= i < nodes.len(),
    ensures
        storage_ok(
            nodes.remove(i),
            parent.remove(nodes[i].entity),
            children.remove(nodes[i].entity),
        ),
{
    let e = nodes[i].entity;
    let ns = nodes.remove(i);
    let p2 = parent.remove(e);
    let c2 = children.remove(e);
    assert forall|a: int| 0 <= a < ns.len() implies #[trigger] ns[a] == (if a < i {
        nodes[a]
    } else {
        nodes[a + 1]
    }) by {}
    assert forall|a: int, b: int| 0 <= a < b < ns.len() implies #[trigger] ns[a].entity
        != #[trigger] ns[b].entity by {
        let ia = if a < i { a } else { a + 1 };
        let ib = if b < i { b } else { b + 1 };
        assert(ns[a] == nodes[ia]);
        assert(ns[b] == nodes[ib]);
    }
    assert forall|a: int| 0 <= a < ns.len() implies {
        let m = #[trigger] ns[a];
        &&& p2.dom().contains(m.entity)
        &&& p2[m.entity] == m.parent
        &&& c2[m.entity] == m.children@
    } by {
        let ia = if a < i { a } else { a + 1 };
        assert(ns[a] == nodes[ia]);
        if ia < i {
            assert(nodes[ia].entity != nodes[i].entity);
        } else {
            assert(nodes[i].entity != nodes[ia].entity);
        }
    }
    assert forall|x: EntityKey| #[trigger] p2.dom().contains(x) implies exists|a: int|
        0 <= a < ns.len() && #[trigger] ns[a].entity == x by {
        let a = choose|a: int| 0 <= a < nodes.len() && #[trigger] nodes[a].entity == x;
        assert(a != i);
        if a < i {
            assert(ns[a] == nodes[a]);
        } else {
            assert(ns[a - 1] == nodes[a]);
        }
    }
}

/// A duplicate-free sequence of live entities is no longer than the node
/// list.
proof fn lemma_live_seq_bounded(
    nodes: Seq<HierarchyNode>,
    parent: Map<EntityKey, Option<EntityKey>>,
    children: Map<EntityKey, Seq<EntityKey>>,
    s: Seq<EntityKey>,
)
    requires
        storage_ok(nodes, parent, children),
        s.no_duplicates(),
        forall|i: int| 0 <= i < s.len() ==> parent.dom().contains(#[trigger] s[i]),
    ensures
        s.len() <= nodes.len(),
{
    let es = nodes.map_values(|n: HierarchyNode| n.entity);
    assert forall|y: EntityKey| s.to_set().contains(y) implies es.to_set().contains(y) by {
        let i = choose|i: int| 0 <= i < s.len() && s[i] == y;
        assert(parent.dom().contains(s[i]));
        let a = choose|a: int| 0 <= a < nodes.len() && #[trigger] nodes[a].entity == y;
        assert(es[a] == y);
    }
    s.unique_seq_to_set();
    es.lemma_cardinality_of_set();
    vstd::seq_lib::seq_to_set_is_finite(es);
    vstd::set_lib::lemma_len_subset(s.to_set(), es.to_set());
}

/// The node at `j` is the root `x`.
spec fn root_at(nodes: Seq<HierarchyNode>, j: int, x: EntityKey) -> bool {
    nodes[j].entity == x && nodes[j].parent is None
}

/// How many parent links a consistency walk follows before it reports a
/// possible cycle.
pub const MAX_WALK_DEPTH: u64 = 64;

/// A problem found by `Hierarchy::validate_hierarchy`.
#[derive(Debug, Clone, Copy, PartialEq, Eq, Structural)]
pub enum HierarchyIssue {
    /// `entity` has a parent link to an entity that does not exist
    MissingParent { entity: EntityKey, parent: EntityKey },
    /// `entity` has a parent link to `parent`, whose children list lacks it
    NotListedByParent { entity: EntityKey, parent: EntityKey },
    /// `entity` lists a child that does not exist
    MissingChild { entity: EntityKey, child: EntityKey },
    /// `entity` lists `child`, whose parent link (`parent`) is not `entity`
    WrongParent { entity: EntityKey, child: EntityKey, parent: Option<EntityKey> },
    /// Walking up from `entity` followed more than `MAX_WALK_DEPTH` links
    PossibleCycle { entity: EntityKey },
}

/// The node at `j` is `x`, and `x` is deeper than the walk limit.
spec fn deep_at(nodes: Seq<HierarchyNode>, depth: Map<EntityKey, nat>, j: int, x: EntityKey) -> bool {
    nodes[j].entity == x && depth[x] > MAX_WALK_DEPTH
}

/// The depth-guard issues for the first `i` nodes, in node order.
spec fn deep_prefix(nodes: Seq<HierarchyNode>, depth: Map<EntityKey, nat>, i: int) -> Seq<HierarchyIssue>
    decreases i,
{
    if i <= 0 {
        Seq::empty()
    } else if depth[nodes[i - 1].entity] > MAX_WALK_DEPTH {
        deep_prefix(nodes, depth, i - 1).push(HierarchyIssue::PossibleCycle { entity: nodes[i - 1].entity })
    } else {
        deep_prefix(nodes, depth, i - 1)
    }
}

proof fn lemma_deep_prefix(nodes: Seq<HierarchyNode>, depth: Map<EntityKey, nat>, i: int)
    requires
        0 <= i <= nodes.len(),
        forall|a: int, b: int| 0 <= a < b < nodes.len() ==> #[trigger] nodes[a].entity != #[trigger] nodes[b].entity,
    ensures
        deep_prefix(nodes, depth, i).no_duplicates(),
        forall|t: HierarchyIssue|
            #[trigger] deep_prefix(nodes, depth, i).contains(t) <==> (t is PossibleCycle && exists|j: int|
                0 <= j < i && #[trigger] deep_at(nodes, depth, j, t->PossibleCycle_entity)),
    decreases i,
{
    if i > 0 {
        lemma_deep_prefix(nodes, depth, i - 1);
        let before = deep_prefix(nodes, depth, i - 1);
        let now = deep_prefix(nodes, depth, i);
        let x = nodes[i - 1].entity;
        if depth[x] > MAX_WALK_DEPTH {
            let t0 = HierarchyIssue::PossibleCycle { entity: x };
            assert(now == before.push(t0));
            assert(!before.contains(t0)) by {
                if before.contains(t0) {
                    let j = choose|j: int| 0 <= j < i - 1 && #[trigger] deep_at(nodes, depth, j, x);
                    assert(nodes[j].entity != nodes[i - 1].entity);
                }
            }
            assert forall|a: int, b: int| 0 <= a < now.len() && 0 <= b < now.len() && a != b implies now[a] != now[b] by {
                if a == before.len() {
                    assert(before.contains(now[b]));
                } else if b == before.len() {
                    assert(before.contains(now[a]));
                }
            }
            assert forall|t: HierarchyIssue| #[trigger] now.contains(t) <==> (t is PossibleCycle && exists|j: int|
                0 <= j < i && #[trigger] deep_at(nodes, depth, j, t->PossibleCycle_entity)) by {
                if now.contains(t) {
                    let k = choose|k: int| 0 <= k < now.len() && now[k] == t;
                    if k < before.len() {
                        assert(before[k] == t);
                        assert(before.contains(t));
                    } else {
                        assert(now[k] == t0);
                        assert(deep_at(nodes, depth, i - 1, t->PossibleCycle_entity));
                    }
                }
                if t is PossibleCycle && exists|j: int| 0 <= j < i && #[trigger] deep_at(nodes, depth, j, t->PossibleCycle_entity) {
                    let j = choose|j: int| 0 <= j < i && #[trigger] deep_at(nodes, depth, j, t->PossibleCycle_entity);
                    if j < i - 1 {
                        assert(before.contains(t));
                        let k = choose|k: int| 0 <= k < before.len() && before[k] == t;
                        assert(now[k] == t);
                    } else {
                        assert(now[before.len() as int] == t);
                    }
                }
            }
        } else {
            assert(now == before);
            assert forall|t: HierarchyIssue| #[trigger] now.contains(t) <==> (t is PossibleCycle && exists|j: int|
                0 <= j < i && #[trigger] deep_at(nodes, depth, j, t->PossibleCycle_entity)) by {
                if t is PossibleCycle && exists|j: int| 0 <= j < i && #[trigger] deep_at(nodes, depth, j, t->PossibleCycle_entity) {
                    let j = choose|j: int| 0 <= j < i && #[trigger] deep_at(nodes, depth, j, t->PossibleCycle_entity);
                    assert(j < i - 1);
                    assert(before.contains(t));
                }
            }
        }
    }
}

/// `v` holds `x`.
fn vec_contains(v: &Vec<EntityKey>, x: EntityKey) -> (r: bool)
    ensures
        r == v@.contains(x),
{
    let mut k: usize = 0;
    while k < v.len()
        invariant
            k <= v@.len(),
            forall|j: int| 0 <= j < k ==> v@[j] != x,
        decreases v@.len() - k,
    {
        if v[k] == x {
            return true;
        }
        k = k + 1;
    }
    false
}

/// The parent/child hierarchy of a world's entities.
pub struct Hierarchy {
    nodes: Vec<HierarchyNode>,
    parent_g: Ghost<Map<EntityKey, Option<EntityKey>>>,
    children_g: Ghost<Map<EntityKey, Seq<EntityKey>>>,
    depth_g: Ghost<Map<EntityKey, nat>>,
}

impl Hierarchy {
    /// Each live entity's parent (the domain is the set of live entities).
    pub closed spec fn parents(&self) -> Map<EntityKey, Option<EntityKey>> {
        self.parent_g@
    }

    /// Each live entity's children, in attachment order.
    pub closed spec fn children(&self) -> Map<EntityKey, Seq<EntityKey>> {
        self.children_g@
    }

    /// Each live entity's depth (number of ancestors).
    pub closed spec fn depths(&self) -> Map<EntityKey, nat> {
        self.depth_g@
    }

    /// The entity is live in the hierarchy.
    pub open spec fn live(&self, e: EntityKey) -> bool {
        self.parents().dom().contains(e)
    }

    /// Node storage agrees with the maps, and the maps are consistent.
    pub closed spec fn wf(&self) -> bool {
        &&& storage_ok(self.nodes@, self.parent_g@, self.children_g@)
        &&& graph_wf(self.parent_g@, self.children_g@, self.depth_g@)
    }

    /// The public consistency invariant (what every operation keeps).
    pub open spec fn inv(&self) -> bool {
        &&& self.wf()
        &&& graph_wf(self.parents(), self.children(), self.depths())
    }

    /// `a` is a strict ancestor of `y` in this hierarchy.
    pub open spec fn ancestor_of(&self, a: EntityKey, y: EntityKey) -> bool {
        is_strict_ancestor(self.parents(), self.depths(), a, y)
    }

    /// An empty hierarchy.
    pub fn new() -> (r: Self)
        ensures
            r.inv(),
            r.parents() == Map::<EntityKey, Option<EntityKey>>::empty(),
    {
        let r = Hierarchy {
            nodes: Vec::new(),
            parent_g: Ghost(Map::empty()),
            children_g: Ghost(Map::empty()),
            depth_g: Ghost(Map::empty()),
        };
        assert(r.parent_g@.dom() =~= r.children_g@.dom());
        assert(r.parent_g@.dom() =~= r.depth_g@.dom());
        r
    }

    /// Position of `e`'s node.
    fn find(&self, e: EntityKey) -> (r: Option<usize>)
        requires
            storage_ok(self.nodes@, self.parent_g@, self.children_g@),
        ensures
            r is Some ==> r->0 < self.nodes@.len() && self.nodes@[r->0 as int].entity == e,
            r is Some <==> self.parent_g@.dom().contains(e),
    {
        let mut k: usize = 0;
        while k < self.nodes.len()
            invariant
                storage_ok(self.nodes@, self.parent_g@, self.children_g@),
                k <= self.nodes@.len(),
                forall|m: int| 0 <= m < k ==> #[trigger] self.nodes@[m].entity != e,
            decreases self.nodes@.len() - k,
        {
            if self.nodes[k].entity == e {
                assert(self.parent_g@.dom().contains(self.nodes@[k as int].entity));
                return Some(k);
            }
            k = k + 1;
        }
        None
    }

    /// Replace the node at `i` (same entity), updating the parent and
    /// children maps to match.
    fn set_node(&mut self, i: usize, n: HierarchyNode)
        requires
            storage_ok(old(self).nodes@, old(self).parent_g@, old(self).children_g@),
            i < old(self).nodes@.len(),
            n.entity == old(self).nodes@[i as int].entity,
        ensures
            final(self).nodes@ == old(self).nodes@.update(i as int, n),
            final(self).parent_g@ == old(self).parent_g@.insert(n.entity, n.parent),
            final(self).children_g@ == old(self).children_g@.insert(n.entity, n.children@),
            final(self).depth_g@ == old(self).depth_g@,
            storage_ok(final(self).nodes@, final(self).parent_g@, final(self).children_g@),
    {
        proof {
            lemma_storage_update(self.nodes@, self.parent_g@, self.children_g@, i as int, n);
        }
        let ghost pg = self.parent_g@;
        let ghost cg = self.children_g@;
        self.parent_g = Ghost(pg.insert(n.entity, n.parent));
        self.children_g = Ghost(cg.insert(n.entity, n.children@));
        self.nodes.set(i, n);
    }

    /// Number of live entities.
    pub fn len(&self) -> (r: usize)
        requires
            self.inv(),
        ensures
            self.parents().dom().finite(),
            r == self.parents().dom().len(),
    {
        proof {
            let es = self.nodes@.map_values(|n: HierarchyNode| n.entity);
            assert(self.parent_g@.dom() =~= es.to_set()) by {
                assert forall|x: EntityKey| #[trigger] self.parent_g@.dom().contains(x) implies es.to_set().contains(x) by {
                    let j = choose|j: int| 0 <= j < self.nodes@.len() && #[trigger] self.nodes@[j].entity == x;
                    assert(es[j] == x);
                }
                assert forall|x: EntityKey| es.to_set().contains(x) implies #[trigger] self.parent_g@.dom().contains(x) by {
                    let j = choose|j: int| 0 <= j < es.len() && es[j] == x;
                    assert(self.nodes@[j].entity == x);
                }
            }
            assert(es.no_duplicates()) by {
                assert forall|a: int, b: int| 0 <= a < es.len() && 0 <= b < es.len() && a != b implies es[a] != es[b] by {
                    if a < b {
                        assert(self.nodes@[a].entity != self.nodes@[b].entity);
                    } else {
                        assert(self.nodes@[b].entity != self.nodes@[a].entity);
                    }
                }
            }
            es.unique_seq_to_set();
            vstd::seq_lib::seq_to_set_is_finite(es);
        }
        self.nodes.len()
    }

    /// Check if the hierarchy has no entities.
    pub fn is_empty(&self) -> (r: bool)
        requires
            self.inv(),
        ensures
            r == (self.parents().dom() == Set::<EntityKey>::empty()),
    {
        let n = self.len();
        proof {
            if n != 0 {
                assert(self.parents().dom().len() != 0);
                if self.parents().dom() == Set::<EntityKey>::empty() {
                    assert(Set::<EntityKey>::empty().len() == 0);
                }
            } else {
                assert(self.parents().dom() =~= Set::<EntityKey>::empty());
            }
        }
        n == 0
    }

    /// Remove every entity.
    pub fn clear(&mut self)
        requires
            old(self).inv(),
        ensures
            final(self).inv(),
            final(self).parents() == Map::<EntityKey, Option<EntityKey>>::empty(),
    {
        *self = Hierarchy::new();
    }

    /// Check if an entity is live in the hierarchy.
    pub fn contains(&self, e: EntityKey) -> (r: bool)
        requires
            self.inv(),
        ensures
            r == self.live(e),
    {
        self.find(e).is_some()
    }

    /// Get an entity's parent (`None` for roots and unknown entities).
    pub fn parent_of(&self, e: EntityKey) -> (r: Option<EntityKey>)
        requires
            self.inv(),
        ensures
            self.live(e) ==> r == self.parents()[e],
            !self.live(e) ==> r is None,
    {
        match self.find(e) {
            Some(k) => self.nodes[k].parent,
            None => None,
        }
    }

    /// Get an entity's children (empty for unknown entities).
    pub fn children_of(&self, e: EntityKey) -> (r: Vec<EntityKey>)
        requires
            self.inv(),
        ensures
            self.live(e) ==> r@ == self.children()[e],
            !self.live(e) ==> r@.len() == 0,
    {
        match self.find(e) {
            Some(k) => self.nodes[k].children.clone(),
            None => Vec::new(),
        }
    }

    /// Check if an entity has a parent.
    pub fn has_parent(&self, e: EntityKey) -> (r: bool)
        requires
            self.inv(),
        ensures
            r == (self.live(e) && self.parents()[e] is Some),
    {
        self.parent_of(e).is_some()
    }

    /// Add a newly spawned entity as a root.
    pub fn insert_root(&mut self, e: EntityKey)
        requires
            old(self).inv(),
            !old(self).live(e),
        ensures
            final(self).inv(),
            final(self).parents() == old(self).parents().insert(e, None),
            final(self).children() == old(self).children().insert(e, Seq::empty()),
            final(self).depths() == old(self).depths().insert(e, 0),
    {
        let ghost pg = self.parent_g@;
        let ghost cg = self.children_g@;
        let ghost dg = self.depth_g@;
        let n = HierarchyNode { entity: e, parent: None, children: Vec::new() };
        proof {
            lemma_storage_push(self.nodes@, pg, cg, n);
        }
        self.nodes.push(n);
        self.parent_g = Ghost(pg.insert(e, None));
        self.children_g = Ghost(cg.insert(e, Seq::empty()));
        self.depth_g = Ghost(dg.insert(e, 0));
        proof {
            let p2 = self.parent_g@;
            let c2 = self.children_g@;
            let d2 = self.depth_g@;
            assert(c2.dom() =~= p2.dom());
            assert(d2.dom() =~= p2.dom());
            assert forall|x: EntityKey| #[trigger] p2.dom().contains(x) && p2[x] is Some implies p2.dom().contains(p2[x]->0)
                && c2[p2[x]->0].contains(x) by {
                assert(pg[x]->0 != e);
            }
            assert forall|x: EntityKey, y: EntityKey|
                p2.dom().contains(x) && #[trigger] c2[x].contains(y) implies p2.dom().contains(y)
                    && p2[y] == Some(x) by {
                if x != e {
                    assert(cg[x].contains(y));
                    assert(y != e);
                }
            }
            assert forall|x: EntityKey| #[trigger] p2.dom().contains(x) implies d2[x] == match p2[x] {
                Some(p) => d2[p] + 1,
                None => 0,
            } by {
                if x != e {
                    if pg[x] is Some {
                        assert(pg[x]->0 != e);
                    }
                }
            }
            assert forall|x: EntityKey| #[trigger] p2.dom().contains(x) implies c2[x].no_duplicates() by {
            }
        }
    }

    /// Check if `ancestor` is an ancestor of `entity`
    ///
    /// Walks up the hierarchy from `entity`. Returns `false` if either
    /// entity does not exist, or if `ancestor == entity`.
    pub fn is_ancestor(&self, ancestor: EntityKey, entity: EntityKey) -> (r: bool)
        requires
            self.inv(),
        ensures
            r == (self.live(entity) && self.ancestor_of(ancestor, entity)),
    {
        let ghost pm = self.parent_g@;
        let ghost cm = self.children_g@;
        let ghost dm = self.depth_g@;
        match self.find(entity) {
            None => false,
            Some(start) => {
                let mut current = entity;
                let mut idx = start;
                let ghost mut k: nat = 0;
                loop
                    invariant
                        self.inv(),
                        pm == self.parents(),
                        cm == self.children(),
                        dm == self.depths(),
                        self.live(entity),
                        k <= dm[entity],
                        current == ancestor_at(pm, entity, k),
                        idx < self.nodes@.len(),
                        self.nodes@[idx as int].entity == current,
                        dm[current] == dm[entity] - k,
                        forall|j: nat| 1 <= j <= k ==> #[trigger] ancestor_at(pm, entity, j) != ancestor,
                    decreases dm[current],
                {
                    proof {
                        lemma_ancestor_live(pm, dm, entity, k);
                    }
                    match self.nodes[idx].parent {
                        None => {
                            proof {
                                assert(pm[current] is None);
                                assert(dm[current] == 0);
                                assert(k == dm[entity]);
                            }
                            return false;
                        },
                        Some(p) => {
                            proof {
                                assert(ancestor_at(pm, entity, k + 1) == p);
                            }
                            if p == ancestor {
                                return true;
                            }
                            let next = self.find(p);
                            proof {
                                k = k + 1;
                                assert(pm.dom().contains(p));
                            }
                            current = p;
                            idx = next.unwrap();
                        },
                    }
                }
            },
        }
    }

    /// The strict ancestors of `entity`, nearest first (empty for roots and
    /// unknown entities).
    pub fn ancestors(&self, entity: EntityKey) -> (r: Vec<EntityKey>)
        requires
            self.inv(),
        ensures
            self.live(entity) ==> r@.len() == self.depths()[entity] && forall|k: int|
                0 <= k < r@.len() ==> #[trigger] r@[k] == ancestor_at(self.parents(), entity, (k + 1) as nat),
            !self.live(entity) ==> r@.len() == 0,
    {
        let ghost pm = self.parent_g@;
        let ghost cm = self.children_g@;
        let ghost dm = self.depth_g@;
        let mut out: Vec<EntityKey> = Vec::new();
        match self.find(entity) {
            None => out,
            Some(start) => {
                let mut current = entity;
                let mut idx = start;
                loop
                    invariant
                        self.inv(),
                        pm == self.parents(),
                        cm == self.children(),
                        dm == self.depths(),
                        self.live(entity),
                        out@.len() <= dm[entity],
                        current == ancestor_at(pm, entity, out@.len() as nat),
                        idx < self.nodes@.len(),
                        self.nodes@[idx as int].entity == current,
                        dm[current] == dm[entity] - out@.len(),
                        forall|k: int| 0 <= k < out@.len() ==> #[trigger] out@[k] == ancestor_at(pm, entity, (k + 1) as nat),
                    decreases dm[current],
                {
                    proof {
                        lemma_ancestor_live(pm, dm, entity, out@.len() as nat);
                    }
                    match self.nodes[idx].parent {
                        None => {
                            proof {
                                assert(pm[current] is None);
                            }
                            return out;
                        },
                        Some(p) => {
                            let ghost n = out@.len() as nat;
                            proof {
                                assert(ancestor_at(pm, entity, n + 1) == p);
                                assert(pm.dom().contains(p));
                            }
                            out.push(p);
                            let next = self.find(p);
                            current = p;
                            idx = next.unwrap();
                        },
                    }
                }
            },
        }
    }

    /// Check if an entity has any children.
    pub fn has_children(&self, e: EntityKey) -> (r: bool)
        requires
            self.inv(),
        ensures
            r == (self.live(e) && self.children()[e].len() > 0),
    {
        match self.find(e) {
            Some(k) => self.nodes[k].children.len() > 0,
            None => false,
        }
    }

    /// Remove an entity from its parent, making it a root entity
    ///
    /// Does nothing if the entity has no parent or does not exist.
    pub fn remove_from_parent(&mut self, child: EntityKey)
        requires
            old(self).inv(),
        ensures
            final(self).inv(),
            old(self).live(child) && old(self).parents()[child] is Some ==> {
                &&& final(self).parents() == old(self).parents().insert(child, None)
                &&& final(self).children() == children_after_detach(
                    old(self).parents(),
                    old(self).children(),
                    child,
                )
            },
            !(old(self).live(child) && old(self).parents()[child] is Some) ==> *final(self) == *old(self),
    {
        let ghost pm = self.parent_g@;
        let ghost cm = self.children_g@;
        let ghost dm = self.depth_g@;
        let ic = match self.find(child) {
            None => return ,
            Some(i) => i,
        };
        let op = match self.nodes[ic].parent {
            None => return ,
            Some(p) => p,
        };
        proof {
            assert(pm.dom().contains(op));
            assert(dm[child] == dm[op] + 1);
        }
        let io = self.find(op).unwrap();
        let mut kids = self.nodes[io].children.clone();
        remove_entry(&mut kids, child);
        let n_op = HierarchyNode { entity: op, parent: self.nodes[io].parent, children: kids };
        self.set_node(io, n_op);
        let n_c = HierarchyNode { entity: child, parent: None, children: self.nodes[ic].children.clone() };
        self.set_node(ic, n_c);
        self.depth_g = Ghost(shifted_depths(pm, dm, child, 0));
        proof {
            lemma_detach_links(pm, cm, child);
            lemma_shift_depths(pm, dm, child, None, 0);
            assert(self.parent_g@ =~= pm.insert(child, None));
            assert(self.children_g@ =~= children_after_detach(pm, cm, child));
        }
    }

    /// Add a child entity to a parent entity
    ///
    /// If the child already has a different parent, it is first removed from
    /// that parent (reparenting). Returns an error if either entity does not
    /// exist, if the relationship would create a cycle, or if the child is
    /// already a child of the specified parent.
    pub fn add_child(&mut self, parent: EntityKey, child: EntityKey) -> (r: Result<(), HierarchyError>)
        requires
            old(self).inv(),
        ensures
            final(self).inv(),
            r == add_child_outcome(*old(self), parent, child),
            r is Err ==> *final(self) == *old(self),
            r is Ok ==> {
                &&& final(self).parents() == old(self).parents().insert(child, Some(parent))
                &&& final(self).children() == children_after_detach(
                    old(self).parents(),
                    old(self).children(),
                    child,
                ).insert(parent, old(self).children()[parent].push(child))
            },
    {
        let ghost pm = self.parent_g@;
        let ghost cm = self.children_g@;
        let ghost dm = self.depth_g@;
        let ip = self.find(parent);
        let ic = self.find(child);
        if ip.is_none() || ic.is_none() {
            return Err(HierarchyError::InvalidEntity);
        }
        let ip = ip.unwrap();
        let ic = ic.unwrap();
        if parent == child {
            return Err(HierarchyError::CyclicHierarchy);
        }
        match self.nodes[ic].parent {
            Some(q) => {
                if q == parent {
                    return Err(HierarchyError::AlreadyChild);
                }
            },
            None => {},
        }
        if self.is_ancestor(child, parent) {
            return Err(HierarchyError::CyclicHierarchy);
        }
        match self.nodes[ic].parent {
            Some(op) => {
                proof {
                    assert(pm.dom().contains(op));
                }
                let io = self.find(op).unwrap();
                let mut kids = self.nodes[io].children.clone();
                remove_entry(&mut kids, child);
                let n_op = HierarchyNode { entity: op, parent: self.nodes[io].parent, children: kids };
                self.set_node(io, n_op);
            },
            None => {},
        }
        let n_c = HierarchyNode { entity: child, parent: Some(parent), children: self.nodes[ic].children.clone() };
        self.set_node(ic, n_c);
        let mut kids = self.nodes[ip].children.clone();
        kids.push(child);
        let n_p = HierarchyNode { entity: parent, parent: self.nodes[ip].parent, children: kids };
        self.set_node(ip, n_p);
        self.depth_g = Ghost(shifted_depths(pm, dm, child, dm[parent] + 1));
        proof {
            let pm1 = pm.insert(child, None);
            let cm1 = children_after_detach(pm, cm, child);
            lemma_detach_links(pm, cm, child);
            assert(cm1[parent] == cm[parent]);
            lemma_attach_links(pm1, cm1, child, parent);
            assert(pm1.insert(child, Some(parent)) =~= pm.insert(child, Some(parent)));
            lemma_shift_depths(pm, dm, child, Some(parent), dm[parent] + 1);
            assert(self.parent_g@ =~= pm.insert(child, Some(parent)));
            assert(self.children_g@ =~= cm1.insert(parent, cm[parent].push(child)));
        }
        Ok(())
    }

    /// Remove an entity from the hierarchy: it leaves its parent's children
    /// list and its own children become roots.
    ///
    /// Returns true if the entity existed and was removed.
    pub fn remove(&mut self, e: EntityKey) -> (r: bool)
        requires
            old(self).inv(),
        ensures
            final(self).inv(),
            r == old(self).live(e),
            r ==> final(self).parents() == parents_after_remove(old(self).parents(), e),
            r ==> final(self).children() == children_after_remove(old(self).parents(), old(self).children(), e),
            !r ==> *final(self) == *old(self),
    {
        let ghost pm = self.parent_g@;
        let ghost cm = self.children_g@;
        let ghost dm = self.depth_g@;
        let ie = match self.find(e) {
            None => return false,
            Some(i) => i,
        };
        match self.nodes[ie].parent {
            Some(op) => {
                proof {
                    assert(pm.dom().contains(op));
                    assert(dm[e] == dm[op] + 1);
                }
                let io = self.find(op).unwrap();
                let mut kids = self.nodes[io].children.clone();
                remove_entry(&mut kids, e);
                let n_op = HierarchyNode { entity: op, parent: self.nodes[io].parent, children: kids };
                self.set_node(io, n_op);
            },
            None => {},
        }
        let ghost cm1 = children_after_detach(pm, cm, e);
        proof {
            assert(self.parent_g@ =~= pm);
            assert(self.children_g@ =~= cm1);
            assert(cm1.dom() =~= pm.dom());
        }
        let kids = self.nodes[ie].children.clone();
        let mut k: usize = 0;
        while k < kids.len()
            invariant
                storage_ok(self.nodes@, self.parent_g@, self.children_g@),
                graph_wf(pm, cm, dm),
                pm.dom().contains(e),
                self.children_g@ == cm1,
                cm1.dom() == pm.dom(),
                self.parent_g@.dom() == pm.dom(),
                forall|x: EntityKey|
                    #[trigger] pm.dom().contains(x) ==> self.parent_g@[x] == if exists|j: int|
                        0 <= j < k && kids@[j] == x {
                        None
                    } else {
                        pm[x]
                    },
                kids@ == cm[e],
                k <= kids@.len(),
                ie < self.nodes@.len(),
                self.nodes@[ie as int].entity == e,
            decreases kids@.len() - k,
        {
            let ch = kids[k];
            proof {
                assert(cm[e].contains(ch));
                assert(dm[ch] == dm[e] + 1);
            }
            let ic = self.find(ch).unwrap();
            let n = HierarchyNode { entity: ch, parent: None, children: self.nodes[ic].children.clone() };
            proof {
                let nd = self.nodes@[ic as int];
                assert(self.children_g@[nd.entity] == nd.children@);
                assert(n.children@ == cm1[ch]);
                assert(pm.dom().contains(ch));
                assert(cm1.dom().contains(ch));
            }
            self.set_node(ic, n);
            proof {
                assert(self.children_g@ =~= cm1);
                assert forall|x: EntityKey| #[trigger] pm.dom().contains(x) implies self.parent_g@[x] == if exists|j: int|
                    0 <= j < k + 1 && kids@[j] == x {
                    None
                } else {
                    pm[x]
                } by {
                    if x == ch {
                        assert(kids@[k as int] == x);
                    } else {
                        if exists|j: int| 0 <= j < k + 1 && kids@[j] == x {
                            let j = choose|j: int| 0 <= j < k + 1 && kids@[j] == x;
                            assert(j < k);
                        }
                    }
                }
            }
            k = k + 1;
        }
        proof {
            lemma_storage_remove(self.nodes@, self.parent_g@, self.children_g@, ie as int);
        }
        let ghost pg = self.parent_g@;
        self.nodes.remove(ie);
        self.parent_g = Ghost(pg.remove(e));
        self.children_g = Ghost(cm1.remove(e));
        self.depth_g = Ghost(depths_after_remove(pm, dm, e));
        proof {
            lemma_remove_graph(pm, cm, dm, e);
            assert forall|x: EntityKey| #[trigger] pm.dom().contains(x) && x != e implies pg[x] == parents_after_remove(pm, e)[x] by {
                if exists|j: int| 0 <= j < kids@.len() && kids@[j] == x {
                    let j = choose|j: int| 0 <= j < kids@.len() && kids@[j] == x;
                    assert(cm[e].contains(x));
                } else if pm[x] == Some(e) {
                    assert(cm[e].contains(x));
                    let j = choose|j: int| 0 <= j < cm[e].len() && cm[e][j] == x;
                    assert(kids@[j] == x);
                }
            }
            assert(self.parent_g@ =~= parents_after_remove(pm, e));
            assert(self.children_g@ =~= children_after_remove(pm, cm, e));
        }
        true
    }

    /// Get all descendants of an entity (breadth-first order)
    ///
    /// Returns an empty vector if the entity has no descendants or does not exist.
    /// Does not include the entity itself.
    pub fn descendants(&self, e: EntityKey) -> (r: Vec<EntityKey>)
        requires
            self.inv(),
        ensures
            r@.no_duplicates(),
            forall|y: EntityKey|
                #[trigger] r@.contains(y) <==> self.live(e) && self.live(y) && self.ancestor_of(e, y),
            forall|i: int| 0 <= i < r@.len() ==> #[trigger] parent_listed_before(self.parents(), e, r@, i, i),
            self.live(e) ==> r@ == self.children()[e] + flatten_children(self.children(), r@),
    {
        let ghost pm = self.parent_g@;
        let ghost cm = self.children_g@;
        let ghost dm = self.depth_g@;
        let mut out: Vec<EntityKey> = Vec::new();
        let ie = match self.find(e) {
            None => {
                proof {
                    assert forall|y: EntityKey| #[trigger] out@.contains(y) implies false by {}
                }
                return out;
            },
            Some(i) => i,
        };
        let first = self.nodes[ie].children.clone();
        let mut m: usize = 0;
        while m < first.len()
            invariant
                self.inv(),
                pm == self.parents(),
                cm == self.children(),
                dm == self.depths(),
                self.live(e),
                first@ == cm[e],
                m <= first@.len(),
                out@ == first@.subrange(0, m as int),
            decreases first@.len() - m,
        {
            out.push(first[m]);
            m = m + 1;
            proof {
                assert(out@ =~= first@.subrange(0, m as int));
            }
        }
        proof {
            assert(out@ =~= cm[e]);
            assert forall|i: int| 0 <= i < out@.len() implies #[trigger] parent_listed_before(pm, e, out@, i, 0) by {
                assert(cm[e].contains(out@[i]));
            }
            assert forall|i: int| 0 <= i < out@.len() implies pm.dom().contains(#[trigger] out@[i])
                && is_strict_ancestor(pm, dm, e, out@[i]) by {
                assert(cm[e].contains(out@[i]));
                lemma_ancestor_via_parent(pm, dm, e, out@[i]);
            }
            lemma_live_seq_bounded(self.nodes@, pm, cm, out@);
            assert(out@.take(0) =~= Seq::<EntityKey>::empty());
            assert(out@ =~= cm[e] + flatten_children(cm, out@.take(0)));
        }
        let mut head: usize = 0;
        while head < out.len()
            invariant
                self.inv(),
                pm == self.parents(),
                cm == self.children(),
                dm == self.depths(),
                self.live(e),
                head <= out@.len(),
                out@.len() <= self.nodes@.len(),
                out@.no_duplicates(),
                forall|i: int| 0 <= i < out@.len() ==> pm.dom().contains(#[trigger] out@[i])
                    && is_strict_ancestor(pm, dm, e, out@[i]),
                forall|z: EntityKey| #[trigger] cm[e].contains(z) ==> out@.contains(z),
                forall|j: int, z: EntityKey| 0 <= j < head && #[trigger] cm[out@[j]].contains(z) ==> out@.contains(z),
                forall|i: int| 0 <= i < out@.len() ==> #[trigger] parent_listed_before(pm, e, out@, i, head as int),
                out@ == cm[e] + flatten_children(cm, out@.take(head as int)),
            decreases self.nodes@.len() - head,
        {
            let y = out[head];
            let iy = self.find(y).unwrap();
            let kids = self.nodes[iy].children.clone();
            let ghost out0 = out@;
            proof {
                lemma_strict_ancestor_shallower(pm, dm, e, y);
            }
            let mut m: usize = 0;
            while m < kids.len()
                invariant
                    self.inv(),
                    pm == self.parents(),
                    cm == self.children(),
                    dm == self.depths(),
                    self.live(e),
                    head < out0.len(),
                    y == out0[head as int],
                    y != e,
                    pm.dom().contains(y),
                    is_strict_ancestor(pm, dm, e, y),
                    kids@ == cm[y],
                    m <= kids@.len(),
                    out@ == out0 + kids@.subrange(0, m as int),
                    out@.len() <= self.nodes@.len(),
                    out@.no_duplicates(),
                    forall|i: int| 0 <= i < out@.len() ==> pm.dom().contains(#[trigger] out@[i])
                        && is_strict_ancestor(pm, dm, e, out@[i]),
                    forall|i: int| 0 <= i < out0.len() ==> #[trigger] parent_listed_before(pm, e, out0, i, head as int),
                    forall|i: int| out0.len() <= i < out@.len() ==> #[trigger] pm[out@[i]] == Some(y),
                    out0 == cm[e] + flatten_children(cm, out0.take(head as int)),
                decreases kids@.len() - m,
            {
                let z = kids[m];
                proof {
                    assert(cm[y].contains(z));
                    assert(pm[z] == Some(y));
                    if out@.contains(z) {
                        let i = choose|i: int| 0 <= i < out@.len() && out@[i] == z;
                        if i < out0.len() {
                            assert(out0[i] == z);
                            assert(parent_listed_before(pm, e, out0, i, head as int));
                            if pm[z] != Some(e) {
                                let j = choose|j: int| 0 <= j < i && j < head && pm[out0[i]] == Some(out0[j]);
                                assert(out@[j] == out0[j]);
                                assert(out@[head as int] == out0[head as int]);
                            }
                        } else {
                            assert(kids@[i - out0.len()] == z);
                            assert(cm[y].no_duplicates());
                        }
                    }
                    lemma_ancestor_via_parent(pm, dm, e, z);
                }
                out.push(z);
                m = m + 1;
                proof {
                    assert(out@ =~= out0 + kids@.subrange(0, m as int));
                    assert forall|i: int| 0 <= i < out@.len() implies pm.dom().contains(#[trigger] out@[i])
                        && is_strict_ancestor(pm, dm, e, out@[i]) by {
                        if i == out@.len() - 1 {
                            assert(out@[i] == z);
                        }
                    }
                    lemma_live_seq_bounded(self.nodes@, pm, cm, out@);
                }
            }
            proof {
                assert forall|z: EntityKey| #[trigger] cm[e].contains(z) implies out@.contains(z) by {
                    let i = choose|i: int| 0 <= i < out0.len() && out0[i] == z;
                    assert(out@[i] == z);
                }
                assert forall|j: int, z: EntityKey| 0 <= j < head + 1 && #[trigger] cm[out@[j]].contains(z) implies out@.contains(z) by {
                    assert(out@[j] == out0[j]);
                    if j < head {
                        assert(cm[out0[j]].contains(z));
                        let i = choose|i: int| 0 <= i < out0.len() && out0[i] == z;
                        assert(out@[i] == z);
                    } else {
                        let t = choose|t: int| 0 <= t < kids@.len() && kids@[t] == z;
                        assert(out@[out0.len() + t] == z);
                    }
                }
                assert(out@ =~= out0 + kids@);
                assert(out@.take(head as int) =~= out0.take(head as int));
                assert(out@.take(head + 1) =~= out0.take(head as int).push(y));
                assert(out@.take(head + 1).drop_last() =~= out0.take(head as int));
                assert(flatten_children(cm, out@.take(head + 1)) == flatten_children(cm, out0.take(head as int)) + cm[y]);
                assert(out@ =~= cm[e] + flatten_children(cm, out@.take(head + 1)));
                assert forall|i: int| 0 <= i < out@.len() implies #[trigger] parent_listed_before(pm, e, out@, i, head + 1) by {
                    if i < out0.len() {
                        assert(out@[i] == out0[i]);
                        assert(parent_listed_before(pm, e, out0, i, head as int));
                        if pm[out0[i]] != Some(e) {
                            let j = choose|j: int| 0 <= j < i && j < head && pm[out0[i]] == Some(out0[j]);
                            assert(out@[j] == out0[j]);
                        }
                    } else {
                        assert(pm[out@[i]] == Some(y));
                        assert(out@[head as int] == y);
                    }
                }
            }
            head = head + 1;
        }
        proof {
            assert forall|y: EntityKey| #[trigger] out@.contains(y) <==> self.live(e) && self.live(y) && self.ancestor_of(e, y) by {
                if self.live(y) && self.ancestor_of(e, y) {
                    lemma_closed_holds_descendants(pm, cm, dm, e, out@, y);
                }
            }
            assert forall|i: int| 0 <= i < out@.len() implies #[trigger] parent_listed_before(self.parents(), e, out@, i, i) by {
                assert(parent_listed_before(pm, e, out@, i, head as int));
            }
            assert(out@.take(head as int) =~= out@);
        }
        out
    }

    /// Get all root entities (live entities with no parent), in the order
    /// they were added.
    pub fn roots(&self) -> (r: Vec<EntityKey>)
        requires
            self.inv(),
        ensures
            r@.no_duplicates(),
            forall|x: EntityKey| #[trigger] r@.contains(x) <==> self.live(x) && self.parents()[x] is None,
    {
        let mut out: Vec<EntityKey> = Vec::new();
        let mut k: usize = 0;
        while k < self.nodes.len()
            invariant
                self.inv(),
                k <= self.nodes@.len(),
                out@.no_duplicates(),
                forall|x: EntityKey| #[trigger] out@.contains(x) <==> exists|j: int|
                    0 <= j < k && #[trigger] root_at(self.nodes@, j, x),
            decreases self.nodes@.len() - k,
        {
            let ghost before = out@;
            let v = self.nodes[k].entity;
            if self.nodes[k].parent.is_none() {
                proof {
                    assert(root_at(self.nodes@, k as int, v));
                    if before.contains(v) {
                        let j = choose|j: int| 0 <= j < k && #[trigger] root_at(self.nodes@, j, v);
                        assert(self.nodes@[j].entity != self.nodes@[k as int].entity);
                    }
                }
                out.push(v);
                proof {
                    assert forall|x: EntityKey| #[trigger] out@.contains(x) <==> exists|j: int|
                        0 <= j < k + 1 && #[trigger] root_at(self.nodes@, j, x) by {
                        if out@.contains(x) {
                            let i = choose|i: int| 0 <= i < out@.len() && out@[i] == x;
                            if i < before.len() {
                                assert(before[i] == x);
                                assert(before.contains(x));
                            }
                        }
                        if exists|j: int| 0 <= j < k + 1 && #[trigger] root_at(self.nodes@, j, x) {
                            let j = choose|j: int| 0 <= j < k + 1 && #[trigger] root_at(self.nodes@, j, x);
                            if j < k {
                                assert(before.contains(x));
                                let i = choose|i: int| 0 <= i < before.len() && before[i] == x;
                                assert(out@[i] == x);
                            } else {
                                assert(out@[before.len() as int] == x);
                            }
                        }
                    }
                }
            } else {
                proof {
                    assert forall|x: EntityKey| #[trigger] out@.contains(x) <==> exists|j: int|
                        0 <= j < k + 1 && #[trigger] root_at(self.nodes@, j, x) by {
                        if exists|j: int| 0 <= j < k + 1 && #[trigger] root_at(self.nodes@, j, x) {
                            let j = choose|j: int| 0 <= j < k + 1 && #[trigger] root_at(self.nodes@, j, x);
                            assert(j < k);
                        }
                    }
                }
            }
            k = k + 1;
        }
        proof {
            assert forall|x: EntityKey| #[trigger] out@.contains(x) <==> self.live(x) && self.parents()[x] is None by {
                if self.live(x) {
                    let j = choose|j: int| 0 <= j < self.nodes@.len() && #[trigger] self.nodes@[j].entity == x;
                    assert(self.parent_g@[x] == self.nodes@[j].parent);
                    if self.parents()[x] is None {
                        assert(root_at(self.nodes@, j, x));
                    }
                }
                if out@.contains(x) {
                    let j = choose|j: int| 0 <= j < k && #[trigger] root_at(self.nodes@, j, x);
                    assert(self.parent_g@[self.nodes@[j].entity] == self.nodes@[j].parent);
                }
            }
        }
        out
    }

    /// Delete an entity and all its descendants recursively
    ///
    /// Returns all removed entities: the entity first, then its descendants
    /// breadth-first.
    pub fn remove_subtree(&mut self, e: EntityKey) -> (r: Vec<EntityKey>)
        requires
            old(self).inv(),
        ensures
            final(self).inv(),
            r@.no_duplicates(),
            forall|y: EntityKey|
                #[trigger] r@.contains(y) <==> old(self).live(e) && old(self).live(y) && (y == e || old(
                    self,
                ).ancestor_of(e, y)),
            old(self).live(e) ==> r@.len() > 0 && r@[0] == e,
            old(self).live(e) ==> r@.drop_first() == old(self).children()[e] + flatten_children(
                old(self).children(),
                r@.drop_first(),
            ),
            forall|x: EntityKey| #[trigger] final(self).live(x) <==> old(self).live(x) && !r@.contains(x),
            forall|x: EntityKey| #[trigger] final(self).live(x) ==> final(self).parents()[x] == old(self).parents()[x],
            old(self).live(e) ==> forall|x: EntityKey|
                #[trigger] final(self).live(x) ==> final(self).children()[x] == children_after_detach(
                    old(self).parents(),
                    old(self).children(),
                    e,
                )[x],
            !old(self).live(e) ==> *final(self) == *old(self),
    {
        let ghost pm0 = self.parents();
        let ghost cm0 = self.children();
        let ghost dm0 = self.depths();
        if !self.contains(e) {
            let r: Vec<EntityKey> = Vec::new();
            proof {
                assert forall|y: EntityKey| #[trigger] r@.contains(y) implies false by {}
            }
            return r;
        }
        let d = self.descendants(e);
        let mut tr: Vec<EntityKey> = Vec::new();
        tr.push(e);
        let mut m: usize = 0;
        while m < d.len()
            invariant
                m <= d@.len(),
                tr@ == seq![e] + d@.subrange(0, m as int),
            decreases d@.len() - m,
        {
            tr.push(d[m]);
            m = m + 1;
            proof {
                assert(tr@ =~= seq![e] + d@.subrange(0, m as int));
            }
        }
        proof {
            assert(tr@ =~= seq![e] + d@);
            assert(!d@.contains(e)) by {
                if d@.contains(e) {
                    lemma_strict_ancestor_shallower(pm0, dm0, e, e);
                }
            }
            assert forall|y: EntityKey| #[trigger] tr@.contains(y) <==> pm0.dom().contains(y) && in_subtree(pm0, dm0, e, y) by {
                if tr@.contains(y) && y != e {
                    let i = choose|i: int| 0 <= i < tr@.len() && tr@[i] == y;
                    assert(d@[i - 1] == y);
                    assert(d@.contains(y));
                }
                if pm0.dom().contains(y) && in_subtree(pm0, dm0, e, y) {
                    if y == e {
                        assert(tr@[0] == e);
                    } else {
                        assert(d@.contains(y));
                        let i = choose|i: int| 0 <= i < d@.len() && d@[i] == y;
                        assert(tr@[i + 1] == y);
                    }
                }
            }
            assert(tr@.no_duplicates()) by {
                assert forall|a: int, b: int| 0 <= a < tr@.len() && 0 <= b < tr@.len() && a != b implies tr@[a] != tr@[b] by {
                    if a > 0 && b > 0 {
                        assert(tr@[a] == d@[a - 1]);
                        assert(tr@[b] == d@[b - 1]);
                    } else if a == 0 {
                        assert(tr@[b] == d@[b - 1]);
                    } else {
                        assert(tr@[a] == d@[a - 1]);
                    }
                }
            }
            lemma_subtree_closed(pm0, cm0, dm0, e, tr@);
        }
        self.remove_from_parent(e);
        let ghost pm1 = self.parents();
        let ghost cm1 = self.children();
        proof {
            assert(pm1 =~= pm0.insert(e, None));
            assert(cm1 == children_after_detach(pm0, cm0, e));
        }
        let mut removed: Vec<EntityKey> = Vec::new();
        let mut k: usize = 0;
        proof {
            assert(links_ok(pm1, cm1));
            assert(forall|y: EntityKey| #[trigger] tr@.contains(y) ==> pm1.dom().contains(y));
            assert(forall|y: EntityKey, z: EntityKey| tr@.contains(y) && #[trigger] cm1[y].contains(z) ==> tr@.contains(z));
            assert(removed@ =~= tr@.subrange(0, 0));
            assert(forall|x: EntityKey| #[trigger] self.parents().dom().contains(x) <==> pm1.dom().contains(x) && !(exists|j: int| 0 <= j < 0 && tr@[j] == x));
            assert(forall|x: EntityKey| #[trigger] self.parents().dom().contains(x) && !tr@.contains(x) ==> self.parents()[x] == pm1[x] && self.children()[x] == cm1[x]);
            assert forall|x: EntityKey| #[trigger] self.parents().dom().contains(x) && tr@.contains(x) && self.parents()[x] is Some implies tr@.contains(self.parents()[x]->0) by {
                assert(x != e);
                assert(tr@.contains(x) && x != e);
            }
        }
        while k < tr.len()
            invariant
                self.inv(),
                links_ok(pm1, cm1),
                pm1 == pm0.insert(e, None),
                cm1 == children_after_detach(pm0, cm0, e),
                tr@.no_duplicates(),
                forall|y: EntityKey| #[trigger] tr@.contains(y) ==> pm1.dom().contains(y),
                forall|y: EntityKey, z: EntityKey| tr@.contains(y) && #[trigger] cm1[y].contains(z) ==> tr@.contains(z),
                k <= tr@.len(),
                removed@ == tr@.subrange(0, k as int),
                forall|x: EntityKey| #[trigger] self.parents().dom().contains(x) <==> pm1.dom().contains(x) && !(exists|j: int| 0 <= j < k && tr@[j] == x),
                forall|x: EntityKey| #[trigger] self.parents().dom().contains(x) && !tr@.contains(x) ==> self.parents()[x] == pm1[x] && self.children()[x] == cm1[x],
                forall|x: EntityKey| #[trigger] self.parents().dom().contains(x) && tr@.contains(x) && self.parents()[x] is Some ==> tr@.contains(self.parents()[x]->0),
            decreases tr@.len() - k,
        {
            let y = tr[k];
            let ghost pa = self.parents();
            let ghost ca = self.children();
            proof {
                assert(tr@.contains(y));
                if exists|j: int| 0 <= j < k && tr@[j] == y {
                    let j = choose|j: int| 0 <= j < k && tr@[j] == y;
                    assert(tr@[k as int] == y);
                }
                assert(self.live(y));
            }
            let ok = self.remove(y);
            if ok {
                removed.push(y);
            }
            proof {
                assert(ok);
                assert forall|x: EntityKey| #[trigger] self.parents().dom().contains(x) <==> pm1.dom().contains(x) && !(exists|j: int| 0 <= j < k + 1 && tr@[j] == x) by {
                    assert(self.live(x) == (pa.dom().contains(x) && x != y));
                    if exists|j: int| 0 <= j < k + 1 && tr@[j] == x {
                        let j = choose|j: int| 0 <= j < k + 1 && tr@[j] == x;
                        if j < k {
                            assert(exists|j: int| 0 <= j < k && tr@[j] == x);
                        }
                    }
                    if x != y && !(exists|j: int| 0 <= j < k && tr@[j] == x) {
                        assert(!(exists|j: int| 0 <= j < k + 1 && tr@[j] == x)) by {
                            if exists|j: int| 0 <= j < k + 1 && tr@[j] == x {
                                let j = choose|j: int| 0 <= j < k + 1 && tr@[j] == x;
                                assert(j != k);
                            }
                        }
                    }
                }
                assert forall|x: EntityKey| #[trigger] self.parents().dom().contains(x) && !tr@.contains(x) implies self.parents()[x] == pm1[x] && self.children()[x] == cm1[x] by {
                    assert(pa.dom().contains(x));
                    if pa[x] == Some(y) {
                        assert(pm1.dom().contains(x));
                        assert(pm1[x] == Some(y));
                        assert(cm1[y].contains(x));
                    }
                    if pa[y] == Some(x) {
                        assert(tr@.contains(x));
                    }
                }
                assert forall|x: EntityKey| #[trigger] self.parents().dom().contains(x) && tr@.contains(x) && self.parents()[x] is Some implies tr@.contains(self.parents()[x]->0) by {
                    assert(pa.dom().contains(x));
                }
                assert(removed@ =~= tr@.subrange(0, k + 1));
            }
            k = k + 1;
        }
        proof {
            assert(removed@ =~= tr@);
            assert(removed@.drop_first() =~= d@);
            assert forall|x: EntityKey| #[trigger] self.live(x) <==> pm0.dom().contains(x) && !removed@.contains(x) by {
                if removed@.contains(x) {
                    let j = choose|j: int| 0 <= j < removed@.len() && removed@[j] == x;
                    assert(tr@[j] == x);
                }
                if exists|j: int| 0 <= j < tr@.len() && tr@[j] == x {
                    let j = choose|j: int| 0 <= j < tr@.len() && tr@[j] == x;
                    assert(removed@.contains(x));
                }
            }
            assert forall|x: EntityKey| #[trigger] self.live(x) implies self.parents()[x] == pm0[x] by {
                assert(x != e);
            }
        }
        removed
    }

    /// Walk up from the node at `start`, following at most
    /// `MAX_WALK_DEPTH` parent links; true if there were more.
    fn exceeds_walk_depth(&self, start: usize) -> (r: bool)
        requires
            self.inv(),
            start < self.nodes@.len(),
        ensures
            r == (self.depths()[self.nodes@[start as int].entity] > MAX_WALK_DEPTH),
    {
        let ghost pm = self.parent_g@;
        let ghost cm = self.children_g@;
        let ghost dm = self.depth_g@;
        let x = self.nodes[start].entity;
        let mut current = x;
        let mut idx = start;
        let mut steps: u64 = 0;
        loop
            invariant
                self.inv(),
                pm == self.parents(),
                cm == self.children(),
                dm == self.depths(),
                self.live(x),
                x == self.nodes@[start as int].entity,
                steps <= MAX_WALK_DEPTH,
                steps <= dm[x],
                current == ancestor_at(pm, x, steps as nat),
                idx < self.nodes@.len(),
                self.nodes@[idx as int].entity == current,
                dm[current] == dm[x] - steps,
            decreases MAX_WALK_DEPTH - steps,
        {
            proof {
                lemma_ancestor_live(pm, dm, x, steps as nat);
            }
            match self.nodes[idx].parent {
                None => {
                    proof {
                        assert(pm[current] is None);
                        assert(dm[current] == 0);
                    }
                    return false;
                },
                Some(p) => {
                    proof {
                        assert(ancestor_at(pm, x, (steps + 1) as nat) == p);
                        assert(pm.dom().contains(p));
                        assert(dm[current] == dm[p] + 1);
                    }
                    steps = steps + 1;
                    current = p;
                    if steps > MAX_WALK_DEPTH {
                        return true;
                    }
                    idx = self.find(p).unwrap();
                },
            }
        }
    }

    /// Validate the hierarchy for consistency (debug tool)
    ///
    /// Checks that every parent link names a live entity that lists the
    /// child, that every listed child is live and links back, and that no
    /// walk up the parent links goes past `MAX_WALK_DEPTH` (a guard against
    /// cycles). Empty means valid. Because every operation keeps the
    /// hierarchy consistent, only the depth guard can ever report anything.
    pub fn validate_hierarchy(&self) -> (r: Vec<HierarchyIssue>)
        requires
            self.inv(),
        ensures
            r@.no_duplicates(),
            forall|i: HierarchyIssue| #[trigger] r@.contains(i) <==> exists|x: EntityKey|
                i == (HierarchyIssue::PossibleCycle { entity: x }) && self.live(x) && #[trigger] self.depths()[x]
                    > MAX_WALK_DEPTH,
    {
        let ghost pm = self.parent_g@;
        let ghost cm = self.children_g@;
        let ghost dm = self.depth_g@;
        let mut issues: Vec<HierarchyIssue> = Vec::new();
        let n = self.nodes.len();
        let mut i: usize = 0;
        while i < n
            invariant
                self.inv(),
                pm == self.parents(),
                cm == self.children(),
                n == self.nodes@.len(),
                i <= n,
                issues@.len() == 0,
            decreases n - i,
        {
            let x = self.nodes[i].entity;
            if let Some(p) = self.nodes[i].parent {
                proof {
                    assert(pm.dom().contains(x));
                    assert(pm.dom().contains(p));
                }
                match self.find(p) {
                    None => issues.push(HierarchyIssue::MissingParent { entity: x, parent: p }),
                    Some(ip) => {
                        if !vec_contains(&self.nodes[ip].children, x) {
                            issues.push(HierarchyIssue::NotListedByParent { entity: x, parent: p });
                        }
                    },
                }
            }
            i = i + 1;
        }
        let mut i: usize = 0;
        while i < n
            invariant
                self.inv(),
                pm == self.parents(),
                cm == self.children(),
                n == self.nodes@.len(),
                i <= n,
                issues@.len() == 0,
            decreases n - i,
        {
            let x = self.nodes[i].entity;
            let kids = self.nodes[i].children.clone();
            proof {
                assert(pm.dom().contains(x));
            }
            let mut m: usize = 0;
            while m < kids.len()
                invariant
                    self.inv(),
                    pm == self.parents(),
                    cm == self.children(),
                    pm.dom().contains(x),
                    kids@ == cm[x],
                    m <= kids@.len(),
                    issues@.len() == 0,
                decreases kids@.len() - m,
            {
                let c = kids[m];
                proof {
                    assert(cm[x].contains(c));
                }
                match self.find(c) {
                    None => issues.push(HierarchyIssue::MissingChild { entity: x, child: c }),
                    Some(ic) => {
                        let cp = self.nodes[ic].parent;
                        let back = match cp {
                            Some(q) => q == x,
                            None => false,
                        };
                        if !back {
                            issues.push(HierarchyIssue::WrongParent { entity: x, child: c, parent: cp });
                        }
                    },
                }
                m = m + 1;
            }
            i = i + 1;
        }
        let mut i: usize = 0;
        while i < n
            invariant
                self.inv(),
                pm == self.parents(),
                cm == self.children(),
                dm == self.depths(),
                n == self.nodes@.len(),
                i <= n,
                issues@ == deep_prefix(self.nodes@, dm, i as int),
            decreases n - i,
        {
            let x = self.nodes[i].entity;
            proof {
                assert(pm.dom().contains(x));
                if self.nodes@[i as int].parent is None {
                    assert(dm[x] == 0);
                }
            }
            let deep = self.nodes[i].parent.is_some() && self.exceeds_walk_depth(i);
            if deep {
                issues.push(HierarchyIssue::PossibleCycle { entity: x });
            }
            i = i + 1;
        }
        proof {
            lemma_deep_prefix(self.nodes@, dm, n as int);
            assert forall|u: HierarchyIssue| #[trigger] issues@.contains(u) <==> exists|x: EntityKey|
                u == (HierarchyIssue::PossibleCycle { entity: x }) && self.live(x) && #[trigger] self.depths()[x]
                    > MAX_WALK_DEPTH by {
                if issues@.contains(u) {
                    let j = choose|j: int| 0 <= j < n && #[trigger] deep_at(self.nodes@, dm, j, u->PossibleCycle_entity);
                    assert(pm.dom().contains(self.nodes@[j].entity));
                }
                if exists|x: EntityKey|
                    u == (HierarchyIssue::PossibleCycle { entity: x }) && self.live(x) && #[trigger] self.depths()[x]
                        > MAX_WALK_DEPTH {
                    let x = choose|x: EntityKey|
                        u == (HierarchyIssue::PossibleCycle { entity: x }) && self.live(x) && #[trigger] self.depths()[x]
                            > MAX_WALK_DEPTH;
                    let j = choose|j: int| 0 <= j < self.nodes@.len() && #[trigger] self.nodes@[j].entity == x;
                    assert(deep_at(self.nodes@, dm, j, x));
                }
            }
        }
        issues
    }
}

/// No entity is its own ancestor: every hierarchy that the operations
/// build is free of cycles.
pub proof fn law_hierarchy_is_acyclic(h: Hierarchy, x: EntityKey)
    requires
        h.inv(),
        h.live(x),
    ensures
        !h.ancestor_of(x, x),
{
    if h.ancestor_of(x, x) {
        lemma_strict_ancestor_shallower(h.parents(), h.depths(), x, x);
    }
}

/// A child is listed by its parent, lies below it, and is not above it:
/// what `add_child` sets up stays consistent in both directions.
pub proof fn law_child_is_listed_and_below_parent(h: Hierarchy, p: EntityKey, c: EntityKey)
    requires
        h.inv(),
        h.live(c),
        h.parents()[c] == Some(p),
    ensures
        h.live(p),
        h.children()[p].contains(c),
        h.ancestor_of(p, c),
        !h.ancestor_of(c, p),
{
    lemma_ancestor_via_parent(h.parents(), h.depths(), p, c);
    if h.ancestor_of(c, p) {
        lemma_strict_ancestor_shallower(h.parents(), h.depths(), c, p);
    }
}

/// Attaching an entity under one of its own descendants (or itself) is
/// always refused as a cycle, whatever else holds.
pub proof fn law_add_child_refuses_cycles(h: Hierarchy, p: EntityKey, c: EntityKey)
    requires
        h.inv(),
        h.live(p),
        h.live(c),
        p == c || h.ancestor_of(c, p),
    ensures
        add_child_outcome(h, p, c) == Err::<(), HierarchyError>(HierarchyError::CyclicHierarchy),
{
    if p != c && h.parents()[c] == Some(p) {
        law_child_is_listed_and_below_parent(h, p, c);
    }
}

} // verus!
