//! The side tables a world keeps next to its entity storage: the name
//! index, the tag index, and the count of dirty entities.
//!
//! Entities are identified by their 64-bit keys. A name maps to one entity
//! (a later entity of the same name takes the entry over); a tag maps to the
//! set of entities that carry it.

use crate::asset_cache::names_equal;
use crate::scene_graph::EntityKey;
use vstd::prelude::*;

verus! {

/// Each name occurs once in the list, and the map holds exactly the
/// listed pairs.
spec fn names_stored(v: Seq<(String, EntityKey)>, m: Map<Seq<char>, EntityKey>) -> bool {
    &&& forall|i: int, j: int| 0 <= i < j < v.len() ==> #[trigger] v[i].0@ != #[trigger] v[j].0@
    &&& forall|i: int| 0 <= i < v.len() ==> m.contains_key(#[trigger] v[i].0@) && m[v[i].0@] == v[i].1
    &&& forall|k: Seq<char>| #[trigger] m.contains_key(k) ==> exists|i: int| 0 <= i < v.len() && #[trigger] v[i].0@ == k
}

/// Each tag occurs once in the list, its entity list holds no entity twice,
/// and the map holds exactly the listed sets.
spec fn tags_stored(v: Seq<(String, Vec<EntityKey>)>, m: Map<Seq<char>, Set<EntityKey>>) -> bool {
    &&& forall|i: int, j: int| 0 <= i < j < v.len() ==> #[trigger] v[i].0@ != #[trigger] v[j].0@
    &&& forall|i: int|
        0 <= i < v.len() ==> m.contains_key(#[trigger] v[i].0@) && m[v[i].0@] == v[i].1@.to_set()
            && v[i].1@.no_duplicates()
    &&& forall|k: Seq<char>| #[trigger] m.contains_key(k) ==> exists|i: int| 0 <= i < v.len() && #[trigger] v[i].0@ == k
}

/// The tag map after `e` is added to the set of tag `t`.
pub open spec fn tag_added(m: Map<Seq<char>, Set<EntityKey>>, t: Seq<char>, e: EntityKey) -> Map<Seq<char>, Set<EntityKey>> {
    m.insert(t, if m.contains_key(t) { m[t] } else { Set::empty() }.insert(e))
}

/// The tag map after `e` is removed from the set of tag `t` (an emptied
/// set stays).
pub open spec fn tag_removed(m: Map<Seq<char>, Set<EntityKey>>, t: Seq<char>, e: EntityKey) -> Map<Seq<char>, Set<EntityKey>> {
    if m.contains_key(t) {
        m.insert(t, m[t].remove(e))
    } else {
        m
    }
}

/// The tag map after `e` is added under each of the first `n` tags.
pub open spec fn tags_added(m: Map<Seq<char>, Set<EntityKey>>, ts: Seq<String>, n: int, e: EntityKey) -> Map<Seq<char>, Set<EntityKey>>
    decreases n,
{
    if n <= 0 {
        m
    } else {
        tag_added(tags_added(m, ts, n - 1, e), ts[n - 1]@, e)
    }
}

/// The tag map after `e` is removed under each of the first `n` tags.
pub open spec fn tags_removed(m: Map<Seq<char>, Set<EntityKey>>, ts: Seq<String>, n: int, e: EntityKey) -> Map<Seq<char>, Set<EntityKey>>
    decreases n,
{
    if n <= 0 {
        m
    } else {
        tag_removed(tags_removed(m, ts, n - 1, e), ts[n - 1]@, e)
    }
}

/// The name map after the first `n` entries are inserted in order.
pub open spec fn names_inserted(m: Map<Seq<char>, EntityKey>, entries: Seq<(String, EntityKey)>, n: int) -> Map<Seq<char>, EntityKey>
    decreases n,
{
    if n <= 0 {
        m
    } else {
        names_inserted(m, entries, n - 1).insert(entries[n - 1].0@, entries[n - 1].1)
    }
}

proof fn lemma_tags_update(
    v: Seq<(String, Vec<EntityKey>)>,
    m: Map<Seq<char>, Set<EntityKey>>,
    k: int,
    entry: (String, Vec<EntityKey>),
)
    requires
        tags_stored(v, m),
        0 <= k < v.len(),
        entry.0@ == v[k].0@,
        entry.1@.no_duplicates(),
    ensures
        tags_stored(v.update(k, entry), m.insert(entry.0@, entry.1@.to_set())),
{
    let w = v.update(k, entry);
    let m2 = m.insert(entry.0@, entry.1@.to_set());
    assert forall|i: int, j: int| 0 <= i < j < w.len() implies #[trigger] w[i].0@ != #[trigger] w[j].0@ by {
        assert(w[i].0@ == v[i].0@);
        assert(w[j].0@ == v[j].0@);
    }
    assert forall|i: int| 0 <= i < w.len() implies m2.contains_key(#[trigger] w[i].0@) && m2[w[i].0@]
        == w[i].1@.to_set() && w[i].1@.no_duplicates() by {
        if i != k {
            assert(w[i] == v[i]);
            if i < k {
                assert(v[i].0@ != v[k].0@);
            } else {
                assert(v[k].0@ != v[i].0@);
            }
        }
    }
    assert forall|key: Seq<char>| #[trigger] m2.contains_key(key) implies exists|i: int|
        0 <= i < w.len() && #[trigger] w[i].0@ == key by {
        if key == entry.0@ {
            assert(w[k].0@ == key);
        } else {
            let i = choose|i: int| 0 <= i < v.len() && #[trigger] v[i].0@ == key;
            assert(w[i].0@ == key);
        }
    }
}

proof fn lemma_tags_push(v: Seq<(String, Vec<EntityKey>)>, m: Map<Seq<char>, Set<EntityKey>>, entry: (String, Vec<EntityKey>))
    requires
        tags_stored(v, m),
        !m.contains_key(entry.0@),
        entry.1@.no_duplicates(),
    ensures
        tags_stored(v.push(entry), m.insert(entry.0@, entry.1@.to_set())),
{
    let w = v.push(entry);
    let m2 = m.insert(entry.0@, entry.1@.to_set());
    assert forall|i: int, j: int| 0 <= i < j < w.len() implies #[trigger] w[i].0@ != #[trigger] w[j].0@ by {
        assert(w[i] == v[i]);
        if j < v.len() {
            assert(w[j] == v[j]);
        } else {
            assert(m.contains_key(v[i].0@));
        }
    }
    assert forall|i: int| 0 <= i < w.len() implies m2.contains_key(#[trigger] w[i].0@) && m2[w[i].0@]
        == w[i].1@.to_set() && w[i].1@.no_duplicates() by {
        if i < v.len() {
            assert(w[i] == v[i]);
            assert(m.contains_key(v[i].0@));
        }
    }
    assert forall|key: Seq<char>| #[trigger] m2.contains_key(key) implies exists|i: int|
        0 <= i < w.len() && #[trigger] w[i].0@ == key by {
        if key == entry.0@ {
            assert(w[v.len() as int].0@ == key);
        } else {
            let i = choose|i: int| 0 <= i < v.len() && #[trigger] v[i].0@ == key;
            assert(w[i] == v[i]);
        }
    }
}

/// `s` holds `e`.
fn holds_key(s: &Vec<EntityKey>, e: EntityKey) -> (r: Option<usize>)
    ensures
        r is Some ==> r->0 < s@.len() && s@[r->0 as int] == e,
        r is Some <==> s@.contains(e),
{
    let mut k: usize = 0;
    while k < s.len()
        invariant
            k <= s@.len(),
            forall|j: int| 0 <= j < k ==> s@[j] != e,
        decreases s@.len() - k,
    {
        if s[k] == e {
            return Some(k);
        }
        k = k + 1;
    }
    None
}

/// The name index, the tag index and the dirty count of a world.
pub struct EntityIndex {
    names: Vec<(String, EntityKey)>,
    tags: Vec<(String, Vec<EntityKey>)>,
    dirty_count: usize,
    names_g: Ghost<Map<Seq<char>, EntityKey>>,
    tags_g: Ghost<Map<Seq<char>, Set<EntityKey>>>,
}

impl EntityIndex {
    /// The name index: which entity each name leads to.
    pub closed spec fn name_map(&self) -> Map<Seq<char>, EntityKey> {
        self.names_g@
    }

    /// The tag index: which entities carry each tag.
    pub closed spec fn tag_map(&self) -> Map<Seq<char>, Set<EntityKey>> {
        self.tags_g@
    }

    /// The number of entities whose dirty flags are set.
    pub closed spec fn dirty(&self) -> nat {
        self.dirty_count as nat
    }

    /// The lists agree with the maps.
    pub closed spec fn wf(&self) -> bool {
        names_stored(self.names@, self.names_g@) && tags_stored(self.tags@, self.tags_g@)
    }

    /// Empty indices and no dirty entities.
    pub fn new() -> (r: Self)
        ensures
            r.wf(),
            r.name_map() == Map::<Seq<char>, EntityKey>::empty(),
            r.tag_map() == Map::<Seq<char>, Set<EntityKey>>::empty(),
            r.dirty() == 0,
    {
        EntityIndex {
            names: Vec::new(),
            tags: Vec::new(),
            dirty_count: 0,
            names_g: Ghost(Map::empty()),
            tags_g: Ghost(Map::empty()),
        }
    }

    fn name_pos(&self, name: &str) -> (r: Option<usize>)
        requires
            self.wf(),
        ensures
            r is Some ==> r->0 < self.names@.len() && self.names@[r->0 as int].0@ == name@,
            r is Some <==> self.name_map().contains_key(name@),
    {
        let mut k: usize = 0;
        while k < self.names.len()
            invariant
                self.wf(),
                k <= self.names@.len(),
                forall|j: int| 0 <= j < k ==> #[trigger] self.names@[j].0@ != name@,
            decreases self.names@.len() - k,
        {
            if names_equal(&self.names[k].0, name) {
                return Some(k);
            }
            k = k + 1;
        }
        proof {
            if self.names_g@.contains_key(name@) {
                let i = choose|i: int| 0 <= i < self.names@.len() && #[trigger] self.names@[i].0@ == name@;
            }
        }
        None
    }

    fn tag_pos(&self, tag: &str) -> (r: Option<usize>)
        requires
            self.wf(),
        ensures
            r is Some ==> r->0 < self.tags@.len() && self.tags@[r->0 as int].0@ == tag@,
            r is Some <==> self.tag_map().contains_key(tag@),
    {
        let mut k: usize = 0;
        while k < self.tags.len()
            invariant
                self.wf(),
                k <= self.tags@.len(),
                forall|j: int| 0 <= j < k ==> #[trigger] self.tags@[j].0@ != tag@,
            decreases self.tags@.len() - k,
        {
            if names_equal(&self.tags[k].0, tag) {
                return Some(k);
            }
            k = k + 1;
        }
        proof {
            if self.tags_g@.contains_key(tag@) {
                let i = choose|i: int| 0 <= i < self.tags@.len() && #[trigger] self.tags@[i].0@ == tag@;
            }
        }
        None
    }

    /// Get an entity by name
    pub fn get_by_name(&self, name: &str) -> (r: Option<EntityKey>)
        requires
            self.wf(),
        ensures
            r == if self.name_map().contains_key(name@) {
                Some(self.name_map()[name@])
            } else {
                None
            },
    {
        match self.name_pos(name) {
            Some(k) => Some(self.names[k].1),
            None => None,
        }
    }

    /// Point `name` at `e`; returns the entity it led to before, if any.
    pub fn insert_name(&mut self, name: &str, e: EntityKey) -> (r: Option<EntityKey>)
        requires
            old(self).wf(),
        ensures
            final(self).wf(),
            r == if old(self).name_map().contains_key(name@) {
                Some(old(self).name_map()[name@])
            } else {
                None
            },
            final(self).name_map() == old(self).name_map().insert(name@, e),
            final(self).tag_map() == old(self).tag_map(),
            final(self).dirty() == old(self).dirty(),
    {
        let ghost m = self.names_g@;
        let ghost v0 = self.names@;
        match self.name_pos(name) {
            Some(k) => {
                let prev = self.names[k].1;
                let entry = (String::from_str(name), e);
                self.names.set(k, entry);
                self.names_g = Ghost(m.insert(name@, e));
                proof {
                    let v = self.names@;
                    assert forall|i: int, j: int| 0 <= i < j < v.len() implies #[trigger] v[i].0@ != #[trigger] v[j].0@ by {
                        assert(v[i].0@ == v0[i].0@);
                        assert(v[j].0@ == v0[j].0@);
                    }
                    assert forall|i: int| 0 <= i < v.len() implies self.names_g@.contains_key(#[trigger] v[i].0@)
                        && self.names_g@[v[i].0@] == v[i].1 by {
                        if i != k {
                            assert(v[i] == v0[i]);
                            if i < k {
                                assert(v0[i].0@ != v0[k as int].0@);
                            } else {
                                assert(v0[k as int].0@ != v0[i].0@);
                            }
                        }
                    }
                    assert forall|key: Seq<char>| #[trigger] self.names_g@.contains_key(key) implies exists|i: int|
                        0 <= i < v.len() && #[trigger] v[i].0@ == key by {
                        if key == name@ {
                            assert(v[k as int].0@ == key);
                        } else {
                            let i = choose|i: int| 0 <= i < v0.len() && #[trigger] v0[i].0@ == key;
                            assert(v[i].0@ == key);
                        }
                    }
                }
                Some(prev)
            },
            None => {
                self.names.push((String::from_str(name), e));
                self.names_g = Ghost(m.insert(name@, e));
                proof {
                    let v = self.names@;
                    assert forall|i: int, j: int| 0 <= i < j < v.len() implies #[trigger] v[i].0@ != #[trigger] v[j].0@ by {
                        assert(v[i] == v0[i]);
                        if j < v0.len() {
                            assert(v[j] == v0[j]);
                        } else {
                            assert(m.contains_key(v0[i].0@));
                        }
                    }
                    assert forall|i: int| 0 <= i < v.len() implies self.names_g@.contains_key(#[trigger] v[i].0@)
                        && self.names_g@[v[i].0@] == v[i].1 by {
                        if i < v0.len() {
                            assert(v[i] == v0[i]);
                            assert(m.contains_key(v0[i].0@));
                        }
                    }
                    assert forall|key: Seq<char>| #[trigger] self.names_g@.contains_key(key) implies exists|i: int|
                        0 <= i < v.len() && #[trigger] v[i].0@ == key by {
                        if key == name@ {
                            assert(v[v0.len() as int].0@ == key);
                        } else {
                            let i = choose|i: int| 0 <= i < v0.len() && #[trigger] v0[i].0@ == key;
                            assert(v[i] == v0[i]);
                        }
                    }
                }
                None
            },
        }
    }

    /// Drop `name` from the name index; returns the entity it led to, if
    /// any.
    pub fn remove_name(&mut self, name: &str) -> (r: Option<EntityKey>)
        requires
            old(self).wf(),
        ensures
            final(self).wf(),
            r == if old(self).name_map().contains_key(name@) {
                Some(old(self).name_map()[name@])
            } else {
                None
            },
            final(self).name_map() == old(self).name_map().remove(name@),
            final(self).tag_map() == old(self).tag_map(),
            final(self).dirty() == old(self).dirty(),
    {
        let ghost m = self.names_g@;
        let ghost v0 = self.names@;
        match self.name_pos(name) {
            Some(k) => {
                let entry = self.names.remove(k);
                self.names_g = Ghost(m.remove(name@));
                proof {
                    let v = self.names@;
                    assert forall|a: int| 0 <= a < v.len() implies #[trigger] v[a] == (if a < k {
                        v0[a]
                    } else {
                        v0[a + 1]
                    }) by {}
                    assert forall|i: int, j: int| 0 <= i < j < v.len() implies #[trigger] v[i].0@ != #[trigger] v[j].0@ by {
                        let ii = if i < k { i } else { i + 1 };
                        let jj = if j < k { j } else { j + 1 };
                        assert(v[i] == v0[ii]);
                        assert(v[j] == v0[jj]);
                    }
                    assert forall|i: int| 0 <= i < v.len() implies self.names_g@.contains_key(#[trigger] v[i].0@)
                        && self.names_g@[v[i].0@] == v[i].1 by {
                        let ii = if i < k { i } else { i + 1 };
                        assert(v[i] == v0[ii]);
                        if ii < k {
                            assert(v0[ii].0@ != v0[k as int].0@);
                        } else {
                            assert(v0[k as int].0@ != v0[ii].0@);
                        }
                    }
                    assert forall|key: Seq<char>| #[trigger] self.names_g@.contains_key(key) implies exists|i: int|
                        0 <= i < v.len() && #[trigger] v[i].0@ == key by {
                        let i = choose|i: int| 0 <= i < v0.len() && #[trigger] v0[i].0@ == key;
                        assert(i != k);
                        if i < k {
                            assert(v[i] == v0[i]);
                        } else {
                            assert(v[i - 1] == v0[i]);
                        }
                    }
                }
                Some(entry.1)
            },
            None => {
                assert(m.remove(name@) =~= m);
                None
            },
        }
    }

    /// Add `e` to the entities carrying `tag`.
    pub fn tag_entity(&mut self, tag: &str, e: EntityKey)
        requires
            old(self).wf(),
        ensures
            final(self).wf(),
            final(self).tag_map() == tag_added(old(self).tag_map(), tag@, e),
            final(self).name_map() == old(self).name_map(),
            final(self).dirty() == old(self).dirty(),
    {
        let ghost m = self.tags_g@;
        match self.tag_pos(tag) {
            Some(k) => {
                let mut list = self.tags[k].1.clone();
                proof {
                    assert(list@ == self.tags@[k as int].1@);
                }
                let ghost before = list@;
                if holds_key(&list, e).is_none() {
                    list.push(e);
                    proof {
                        assert(list@.to_set() =~= before.to_set().insert(e)) by {
                            assert forall|x: EntityKey| list@.to_set().contains(x) <==> before.to_set().insert(e).contains(x) by {
                                if list@.contains(x) && x != e {
                                    let i = choose|i: int| 0 <= i < list@.len() && list@[i] == x;
                                    assert(before[i] == x);
                                }
                                if before.contains(x) {
                                    let i = choose|i: int| 0 <= i < before.len() && before[i] == x;
                                    assert(list@[i] == x);
                                }
                                if x == e {
                                    assert(list@[before.len() as int] == e);
                                }
                            }
                        }
                        assert forall|a: int, b: int| 0 <= a < list@.len() && 0 <= b < list@.len() && a != b implies list@[a] != list@[b] by {
                            if a < before.len() && b < before.len() {
                            } else if a < before.len() {
                                assert(before.contains(list@[a]));
                            } else {
                                assert(before.contains(list@[b]));
                            }
                        }
                    }
                } else {
                    assert(before.to_set().insert(e) =~= before.to_set());
                }
                let entry = (String::from_str(tag), list);
                proof {
                    lemma_tags_update(self.tags@, m, k as int, entry);
                }
                self.tags.set(k, entry);
                self.tags_g = Ghost(m.insert(tag@, entry.1@.to_set()));
            },
            None => {
                let mut list: Vec<EntityKey> = Vec::new();
                list.push(e);
                let entry = (String::from_str(tag), list);
                proof {
                    assert(list@.to_set() =~= Set::<EntityKey>::empty().insert(e)) by {
                        assert forall|x: EntityKey| list@.to_set().contains(x) <==> x == e by {
                            if x == e {
                                assert(list@[0] == e);
                            }
                        }
                    }
                    lemma_tags_push(self.tags@, m, entry);
                }
                self.tags.push(entry);
                self.tags_g = Ghost(m.insert(tag@, entry.1@.to_set()));
            },
        }
    }

    /// Remove `e` from the entities carrying `tag` (the tag's entry stays,
    /// if emptied).
    pub fn untag_entity(&mut self, tag: &str, e: EntityKey)
        requires
            old(self).wf(),
        ensures
            final(self).wf(),
            final(self).tag_map() == tag_removed(old(self).tag_map(), tag@, e),
            final(self).name_map() == old(self).name_map(),
            final(self).dirty() == old(self).dirty(),
    {
        let ghost m = self.tags_g@;
        match self.tag_pos(tag) {
            Some(k) => {
                let mut list = self.tags[k].1.clone();
                proof {
                    assert(list@ == self.tags@[k as int].1@);
                }
                let ghost before = list@;
                match holds_key(&list, e) {
                    Some(p) => {
                        list.remove(p);
                        proof {
                            assert forall|a: int| 0 <= a < list@.len() implies #[trigger] list@[a] == (if a < p {
                                before[a]
                            } else {
                                before[a + 1]
                            }) by {}
                            assert(list@.to_set() =~= before.to_set().remove(e)) by {
                                assert forall|x: EntityKey| list@.to_set().contains(x) <==> before.to_set().remove(e).contains(x) by {
                                    if list@.contains(x) {
                                        let i = choose|i: int| 0 <= i < list@.len() && list@[i] == x;
                                        let ii = if i < p { i } else { i + 1 };
                                        assert(before[ii] == x);
                                        assert(ii != p);
                                    }
                                    if before.contains(x) && x != e {
                                        let i = choose|i: int| 0 <= i < before.len() && before[i] == x;
                                        assert(i != p);
                                        if i < p {
                                            assert(list@[i] == x);
                                        } else {
                                            assert(list@[i - 1] == x);
                                        }
                                    }
                                }
                            }
                            assert forall|a: int, b: int| 0 <= a < list@.len() && 0 <= b < list@.len() && a != b implies list@[a] != list@[b] by {
                                let aa = if a < p { a } else { a + 1 };
                                let bb = if b < p { b } else { b + 1 };
                                assert(list@[a] == before[aa]);
                                assert(list@[b] == before[bb]);
                            }
                        }
                    },
                    None => {
                        assert(before.to_set().remove(e) =~= before.to_set());
                    },
                }
                let entry = (String::from_str(tag), list);
                proof {
                    lemma_tags_update(self.tags@, m, k as int, entry);
                }
                self.tags.set(k, entry);
                self.tags_g = Ghost(m.insert(tag@, entry.1@.to_set()));
            },
            None => {},
        }
    }

    /// Get all entities with a specific tag (each once).
    pub fn get_by_tag(&self, tag: &str) -> (r: Vec<EntityKey>)
        requires
            self.wf(),
        ensures
            r@.no_duplicates(),
            self.tag_map().contains_key(tag@) ==> r@.to_set() == self.tag_map()[tag@],
            !self.tag_map().contains_key(tag@) ==> r@.len() == 0,
    {
        match self.tag_pos(tag) {
            Some(k) => self.tags[k].1.clone(),
            None => Vec::new(),
        }
    }

    /// Record a newly spawned entity: index its name (taking the entry
    /// over from any earlier entity of that name), add it under each of its
    /// tags, and count it if it starts dirty. Returns the entity that the
    /// name led to before, if any.
    pub fn record_spawn(&mut self, e: EntityKey, name: Option<&str>, tags: &[String], dirty: bool) -> (r: Option<
        EntityKey,
    >)
        requires
            old(self).wf(),
            dirty ==> old(self).dirty() < usize::MAX,
        ensures
            final(self).wf(),
            match name {
                Some(n) => {
                    &&& final(self).name_map() == old(self).name_map().insert(n@, e)
                    &&& r == if old(self).name_map().contains_key(n@) {
                        Some(old(self).name_map()[n@])
                    } else {
                        None
                    }
                },
                None => final(self).name_map() == old(self).name_map() && r is None,
            },
            final(self).tag_map() == tags_added(old(self).tag_map(), tags@, tags@.len() as int, e),
            final(self).dirty() == old(self).dirty() + if dirty {
                1nat
            } else {
                0nat
            },
    {
        let prev = match name {
            Some(n) => self.insert_name(n, e),
            None => None,
        };
        let ghost m0 = self.tags_g@;
        let mut k: usize = 0;
        while k < tags.len()
            invariant
                self.wf(),
                k <= tags@.len(),
                self.tag_map() == tags_added(m0, tags@, k as int, e),
                self.name_map() == old(self).name_map().insert(name->0@, e) || name is None,
                name is None ==> self.name_map() == old(self).name_map(),
                self.dirty() == old(self).dirty(),
            decreases tags@.len() - k,
        {
            self.tag_entity(tags[k].as_str(), e);
            k = k + 1;
        }
        if dirty {
            self.dirty_count = self.dirty_count + 1;
        }
        prev
    }

    /// Forget a despawned entity: drop its name from the name index
    /// (whichever entity the name led to), remove it under each of its
    /// tags, and uncount it if it was dirty (the count never goes below
    /// zero).
    pub fn record_despawn(&mut self, e: EntityKey, name: Option<&str>, tags: &[String], dirty: bool)
        requires
            old(self).wf(),
        ensures
            final(self).wf(),
            match name {
                Some(n) => final(self).name_map() == old(self).name_map().remove(n@),
                None => final(self).name_map() == old(self).name_map(),
            },
            final(self).tag_map() == tags_removed(old(self).tag_map(), tags@, tags@.len() as int, e),
            final(self).dirty() == if dirty && old(self).dirty() > 0 {
                (old(self).dirty() - 1) as nat
            } else {
                old(self).dirty()
            },
    {
        match name {
            Some(n) => {
                self.remove_name(n);
            },
            None => {},
        }
        let ghost nm = self.names_g@;
        let ghost m0 = self.tags_g@;
        let mut k: usize = 0;
        while k < tags.len()
            invariant
                self.wf(),
                k <= tags@.len(),
                self.tag_map() == tags_removed(m0, tags@, k as int, e),
                self.name_map() == nm,
                self.dirty() == old(self).dirty(),
            decreases tags@.len() - k,
        {
            self.untag_entity(tags[k].as_str(), e);
            k = k + 1;
        }
        if dirty && self.dirty_count > 0 {
            self.dirty_count = self.dirty_count - 1;
        }
    }

    /// Move entity `e` from `old_name` to `new_name` in the name index.
    /// Returns the entity that `new_name` led to before, if any.
    pub fn rename(&mut self, e: EntityKey, old_name: &str, new_name: &str) -> (r: Option<EntityKey>)
        requires
            old(self).wf(),
        ensures
            final(self).wf(),
            final(self).name_map() == old(self).name_map().remove(old_name@).insert(new_name@, e),
            r == if old(self).name_map().remove(old_name@).contains_key(new_name@) {
                Some(old(self).name_map().remove(old_name@)[new_name@])
            } else {
                None
            },
            final(self).tag_map() == old(self).tag_map(),
            final(self).dirty() == old(self).dirty(),
    {
        self.remove_name(old_name);
        self.insert_name(new_name, e)
    }

    /// Rebuild the name index from scratch out of `(name, entity)` pairs;
    /// of two pairs with the same name the later one wins.
    pub fn rebuild_names(&mut self, entries: &[(String, EntityKey)])
        requires
            old(self).wf(),
        ensures
            final(self).wf(),
            final(self).name_map() == names_inserted(Map::empty(), entries@, entries@.len() as int),
            final(self).tag_map() == old(self).tag_map(),
            final(self).dirty() == old(self).dirty(),
    {
        self.names = Vec::new();
        self.names_g = Ghost(Map::empty());
        let mut k: usize = 0;
        while k < entries.len()
            invariant
                self.wf(),
                k <= entries@.len(),
                self.name_map() == names_inserted(Map::empty(), entries@, k as int),
                self.tag_map() == old(self).tag_map(),
                self.dirty() == old(self).dirty(),
            decreases entries@.len() - k,
        {
            self.insert_name(entries[k].0.as_str(), entries[k].1);
            k = k + 1;
        }
    }

    /// Forget every name, tag and dirty entity.
    pub fn clear(&mut self)
        ensures
            final(self).wf(),
            final(self).name_map() == Map::<Seq<char>, EntityKey>::empty(),
            final(self).tag_map() == Map::<Seq<char>, Set<EntityKey>>::empty(),
            final(self).dirty() == 0,
    {
        *self = EntityIndex::new();
    }

    /// Check if any entity has dirty flags set
    pub fn has_dirty_entities(&self) -> (r: bool)
        ensures
            r == (self.dirty() > 0),
    {
        self.dirty_count > 0
    }

    /// The number of entities with dirty flags set.
    pub fn dirty_count(&self) -> (r: usize)
        ensures
            r == self.dirty(),
    {
        self.dirty_count
    }

    /// Count one more entity that went from clean to dirty.
    pub fn mark_dirtied(&mut self)
        requires
            old(self).wf(),
            old(self).dirty() < usize::MAX,
        ensures
            final(self).wf(),
            final(self).dirty() == old(self).dirty() + 1,
            final(self).name_map() == old(self).name_map(),
            final(self).tag_map() == old(self).tag_map(),
    {
        self.dirty_count = self.dirty_count + 1;
    }

    /// Forget the dirty count (every entity's flags were cleared).
    pub fn clear_all_dirty(&mut self)
        requires
            old(self).wf(),
        ensures
            final(self).wf(),
            final(self).dirty() == 0,
            final(self).name_map() == old(self).name_map(),
            final(self).tag_map() == old(self).tag_map(),
    {
        self.dirty_count = 0;
    }
}

/// Tagging an entity and untagging it again leaves the tag's set as it
/// was without that entity, and every other tag untouched.
pub proof fn law_untag_undoes_tag(m: Map<Seq<char>, Set<EntityKey>>, t: Seq<char>, e: EntityKey)
    ensures
        tag_removed(tag_added(m, t, e), t, e) == m.insert(
            t,
            if m.contains_key(t) {
                m[t]
            } else {
                Set::empty()
            }.remove(e),
        ),
{
    let base = if m.contains_key(t) {
        m[t]
    } else {
        Set::<EntityKey>::empty()
    };
    assert(base.insert(e).remove(e) =~= base.remove(e));
    assert(tag_removed(tag_added(m, t, e), t, e) =~= m.insert(t, base.remove(e)));
}

/// A name that was just indexed leads to its entity until it is removed or
/// taken over; removing it makes it lead nowhere.
pub proof fn law_name_lookup_follows_last_write(m: Map<Seq<char>, EntityKey>, n: Seq<char>, e: EntityKey)
    ensures
        m.insert(n, e).contains_key(n) && m.insert(n, e)[n] == e,
        !m.insert(n, e).remove(n).contains_key(n),
        m.insert(n, e).remove(n) == m.remove(n),
{
    assert(m.insert(n, e).remove(n) =~= m.remove(n));
}

} // verus!
