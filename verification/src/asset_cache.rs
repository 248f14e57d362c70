//! Asset caching with deduplication, dependency tracking, garbage collection
//! and hot reload.
//!
//! - [`AssetId`] - Unique identifier for a cached asset (incrementing `u64`)
//! - [`AssetHandle`] - Lightweight handle returned to callers, containing id and path
//! - [`Asset`] trait - Implemented by types that can be loaded from files
//! - [`AssetCache`] - The cache; it stores one payload `D` per asset, so a
//!   type-erased cache uses a shared `dyn Any` pointer as `D`
//!
//! The cache never reads the file system itself: loading and reloading go
//! through functions handed to [`AssetCache::load`] and
//! [`AssetCache::check_hot_reload`], whose results the cache then records.

use crate::asset_error::AssetError;
use crate::events::same_type;
use std::any::TypeId;
use vstd::prelude::*;

verus! {

/// Unique identifier for an asset in the cache.
///
/// Asset IDs are assigned sequentially starting from 1. An ID of 0 is reserved
/// and never assigned to a valid asset.
pub type AssetId = u64;

/// Whether two path strings name the same path, by `std::path::Path`'s `==`
/// (component-wise comparison).
pub uninterp spec fn paths_equal(a: Seq<char>, b: Seq<char>) -> bool;

/// Whether `a` names the path `b`: equal strings, or paths equal by
/// `std::path::Path`'s `==`.
pub open spec fn path_matches(a: Seq<char>, b: Seq<char>) -> bool {
    a == b || paths_equal(a, b)
}

/// Compares two paths with `std::path::Path`'s `==`.
///
/// Trusted: the result is named [`paths_equal`]; equal strings name equal
/// paths (`Path`'s `==` is reflexive, as `Path` implements `Eq`).
#[verifier::external_body]
fn same_path(a: &str, b: &str) -> (r: bool)
    ensures
        r == paths_equal(a@, b@),
        a@ == b@ ==> r,
{
    std::path::Path::new(a) == std::path::Path::new(b)
}

/// Compares a stored name with a borrowed one, character by character.
pub fn names_equal(a: &String, b: &str) -> (r: bool)
    ensures
        r == (a@ == b@),
{
    let other = String::from_str(b);
    *a == other
}

/// A lightweight handle to a cached asset.
///
/// Handles are returned by [`AssetCache::load`] and can be used to retrieve
/// the asset data via [`AssetCache::get`]. They are cheap to clone and can
/// be stored in components or other data structures.
#[derive(Clone, Debug, Hash, Eq, PartialEq)]
pub struct AssetHandle {
    /// The unique ID of this asset in the cache
    id: AssetId,
    /// The file path this asset was loaded from
    path: String,
}

impl AssetHandle {
    /// The handle's asset id.
    pub closed spec fn spec_id(&self) -> AssetId {
        self.id
    }

    /// The handle's path.
    pub closed spec fn spec_path(&self) -> Seq<char> {
        self.path@
    }

    /// Create a handle for the given id and path.
    pub fn new(id: AssetId, path: &str) -> (r: Self)
        ensures
            r.spec_id() == id,
            r.spec_path() == path@,
    {
        AssetHandle { id, path: String::from_str(path) }
    }

    /// Get the asset ID
    pub fn id(&self) -> (r: AssetId)
        ensures
            r == self.spec_id(),
    {
        self.id
    }

    /// Get the file path this asset was loaded from
    pub fn path(&self) -> (r: &str)
        ensures
            r@ == self.spec_path(),
    {
        self.path.as_str()
    }
}

/// Trait for types that can be loaded from files and cached.
///
/// Implement this trait for any type you want to manage through the asset cache.
/// The type must be `Send + Sync + 'static` to allow shared access across threads.
pub trait Asset: Sized + Send + Sync + 'static {
    /// Load this asset from the given file path.
    fn load_from_file(path: &str) -> Result<Self, AssetError>;
}

/// Storage for one cached asset.
pub struct CachedEntry<D> {
    /// The asset's id
    pub id: AssetId,
    /// The file path this asset was loaded from
    pub path: String,
    /// The kind of asset (its type), which hot reload filters by
    pub kind: TypeId,
    /// The asset data
    pub data: D,
    /// When the asset was last loaded (nanoseconds on the caller's clock)
    pub load_time: u128,
    /// Names of scenes or systems that depend on this asset
    pub dependents: Vec<String>,
}

/// No two names in the list are equal.
pub open spec fn no_duplicate_names(names: Seq<String>) -> bool {
    forall|i: int, j: int| 0 <= i < j < names.len() ==> #[trigger] names[i]@ != #[trigger] names[j]@
}

/// The entries that survive garbage collection: those with dependents, in order.
pub open spec fn entries_with_dependents<D>(es: Seq<CachedEntry<D>>) -> Seq<CachedEntry<D>>
    decreases es.len(),
{
    if es.len() == 0 {
        Seq::empty()
    } else {
        let rest = entries_with_dependents(es.drop_last());
        if es.last().dependents@.len() > 0 {
            rest.push(es.last())
        } else {
            rest
        }
    }
}

/// The ids of the entries whose flag is set, in order.
pub open spec fn flagged_ids<D>(es: Seq<CachedEntry<D>>, flags: Seq<bool>) -> Seq<AssetId>
    decreases es.len(),
{
    if es.len() == 0 || flags.len() != es.len() {
        Seq::empty()
    } else {
        let rest = flagged_ids(es.drop_last(), flags.drop_last());
        if flags.last() {
            rest.push(es.last().id)
        } else {
            rest
        }
    }
}

/// The paths of the entries whose flag is set, in order.
pub open spec fn flagged_paths<D>(es: Seq<CachedEntry<D>>, flags: Seq<bool>) -> Seq<Seq<char>>
    decreases es.len(),
{
    if es.len() == 0 || flags.len() != es.len() {
        Seq::empty()
    } else {
        let rest = flagged_paths(es.drop_last(), flags.drop_last());
        if flags.last() {
            rest.push(es.last().path@)
        } else {
            rest
        }
    }
}

/// One entry's hot-reload step for assets of kind `kind`: an entry of
/// another kind is left as it is, unreported, and neither callback is asked
/// about it. For an entry of that kind, `modified` reports the file's
/// modification time; only if it is later than the entry's load time is
/// `reload` called, and only a successful reload replaces the data and load
/// time (`reloaded`). Id, path, kind and dependents never change.
pub open spec fn hot_reload_step<D, M, L>(
    kind: TypeId,
    modified: M,
    reload: L,
    before: CachedEntry<D>,
    after: CachedEntry<D>,
    reloaded: bool,
) -> bool where M: Fn(&String) -> Option<u128>, L: Fn(&String) -> Result<(D, u128), AssetError> {
    if before.kind != kind {
        !reloaded && after == before
    } else {
        hot_reload_check(modified, reload, before, after, reloaded)
    }
}

/// The hot-reload step of an entry of the requested kind.
pub open spec fn hot_reload_check<D, M, L>(
    modified: M,
    reload: L,
    before: CachedEntry<D>,
    after: CachedEntry<D>,
    reloaded: bool,
) -> bool where M: Fn(&String) -> Option<u128>, L: Fn(&String) -> Result<(D, u128), AssetError> {
    &&& after.id == before.id
    &&& after.path == before.path
    &&& after.kind == before.kind
    &&& after.dependents == before.dependents
    &&& exists|m: Option<u128>|
        #[trigger] modified.ensures((&before.path,), m) && if m is Some && m->0 > before.load_time {
            exists|res: Result<(D, u128), AssetError>|
                #[trigger] reload.ensures((&before.path,), res) && match res {
                    Ok((data, load_time)) => reloaded && after.data == data && after.load_time == load_time,
                    Err(_) => !reloaded && after.data == before.data && after.load_time == before.load_time,
                }
        } else {
            !reloaded && after.data == before.data && after.load_time == before.load_time
        }
}

/// What every cache operation keeps: the cache stays well formed, the next
/// id never goes down, and every entry afterwards either was cached before
/// under the same id and path, or has an id at or above the earlier next id
/// (it was loaded fresh).
pub open spec fn cache_step<D>(c0: AssetCache<D>, c1: AssetCache<D>) -> bool {
    &&& c1.wf()
    &&& c0.spec_next_id() <= c1.spec_next_id()
    &&& forall|k: int|
        0 <= k < c1.spec_entries().len() ==> (#[trigger] c1.spec_entries()[k]).id >= c0.spec_next_id()
            || exists|m: int|
            0 <= m < c0.spec_entries().len() && c0.spec_entries()[m].id == c1.spec_entries()[k].id
                && c0.spec_entries()[m].path == c1.spec_entries()[k].path
}

/// A cache of assets with deduplication by path, dependency tracking,
/// garbage collection and hot reload.
pub struct AssetCache<D> {
    /// Cached assets, in load order
    entries: Vec<CachedEntry<D>>,
    /// Counter for generating unique asset IDs
    next_id: u64,
    /// Whether hot-reload file watching is enabled
    watch_for_changes: bool,
}

impl<D> AssetCache<D> {
    /// The cached assets, in load order.
    pub closed spec fn spec_entries(&self) -> Seq<CachedEntry<D>> {
        self.entries@
    }

    /// The id the next loaded asset receives.
    pub closed spec fn spec_next_id(&self) -> u64 {
        self.next_id
    }

    /// Whether hot reload is enabled.
    pub closed spec fn spec_watching(&self) -> bool {
        self.watch_for_changes
    }

    /// Position of the entry with this id, if any.
    pub open spec fn index_of_id(&self, id: AssetId) -> int {
        choose|k: int| 0 <= k < self.spec_entries().len() && #[trigger] self.spec_entries()[k].id == id
    }

    /// Whether an entry with this id is cached.
    pub open spec fn has_id(&self, id: AssetId) -> bool {
        exists|k: int| 0 <= k < self.spec_entries().len() && #[trigger] self.spec_entries()[k].id == id
    }

    /// Whether an entry with a path equal to `path` is cached.
    pub open spec fn has_path(&self, path: Seq<char>) -> bool {
        exists|k: int|
            0 <= k < self.spec_entries().len() && path_matches(#[trigger] self.spec_entries()[k].path@, path)
    }

    /// Ids are at least 1, strictly increasing in load order and below the
    /// next id; no two entries have equal paths; no dependent is listed twice.
    pub open spec fn wf(&self) -> bool {
        &&& self.spec_next_id() >= 1
        &&& forall|i: int, j: int|
            0 <= i < j < self.spec_entries().len() ==> #[trigger] self.spec_entries()[i].id
                < #[trigger] self.spec_entries()[j].id
        &&& forall|i: int|
            0 <= i < self.spec_entries().len() ==> 1 <= #[trigger] self.spec_entries()[i].id
                < self.spec_next_id()
        &&& forall|i: int|
            0 <= i < self.spec_entries().len() ==> no_duplicate_names(
                #[trigger] self.spec_entries()[i].dependents@,
            )
        &&& forall|i: int, j: int|
            0 <= i < j < self.spec_entries().len() ==> !path_matches(
                #[trigger] self.spec_entries()[i].path@,
                #[trigger] self.spec_entries()[j].path@,
            )
    }

    /// Create a new empty asset cache.
    ///
    /// Hot-reload watching is disabled by default.
    pub fn new() -> (r: Self)
        ensures
            r.wf(),
            r.spec_entries().len() == 0,
            r.spec_next_id() == 1,
            !r.spec_watching(),
    {
        AssetCache { entries: Vec::new(), next_id: 1, watch_for_changes: false }
    }

    /// Position of the entry with this id.
    fn find_id(&self, id: AssetId) -> (r: Option<usize>)
        ensures
            r is Some ==> r->0 < self.spec_entries().len() && self.spec_entries()[r->0 as int].id == id,
            r is None ==> !self.has_id(id),
    {
        let mut k: usize = 0;
        while k < self.entries.len()
            invariant
                k <= self.entries@.len(),
                forall|m: int| 0 <= m < k ==> #[trigger] self.entries@[m].id != id,
            decreases self.entries@.len() - k,
        {
            if self.entries[k].id == id {
                return Some(k);
            }
            k = k + 1;
        }
        None
    }

    /// Position of the entry whose path equals `path`.
    fn find_path(&self, path: &str) -> (r: Option<usize>)
        ensures
            r is Some ==> r->0 < self.spec_entries().len() && path_matches(
                self.spec_entries()[r->0 as int].path@,
                path@,
            ) && forall|m: int| 0 <= m < r->0 ==> !path_matches(#[trigger] self.spec_entries()[m].path@, path@),
            r is None ==> !self.has_path(path@),
    {
        let mut k: usize = 0;
        while k < self.entries.len()
            invariant
                k <= self.entries@.len(),
                forall|m: int| 0 <= m < k ==> !path_matches(#[trigger] self.entries@[m].path@, path@),
            decreases self.entries@.len() - k,
        {
            if same_path(self.entries[k].path.as_str(), path) {
                return Some(k);
            }
            k = k + 1;
        }
        None
    }

    /// Check whether an asset with a path equal to `path` is cached.
    pub fn is_cached_path(&self, path: &str) -> (r: bool)
        ensures
            r == self.has_path(path@),
    {
        match self.find_path(path) {
            Some(k) => {
                assert(path_matches(self.spec_entries()[k as int].path@, path@));
                true
            },
            None => false,
        }
    }

    /// Load an asset from the given file path, or return the cached handle if
    /// already loaded.
    ///
    /// If an asset with an equal path is cached, this returns its id (with
    /// the path as given) without calling `loader`. Otherwise it calls
    /// `loader(path)` once; on success the data and its load time are cached
    /// under the next id, as an asset of kind `kind`; on failure the
    /// loader's error is returned and the cache is unchanged.
    pub fn load<F: FnOnce(&str) -> Result<(D, u128), AssetError>>(&mut self, path: &str, kind: TypeId, loader: F) -> (r: Result<AssetHandle, AssetError>)
        requires
            old(self).wf(),
            old(self).has_path(path@) || old(self).spec_next_id() < u64::MAX,
            loader.requires((path,)),
        ensures
            final(self).wf(),
            cache_step(*old(self), *final(self)),
            final(self).spec_watching() == old(self).spec_watching(),
            old(self).has_path(path@) ==> exists|k: int|
                0 <= k < old(self).spec_entries().len() && path_matches(
                    #[trigger] old(self).spec_entries()[k].path@,
                    path@,
                ) && (forall|m: int| 0 <= m < k ==> !path_matches(
                    #[trigger] old(self).spec_entries()[m].path@,
                    path@,
                )) && r is Ok && r->Ok_0.spec_id() == old(self).spec_entries()[k].id
                    && r->Ok_0.spec_path() == path@,
            old(self).has_path(path@) ==> final(self).spec_entries() == old(self).spec_entries()
                && final(self).spec_next_id() == old(self).spec_next_id(),
            r is Ok ==> exists|k: int|
                0 <= k < final(self).spec_entries().len() && path_matches(
                    #[trigger] final(self).spec_entries()[k].path@,
                    path@,
                ) && (forall|m: int| 0 <= m < k ==> !path_matches(
                    #[trigger] final(self).spec_entries()[m].path@,
                    path@,
                )) && final(self).spec_entries()[k].id == r->Ok_0.spec_id(),
            !old(self).has_path(path@) ==> exists|res: Result<(D, u128), AssetError>|
                #[trigger] loader.ensures((path,), res) && match res {
                    Err(e) => {
                        &&& r == Err::<AssetHandle, AssetError>(e)
                        &&& final(self).spec_entries() == old(self).spec_entries()
                        &&& final(self).spec_next_id() == old(self).spec_next_id()
                    },
                    Ok((data, load_time)) => {
                        &&& r is Ok
                        &&& r->Ok_0.spec_id() == old(self).spec_next_id()
                        &&& r->Ok_0.spec_path() == path@
                        &&& final(self).spec_next_id() == old(self).spec_next_id() + 1
                        &&& final(self).spec_entries().len() == old(self).spec_entries().len() + 1
                        &&& final(self).spec_entries().drop_last() == old(self).spec_entries()
                        &&& final(self).spec_entries().last().id == old(self).spec_next_id()
                        &&& final(self).spec_entries().last().path@ == path@
                        &&& final(self).spec_entries().last().kind == kind
                        &&& final(self).spec_entries().last().data == data
                        &&& final(self).spec_entries().last().load_time == load_time
                        &&& final(self).spec_entries().last().dependents@.len() == 0
                    },
                },
    {
        match self.find_path(path) {
            Some(k) => {
                let id = self.entries[k].id;
                assert(path_matches(self.spec_entries()[k as int].path@, path@));
                Ok(AssetHandle { id, path: String::from_str(path) })
            },
            None => {
                let res = loader(path);
                match res {
                    Err(e) => Err(e),
                    Ok((data, load_time)) => {
                        let id = self.next_id;
                        self.next_id = self.next_id + 1;
                        let ghost before = self.entries@;
                        assert(before == old(self).spec_entries());
                        assert(forall|i: int| 0 <= i < before.len() ==> 1 <= #[trigger] before[i].id < id);
                        self.entries.push(
                            CachedEntry {
                                id,
                                path: String::from_str(path),
                                kind,
                                data,
                                load_time,
                                dependents: Vec::new(),
                            },
                        );
                        proof {
                            assert(self.entries@.drop_last() == before);
                            assert forall|i: int, j: int|
                                0 <= i < j < self.entries@.len() implies #[trigger] self.entries@[i].id
                                    < #[trigger] self.entries@[j].id by {
                                assert(self.entries@[i] == before[i]);
                                if j < before.len() {
                                    assert(self.entries@[j] == before[j]);
                                }
                            }
                            assert forall|i: int| 0 <= i < self.entries@.len() implies 1
                                <= #[trigger] self.entries@[i].id < self.next_id by {
                                if i < before.len() {
                                    assert(self.entries@[i] == before[i]);
                                }
                            }
                            assert forall|i: int| 0 <= i < self.entries@.len() implies no_duplicate_names(
                                #[trigger] self.entries@[i].dependents@,
                            ) by {
                                if i < before.len() {
                                    assert(self.entries@[i] == before[i]);
                                }
                            }
                            let last = before.len() as int;
                            assert(path_matches(self.entries@[last].path@, path@));
                            assert forall|i: int, j: int|
                                0 <= i < j < self.entries@.len() implies !path_matches(
                                    #[trigger] self.entries@[i].path@,
                                    #[trigger] self.entries@[j].path@,
                                ) by {
                                assert(self.entries@[i] == before[i]);
                                if j < before.len() {
                                    assert(self.entries@[j] == before[j]);
                                } else {
                                    assert(!path_matches(before[i].path@, path@));
                                }
                            }
                            assert forall|m: int| 0 <= m < last implies !path_matches(
                                #[trigger] self.entries@[m].path@,
                                path@,
                            ) by {
                                assert(self.entries@[m] == before[m]);
                            }
                            assert(path_matches(self.spec_entries()[last].path@, path@));
                        }
                        Ok(AssetHandle { id, path: String::from_str(path) })
                    },
                }
            },
        }
    }

    /// Retrieve the data of a cached asset of kind `kind` by its handle.
    ///
    /// Returns `None` if the handle is invalid (asset was removed) or the
    /// asset is of another kind.
    pub fn get(&self, handle: &AssetHandle, kind: TypeId) -> (r: Option<&D>)
        requires
            self.wf(),
        ensures
            r is Some <==> self.has_id(handle.spec_id()) && self.spec_entries()[self.index_of_id(
                handle.spec_id(),
            )].kind == kind,
            r is Some ==> *r->0 == self.spec_entries()[self.index_of_id(handle.spec_id())].data,
    {
        match self.find_id(handle.id) {
            Some(k) => {
                proof { self.lemma_index_of_id(handle.id, k as int); }
                if same_type(&self.entries[k].kind, &kind) {
                    Some(&self.entries[k].data)
                } else {
                    None
                }
            },
            None => None,
        }
    }

    /// The entry position an id maps to is the unique one with that id.
    proof fn lemma_index_of_id(&self, id: AssetId, k: int)
        requires
            self.wf(),
            0 <= k < self.spec_entries().len(),
            self.spec_entries()[k].id == id,
        ensures
            self.index_of_id(id) == k,
    {
        let j = self.index_of_id(id);
        if j < k {
            assert(self.spec_entries()[j].id < self.spec_entries()[k].id);
        } else if j > k {
            assert(self.spec_entries()[k].id < self.spec_entries()[j].id);
        }
    }

    /// Add a named dependent (e.g., a scene name) to an asset.
    ///
    /// The garbage collector will not remove assets that have dependents.
    /// Adding a name that is already listed, or adding to an invalid handle,
    /// changes nothing.
    pub fn add_dependent(&mut self, handle: &AssetHandle, scene_name: &str)
        requires
            old(self).wf(),
        ensures
            final(self).wf(),
            cache_step(*old(self), *final(self)),
            final(self).spec_next_id() == old(self).spec_next_id(),
            final(self).spec_watching() == old(self).spec_watching(),
            final(self).spec_entries().len() == old(self).spec_entries().len(),
            forall|k: int|
                0 <= k < old(self).spec_entries().len() && old(self).spec_entries()[k].id
                    != handle.spec_id() ==> #[trigger] final(self).spec_entries()[k] == old(
                    self,
                ).spec_entries()[k],
            old(self).has_id(handle.spec_id()) ==> ({
                let k = old(self).index_of_id(handle.spec_id());
                let before = old(self).spec_entries()[k];
                let after = final(self).spec_entries()[k];
                &&& after.id == before.id
                &&& after.path == before.path
                &&& after.kind == before.kind
                &&& after.data == before.data
                &&& after.load_time == before.load_time
                &&& (exists|i: int| 0 <= i < before.dependents@.len() && #[trigger] before.dependents@[i]@ == scene_name@)
                    ==> after.dependents@ == before.dependents@
                &&& !(exists|i: int| 0 <= i < before.dependents@.len() && #[trigger] before.dependents@[i]@ == scene_name@)
                    ==> after.dependents@.len() == before.dependents@.len() + 1
                    && after.dependents@.drop_last() == before.dependents@
                    && after.dependents@.last()@ == scene_name@
            }),
            !old(self).has_id(handle.spec_id()) ==> final(self).spec_entries() == old(self).spec_entries(),
    {
        match self.find_id(handle.id) {
            None => {},
            Some(k) => {
                proof { self.lemma_index_of_id(handle.id, k as int); }
                let ghost before = self.entries@;
                let mut entry = self.entries.remove(k);
                let ghost old_deps = entry.dependents@;
                let mut listed = false;
                let mut i: usize = 0;
                while i < entry.dependents.len()
                    invariant
                        entry.dependents@ == old_deps,
                        i <= old_deps.len(),
                        listed <==> exists|m: int| 0 <= m < i && #[trigger] old_deps[m]@ == scene_name@,
                    decreases old_deps.len() - i,
                {
                    if names_equal(&entry.dependents[i], scene_name) {
                        listed = true;
                    }
                    i = i + 1;
                }
                if !listed {
                    entry.dependents.push(String::from_str(scene_name));
                    proof {
                        assert(entry.dependents@.drop_last() == old_deps);
                        assert forall|a: int, b: int| 0 <= a < b < entry.dependents@.len() implies
                            #[trigger] entry.dependents@[a]@ != #[trigger] entry.dependents@[b]@ by {
                            assert(entry.dependents@[a] == old_deps[a]);
                            if b < old_deps.len() {
                                assert(entry.dependents@[b] == old_deps[b]);
                            }
                        }
                    }
                }
                self.entries.insert(k, entry);
                proof {
                    assert forall|m: int| 0 <= m < self.entries@.len() && m != k implies #[trigger] self.entries@[m]
                        == before[m] by {}
                    assert forall|a: int, b: int|
                        0 <= a < b < self.entries@.len() implies #[trigger] self.entries@[a].id
                            < #[trigger] self.entries@[b].id by {
                        assert(self.entries@[a].id == before[a].id);
                        assert(self.entries@[b].id == before[b].id);
                    }
                    assert forall|a: int| 0 <= a < self.entries@.len() implies 1
                        <= #[trigger] self.entries@[a].id < self.next_id by {
                        assert(self.entries@[a].id == before[a].id);
                    }
                    assert forall|a: int| 0 <= a < self.entries@.len() implies no_duplicate_names(
                        #[trigger] self.entries@[a].dependents@,
                    ) by {
                        if a != k {
                            assert(self.entries@[a] == before[a]);
                        }
                    }
                    assert forall|a: int, b: int|
                        0 <= a < b < self.entries@.len() implies !path_matches(
                            #[trigger] self.entries@[a].path@,
                            #[trigger] self.entries@[b].path@,
                        ) by {
                        assert(self.entries@[a].path == before[a].path);
                        assert(self.entries@[b].path == before[b].path);
                    }
                }
            },
        }
    }

    /// Remove a named dependent from an asset.
    ///
    /// Call this when a scene is unloaded to release its claim on the asset.
    /// If no dependents remain, the asset becomes eligible for garbage collection.
    pub fn remove_dependent(&mut self, handle: &AssetHandle, scene_name: &str)
        requires
            old(self).wf(),
        ensures
            final(self).wf(),
            cache_step(*old(self), *final(self)),
            final(self).spec_next_id() == old(self).spec_next_id(),
            final(self).spec_watching() == old(self).spec_watching(),
            final(self).spec_entries().len() == old(self).spec_entries().len(),
            forall|k: int|
                0 <= k < old(self).spec_entries().len() && old(self).spec_entries()[k].id
                    != handle.spec_id() ==> #[trigger] final(self).spec_entries()[k] == old(
                    self,
                ).spec_entries()[k],
            old(self).has_id(handle.spec_id()) ==> ({
                let k = old(self).index_of_id(handle.spec_id());
                let before = old(self).spec_entries()[k];
                let after = final(self).spec_entries()[k];
                &&& after.id == before.id
                &&& after.path == before.path
                &&& after.kind == before.kind
                &&& after.data == before.data
                &&& after.load_time == before.load_time
                &&& forall|i: int| 0 <= i < after.dependents@.len() ==> #[trigger] after.dependents@[i]@ != scene_name@
                &&& (exists|i: int| 0 <= i < before.dependents@.len() && #[trigger] before.dependents@[i]@ == scene_name@
                    && after.dependents@ == before.dependents@.remove(i))
                    || (after.dependents@ == before.dependents@
                    && forall|i: int| 0 <= i < before.dependents@.len() ==> #[trigger] before.dependents@[i]@ != scene_name@)
            }),
            !old(self).has_id(handle.spec_id()) ==> final(self).spec_entries() == old(self).spec_entries(),
    {
        match self.find_id(handle.id) {
            None => {},
            Some(k) => {
                proof { self.lemma_index_of_id(handle.id, k as int); }
                let ghost before = self.entries@;
                let mut entry = self.entries.remove(k);
                let ghost old_deps = entry.dependents@;
                let mut found: Option<usize> = None;
                let mut i: usize = 0;
                while i < entry.dependents.len()
                    invariant
                        entry.dependents@ == old_deps,
                        i <= old_deps.len(),
                        found is None ==> forall|m: int| 0 <= m < i ==> #[trigger] old_deps[m]@ != scene_name@,
                        found is Some ==> found->0 < old_deps.len() && old_deps[found->0 as int]@ == scene_name@,
                    decreases old_deps.len() - i,
                {
                    if found.is_none() && names_equal(&entry.dependents[i], scene_name) {
                        found = Some(i);
                    }
                    i = i + 1;
                }
                match found {
                    Some(d) => {
                        let _ = entry.dependents.remove(d);
                        proof {
                            assert(entry.dependents@ == old_deps.remove(d as int));
                            assert forall|a: int| 0 <= a < entry.dependents@.len() implies
                                #[trigger] entry.dependents@[a]@ != scene_name@ by {
                                let aa = if a < d { a } else { a + 1 };
                                assert(entry.dependents@[a] == old_deps[aa]);
                                assert(aa != d);
                            }
                            assert forall|a: int, b: int| 0 <= a < b < entry.dependents@.len() implies
                                #[trigger] entry.dependents@[a]@ != #[trigger] entry.dependents@[b]@ by {
                                let aa = if a < d { a } else { a + 1 };
                                let bb = if b < d { b } else { b + 1 };
                                assert(entry.dependents@[a] == old_deps[aa]);
                                assert(entry.dependents@[b] == old_deps[bb]);
                            }
                        }
                    },
                    None => {},
                }
                self.entries.insert(k, entry);
                proof {
                    assert forall|m: int| 0 <= m < self.entries@.len() && m != k implies #[trigger] self.entries@[m]
                        == before[m] by {}
                    assert forall|a: int, b: int|
                        0 <= a < b < self.entries@.len() implies #[trigger] self.entries@[a].id
                            < #[trigger] self.entries@[b].id by {
                        assert(self.entries@[a].id == before[a].id);
                        assert(self.entries@[b].id == before[b].id);
                    }
                    assert forall|a: int| 0 <= a < self.entries@.len() implies 1
                        <= #[trigger] self.entries@[a].id < self.next_id by {
                        assert(self.entries@[a].id == before[a].id);
                    }
                    assert forall|a: int| 0 <= a < self.entries@.len() implies no_duplicate_names(
                        #[trigger] self.entries@[a].dependents@,
                    ) by {
                        if a != k {
                            assert(self.entries@[a] == before[a]);
                        }
                    }
                    assert forall|a: int, b: int|
                        0 <= a < b < self.entries@.len() implies !path_matches(
                            #[trigger] self.entries@[a].path@,
                            #[trigger] self.entries@[b].path@,
                        ) by {
                        assert(self.entries@[a].path == before[a].path);
                        assert(self.entries@[b].path == before[b].path);
                    }
                }
            },
        }
    }

    /// Enable or disable hot-reload file change watching.
    pub fn set_watch_for_changes(&mut self, enabled: bool)
        requires
            old(self).wf(),
        ensures
            final(self).wf(),
            cache_step(*old(self), *final(self)),
            final(self).spec_watching() == enabled,
            final(self).spec_entries() == old(self).spec_entries(),
            final(self).spec_next_id() == old(self).spec_next_id(),
    {
        self.watch_for_changes = enabled;
        assert(self.spec_entries() == old(self).spec_entries());
    }

    /// Check whether hot-reload watching is enabled.
    pub fn is_watching_for_changes(&self) -> (r: bool)
        ensures
            r == self.spec_watching(),
    {
        self.watch_for_changes
    }

    /// Check for file changes and reload modified assets.
    ///
    /// Only assets of kind `kind` are checked; the others are left as they
    /// are and neither callback is asked about them. For every cached asset
    /// of that kind in load order, asks `modified` for the file's
    /// modification time (`None` if it cannot be read); if that is later
    /// than the asset's load time, calls `reload` and, on success, replaces
    /// the data and load time. Returns handles to all assets that were
    /// reloaded, in load order.
    ///
    /// This is a no-op if watching has not been enabled with
    /// [`set_watch_for_changes`](Self::set_watch_for_changes).
    pub fn check_hot_reload<M, L>(&mut self, kind: TypeId, modified: M, reload: L) -> (reloaded: Vec<AssetHandle>) where
        M: Fn(&String) -> Option<u128>,
        L: Fn(&String) -> Result<(D, u128), AssetError>,

        requires
            old(self).wf(),
            forall|p: &String| #[trigger] modified.requires((p,)),
            forall|p: &String| #[trigger] reload.requires((p,)),
        ensures
            final(self).wf(),
            cache_step(*old(self), *final(self)),
            final(self).spec_next_id() == old(self).spec_next_id(),
            final(self).spec_watching() == old(self).spec_watching(),
            !old(self).spec_watching() ==> reloaded@.len() == 0 && final(self).spec_entries()
                == old(self).spec_entries(),
            old(self).spec_watching() ==> exists|flags: Seq<bool>|
                {
                    &&& flags.len() == old(self).spec_entries().len()
                    &&& final(self).spec_entries().len() == old(self).spec_entries().len()
                    &&& forall|k: int|
                        0 <= k < flags.len() ==> hot_reload_step(
                            kind,
                            modified,
                            reload,
                            old(self).spec_entries()[k],
                            final(self).spec_entries()[k],
                            #[trigger] flags[k],
                        )
                    &&& reloaded@.map_values(|h: AssetHandle| h.spec_id()) == flagged_ids(
                        old(self).spec_entries(),
                        flags,
                    )
                    &&& reloaded@.map_values(|h: AssetHandle| h.spec_path()) == flagged_paths(
                        old(self).spec_entries(),
                        flags,
                    )
                },
    {
        let mut reloaded: Vec<AssetHandle> = Vec::new();
        if !self.watch_for_changes {
            proof {
                assert forall|k: int| 0 <= k < self.spec_entries().len() implies (#[trigger] self.spec_entries()[k]).id
                    >= old(self).spec_next_id() || exists|m: int|
                    0 <= m < old(self).spec_entries().len() && old(self).spec_entries()[m].id
                        == self.spec_entries()[k].id && old(self).spec_entries()[m].path
                        == self.spec_entries()[k].path by {
                    assert(old(self).spec_entries()[k] == self.spec_entries()[k]);
                }
            }
            return reloaded;
        }
        let ghost all = self.entries@;
        let mut pending: Vec<CachedEntry<D>> = Vec::new();
        std::mem::swap(&mut self.entries, &mut pending);
        let mut done: Vec<CachedEntry<D>> = Vec::new();
        let ghost mut flags: Seq<bool> = Seq::empty();
        while pending.len() > 0
            invariant
                done@.len() + pending@.len() == all.len(),
                pending@ == all.skip(done@.len() as int),
                flags.len() == done@.len(),
                forall|p: &String| #[trigger] modified.requires((p,)),
                forall|p: &String| #[trigger] reload.requires((p,)),
                forall|k: int|
                    0 <= k < done@.len() ==> hot_reload_step(kind, modified, reload, all[k], done@[k], #[trigger] flags[k]),
                reloaded@.map_values(|h: AssetHandle| h.spec_id()) == flagged_ids(all.take(done@.len() as int), flags),
                reloaded@.map_values(|h: AssetHandle| h.spec_path()) == flagged_paths(all.take(done@.len() as int), flags),
            decreases pending@.len(),
        {
            let ghost n = done@.len() as int;
            let ghost ids_before = reloaded@.map_values(|h: AssetHandle| h.spec_id());
            let ghost paths_before = reloaded@.map_values(|h: AssetHandle| h.spec_path());
            let mut entry = pending.remove(0);
            assert(entry == all[n]);
            let ghost original = entry;
            let mut flag = false;
            if same_type(&entry.kind, &kind) {
                let m = modified(&entry.path);
                match m {
                    Some(t) => {
                        if t > entry.load_time {
                            let res = reload(&entry.path);
                            match res {
                                Ok((data, load_time)) => {
                                    entry.data = data;
                                    entry.load_time = load_time;
                                    let handle = AssetHandle { id: entry.id, path: entry.path.clone() };
                                    reloaded.push(handle);
                                    flag = true;
                                },
                                Err(_) => {},
                            }
                        }
                    },
                    None => {},
                }
            }
            assert(hot_reload_step(kind, modified, reload, original, entry, flag));
            done.push(entry);
            proof {
                let fl = flags;
                flags = flags.push(flag);
                assert(all.take(n + 1).drop_last() == all.take(n));
                assert(flags.drop_last() == fl);
                assert(pending@ == all.skip(n + 1));
                assert forall|k: int| 0 <= k < done@.len() implies hot_reload_step(
                    kind,
                    modified,
                    reload,
                    all[k],
                    done@[k],
                    #[trigger] flags[k],
                ) by {
                    if k < n {
                        assert(done@[k] == done@.drop_last()[k]);
                        assert(flags[k] == fl[k]);
                    }
                }
                if flag {
                    assert(reloaded@.map_values(|h: AssetHandle| h.spec_id()) == ids_before.push(all[n].id));
                    assert(reloaded@.map_values(|h: AssetHandle| h.spec_path()) == paths_before.push(all[n].path@));
                } else {
                    assert(reloaded@.map_values(|h: AssetHandle| h.spec_id()) == ids_before);
                    assert(reloaded@.map_values(|h: AssetHandle| h.spec_path()) == paths_before);
                }
            }
        }
        proof {
            assert(all.take(all.len() as int) == all);
            assert(all == old(self).spec_entries());
            assert forall|i: int, j: int| 0 <= i < j < done@.len() implies #[trigger] done@[i].id < #[trigger] done@[j].id by {
                assert(hot_reload_step(kind, modified, reload, all[i], done@[i], flags[i]));
                assert(hot_reload_step(kind, modified, reload, all[j], done@[j], flags[j]));
            }
            assert forall|i: int| 0 <= i < done@.len() implies 1 <= #[trigger] done@[i].id < self.next_id by {
                assert(hot_reload_step(kind, modified, reload, all[i], done@[i], flags[i]));
            }
            assert forall|i: int| 0 <= i < done@.len() implies no_duplicate_names(#[trigger] done@[i].dependents@) by {
                assert(hot_reload_step(kind, modified, reload, all[i], done@[i], flags[i]));
            }
            assert forall|i: int, j: int|
                0 <= i < j < done@.len() implies !path_matches(
                    #[trigger] done@[i].path@,
                    #[trigger] done@[j].path@,
                ) by {
                assert(hot_reload_step(kind, modified, reload, all[i], done@[i], flags[i]));
                assert(hot_reload_step(kind, modified, reload, all[j], done@[j], flags[j]));
            }
        }
        self.entries = done;
        proof {
            assert forall|k: int| 0 <= k < self.spec_entries().len() implies (#[trigger] self.spec_entries()[k]).id
                >= old(self).spec_next_id() || exists|m: int|
                0 <= m < old(self).spec_entries().len() && old(self).spec_entries()[m].id
                    == self.spec_entries()[k].id && old(self).spec_entries()[m].path
                    == self.spec_entries()[k].path by {
                assert(hot_reload_step(kind, modified, reload, all[k], done@[k], flags[k]));
                assert(old(self).spec_entries()[k] == all[k]);
            }
        }
        reloaded
    }

    /// Run garbage collection, removing assets with no dependents.
    ///
    /// Returns the number of assets that were removed.
    pub fn gc(&mut self) -> (removed: usize)
        requires
            old(self).wf(),
        ensures
            final(self).wf(),
            cache_step(*old(self), *final(self)),
            final(self).spec_entries() == entries_with_dependents(old(self).spec_entries()),
            removed == old(self).spec_entries().len() - final(self).spec_entries().len(),
            final(self).spec_next_id() == old(self).spec_next_id(),
            final(self).spec_watching() == old(self).spec_watching(),
    {
        let ghost all = self.entries@;
        let total: usize = self.entries.len();
        let mut pending: Vec<CachedEntry<D>> = Vec::new();
        std::mem::swap(&mut self.entries, &mut pending);
        // `pending` is processed from the back, so kept entries are collected
        // in reverse and put back in order afterwards.
        let mut kept_rev: Vec<CachedEntry<D>> = Vec::new();
        let mut removed: usize = 0;
        while pending.len() > 0
            invariant
                pending@ == all.take(pending@.len() as int),
                pending@.len() <= all.len(),
                entries_with_dependents(all) == entries_with_dependents(pending@) + kept_rev@.reverse(),
                removed + kept_rev@.len() + pending@.len() == all.len(),
                all.len() == total,
            decreases pending@.len(),
        {
            let ghost p = pending@;
            let entry = pending.pop().unwrap();
            proof {
                assert(p.drop_last() == pending@);
                assert(all.take(pending@.len() as int) == p.drop_last());
            }
            if entry.dependents.len() > 0 {
                kept_rev.push(entry);
                proof {
                    assert(kept_rev@.reverse() == seq![p.last()] + kept_rev@.drop_last().reverse());
                }
            } else {
                removed = removed + 1;
            }
        }
        let mut kept: Vec<CachedEntry<D>> = Vec::new();
        while kept_rev.len() > 0
            invariant
                entries_with_dependents(all) == kept@ + kept_rev@.reverse(),
            decreases kept_rev@.len(),
        {
            let ghost r = kept_rev@;
            let entry = kept_rev.pop().unwrap();
            kept.push(entry);
            proof {
                assert(r.reverse() == seq![r.last()] + kept_rev@.reverse());
            }
        }
        proof {
            assert(kept@ == entries_with_dependents(all));
            assert(all == old(self).spec_entries());
            lemma_entries_with_dependents_sub(all);
            let f = entries_with_dependents(all);
            assert forall|i: int, j: int| 0 <= i < j < f.len() implies #[trigger] f[i].id < #[trigger] f[j].id by {}
            assert forall|i: int| 0 <= i < f.len() implies 1 <= #[trigger] f[i].id < self.next_id by {
                let m = choose|m: int| 0 <= m < all.len() && all[m] == f[i];
                assert(all[m].id == f[i].id);
            }
            assert forall|i: int| 0 <= i < f.len() implies no_duplicate_names(#[trigger] f[i].dependents@) by {
                let m = choose|m: int| 0 <= m < all.len() && all[m] == f[i];
                assert(all[m] == f[i]);
            }
            assert forall|i: int, j: int| 0 <= i < j < f.len() implies !path_matches(
                #[trigger] f[i].path@,
                #[trigger] f[j].path@,
            ) by {
                let a = choose|a: int| 0 <= a < all.len() && all[a] == f[i];
                let b = choose|b: int| 0 <= b < all.len() && all[b] == f[j];
                assert(f[i].id < f[j].id);
                if a > b {
                    assert(all[b].id < all[a].id);
                }
                assert(a < b);
                assert(!path_matches(all[a].path@, all[b].path@));
            }
        }
        self.entries = kept;
        removed
    }

    /// The id the next newly loaded asset will get.
    pub fn next_id(&self) -> (r: AssetId)
        ensures
            r == self.spec_next_id(),
    {
        self.next_id
    }

    /// Get the number of assets currently in the cache.
    pub fn asset_count(&self) -> (r: usize)
        ensures
            r == self.spec_entries().len(),
    {
        self.entries.len()
    }

    /// Get the file path associated with an asset handle.
    pub fn handle_path<'a>(&self, handle: &'a AssetHandle) -> (r: &'a str)
        ensures
            r@ == handle.spec_path(),
    {
        handle.path()
    }

    /// Check if an asset with the given handle is still in the cache.
    pub fn contains(&self, handle: &AssetHandle) -> (r: bool)
        ensures
            r == self.has_id(handle.spec_id()),
    {
        self.find_id(handle.id).is_some()
    }

    /// Get the list of dependents for an asset.
    ///
    /// Returns `None` if the handle is invalid.
    pub fn dependents(&self, handle: &AssetHandle) -> (r: Option<&[String]>)
        requires
            self.wf(),
        ensures
            self.has_id(handle.spec_id()) <==> r is Some,
            r is Some ==> r->0@ == self.spec_entries()[self.index_of_id(handle.spec_id())].dependents@,
    {
        match self.find_id(handle.id) {
            Some(k) => {
                proof { self.lemma_index_of_id(handle.id, k as int); }
                Some(self.entries[k].dependents.as_slice())
            },
            None => None,
        }
    }
}

/// The surviving entries are a subsequence of the original ones, so the
/// cache invariant carries over.
pub proof fn lemma_entries_with_dependents_sub<D>(es: Seq<CachedEntry<D>>)
    requires
        forall|i: int, j: int| 0 <= i < j < es.len() ==> #[trigger] es[i].id < #[trigger] es[j].id,
    ensures
        forall|i: int, j: int|
            0 <= i < j < entries_with_dependents(es).len() ==> #[trigger] entries_with_dependents(es)[i].id
                < #[trigger] entries_with_dependents(es)[j].id,
        entries_with_dependents(es).len() <= es.len(),
        forall|k: int|
            0 <= k < entries_with_dependents(es).len() ==> es.contains(
                #[trigger] entries_with_dependents(es)[k],
            ),
        forall|k: int|
            0 <= k < entries_with_dependents(es).len() ==> #[trigger] entries_with_dependents(es)[k].dependents@.len() > 0,
    decreases es.len(),
{
    if es.len() > 0 {
        lemma_entries_with_dependents_sub(es.drop_last());
        let rest = entries_with_dependents(es.drop_last());
        assert forall|k: int| 0 <= k < rest.len() implies es.contains(#[trigger] rest[k]) by {
            let m = choose|m: int| 0 <= m < es.drop_last().len() && es.drop_last()[m] == rest[k];
            assert(es[m] == rest[k]);
        }
        assert(es[es.len() - 1] == es.last());
        if es.last().dependents@.len() > 0 {
            let f = rest.push(es.last());
            assert forall|i: int, j: int| 0 <= i < j < f.len() implies #[trigger] f[i].id < #[trigger] f[j].id by {
                if j == f.len() - 1 {
                    let m = choose|m: int| 0 <= m < es.len() && es[m] == rest[i];
                    assert(es.drop_last().contains(rest[i]));
                    let mm = choose|mm: int| 0 <= mm < es.drop_last().len() && es.drop_last()[mm] == rest[i];
                    assert(es[mm] == rest[i]);
                }
            }
        }
    }
}

/// Garbage collection keeps an entry exactly when it has a dependent, so
/// a second collection right after the first removes nothing.
pub proof fn law_gc_keeps_exactly_entries_with_dependents<D>(es: Seq<CachedEntry<D>>)
    ensures
        forall|e: CachedEntry<D>|
            #[trigger] entries_with_dependents(es).contains(e) <==> es.contains(e) && e.dependents@.len() > 0,
        entries_with_dependents(entries_with_dependents(es)) == entries_with_dependents(es),
    decreases es.len(),
{
    if es.len() > 0 {
        let init = es.drop_last();
        law_gc_keeps_exactly_entries_with_dependents(init);
        let rest = entries_with_dependents(init);
        assert(init.push(es.last()) =~= es);
        assert forall|e: CachedEntry<D>|
            #[trigger] entries_with_dependents(es).contains(e) <==> es.contains(e) && e.dependents@.len() > 0 by {
            if es.contains(e) && e != es.last() {
                let i = choose|i: int| 0 <= i < es.len() && es[i] == e;
                assert(init[i] == e);
            }
            if init.contains(e) {
                let i = choose|i: int| 0 <= i < init.len() && init[i] == e;
                assert(es[i] == e);
            }
            if es.last().dependents@.len() > 0 {
                let f = rest.push(es.last());
                if f.contains(e) && e != es.last() {
                    let i = choose|i: int| 0 <= i < f.len() && f[i] == e;
                    assert(rest[i] == e);
                }
                if rest.contains(e) {
                    let i = choose|i: int| 0 <= i < rest.len() && rest[i] == e;
                    assert(f[i] == e);
                }
                if e == es.last() {
                    assert(f[rest.len() as int] == e);
                }
                assert(es[es.len() - 1] == es.last());
            } else {
                assert(es[es.len() - 1] == es.last());
            }
        }
        if es.last().dependents@.len() > 0 {
            let f = rest.push(es.last());
            assert(f.drop_last() =~= rest);
            assert(f.last() == es.last());
        }
    }
}

/// Loading a cached asset's own path again finds that asset: it is the
/// first entry whose path matches (no earlier entry matches it), so `load`
/// returns its id and leaves the cache unchanged. Each cached path belongs
/// to exactly one id.
pub proof fn law_repeat_load_finds_the_cached_entry<D>(c: AssetCache<D>, k: int)
    requires
        c.wf(),
        0 <= k < c.spec_entries().len(),
    ensures
        path_matches(c.spec_entries()[k].path@, c.spec_entries()[k].path@),
        forall|m: int|
            0 <= m < k ==> !path_matches(#[trigger] c.spec_entries()[m].path@, c.spec_entries()[k].path@),
        c.has_path(c.spec_entries()[k].path@),
{
    assert forall|m: int|
        0 <= m < k implies !path_matches(#[trigger] c.spec_entries()[m].path@, c.spec_entries()[k].path@) by {}
}

/// The id a fresh load hands out (the next id) is nonzero and belongs to no
/// cached asset; as no operation lowers the next id, ids are never reused.
pub proof fn law_fresh_ids_are_unused<D>(c: AssetCache<D>)
    requires
        c.wf(),
    ensures
        c.spec_next_id() >= 1,
        forall|k: int| 0 <= k < c.spec_entries().len() ==> #[trigger] c.spec_entries()[k].id != c.spec_next_id(),
        !c.has_id(c.spec_next_id()),
{
}

/// Over any run of cache operations (each step related by `cache_step`,
/// which every operation ensures): the cache stays well formed, so each
/// cached path has exactly one id at every point; the next id never goes
/// down; and an id that was already handed out and is no longer cached
/// (for instance, removed by garbage collection) never comes back.
pub proof fn law_asset_ids_never_reused<D>(states: Seq<AssetCache<D>>, i: int, j: int, id: AssetId)
    requires
        states.len() > 0,
        states[0].wf(),
        forall|t: int| 0 <= t < states.len() - 1 ==> cache_step(#[trigger] states[t], states[t + 1]),
        0 <= i <= j < states.len(),
        id < states[i].spec_next_id(),
        !states[i].has_id(id),
    ensures
        states[j].wf(),
        states[i].spec_next_id() <= states[j].spec_next_id(),
        !states[j].has_id(id),
    decreases j - i,
{
    if j > i {
        law_asset_ids_never_reused(states, i, j - 1, id);
        assert(cache_step(states[j - 1], states[j]));
        if states[j].has_id(id) {
            let k = choose|k: int| 0 <= k < states[j].spec_entries().len() && #[trigger] states[j].spec_entries()[k].id == id;
            assert(cache_step(states[j - 1], states[j]));
            assert(states[j].spec_entries()[k].id < states[j - 1].spec_next_id());
            let prev = states[j - 1].spec_entries();
            let m = choose|m: int|
                0 <= m < prev.len() && (#[trigger] prev[m]).id == states[j].spec_entries()[k].id
                    && prev[m].path == states[j].spec_entries()[k].path;
            assert(prev[m].id == id);
        }
    } else if j > 0 {
        assert(cache_step(states[j - 1], states[j]));
    }
}

/// Adding a dependent that was not listed and then removing it restores
/// the list: the added name can only be found at the end.
pub proof fn law_remove_dependent_undoes_add(deps: Seq<String>, added: String, i: int)
    requires
        forall|j: int| 0 <= j < deps.len() ==> #[trigger] deps[j]@ != added@,
        0 <= i < deps.len() + 1,
        deps.push(added)[i]@ == added@,
    ensures
        i == deps.len(),
        deps.push(added).remove(i) == deps,
{
    if i < deps.len() {
        assert(deps.push(added)[i] == deps[i]);
    }
    assert(deps.push(added).remove(i) =~= deps);
}

impl<D> Default for AssetCache<D> {
    fn default() -> (r: Self)
        ensures
            r.wf(),
            r.spec_entries().len() == 0,
            r.spec_next_id() == 1,
            !r.spec_watching(),
    {
        Self::new()
    }
}

} // verus!
