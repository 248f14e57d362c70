//! Entity components with plain data: names, tags and dirty flags.

use crate::asset_cache::names_equal;
use vstd::prelude::*;

verus! {

// === Name Component ===

/// Entity name for lookup by name
#[derive(Clone, Debug)]
pub struct Name(pub String);

impl Name {
    /// Create a name component.
    pub fn new(name: &str) -> (r: Self)
        ensures
            r.0@ == name@,
    {
        Name(String::from_str(name))
    }

    /// The name as text (what `Display` prints).
    pub fn to_string(&self) -> (r: String)
        ensures
            r@ == self.0@,
    {
        self.0.clone()
    }
}

// === Tags Component ===

/// Tags for categorization and filtering
///
/// Tags like "dynamic", "static", "enemy" allow querying entities by category.
/// Each tag is stored once, in insertion order.
#[derive(Clone, Debug)]
pub struct Tags {
    tags: Vec<String>,
}

/// The set of tag strings.
pub open spec fn tag_set(tags: Seq<String>) -> Set<Seq<char>> {
    Set::new(|t: Seq<char>| exists|i: int| 0 <= i < tags.len() && #[trigger] tags[i]@ == t)
}

impl Tags {
    /// The tags, in insertion order.
    pub closed spec fn spec_tags(&self) -> Seq<String> {
        self.tags@
    }

    /// The tags as a set of strings.
    pub open spec fn view_set(&self) -> Set<Seq<char>> {
        tag_set(self.spec_tags())
    }

    /// No tag is stored twice.
    pub open spec fn wf(&self) -> bool {
        forall|i: int, j: int|
            0 <= i < j < self.spec_tags().len() ==> #[trigger] self.spec_tags()[i]@ != #[trigger] self.spec_tags()[j]@
    }

    /// An empty tag set.
    pub fn new() -> (r: Self)
        ensures
            r.wf(),
            r.spec_tags().len() == 0,
            r.view_set() == Set::<Seq<char>>::empty(),
    {
        let r = Tags { tags: Vec::new() };
        assert(r.view_set() =~= Set::<Seq<char>>::empty());
        r
    }

    /// This tag set with `tag` added.
    pub fn with_tag(self, tag: &str) -> (r: Self)
        requires
            self.wf(),
        ensures
            r.wf(),
            r.view_set() == self.view_set().insert(tag@),
    {
        let mut t = self;
        t.insert(tag);
        t
    }

    /// Whether `tag` is present.
    pub fn has(&self, tag: &str) -> (r: bool)
        ensures
            r == self.view_set().contains(tag@),
    {
        let mut i: usize = 0;
        while i < self.tags.len()
            invariant
                i <= self.tags@.len(),
                forall|k: int| 0 <= k < i ==> #[trigger] self.tags@[k]@ != tag@,
            decreases self.tags@.len() - i,
        {
            if names_equal(&self.tags[i], tag) {
                assert(self.tags@[i as int]@ == tag@);
                return true;
            }
            i = i + 1;
        }
        false
    }

    /// Add `tag` (no effect if present).
    pub fn insert(&mut self, tag: &str)
        requires
            old(self).wf(),
        ensures
            final(self).wf(),
            final(self).view_set() == old(self).view_set().insert(tag@),
            old(self).view_set().contains(tag@) ==> final(self).spec_tags() == old(self).spec_tags(),
            !old(self).view_set().contains(tag@) ==> final(self).spec_tags() == old(self).spec_tags().push(
                final(self).spec_tags().last(),
            ) && final(self).spec_tags().last()@ == tag@,
    {
        if !self.has(tag) {
            let ghost before = self.tags@;
            self.tags.push(String::from_str(tag));
            proof {
                assert forall|i: int, j: int| 0 <= i < j < self.tags@.len() implies #[trigger] self.tags@[i]@
                    != #[trigger] self.tags@[j]@ by {
                    assert(self.tags@[i] == before[i]);
                    if j < before.len() {
                        assert(self.tags@[j] == before[j]);
                    } else {
                        assert(!tag_set(before).contains(tag@));
                    }
                }
                assert forall|t: Seq<char>| #[trigger] tag_set(self.tags@).contains(t) <==> tag_set(before).insert(tag@).contains(t) by {
                    if tag_set(before).contains(t) && t != tag@ {
                        let i = choose|i: int| 0 <= i < before.len() && #[trigger] before[i]@ == t;
                        assert(self.tags@[i] == before[i]);
                    }
                    if tag_set(self.tags@).contains(t) {
                        let i = choose|i: int| 0 <= i < self.tags@.len() && #[trigger] self.tags@[i]@ == t;
                        if i < before.len() {
                            assert(self.tags@[i] == before[i]);
                        }
                    }
                    if t == tag@ {
                        assert(self.tags@[before.len() as int]@ == tag@);
                    }
                }
                assert(tag_set(self.tags@) =~= tag_set(before).insert(tag@));
            }
        } else {
            assert(self.view_set() =~= old(self).view_set().insert(tag@));
        }
    }

    /// Build a tag set from a list of names (duplicates collapse).
    pub fn from_names(names: &[&str]) -> (r: Self)
        ensures
            r.wf(),
            r.view_set() == Set::new(|t: Seq<char>| exists|i: int| 0 <= i < names@.len() && #[trigger] names@[i]@ == t),
    {
        let mut tags = Tags::new();
        let mut i: usize = 0;
        while i < names.len()
            invariant
                i <= names@.len(),
                tags.wf(),
                tags.view_set() == Set::new(|t: Seq<char>| exists|k: int| 0 <= k < i && #[trigger] names@[k]@ == t),
            decreases names@.len() - i,
        {
            let ghost prev = tags.view_set();
            tags.insert(names[i]);
            proof {
                let s_next = Set::new(|t: Seq<char>| exists|k: int| 0 <= k < i + 1 && #[trigger] names@[k]@ == t);
                assert forall|t: Seq<char>| s_next.contains(t) <==> prev.insert(names@[i as int]@).contains(t) by {
                    if s_next.contains(t) {
                        let k = choose|k: int| 0 <= k < i + 1 && #[trigger] names@[k]@ == t;
                        if k < i {
                            assert(prev.contains(t));
                        }
                    }
                }
                assert(s_next =~= prev.insert(names@[i as int]@));
            }
            i = i + 1;
        }
        assert(Set::new(|t: Seq<char>| exists|k: int| 0 <= k < names@.len() && #[trigger] names@[k]@ == t) =~= tags.view_set());
        tags
    }

    /// Number of distinct tags.
    pub fn len(&self) -> (r: usize)
        ensures
            r == self.spec_tags().len(),
    {
        self.tags.len()
    }

    /// The tags, in insertion order.
    pub fn as_slice(&self) -> (r: &[String])
        ensures
            r@ == self.spec_tags(),
    {
        self.tags.as_slice()
    }
}

impl Default for Tags {
    fn default() -> (r: Self)
        ensures
            r.wf(),
            r.spec_tags().len() == 0,
    {
        Tags::new()
    }
}

// === Dirty flags ===

/// Flags indicating which parts of an entity have changed and need updating
///
/// Used for dirty tracking to avoid rebuilding all geometry when only
/// some entities have changed.
#[derive(Clone, Copy, Debug, Default, PartialEq, Eq, Hash, Structural)]
pub struct DirtyFlags {
    bits: u8,
}

impl DirtyFlags {
    /// No changes
    pub fn none() -> (r: DirtyFlags)
        ensures
            r.spec_bits() == 0,
    {
        DirtyFlags { bits: 0 }
    }

    /// Transform (position, rotation, scale) has changed
    pub fn transform() -> (r: DirtyFlags)
        ensures
            r.spec_bits() == 1,
    {
        DirtyFlags { bits: 1 }
    }

    /// Mesh/shape has changed
    pub fn mesh() -> (r: DirtyFlags)
        ensures
            r.spec_bits() == 2,
    {
        DirtyFlags { bits: 2 }
    }

    /// Material has changed
    pub fn material() -> (r: DirtyFlags)
        ensures
            r.spec_bits() == 4,
    {
        DirtyFlags { bits: 4 }
    }

    /// All flags set - entity needs full rebuild
    pub fn all() -> (r: DirtyFlags)
        ensures
            r.spec_bits() == 7,
    {
        DirtyFlags { bits: 7 }
    }

    /// The raw bits.
    pub closed spec fn spec_bits(&self) -> u8 {
        self.bits
    }

    /// The raw bits of the flag set.
    pub fn bits(&self) -> (r: u8)
        ensures
            r == self.spec_bits(),
    {
        self.bits
    }

    /// Flags from raw bits, dropping bits that name no flag.
    pub fn from_bits_truncate(bits: u8) -> (r: Self)
        ensures
            r.spec_bits() == bits & 7,
    {
        DirtyFlags { bits: bits & 7 }
    }

    /// True if no flag is set.
    pub fn is_empty(&self) -> (r: bool)
        ensures
            r == (self.spec_bits() == 0),
    {
        self.bits == 0
    }

    /// True if every flag of `other` is set in `self`.
    pub fn contains(&self, other: DirtyFlags) -> (r: bool)
        ensures
            r == (self.spec_bits() & other.spec_bits() == other.spec_bits()),
    {
        (self.bits & other.bits) == other.bits
    }

    /// True if some flag of `other` is set in `self`.
    pub fn intersects(&self, other: DirtyFlags) -> (r: bool)
        ensures
            r == (self.spec_bits() & other.spec_bits() != 0),
    {
        (self.bits & other.bits) != 0
    }

    /// The flags set in either.
    pub fn union(self, other: DirtyFlags) -> (r: Self)
        ensures
            r.spec_bits() == self.spec_bits() | other.spec_bits(),
    {
        DirtyFlags { bits: self.bits | other.bits }
    }

    /// Set the flags of `other`.
    pub fn insert(&mut self, other: DirtyFlags)
        ensures
            final(self).spec_bits() == old(self).spec_bits() | other.spec_bits(),
    {
        self.bits = self.bits | other.bits;
    }

    /// Clear the flags of `other`.
    pub fn remove(&mut self, other: DirtyFlags)
        ensures
            final(self).spec_bits() == old(self).spec_bits() & !other.spec_bits(),
    {
        self.bits = self.bits & !other.bits;
    }
}

impl core::ops::BitOr for DirtyFlags {
    type Output = DirtyFlags;

    fn bitor(self, other: DirtyFlags) -> (r: DirtyFlags)
        ensures
            r.spec_bits() == self.spec_bits() | other.spec_bits(),
    {
        DirtyFlags { bits: self.bits | other.bits }
    }
}

impl vstd::std_specs::ops::BitOrSpecImpl for DirtyFlags {
    open spec fn obeys_bitor_spec() -> bool {
        true
    }

    open spec fn bitor_req(self, rhs: DirtyFlags) -> bool {
        true
    }

    closed spec fn bitor_spec(self, rhs: DirtyFlags) -> DirtyFlags {
        DirtyFlags { bits: self.bits | rhs.bits }
    }
}

impl core::ops::BitOrAssign for DirtyFlags {
    fn bitor_assign(&mut self, other: DirtyFlags)
        ensures
            final(self).spec_bits() == old(self).spec_bits() | other.spec_bits(),
    {
        self.bits = self.bits | other.bits;
    }
}

/// Inserted flags are contained afterwards, removed flags no longer
/// intersect, and inserting then removing the same flags clears exactly
/// those flags.
pub proof fn law_dirty_flags_insert_and_remove(a: DirtyFlags, b: DirtyFlags)
    ensures
        (a.spec_bits() | b.spec_bits()) & b.spec_bits() == b.spec_bits(),
        (a.spec_bits() & !b.spec_bits()) & b.spec_bits() == 0,
        (a.spec_bits() | b.spec_bits()) & !b.spec_bits() == a.spec_bits() & !b.spec_bits(),
        a.spec_bits() | b.spec_bits() == b.spec_bits() | a.spec_bits(),
{
    let x = a.spec_bits();
    let y = b.spec_bits();
    assert((x | y) & y == y) by (bit_vector);
    assert((x & !y) & y == 0) by (bit_vector);
    assert((x | y) & !y == x & !y) by (bit_vector);
    assert(x | y == y | x) by (bit_vector);
}

} // verus!
