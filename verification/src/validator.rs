//! Scene validation of entity names.
//!
//! The numeric checks of a scene (gravity, spawn position) are made on its
//! floating-point values by the scene code; here is the check that needs no
//! numbers: which entity names occur more than once.

use crate::asset_cache::names_equal;
use vstd::prelude::*;

verus! {

/// The name at `i` occurred at some earlier position.
pub open spec fn seen_before(names: Seq<Option<String>>, i: int) -> bool {
    names[i] is Some && exists|j: int|
        0 <= j < i && #[trigger] names[j] is Some && names[j]->0@ == names[i]->0@
}

/// The repeated names among the first `n` entries: one report for every
/// named entry whose name an earlier entry already had, in order.
pub open spec fn repeated_names(names: Seq<Option<String>>, n: int) -> Seq<Seq<char>>
    decreases n,
{
    if n <= 0 {
        Seq::empty()
    } else {
        let rest = repeated_names(names, n - 1);
        if seen_before(names, n - 1) {
            rest.push(names[n - 1]->0@)
        } else {
            rest
        }
    }
}

/// Two different entries among the first `n` both carry the name `x`.
pub open spec fn name_repeated(names: Seq<Option<String>>, n: int, x: Seq<char>) -> bool {
    exists|i: int, j: int|
        0 <= j < i < n && names[i] is Some && names[j] is Some && #[trigger] names[i]->0@ == x && #[trigger] names[j]->0@
            == x
}

/// Every reported name is, character for character, the name of two
/// different entities; if no two entities share a name nothing is
/// reported, and if two do something is.
pub proof fn law_reported_names_are_true_repeats(names: Seq<Option<String>>, n: int)
    requires
        0 <= n <= names.len(),
    ensures
        forall|k: int| 0 <= k < repeated_names(names, n).len() ==> name_repeated(names, n, #[trigger] repeated_names(names, n)[k]),
        (forall|i: int, j: int|
            0 <= j < i < n && #[trigger] names[i] is Some && #[trigger] names[j] is Some ==> names[i]->0@ != names[j]->0@)
            ==> repeated_names(names, n).len() == 0,
        (exists|i: int, j: int|
            0 <= j < i < n && #[trigger] names[i] is Some && #[trigger] names[j] is Some && names[i]->0@ == names[j]->0@)
            ==> repeated_names(names, n).len() > 0,
    decreases n,
{
    if n > 0 {
        law_reported_names_are_true_repeats(names, n - 1);
        let rest = repeated_names(names, n - 1);
        let now = repeated_names(names, n);
        assert forall|k: int| 0 <= k < now.len() implies name_repeated(names, n, #[trigger] now[k]) by {
            if k < rest.len() {
                assert(now[k] == rest[k]);
                assert(name_repeated(names, n - 1, rest[k]));
                let (i, j) = choose|i: int, j: int|
                    0 <= j < i < n - 1 && names[i] is Some && names[j] is Some && #[trigger] names[i]->0@ == rest[k]
                        && #[trigger] names[j]->0@ == rest[k];
                assert(names[i]->0@ == now[k] && names[j]->0@ == now[k]);
            } else {
                assert(seen_before(names, n - 1));
                let j = choose|j: int| 0 <= j < n - 1 && #[trigger] names[j] is Some && names[j]->0@ == names[n - 1]->0@;
                assert(now[k] == names[n - 1]->0@);
                assert(names[n - 1]->0@ == now[k] && names[j]->0@ == now[k]);
            }
        }
        if forall|i: int, j: int|
            0 <= j < i < n && #[trigger] names[i] is Some && #[trigger] names[j] is Some ==> names[i]->0@ != names[j]->0@ {
            assert(!seen_before(names, n - 1));
        }
        if exists|i: int, j: int|
            0 <= j < i < n && #[trigger] names[i] is Some && #[trigger] names[j] is Some && names[i]->0@ == names[j]->0@ {
            let (i, j) = choose|i: int, j: int|
                0 <= j < i < n && #[trigger] names[i] is Some && #[trigger] names[j] is Some && names[i]->0@ == names[j]->0@;
            if i == n - 1 {
                assert(seen_before(names, n - 1));
            } else {
                assert(rest.len() > 0);
            }
        }
    }
}

/// Scene validator that checks for common errors
pub struct SceneValidator;

impl SceneValidator {
    /// The duplicate entity names of a scene, given the entities' optional
    /// names in order: every name that was already used by an earlier entity
    /// is reported (again for each further repeat). Unnamed entities never
    /// count as duplicates.
    pub fn duplicate_names(names: &[Option<String>]) -> (r: Vec<String>)
        ensures
            r@.map_values(|s: String| s@) == repeated_names(names@, names@.len() as int),
            forall|k: int| 0 <= k < r@.len() ==> name_repeated(names@, names@.len() as int, #[trigger] r@[k]@),
            (forall|i: int, j: int|
                0 <= j < i < names@.len() && #[trigger] names@[i] is Some && #[trigger] names@[j] is Some
                    ==> names@[i]->0@ != names@[j]->0@) ==> r@.len() == 0,
    {
        let mut out: Vec<String> = Vec::new();
        let mut i: usize = 0;
        while i < names.len()
            invariant
                i <= names@.len(),
                out@.map_values(|s: String| s@) == repeated_names(names@, i as int),
            decreases names@.len() - i,
        {
            let ghost before = out@.map_values(|s: String| s@);
            match &names[i] {
                None => {
                    assert(!seen_before(names@, i as int));
                },
                Some(name) => {
                    let mut seen = false;
                    let mut j: usize = 0;
                    while j < i
                        invariant
                            j <= i,
                            i < names@.len(),
                            names@[i as int] == Some(*name),
                            seen <==> exists|m: int|
                                0 <= m < j && #[trigger] names@[m] is Some && names@[m]->0@ == name@,
                        decreases i - j,
                    {
                        match &names[j] {
                            Some(other) => {
                                if names_equal(other, name.as_str()) {
                                    seen = true;
                                }
                            },
                            None => {},
                        }
                        j = j + 1;
                    }
                    assert(seen == seen_before(names@, i as int));
                    if seen {
                        out.push(name.clone());
                        assert(out@.map_values(|s: String| s@) == before.push(name@));
                    }
                },
            }
            i = i + 1;
        }
        proof {
            law_reported_names_are_true_repeats(names@, names@.len() as int);
            let rv = out@.map_values(|s: String| s@);
            assert forall|k: int| 0 <= k < out@.len() implies name_repeated(
                names@,
                names@.len() as int,
                #[trigger] out@[k]@,
            ) by {
                assert(rv[k] == out@[k]@);
            }
        }
        out
    }

    /// A scene without entities is reported as empty.
    pub fn is_empty_scene(entity_count: usize) -> (r: bool)
        ensures
            r == (entity_count == 0),
    {
        entity_count == 0
    }
}

} // verus!
