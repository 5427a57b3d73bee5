//! The `rustc_hash` maps and sets the library keeps its id indexes in.

use vstd::prelude::*;
use rustc_hash::{FxBuildHasher, FxHashMap, FxHashSet};

verus! {

#[verifier::external_type_specification]
#[verifier::external_body]
pub struct ExFxBuildHasher(FxBuildHasher);

/// `HashMap::insert` on a map hashed with rustc_hash's `FxBuildHasher`: the
/// key now maps to the value, and what it mapped to before comes back.
/// (vstd states this only for hashers it knows to be valid; `FxBuildHasher`
/// builds the same deterministic `FxHasher` every time.)
#[verifier::external_body]
pub(crate) fn fx_insert(m: &mut FxHashMap<i64, usize>, k: i64, v: usize) -> (r: Option<usize>)
    ensures
        final(m)@ == old(m)@.insert(k, v),
        r == (if old(m)@.contains_key(k) {
            Some(old(m)@[k])
        } else {
            None::<usize>
        }),
{
    m.insert(k, v)
}

/// `HashMap::get` on a map hashed with `FxBuildHasher`: the value the key
/// maps to, if any.
#[verifier::external_body]
pub(crate) fn fx_get(m: &FxHashMap<i64, usize>, k: i64) -> (r: Option<usize>)
    ensures
        r == (if m@.contains_key(k) {
            Some(m@[k])
        } else {
            None::<usize>
        }),
{
    m.get(&k).copied()
}

/// `HashSet::insert` on a set hashed with `FxBuildHasher`: the set now
/// holds the value, and whether it was new comes back.
#[verifier::external_body]
pub(crate) fn fx_set_insert(s: &mut FxHashSet<i64>, k: i64) -> (r: bool)
    ensures
        final(s)@ == old(s)@.insert(k),
        r == !old(s)@.contains(k),
{
    s.insert(k)
}

/// `HashSet::contains` on a set hashed with `FxBuildHasher`.
#[verifier::external_body]
pub(crate) fn fx_set_contains(s: &FxHashSet<i64>, k: i64) -> (r: bool)
    ensures
        r == s@.contains(k),
{
    s.contains(&k)
}

/// The ids of `v` as a hash set.
pub(crate) fn id_set(v: &Vec<i64>) -> (r: FxHashSet<i64>)
    ensures
        forall|x: i64| r@.contains(x) <==> v@.contains(x),
{
    let mut s: FxHashSet<i64> = FxHashSet::default();
    let mut i: usize = 0;
    while i < v.len()
        invariant
            i <= v@.len(),
            forall|x: i64| s@.contains(x) <==> exists|k: int| 0 <= k < i && #[trigger] v@[k] == x,
        decreases v@.len() - i,
    {
        fx_set_insert(&mut s, v[i]);
        proof {
            assert forall|x: i64| s@.contains(x) <==> exists|k: int| 0 <= k < i + 1 && #[trigger] v@[k] == x by {
                if x == v@[i as int] {
                    assert(v@[i as int] == x);
                }
            }
        }
        i = i + 1;
    }
    s
}

} // verus!
