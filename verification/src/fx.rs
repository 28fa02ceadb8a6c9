//! Maps with the hasher of the `fxhash` crate.

use fxhash::FxHashMap;
use std::collections::hash_map::Keys;
use std::hash::Hash;
use vstd::prelude::*;
use vstd::std_specs::hash::{obeys_key_model, spec_keys_iter};
use vstd::std_specs::iter::IteratorSpec;

verus! {

/// The hasher of the `fxhash` crate.
#[verifier::external_type_specification]
#[verifier::external_body]
pub struct ExFxHasher(fxhash::FxHasher);

/// The builder of hashers that an [`FxHashMap`] holds.
#[verifier::external_type_specification]
#[verifier::external_body]
#[verifier::reject_recursive_types(H)]
pub struct ExBuildHasherDefault<H>(std::hash::BuildHasherDefault<H>);

/// `insert` of an [`FxHashMap`]: the key maps to the value afterwards, all else is as before.
#[verifier::external_body]
pub(crate) fn fx_insert<K: Eq + Hash, V>(m: &mut FxHashMap<K, V>, k: K, v: V)
    requires
        obeys_key_model::<K>(),
    ensures
        final(m)@ == old(m)@.insert(k, v),
{
    m.insert(k, v);
}

/// `remove` of an [`FxHashMap`]: the key is gone afterwards, all else is as before, and the
/// value that the key mapped to is handed out.
#[verifier::external_body]
pub(crate) fn fx_remove<K: Eq + Hash, V>(m: &mut FxHashMap<K, V>, k: &K) -> (r: Option<V>)
    requires
        obeys_key_model::<K>(),
    ensures
        final(m)@ == old(m)@.remove(*k),
        match r {
            Some(v) => old(m)@.contains_key(*k) && v == old(m)@[*k],
            None => !old(m)@.contains_key(*k),
        },
{
    m.remove(k)
}

/// `get` of an [`FxHashMap`]: the value that the key maps to.
#[verifier::external_body]
pub(crate) fn fx_get<'a, K: Eq + Hash, V>(m: &'a FxHashMap<K, V>, k: &K) -> (r: Option<&'a V>)
    requires
        obeys_key_model::<K>(),
    ensures
        match r {
            Some(v) => m@.contains_key(*k) && *v == m@[*k],
            None => !m@.contains_key(*k),
        },
{
    m.get(k)
}

/// `contains_key` of an [`FxHashMap`]: whether the key maps to a value.
#[verifier::external_body]
pub(crate) fn fx_contains_key<K: Eq + Hash, V>(m: &FxHashMap<K, V>, k: &K) -> (r: bool)
    requires
        obeys_key_model::<K>(),
    ensures
        r == m@.contains_key(*k),
{
    m.contains_key(k)
}

/// `keys` of an [`FxHashMap`]: the keys, each once, in an order that is left open.
#[verifier::external_body]
pub(crate) fn fx_keys<'a, K: Eq + Hash, V>(m: &'a FxHashMap<K, V>) -> (r: Keys<'a, K, V>)
    requires
        obeys_key_model::<K>(),
    ensures
        r == spec_keys_iter(m),
        IteratorSpec::decrease(&r) is Some,
        IteratorSpec::initial_value_relation(&r, &r),
{
    m.keys()
}

} // verus!
