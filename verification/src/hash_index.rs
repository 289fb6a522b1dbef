use vstd::prelude::*;
use rustc_hash::FxHashMap;

verus! {

#[verifier::external_type_specification]
#[verifier::external_body]
pub struct ExFxBuildHasher(rustc_hash::FxBuildHasher);

/// Relies on `HashMap::default` with the Fx hasher: a freshly built index
/// holds no entry.
#[verifier::external_body]
pub(crate) fn fx_new() -> (r: FxHashMap<u64, usize>)
    ensures
        forall|k: u64| !(#[trigger] r@.contains_key(k)),
{
    FxHashMap::default()
}

/// Relies on `HashMap::reserve`: reserving room changes no entry. The
/// count is bounded so the reservation cannot overflow: at a few dozen
/// bytes per reserved entry it stays under a gibibyte, below the
/// allocator's per-allocation limit on every supported target; only the
/// documented capacity-overflow panic is thereby ruled out.
#[verifier::external_body]
pub(crate) fn fx_reserve(m: &mut FxHashMap<u64, usize>, additional: usize)
    requires
        additional <= 33554432,
    ensures
        final(m)@ == old(m)@,
{
    m.reserve(additional);
}

/// Relies on `HashMap::get`. The Fx hasher is deterministic (`build_hasher`
/// always yields the zero-seeded hasher), so lookups see exactly the stored
/// entries.
#[verifier::external_body]
pub(crate) fn fx_get(m: &FxHashMap<u64, usize>, key: u64) -> (r: Option<usize>)
    ensures
        r == if m@.contains_key(key) {
            Some(m@[key])
        } else {
            None::<usize>
        },
{
    m.get(&key).copied()
}

/// Relies on `HashMap::insert`: afterwards the map holds exactly the old
/// entries plus `key` bound to `value`.
#[verifier::external_body]
pub(crate) fn fx_insert(m: &mut FxHashMap<u64, usize>, key: u64, value: usize)
    ensures
        final(m)@ == old(m)@.insert(key, value),
{
    m.insert(key, value);
}

/// Relies on `HashMap::remove`: afterwards the map holds exactly the old
/// entries less `key`, and the call reports the binding it dropped.
#[verifier::external_body]
pub(crate) fn fx_remove(m: &mut FxHashMap<u64, usize>, key: u64) -> (r: Option<usize>)
    ensures
        final(m)@ == old(m)@.remove(key),
        r == if old(m)@.contains_key(key) {
            Some(old(m)@[key])
        } else {
            None::<usize>
        },
{
    m.remove(&key)
}

/// Relies on `HashMap::iter`: every entry of the map, each exactly once, in
/// an order this contract leaves open.
#[verifier::external_body]
pub(crate) fn fx_entries(m: &FxHashMap<u64, usize>) -> (r: Vec<(u64, usize)>)
    ensures
        r@.len() == m@.dom().len(),
        forall|j: int|
            0 <= j < r@.len() ==> m@.contains_key((#[trigger] r@[j]).0) && m@[r@[j].0] == r@[j].1,
        forall|k: u64|
            #[trigger] m@.contains_key(k) ==> exists|j: int|
                0 <= j < r@.len() && (#[trigger] r@[j]).0 == k,
        forall|j1: int, j2: int|
            0 <= j1 < j2 < r@.len() ==> (#[trigger] r@[j1]).0 != (#[trigger] r@[j2]).0,
{
    let mut v = Vec::with_capacity(m.len());
    for (k, idx) in m.iter() {
        v.push((*k, *idx));
    }
    v
}

} // verus!
