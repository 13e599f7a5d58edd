//! Properties that relate several operations of the store, stated over the
//! views and spec functions that the operations' own contracts use.
use crate::store::{sat_add, KvStore, COMPACTION_THRESHOLD};
use vstd::prelude::*;

verus! {

/// Overwrite: on a store where `k` holds `v1`, storing anything under `k`
/// counts the whole `16 + |k| + |v1|` bytes of `v1`'s record as dead, and
/// compaction runs exactly when that count passes the threshold while a
/// newer generation can still be named.
pub proof fn law_overwrite(s: KvStore, k: Seq<u8>, v1: Seq<u8>)
    requires
        s.wf(),
        s@.contains_key(k),
        s@[k] == v1,
    ensures
        s.live_len(k) == 16 + k.len() + v1.len(),
        s.dead_after(k) == sat_add(s.dead_bytes(), (16 + k.len() + v1.len()) as int),
        s.compacts(s.dead_after(k)) <==> (sat_add(s.dead_bytes(), (16 + k.len() + v1.len()) as int)
            > COMPACTION_THRESHOLD && s.active_generation() < u64::MAX),
{
    s.lemma_index(k);
}

/// Deletion: `after` is a store that `remove(k)` on `before` left; `k` holds
/// no value in it, so `get(k)` and a second `remove(k)` fail with
/// `KeyNotFound`, and the removed record's whole length is counted dead.
pub proof fn law_remove_then_get(before: KvStore, after: KvStore, k: Seq<u8>)
    requires
        before.wf(),
        after.wf(),
        before@.contains_key(k),
        after@ == before@.remove(k),
    ensures
        !after@.contains_key(k),
        before.dead_after(k) == sat_add(before.dead_bytes(), (16 + k.len() + before@[k].len()) as int),
{
    before.lemma_index(k);
}

} // verus!
