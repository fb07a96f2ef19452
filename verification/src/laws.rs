use vstd::prelude::*;
use crate::record::RecordView;
use crate::store::{StoreModel, model_inv};

verus! {

/// Created ids are fresh: in every reachable state the id a create would
/// assign (the counter's successor) exceeds every live id, and is not live
/// itself.  Since deletes never touch the counter, an id once deleted can
/// never be assigned again.
pub proof fn lemma_next_id_fresh(m: StoreModel)
    requires
        model_inv(m),
        m.counter < u64::MAX,
    ensures
        !m.records.contains_key((m.counter + 1) as u64),
        forall|k: u64| #[trigger] m.records.contains_key(k) ==> k < m.counter + 1,
{
}

/// Created ids increase by exactly one and never repeat: a create from `m0`
/// returns the counter's successor and leaves the counter there, and neither
/// reads nor deletes move it, so the next create returns exactly the
/// successor of the previous id.
pub proof fn lemma_create_ids_strictly_increase(m0: StoreModel, id1: u64, m2: StoreModel, id2: u64)
    requires
        m0.counter < u64::MAX,
        id1 == m0.counter + 1,
        m2.counter == m0.counter + 1,
        m2.counter < u64::MAX,
        id2 == m2.counter + 1,
    ensures
        id2 == id1 + 1,
        id1 != id2,
{
}

/// Once absent after having been present, an id never returns: a create
/// never hands out an id that was allocated before, deleted or live.  Any id
/// allocated earlier is at most the counter, and the next created id is the
/// counter's successor.
pub proof fn lemma_create_never_returns_earlier_id(m: StoreModel, id0: u64)
    requires
        model_inv(m),
        m.counter < u64::MAX,
        id0 <= m.counter,
    ensures
        m.counter + 1 != id0,
        m.counter + 1 > id0,
{
}

/// Reading right after a create returns exactly the created record.
pub proof fn lemma_read_after_create(m1: StoreModel, m2: StoreModel, id: u64, v: RecordView)
    requires
        m2.records == m1.records.insert(id, v),
    ensures
        m2.records.contains_key(id),
        m2.records[id] == v,
{
}

/// Reading right after a delete misses: the deleted id is gone, and every
/// other record is exactly as before.
pub proof fn lemma_read_after_delete(m1: StoreModel, m2: StoreModel, id: u64)
    requires
        m2.records == m1.records.remove(id),
    ensures
        !m2.records.contains_key(id),
        forall|k: u64|
            k != id ==> (#[trigger] m2.records.contains_key(k) <==> m1.records.contains_key(k)),
        forall|k: u64|
            k != id && #[trigger] m1.records.contains_key(k) ==> m2.records[k] == m1.records[k],
{
}

} // verus!
