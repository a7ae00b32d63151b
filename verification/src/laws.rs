//! The library's general laws, each stated once over the store's
//! mathematical views and proved from the operations' contracts.

use vstd::prelude::*;
use vstd::bytes::spec_u64_to_le_bytes;
use vstd::std_specs::vec::axiom_spec_len;
use crate::dmap::{lemma_kv_map_index, lemma_kv_map_congruence};
use crate::records::{InteractionV, InteractionPayloadV};
use crate::store::Store;
use crate::store::spec_updated_interaction;
use crate::persist::{customer_records, interaction_records, customer_region_bytes,
    interaction_region_bytes, spec_load_store, lemma_persisted_store_reloads, ids_sorted_c,
    ids_sorted_i};
use crate::codec::{enc_customer, enc_interaction};
use crate::region::{BackingStore, COUNTER_REGION, INTERACTIONS_REGION, CUSTOMERS_REGION,
    REGION_COUNT};
use crate::MAX_RECORD_BYTES;

verus! {

/// Ids are never reused and strictly increase: a record minted when the
/// shared counter stood at `c2` gets an id strictly greater than every id
/// minted while the counter stood at `c1 <= c2` — whichever of the two
/// entity kinds either record belongs to, since both draw from the one
/// counter. The creating operations guarantee the pieces: a minted id equals
/// the counter right after the mint, every stored id is at most the counter,
/// and no operation ever decreases the counter.
pub proof fn lemma_minted_ids_strictly_increase(id1: u64, c1: u64, c2: u64, id2: u64)
    requires
        id1 <= c1,
        c1 <= c2,
        id2 == c2 + 1,
    ensures
        id2 > id1,
{
}

/// Reading an id right after storing a record under it yields that record:
/// `get_x` after `add_x` hands the added record back.
pub proof fn lemma_get_after_add<V>(m: Map<u64, V>, id: u64, v: V)
    ensures
        m.insert(id, v).contains_key(id),
        m.insert(id, v)[id] == v,
{
}

/// After a delete the id is gone — a following `get_x` or a second
/// `delete_x` finds nothing, and the second delete changes nothing.
pub proof fn lemma_delete_then_get<V>(m: Map<u64, V>, id: u64)
    ensures
        !m.remove(id).contains_key(id),
        m.remove(id).remove(id) == m.remove(id),
{
    assert(m.remove(id).remove(id) =~= m.remove(id));
}

/// An interaction update stamps `updated_at` with the current time and
/// never moves `created_at`: under a clock that does not run backwards the
/// stamp is at least `created_at`, and a repeated update carries a stamp at
/// least as large as the first.
pub proof fn lemma_update_refreshes_timestamp(
    v: InteractionV,
    p1: InteractionPayloadV,
    p2: InteractionPayloadV,
    t1: u64,
    t2: u64,
)
    requires
        t1 >= v.created_at,
        t2 >= t1,
    ensures
        spec_updated_interaction(v, p1, t1).updated_at == Some(t1),
        spec_updated_interaction(v, p1, t1).created_at == v.created_at,
        spec_updated_interaction(v, p1, t1).updated_at->0 >= v.created_at,
        spec_updated_interaction(spec_updated_interaction(v, p1, t1), p2, t2).updated_at->0
            >= spec_updated_interaction(v, p1, t1).updated_at->0,
{
}

/// Restart and reload: whatever store loads from the regions a well-formed
/// store persisted has the very same view — counter and all records of both
/// kinds are recovered unchanged. The first five premises are what `persist`
/// ensures of the backing store; the last two are what `load` ensures of
/// what it hands back.
pub proof fn lemma_restart_recovers(s1: Store, b: BackingStore, s2: Store)
    requires
        s1.wf(),
        b@.len() == REGION_COUNT,
        b@[COUNTER_REGION as int] == spec_u64_to_le_bytes(s1@.counter),
        b@[INTERACTIONS_REGION as int] == interaction_region_bytes(
            interaction_records(s1.interactions),
        ),
        b@[CUSTOMERS_REGION as int] == customer_region_bytes(customer_records(s1.customers)),
        s2.wf(),
        spec_load_store(b@) == Some(
            (s2@.counter, interaction_records(s2.interactions), customer_records(s2.customers)),
        ),
    ensures
        s2@ == s1@,
{
    let crs1 = customer_records(s1.customers);
    let irs1 = interaction_records(s1.interactions);
    let ce1 = s1.customers.entries@;
    let ie1 = s1.interactions.entries@;
    assert forall|i: int| 0 <= i < ce1.len() implies (#[trigger] crs1[i]).id == ce1[i].0 && crs1[i]
        == ce1[i].1@ && enc_customer(crs1[i]).len() <= MAX_RECORD_BYTES && crs1[i].id
        <= s1@.counter by {
        lemma_kv_map_index(ce1, i);
        assert(s1@.customers.contains_key(ce1[i].0));
    }
    assert forall|i: int| 0 <= i < ie1.len() implies (#[trigger] irs1[i]).id == ie1[i].0 && irs1[i]
        == ie1[i].1@ && enc_interaction(irs1[i]).len() <= MAX_RECORD_BYTES && irs1[i].id
        <= s1@.counter by {
        lemma_kv_map_index(ie1, i);
        assert(s1@.interactions.contains_key(ie1[i].0));
    }
    assert(ids_sorted_c(crs1));
    assert(ids_sorted_i(irs1));
    axiom_spec_len(&s1.customers.entries);
    axiom_spec_len(&s1.interactions.entries);
    lemma_persisted_store_reloads(s1@.counter, irs1, crs1);
    assert(b@ =~= seq![
        spec_u64_to_le_bytes(s1@.counter),
        interaction_region_bytes(irs1),
        customer_region_bytes(crs1),
    ]);
    let crs2 = customer_records(s2.customers);
    let irs2 = interaction_records(s2.interactions);
    assert(s2@.counter == s1@.counter && irs2 == irs1 && crs2 == crs1);
    let ce2 = s2.customers.entries@;
    let ie2 = s2.interactions.entries@;
    assert forall|i: int| 0 <= i < ce2.len() implies (#[trigger] crs2[i]).id == ce2[i].0 && crs2[i]
        == ce2[i].1@ by {
        lemma_kv_map_index(ce2, i);
        assert(s2@.customers.contains_key(ce2[i].0));
    }
    assert forall|i: int| 0 <= i < ie2.len() implies (#[trigger] irs2[i]).id == ie2[i].0 && irs2[i]
        == ie2[i].1@ by {
        lemma_kv_map_index(ie2, i);
        assert(s2@.interactions.contains_key(ie2[i].0));
    }
    assert forall|i: int| #![trigger ce1[i], ce2[i]] 0 <= i < ce1.len() implies ce1[i].0 == ce2[i].0
        && ce1[i].1@ == ce2[i].1@ by {
        assert(crs1[i] == ce1[i].1@);
        assert(crs2[i] == ce2[i].1@);
    }
    lemma_kv_map_congruence(ce1, ce2);
    assert forall|i: int| #![trigger ie1[i], ie2[i]] 0 <= i < ie1.len() implies ie1[i].0 == ie2[i].0
        && ie1[i].1@ == ie2[i].1@ by {
        assert(irs1[i] == ie1[i].1@);
        assert(irs2[i] == ie2[i].1@);
    }
    lemma_kv_map_congruence(ie1, ie2);
}

} // verus!


