//! Laying the store down into its backing regions and recovering it from
//! them. Each map's region holds the record count and one length-prefixed
//! block per record, in ascending id order; the counter's region holds its
//! eight bytes. Loading mirrors the spec parsers exactly, so recovery from a
//! persisted image is provably the identity.

use vstd::prelude::*;
use vstd::bytes::*;
use crate::chunks::{cat_chunks, parse_chunks, views_of, append_chunk, split_chunks,
    lemma_parse_cat_chunks, lemma_parse_chunks_len, lemma_cat_chunks_push};
use crate::codec::{enc_customer, dec_customer, enc_interaction, dec_interaction, encode_customer,
    decode_customer, encode_interaction, decode_interaction, lemma_dec_enc_customer,
    lemma_dec_enc_interaction, lemma_enc_dec_customer, lemma_enc_dec_interaction};
use crate::dmap::{DurableMap, sorted_by_key, lemma_kv_map_all};
use crate::records::{Customer, CustomerV, Interaction, InteractionV};
use crate::region::{BackingStore, COUNTER_REGION, INTERACTIONS_REGION, CUSTOMERS_REGION,
    REGION_COUNT};
use crate::store::Store;
use crate::store::IdCounter;
use crate::MAX_RECORD_BYTES;

verus! {

/// The customer records held, in ascending id order.
pub open spec fn customer_records(m: DurableMap<Customer>) -> Seq<CustomerV> {
    m.entries@.map_values(|e: (u64, Customer)| e.1@)
}

/// The interaction records held, in ascending id order.
pub open spec fn interaction_records(m: DurableMap<Interaction>) -> Seq<InteractionV> {
    m.entries@.map_values(|e: (u64, Interaction)| e.1@)
}

pub open spec fn enc_customer_seq(rs: Seq<CustomerV>) -> Seq<Seq<u8>> {
    rs.map_values(|c: CustomerV| enc_customer(c))
}

pub open spec fn enc_interaction_seq(rs: Seq<InteractionV>) -> Seq<Seq<u8>> {
    rs.map_values(|v: InteractionV| enc_interaction(v))
}

pub open spec fn ids_sorted_c(rs: Seq<CustomerV>) -> bool {
    forall|i: int, j: int| #![trigger rs[i], rs[j]] 0 <= i < j < rs.len() ==> rs[i].id < rs[j].id
}

pub open spec fn ids_sorted_i(rs: Seq<InteractionV>) -> bool {
    forall|i: int, j: int| #![trigger rs[i], rs[j]] 0 <= i < j < rs.len() ==> rs[i].id < rs[j].id
}

/// One region image: the record count, then one block per record.
pub open spec fn customer_region_bytes(rs: Seq<CustomerV>) -> Seq<u8> {
    spec_u64_to_le_bytes(rs.len() as u64) + cat_chunks(enc_customer_seq(rs))
}

pub open spec fn interaction_region_bytes(rs: Seq<InteractionV>) -> Seq<u8> {
    spec_u64_to_le_bytes(rs.len() as u64) + cat_chunks(enc_interaction_seq(rs))
}

/// A block a customer map accepts: it decodes, and it respects the ceiling.
pub open spec fn good_customer_part(p: Seq<u8>) -> bool {
    dec_customer(p) is Some && p.len() <= MAX_RECORD_BYTES
}

pub open spec fn good_interaction_part(p: Seq<u8>) -> bool {
    dec_interaction(p) is Some && p.len() <= MAX_RECORD_BYTES
}

/// Reads a customer region: every block must decode, stay under the
/// ceiling, and the ids must be strictly ascending.
pub open spec fn parse_customer_region(b: Seq<u8>) -> Option<Seq<CustomerV>> {
    if b.len() < 8 {
        None
    } else {
        match parse_chunks(b.skip(8), spec_u64_from_le_bytes(b.take(8)) as nat) {
            Some(ps) => if forall|i: int| 0 <= i < ps.len() ==> good_customer_part(
                #[trigger] ps[i],
            ) {
                let rs = Seq::new(ps.len(), |i: int| dec_customer(ps[i])->0);
                if ids_sorted_c(rs) {
                    Some(rs)
                } else {
                    None
                }
            } else {
                None
            },
            None => None,
        }
    }
}

pub open spec fn parse_interaction_region(b: Seq<u8>) -> Option<Seq<InteractionV>> {
    if b.len() < 8 {
        None
    } else {
        match parse_chunks(b.skip(8), spec_u64_from_le_bytes(b.take(8)) as nat) {
            Some(ps) => if forall|i: int| 0 <= i < ps.len() ==> good_interaction_part(
                #[trigger] ps[i],
            ) {
                let rs = Seq::new(ps.len(), |i: int| dec_interaction(ps[i])->0);
                if ids_sorted_i(rs) {
                    Some(rs)
                } else {
                    None
                }
            } else {
                None
            },
            None => None,
        }
    }
}

/// Writing a region and reading it back is the identity.
pub proof fn lemma_parse_customer_region(rs: Seq<CustomerV>)
    requires
        forall|i: int| #![trigger rs[i]]
            0 <= i < rs.len() ==> enc_customer(rs[i]).len() <= MAX_RECORD_BYTES,
        ids_sorted_c(rs),
        rs.len() <= u64::MAX,
    ensures
        parse_customer_region(customer_region_bytes(rs)) == Some(rs),
{
    lemma_auto_spec_u64_to_from_le_bytes();
    let ps = enc_customer_seq(rs);
    let b = customer_region_bytes(rs);
    assert(b.take(8) =~= spec_u64_to_le_bytes(rs.len() as u64));
    assert(b.skip(8) =~= cat_chunks(ps));
    assert forall|i: int| 0 <= i < ps.len() implies #[trigger] ps[i].len() <= u64::MAX by {
        assert(ps[i] == enc_customer(rs[i]));
    }
    lemma_parse_cat_chunks(ps);
    assert forall|i: int| 0 <= i < ps.len() implies good_customer_part(#[trigger] ps[i]) by {
        lemma_dec_enc_customer(rs[i]);
    }
    let parsed = Seq::new(ps.len(), |i: int| dec_customer(ps[i])->0);
    assert forall|i: int| 0 <= i < ps.len() implies parsed[i] == rs[i] by {
        lemma_dec_enc_customer(rs[i]);
    }
    assert(parsed =~= rs);
}

pub proof fn lemma_parse_interaction_region(rs: Seq<InteractionV>)
    requires
        forall|i: int| #![trigger rs[i]]
            0 <= i < rs.len() ==> enc_interaction(rs[i]).len() <= MAX_RECORD_BYTES,
        ids_sorted_i(rs),
        rs.len() <= u64::MAX,
    ensures
        parse_interaction_region(interaction_region_bytes(rs)) == Some(rs),
{
    lemma_auto_spec_u64_to_from_le_bytes();
    let ps = enc_interaction_seq(rs);
    let b = interaction_region_bytes(rs);
    assert(b.take(8) =~= spec_u64_to_le_bytes(rs.len() as u64));
    assert(b.skip(8) =~= cat_chunks(ps));
    assert forall|i: int| 0 <= i < ps.len() implies #[trigger] ps[i].len() <= u64::MAX by {
        assert(ps[i] == enc_interaction(rs[i]));
    }
    lemma_parse_cat_chunks(ps);
    assert forall|i: int| 0 <= i < ps.len() implies good_interaction_part(#[trigger] ps[i]) by {
        lemma_dec_enc_interaction(rs[i]);
    }
    let parsed = Seq::new(ps.len(), |i: int| dec_interaction(ps[i])->0);
    assert forall|i: int| 0 <= i < ps.len() implies parsed[i] == rs[i] by {
        lemma_dec_enc_interaction(rs[i]);
    }
    assert(parsed =~= rs);
}

pub fn encode_customer_region(m: &DurableMap<Customer>) -> (r: Vec<u8>)
    ensures
        r@ == customer_region_bytes(customer_records(*m)),
{
    let ghost rs = customer_records(*m);
    let n: usize = m.entries.len();
    let mut out: Vec<u8> = u64_to_le_bytes(n as u64);
    let ghost prefix = spec_u64_to_le_bytes(n as u64);
    let mut i: usize = 0;
    proof {
        assert(enc_customer_seq(rs).take(0) =~= Seq::<Seq<u8>>::empty());
        assert(out@ =~= prefix + cat_chunks(enc_customer_seq(rs).take(0)));
    }
    while i < n
        invariant
            i <= n,
            n == m.entries@.len(),
            rs == customer_records(*m),
            prefix == spec_u64_to_le_bytes(n as u64),
            out@ == prefix + cat_chunks(enc_customer_seq(rs).take(i as int)),
        decreases n - i,
    {
        let part: Vec<u8> = encode_customer(&m.entries[i].1);
        append_chunk(&mut out, &part);
        proof {
            let es = enc_customer_seq(rs);
            lemma_cat_chunks_push(es.take(i as int), es[i as int]);
            assert(es.take(i as int + 1) =~= es.take(i as int).push(es[i as int]));
            assert(out@ =~= prefix + cat_chunks(es.take(i as int + 1)));
        }
        i += 1;
    }
    proof {
        assert(enc_customer_seq(rs).take(n as int) =~= enc_customer_seq(rs));
    }
    out
}

pub fn encode_interaction_region(m: &DurableMap<Interaction>) -> (r: Vec<u8>)
    ensures
        r@ == interaction_region_bytes(interaction_records(*m)),
{
    let ghost rs = interaction_records(*m);
    let n: usize = m.entries.len();
    let mut out: Vec<u8> = u64_to_le_bytes(n as u64);
    let ghost prefix = spec_u64_to_le_bytes(n as u64);
    let mut i: usize = 0;
    proof {
        assert(enc_interaction_seq(rs).take(0) =~= Seq::<Seq<u8>>::empty());
        assert(out@ =~= prefix + cat_chunks(enc_interaction_seq(rs).take(0)));
    }
    while i < n
        invariant
            i <= n,
            n == m.entries@.len(),
            rs == interaction_records(*m),
            prefix == spec_u64_to_le_bytes(n as u64),
            out@ == prefix + cat_chunks(enc_interaction_seq(rs).take(i as int)),
        decreases n - i,
    {
        let part: Vec<u8> = encode_interaction(&m.entries[i].1);
        append_chunk(&mut out, &part);
        proof {
            let es = enc_interaction_seq(rs);
            lemma_cat_chunks_push(es.take(i as int), es[i as int]);
            assert(es.take(i as int + 1) =~= es.take(i as int).push(es[i as int]));
            assert(out@ =~= prefix + cat_chunks(es.take(i as int + 1)));
        }
        i += 1;
    }
    proof {
        assert(enc_interaction_seq(rs).take(n as int) =~= enc_interaction_seq(rs));
    }
    out
}

pub fn decode_customer_region(b: &[u8]) -> (r: Option<DurableMap<Customer>>)
    ensures
        match r {
            Some(m) => {
                &&& parse_customer_region(b@) == Some(customer_records(m))
                &&& m.wf()
                &&& forall|i: int| #![trigger m.entries@[i]]
                    0 <= i < m.entries@.len() ==> m.entries@[i].0 == m.entries@[i].1@.id
                        && enc_customer(m.entries@[i].1@).len() <= MAX_RECORD_BYTES
            },
            None => parse_customer_region(b@) is None,
        },
{
    if b.len() < 8 {
        return None;
    }
    let count_part = vstd::slice::slice_subrange(b, 0, 8);
    proof {
        assert(count_part@ =~= b@.take(8));
    }
    let count: u64 = u64_from_le_bytes(count_part);
    let rest = vstd::slice::slice_subrange(b, 8, b.len());
    proof {
        assert(rest@ =~= b@.skip(8));
    }
    let parts: Vec<Vec<u8>> = match split_chunks(rest, count) {
        Some(v) => v,
        None => {
            return None;
        },
    };
    let ghost ps = views_of(parts@);
    proof {
        lemma_parse_chunks_len(rest@, count as nat);
    }
    let n: usize = parts.len();
    let mut entries: Vec<(u64, Customer)> = Vec::new();
    let mut i: usize = 0;
    while i < n
        invariant
            i <= n,
            n == parts@.len(),
            ps == views_of(parts@),
            b@.len() >= 8,
            parse_chunks(b@.skip(8), spec_u64_from_le_bytes(b@.take(8)) as nat) == Some(ps),
            entries@.len() == i,
            forall|j: int| 0 <= j < i ==> good_customer_part(#[trigger] ps[j]),
            forall|j: int| #![trigger entries@[j]]
                0 <= j < i ==> entries@[j].1@ == dec_customer(ps[j])->0 && entries@[j].0
                    == entries@[j].1@.id && enc_customer(entries@[j].1@).len()
                    <= MAX_RECORD_BYTES,
            sorted_by_key(entries@),
        decreases n - i,
    {
        let part = &parts[i];
        proof {
            assert(ps[i as int] == part@);
        }
        if part.len() as u64 > MAX_RECORD_BYTES {
            proof {
                if parse_customer_region(b@) is Some {
                    assert(good_customer_part(ps[i as int]));
                }
            }
            return None;
        }
        let rec: Customer = match decode_customer(part.as_slice()) {
            Some(c) => c,
            None => {
                proof {
                    if parse_customer_region(b@) is Some {
                        assert(good_customer_part(ps[i as int]));
                    }
                }
                return None;
            },
        };
        proof {
            lemma_enc_dec_customer(ps[i as int]);
        }
        if entries.len() > 0 {
            let last_key: u64 = entries[entries.len() - 1].0;
            if rec.id <= last_key {
                proof {
                    if parse_customer_region(b@) is Some {
                        let rs = parse_customer_region(b@)->0;
                        assert(rs[i as int] == dec_customer(ps[i as int])->0);
                        assert(rs[i as int - 1] == dec_customer(ps[i as int - 1])->0);
                        assert(entries@[i as int - 1].1@ == dec_customer(ps[i as int - 1])->0);
                        assert(rs[i as int - 1].id == last_key);
                        assert(rs[i as int - 1].id < rs[i as int].id);
                    }
                }
                return None;
            }
        }
        entries.push((rec.id, rec));
        proof {
            assert forall|a: int, b2: int| #![trigger entries@[a], entries@[b2]]
                0 <= a < b2 < entries@.len() implies entries@[a].0 < entries@[b2].0 by {
                if b2 == i as int && a < i as int - 1 {
                    assert(entries@[a].0 < entries@[i as int - 1].0);
                }
            }
        }
        i += 1;
    }
    let m = DurableMap { entries };
    proof {
        let rs = Seq::new(ps.len(), |j: int| dec_customer(ps[j])->0);
        assert forall|a: int, b2: int| #![trigger rs[a], rs[b2]] 0 <= a < b2 < rs.len()
            implies rs[a].id < rs[b2].id by {
            assert(rs[a] == m.entries@[a].1@);
            assert(rs[b2] == m.entries@[b2].1@);
            assert(m.entries@[a].0 < m.entries@[b2].0);
        }
        assert(parse_customer_region(b@) == Some(rs));
        assert(rs =~= customer_records(m));
    }
    Some(m)
}

pub fn decode_interaction_region(b: &[u8]) -> (r: Option<DurableMap<Interaction>>)
    ensures
        match r {
            Some(m) => {
                &&& parse_interaction_region(b@) == Some(interaction_records(m))
                &&& m.wf()
                &&& forall|i: int| #![trigger m.entries@[i]]
                    0 <= i < m.entries@.len() ==> m.entries@[i].0 == m.entries@[i].1@.id
                        && enc_interaction(m.entries@[i].1@).len() <= MAX_RECORD_BYTES
            },
            None => parse_interaction_region(b@) is None,
        },
{
    if b.len() < 8 {
        return None;
    }
    let count_part = vstd::slice::slice_subrange(b, 0, 8);
    proof {
        assert(count_part@ =~= b@.take(8));
    }
    let count: u64 = u64_from_le_bytes(count_part);
    let rest = vstd::slice::slice_subrange(b, 8, b.len());
    proof {
        assert(rest@ =~= b@.skip(8));
    }
    let parts: Vec<Vec<u8>> = match split_chunks(rest, count) {
        Some(v) => v,
        None => {
            return None;
        },
    };
    let ghost ps = views_of(parts@);
    proof {
        lemma_parse_chunks_len(rest@, count as nat);
    }
    let n: usize = parts.len();
    let mut entries: Vec<(u64, Interaction)> = Vec::new();
    let mut i: usize = 0;
    while i < n
        invariant
            i <= n,
            n == parts@.len(),
            ps == views_of(parts@),
            b@.len() >= 8,
            parse_chunks(b@.skip(8), spec_u64_from_le_bytes(b@.take(8)) as nat) == Some(ps),
            entries@.len() == i,
            forall|j: int| 0 <= j < i ==> good_interaction_part(#[trigger] ps[j]),
            forall|j: int| #![trigger entries@[j]]
                0 <= j < i ==> entries@[j].1@ == dec_interaction(ps[j])->0 && entries@[j].0
                    == entries@[j].1@.id && enc_interaction(entries@[j].1@).len()
                    <= MAX_RECORD_BYTES,
            sorted_by_key(entries@),
        decreases n - i,
    {
        let part = &parts[i];
        proof {
            assert(ps[i as int] == part@);
        }
        if part.len() as u64 > MAX_RECORD_BYTES {
            proof {
                if parse_interaction_region(b@) is Some {
                    assert(good_interaction_part(ps[i as int]));
                }
            }
            return None;
        }
        let rec: Interaction = match decode_interaction(part.as_slice()) {
            Some(v) => v,
            None => {
                proof {
                    if parse_interaction_region(b@) is Some {
                        assert(good_interaction_part(ps[i as int]));
                    }
                }
                return None;
            },
        };
        proof {
            lemma_enc_dec_interaction(ps[i as int]);
        }
        if entries.len() > 0 {
            let last_key: u64 = entries[entries.len() - 1].0;
            if rec.id <= last_key {
                proof {
                    if parse_interaction_region(b@) is Some {
                        let rs = parse_interaction_region(b@)->0;
                        assert(rs[i as int] == dec_interaction(ps[i as int])->0);
                        assert(rs[i as int - 1] == dec_interaction(ps[i as int - 1])->0);
                        assert(entries@[i as int - 1].1@ == dec_interaction(ps[i as int - 1])->0);
                        assert(rs[i as int - 1].id == last_key);
                        assert(rs[i as int - 1].id < rs[i as int].id);
                    }
                }
                return None;
            }
        }
        entries.push((rec.id, rec));
        proof {
            assert forall|a: int, b2: int| #![trigger entries@[a], entries@[b2]]
                0 <= a < b2 < entries@.len() implies entries@[a].0 < entries@[b2].0 by {
                if b2 == i as int && a < i as int - 1 {
                    assert(entries@[a].0 < entries@[i as int - 1].0);
                }
            }
        }
        i += 1;
    }
    let m = DurableMap { entries };
    proof {
        let rs = Seq::new(ps.len(), |j: int| dec_interaction(ps[j])->0);
        assert forall|a: int, b2: int| #![trigger rs[a], rs[b2]] 0 <= a < b2 < rs.len()
            implies rs[a].id < rs[b2].id by {
            assert(rs[a] == m.entries@[a].1@);
            assert(rs[b2] == m.entries@[b2].1@);
            assert(m.entries@[a].0 < m.entries@[b2].0);
        }
        assert(parse_interaction_region(b@) == Some(rs));
        assert(rs =~= interaction_records(m));
    }
    Some(m)
}

/// Reads a whole store back from its three regions: the counter's eight
/// bytes, then both maps; every stored id must have been minted (be at most
/// the counter).
pub open spec fn spec_load_store(regions: Seq<Seq<u8>>) -> Option<
    (u64, Seq<InteractionV>, Seq<CustomerV>),
> {
    if regions.len() != REGION_COUNT {
        None
    } else if regions[COUNTER_REGION as int].len() != 8 {
        None
    } else {
        let counter = spec_u64_from_le_bytes(regions[COUNTER_REGION as int]);
        match parse_interaction_region(regions[INTERACTIONS_REGION as int]) {
            None => None,
            Some(irs) => match parse_customer_region(regions[CUSTOMERS_REGION as int]) {
                None => None,
                Some(crs) => if (forall|i: int|
                    0 <= i < irs.len() ==> (#[trigger] irs[i]).id <= counter) && (forall|i: int|
                    0 <= i < crs.len() ==> (#[trigger] crs[i]).id <= counter) {
                    Some((counter, irs, crs))
                } else {
                    None
                },
            },
        }
    }
}

impl Store {
    /// Writes the counter and both maps into their fixed regions; nothing
    /// else in the backing store is touched.
    pub fn persist(&self, backing: &mut BackingStore)
        requires
            self.wf(),
            old(backing)@.len() == REGION_COUNT,
        ensures
            final(backing)@.len() == REGION_COUNT,
            final(backing)@[COUNTER_REGION as int] == spec_u64_to_le_bytes(self@.counter),
            final(backing)@[INTERACTIONS_REGION as int] == interaction_region_bytes(
                interaction_records(self.interactions),
            ),
            final(backing)@[CUSTOMERS_REGION as int] == customer_region_bytes(
                customer_records(self.customers),
            ),
    {
        backing.write_region(COUNTER_REGION, u64_to_le_bytes(self.counter.get()));
        backing.write_region(INTERACTIONS_REGION, encode_interaction_region(&self.interactions));
        backing.write_region(CUSTOMERS_REGION, encode_customer_region(&self.customers));
    }

    /// Recovers a store from its three regions; the executable mirror of
    /// [`spec_load_store`]. A recovered store is well-formed.
    pub fn load(backing: &BackingStore) -> (r: Option<Store>)
        ensures
            match r {
                Some(s) => {
                    &&& s.wf()
                    &&& spec_load_store(backing@) == Some(
                        (
                            s@.counter,
                            interaction_records(s.interactions),
                            customer_records(s.customers),
                        ),
                    )
                },
                None => spec_load_store(backing@) is None,
            },
    {
        if backing.region_count() != REGION_COUNT {
            return None;
        }
        let counter_bytes = backing.read_region(COUNTER_REGION);
        if counter_bytes.len() != 8 {
            return None;
        }
        let counter: u64 = u64_from_le_bytes(counter_bytes.as_slice());
        let imap: DurableMap<Interaction> = match decode_interaction_region(
            backing.read_region(INTERACTIONS_REGION).as_slice(),
        ) {
            Some(m) => m,
            None => {
                return None;
            },
        };
        let cmap: DurableMap<Customer> = match decode_customer_region(
            backing.read_region(CUSTOMERS_REGION).as_slice(),
        ) {
            Some(m) => m,
            None => {
                return None;
            },
        };
        let ghost irs = interaction_records(imap);
        let ghost crs = customer_records(cmap);
        let ni: usize = imap.entries.len();
        let mut i: usize = 0;
        while i < ni
            invariant
                i <= ni,
                ni == imap.entries@.len(),
                irs == interaction_records(imap),
                backing@.len() == REGION_COUNT,
                backing@[COUNTER_REGION as int].len() == 8,
                counter == spec_u64_from_le_bytes(backing@[COUNTER_REGION as int]),
                parse_interaction_region(backing@[INTERACTIONS_REGION as int]) == Some(irs),
                forall|j: int| #![trigger imap.entries@[j]]
                    0 <= j < imap.entries@.len() ==> imap.entries@[j].0 == imap.entries@[j].1@.id,
                forall|j: int| 0 <= j < i ==> (#[trigger] irs[j]).id <= counter,
            decreases ni - i,
        {
            if imap.entries[i].0 > counter {
                proof {
                    assert(irs[i as int].id > counter);
                }
                return None;
            }
            i += 1;
        }
        let nc: usize = cmap.entries.len();
        let mut j: usize = 0;
        while j < nc
            invariant
                j <= nc,
                nc == cmap.entries@.len(),
                crs == customer_records(cmap),
                backing@.len() == REGION_COUNT,
                backing@[COUNTER_REGION as int].len() == 8,
                counter == spec_u64_from_le_bytes(backing@[COUNTER_REGION as int]),
                parse_interaction_region(backing@[INTERACTIONS_REGION as int]) == Some(irs),
                parse_customer_region(backing@[CUSTOMERS_REGION as int]) == Some(crs),
                forall|a: int| #![trigger cmap.entries@[a]]
                    0 <= a < cmap.entries@.len() ==> cmap.entries@[a].0 == cmap.entries@[a].1@.id,
                forall|a: int| 0 <= a < j ==> (#[trigger] crs[a]).id <= counter,
            decreases nc - j,
        {
            if cmap.entries[j].0 > counter {
                proof {
                    assert(crs[j as int].id > counter);
                }
                return None;
            }
            j += 1;
        }
        let s = Store { counter: IdCounter::new(counter), customers: cmap, interactions: imap };
        proof {
            lemma_kv_map_all(s.customers.entries@);
            lemma_kv_map_all(s.interactions.entries@);
            assert forall|k: u64| #[trigger] s@.customers.contains_key(k) implies k <= s@.counter
                && s@.customers[k].id == k && enc_customer(s@.customers[k]).len()
                <= MAX_RECORD_BYTES by {
                let a = choose|a: int|
                    0 <= a < s.customers.entries@.len() && s.customers.entries@[a].0 == k;
                assert(s@.customers[k] == s.customers.entries@[a].1@);
                assert(crs[a].id <= counter);
            }
            assert forall|k: u64| #[trigger] s@.interactions.contains_key(k) implies k
                <= s@.counter && s@.interactions[k].id == k && enc_interaction(
                s@.interactions[k],
            ).len() <= MAX_RECORD_BYTES by {
                let a = choose|a: int|
                    0 <= a < s.interactions.entries@.len() && s.interactions.entries@[a].0 == k;
                assert(s@.interactions[k] == s.interactions.entries@[a].1@);
                assert(irs[a].id <= counter);
            }
        }
        Some(s)
    }
}

/// A persisted image always loads back: the three regions a well-formed
/// store writes are accepted, and hand back exactly what was written.
pub proof fn lemma_persisted_store_reloads(
    counter: u64,
    irs: Seq<InteractionV>,
    crs: Seq<CustomerV>,
)
    requires
        forall|i: int| #![trigger irs[i]]
            0 <= i < irs.len() ==> enc_interaction(irs[i]).len() <= MAX_RECORD_BYTES && irs[i].id
                <= counter,
        forall|i: int| #![trigger crs[i]]
            0 <= i < crs.len() ==> enc_customer(crs[i]).len() <= MAX_RECORD_BYTES && crs[i].id
                <= counter,
        ids_sorted_i(irs),
        ids_sorted_c(crs),
        irs.len() <= u64::MAX,
        crs.len() <= u64::MAX,
    ensures
        spec_load_store(
            seq![
                spec_u64_to_le_bytes(counter),
                interaction_region_bytes(irs),
                customer_region_bytes(crs),
            ],
        ) == Some((counter, irs, crs)),
{
    lemma_auto_spec_u64_to_from_le_bytes();
    lemma_parse_interaction_region(irs);
    lemma_parse_customer_region(crs);
}

} // verus!
