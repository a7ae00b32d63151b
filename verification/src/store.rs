//! The record service: CRUD and search over two durable ordered maps and the
//! one shared identifier counter. Customer and interaction ids are drawn from
//! the same sequence and may interleave.

use vstd::prelude::*;
use crate::dmap::DurableMap;
use crate::dmap::Record;
use crate::records::{Customer, CustomerV, Interaction, InteractionV, InteractionPayload,
    InteractionPayloadV, Error, valid_email, valid_phone, valid_payload, is_valid_email,
    is_valid_phone, is_valid_interaction_payload, dec_digits, u64_to_decimal};
use vstd::string::StringExecFns;
use crate::codec::{enc_customer, enc_interaction, customer_strings_fit, interaction_strings_fit,
    lemma_enc_customer_len, lemma_enc_interaction_len};
use crate::MAX_RECORD_BYTES;

verus! {

/// The durable counter: a single persisted 64-bit value, the source of
/// truth for the identifiers of both entity kinds.
pub struct IdCounter {
    pub value: u64,
}

impl IdCounter {
    pub fn new(value: u64) -> (r: Self)
        ensures
            r.value == value,
    {
        IdCounter { value }
    }

    /// Current value; no side effect.
    pub fn get(&self) -> (r: u64)
        ensures
            r == self.value,
    {
        self.value
    }

    /// Stores the new value and hands back the previous one.
    pub fn set(&mut self, new_value: u64) -> (r: u64)
        ensures
            final(self).value == new_value,
            r == old(self).value,
    {
        let prev = self.value;
        self.value = new_value;
        prev
    }
}

/// The freshly created customer record.
pub open spec fn spec_new_customer(
    id: u64,
    name: Seq<char>,
    email: Seq<char>,
    phone: Seq<char>,
    now: u64,
) -> CustomerV {
    CustomerV { id, name, email, phone, created_at: now }
}

/// The customer after an update: mutable fields overwritten, identity and
/// creation time kept. Customers carry no update timestamp at all.
pub open spec fn spec_updated_customer(
    c: CustomerV,
    name: Seq<char>,
    email: Seq<char>,
    phone: Seq<char>,
) -> CustomerV {
    CustomerV { id: c.id, name, email, phone, created_at: c.created_at }
}

/// The freshly created interaction record: no update timestamp yet.
pub open spec fn spec_new_interaction(id: u64, p: InteractionPayloadV, now: u64) -> InteractionV {
    InteractionV {
        id,
        customer_id: p.customer_id,
        interaction_type: p.interaction_type,
        content: p.content,
        created_at: now,
        updated_at: None,
    }
}

/// The interaction after an update: type and content overwritten, the
/// update timestamp refreshed; identity, owner and creation time kept.
pub open spec fn spec_updated_interaction(
    v: InteractionV,
    p: InteractionPayloadV,
    now: u64,
) -> InteractionV {
    InteractionV {
        id: v.id,
        customer_id: v.customer_id,
        interaction_type: p.interaction_type,
        content: p.content,
        created_at: v.created_at,
        updated_at: Some(now),
    }
}

/// One page of search results, and the count of all matches.
#[derive(Debug, PartialEq, Eq)]
pub struct SearchResult {
    pub total_items: usize,
    pub items: Vec<Customer>,
}

/// Whether a customer passes the optional filters, AND-combined; an absent
/// filter matches every record, a present one demands exact equality.
pub open spec fn customer_matches(
    c: CustomerV,
    name: Option<Seq<char>>,
    email: Option<Seq<char>>,
    phone: Option<Seq<char>>,
) -> bool {
    &&& (name matches Some(n) ==> c.name == n)
    &&& (email matches Some(e) ==> c.email == e)
    &&& (phone matches Some(p) ==> c.phone == p)
}

/// An optional filter string as an optional character sequence.
pub open spec fn filter_view(o: Option<String>) -> Option<Seq<char>> {
    match o {
        Some(s) => Some(s@),
        None => None,
    }
}

/// The views of a sequence of customers.
pub open spec fn customer_views(s: Seq<Customer>) -> Seq<CustomerV> {
    s.map_values(|c: Customer| c@)
}

/// The customers among `s` that pass the filters, in their order in `s`.
pub open spec fn matching_customers(
    s: Seq<CustomerV>,
    name: Option<Seq<char>>,
    email: Option<Seq<char>>,
    phone: Option<Seq<char>>,
) -> Seq<CustomerV> {
    s.filter(|c: CustomerV| customer_matches(c, name, email, phone))
}

/// A message naming the id concerned, for the error taxonomy.
fn msg_with_id(prefix: &str, id: u64, suffix: &str) -> (r: String)
    ensures
        r@ == prefix@ + dec_digits(id as nat) + suffix@,
{
    let mut m: String = prefix.to_owned();
    let num: String = u64_to_decimal(id);
    m.append(num.as_str());
    m.append(suffix);
    proof {
        assert(m@ =~= prefix@ + dec_digits(id as nat) + suffix@);
    }
    m
}

/// Whether one field passes one optional exact-equality filter.
fn filter_ok(filter: &Option<String>, field: &String) -> (r: bool)
    ensures
        r == (filter_view(*filter) matches Some(q) ==> field@ == q),
{
    match filter {
        Some(q) => field.eq(q),
        None => true,
    }
}

proof fn lemma_matching_push(
    s: Seq<CustomerV>,
    x: CustomerV,
    name: Option<Seq<char>>,
    email: Option<Seq<char>>,
    phone: Option<Seq<char>>,
)
    ensures
        matching_customers(s.push(x), name, email, phone) == if customer_matches(
            x,
            name,
            email,
            phone,
        ) {
            matching_customers(s, name, email, phone).push(x)
        } else {
            matching_customers(s, name, email, phone)
        },
{
    reveal(Seq::filter);
    assert(s.push(x).drop_last() =~= s);
    assert(s.push(x).last() == x);
}

/// The whole store: the shared counter and one durable map per entity kind.
pub struct Store {
    pub counter: IdCounter,
    pub customers: DurableMap<Customer>,
    pub interactions: DurableMap<Interaction>,
}

/// Mathematical view of a [`Store`].
pub struct StoreV {
    pub counter: u64,
    pub customers: Map<u64, CustomerV>,
    pub interactions: Map<u64, InteractionV>,
}

impl View for Store {
    type V = StoreV;

    open spec fn view(&self) -> StoreV {
        StoreV {
            counter: self.counter.value,
            customers: self.customers@,
            interactions: self.interactions@,
        }
    }
}

impl Store {
    /// Both maps are in key order; every stored key was minted (is at most
    /// the counter), equals its record's own id, and the record's encoding
    /// stays under the size ceiling.
    pub open spec fn wf(&self) -> bool {
        &&& self.customers.wf()
        &&& self.interactions.wf()
        &&& forall|k: u64| #[trigger]
            self@.customers.contains_key(k) ==> k <= self@.counter && self@.customers[k].id == k
                && enc_customer(self@.customers[k]).len() <= MAX_RECORD_BYTES
        &&& forall|k: u64| #[trigger]
            self@.interactions.contains_key(k) ==> k <= self@.counter
                && self@.interactions[k].id == k && enc_interaction(self@.interactions[k]).len()
                <= MAX_RECORD_BYTES
    }

    /// An empty store whose counter has minted nothing yet.
    pub fn new() -> (r: Self)
        ensures
            r.wf(),
            r@.counter == 0,
            r@.customers == Map::<u64, CustomerV>::empty(),
            r@.interactions == Map::<u64, InteractionV>::empty(),
    {
        Store {
            counter: IdCounter::new(0),
            customers: DurableMap::new(),
            interactions: DurableMap::new(),
        }
    }

    /// The counter's current value; every id minted so far is at most this.
    pub fn counter_value(&self) -> (r: u64)
        ensures
            r == self@.counter,
    {
        self.counter.get()
    }

    /// Mints a fresh identifier: reads the counter, stores the successor,
    /// and uses the successor as the new id.
    fn mint_id(&mut self) -> (id: u64)
        requires
            old(self).wf(),
            old(self)@.counter < u64::MAX,
        ensures
            final(self).wf(),
            id == old(self)@.counter + 1,
            final(self)@.counter == id,
            final(self).customers == old(self).customers,
            final(self).interactions == old(self).interactions,
    {
        let current = self.counter.get();
        let id = current + 1;
        let _prev = self.counter.set(id);
        proof {
            assert forall|k: u64| #[trigger] self@.customers.contains_key(k) implies k
                <= self@.counter && self@.customers[k].id == k && enc_customer(
                self@.customers[k],
            ).len() <= MAX_RECORD_BYTES by {
                assert(old(self)@.customers.contains_key(k));
            }
            assert forall|k: u64| #[trigger] self@.interactions.contains_key(k) implies k
                <= self@.counter && self@.interactions[k].id == k && enc_interaction(
                self@.interactions[k],
            ).len() <= MAX_RECORD_BYTES by {
                assert(old(self)@.interactions.contains_key(k));
            }
        }
        id
    }

    /// Point lookup of a customer.
    pub fn _get_customer(&self, id: u64) -> (r: Option<Customer>)
        requires
            self.wf(),
        ensures
            match r {
                Some(c) => self@.customers.contains_key(id) && c@ == self@.customers[id],
                None => !self@.customers.contains_key(id),
            },
    {
        self.customers.get(id)
    }

    /// Point lookup of an interaction.
    pub fn _get_interaction(&self, id: u64) -> (r: Option<Interaction>)
        requires
            self.wf(),
        ensures
            match r {
                Some(v) => self@.interactions.contains_key(id) && v@ == self@.interactions[id],
                None => !self@.interactions.contains_key(id),
            },
    {
        self.interactions.get(id)
    }

    /// Stores the customer under its own id, overwriting what was there.
    pub fn do_insert_customer(&mut self, customer: &Customer)
        requires
            old(self).wf(),
            customer@.id <= old(self)@.counter,
            enc_customer(customer@).len() <= MAX_RECORD_BYTES,
        ensures
            final(self).wf(),
            final(self)@.customers == old(self)@.customers.insert(customer@.id, customer@),
            final(self)@.interactions == old(self)@.interactions,
            final(self)@.counter == old(self)@.counter,
    {
        let dup = customer.duplicate();
        let _prev = self.customers.insert(customer.id, dup);
        proof {
            assert forall|k: u64| #[trigger] self@.customers.contains_key(k) implies k
                <= self@.counter && self@.customers[k].id == k && enc_customer(
                self@.customers[k],
            ).len() <= MAX_RECORD_BYTES by {
                if k != customer@.id {
                    assert(old(self)@.customers.contains_key(k));
                    assert(self@.customers[k] == old(self)@.customers[k]);
                } else {
                    assert(self@.customers[k] == customer@);
                }
            }
            assert forall|k: u64| #[trigger] self@.interactions.contains_key(k) implies k
                <= self@.counter && self@.interactions[k].id == k && enc_interaction(
                self@.interactions[k],
            ).len() <= MAX_RECORD_BYTES by {
                assert(old(self)@.interactions.contains_key(k));
                assert(self@.interactions[k] == old(self)@.interactions[k]);
            }
        }
    }

    /// Stores the interaction under its own id, overwriting what was there.
    pub fn do_insert_interaction(&mut self, interaction: &Interaction)
        requires
            old(self).wf(),
            interaction@.id <= old(self)@.counter,
            enc_interaction(interaction@).len() <= MAX_RECORD_BYTES,
        ensures
            final(self).wf(),
            final(self)@.interactions == old(self)@.interactions.insert(
                interaction@.id,
                interaction@,
            ),
            final(self)@.customers == old(self)@.customers,
            final(self)@.counter == old(self)@.counter,
    {
        let dup = interaction.duplicate();
        let _prev = self.interactions.insert(interaction.id, dup);
        proof {
            assert forall|k: u64| #[trigger] self@.interactions.contains_key(k) implies k
                <= self@.counter && self@.interactions[k].id == k && enc_interaction(
                self@.interactions[k],
            ).len() <= MAX_RECORD_BYTES by {
                if k != interaction@.id {
                    assert(old(self)@.interactions.contains_key(k));
                    assert(self@.interactions[k] == old(self)@.interactions[k]);
                } else {
                    assert(self@.interactions[k] == interaction@);
                }
            }
            assert forall|k: u64| #[trigger] self@.customers.contains_key(k) implies k
                <= self@.counter && self@.customers[k].id == k && enc_customer(
                self@.customers[k],
            ).len() <= MAX_RECORD_BYTES by {
                assert(old(self)@.customers.contains_key(k));
                assert(self@.customers[k] == old(self)@.customers[k]);
            }
        }
    }

    /// Validates the strings, mints a fresh id, stamps the creation time and
    /// stores the new customer. The new id is strictly greater than every
    /// id minted before, of either entity kind.
    pub fn add_customer(&mut self, name: String, email: String, phone: String, now: u64) -> (r:
        Result<Customer, Error>)
        requires
            old(self).wf(),
            old(self)@.counter < u64::MAX,
            customer_strings_fit(name@, email@, phone@),
        ensures
            final(self).wf(),
            r is Ok <==> valid_email(email@) && valid_phone(phone@),
            r matches Err(e) ==> (e matches Error::InvalidInput { msg } && msg@
                == "Invalid email or phone format"@) && *final(self) == *old(self),
            r matches Ok(c) ==> {
                let id = (old(self)@.counter + 1) as u64;
                &&& c@ == spec_new_customer(id, name@, email@, phone@, now)
                &&& final(self)@.counter == id
                &&& final(self)@.customers == old(self)@.customers.insert(id, c@)
                &&& final(self)@.interactions == old(self)@.interactions
                &&& !old(self)@.customers.contains_key(id)
                &&& !old(self)@.interactions.contains_key(id)
                &&& forall|k: u64|
                    old(self)@.customers.contains_key(k) || old(self)@.interactions.contains_key(
                        k,
                    ) ==> k < id
            },
    {
        if !is_valid_email(email.as_str()) || !is_valid_phone(phone.as_str()) {
            return Err(Error::InvalidInput { msg: "Invalid email or phone format".to_owned() });
        }
        let id = self.mint_id();
        let customer = Customer { id, name, email, phone, created_at: now };
        proof {
            lemma_enc_customer_len(customer@);
        }
        self.do_insert_customer(&customer);
        Ok(customer)
    }

    /// The customer stored under the id, or `NotFound`.
    pub fn get_customer(&self, id: u64) -> (r: Result<Customer, Error>)
        requires
            self.wf(),
        ensures
            r is Ok <==> self@.customers.contains_key(id),
            r matches Ok(c) ==> c@ == self@.customers[id],
            r matches Err(e) ==> e matches Error::NotFound { msg } && msg@
                == "a customer with id="@ + dec_digits(id as nat) + " not found"@,
    {
        match self._get_customer(id) {
            Some(customer) => Ok(customer),
            None => Err(
                Error::NotFound { msg: msg_with_id("a customer with id=", id, " not found") },
            ),
        }
    }

    /// Validates first — invalid input on a nonexistent id yields
    /// `InvalidInput`, not `NotFound` — then overwrites the mutable fields
    /// and persists the record. The creation time is kept.
    pub fn update_customer(&mut self, id: u64, name: String, email: String, phone: String) -> (r:
        Result<Customer, Error>)
        requires
            old(self).wf(),
            customer_strings_fit(name@, email@, phone@),
        ensures
            final(self).wf(),
            final(self)@.counter == old(self)@.counter,
            final(self)@.interactions == old(self)@.interactions,
            r is Ok <==> valid_email(email@) && valid_phone(phone@)
                && old(self)@.customers.contains_key(id),
            !(valid_email(email@) && valid_phone(phone@)) ==> (r matches Err(e) && e matches
                Error::InvalidInput { msg } && msg@ == "Invalid email or phone format"@) && *final(self)
                == *old(self),
            valid_email(email@) && valid_phone(phone@) && !old(self)@.customers.contains_key(id)
                ==> (r matches Err(e) && e matches Error::NotFound { msg } && msg@
                == "couldn't update a customer with id="@ + dec_digits(id as nat)
                + ". Customer not found"@) && *final(self) == *old(self),
            r matches Ok(c) ==> {
                &&& c@ == spec_updated_customer(old(self)@.customers[id], name@, email@, phone@)
                &&& final(self)@.customers == old(self)@.customers.insert(id, c@)
            },
    {
        if !is_valid_email(email.as_str()) || !is_valid_phone(phone.as_str()) {
            return Err(Error::InvalidInput { msg: "Invalid email or phone format".to_owned() });
        }
        match self._get_customer(id) {
            Some(stored) => {
                let customer = Customer {
                    id: stored.id,
                    name,
                    email,
                    phone,
                    created_at: stored.created_at,
                };
                proof {
                    lemma_enc_customer_len(customer@);
                }
                self.do_insert_customer(&customer);
                Ok(customer)
            },
            None => Err(
                Error::NotFound {
                    msg: msg_with_id(
                        "couldn't update a customer with id=",
                        id,
                        ". Customer not found",
                    ),
                },
            ),
        }
    }

    /// Removes and returns the customer stored under the id, or `NotFound`.
    pub fn delete_customer(&mut self, id: u64) -> (r: Result<Customer, Error>)
        requires
            old(self).wf(),
        ensures
            final(self).wf(),
            final(self)@.counter == old(self)@.counter,
            final(self)@.interactions == old(self)@.interactions,
            final(self)@.customers == old(self)@.customers.remove(id),
            r is Ok <==> old(self)@.customers.contains_key(id),
            r matches Ok(c) ==> c@ == old(self)@.customers[id],
            r matches Err(e) ==> (e matches Error::NotFound { msg } && msg@
                == "couldn't delete a customer with id="@ + dec_digits(id as nat)
                + ". Customer not found"@) && final(self)@ == old(self)@,
    {
        let r = self.customers.remove(id);
        proof {
            assert forall|k: u64| #[trigger] self@.customers.contains_key(k) implies k
                <= self@.counter && self@.customers[k].id == k && enc_customer(
                self@.customers[k],
            ).len() <= MAX_RECORD_BYTES by {
                assert(old(self)@.customers.contains_key(k));
                assert(self@.customers[k] == old(self)@.customers[k]);
            }
            assert forall|k: u64| #[trigger] self@.interactions.contains_key(k) implies k
                <= self@.counter && self@.interactions[k].id == k && enc_interaction(
                self@.interactions[k],
            ).len() <= MAX_RECORD_BYTES by {
                assert(old(self)@.interactions.contains_key(k));
                assert(self@.interactions[k] == old(self)@.interactions[k]);
            }
        }
        match r {
            Some(customer) => Ok(customer),
            None => {
                proof {
                    assert(old(self)@.customers.remove(id) =~= old(self)@.customers);
                }
                Err(
                    Error::NotFound {
                        msg: msg_with_id(
                            "couldn't delete a customer with id=",
                            id,
                            ". Customer not found",
                        ),
                    },
                )
            },
        }
    }

    /// Validates the payload, mints a fresh id from the same shared counter
    /// as customers, stamps the creation time, leaves the update timestamp
    /// absent, and stores the new interaction.
    pub fn add_interaction(&mut self, payload: InteractionPayload, now: u64) -> (r: Result<
        Interaction,
        Error,
    >)
        requires
            old(self).wf(),
            old(self)@.counter < u64::MAX,
            interaction_strings_fit(payload@.interaction_type, payload@.content),
        ensures
            final(self).wf(),
            r is Ok <==> valid_payload(payload@),
            r matches Err(e) ==> (e matches Error::InvalidInput { msg } && msg@
                == "Invalid interaction payload"@) && *final(self) == *old(self),
            r matches Ok(v) ==> {
                let id = (old(self)@.counter + 1) as u64;
                &&& v@ == spec_new_interaction(id, payload@, now)
                &&& final(self)@.counter == id
                &&& final(self)@.interactions == old(self)@.interactions.insert(id, v@)
                &&& final(self)@.customers == old(self)@.customers
                &&& !old(self)@.interactions.contains_key(id)
                &&& !old(self)@.customers.contains_key(id)
                &&& forall|k: u64|
                    old(self)@.customers.contains_key(k) || old(self)@.interactions.contains_key(
                        k,
                    ) ==> k < id
            },
    {
        if !is_valid_interaction_payload(&payload) {
            return Err(Error::InvalidInput { msg: "Invalid interaction payload".to_owned() });
        }
        let id = self.mint_id();
        let interaction = Interaction {
            id,
            customer_id: payload.customer_id,
            interaction_type: payload.interaction_type,
            content: payload.content,
            created_at: now,
            updated_at: None,
        };
        proof {
            lemma_enc_interaction_len(interaction@);
        }
        self.do_insert_interaction(&interaction);
        Ok(interaction)
    }

    /// The interaction stored under the id, or `NotFound`.
    pub fn get_interaction(&self, id: u64) -> (r: Result<Interaction, Error>)
        requires
            self.wf(),
        ensures
            r is Ok <==> self@.interactions.contains_key(id),
            r matches Ok(v) ==> v@ == self@.interactions[id],
            r matches Err(e) ==> e matches Error::NotFound { msg } && msg@
                == "an interaction with id="@ + dec_digits(id as nat) + " not found"@,
    {
        match self._get_interaction(id) {
            Some(interaction) => Ok(interaction),
            None => Err(
                Error::NotFound { msg: msg_with_id("an interaction with id=", id, " not found") },
            ),
        }
    }

    /// Validates first, then overwrites type and content, refreshes the
    /// update timestamp to `now`, and persists. The owning customer id and
    /// the creation time are kept.
    pub fn update_interaction(&mut self, id: u64, payload: InteractionPayload, now: u64) -> (r:
        Result<Interaction, Error>)
        requires
            old(self).wf(),
            interaction_strings_fit(payload@.interaction_type, payload@.content),
        ensures
            final(self).wf(),
            final(self)@.counter == old(self)@.counter,
            final(self)@.customers == old(self)@.customers,
            r is Ok <==> valid_payload(payload@) && old(self)@.interactions.contains_key(id),
            !valid_payload(payload@) ==> (r matches Err(e) && e matches Error::InvalidInput {
                msg } && msg@ == "Invalid interaction payload"@) && *final(self) == *old(self),
            valid_payload(payload@) && !old(self)@.interactions.contains_key(id) ==> (r matches
                Err(e) && e matches Error::NotFound { msg } && msg@
                == "couldn't update an interaction with id="@ + dec_digits(id as nat)
                + ". Interaction not found"@) && *final(self) == *old(self),
            r matches Ok(v) ==> {
                &&& v@ == spec_updated_interaction(old(self)@.interactions[id], payload@, now)
                &&& final(self)@.interactions == old(self)@.interactions.insert(id, v@)
            },
    {
        if !is_valid_interaction_payload(&payload) {
            return Err(Error::InvalidInput { msg: "Invalid interaction payload".to_owned() });
        }
        match self._get_interaction(id) {
            Some(stored) => {
                let interaction = Interaction {
                    id: stored.id,
                    customer_id: stored.customer_id,
                    interaction_type: payload.interaction_type,
                    content: payload.content,
                    created_at: stored.created_at,
                    updated_at: Some(now),
                };
                proof {
                    lemma_enc_interaction_len(interaction@);
                }
                self.do_insert_interaction(&interaction);
                Ok(interaction)
            },
            None => Err(
                Error::NotFound {
                    msg: msg_with_id(
                        "couldn't update an interaction with id=",
                        id,
                        ". Interaction not found",
                    ),
                },
            ),
        }
    }

    /// Removes and returns the interaction stored under the id, or
    /// `NotFound`.
    pub fn delete_interaction(&mut self, id: u64) -> (r: Result<Interaction, Error>)
        requires
            old(self).wf(),
        ensures
            final(self).wf(),
            final(self)@.counter == old(self)@.counter,
            final(self)@.customers == old(self)@.customers,
            final(self)@.interactions == old(self)@.interactions.remove(id),
            r is Ok <==> old(self)@.interactions.contains_key(id),
            r matches Ok(v) ==> v@ == old(self)@.interactions[id],
            r matches Err(e) ==> (e matches Error::NotFound { msg } && msg@
                == "couldn't delete an interaction with id="@ + dec_digits(id as nat)
                + ". Interaction not found"@) && final(self)@ == old(self)@,
    {
        let r = self.interactions.remove(id);
        proof {
            assert forall|k: u64| #[trigger] self@.interactions.contains_key(k) implies k
                <= self@.counter && self@.interactions[k].id == k && enc_interaction(
                self@.interactions[k],
            ).len() <= MAX_RECORD_BYTES by {
                assert(old(self)@.interactions.contains_key(k));
                assert(self@.interactions[k] == old(self)@.interactions[k]);
            }
            assert forall|k: u64| #[trigger] self@.customers.contains_key(k) implies k
                <= self@.counter && self@.customers[k].id == k && enc_customer(
                self@.customers[k],
            ).len() <= MAX_RECORD_BYTES by {
                assert(old(self)@.customers.contains_key(k));
                assert(self@.customers[k] == old(self)@.customers[k]);
            }
        }
        match r {
            Some(interaction) => Ok(interaction),
            None => {
                proof {
                    assert(old(self)@.interactions.remove(id) =~= old(self)@.interactions);
                }
                Err(
                    Error::NotFound {
                        msg: msg_with_id(
                            "couldn't delete an interaction with id=",
                            id,
                            ". Interaction not found",
                        ),
                    },
                )
            },
        }
    }

    /// All customer records in ascending id order.
    pub open spec fn customers_in_order(&self) -> Seq<CustomerV> {
        self.customers.entries@.map_values(|e: (u64, Customer)| e.1@)
    }

    /// Linear scan of all customers in ascending id order, AND-combining the
    /// optional exact-equality filters. Pages are 1-based: `page_number == 0`
    /// is an input error, never an out-of-range slice. `total_items` counts
    /// all matches, not only the page handed back.
    pub fn search_customers(
        &self,
        name: Option<String>,
        email: Option<String>,
        phone: Option<String>,
        page_size: u64,
        page_number: u64,
    ) -> (r: Result<SearchResult, Error>)
        requires
            self.wf(),
        ensures
            r is Ok <==> page_number >= 1,
            r matches Err(e) ==> e matches Error::InvalidInput { msg } && msg@
                == "Page number must be at least 1"@,
            r matches Ok(res) ==> {
                let ms = matching_customers(
                    self.customers_in_order(),
                    filter_view(name),
                    filter_view(email),
                    filter_view(phone),
                );
                let t = ms.len() as int;
                let start = (page_number - 1) as int * page_size as int;
                let lo = if start > t {
                    t
                } else {
                    start
                };
                let hi = if start + page_size as int > t {
                    t
                } else {
                    start + page_size as int
                };
                &&& res.total_items == t
                &&& customer_views(res.items@) == ms.subrange(lo, hi)
            },
    {
        if page_number == 0 {
            return Err(Error::InvalidInput { msg: "Page number must be at least 1".to_owned() });
        }
        let ghost full = self.customers_in_order();
        let ghost nv = filter_view(name);
        let ghost ev = filter_view(email);
        let ghost pv = filter_view(phone);
        let snap: Vec<(u64, Customer)> = self.customers.iter();
        let n: usize = snap.len();
        let mut found: Vec<Customer> = Vec::new();
        let mut i: usize = 0;
        proof {
            assert(full.take(0) =~= Seq::<CustomerV>::empty());
            assert(matching_customers(full.take(0), nv, ev, pv) =~= Seq::<CustomerV>::empty()) by {
                reveal(Seq::filter);
            }
            assert(customer_views(found@) =~= Seq::<CustomerV>::empty());
        }
        while i < n
            invariant
                i <= n,
                n == snap@.len(),
                n == full.len(),
                nv == filter_view(name),
                ev == filter_view(email),
                pv == filter_view(phone),
                forall|j: int| #![trigger snap@[j]] 0 <= j < n ==> snap@[j].1@ == full[j],
                customer_views(found@) == matching_customers(full.take(i as int), nv, ev, pv),
            decreases n - i,
        {
            let cand = &snap[i].1;
            let name_ok: bool = filter_ok(&name, &cand.name);
            let email_ok: bool = filter_ok(&email, &cand.email);
            let phone_ok: bool = filter_ok(&phone, &cand.phone);
            proof {
                lemma_matching_push(full.take(i as int), full[i as int], nv, ev, pv);
                assert(full.take(i as int + 1) =~= full.take(i as int).push(full[i as int]));
                assert(cand@ == full[i as int]);
                assert((name_ok && email_ok && phone_ok) == customer_matches(
                    full[i as int],
                    nv,
                    ev,
                    pv,
                ));
            }
            if name_ok && email_ok && phone_ok {
                found.push(cand.duplicate());
                proof {
                    assert(customer_views(found@) =~= matching_customers(
                        full.take(i as int + 1),
                        nv,
                        ev,
                        pv,
                    ));
                }
            }
            i += 1;
        }
        proof {
            assert(full.take(n as int) =~= full);
        }
        let ghost ms = matching_customers(full, nv, ev, pv);
        let total: usize = found.len();
        let a: u128 = (page_number - 1) as u128;
        let b: u128 = page_size as u128;
        proof {
            assert(a * b <= 0xffffffffffffffffu128 * 0xffffffffffffffffu128) by (nonlinear_arith)
                requires
                    a <= 0xffffffffffffffffu128,
                    b <= 0xffffffffffffffffu128,
            ;
        }
        let start128: u128 = a * b;
        let mut items: Vec<Customer> = Vec::new();
        if start128 < total as u128 {
            let lo: usize = start128 as usize;
            let end128: u128 = start128 + b;
            let hi: usize = if end128 >= total as u128 {
                total
            } else {
                end128 as usize
            };
            let mut j: usize = lo;
            proof {
                assert(customer_views(items@) =~= ms.subrange(lo as int, lo as int));
            }
            while j < hi
                invariant
                    lo <= j <= hi,
                    hi <= total,
                    total == found@.len(),
                    customer_views(found@) == ms,
                    customer_views(items@) == ms.subrange(lo as int, j as int),
                decreases hi - j,
            {
                items.push(found[j].duplicate());
                proof {
                    assert(ms.subrange(lo as int, j as int + 1) =~= ms.subrange(
                        lo as int,
                        j as int,
                    ).push(ms[j as int]));
                    assert(customer_views(items@) =~= ms.subrange(lo as int, j as int + 1));
                }
                j += 1;
            }
            Ok(SearchResult { total_items: total, items })
        } else {
            proof {
                assert(customer_views(items@) =~= ms.subrange(total as int, total as int));
            }
            Ok(SearchResult { total_items: total, items })
        }
    }
}

} // verus!
