//! The entity codec: each record type as a bounded byte representation for
//! storage. A record is a run of length-prefixed blocks, one per field;
//! strings are stored as their UTF-8 bytes. Decoding inverts encoding, and
//! encodings over the size ceiling are never written.

use vstd::prelude::*;
use vstd::bytes::*;
use vstd::utf8::{valid_utf8, encode_utf8, decode_utf8, encode_utf8_valid_utf8,
    encode_utf8_decode_utf8, decode_utf8_encode_utf8};
use crate::chunks::{chunk, cat_chunks, parse_chunks, bounded_payloads, append_chunk, split_chunks,
    lemma_parse_cat_chunks, lemma_parse_chunks_len, lemma_cat_chunks_push, lemma_cat_parse_chunks};
use crate::records::{Customer, CustomerV, Interaction, InteractionV};
use crate::MAX_RECORD_BYTES;

verus! {

/// Relies on `core::str::from_utf8` (then `str::to_owned`): hands back the
/// character sequence whose UTF-8 encoding is the input, and fails exactly
/// on input that is not valid UTF-8.
#[verifier::external_body]
fn string_from_utf8(v: &Vec<u8>) -> (r: Option<String>)
    ensures
        r matches Some(s) ==> encode_utf8(s@) == v@,
        r is Some <==> valid_utf8(v@),
{
    match core::str::from_utf8(v.as_slice()) {
        Ok(s) => Some(s.to_owned()),
        Err(_) => None,
    }
}

/// An optional timestamp: one tag byte, then the value if present.
pub open spec fn enc_opt_u64(o: Option<u64>) -> Seq<u8> {
    match o {
        None => seq![0u8],
        Some(t) => seq![1u8] + spec_u64_to_le_bytes(t),
    }
}

pub open spec fn dec_opt_u64(b: Seq<u8>) -> Option<Option<u64>> {
    if b.len() == 1 && b[0] == 0 {
        Some(None)
    } else if b.len() == 9 && b[0] == 1 {
        Some(Some(spec_u64_from_le_bytes(b.skip(1))))
    } else {
        None
    }
}

pub proof fn lemma_dec_enc_opt_u64(o: Option<u64>)
    ensures
        dec_opt_u64(enc_opt_u64(o)) == Some(o),
{
    lemma_auto_spec_u64_to_from_le_bytes();
    match o {
        None => {},
        Some(t) => {
            assert(enc_opt_u64(o).skip(1) =~= spec_u64_to_le_bytes(t));
        },
    }
}

fn encode_opt_u64(o: &Option<u64>) -> (r: Vec<u8>)
    ensures
        r@ == enc_opt_u64(*o),
{
    match o {
        None => {
            let mut v: Vec<u8> = Vec::new();
            v.push(0u8);
            proof {
                assert(v@ =~= seq![0u8]);
            }
            v
        },
        Some(t) => {
            let mut v: Vec<u8> = Vec::new();
            v.push(1u8);
            let tb: Vec<u8> = u64_to_le_bytes(*t);
            v.extend_from_slice(tb.as_slice());
            proof {
                assert(v@ =~= seq![1u8] + spec_u64_to_le_bytes(*t));
            }
            v
        },
    }
}

fn decode_opt_u64(b: &Vec<u8>) -> (r: Option<Option<u64>>)
    ensures
        r == dec_opt_u64(b@),
{
    if b.len() == 1 && b[0] == 0 {
        Some(None)
    } else if b.len() == 9 && b[0] == 1 {
        let t: u64 = u64_from_le_bytes(vstd::slice::slice_subrange(b.as_slice(), 1, 9));
        proof {
            assert(b@.subrange(1, 9) =~= b@.skip(1));
        }
        Some(Some(t))
    } else {
        None
    }
}

/// The field blocks of a customer record, in storage order.
pub open spec fn customer_payloads(c: CustomerV) -> Seq<Seq<u8>> {
    seq![
        spec_u64_to_le_bytes(c.id),
        spec_u64_to_le_bytes(c.created_at),
        encode_utf8(c.name),
        encode_utf8(c.email),
        encode_utf8(c.phone),
    ]
}

pub open spec fn enc_customer(c: CustomerV) -> Seq<u8> {
    cat_chunks(customer_payloads(c))
}

pub open spec fn dec_customer(b: Seq<u8>) -> Option<CustomerV> {
    match parse_chunks(b, 5) {
        Some(ps) => if ps[0].len() == 8 && ps[1].len() == 8 && valid_utf8(ps[2]) && valid_utf8(
            ps[3],
        ) && valid_utf8(ps[4]) {
            Some(
                CustomerV {
                    id: spec_u64_from_le_bytes(ps[0]),
                    name: decode_utf8(ps[2]),
                    email: decode_utf8(ps[3]),
                    phone: decode_utf8(ps[4]),
                    created_at: spec_u64_from_le_bytes(ps[1]),
                },
            )
        } else {
            None
        },
        None => None,
    }
}

/// The field blocks of an interaction record, in storage order.
pub open spec fn interaction_payloads(v: InteractionV) -> Seq<Seq<u8>> {
    seq![
        spec_u64_to_le_bytes(v.id),
        spec_u64_to_le_bytes(v.customer_id),
        spec_u64_to_le_bytes(v.created_at),
        enc_opt_u64(v.updated_at),
        encode_utf8(v.interaction_type),
        encode_utf8(v.content),
    ]
}

pub open spec fn enc_interaction(v: InteractionV) -> Seq<u8> {
    cat_chunks(interaction_payloads(v))
}

pub open spec fn dec_interaction(b: Seq<u8>) -> Option<InteractionV> {
    match parse_chunks(b, 6) {
        Some(ps) => if ps[0].len() == 8 && ps[1].len() == 8 && ps[2].len() == 8 && dec_opt_u64(
            ps[3],
        ) is Some && valid_utf8(ps[4]) && valid_utf8(ps[5]) {
            Some(
                InteractionV {
                    id: spec_u64_from_le_bytes(ps[0]),
                    customer_id: spec_u64_from_le_bytes(ps[1]),
                    interaction_type: decode_utf8(ps[4]),
                    content: decode_utf8(ps[5]),
                    created_at: spec_u64_from_le_bytes(ps[2]),
                    updated_at: dec_opt_u64(ps[3])->0,
                },
            )
        } else {
            None
        },
        None => None,
    }
}

/// Whether customer records carrying these strings stay under the size
/// ceiling; the encoded size does not depend on the numeric fields.
pub open spec fn customer_strings_fit(name: Seq<char>, email: Seq<char>, phone: Seq<char>) -> bool {
    56 + encode_utf8(name).len() + encode_utf8(email).len() + encode_utf8(phone).len()
        <= MAX_RECORD_BYTES
}

/// Whether interaction records carrying these strings stay under the size
/// ceiling, whatever their numeric fields and update timestamp.
pub open spec fn interaction_strings_fit(interaction_type: Seq<char>, content: Seq<char>) -> bool {
    81 + encode_utf8(interaction_type).len() + encode_utf8(content).len() <= MAX_RECORD_BYTES
}

pub proof fn lemma_enc_customer_len(c: CustomerV)
    ensures
        enc_customer(c).len() == 56 + encode_utf8(c.name).len() + encode_utf8(c.email).len()
            + encode_utf8(c.phone).len(),
{
    lemma_auto_spec_u64_to_from_le_bytes();
    let ps = customer_payloads(c);
    let tail1 = ps.drop_first();
    let tail2 = tail1.drop_first();
    let tail3 = tail2.drop_first();
    let tail4 = tail3.drop_first();
    let tail5 = tail4.drop_first();
    assert(tail1 =~= seq![ps[1], ps[2], ps[3], ps[4]]);
    assert(tail2 =~= seq![ps[2], ps[3], ps[4]]);
    assert(tail3 =~= seq![ps[3], ps[4]]);
    assert(tail4 =~= seq![ps[4]]);
    assert(tail5 =~= Seq::<Seq<u8>>::empty());
    assert(cat_chunks(tail5) == Seq::<u8>::empty());
    assert(cat_chunks(tail4) == chunk(ps[4]) + cat_chunks(tail5));
    assert(cat_chunks(tail3) == chunk(ps[3]) + cat_chunks(tail4));
    assert(cat_chunks(tail2) == chunk(ps[2]) + cat_chunks(tail3));
    assert(cat_chunks(tail1) == chunk(ps[1]) + cat_chunks(tail2));
    assert(cat_chunks(ps) == chunk(ps[0]) + cat_chunks(tail1));
}

pub proof fn lemma_enc_interaction_len(v: InteractionV)
    ensures
        enc_interaction(v).len() == 72 + enc_opt_u64(v.updated_at).len() + encode_utf8(
            v.interaction_type,
        ).len() + encode_utf8(v.content).len(),
        enc_opt_u64(v.updated_at).len() == if v.updated_at is Some { 9int } else { 1int },
{
    lemma_auto_spec_u64_to_from_le_bytes();
    let ps = interaction_payloads(v);
    let tail1 = ps.drop_first();
    let tail2 = tail1.drop_first();
    let tail3 = tail2.drop_first();
    let tail4 = tail3.drop_first();
    let tail5 = tail4.drop_first();
    let tail6 = tail5.drop_first();
    assert(tail1 =~= seq![ps[1], ps[2], ps[3], ps[4], ps[5]]);
    assert(tail2 =~= seq![ps[2], ps[3], ps[4], ps[5]]);
    assert(tail3 =~= seq![ps[3], ps[4], ps[5]]);
    assert(tail4 =~= seq![ps[4], ps[5]]);
    assert(tail5 =~= seq![ps[5]]);
    assert(tail6 =~= Seq::<Seq<u8>>::empty());
    assert(cat_chunks(tail6) == Seq::<u8>::empty());
    assert(cat_chunks(tail5) == chunk(ps[5]) + cat_chunks(tail6));
    assert(cat_chunks(tail4) == chunk(ps[4]) + cat_chunks(tail5));
    assert(cat_chunks(tail3) == chunk(ps[3]) + cat_chunks(tail4));
    assert(cat_chunks(tail2) == chunk(ps[2]) + cat_chunks(tail3));
    assert(cat_chunks(tail1) == chunk(ps[1]) + cat_chunks(tail2));
    assert(cat_chunks(ps) == chunk(ps[0]) + cat_chunks(tail1));
}

/// Decoding inverts encoding, for any customer record whose encoding's
/// length can be written as a `u64`.
pub proof fn lemma_dec_enc_customer(c: CustomerV)
    requires
        enc_customer(c).len() <= u64::MAX,
    ensures
        dec_customer(enc_customer(c)) == Some(c),
{
    lemma_auto_spec_u64_to_from_le_bytes();
    lemma_enc_customer_len(c);
    let ps = customer_payloads(c);
    assert(bounded_payloads(ps)) by {
        assert forall|i: int| 0 <= i < ps.len() implies #[trigger] ps[i].len() <= u64::MAX by {}
    }
    lemma_parse_cat_chunks(ps);
    encode_utf8_valid_utf8(c.name);
    encode_utf8_valid_utf8(c.email);
    encode_utf8_valid_utf8(c.phone);
    encode_utf8_decode_utf8(c.name);
    encode_utf8_decode_utf8(c.email);
    encode_utf8_decode_utf8(c.phone);
}

/// Decoding inverts encoding, for any interaction record whose encoding's
/// length can be written as a `u64`.
pub proof fn lemma_dec_enc_interaction(v: InteractionV)
    requires
        enc_interaction(v).len() <= u64::MAX,
    ensures
        dec_interaction(enc_interaction(v)) == Some(v),
{
    lemma_auto_spec_u64_to_from_le_bytes();
    lemma_enc_interaction_len(v);
    let ps = interaction_payloads(v);
    assert(bounded_payloads(ps)) by {
        assert forall|i: int| 0 <= i < ps.len() implies #[trigger] ps[i].len() <= u64::MAX by {}
    }
    lemma_parse_cat_chunks(ps);
    lemma_dec_enc_opt_u64(v.updated_at);
    encode_utf8_valid_utf8(v.interaction_type);
    encode_utf8_valid_utf8(v.content);
    encode_utf8_decode_utf8(v.interaction_type);
    encode_utf8_decode_utf8(v.content);
}

pub proof fn lemma_enc_dec_opt_u64(b: Seq<u8>)
    requires
        dec_opt_u64(b) matches Some(o),
    ensures
        enc_opt_u64(dec_opt_u64(b)->0) == b,
{
    lemma_auto_spec_u64_to_from_le_bytes();
    if b.len() == 1 && b[0] == 0 {
        assert(enc_opt_u64(None) =~= b);
    } else {
        assert(b.skip(1).len() == 8);
        assert(spec_u64_to_le_bytes(spec_u64_from_le_bytes(b.skip(1))) == b.skip(1));
        assert(seq![1u8] + b.skip(1) =~= b);
    }
}

/// Decoding is inverted by encoding: the byte representation is canonical.
pub proof fn lemma_enc_dec_customer(b: Seq<u8>)
    requires
        dec_customer(b) matches Some(c),
    ensures
        enc_customer(dec_customer(b)->0) == b,
{
    lemma_auto_spec_u64_to_from_le_bytes();
    lemma_parse_chunks_len(b, 5);
    lemma_cat_parse_chunks(b, 5);
    let ps = parse_chunks(b, 5)->0;
    let c = dec_customer(b)->0;
    decode_utf8_encode_utf8(ps[2]);
    decode_utf8_encode_utf8(ps[3]);
    decode_utf8_encode_utf8(ps[4]);
    assert(customer_payloads(c) =~= ps);
}

/// Decoding is inverted by encoding: the byte representation is canonical.
pub proof fn lemma_enc_dec_interaction(b: Seq<u8>)
    requires
        dec_interaction(b) matches Some(v),
    ensures
        enc_interaction(dec_interaction(b)->0) == b,
{
    lemma_auto_spec_u64_to_from_le_bytes();
    lemma_parse_chunks_len(b, 6);
    lemma_cat_parse_chunks(b, 6);
    let ps = parse_chunks(b, 6)->0;
    let v = dec_interaction(b)->0;
    lemma_enc_dec_opt_u64(ps[3]);
    decode_utf8_encode_utf8(ps[4]);
    decode_utf8_encode_utf8(ps[5]);
    assert(interaction_payloads(v) =~= ps);
}

pub fn encode_customer(c: &Customer) -> (r: Vec<u8>)
    ensures
        r@ == enc_customer(c@),
{
    let mut out: Vec<u8> = Vec::new();
    let ghost mut ps: Seq<Seq<u8>> = Seq::empty();
    let p0: Vec<u8> = u64_to_le_bytes(c.id);
    append_chunk(&mut out, &p0);
    proof {
        assert(cat_chunks(ps) == Seq::<u8>::empty());
        lemma_cat_chunks_push(ps, p0@);
        ps = ps.push(p0@);
    }
    let p1: Vec<u8> = u64_to_le_bytes(c.created_at);
    append_chunk(&mut out, &p1);
    proof {
        lemma_cat_chunks_push(ps, p1@);
        ps = ps.push(p1@);
    }
    let p2: Vec<u8> = c.name.as_str().as_bytes_vec();
    append_chunk(&mut out, &p2);
    proof {
        lemma_cat_chunks_push(ps, p2@);
        ps = ps.push(p2@);
    }
    let p3: Vec<u8> = c.email.as_str().as_bytes_vec();
    append_chunk(&mut out, &p3);
    proof {
        lemma_cat_chunks_push(ps, p3@);
        ps = ps.push(p3@);
    }
    let p4: Vec<u8> = c.phone.as_str().as_bytes_vec();
    append_chunk(&mut out, &p4);
    proof {
        lemma_cat_chunks_push(ps, p4@);
        ps = ps.push(p4@);
        assert(ps =~= customer_payloads(c@));
    }
    out
}

pub fn encode_interaction(v: &Interaction) -> (r: Vec<u8>)
    ensures
        r@ == enc_interaction(v@),
{
    let mut out: Vec<u8> = Vec::new();
    let ghost mut ps: Seq<Seq<u8>> = Seq::empty();
    let p0: Vec<u8> = u64_to_le_bytes(v.id);
    append_chunk(&mut out, &p0);
    proof {
        assert(cat_chunks(ps) == Seq::<u8>::empty());
        lemma_cat_chunks_push(ps, p0@);
        ps = ps.push(p0@);
    }
    let p1: Vec<u8> = u64_to_le_bytes(v.customer_id);
    append_chunk(&mut out, &p1);
    proof {
        lemma_cat_chunks_push(ps, p1@);
        ps = ps.push(p1@);
    }
    let p2: Vec<u8> = u64_to_le_bytes(v.created_at);
    append_chunk(&mut out, &p2);
    proof {
        lemma_cat_chunks_push(ps, p2@);
        ps = ps.push(p2@);
    }
    let p3: Vec<u8> = encode_opt_u64(&v.updated_at);
    append_chunk(&mut out, &p3);
    proof {
        lemma_cat_chunks_push(ps, p3@);
        ps = ps.push(p3@);
    }
    let p4: Vec<u8> = v.interaction_type.as_str().as_bytes_vec();
    append_chunk(&mut out, &p4);
    proof {
        lemma_cat_chunks_push(ps, p4@);
        ps = ps.push(p4@);
    }
    let p5: Vec<u8> = v.content.as_str().as_bytes_vec();
    append_chunk(&mut out, &p5);
    proof {
        lemma_cat_chunks_push(ps, p5@);
        ps = ps.push(p5@);
        assert(ps =~= interaction_payloads(v@));
    }
    out
}

pub fn decode_customer(b: &[u8]) -> (r: Option<Customer>)
    ensures
        match r {
            Some(c) => dec_customer(b@) == Some(c@),
            None => dec_customer(b@) is None,
        },
{
    let parts: Vec<Vec<u8>> = match split_chunks(b, 5) {
        Some(v) => v,
        None => {
            return None;
        },
    };
    proof {
        lemma_parse_chunks_len(b@, 5);
        assert(parts@.len() == 5);
    }
    if parts[0].len() != 8 || parts[1].len() != 8 {
        return None;
    }
    let id: u64 = u64_from_le_bytes(parts[0].as_slice());
    let created_at: u64 = u64_from_le_bytes(parts[1].as_slice());
    let name: String = match string_from_utf8(&parts[2]) {
        Some(s) => s,
        None => {
            return None;
        },
    };
    let email: String = match string_from_utf8(&parts[3]) {
        Some(s) => s,
        None => {
            return None;
        },
    };
    let phone: String = match string_from_utf8(&parts[4]) {
        Some(s) => s,
        None => {
            return None;
        },
    };
    proof {
        encode_utf8_decode_utf8(name@);
        encode_utf8_decode_utf8(email@);
        encode_utf8_decode_utf8(phone@);
    }
    Some(Customer { id, name, email, phone, created_at })
}

pub fn decode_interaction(b: &[u8]) -> (r: Option<Interaction>)
    ensures
        match r {
            Some(v) => dec_interaction(b@) == Some(v@),
            None => dec_interaction(b@) is None,
        },
{
    let parts: Vec<Vec<u8>> = match split_chunks(b, 6) {
        Some(v) => v,
        None => {
            return None;
        },
    };
    proof {
        lemma_parse_chunks_len(b@, 6);
        assert(parts@.len() == 6);
    }
    if parts[0].len() != 8 || parts[1].len() != 8 || parts[2].len() != 8 {
        return None;
    }
    let id: u64 = u64_from_le_bytes(parts[0].as_slice());
    let customer_id: u64 = u64_from_le_bytes(parts[1].as_slice());
    let created_at: u64 = u64_from_le_bytes(parts[2].as_slice());
    let updated_at: Option<u64> = match decode_opt_u64(&parts[3]) {
        Some(o) => o,
        None => {
            return None;
        },
    };
    let interaction_type: String = match string_from_utf8(&parts[4]) {
        Some(s) => s,
        None => {
            return None;
        },
    };
    let content: String = match string_from_utf8(&parts[5]) {
        Some(s) => s,
        None => {
            return None;
        },
    };
    proof {
        encode_utf8_decode_utf8(interaction_type@);
        encode_utf8_decode_utf8(content@);
    }
    Some(Interaction { id, customer_id, interaction_type, content, created_at, updated_at })
}

/// Whether customer records carrying these strings stay under the size
/// ceiling; callers can test the precondition of the creating operations.
pub fn customer_encoding_fits(name: &str, email: &str, phone: &str) -> (r: bool)
    ensures
        r == customer_strings_fit(name@, email@, phone@),
{
    let total: u128 = 56u128 + name.as_bytes().len() as u128 + email.as_bytes().len() as u128
        + phone.as_bytes().len() as u128;
    total <= MAX_RECORD_BYTES as u128
}

/// Whether interaction records carrying these strings stay under the size
/// ceiling, whatever their timestamps.
pub fn interaction_encoding_fits(interaction_type: &str, content: &str) -> (r: bool)
    ensures
        r == interaction_strings_fit(interaction_type@, content@),
{
    let total: u128 = 81u128 + interaction_type.as_bytes().len() as u128 + content.as_bytes().len()
        as u128;
    total <= MAX_RECORD_BYTES as u128
}

} // verus!
