//! Length-prefixed byte blocks, the one framing used everywhere a sequence
//! of variable-sized parts is laid down in a byte region: a block is the
//! part's length as eight little-endian bytes, then the part itself.

use vstd::prelude::*;
use vstd::bytes::*;
use vstd::slice::{slice_subrange, slice_to_vec};

verus! {

/// One block: the payload's length, then the payload.
pub open spec fn chunk(payload: Seq<u8>) -> Seq<u8> {
    spec_u64_to_le_bytes(payload.len() as u64) + payload
}

/// All blocks, in order.
pub open spec fn cat_chunks(payloads: Seq<Seq<u8>>) -> Seq<u8>
    decreases payloads.len(),
{
    if payloads.len() == 0 {
        Seq::empty()
    } else {
        chunk(payloads.first()) + cat_chunks(payloads.drop_first())
    }
}

/// Every payload's length can be written as a `u64`.
pub open spec fn bounded_payloads(payloads: Seq<Seq<u8>>) -> bool {
    forall|i: int| 0 <= i < payloads.len() ==> #[trigger] payloads[i].len() <= u64::MAX
}

/// Reads exactly `n` blocks, which must fill `b` completely.
pub open spec fn parse_chunks(b: Seq<u8>, n: nat) -> Option<Seq<Seq<u8>>>
    decreases n,
{
    if n == 0 {
        if b.len() == 0 {
            Some(Seq::empty())
        } else {
            None
        }
    } else if b.len() < 8 {
        None
    } else {
        let l = spec_u64_from_le_bytes(b.take(8));
        if 8 + l > b.len() {
            None
        } else {
            let payload = b.subrange(8, 8 + l as int);
            match parse_chunks(b.skip(8 + l as int), (n - 1) as nat) {
                Some(rest) => Some(seq![payload] + rest),
                None => None,
            }
        }
    }
}

/// A successful parse hands back exactly as many payloads as were asked for.
pub proof fn lemma_parse_chunks_len(b: Seq<u8>, n: nat)
    requires
        parse_chunks(b, n) matches Some(ps),
    ensures
        parse_chunks(b, n)->0.len() == n,
    decreases n,
{
    if n > 0 {
        let l = spec_u64_from_le_bytes(b.take(8));
        lemma_parse_chunks_len(b.skip(8 + l as int), (n - 1) as nat);
    }
}

/// Writing blocks and reading them back is the identity.
pub proof fn lemma_parse_cat_chunks(payloads: Seq<Seq<u8>>)
    requires
        bounded_payloads(payloads),
    ensures
        parse_chunks(cat_chunks(payloads), payloads.len()) == Some(payloads),
    decreases payloads.len(),
{
    lemma_auto_spec_u64_to_from_le_bytes();
    if payloads.len() > 0 {
        let p0 = payloads.first();
        let rest = payloads.drop_first();
        let b = cat_chunks(payloads);
        assert(b == chunk(p0) + cat_chunks(rest));
        assert(b.take(8) =~= spec_u64_to_le_bytes(p0.len() as u64));
        let l = spec_u64_from_le_bytes(b.take(8));
        assert(l == p0.len());
        assert(b.subrange(8, 8 + l as int) =~= p0);
        assert(b.skip(8 + l as int) =~= cat_chunks(rest));
        assert(bounded_payloads(rest)) by {
            assert forall|i: int| 0 <= i < rest.len() implies #[trigger] rest[i].len()
                <= u64::MAX by {
                assert(rest[i] == payloads[i + 1]);
            }
        }
        lemma_parse_cat_chunks(rest);
        assert(seq![p0] + rest =~= payloads);
    }
}

/// A successful parse is inverted by writing the payloads back: block
/// framing is canonical.
pub proof fn lemma_cat_parse_chunks(b: Seq<u8>, n: nat)
    requires
        parse_chunks(b, n) matches Some(ps),
    ensures
        cat_chunks(parse_chunks(b, n)->0) == b,
    decreases n,
{
    lemma_auto_spec_u64_to_from_le_bytes();
    let ps = parse_chunks(b, n)->0;
    if n == 0 {
        assert(cat_chunks(ps) =~= b);
    } else {
        let l = spec_u64_from_le_bytes(b.take(8));
        let payload = b.subrange(8, 8 + l as int);
        let rest = b.skip(8 + l as int);
        lemma_cat_parse_chunks(rest, (n - 1) as nat);
        let rest_ps = parse_chunks(rest, (n - 1) as nat)->0;
        assert(ps == seq![payload] + rest_ps);
        assert(ps.first() == payload);
        assert(ps.drop_first() =~= rest_ps);
        assert(payload.len() == l);
        assert(spec_u64_to_le_bytes(payload.len() as u64) == b.take(8));
        assert(cat_chunks(ps) == chunk(payload) + cat_chunks(rest_ps));
        assert(chunk(payload) + cat_chunks(rest_ps) =~= b);
    }
}

/// Appending one more block on the right.
pub proof fn lemma_cat_chunks_push(payloads: Seq<Seq<u8>>, p: Seq<u8>)
    ensures
        cat_chunks(payloads.push(p)) == cat_chunks(payloads) + chunk(p),
    decreases payloads.len(),
{
    if payloads.len() == 0 {
        let s1 = payloads.push(p);
        assert(s1.drop_first() =~= Seq::<Seq<u8>>::empty());
        assert(s1.first() == p);
        assert(cat_chunks(s1.drop_first()) == Seq::<u8>::empty());
        assert(cat_chunks(s1) =~= chunk(p));
        assert(cat_chunks(payloads) == Seq::<u8>::empty());
        assert(cat_chunks(payloads) + chunk(p) =~= chunk(p));
    } else {
        assert(payloads.push(p).drop_first() =~= payloads.drop_first().push(p));
        lemma_cat_chunks_push(payloads.drop_first(), p);
        assert(cat_chunks(payloads.push(p)) =~= cat_chunks(payloads) + chunk(p));
    }
}

/// The views of a sequence of byte vectors.
pub open spec fn views_of(v: Seq<Vec<u8>>) -> Seq<Seq<u8>> {
    v.map_values(|x: Vec<u8>| x@)
}

/// Writes one block at the end of `out`.
pub fn append_chunk(out: &mut Vec<u8>, payload: &Vec<u8>)
    ensures
        final(out)@ == old(out)@ + chunk(payload@),
{
    let len_bytes: Vec<u8> = u64_to_le_bytes(payload.len() as u64);
    out.extend_from_slice(len_bytes.as_slice());
    out.extend_from_slice(payload.as_slice());
    proof {
        assert(final(out)@ =~= old(out)@ + chunk(payload@));
    }
}

/// Reads exactly `n` blocks, which must fill `b` completely; the executable
/// mirror of [`parse_chunks`].
pub fn split_chunks(b: &[u8], n: u64) -> (r: Option<Vec<Vec<u8>>>)
    ensures
        match r {
            Some(v) => parse_chunks(b@, n as nat) == Some(views_of(v@)),
            None => parse_chunks(b@, n as nat) is None,
        },
    decreases n,
{
    if n == 0 {
        if b.len() == 0 {
            let out: Vec<Vec<u8>> = Vec::new();
            proof {
                assert(views_of(out@) =~= Seq::<Seq<u8>>::empty());
            }
            Some(out)
        } else {
            None
        }
    } else if b.len() < 8 {
        None
    } else {
        let len_part = slice_subrange(b, 0, 8);
        proof {
            assert(len_part@ =~= b@.take(8));
        }
        let l: u64 = u64_from_le_bytes(len_part);
        if l > (b.len() - 8) as u64 {
            return None;
        }
        let payload_end: usize = 8 + l as usize;
        let payload: Vec<u8> = slice_to_vec(slice_subrange(b, 8, payload_end));
        let rest_slice = slice_subrange(b, payload_end, b.len());
        proof {
            assert(rest_slice@ =~= b@.skip(8 + l as int));
        }
        match split_chunks(rest_slice, n - 1) {
            Some(mut v) => {
                v.insert(0, payload);
                proof {
                    assert(views_of(v@) =~= seq![b@.subrange(8, 8 + l as int)] + views_of(
                        v@.drop_first(),
                    ));
                }
                Some(v)
            },
            None => None,
        }
    }
}

} // verus!
