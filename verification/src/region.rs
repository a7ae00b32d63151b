//! The page allocator's face: one durable byte store partitioned into
//! isolated, independently growable regions. Region assignment is static and
//! an index is never reused; writing one region leaves every other region
//! untouched. The whole store flattens to, and is recovered from, a single
//! byte sequence.

use vstd::prelude::*;
use vstd::bytes::*;
use crate::chunks::{cat_chunks, parse_chunks, bounded_payloads, views_of, append_chunk,
    split_chunks, lemma_parse_cat_chunks, lemma_cat_chunks_push};

verus! {

/// Region of the identifier counter.
pub const COUNTER_REGION: usize = 0;

/// Region of the interaction map.
pub const INTERACTIONS_REGION: usize = 1;

/// Region of the customer map.
pub const CUSTOMERS_REGION: usize = 2;

/// How many regions the store is partitioned into.
pub const REGION_COUNT: usize = 3;

/// The single durable backing store, partitioned into regions.
pub struct BackingStore {
    pub regions: Vec<Vec<u8>>,
}

impl View for BackingStore {
    type V = Seq<Seq<u8>>;

    open spec fn view(&self) -> Seq<Seq<u8>> {
        views_of(self.regions@)
    }
}

/// The whole backing store as one byte sequence: the region count, then one
/// length-prefixed block per region.
pub open spec fn backing_bytes(regions: Seq<Seq<u8>>) -> Seq<u8> {
    spec_u64_to_le_bytes(regions.len() as u64) + cat_chunks(regions)
}

/// Reads the region count and then exactly that many blocks.
pub open spec fn parse_backing(b: Seq<u8>) -> Option<Seq<Seq<u8>>> {
    if b.len() < 8 {
        None
    } else {
        parse_chunks(b.skip(8), spec_u64_from_le_bytes(b.take(8)) as nat)
    }
}

/// Flattening and re-reading the backing store is the identity.
pub proof fn lemma_parse_backing_bytes(regions: Seq<Seq<u8>>)
    requires
        bounded_payloads(regions),
        regions.len() <= u64::MAX,
    ensures
        parse_backing(backing_bytes(regions)) == Some(regions),
{
    lemma_auto_spec_u64_to_from_le_bytes();
    let b = backing_bytes(regions);
    assert(b.take(8) =~= spec_u64_to_le_bytes(regions.len() as u64));
    assert(b.skip(8) =~= cat_chunks(regions));
    lemma_parse_cat_chunks(regions);
}

impl BackingStore {
    /// A fresh store with every region empty.
    pub fn new() -> (r: Self)
        ensures
            r@.len() == REGION_COUNT,
            forall|i: int| 0 <= i < REGION_COUNT ==> r@[i] == Seq::<u8>::empty(),
    {
        let mut regions: Vec<Vec<u8>> = Vec::new();
        regions.push(Vec::new());
        regions.push(Vec::new());
        regions.push(Vec::new());
        BackingStore { regions }
    }

    pub fn region_count(&self) -> (r: usize)
        ensures
            r == self@.len(),
    {
        self.regions.len()
    }

    /// A read handle to one region's bytes.
    pub fn read_region(&self, idx: usize) -> (r: &Vec<u8>)
        requires
            idx < self@.len(),
        ensures
            r@ == self@[idx as int],
    {
        &self.regions[idx]
    }

    /// Replaces one region's bytes; every other region is untouched.
    pub fn write_region(&mut self, idx: usize, bytes: Vec<u8>)
        requires
            idx < old(self)@.len(),
        ensures
            final(self)@ == old(self)@.update(idx as int, bytes@),
    {
        let _prev = self.regions.remove(idx);
        self.regions.insert(idx, bytes);
        proof {
            assert(self@ =~= old(self)@.update(idx as int, bytes@));
        }
    }

    /// The whole store as one byte sequence, regions framed in order.
    pub fn to_bytes(&self) -> (r: Vec<u8>)
        ensures
            r@ == backing_bytes(self@),
    {
        let n: usize = self.regions.len();
        let mut out: Vec<u8> = u64_to_le_bytes(n as u64);
        let ghost prefix = spec_u64_to_le_bytes(n as u64);
        let mut i: usize = 0;
        proof {
            assert(self@.take(0) =~= Seq::<Seq<u8>>::empty());
            assert(out@ =~= prefix + cat_chunks(self@.take(0)));
        }
        while i < n
            invariant
                i <= n,
                n == self.regions@.len(),
                prefix == spec_u64_to_le_bytes(n as u64),
                out@ == prefix + cat_chunks(self@.take(i as int)),
            decreases n - i,
        {
            append_chunk(&mut out, &self.regions[i]);
            proof {
                lemma_cat_chunks_push(self@.take(i as int), self@[i as int]);
                assert(self@.take(i as int + 1) =~= self@.take(i as int).push(self@[i as int]));
                assert(out@ =~= prefix + cat_chunks(self@.take(i as int + 1)));
            }
            i += 1;
        }
        proof {
            assert(self@.take(n as int) =~= self@);
        }
        out
    }

    /// Recovers a backing store from one byte sequence; the executable
    /// mirror of [`parse_backing`].
    pub fn from_bytes(b: &[u8]) -> (r: Option<BackingStore>)
        ensures
            match r {
                Some(s) => parse_backing(b@) == Some(s@),
                None => parse_backing(b@) is None,
            },
    {
        if b.len() < 8 {
            return None;
        }
        let count_part = vstd::slice::slice_subrange(b, 0, 8);
        proof {
            assert(count_part@ =~= b@.take(8));
        }
        let count: u64 = u64_from_le_bytes(count_part);
        let rest = vstd::slice::slice_subrange(b, 8, b.len());
        proof {
            assert(rest@ =~= b@.skip(8));
        }
        match split_chunks(rest, count) {
            Some(regions) => Some(BackingStore { regions }),
            None => None,
        }
    }
}

} // verus!
