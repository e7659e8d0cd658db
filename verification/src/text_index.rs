//! Large sets of byte strings, filed under hashes.

use crate::text_set::{insert_unique, TextSet};
use std::collections::HashMap;
use vstd::prelude::*;

verus! {

broadcast use vstd::std_specs::hash::group_hash_axioms;

/// The number that the hash of a text starts from.
pub const HASH_START: u64 = 0xcbf29ce484222325;

/// The number that the hash of a text is multiplied by at each byte.
pub const HASH_FACTOR: u64 = 0x100000001b3;

/// The hash of a text.
#[verifier::opaque]
pub open spec fn hash_of(text: Seq<u8>) -> u64
    decreases text.len(),
{
    if text.len() == 0 {
        HASH_START
    } else {
        hash_of(text.drop_last()).wrapping_mul(HASH_FACTOR).wrapping_add(text.last() as u64)
    }
}

/// Whether `member` is filed in `buckets`, under its hash.
pub open spec fn filed(buckets: Map<u64, TextSet>, member: Seq<u8>) -> bool {
    buckets.contains_key(hash_of(member)) && buckets[hash_of(member)]@.contains(member)
}

/// Filing one more text in its bucket files that text and leaves all the
/// others as they were.
proof fn lemma_filed_one_more(
    at_first: Map<u64, TextSet>,
    at_last: Map<u64, TextSet>,
    bucket: TextSet,
    before: Seq<Seq<u8>>,
    id: Seq<u8>,
)
    requires
        at_last == at_first.remove(hash_of(id)).insert(hash_of(id), bucket),
        before == if at_first.contains_key(hash_of(id)) {
            at_first[hash_of(id)]@
        } else {
            Seq::<Seq<u8>>::empty()
        },
        bucket@ == insert_unique(before, id),
    ensures
        forall|x: Seq<u8>| filed(at_last, x) <==> filed(at_first, x) || x == id,
{
    assert forall|x: Seq<u8>| filed(at_last, x) <==> filed(at_first, x) || x == id by {
        if hash_of(x) == hash_of(id) {
            if before.contains(x) {
                let i = choose|i: int| 0 <= i < before.len() && before[i] == x;
                assert(bucket@[i] == x);
            }
            if bucket@.contains(x) && x != id {
                let i = choose|i: int| 0 <= i < bucket@.len() && bucket@[i] == x;
                assert(before[i] == x);
            }
            if x == id {
                if before.contains(id) {
                } else {
                    assert(bucket@[before.len() as int] == id);
                }
            }
        }
    }
}

/// The hash of a text.
fn hash_bytes(text: &[u8]) -> (hash: u64)
    ensures
        hash == hash_of(text@),
{
    let mut hash: u64 = HASH_START;
    let mut i: usize = 0;
    proof {
        reveal(hash_of);
        assert(text@.take(0) =~= Seq::<u8>::empty());
    }
    while i < text.len()
        invariant
            0 <= i <= text@.len(),
            hash == hash_of(text@.take(i as int)),
        decreases text@.len() - i,
    {
        proof {
            reveal(hash_of);
            assert(text@.take(i + 1).drop_last() =~= text@.take(i as int));
        }
        hash = hash.wrapping_mul(HASH_FACTOR).wrapping_add(text[i] as u64);
        i += 1;
    }
    assert(text@.take(i as int) =~= text@);
    hash
}

/// A set of byte strings for many members: each is filed under its hash,
/// and looking one up reads only the members filed under the same hash.
#[derive(Debug)]
pub struct TextIndex {
    buckets: HashMap<u64, TextSet>,
}

impl View for TextIndex {
    type V = Set<Seq<u8>>;

    closed spec fn view(&self) -> Set<Seq<u8>> {
        Set::new(|member: Seq<u8>| filed(self.buckets@, member))
    }
}

impl TextIndex {
    /// The empty set.
    pub fn new() -> (index: TextIndex)
        ensures
            index@ == Set::<Seq<u8>>::empty(),
    {
        let index = TextIndex { buckets: HashMap::new() };
        assert(index@ =~= Set::<Seq<u8>>::empty());
        index
    }

    /// Whether `member` is in the set.
    pub fn contains(&self, member: &[u8]) -> (found: bool)
        ensures
            found == self@.contains(member@),
    {
        let hash = hash_bytes(member);
        match self.buckets.get(&hash) {
            Some(bucket) => bucket.contains(member),
            None => false,
        }
    }

    /// Adds `member` to the set.
    pub fn insert(&mut self, member: Vec<u8>)
        ensures
            final(self)@ == old(self)@.insert(member@),
    {
        let hash = hash_bytes(member.as_slice());
        let ghost at_first = self.buckets@;
        let bucket = match self.buckets.remove(&hash) {
            Some(bucket) => bucket,
            None => TextSet::new(),
        };
        let ghost before = bucket@;
        let bucket = bucket.with(member);
        self.buckets.insert(hash, bucket);
        proof {
            lemma_filed_one_more(at_first, self.buckets@, bucket, before, member@);
            assert(final(self)@ =~= old(self)@.insert(member@));
        }
    }
}

} // verus!
