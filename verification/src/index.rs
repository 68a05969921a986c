//! A hash index over the keys of a list: from the code of a key to the
//! positions of the entries whose key has that code.

use std::collections::HashMap;
use vstd::prelude::*;

verus! {

/// The positions of a list's entries, filed under the codes of their keys.
pub struct KeyIndex {
    buckets: HashMap<u64, Vec<usize>>,
}

impl KeyIndex {
    /// The index files every position of `codes` under its code, and nothing
    /// else: `codes[i]` being the code of the key of entry `i`.
    pub closed spec fn covers(&self, codes: Seq<u64>) -> bool {
        &&& forall|i: int|
            0 <= i < codes.len() ==> {
                &&& self.buckets@.contains_key(#[trigger] codes[i])
                &&& self.buckets@[codes[i]]@.contains(i as usize)
            }
        &&& forall|code: u64, n: int|
            self.buckets@.contains_key(code) && 0 <= n < self.buckets@[code]@.len() ==> {
                &&& (#[trigger] self.buckets@[code]@[n]) < codes.len()
                &&& codes[self.buckets@[code]@[n] as int] == code
            }
    }

    /// An index over no entries.
    pub fn new() -> (index: KeyIndex)
        ensures
            index.covers(Seq::<u64>::empty()),
    {
        KeyIndex { buckets: HashMap::new() }
    }

    /// The positions filed under `code`: those of the entries whose key has
    /// this code.
    pub fn bucket(&self, code: u64, Ghost(codes): Ghost<Seq<u64>>) -> (bucket: Option<&Vec<usize>>)
        requires
            self.covers(codes),
        ensures
            match bucket {
                Some(positions) => {
                    &&& forall|n: int|
                        0 <= n < positions.len() ==> {
                            &&& (#[trigger] positions[n]) < codes.len()
                            &&& codes[positions[n] as int] == code
                        }
                    &&& forall|i: int|
                        0 <= i < codes.len() && #[trigger] codes[i] == code
                            ==> positions@.contains(i as usize)
                },
                None => forall|i: int| 0 <= i < codes.len() ==> #[trigger] codes[i] != code,
            },
    {
        self.buckets.get(&code)
    }

    /// Files `position`, the next position of the list, under `code`.
    pub fn add(&mut self, code: u64, position: usize, Ghost(codes): Ghost<Seq<u64>>)
        requires
            old(self).covers(codes),
            position == codes.len(),
        ensures
            final(self).covers(codes.push(code)),
    {
        let ghost before = self.buckets@;
        let found = self.buckets.remove(&code);
        let mut bucket = match found {
            Some(bucket) => bucket,
            None => Vec::new(),
        };
        let ghost old_bucket = bucket@;
        bucket.push(position);
        self.buckets.insert(code, bucket);
        proof {
            let longer = codes.push(code);
            assert forall|i: int| 0 <= i < longer.len() implies {
                &&& self.buckets@.contains_key(#[trigger] longer[i])
                &&& self.buckets@[longer[i]]@.contains(i as usize)
            } by {
                if i < codes.len() {
                    assert(before.contains_key(codes[i]));
                    if codes[i] == code {
                        let n = choose|n: int|
                            0 <= n < old_bucket.len() && old_bucket[n] == i as usize;
                        assert(self.buckets@[code]@[n] == i as usize);
                    }
                } else {
                    assert(self.buckets@[code]@[old_bucket.len() as int] == i as usize);
                }
            }
        }
    }
}

} // verus!
