//! Positions grouped by an integer key, so that a lookup reads one bucket
//! instead of the whole table.
use crate::tls::{be_value, lemma_be_bytes_of_value};
use std::collections::HashMap;
use vstd::prelude::*;

verus! {

/// The bucket of a fingerprint: its first eight bytes as an integer.
pub open spec fn bucket_of(h: Seq<u8>) -> u64 {
    be_value(h.take(8)) as u64
}

/// The bucket of a fingerprint of at least eight bytes.
pub fn bucket_key(h: &[u8]) -> (r: u64)
    requires
        h@.len() >= 8,
    ensures
        r == bucket_of(h@),
{
    let mut acc: u64 = 0;
    let mut i: usize = 0;
    while i < 8
        invariant
            i <= 8 <= h@.len(),
            acc == be_value(h@.take(i as int)),
        decreases 8 - i,
    {
        proof {
            lemma_be_bytes_of_value(h@.take(i as int));
            assert(h@.take(i as int + 1).drop_last() =~= h@.take(i as int));
            assert(crate::tls::pow256(i as nat) <= 0x100000000000000) by {
                reveal_with_fuel(crate::tls::pow256, 9);
            }
        }
        let b = h[i];
        assert(acc * 256 + b < 0x10000000000000000) by (nonlinear_arith)
            requires
                acc < 0x100000000000000,
                b < 256,
        ;
        acc = acc * 256 + b as u64;
        i = i + 1;
    }
    acc
}

/// Positions `0..keys.len()` grouped by key: every position is in the
/// bucket of its key, and buckets hold positions only.
pub struct BucketIndex {
    map: HashMap<u64, Vec<usize>>,
}

impl BucketIndex {
    pub closed spec fn covers(&self, keys: Seq<u64>) -> bool {
        &&& forall|i: int|
            0 <= i < keys.len() ==> #[trigger] self.map@.contains_key(keys[i]) && self.map@[keys[i]]@.contains(
                i as usize,
            )
        &&& forall|k: u64, t: int|
            self.map@.contains_key(k) && 0 <= t < self.map@[k]@.len() ==> #[trigger] self.map@[k]@[t]
                < keys.len()
    }

    pub fn new() -> (r: Self)
        ensures
            r.covers(Seq::empty()),
    {
        BucketIndex { map: HashMap::new() }
    }

    /// Files position `pos`, the next one, under `key`.
    pub fn add(&mut self, key: u64, pos: usize, Ghost(keys): Ghost<Seq<u64>>)
        requires
            old(self).covers(keys),
            pos == keys.len(),
        ensures
            final(self).covers(keys.push(key)),
    {
        broadcast use vstd::std_specs::hash::group_hash_axioms;

        let ghost before = old(self).map@;
        assert(forall|i: int|
            0 <= i < keys.len() ==> #[trigger] before.contains_key(keys[i]) && before[keys[i]]@.contains(
                i as usize,
            ));
        assert(forall|k: u64, t: int|
            before.contains_key(k) && 0 <= t < before[k]@.len() ==> #[trigger] before[k]@[t]
                < keys.len());
        let mut b = match self.map.remove(&key) {
            Some(v) => v,
            None => Vec::new(),
        };
        assert(before.contains_key(key) ==> b@ == before[key]@);
        assert(!before.contains_key(key) ==> b@.len() == 0);
        b.push(pos);
        self.map.insert(key, b);
        let ghost ks = keys.push(key);
        assert forall|i: int| 0 <= i < ks.len() implies #[trigger] self.map@.contains_key(ks[i])
            && self.map@[ks[i]]@.contains(i as usize) by {
            if i < keys.len() {
                assert(ks[i] == keys[i]);
                assert(0 <= i < keys.len());
                assert(before.contains_key(keys[i]));
                assert(before[keys[i]]@.contains(i as usize));
                if keys[i] == key {
                    let t = choose|t: int| 0 <= t < before[key]@.len() && before[key]@[t] == i as usize;
                    assert(self.map@[key]@[t] == i as usize);
                }
            } else {
                assert(self.map@[key]@[self.map@[key]@.len() - 1] == pos);
            }
        }
        assert forall|k: u64, t: int|
            self.map@.contains_key(k) && 0 <= t < self.map@[k]@.len() implies #[trigger] self.map@[k]@[t]
                < ks.len() by {
            if k != key {
                assert(before.contains_key(k) && self.map@[k] == before[k]);
                assert(before[k]@[t] < keys.len());
            } else if t < b@.len() - 1 {
                assert(before.contains_key(key));
                assert(before[key]@[t] < keys.len());
            }
        }
    }

    /// The positions filed under `key`.
    pub fn bucket(&self, key: u64, Ghost(keys): Ghost<Seq<u64>>) -> (r: &[usize])
        requires
            self.covers(keys),
        ensures
            forall|i: int| 0 <= i < keys.len() && keys[i] == key ==> r@.contains(i as usize),
            forall|t: int| 0 <= t < r@.len() ==> #[trigger] r@[t] < keys.len(),
    {
        broadcast use vstd::std_specs::hash::group_hash_axioms;

        match self.map.get(&key) {
            Some(v) => {
                assert forall|i: int| 0 <= i < keys.len() && keys[i] == key implies v@.contains(
                    i as usize,
                ) by {
                    assert(self.map@.contains_key(keys[i]));
                }
                assert forall|t: int| 0 <= t < v@.len() implies #[trigger] v@[t] < keys.len() by {
                    assert(self.map@[key]@[t] < keys.len());
                }
                v.as_slice()
            },
            None => {
                assert forall|i: int| 0 <= i < keys.len() && keys[i] == key implies false by {
                    assert(self.map@.contains_key(keys[i]));
                }
                &[]
            },
        }
    }
}

} // verus!
