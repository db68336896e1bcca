//! String-keyed bucket map without a real hash function.
//!
//! Each entry is filed at the bucket its key's length selects (length minus
//! one), and there is no collision chaining: a second key landing on an
//! occupied bucket is refused as a `Collision`, and since every key of one
//! length selects the same bucket, `get` answers with whatever that bucket
//! holds, whoever stored it. The contracts state exactly this bucket-level
//! behaviour.

use vstd::prelude::*;
use vstd::string::StrSliceExecFns;

verus! {

/// Errors reported by the bucket map.
#[derive(Debug, Clone, Copy, PartialEq, Eq, Structural)]
pub enum HashMapErr {
    /// The bucket the key selects is already occupied.
    Collision,
}

/// One occupied bucket: the key that claimed it and the stored value.
#[derive(Debug)]
struct Bucket<V> {
    key: String,
    val: V,
}

/// The bucket table; buckets are allocated lazily up to the largest index
/// used so far.
#[derive(Debug)]
pub struct HashMap<V> {
    buckets: Vec<Option<Bucket<V>>>,
}

/// The bucket index a key selects: its character count minus one.
pub open spec fn hash_spec(k: Seq<char>) -> int {
    k.len() - 1
}

impl<V: Copy> HashMap<V> {
    /// Key and value stored in bucket `i`; `None` for an empty bucket or one
    /// not allocated yet.
    pub closed spec fn slot(self, i: int) -> Option<(Seq<char>, V)> {
        if 0 <= i < self.buckets@.len() {
            match self.buckets@[i] {
                Option::Some(b) => Option::Some((b.key@, b.val)),
                Option::None => Option::None,
            }
        } else {
            Option::None
        }
    }

    /// An empty map: every bucket is empty.
    pub fn new() -> (r: HashMap<V>)
        ensures
            forall|i: int| r.slot(i) is None,
    {
        HashMap { buckets: Vec::new() }
    }

    /// The bucket index for `key`: one less than its character count. Never
    /// fails; the `Result` mirrors the operational surface, where hashing
    /// sits on the failure path of `insert` and `get`. The key must not be
    /// empty — there is no bucket below the first.
    pub fn hash(&self, key: &String) -> (r: Result<usize, HashMapErr>)
        requires
            key@.len() >= 1,
        ensures
            r matches Ok(h) && h as int == hash_spec(key@),
    {
        let l = key.as_str().unicode_len();
        Ok(l - 1)
    }

    /// Files `(k, v)` in the bucket `k` selects, growing the bucket table as
    /// needed. Refuses with `Collision`, leaving the map untouched, exactly
    /// when that bucket is already occupied — whether by this very key or by
    /// another key of the same length. No other bucket changes.
    pub fn insert(&mut self, k: String, v: V) -> (r: Result<(), HashMapErr>)
        requires
            k@.len() >= 1,
        ensures
            old(self).slot(hash_spec(k@)) is Some ==> r == Err::<(), HashMapErr>(
                HashMapErr::Collision,
            ) && *final(self) == *old(self),
            old(self).slot(hash_spec(k@)) is None ==> r == Ok::<(), HashMapErr>(())
                && final(self).slot(hash_spec(k@)) == Some((k@, v))
                && forall|i: int| i != hash_spec(k@) ==> final(self).slot(i) == old(self).slot(i),
    {
        let index = match self.hash(&k) {
            Ok(i) => i,
            Err(e) => {
                return Err(e);
            }
        };
        // Test occupancy before touching the table, so that a refused insert
        // is a full no-op.
        if index < self.buckets.len() {
            if self.buckets[index].is_some() {
                return Err(HashMapErr::Collision);
            }
        }
        while self.buckets.len() <= index
            invariant
                self.buckets@.len() >= old(self).buckets@.len(),
                forall|i: int| 0 <= i < old(self).buckets@.len() ==> self.buckets@[i] == old(
                    self,
                ).buckets@[i],
                forall|i: int| old(self).buckets@.len() <= i < self.buckets@.len()
                    ==> self.buckets@[i] is None,
            decreases index + 1 - self.buckets@.len(),
        {
            self.buckets.push(None);
        }
        self.buckets[index] = Some(Bucket { key: k, val: v });
        Ok(())
    }

    /// Looks `key`'s bucket up: the value stored there, or `None` when the
    /// bucket is empty or was never allocated. Two keys of one length select
    /// the same bucket, so the answer is whatever that bucket holds.
    pub fn get(&self, key: &String) -> (r: Result<Option<V>, HashMapErr>)
        requires
            key@.len() >= 1,
        ensures
            r == Ok::<Option<V>, HashMapErr>(
                match self.slot(hash_spec(key@)) {
                    Option::Some(entry) => Option::Some(entry.1),
                    Option::None => Option::None,
                },
            ),
    {
        let i = match self.hash(key) {
            Ok(i) => i,
            Err(e) => {
                return Err(e);
            }
        };
        if i >= self.buckets.len() {
            return Ok(None);
        }
        match &self.buckets[i] {
            Some(b) => Ok(Some(b.val)),
            None => Ok(None),
        }
    }
}

} // verus!
