//! The lookup table from barcode variants to destination indices.

use vstd::prelude::*;
use crate::expand::{find_bytes, views};

verus! {

/// The number of buckets that the table spreads its keys over.
pub const BUCKETS: usize = 1024;

/// A polynomial hash of the first `n` bytes of `k`, reduced to a bucket.
pub open spec fn hash_prefix(k: Seq<u8>, n: nat) -> nat
    decreases n,
{
    if n == 0 || n > k.len() {
        0
    } else {
        (hash_prefix(k, (n - 1) as nat) * 31 + k[n - 1] as nat) % (BUCKETS as nat)
    }
}

/// The bucket that holds key `k`.
pub open spec fn bucket_of(k: Seq<u8>) -> int {
    hash_prefix(k, k.len()) as int
}

fn bucket(key: &[u8]) -> (r: usize)
    ensures
        r == bucket_of(key@),
        r < BUCKETS,
{
    let mut h: usize = 0;
    let mut i: usize = 0;
    while i < key.len()
        invariant
            0 <= i <= key@.len(),
            h == hash_prefix(key@, i as nat),
            h < BUCKETS,
        decreases key@.len() - i,
    {
        h = (h * 31 + key[i] as usize) % BUCKETS;
        i = i + 1;
    }
    h
}

/// Maps each barcode variant to the index of the destination that receives it.
pub struct DestinationTable {
    keys: Vec<Vec<Vec<u8>>>,
    dests: Vec<Vec<usize>>,
}

impl DestinationTable {
    /// Every bucket holds each of its keys once, with one destination per key.
    pub closed spec fn wf(&self) -> bool {
        &&& self.keys@.len() == BUCKETS
        &&& self.dests@.len() == BUCKETS
        &&& forall|j: int|
            0 <= j < BUCKETS ==> {
                &&& (#[trigger] self.keys@[j])@.len() == self.dests@[j]@.len()
                &&& views(self.keys@[j]@).no_duplicates()
            }
    }

    /// The keys of bucket `j`.
    pub closed spec fn key_seq(&self, j: int) -> Seq<Seq<u8>> {
        views(self.keys@[j]@)
    }

    /// The destinations of bucket `j`, in the order of its keys.
    pub closed spec fn dest_seq(&self, j: int) -> Seq<usize> {
        self.dests@[j]@
    }

    /// The table as a map from variant to destination index.
    pub open spec fn view(&self) -> Map<Seq<u8>, usize> {
        Map::new(
            |k: Seq<u8>| self.key_seq(bucket_of(k)).contains(k),
            |k: Seq<u8>| self.dest_seq(bucket_of(k))[self.key_seq(bucket_of(k)).index_of(k)],
        )
    }

    /// An empty table.
    pub fn new() -> (t: Self)
        ensures
            t.wf(),
            t.view() == Map::<Seq<u8>, usize>::empty(),
    {
        let mut keys: Vec<Vec<Vec<u8>>> = Vec::new();
        let mut dests: Vec<Vec<usize>> = Vec::new();
        let mut j: usize = 0;
        while j < BUCKETS
            invariant
                0 <= j <= BUCKETS,
                keys@.len() == j,
                dests@.len() == j,
                forall|b: int| 0 <= b < j ==> (#[trigger] keys@[b])@.len() == 0,
                forall|b: int| 0 <= b < j ==> (#[trigger] dests@[b])@.len() == 0,
            decreases BUCKETS - j,
        {
            keys.push(Vec::new());
            dests.push(Vec::new());
            j = j + 1;
        }
        let t = DestinationTable { keys, dests };
        assert forall|b: int| 0 <= b < BUCKETS implies views(#[trigger] t.keys@[b]@)
            =~= Seq::<Seq<u8>>::empty() by {}
        assert(t.view() =~= Map::<Seq<u8>, usize>::empty());
        t
    }

    fn position(&self, b: usize, key: &[u8]) -> (r: Option<usize>)
        requires
            self.wf(),
            b < BUCKETS,
        ensures
            match r {
                Some(i) => i < self.keys@[b as int]@.len() && self.key_seq(b as int)[i as int]
                    == key@,
                None => !self.key_seq(b as int).contains(key@),
            },
    {
        find_bytes(&self.keys[b], key)
    }

    /// Maps `key` to `dest`, replacing what `key` was mapped to before.
    pub fn insert(&mut self, key: Vec<u8>, dest: usize)
        requires
            old(self).wf(),
        ensures
            final(self).wf(),
            final(self).view() == old(self).view().insert(key@, dest),
    {
        let ghost before = self.view();
        let ghost prev = *self;
        let b = bucket(key.as_slice());
        let ghost bi = b as int;
        let ghost ks = views(self.keys@[bi]@);
        match self.position(b, key.as_slice()) {
            Some(i) => {
                self.dests[b].set(i, dest);
                assert(ks.index_of(key@) == i as int);
                assert(self.keys@ == prev.keys@);
                assert forall|k: Seq<u8>| #[trigger] before.contains_key(k) && k != key@ implies
                    self.view()[k] == before[k] by {
                    if bucket_of(k) == bi {
                        assert(ks.index_of(k) != i as int);
                    }
                }
                assert(self.view() =~= before.insert(key@, dest));
            },
            None => {
                let ghost kv = key@;
                self.keys[b].push(key);
                self.dests[b].push(dest);
                assert(views(self.keys@[bi]@) =~= ks.push(kv));
                let ghost ks2 = views(self.keys@[bi]@);
                proof {
                    crate::expand::lemma_push_contains(ks, kv);
                }
                assert(ks2[ks.len() as int] == kv);
                assert(ks2.index_of(kv) == ks.len() as int);
                assert forall|k: Seq<u8>| #[trigger] ks.contains(k) implies ks2.index_of(k)
                    == ks.index_of(k) by {
                    let a = ks.index_of(k);
                    assert(ks2[a] == k);
                }
                assert forall|j: int| 0 <= j < BUCKETS && j != bi implies #[trigger] self.keys@[j]
                    == prev.keys@[j] && self.dests@[j] == prev.dests@[j] by {}
                assert(self.view() =~= before.insert(kv, dest));
            },
        }
    }

    /// The destination index of `key`, if the table holds it.
    pub fn get(&self, key: &[u8]) -> (r: Option<usize>)
        requires
            self.wf(),
        ensures
            r == (if self.view().contains_key(key@) {
                Some(self.view()[key@])
            } else {
                None
            }),
    {
        let b = bucket(key);
        match self.position(b, key) {
            Some(i) => {
                assert(self.key_seq(b as int).index_of(key@) == i as int);
                Some(self.dests[b][i])
            },
            None => None,
        }
    }
}

} // verus!
