//! Tables that give equal keys one number.

use vstd::prelude::*;

verus! {

/// A key of a table: it can be hashed and compared.
pub trait Keyed: View + Sized {
    /// The hash of a key.
    spec fn digest(key: Self::V) -> u64;

    /// The hash of the key.
    fn hash_key(&self) -> (hash: u64)
        ensures
            hash == Self::digest(self@),
    ;

    /// Whether two keys are the same.
    fn same_as(&self, other: &Self) -> (result: bool)
        ensures
            result == (self@ == other@),
    ;
}

/// The models of several keys.
pub open spec fn key_views<K: View>(keys: Seq<K>) -> Seq<K::V> {
    Seq::new(keys.len(), |i: int| keys[i]@)
}

/// The number of a key: its position, or the next number if it is not there.
pub open spec fn slot<V>(table: Seq<V>, key: V) -> nat {
    if table.contains(key) {
        table.index_of(key) as nat
    } else {
        table.len()
    }
}

/// The table with the key in it.
pub open spec fn with_key<V>(table: Seq<V>, key: V) -> Seq<V> {
    if table.contains(key) {
        table
    } else {
        table.push(key)
    }
}

/// A table of distinct keys, each found by its hash.
#[derive(Debug)]
pub struct Interner<K> {
    keys: Vec<K>,
    buckets: Vec<Vec<usize>>,
}

/// Whether every key can be reached through the buckets.
pub open spec fn reachable<K: Keyed>(keys: Seq<K>, buckets: Seq<Vec<usize>>) -> bool {
    forall|i: int|
        0 <= i < keys.len() ==> buckets[bucket_of(#[trigger] K::digest(keys[i]@), buckets.len())]@.contains(
            i as usize,
        )
}

/// The bucket of a hash.
pub open spec fn bucket_of(hash: u64, buckets: nat) -> int {
    hash as int % buckets as int
}

/// The positions of those of the first `count` keys that a bucket is for, in order.
pub open spec fn bucket_positions<K: Keyed>(
    keys: Seq<K>,
    buckets: nat,
    bucket: int,
    count: int,
) -> Seq<usize>
    decreases count,
{
    if count <= 0 {
        seq![]
    } else {
        let before: Seq<usize> = bucket_positions(keys, buckets, bucket, count - 1);
        if bucket_of(K::digest(keys[count - 1]@), buckets) == bucket {
            before.push((count - 1) as usize)
        } else {
            before
        }
    }
}

/// How many buckets a table of a number of keys grows to: about two for a key, and
/// one for a key where there are very many.
pub open spec fn grown(keys: nat) -> nat {
    if keys <= 0x3fff_ffff {
        keys * 2 + 1
    } else {
        keys
    }
}

/// Whether the buckets hold positions of keys alone.
pub open spec fn in_range(keys: nat, buckets: Seq<Vec<usize>>) -> bool {
    forall|b: int, k: int|
        0 <= b < buckets.len() && 0 <= k < buckets[b]@.len() ==> #[trigger] buckets[b]@[k] < keys
}

impl<K: Keyed> View for Interner<K> {
    type V = Seq<K::V>;

    closed spec fn view(&self) -> Seq<K::V> {
        key_views(self.keys@)
    }
}

impl<K: Keyed> Interner<K> {
    /// Whether the keys are distinct and all found.
    pub closed spec fn well_formed(&self) -> bool {
        &&& self.buckets@.len() >= 1
        &&& key_views(self.keys@).no_duplicates()
        &&& in_range(self.keys@.len(), self.buckets@)
        &&& reachable::<K>(self.keys@, self.buckets@)
    }

    /// A table without keys.
    pub fn new() -> (table: Self)
        ensures
            table@ == Seq::<K::V>::empty(),
            table.well_formed(),
    {
        let mut buckets: Vec<Vec<usize>> = Vec::new();
        buckets.push(Vec::new());
        let table = Interner { keys: Vec::new(), buckets };
        assert(table@ =~= Seq::<K::V>::empty());
        table
    }

    /// The keys of the table are distinct.
    pub proof fn lemma_distinct(&self)
        requires
            self.well_formed(),
        ensures
            self@.no_duplicates(),
    {
    }

    /// The number of keys.
    pub fn len(&self) -> (len: usize)
        ensures
            len == self@.len(),
    {
        self.keys.len()
    }

    /// The key of a number.
    pub fn get(&self, i: usize) -> (key: &K)
        requires
            i < self@.len(),
        ensures
            key@ == self@[i as int],
    {
        &self.keys[i]
    }

    /// The number of a key, if it is there.
    pub fn find(&self, key: &K) -> (found: Option<usize>)
        requires
            self.well_formed(),
        ensures
            match found {
                Some(i) => i < self@.len() && self@[i as int] == key@ && i == slot(self@, key@)
                    && self@.contains(key@),
                None => !self@.contains(key@),
            },
    {
        let count: usize = self.keys.len();
        let hash: u64 = key.hash_key();
        let which: usize = (hash % self.buckets.len() as u64) as usize;
        let bucket: &Vec<usize> = &self.buckets[which];
        let mut k: usize = 0;
        while k < bucket.len()
            invariant
                k <= bucket.len(),
                self.well_formed(),
                which < self.buckets.len(),
                bucket@ == self.buckets@[which as int]@,
                forall|j: int|
                    0 <= j < k ==> self.keys@[(#[trigger] bucket@[j]) as int]@ != key@,
            decreases bucket.len() - k,
        {
            let i: usize = bucket[k];
            proof {
                assert(self.buckets@[which as int]@[k as int] < self.keys@.len());
            }
            if self.keys[i].same_as(key) {
                proof {
                    assert(self@[i as int] == key@);
                    assert(self@.contains(key@));
                    let first: int = self@.index_of(key@);
                    assert(self@[first] == key@);
                }
                return Some(i);
            }
            k = k + 1;
        }
        proof {
            if self@.contains(key@) {
                let i: int = choose|i: int| 0 <= i < self@.len() && self@[i] == key@;
                assert(i < count);
                assert(self.keys@[i]@ == key@);
                assert(K::digest(self.keys@[i]@) == hash);
                assert(self.buckets@[bucket_of(
                    K::digest(self.keys@[i]@),
                    self.buckets@.len(),
                )]@.contains(i as usize));
                assert(bucket@.contains(i as usize));
                let j: int = choose|j: int| 0 <= j < bucket@.len() && bucket@[j] == i as usize;
                assert(self.keys@[bucket@[j] as int]@ != key@);
            }
        }
        None
    }

    /// Adds a key that is not there.
    pub fn insert(&mut self, key: K) -> (i: usize)
        requires
            old(self).well_formed(),
            !old(self)@.contains(key@),
        ensures
            final(self).well_formed(),
            final(self)@ == old(self)@.push(key@),
            i == old(self)@.len(),
    {
        if self.keys.len() / 2 >= self.buckets.len() {
            self.grow();
        }
        let i: usize = self.keys.len();
        let hash: u64 = key.hash_key();
        let which: usize = (hash % self.buckets.len() as u64) as usize;
        let ghost before: Interner<K> = *self;
        let mut bucket: Vec<usize> = Vec::new();
        std::mem::swap(&mut bucket, &mut self.buckets[which]);
        let ghost held: Seq<usize> = bucket@;
        bucket.push(i);
        std::mem::swap(&mut bucket, &mut self.buckets[which]);
        self.keys.push(key);
        proof {
            assert(self@ =~= before@.push(key@));
            assert(self.buckets@[which as int]@ == held.push(i));
            assert forall|k: int| 0 <= k < self.keys@.len() implies self.buckets@[bucket_of(
                #[trigger] K::digest(self.keys@[k]@),
                self.buckets@.len(),
            )]@.contains(k as usize) by {
                let b: int = bucket_of(K::digest(self.keys@[k]@), self.buckets@.len());
                if k < i {
                    assert(self.keys@[k] == before.keys@[k]);
                    assert(before.buckets@[b]@.contains(k as usize));
                    if b == which {
                        let j: int = choose|j: int| 0 <= j < held.len() && held[j] == k as usize;
                        assert(self.buckets@[b]@[j] == k as usize);
                    }
                } else {
                    assert(self.buckets@[b]@[held.len() as int] == k as usize);
                }
            }
            assert forall|b: int, k: int|
                0 <= b < self.buckets@.len() && 0 <= k
                    < self.buckets@[b]@.len() implies #[trigger] self.buckets@[b]@[k]
                < self.keys@.len() by {
                if b == which {
                    if k < held.len() {
                        assert(before.buckets@[b]@[k] < before.keys@.len());
                    }
                } else {
                    assert(before.buckets@[b]@[k] < before.keys@.len());
                }
            }
        }
        i
    }

    /// The number of a key, which is added if it is not there.
    pub fn intern(&mut self, key: K) -> (i: usize)
        requires
            old(self).well_formed(),
        ensures
            final(self).well_formed(),
            final(self)@ == with_key(old(self)@, key@),
            i == slot(old(self)@, key@),
            i < final(self)@.len(),
            final(self)@[i as int] == key@,
    {
        match self.find(&key) {
            Some(i) => i,
            None => self.insert(key),
        }
    }

    /// Spreads the keys over more buckets, each bucket with the positions of its keys
    /// in order.
    fn grow(&mut self)
        requires
            old(self).well_formed(),
        ensures
            final(self).well_formed(),
            final(self)@ == old(self)@,
            final(self).keys@ == old(self).keys@,
            final(self).buckets@.len() == grown(old(self).keys@.len()),
            forall|b: int|
                0 <= b < final(self).buckets@.len() ==> (#[trigger] final(self).buckets@[b])@
                    == bucket_positions(
                    old(self).keys@,
                    final(self).buckets@.len(),
                    b,
                    old(self).keys@.len() as int,
                ),
    {
        let count: usize = self.keys.len();
        let size: usize = if count <= 0x3fff_ffff {
            count * 2 + 1
        } else {
            count
        };
        let mut buckets: Vec<Vec<usize>> = Vec::new();
        let mut b: usize = 0;
        while b < size
            invariant
                b <= size,
                buckets@.len() == b,
                forall|k: int| 0 <= k < b ==> (#[trigger] buckets@[k])@.len() == 0,
            decreases size - b,
        {
            buckets.push(Vec::new());
            b = b + 1;
        }
        let mut i: usize = 0;
        proof {
            assert forall|c: int| 0 <= c < size implies (#[trigger] buckets@[c])@
                == bucket_positions(self.keys@, size as nat, c, 0) by {
                assert(buckets@[c]@ =~= seq![]);
            }
        }
        while i < count
            invariant
                i <= count,
                count == self.keys@.len(),
                size == grown(count as nat),
                size >= 1,
                *self == *old(self),
                self.well_formed(),
                buckets@.len() == size,
                in_range(i as nat, buckets@),
                forall|c: int|
                    0 <= c < size ==> (#[trigger] buckets@[c])@ == bucket_positions(
                        self.keys@,
                        size as nat,
                        c,
                        i as int,
                    ),
                forall|k: int|
                    0 <= k < i ==> buckets@[bucket_of(
                        #[trigger] K::digest(self.keys@[k]@),
                        size as nat,
                    )]@.contains(k as usize),
            decreases count - i,
        {
            let ghost before: Seq<Vec<usize>> = buckets@;
            let hash: u64 = self.keys[i].hash_key();
            let which: usize = (hash % size as u64) as usize;
            let mut bucket: Vec<usize> = Vec::new();
            std::mem::swap(&mut bucket, &mut buckets[which]);
            let ghost held: Seq<usize> = bucket@;
            bucket.push(i);
            std::mem::swap(&mut bucket, &mut buckets[which]);
            proof {
                assert(buckets@[which as int]@ == held.push(i));
                assert forall|c: int| 0 <= c < size implies (#[trigger] buckets@[c])@
                    == bucket_positions(self.keys@, size as nat, c, i + 1) by {
                    assert(before[c]@ == bucket_positions(self.keys@, size as nat, c, i as int));
                }
                assert forall|k: int| 0 <= k < i + 1 implies buckets@[bucket_of(
                    #[trigger] K::digest(self.keys@[k]@),
                    size as nat,
                )]@.contains(k as usize) by {
                    let b: int = bucket_of(K::digest(self.keys@[k]@), size as nat);
                    if k < i {
                        assert(before[b]@.contains(k as usize));
                        if b == which {
                            let j: int = choose|j: int|
                                0 <= j < held.len() && held[j] == k as usize;
                            assert(buckets@[b]@[j] == k as usize);
                        }
                    } else {
                        assert(buckets@[b]@[held.len() as int] == k as usize);
                    }
                }
                assert forall|b: int, k: int|
                    0 <= b < buckets@.len() && 0 <= k < buckets@[b]@.len() implies #[trigger] buckets@[b]@[k]
                    < i + 1 by {
                    if b == which {
                        if k < held.len() {
                            assert(before[b]@[k] < i);
                        }
                    } else {
                        assert(before[b]@[k] < i);
                    }
                }
            }
            i = i + 1;
        }
        self.buckets = buckets;
    }
}

} // verus!
