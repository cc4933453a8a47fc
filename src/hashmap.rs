//! The hash map: a chain of buckets, strictly ascending by hash, each holding
//! an ordered map of the keys that share that hash.
use crate::key::MapKey;
use crate::map::{clone_of, lookup, OrderedMap};
use std::sync::Arc;
use vstd::prelude::*;

verus! {

/// How a hash map hashes its keys.
pub trait KeyHasher<K> {
    /// The hasher can hash every key, and hashes each key the same way every time.
    spec fn valid(&self) -> bool;

    /// The hash of `k`.
    spec fn spec_hash(&self, k: K) -> u64;

    fn hash_key(&self, k: &K) -> (r: u64)
        requires
            self.valid(),
        ensures
            r == self.spec_hash(*k),
    ;
}

/// Any function from a key to a hash is a hasher; it is valid when it is
/// defined on every key and deterministic.
impl<K, F: Fn(&K) -> u64> KeyHasher<K> for F {
    open spec fn valid(&self) -> bool {
        &&& forall|k: K| #[trigger] call_requires(*self, (&k,))
        &&& forall|k: K, a: u64, b: u64|
            call_ensures(*self, (&k,), a) && call_ensures(*self, (&k,), b) ==> a == b
    }

    open spec fn spec_hash(&self, k: K) -> u64 {
        choose|r: u64| call_ensures(*self, (&k,), r)
    }

    fn hash_key(&self, k: &K) -> (r: u64) {
        (self)(k)
    }
}

/// The hasher that `HashMap::new` uses: std's `DefaultHasher` over the key.
#[derive(Clone, Copy)]
pub struct DefaultHash;

/// Hashes a key with std's `DefaultHasher`.
fn default_hasher<K: MapKey>(key: &K) -> (r: u64)
    ensures
        r == key.spec_default_hash(),
{
    key.default_hash()
}

impl<K: MapKey> KeyHasher<K> for DefaultHash {
    open spec fn valid(&self) -> bool {
        true
    }

    open spec fn spec_hash(&self, k: K) -> u64 {
        k.spec_default_hash()
    }

    fn hash_key(&self, k: &K) -> (r: u64) {
        default_hasher(k)
    }
}

/// A link of the bucket chain: absent at the end.
pub type BucketLink<K, V> = Option<Arc<HashMapNode<K, V>>>;

/// One bucket: the keys of one hash, in an ordered map of their own.
pub struct HashMapNode<K, V> {
    map: OrderedMap<K, V>,
    hash: u64,
    next: BucketLink<K, V>,
}

impl<K, V> HashMapNode<K, V> {
    pub closed spec fn spec_map(&self) -> OrderedMap<K, V> {
        self.map
    }

    pub closed spec fn spec_hash(&self) -> u64 {
        self.hash
    }

    pub closed spec fn spec_next(&self) -> BucketLink<K, V> {
        self.next
    }
}

/// The number of buckets reachable from a link.
pub open spec fn bucket_len<K, V>(c: BucketLink<K, V>) -> nat
    decreases c,
{
    match c {
        None => 0,
        Some(b) => 1 + bucket_len(b.spec_next()),
    }
}

/// The hashes of the buckets in the order a walk meets them.
pub open spec fn bucket_hashes<K, V>(c: BucketLink<K, V>) -> Seq<u64>
    decreases c,
{
    match c {
        None => Seq::empty(),
        Some(b) => seq![b.spec_hash()].add(bucket_hashes(b.spec_next())),
    }
}

/// All the entries of all the buckets reachable from a link.
pub open spec fn bucket_map<K, V>(c: BucketLink<K, V>) -> Map<K, V>
    decreases c,
{
    match c {
        None => Map::empty(),
        Some(b) => bucket_map(b.spec_next()).union_prefer_right(b.spec_map()@),
    }
}

/// Each bucket is a well-formed, non-empty map whose keys all have the
/// bucket's hash, and every key after it hashes higher.
pub open spec fn buckets_wf<K: MapKey, V: Clone, H: KeyHasher<K>>(
    c: BucketLink<K, V>,
    hasher: H,
) -> bool
    decreases c,
{
    match c {
        None => true,
        Some(b) => {
            &&& buckets_wf(b.spec_next(), hasher)
            &&& b.spec_map().wf()
            &&& b.spec_map()@ != Map::<K, V>::empty()
            &&& forall|k: K| #[trigger]
                b.spec_map()@.dom().contains(k) ==> hasher.spec_hash(k) == b.spec_hash()
            &&& forall|k: K| #[trigger]
                bucket_map(b.spec_next()).dom().contains(k) ==> b.spec_hash() < hasher.spec_hash(k)
        },
    }
}

/// A copy of a link that shares its buckets.
fn share_buckets<K, V>(c: &BucketLink<K, V>) -> (r: BucketLink<K, V>)
    ensures
        r == *c,
{
    match c {
        None => None,
        Some(b) => Some(b.clone()),
    }
}

impl<K: MapKey, V: Clone> HashMapNode<K, V> {
    /// A bucket of hash `hash` that holds the one pair, at the end of a chain.
    pub fn new(key: &K, value: &V, hash: u64) -> (r: Arc<HashMapNode<K, V>>)
        ensures
            r.spec_hash() == hash,
            r.spec_map().wf(),
            r.spec_map()@ == Map::<K, V>::empty().insert(*key, r.spec_map()@[*key]),
            cloned(*value, r.spec_map()@[*key]),
            r.spec_next() is None,
    {
        HashMapNode::new_head(None, key, value, hash)
    }

    /// A bucket of hash `hash` that holds the one pair, in front of the chain
    /// that `old_head_ptr` starts.
    pub fn new_head(old_head_ptr: BucketLink<K, V>, key: &K, value: &V, hash: u64) -> (r: Arc<
        HashMapNode<K, V>,
    >)
        ensures
            r.spec_hash() == hash,
            r.spec_map().wf(),
            r.spec_map()@ == Map::<K, V>::empty().insert(*key, r.spec_map()@[*key]),
            cloned(*value, r.spec_map()@[*key]),
            r.spec_next() == old_head_ptr,
    {
        let mut map = OrderedMap::new();
        map.add(key, value);
        Arc::new(HashMapNode { map, hash, next: old_head_ptr })
    }

    /// A copy of `old` that shares its map, followed by a bucket of hash
    /// `hash` that holds the one pair, followed by what followed `old`.
    pub fn new_insert(old: &HashMapNode<K, V>, key: &K, value: &V, hash: u64) -> (r: Arc<
        HashMapNode<K, V>,
    >)
        ensures
            r.spec_hash() == old.spec_hash(),
            r.spec_map() == old.spec_map(),
            r.spec_next() is Some,
            r.spec_next().unwrap().spec_hash() == hash,
            r.spec_next().unwrap().spec_map().wf(),
            r.spec_next().unwrap().spec_map()@ == Map::<K, V>::empty().insert(
                *key,
                r.spec_next().unwrap().spec_map()@[*key],
            ),
            cloned(*value, r.spec_next().unwrap().spec_map()@[*key]),
            r.spec_next().unwrap().spec_next() == old.spec_next(),
    {
        let inserted = HashMapNode::new_head(share_buckets(&old.next), key, value, hash);
        Arc::new(HashMapNode { map: old.map.copy(), hash: old.hash, next: Some(inserted) })
    }

    /// A copy of `old` with another map.
    fn with_map(old: &HashMapNode<K, V>, map: OrderedMap<K, V>) -> (r: Arc<HashMapNode<K, V>>)
        ensures
            r.spec_hash() == old.spec_hash(),
            r.spec_map() == map,
            r.spec_next() == old.spec_next(),
    {
        Arc::new(HashMapNode { map, hash: old.hash, next: share_buckets(&old.next) })
    }

    /// A copy of `old` with another successor.
    fn with_next(old: &HashMapNode<K, V>, next: BucketLink<K, V>) -> (r: Arc<HashMapNode<K, V>>)
        ensures
            r.spec_hash() == old.spec_hash(),
            r.spec_map() == old.spec_map(),
            r.spec_next() == next,
    {
        Arc::new(HashMapNode { map: old.map.copy(), hash: old.hash, next })
    }
}

/// In a well-formed chain no key hashes below the first bucket's hash.
proof fn lemma_first_bucket_least<K: MapKey, V: Clone, H: KeyHasher<K>>(
    c: BucketLink<K, V>,
    hasher: H,
    k: K,
)
    requires
        buckets_wf(c, hasher),
        c is Some,
        bucket_map(c).dom().contains(k),
    ensures
        c.unwrap().spec_hash() <= hasher.spec_hash(k),
{
    let b = c.unwrap();
    if !b.spec_map()@.dom().contains(k) {
        assert(bucket_map(b.spec_next()).dom().contains(k));
    }
}

/// A key that hashes below the first bucket's hash is absent.
proof fn lemma_below_first_bucket_absent<K: MapKey, V: Clone, H: KeyHasher<K>>(
    c: BucketLink<K, V>,
    hasher: H,
    k: K,
)
    requires
        buckets_wf(c, hasher),
        c is Some,
        hasher.spec_hash(k) < c.unwrap().spec_hash(),
    ensures
        !bucket_map(c).dom().contains(k),
{
    if bucket_map(c).dom().contains(k) {
        lemma_first_bucket_least(c, hasher, k);
    }
}

/// Looks `key`, of hash `h`, up: finds its bucket by hash, then asks the
/// bucket's map. The walk stops at the first bucket of a higher hash.
fn get_buckets<K: MapKey, V: Clone, H: KeyHasher<K>>(
    c: &BucketLink<K, V>,
    h: u64,
    key: &K,
    Ghost(hasher): Ghost<H>,
) -> (r: Option<(K, V)>)
    requires
        buckets_wf(*c, hasher),
        h == hasher.spec_hash(*key),
    ensures
        r matches Some(p) ==> p.0 == *key,
        clone_of(
            match r {
                Some(p) => Some(p.1),
                None => None,
            },
            lookup(bucket_map(*c), *key),
        ),
    decreases bucket_len(*c),
{
    match c {
        None => None,
        Some(b) => {
            if b.hash == h {
                proof {
                    assert(!bucket_map(b.next).dom().contains(*key));
                    assert(lookup(bucket_map(*c), *key) == lookup(b.map@, *key));
                }
                b.map.get(key)
            } else if b.hash > h {
                proof {
                    lemma_below_first_bucket_absent(*c, hasher, *key);
                }
                None
            } else {
                proof {
                    assert(!b.map@.dom().contains(*key));
                    assert(lookup(bucket_map(*c), *key) == lookup(bucket_map(b.next), *key));
                }
                get_buckets::<K, V, H>(&b.next, h, key, Ghost(hasher))
            }
        },
    }
}

/// Builds the chain that maps `key`, of hash `h`, to a clone of `value`,
/// sharing every bucket after the one that changes; also returns a clone of
/// the value `key` had.
fn add_buckets<K: MapKey, V: Clone, H: KeyHasher<K>>(
    c: &BucketLink<K, V>,
    h: u64,
    key: &K,
    value: &V,
    Ghost(hasher): Ghost<H>,
) -> (res: (BucketLink<K, V>, Option<V>))
    requires
        buckets_wf(*c, hasher),
        h == hasher.spec_hash(*key),
    ensures
        buckets_wf(res.0, hasher),
        bucket_map(res.0) == bucket_map(*c).insert(*key, bucket_map(res.0)[*key]),
        cloned(*value, bucket_map(res.0)[*key]),
        clone_of(res.1, lookup(bucket_map(*c), *key)),
    decreases bucket_len(*c),
{
    match c {
        None => {
            let node = HashMapNode::new(key, value, h);
            let res = Some(node);
            proof {
                assert(bucket_map(node.spec_next()) == Map::<K, V>::empty());
                assert(bucket_map(res) =~= node.spec_map()@);
                assert(bucket_map(res) =~= bucket_map(*c).insert(*key, bucket_map(res)[*key]));
            }
            (res, None)
        },
        Some(b) => {
            if b.hash > h {
                proof {
                    lemma_below_first_bucket_absent(*c, hasher, *key);
                }
                let node = HashMapNode::new_head(share_buckets(c), key, value, h);
                let res = Some(node);
                proof {
                    assert forall|k: K| #[trigger] bucket_map(*c).dom().contains(k) implies h
                        < hasher.spec_hash(k) by {
                        lemma_first_bucket_least(*c, hasher, k);
                    }
                    assert(node.spec_next() == *c);
                    assert(node.spec_map()@.dom().contains(*key));
                    assert forall|k: K| #[trigger] node.spec_map()@.dom().contains(k) implies hasher.spec_hash(k)
                        == h by {
                        assert(node.spec_map()@.dom().contains(k) ==> k == *key);
                    }
                    assert(buckets_wf(res, hasher));
                    assert(bucket_map(res) =~= bucket_map(*c).insert(*key, bucket_map(res)[*key]));
                }
                (res, None)
            } else if b.hash == h {
                let mut map = b.map.copy();
                let r = map.add(key, value);
                let node = HashMapNode::with_map(b, map);
                let res = Some(node);
                proof {
                    assert(!bucket_map(b.next).dom().contains(*key));
                    assert(lookup(bucket_map(*c), *key) == lookup(b.map@, *key));
                    assert(map@.dom().contains(*key));
                    assert(map@ != Map::<K, V>::empty());
                    assert forall|k: K| #[trigger] map@.dom().contains(k) implies hasher.spec_hash(k)
                        == h by {
                        if k != *key {
                            assert(b.map@.dom().contains(k));
                        }
                    }
                    assert(buckets_wf(res, hasher));
                    assert(bucket_map(res) =~= bucket_map(*c).insert(*key, bucket_map(res)[*key]));
                }
                (res, r)
            } else {
                let (rest, r) = add_buckets::<K, V, H>(&b.next, h, key, value, Ghost(hasher));
                let node = HashMapNode::with_next(b, rest);
                let res = Some(node);
                proof {
                    assert(!b.map@.dom().contains(*key));
                    assert(lookup(bucket_map(*c), *key) == lookup(bucket_map(b.next), *key));
                    assert forall|k: K| #[trigger] bucket_map(rest).dom().contains(k) implies b.hash
                        < hasher.spec_hash(k) by {
                        if k != *key {
                            assert(bucket_map(b.next).dom().contains(k));
                        }
                    }
                    assert(buckets_wf(res, hasher));
                    assert(bucket_map(res) =~= bucket_map(*c).insert(*key, bucket_map(res)[*key]));
                }
                (res, r)
            }
        },
    }
}

/// Builds the chain without `key`, of hash `h`, sharing every bucket after
/// the one that changes, and dropping that bucket where it becomes empty;
/// also returns a clone of the value taken out. Where `key` is absent the
/// chain comes back as it was.
fn remove_buckets<K: MapKey, V: Clone, H: KeyHasher<K>>(
    c: &BucketLink<K, V>,
    h: u64,
    key: &K,
    Ghost(hasher): Ghost<H>,
) -> (res: (BucketLink<K, V>, Option<V>))
    requires
        buckets_wf(*c, hasher),
        h == hasher.spec_hash(*key),
    ensures
        buckets_wf(res.0, hasher),
        bucket_map(res.0) == bucket_map(*c).remove(*key),
        clone_of(res.1, lookup(bucket_map(*c), *key)),
        res.1 is None ==> res.0 == *c,
    decreases bucket_len(*c),
{
    match c {
        None => {
            proof {
                assert(bucket_map(*c).remove(*key) =~= bucket_map(*c));
            }
            (None, None)
        },
        Some(b) => {
            if b.hash > h {
                proof {
                    lemma_below_first_bucket_absent(*c, hasher, *key);
                    assert(bucket_map(*c).remove(*key) =~= bucket_map(*c));
                }
                (share_buckets(c), None)
            } else if b.hash == h {
                let mut map = b.map.copy();
                let r = map.remove(key);
                proof {
                    assert(!bucket_map(b.next).dom().contains(*key));
                    assert(lookup(bucket_map(*c), *key) == lookup(b.map@, *key));
                }
                match r {
                    None => {
                        proof {
                            assert(bucket_map(*c).remove(*key) =~= bucket_map(*c));
                        }
                        (share_buckets(c), None)
                    },
                    Some(v) => {
                        if map.is_null() {
                            proof {
                                assert(bucket_map(*c).remove(*key) =~= bucket_map(b.next)) by {
                                    assert forall|k: K| b.map@.dom().contains(k) implies k
                                        == *key by {
                                        if k != *key {
                                            assert(map@.dom().contains(k));
                                        }
                                    }
                                }
                            }
                            (share_buckets(&b.next), Some(v))
                        } else {
                            let node = HashMapNode::with_map(b, map);
                            let res = Some(node);
                            proof {
                                assert forall|k: K| #[trigger] map@.dom().contains(k) implies hasher.spec_hash(k)
                                    == h by {
                                    assert(b.map@.dom().contains(k));
                                }
                                assert(buckets_wf(res, hasher));
                                assert(bucket_map(res) =~= bucket_map(*c).remove(*key));
                            }
                            (res, Some(v))
                        }
                    },
                }
            } else {
                let (rest, r) = remove_buckets::<K, V, H>(&b.next, h, key, Ghost(hasher));
                proof {
                    assert(!b.map@.dom().contains(*key));
                    assert(lookup(bucket_map(*c), *key) == lookup(bucket_map(b.next), *key));
                }
                match r {
                    None => {
                        proof {
                            assert(bucket_map(*c).remove(*key) =~= bucket_map(*c));
                        }
                        (share_buckets(c), None)
                    },
                    Some(v) => {
                        let node = HashMapNode::with_next(b, rest);
                        let res = Some(node);
                        proof {
                            assert forall|k: K| #[trigger] bucket_map(rest).dom().contains(k) implies b.hash
                                < hasher.spec_hash(k) by {
                                assert(bucket_map(b.next).dom().contains(k));
                            }
                            assert(buckets_wf(res, hasher));
                            assert(bucket_map(res) =~= bucket_map(*c).remove(*key));
                        }
                        (res, Some(v))
                    },
                }
            }
        },
    }
}

/// A hash map from keys to values: the head of a chain of buckets that
/// ascends by hash, and the hasher that places keys in buckets.
///
/// As with `OrderedMap`, a change builds new buckets up to the change point
/// and shares the rest; a bucket whose map becomes empty leaves the chain in
/// the same change.
pub struct HashMap<K, V, H> {
    head: BucketLink<K, V>,
    hasher: H,
}

impl<K, V, H> View for HashMap<K, V, H> {
    type V = Map<K, V>;

    closed spec fn view(&self) -> Map<K, V> {
        bucket_map(self.head)
    }
}

impl<K: MapKey, V: Clone> HashMap<K, V, DefaultHash> {
    /// An empty map that hashes with std's `DefaultHasher`.
    pub fn new() -> (r: Self)
        ensures
            r.wf(),
            r@ == Map::<K, V>::empty(),
            r.spec_hasher() == DefaultHash,
    {
        HashMap { head: None, hasher: DefaultHash }
    }
}

impl<K: MapKey, V: Clone, H: KeyHasher<K>> HashMap<K, V, H> {
    /// The hasher is valid and the bucket chain well-formed.
    pub closed spec fn wf(&self) -> bool {
        &&& self.hasher.valid()
        &&& buckets_wf(self.head, self.hasher)
    }

    pub closed spec fn spec_hasher(&self) -> H {
        self.hasher
    }

    /// The bucket hashes in the order a walk from the head meets them.
    pub closed spec fn hashes(&self) -> Seq<u64> {
        bucket_hashes(self.head)
    }

    /// An empty map that hashes with `hasher`.
    pub fn new_with_hasher(hasher: H) -> (r: Self)
        requires
            hasher.valid(),
        ensures
            r.wf(),
            r@ == Map::<K, V>::empty(),
            r.spec_hasher() == hasher,
    {
        HashMap { head: None, hasher }
    }

    /// Maps `key` to a clone of `value`; returns a clone of the value `key`
    /// had before, or `None` where it had none.
    pub fn add(&mut self, key: &K, value: &V) -> (r: Option<V>)
        requires
            old(self).wf(),
        ensures
            final(self).wf(),
            final(self).spec_hasher() == old(self).spec_hasher(),
            final(self)@ == old(self)@.insert(*key, final(self)@[*key]),
            cloned(*value, final(self)@[*key]),
            clone_of(r, lookup(old(self)@, *key)),
    {
        let hash = self.hasher.hash_key(key);
        let (head, r) = add_buckets::<K, V, H>(&self.head, hash, key, value, Ghost(self.hasher));
        self.head = head;
        r
    }

    /// The entry for `key`, cloned, or `None` where the map has none.
    pub fn get(&self, key: &K) -> (r: Option<(K, V)>)
        requires
            self.wf(),
        ensures
            r matches Some(p) ==> p.0 == *key,
            clone_of(
                match r {
                    Some(p) => Some(p.1),
                    None => None,
                },
                lookup(self@, *key),
            ),
    {
        let hash = self.hasher.hash_key(key);
        get_buckets::<K, V, H>(&self.head, hash, key, Ghost(self.hasher))
    }

    /// Takes `key` out; returns a clone of its value, or `None` where it was
    /// absent, in which case the map is left exactly as it was.
    pub fn remove(&mut self, key: &K) -> (r: Option<V>)
        requires
            old(self).wf(),
        ensures
            final(self).wf(),
            final(self).spec_hasher() == old(self).spec_hasher(),
            final(self)@ == old(self)@.remove(*key),
            clone_of(r, lookup(old(self)@, *key)),
            r is None ==> *final(self) == *old(self),
    {
        let hash = self.hasher.hash_key(key);
        let (head, r) = remove_buckets::<K, V, H>(&self.head, hash, key, Ghost(self.hasher));
        self.head = head;
        r
    }
}

impl<K: MapKey, V: Clone, H: KeyHasher<K> + Copy> HashMap<K, V, H> {
    /// A second header on the same buckets and hasher: no bucket is copied.
    pub fn copy(&self) -> (r: Self)
        ensures
            r == *self,
    {
        HashMap { head: share_buckets(&self.head), hasher: self.hasher }
    }
}

/// Each bucket hash is the hash of a key that the chain holds, and the
/// hashes rise strictly along the chain.
proof fn lemma_bucket_chain<K: MapKey, V: Clone, H: KeyHasher<K>>(c: BucketLink<K, V>, hasher: H)
    requires
        buckets_wf(c, hasher),
    ensures
        forall|i: int| #![trigger bucket_hashes(c)[i]]
            0 <= i < bucket_hashes(c).len() ==> exists|k: K| #[trigger]
                bucket_map(c).dom().contains(k) && hasher.spec_hash(k) == bucket_hashes(c)[i],
        forall|i: int, j: int|
            0 <= i < j < bucket_hashes(c).len() ==> #[trigger] bucket_hashes(c)[i]
                < #[trigger] bucket_hashes(c)[j],
    decreases c,
{
    if let Some(b) = c {
        let rest = b.spec_next();
        lemma_bucket_chain(rest, hasher);
        let hs = bucket_hashes(c);
        assert(exists|k: K| b.spec_map()@.dom().contains(k)) by {
            if !(exists|k: K| b.spec_map()@.dom().contains(k)) {
                assert(b.spec_map()@ =~= Map::<K, V>::empty());
            }
        }
        let k0 = choose|k: K| b.spec_map()@.dom().contains(k);
        assert(bucket_map(c).dom().contains(k0));
        assert forall|i: int| #![trigger hs[i]] 0 <= i < hs.len() implies exists|k: K| #[trigger]
            bucket_map(c).dom().contains(k) && hasher.spec_hash(k) == hs[i] by {
            if i > 0 {
                assert(hs[i] == bucket_hashes(rest)[i - 1]);
                let k = choose|k: K| #[trigger]
                    bucket_map(rest).dom().contains(k) && hasher.spec_hash(k) == bucket_hashes(
                        rest,
                    )[i - 1];
                assert(bucket_map(c).dom().contains(k));
            }
        }
        assert forall|i: int, j: int| 0 <= i < j < hs.len() implies #[trigger] hs[i]
            < #[trigger] hs[j] by {
            assert(hs[j] == bucket_hashes(rest)[j - 1]);
            if i > 0 {
                assert(hs[i] == bucket_hashes(rest)[i - 1]);
            } else {
                let k = choose|k: K| #[trigger]
                    bucket_map(rest).dom().contains(k) && hasher.spec_hash(k) == bucket_hashes(
                        rest,
                    )[j - 1];
            }
        }
    }
}

/// Sortedness and uniqueness of buckets: between operations, a walk of a
/// well-formed map meets bucket hashes in strictly ascending order, so no
/// hash has two buckets.
pub proof fn lemma_buckets_ascending<K: MapKey, V: Clone, H: KeyHasher<K>>(m: &HashMap<K, V, H>)
    requires
        m.wf(),
    ensures
        forall|i: int, j: int|
            0 <= i < j < m.hashes().len() ==> #[trigger] m.hashes()[i] < #[trigger] m.hashes()[j],
        forall|i: int, j: int|
            0 <= i < m.hashes().len() && 0 <= j < m.hashes().len() && i != j ==> #[trigger] m.hashes()[i]
                != #[trigger] m.hashes()[j],
{
    lemma_bucket_chain(m.head, m.hasher);
    assert forall|i: int, j: int|
        0 <= i < m.hashes().len() && 0 <= j < m.hashes().len() && i != j implies #[trigger] m.hashes()[i]
        != #[trigger] m.hashes()[j] by {
        if i < j {
            assert(m.hashes()[i] < m.hashes()[j]);
        } else {
            assert(m.hashes()[j] < m.hashes()[i]);
        }
    }
}

/// Some key of `m` has hash `h` under `hasher`.
pub open spec fn holds_hash<K, V, H: KeyHasher<K>>(m: Map<K, V>, hasher: H, h: u64) -> bool {
    exists|k: K| #[trigger] m.dom().contains(k) && hasher.spec_hash(k) == h
}

/// No empty bucket: every bucket of a well-formed map holds a key of its
/// hash. So once the last key of hash `h` is removed, no bucket of hash `h`
/// is left, and a lookup of any key of hash `h` finds nothing.
pub proof fn lemma_no_empty_bucket<K: MapKey, V: Clone, H: KeyHasher<K>>(m: &HashMap<K, V, H>)
    requires
        m.wf(),
    ensures
        forall|i: int|
            0 <= i < m.hashes().len() ==> holds_hash(m@, m.spec_hasher(), #[trigger] m.hashes()[i]),
        forall|h: u64| !holds_hash(m@, m.spec_hasher(), h) ==> !(#[trigger] m.hashes().contains(h)),
{
    lemma_bucket_chain(m.head, m.hasher);
    assert forall|i: int| 0 <= i < m.hashes().len() implies holds_hash(
        m@,
        m.spec_hasher(),
        #[trigger] m.hashes()[i],
    ) by {
        let k = choose|k: K| #[trigger]
            bucket_map(m.head).dom().contains(k) && m.hasher.spec_hash(k) == bucket_hashes(m.head)[i];
        assert(m@.dom().contains(k));
    }
    assert forall|h: u64| !holds_hash(m@, m.spec_hasher(), h) implies !(
    #[trigger] m.hashes().contains(h)) by {
        if m.hashes().contains(h) {
            let i = choose|i: int| 0 <= i < m.hashes().len() && m.hashes()[i] == h;
            assert(holds_hash(m@, m.spec_hasher(), m.hashes()[i]));
        }
    }
}

} // verus!
