//! The ordered map: one chain of nodes, strictly ascending by key.
use crate::key::MapKey;
use std::cmp::Ordering;
use std::sync::Arc;
use vstd::prelude::*;

verus! {

/// A link of the chain: absent at the end.
pub type Link<K, V> = Option<Arc<MapNode<K, V>>>;

/// One cell of the chain. Its key and value never change once it is built;
/// a new value means a new node.
pub struct MapNode<K, V> {
    key: K,
    value: Arc<V>,
    next: Link<K, V>,
}

impl<K, V> MapNode<K, V> {
    pub closed spec fn spec_key(&self) -> K {
        self.key
    }

    pub closed spec fn spec_value(&self) -> V {
        *self.value
    }

    pub closed spec fn spec_next(&self) -> Link<K, V> {
        self.next
    }
}

/// The number of nodes reachable from a link.
pub open spec fn chain_len<K, V>(c: Link<K, V>) -> nat
    decreases c,
{
    match c {
        None => 0,
        Some(n) => 1 + chain_len(n.spec_next()),
    }
}

/// The keys met by a walk from the link, in the order met.
pub open spec fn chain_keys<K, V>(c: Link<K, V>) -> Seq<K>
    decreases c,
{
    match c {
        None => Seq::empty(),
        Some(n) => seq![n.spec_key()].add(chain_keys(n.spec_next())),
    }
}

/// The entries reachable from a link, as a map.
pub open spec fn chain_map<K, V>(c: Link<K, V>) -> Map<K, V>
    decreases c,
{
    match c {
        None => Map::empty(),
        Some(n) => chain_map(n.spec_next()).insert(n.spec_key(), n.spec_value()),
    }
}

/// Every node's key ranks below every key after it.
pub open spec fn chain_sorted<K: MapKey, V>(c: Link<K, V>) -> bool
    decreases c,
{
    match c {
        None => true,
        Some(n) => {
            &&& chain_sorted(n.spec_next())
            &&& forall|k: K| #[trigger]
                chain_map(n.spec_next()).dom().contains(k) ==> n.spec_key().rank() < k.rank()
        },
    }
}

/// A copy of a link that shares its nodes.
fn share<K, V>(c: &Link<K, V>) -> (r: Link<K, V>)
    ensures
        r == *c,
{
    match c {
        None => None,
        Some(n) => Some(n.clone()),
    }
}

impl<K: MapKey, V: Clone> MapNode<K, V> {
    /// A node holding the pair, at the end of a chain.
    pub fn new(key: &K, value: &V) -> (r: Arc<MapNode<K, V>>)
        ensures
            r.spec_key() == *key,
            cloned(*value, r.spec_value()),
            r.spec_next() is None,
    {
        Arc::new(MapNode { key: key.duplicate(), value: Arc::new(value.clone()), next: None })
    }

    /// A node holding the pair, in front of the chain that `old_head_ptr` starts.
    pub fn new_head(old_head_ptr: Link<K, V>, key: &K, value: &V) -> (r: Arc<MapNode<K, V>>)
        ensures
            r.spec_key() == *key,
            cloned(*value, r.spec_value()),
            r.spec_next() == old_head_ptr,
    {
        Arc::new(
            MapNode { key: key.duplicate(), value: Arc::new(value.clone()), next: old_head_ptr },
        )
    }

    /// A copy of `old` followed by a node holding the pair, followed by what
    /// followed `old`.
    pub fn new_insert(old: &MapNode<K, V>, key: &K, value: &V) -> (r: Arc<MapNode<K, V>>)
        ensures
            r.spec_key() == old.spec_key(),
            r.spec_value() == old.spec_value(),
            r.spec_next() is Some,
            r.spec_next().unwrap().spec_key() == *key,
            cloned(*value, r.spec_next().unwrap().spec_value()),
            r.spec_next().unwrap().spec_next() == old.spec_next(),
    {
        let inserted = MapNode::new_head(share(&old.next), key, value);
        Arc::new(MapNode { key: old.key.duplicate(), value: old.value.clone(), next: Some(inserted) })
    }

    /// A node with `old`'s key and successor and a new value.
    pub fn change_value(old: &MapNode<K, V>, value: &V) -> (r: Arc<MapNode<K, V>>)
        ensures
            r.spec_key() == old.spec_key(),
            cloned(*value, r.spec_value()),
            r.spec_next() == old.spec_next(),
    {
        Arc::new(
            MapNode { key: old.key.duplicate(), value: Arc::new(value.clone()), next: share(&old.next) },
        )
    }

    /// A node with `old`'s key and value and another successor.
    fn with_next(old: &MapNode<K, V>, next: Link<K, V>) -> (r: Arc<MapNode<K, V>>)
        ensures
            r.spec_key() == old.spec_key(),
            r.spec_value() == old.spec_value(),
            r.spec_next() == next,
    {
        Arc::new(MapNode { key: old.key.duplicate(), value: old.value.clone(), next })
    }
}

/// In a sorted chain no key ranks below the first one.
proof fn lemma_head_is_least<K: MapKey, V>(c: Link<K, V>, k: K)
    requires
        chain_sorted(c),
        c is Some,
        chain_map(c).dom().contains(k),
    ensures
        c.unwrap().spec_key().rank() <= k.rank(),
{
    let n = c.unwrap();
    if k != n.spec_key() {
        assert(chain_map(n.spec_next()).dom().contains(k));
    }
}

/// A key that ranks below the first one is absent from a sorted chain.
proof fn lemma_below_head_absent<K: MapKey, V>(c: Link<K, V>, k: K)
    requires
        chain_sorted(c),
        c is Some,
        k.rank() < c.unwrap().spec_key().rank(),
    ensures
        !chain_map(c).dom().contains(k),
{
    if chain_map(c).dom().contains(k) {
        lemma_head_is_least(c, k);
    }
}

/// Looks `key` up, stopping at the first key that ranks above it.
fn get_chain<K: MapKey, V: Clone>(c: &Link<K, V>, key: &K) -> (r: Option<(K, V)>)
    requires
        chain_sorted(*c),
    ensures
        match r {
            None => !chain_map(*c).dom().contains(*key),
            Some(p) => chain_map(*c).dom().contains(*key) && p.0 == *key && cloned(
                chain_map(*c)[*key],
                p.1,
            ),
        },
    decreases chain_len(*c),
{
    match c {
        None => None,
        Some(n) => match n.key.compare(key) {
            Ordering::Equal => {
                proof {
                    K::lemma_rank_injective(&n.key, key);
                }
                Some((n.key.duplicate(), (*n.value).clone()))
            },
            Ordering::Greater => {
                proof {
                    lemma_below_head_absent(*c, *key);
                }
                None
            },
            Ordering::Less => get_chain(&n.next, key),
        },
    }
}

/// Builds the chain that holds `key` with a clone of `value`, sharing every
/// node after the one that changes; also returns a clone of the value that
/// `key` had.
fn add_chain<K: MapKey, V: Clone>(c: &Link<K, V>, key: &K, value: &V) -> (res: (
    Link<K, V>,
    Option<V>,
))
    requires
        chain_sorted(*c),
    ensures
        chain_sorted(res.0),
        chain_map(res.0).dom() == chain_map(*c).dom().insert(*key),
        cloned(*value, chain_map(res.0)[*key]),
        chain_map(res.0).remove(*key) == chain_map(*c).remove(*key),
        match res.1 {
            None => !chain_map(*c).dom().contains(*key),
            Some(v) => chain_map(*c).dom().contains(*key) && cloned(chain_map(*c)[*key], v),
        },
    decreases chain_len(*c),
{
    match c {
        None => {
            let node = MapNode::new(key, value);
            let res = Some(node);
            proof {
                assert(chain_map(node.spec_next()) == Map::<K, V>::empty());
                assert(chain_map(res) =~= Map::<K, V>::empty().insert(*key, node.spec_value()));
                assert(chain_map(res).dom() =~= chain_map(*c).dom().insert(*key));
                assert(chain_map(res).remove(*key) =~= chain_map(*c).remove(*key));
            }
            (res, None)
        },
        Some(n) => match n.key.compare(key) {
            Ordering::Greater => {
                proof {
                    lemma_below_head_absent(*c, *key);
                }
                let node = MapNode::new_head(share(c), key, value);
                let res = Some(node);
                proof {
                    assert forall|k: K| #[trigger] chain_map(*c).dom().contains(k) implies key.rank()
                        < k.rank() by {
                        lemma_head_is_least(*c, k);
                    }
                    assert(chain_map(res).dom() =~= chain_map(*c).dom().insert(*key));
                    assert(chain_map(res).remove(*key) =~= chain_map(*c).remove(*key));
                }
                (res, None)
            },
            Ordering::Equal => {
                proof {
                    K::lemma_rank_injective(&n.key, key);
                }
                let node = MapNode::change_value(n, value);
                let old = (*n.value).clone();
                let res = Some(node);
                proof {
                    assert(!chain_map(n.next).dom().contains(*key));
                    assert(chain_map(res).dom() =~= chain_map(*c).dom().insert(*key));
                    assert(chain_map(res).remove(*key) =~= chain_map(n.next));
                    assert(chain_map(*c).remove(*key) =~= chain_map(n.next));
                }
                (res, Some(old))
            },
            Ordering::Less => {
                let (rest, old) = add_chain(&n.next, key, value);
                let node = MapNode::with_next(n, rest);
                let res = Some(node);
                proof {
                    assert(n.key != *key);
                    assert forall|k: K| #[trigger] chain_map(rest).dom().contains(k) implies n.key.rank()
                        < k.rank() by {
                        if k != *key {
                            assert(chain_map(rest).remove(*key).dom().contains(k));
                        }
                    }
                    assert(chain_map(res).dom() =~= chain_map(*c).dom().insert(*key));
                    assert(chain_map(res).remove(*key) =~= chain_map(*c).remove(*key)) by {
                        assert(chain_map(res).remove(*key) =~= chain_map(rest).remove(*key).insert(
                            n.key,
                            *n.value,
                        ));
                        assert(chain_map(*c).remove(*key) =~= chain_map(n.next).remove(*key).insert(
                            n.key,
                            *n.value,
                        ));
                    }
                }
                (res, old)
            },
        },
    }
}

/// Builds the chain without `key`, sharing every node after the one taken
/// out; also returns a clone of the value taken out. Where `key` is absent
/// the chain comes back as it was.
fn remove_chain<K: MapKey, V: Clone>(c: &Link<K, V>, key: &K) -> (res: (Link<K, V>, Option<V>))
    requires
        chain_sorted(*c),
    ensures
        chain_sorted(res.0),
        chain_map(res.0) == chain_map(*c).remove(*key),
        match res.1 {
            None => !chain_map(*c).dom().contains(*key) && res.0 == *c,
            Some(v) => chain_map(*c).dom().contains(*key) && cloned(chain_map(*c)[*key], v),
        },
    decreases chain_len(*c),
{
    match c {
        None => {
            proof {
                assert(chain_map(*c).remove(*key) =~= chain_map(*c));
            }
            (None, None)
        },
        Some(n) => match n.key.compare(key) {
            Ordering::Greater => {
                proof {
                    lemma_below_head_absent(*c, *key);
                    assert(chain_map(*c).remove(*key) =~= chain_map(*c));
                }
                (share(c), None)
            },
            Ordering::Equal => {
                proof {
                    K::lemma_rank_injective(&n.key, key);
                    assert(!chain_map(n.next).dom().contains(*key));
                    assert(chain_map(*c).remove(*key) =~= chain_map(n.next));
                }
                (share(&n.next), Some((*n.value).clone()))
            },
            Ordering::Less => {
                let (rest, old) = remove_chain(&n.next, key);
                match old {
                    None => {
                        proof {
                            assert(chain_map(*c).remove(*key) =~= chain_map(*c));
                        }
                        (share(c), None)
                    },
                    Some(v) => {
                        let node = MapNode::with_next(n, rest);
                        let res = Some(node);
                        proof {
                            assert(n.key != *key);
                            assert forall|k: K| #[trigger] chain_map(rest).dom().contains(k) implies n.key.rank()
                                < k.rank() by {
                                assert(chain_map(n.next).dom().contains(k));
                            }
                            assert(chain_map(res) =~= chain_map(*c).remove(*key));
                        }
                        (res, Some(v))
                    },
                }
            },
        },
    }
}

/// The value a map holds for `k`, if any.
pub open spec fn lookup<K, V>(m: Map<K, V>, k: K) -> Option<V> {
    if m.dom().contains(k) {
        Some(m[k])
    } else {
        None
    }
}

/// `r` is what `s` is, up to cloning: both absent, or a clone of `s`'s value.
pub open spec fn clone_of<V: Clone>(r: Option<V>, s: Option<V>) -> bool {
    match (r, s) {
        (None, None) => true,
        (Some(a), Some(b)) => cloned(b, a),
        _ => false,
    }
}

/// An ordered map from keys to values: the head of a chain that ascends by key.
///
/// Changes never touch a node that is already in the chain: they build the
/// nodes up to the change point anew and share the rest, so a `copy` taken
/// earlier still sees the chain it saw.
pub struct OrderedMap<K, V> {
    head: Link<K, V>,
}

impl<K, V> View for OrderedMap<K, V> {
    type V = Map<K, V>;

    closed spec fn view(&self) -> Map<K, V> {
        chain_map(self.head)
    }
}

impl<K: MapKey, V: Clone> OrderedMap<K, V> {
    /// The chain ascends strictly by key.
    pub closed spec fn wf(&self) -> bool {
        chain_sorted(self.head)
    }

    /// The keys in the order a walk from the head meets them.
    pub closed spec fn keys(&self) -> Seq<K> {
        chain_keys(self.head)
    }

    /// An empty map.
    pub fn new() -> (r: Self)
        ensures
            r.wf(),
            r@ == Map::<K, V>::empty(),
    {
        OrderedMap { head: None }
    }

    /// Maps `key` to a clone of `value`; returns a clone of the value `key`
    /// had before, or `None` where it had none.
    pub fn add(&mut self, key: &K, value: &V) -> (r: Option<V>)
        requires
            old(self).wf(),
        ensures
            final(self).wf(),
            final(self)@ == old(self)@.insert(*key, final(self)@[*key]),
            cloned(*value, final(self)@[*key]),
            clone_of(r, lookup(old(self)@, *key)),
    {
        let (head, r) = add_chain(&self.head, key, value);
        self.head = head;
        proof {
            let stored = chain_map(head)[*key];
            assert forall|k: K| k != *key && #[trigger] chain_map(head).dom().contains(k) implies
                chain_map(head)[k] == chain_map(old(self).head)[k] by {
                assert(chain_map(head).remove(*key)[k] == chain_map(old(self).head).remove(*key)[k]);
            }
            assert(chain_map(head) =~= chain_map(old(self).head).insert(*key, stored));
        }
        r
    }

    /// The entry for `key`, cloned, or `None` where the map has none. The walk
    /// stops at the first key above `key`.
    pub fn get(&self, key: &K) -> (r: Option<(K, V)>)
        requires
            self.wf(),
        ensures
            r matches Some(p) ==> p.0 == *key,
            clone_of(
                match r {
                    Some(p) => Some(p.1),
                    None => None,
                },
                lookup(self@, *key),
            ),
    {
        get_chain(&self.head, key)
    }

    /// Takes `key` out; returns a clone of its value, or `None` where it was
    /// absent, in which case the map is left exactly as it was.
    pub fn remove(&mut self, key: &K) -> (r: Option<V>)
        requires
            old(self).wf(),
        ensures
            final(self).wf(),
            final(self)@ == old(self)@.remove(*key),
            clone_of(r, lookup(old(self)@, *key)),
            r is None ==> *final(self) == *old(self),
    {
        let (head, r) = remove_chain(&self.head, key);
        self.head = head;
        r
    }

    /// Whether the map is empty.
    pub fn is_null(&self) -> (r: bool)
        requires
            self.wf(),
        ensures
            r == (self@ == Map::<K, V>::empty()),
    {
        match &self.head {
            None => {
                proof {
                    assert(self@ =~= Map::<K, V>::empty());
                }
                true
            },
            Some(n) => {
                proof {
                    assert(self@.dom().contains(n.key));
                }
                false
            },
        }
    }

    /// A second header on the same chain: no node is copied.
    pub fn copy(&self) -> (r: Self)
        ensures
            r == *self,
    {
        OrderedMap { head: share(&self.head) }
    }
}

/// A walk meets as many keys as there are nodes, and each of them is in the map.
proof fn lemma_keys_in_map<K, V>(c: Link<K, V>)
    ensures
        chain_keys(c).len() == chain_len(c),
        forall|i: int|
            0 <= i < chain_keys(c).len() ==> chain_map(c).dom().contains(#[trigger] chain_keys(c)[i]),
    decreases c,
{
    if let Some(n) = c {
        lemma_keys_in_map(n.spec_next());
        let rest = chain_keys(n.spec_next());
        assert forall|i: int| 0 <= i < chain_keys(c).len() implies chain_map(c).dom().contains(
            #[trigger] chain_keys(c)[i],
        ) by {
            if i > 0 {
                assert(chain_keys(c)[i] == rest[i - 1]);
            }
        }
    }
}

/// In a sorted chain a walk meets keys of strictly rising rank.
proof fn lemma_chain_ascending<K: MapKey, V>(c: Link<K, V>)
    requires
        chain_sorted(c),
    ensures
        forall|i: int, j: int|
            0 <= i < j < chain_keys(c).len() ==> (#[trigger] chain_keys(c)[i]).rank() < (
            #[trigger] chain_keys(c)[j]).rank(),
    decreases c,
{
    if let Some(n) = c {
        lemma_chain_ascending(n.spec_next());
        lemma_keys_in_map(n.spec_next());
        let rest = chain_keys(n.spec_next());
        assert forall|i: int, j: int| 0 <= i < j < chain_keys(c).len() implies (
        #[trigger] chain_keys(c)[i]).rank() < (#[trigger] chain_keys(c)[j]).rank() by {
            assert(chain_keys(c)[j] == rest[j - 1]);
            if i > 0 {
                assert(chain_keys(c)[i] == rest[i - 1]);
            } else {
                assert(chain_map(n.spec_next()).dom().contains(rest[j - 1]));
            }
        }
    }
}

/// Sortedness: between operations, a full walk of a well-formed map meets
/// its keys in strictly ascending order, and each of them is in the map.
pub proof fn lemma_traversal_ascending<K: MapKey, V: Clone>(m: &OrderedMap<K, V>)
    requires
        m.wf(),
    ensures
        forall|i: int, j: int|
            0 <= i < j < m.keys().len() ==> (#[trigger] m.keys()[i]).rank() < (
            #[trigger] m.keys()[j]).rank(),
        forall|i: int| 0 <= i < m.keys().len() ==> m@.dom().contains(#[trigger] m.keys()[i]),
{
    lemma_chain_ascending(m.head);
    lemma_keys_in_map(m.head);
}

/// Uniqueness: no key is reachable twice from the head of a well-formed map.
pub proof fn lemma_keys_unique<K: MapKey, V: Clone>(m: &OrderedMap<K, V>)
    requires
        m.wf(),
    ensures
        forall|i: int, j: int|
            0 <= i < m.keys().len() && 0 <= j < m.keys().len() && i != j ==> #[trigger] m.keys()[i]
                != #[trigger] m.keys()[j],
{
    lemma_traversal_ascending(m);
    assert forall|i: int, j: int|
        0 <= i < m.keys().len() && 0 <= j < m.keys().len() && i != j implies #[trigger] m.keys()[i]
        != #[trigger] m.keys()[j] by {
        if i < j {
            assert(m.keys()[i].rank() < m.keys()[j].rank());
        } else {
            assert(m.keys()[j].rank() < m.keys()[i].rank());
        }
    }
}

/// Round trip: after `add(k, v)` a lookup of `k` finds `v`; after `add(k, v)`
/// and `remove(k)` it finds nothing.
pub proof fn lemma_round_trip<K, V>(m: Map<K, V>, k: K, v: V)
    ensures
        lookup(m.insert(k, v), k) == Some(v),
        lookup(m.insert(k, v).remove(k), k) == None::<V>,
{
}

/// Update: after `add(k, v1)` the next `add(k, v2)` finds `v1` as the value
/// it replaces, and a lookup of `k` then finds `v2`.
pub proof fn lemma_update<K, V>(m: Map<K, V>, k: K, v1: V, v2: V)
    ensures
        lookup(m.insert(k, v1), k) == Some(v1),
        lookup(m.insert(k, v1).insert(k, v2), k) == Some(v2),
{
}

/// Idempotent remove: removing a key that is absent changes nothing.
pub proof fn lemma_remove_absent<K, V>(m: Map<K, V>, k: K)
    requires
        lookup(m, k) is None,
    ensures
        m.remove(k) == m,
{
    assert(m.remove(k) =~= m);
}

} // verus!
