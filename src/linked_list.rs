//! A set kept as a chain strictly ascending by hash: the hash alone decides
//! whether an element is present.
use crate::key::MapKey;
use crate::list::{hash_of, insert_by_hash, lemma_insert_contains};
use std::sync::Arc;
use vstd::prelude::*;

verus! {

/// Some element of `s` has hash `h`.
pub open spec fn holds_hash_of<T: MapKey>(s: Seq<T>, h: u64) -> bool {
    exists|x: T| #[trigger] s.contains(x) && hash_of(x) == h
}

/// `s` without its first element of hash `h`.
pub open spec fn remove_hash<T: MapKey>(s: Seq<T>, h: u64) -> Seq<T>
    decreases s.len(),
{
    if s.len() == 0 {
        s
    } else if hash_of(s[0]) == h {
        s.drop_first()
    } else {
        seq![s[0]].add(remove_hash(s.drop_first(), h))
    }
}

/// What `remove_hash` leaves holds nothing that `s` did not.
proof fn lemma_remove_hash_within<T: MapKey>(s: Seq<T>, h: u64)
    ensures
        forall|x: T| #[trigger] remove_hash(s, h).contains(x) ==> s.contains(x),
    decreases s.len(),
{
    if s.len() > 0 {
        let t = s.drop_first();
        lemma_remove_hash_within(t, h);
        let r = remove_hash(s, h);
        assert forall|x: T| #[trigger] r.contains(x) implies s.contains(x) by {
            let i = choose|i: int| 0 <= i < r.len() && r[i] == x;
            if hash_of(s[0]) == h {
                assert(s[i + 1] == x);
            } else if i > 0 {
                assert(remove_hash(t, h)[i - 1] == x);
                assert(remove_hash(t, h).contains(x));
                let j = choose|j: int| 0 <= j < t.len() && t[j] == x;
                assert(s[j + 1] == x);
            } else {
                assert(s[0] == x);
            }
        }
    }
}

/// A link of a linked list: absent at the end.
pub type NodeLink<T> = Option<Arc<Node<T>>>;

/// One element of a linked list, with its hash.
pub struct Node<T> {
    data: T,
    hash: u64,
    next: NodeLink<T>,
}

impl<T> Node<T> {
    pub closed spec fn spec_data(&self) -> T {
        self.data
    }

    pub closed spec fn spec_hash(&self) -> u64 {
        self.hash
    }

    pub closed spec fn spec_next(&self) -> NodeLink<T> {
        self.next
    }

    /// The hash this node files its element under.
    pub fn hash(&self) -> (r: u64)
        ensures
            r == self.spec_hash(),
    {
        self.hash
    }
}

/// The elements a walk from the link meets, in order.
pub open spec fn node_data<T>(c: NodeLink<T>) -> Seq<T>
    decreases c,
{
    match c {
        None => Seq::empty(),
        Some(n) => seq![n.spec_data()].add(node_data(n.spec_next())),
    }
}

/// Each node holds its element's hash, and every hash after a node is higher.
pub open spec fn nodes_ok<T: MapKey>(c: NodeLink<T>) -> bool
    decreases c,
{
    match c {
        None => true,
        Some(n) => {
            &&& n.spec_hash() == hash_of(n.spec_data())
            &&& nodes_ok(n.spec_next())
            &&& forall|x: T| #[trigger]
                node_data(n.spec_next()).contains(x) ==> n.spec_hash() < hash_of(x)
        },
    }
}

/// Hashes an element with std's `DefaultHasher`.
fn get_hash<T: MapKey>(t: &T) -> (r: u64)
    ensures
        r == hash_of(*t),
{
    t.default_hash()
}

fn share<T>(c: &NodeLink<T>) -> (r: NodeLink<T>)
    ensures
        r == *c,
{
    match c {
        None => None,
        Some(n) => Some(n.clone()),
    }
}

impl<T: MapKey> Node<T> {
    /// A node holding `data`, at the end of a list.
    pub fn new(data: &T) -> (r: Arc<Node<T>>)
        ensures
            r.spec_data() == *data,
            r.spec_hash() == hash_of(*data),
            r.spec_next() is None,
    {
        Node::new_with_next(data, None)
    }

    /// A node holding `data`, in front of `next`.
    pub fn new_with_next(data: &T, next: NodeLink<T>) -> (r: Arc<Node<T>>)
        ensures
            r.spec_data() == *data,
            r.spec_hash() == hash_of(*data),
            r.spec_next() == next,
    {
        Arc::new(Node { data: data.duplicate(), hash: get_hash(data), next })
    }

    /// A copy of `old`, followed by a node holding `data`, followed by `next`.
    pub fn new_with_old(old: &Node<T>, data: &T, next: NodeLink<T>) -> (r: Arc<Node<T>>)
        ensures
            r.spec_data() == old.spec_data(),
            r.spec_hash() == old.spec_hash(),
            r.spec_next() is Some,
            r.spec_next().unwrap().spec_data() == *data,
            r.spec_next().unwrap().spec_hash() == hash_of(*data),
            r.spec_next().unwrap().spec_next() == next,
    {
        let inserted = Node::new_with_next(data, next);
        Arc::new(Node { data: old.data.duplicate(), hash: old.hash, next: Some(inserted) })
    }

    /// A copy of `old` with another successor.
    fn with_next(old: &Node<T>, next: NodeLink<T>) -> (r: Arc<Node<T>>)
        ensures
            r.spec_data() == old.spec_data(),
            r.spec_hash() == old.spec_hash(),
            r.spec_next() == next,
    {
        Arc::new(Node { data: old.data.duplicate(), hash: old.hash, next })
    }
}

/// A walk of a linked list: its first element, then the rest.
proof fn lemma_unfold<T>(c: NodeLink<T>)
    requires
        c is Some,
    ensures
        node_data(c).len() > 0,
        node_data(c)[0] == c.unwrap().spec_data(),
        node_data(c).drop_first() == node_data(c.unwrap().spec_next()),
        forall|x: T| #[trigger] node_data(c).contains(x) <==> x == c.unwrap().spec_data()
            || node_data(c.unwrap().spec_next()).contains(x),
{
    let n = c.unwrap();
    let s = node_data(c);
    let t = node_data(n.spec_next());
    assert(s.drop_first() =~= t);
    assert forall|x: T| #[trigger] s.contains(x) <==> x == n.spec_data() || t.contains(x) by {
        if s.contains(x) {
            let i = choose|i: int| 0 <= i < s.len() && s[i] == x;
            if i > 0 {
                assert(t[i - 1] == x);
            }
        }
        if x == n.spec_data() {
            assert(s[0] == x);
        } else if t.contains(x) {
            let j = choose|j: int| 0 <= j < t.len() && t[j] == x;
            assert(s[j + 1] == x);
        }
    }
}

/// A hash below the first node's is held by no element of a well-formed list.
proof fn lemma_below_first<T: MapKey>(c: NodeLink<T>, h: u64)
    requires
        nodes_ok(c),
        c is Some,
        h < c.unwrap().spec_hash(),
    ensures
        !holds_hash_of(node_data(c), h),
        forall|x: T| #[trigger] node_data(c).contains(x) ==> h < hash_of(x),
{
    lemma_unfold(c);
}

/// An element of the rest of a list is an element of the list.
proof fn lemma_rest_holds<T: MapKey>(c: NodeLink<T>, h: u64)
    requires
        c is Some,
        c.unwrap().spec_hash() != h,
        nodes_ok(c),
    ensures
        holds_hash_of(node_data(c), h) == holds_hash_of(node_data(c.unwrap().spec_next()), h),
{
    lemma_unfold(c);
    let t = node_data(c.unwrap().spec_next());
    if holds_hash_of(t, h) {
        let x = choose|x: T| #[trigger] t.contains(x) && hash_of(x) == h;
        assert(node_data(c).contains(x));
    }
}

/// Adds `data`, of hash `h`, in hash order, unless an element of that hash
/// is there already.
fn add_nodes<T: MapKey>(c: &NodeLink<T>, data: &T, h: u64) -> (res: (NodeLink<T>, Option<T>))
    requires
        nodes_ok(*c),
        h == hash_of(*data),
    ensures
        nodes_ok(res.0),
        holds_hash_of(node_data(*c), h) ==> res.1 is None && res.0 == *c,
        !holds_hash_of(node_data(*c), h) ==> res.1 == Some(*data) && node_data(res.0)
            == insert_by_hash(node_data(*c), *data),
    decreases node_data(*c).len(),
{
    match c {
        None => {
            let node = Node::new(data);
            let res = Some(node);
            proof {
                assert(node_data(*c).len() == 0);
                assert(node_data(res) =~= seq![*data]);
            }
            (res, Some(data.duplicate()))
        },
        Some(n) => {
            proof {
                lemma_unfold(*c);
            }
            if n.hash == h {
                proof {
                    assert(node_data(*c).contains(n.data));
                }
                (share(c), None)
            } else if n.hash > h {
                proof {
                    lemma_below_first(*c, h);
                }
                let node = Node::new_with_next(data, share(c));
                let res = Some(node);
                proof {
                    assert(node_data(res) =~= seq![*data].add(node_data(*c)));
                }
                (res, Some(data.duplicate()))
            } else {
                proof {
                    lemma_rest_holds(*c, h);
                }
                let (rest, r) = add_nodes(&n.next, data, h);
                match r {
                    None => (share(c), None),
                    Some(d) => {
                        let node = Node::with_next(n, rest);
                        let res = Some(node);
                        proof {
                            lemma_insert_contains(node_data(n.spec_next()), *data);
                            assert(node_data(res) =~= seq![n.data].add(node_data(rest)));
                            assert(node_data(res) =~= insert_by_hash(node_data(*c), *data));
                        }
                        (res, Some(d))
                    },
                }
            }
        },
    }
}

/// Takes the element of hash `h` out of the list, where there is one.
fn remove_nodes<T: MapKey>(c: &NodeLink<T>, h: u64) -> (res: (NodeLink<T>, bool))
    requires
        nodes_ok(*c),
    ensures
        nodes_ok(res.0),
        res.1 == holds_hash_of(node_data(*c), h),
        res.1 ==> node_data(res.0) == remove_hash(node_data(*c), h),
        !res.1 ==> res.0 == *c,
    decreases node_data(*c).len(),
{
    match c {
        None => {
            proof {
                assert(node_data(*c).len() == 0);
            }
            (None, false)
        },
        Some(n) => {
            proof {
                lemma_unfold(*c);
            }
            if n.hash == h {
                proof {
                    assert(node_data(*c).contains(n.data));
                }
                (share(&n.next), true)
            } else if n.hash > h {
                proof {
                    lemma_below_first(*c, h);
                }
                (share(c), false)
            } else {
                proof {
                    lemma_rest_holds(*c, h);
                }
                let (rest, found) = remove_nodes(&n.next, h);
                if found {
                    let node = Node::with_next(n, rest);
                    let res = Some(node);
                    proof {
                        lemma_remove_hash_within(node_data(n.spec_next()), h);
                        assert(node_data(res) =~= seq![n.data].add(node_data(rest)));
                        assert(node_data(res) =~= remove_hash(node_data(*c), h));
                    }
                    (res, true)
                } else {
                    (share(c), false)
                }
            }
        },
    }
}

/// The position of the element of hash `h` in the list.
fn find_nodes<T: MapKey>(c: &NodeLink<T>, h: u64) -> (r: Option<u32>)
    requires
        nodes_ok(*c),
        node_data(*c).len() <= u32::MAX,
    ensures
        r matches Some(i) ==> i < node_data(*c).len() && hash_of(node_data(*c)[i as int]) == h,
        r is None <==> !holds_hash_of(node_data(*c), h),
    decreases node_data(*c).len(),
{
    match c {
        None => {
            proof {
                assert(node_data(*c).len() == 0);
            }
            None
        },
        Some(n) => {
            proof {
                lemma_unfold(*c);
            }
            if n.hash == h {
                proof {
                    assert(node_data(*c).contains(n.data));
                }
                Some(0)
            } else if n.hash > h {
                proof {
                    lemma_below_first(*c, h);
                }
                None
            } else {
                proof {
                    lemma_rest_holds(*c, h);
                }
                match find_nodes(&n.next, h) {
                    None => None,
                    Some(i) => {
                        proof {
                            assert(node_data(*c)[i + 1] == node_data(n.next)[i as int]);
                        }
                        Some(i + 1)
                    },
                }
            }
        },
    }
}

/// A set of elements told apart by hash, kept in a chain strictly ascending
/// by hash. Changes build new nodes up to the change point and share the rest.
pub struct LinkedList<T> {
    head: NodeLink<T>,
}

impl<T> View for LinkedList<T> {
    type V = Seq<T>;

    closed spec fn view(&self) -> Seq<T> {
        node_data(self.head)
    }
}

impl<T: MapKey> LinkedList<T> {
    /// Hashes are stored and rise strictly along the chain.
    pub closed spec fn wf(&self) -> bool {
        nodes_ok(self.head)
    }

    /// An empty list.
    pub fn new() -> (r: Self)
        ensures
            r.wf(),
            r@ == Seq::<T>::empty(),
    {
        LinkedList { head: None }
    }

    /// Adds `data` in hash order and returns it; returns `None`, changing
    /// nothing, where an element of the same hash is there already.
    pub fn add(&mut self, data: &T) -> (r: Option<T>)
        requires
            old(self).wf(),
        ensures
            final(self).wf(),
            holds_hash_of(old(self)@, hash_of(*data)) ==> r is None && *final(self) == *old(self),
            !holds_hash_of(old(self)@, hash_of(*data)) ==> r == Some(*data) && final(self)@
                == insert_by_hash(old(self)@, *data),
    {
        let hash = get_hash(data);
        let (head, r) = add_nodes(&self.head, data, hash);
        self.head = head;
        r
    }

    /// Takes out the element of `data`'s hash and returns `data`; returns
    /// `None`, changing nothing, where no element has that hash.
    pub fn remove(&mut self, data: &T) -> (r: Option<T>)
        requires
            old(self).wf(),
        ensures
            final(self).wf(),
            holds_hash_of(old(self)@, hash_of(*data)) ==> r == Some(*data) && final(self)@
                == remove_hash(old(self)@, hash_of(*data)),
            !holds_hash_of(old(self)@, hash_of(*data)) ==> r is None && *final(self) == *old(self),
    {
        let hash = get_hash(data);
        let (head, found) = remove_nodes(&self.head, hash);
        self.head = head;
        if found {
            Some(data.duplicate())
        } else {
            None
        }
    }

    /// The position, counted from 0, of the element of `data`'s hash, or
    /// `None` where there is none.
    pub fn find(&self, data: &T) -> (r: Option<u32>)
        requires
            self.wf(),
            self@.len() <= u32::MAX,
        ensures
            r matches Some(i) ==> i < self@.len() && hash_of(self@[i as int]) == hash_of(*data),
            r is None <==> !holds_hash_of(self@, hash_of(*data)),
    {
        let hash = get_hash(data);
        find_nodes(&self.head, hash)
    }
}

} // verus!
