//! A set kept as a chain ordered by hash: equal hashes sit side by side, and
//! an element is present at most once.
use crate::key::MapKey;
use std::cmp::Ordering;
use std::sync::Arc;
use vstd::prelude::*;

verus! {

/// The hash a chain files an element under.
pub open spec fn hash_of<T: MapKey>(x: T) -> u64 {
    x.spec_default_hash()
}

/// `s` with `d` placed before the first element of a higher hash.
pub open spec fn insert_by_hash<T: MapKey>(s: Seq<T>, d: T) -> Seq<T>
    decreases s.len(),
{
    if s.len() == 0 {
        seq![d]
    } else if hash_of(d) < hash_of(s[0]) {
        seq![d].add(s)
    } else {
        seq![s[0]].add(insert_by_hash(s.drop_first(), d))
    }
}

/// `s` without its first occurrence of `d`.
pub open spec fn remove_first<T>(s: Seq<T>, d: T) -> Seq<T>
    decreases s.len(),
{
    if s.len() == 0 {
        s
    } else if s[0] == d {
        s.drop_first()
    } else {
        seq![s[0]].add(remove_first(s.drop_first(), d))
    }
}

/// What `insert_by_hash` holds: `d` and what `s` held.
pub(crate) proof fn lemma_insert_contains<T: MapKey>(s: Seq<T>, d: T)
    ensures
        forall|x: T| #[trigger] insert_by_hash(s, d).contains(x) <==> x == d || s.contains(x),
        insert_by_hash(s, d).len() == s.len() + 1,
    decreases s.len(),
{
    let r = insert_by_hash(s, d);
    if s.len() > 0 && hash_of(d) >= hash_of(s[0]) {
        let t = s.drop_first();
        lemma_insert_contains(t, d);
        let rt = insert_by_hash(t, d);
        assert(r == seq![s[0]].add(rt));
        assert forall|x: T| #[trigger] r.contains(x) <==> x == d || s.contains(x) by {
            if r.contains(x) {
                let i = choose|i: int| 0 <= i < r.len() && r[i] == x;
                if i > 0 {
                    assert(rt[i - 1] == x);
                    assert(rt.contains(x));
                    if x != d {
                        let j = choose|j: int| 0 <= j < t.len() && t[j] == x;
                        assert(s[j + 1] == x);
                    }
                } else {
                    assert(s[0] == x);
                }
            }
            if x == d {
                assert(rt.contains(x));
                let j = choose|j: int| 0 <= j < rt.len() && rt[j] == x;
                assert(r[j + 1] == x);
            } else if s.contains(x) {
                let j = choose|j: int| 0 <= j < s.len() && s[j] == x;
                if j == 0 {
                    assert(r[0] == x);
                } else {
                    assert(t[j - 1] == x);
                    assert(t.contains(x));
                    assert(rt.contains(x));
                    let k = choose|k: int| 0 <= k < rt.len() && rt[k] == x;
                    assert(r[k + 1] == x);
                }
            }
        }
    } else if s.len() > 0 {
        assert(r == seq![d].add(s));
        assert forall|x: T| #[trigger] r.contains(x) <==> x == d || s.contains(x) by {
            if r.contains(x) {
                let i = choose|i: int| 0 <= i < r.len() && r[i] == x;
                if i > 0 {
                    assert(s[i - 1] == x);
                }
            }
            if x == d {
                assert(r[0] == x);
            } else if s.contains(x) {
                let j = choose|j: int| 0 <= j < s.len() && s[j] == x;
                assert(r[j + 1] == x);
            }
        }
    } else {
        assert(r == seq![d]);
        assert forall|x: T| #[trigger] r.contains(x) <==> x == d || s.contains(x) by {
            if x == d {
                assert(r[0] == x);
            }
        }
    }
}

/// What `remove_first` leaves holds nothing that `s` did not.
proof fn lemma_remove_first_within<T>(s: Seq<T>, d: T)
    ensures
        forall|x: T| #[trigger] remove_first(s, d).contains(x) ==> s.contains(x),
    decreases s.len(),
{
    if s.len() > 0 {
        let t = s.drop_first();
        lemma_remove_first_within(t, d);
        let r = remove_first(s, d);
        assert forall|x: T| #[trigger] r.contains(x) implies s.contains(x) by {
            let i = choose|i: int| 0 <= i < r.len() && r[i] == x;
            if s[0] == d {
                assert(s[i + 1] == x);
            } else if i > 0 {
                assert(remove_first(t, d)[i - 1] == x);
                assert(remove_first(t, d).contains(x));
                let j = choose|j: int| 0 <= j < t.len() && t[j] == x;
                assert(s[j + 1] == x);
            } else {
                assert(s[0] == x);
            }
        }
    }
}

/// A link of a list: absent at the end.
pub type ListLink<T> = Option<Arc<Node<T>>>;

/// One element of a list, with its hash.
pub struct Node<T> {
    data: T,
    hash: u64,
    next: ListLink<T>,
}

impl<T> Node<T> {
    pub closed spec fn spec_data(&self) -> T {
        self.data
    }

    pub closed spec fn spec_hash(&self) -> u64 {
        self.hash
    }

    pub closed spec fn spec_next(&self) -> ListLink<T> {
        self.next
    }
}

/// The elements a walk from the link meets, in order.
pub open spec fn list_data<T>(c: ListLink<T>) -> Seq<T>
    decreases c,
{
    match c {
        None => Seq::empty(),
        Some(n) => seq![n.spec_data()].add(list_data(n.spec_next())),
    }
}

/// Each node holds its element's hash, no hash is below the one before it,
/// and no element comes twice.
pub open spec fn list_ok<T: MapKey>(c: ListLink<T>) -> bool
    decreases c,
{
    match c {
        None => true,
        Some(n) => {
            &&& n.spec_hash() == hash_of(n.spec_data())
            &&& list_ok(n.spec_next())
            &&& !list_data(n.spec_next()).contains(n.spec_data())
            &&& forall|x: T| #[trigger]
                list_data(n.spec_next()).contains(x) ==> n.spec_hash() <= hash_of(x)
        },
    }
}

/// Hashes an element with std's `DefaultHasher`.
fn get_hash<T: MapKey>(t: &T) -> (r: u64)
    ensures
        r == hash_of(*t),
{
    t.default_hash()
}

fn share<T>(c: &ListLink<T>) -> (r: ListLink<T>)
    ensures
        r == *c,
{
    match c {
        None => None,
        Some(n) => Some(n.clone()),
    }
}

impl<T: MapKey> Node<T> {
    /// A node holding `data`, at the end of a list.
    pub fn new(data: &T) -> (r: Arc<Node<T>>)
        ensures
            r.spec_data() == *data,
            r.spec_hash() == hash_of(*data),
            r.spec_next() is None,
    {
        Arc::new(Node { data: data.duplicate(), hash: get_hash(data), next: None })
    }

    /// A copy of `old`, followed by a node holding `data`, followed by `next`.
    pub fn new_with_old(old: &Node<T>, data: &T, next: ListLink<T>) -> (r: Arc<Node<T>>)
        ensures
            r.spec_data() == old.spec_data(),
            r.spec_hash() == old.spec_hash(),
            r.spec_next() is Some,
            r.spec_next().unwrap().spec_data() == *data,
            r.spec_next().unwrap().spec_hash() == hash_of(*data),
            r.spec_next().unwrap().spec_next() == next,
    {
        let inserted = Node::in_front(data, next);
        Arc::new(Node { data: old.data.duplicate(), hash: old.hash, next: Some(inserted) })
    }

    /// A node holding `data`, in front of `next`.
    fn in_front(data: &T, next: ListLink<T>) -> (r: Arc<Node<T>>)
        ensures
            r.spec_data() == *data,
            r.spec_hash() == hash_of(*data),
            r.spec_next() == next,
    {
        Arc::new(Node { data: data.duplicate(), hash: get_hash(data), next })
    }

    /// A copy of `old` with another successor.
    fn with_next(old: &Node<T>, next: ListLink<T>) -> (r: Arc<Node<T>>)
        ensures
            r.spec_data() == old.spec_data(),
            r.spec_hash() == old.spec_hash(),
            r.spec_next() == next,
    {
        Arc::new(Node { data: old.data.duplicate(), hash: old.hash, next })
    }
}

/// No element of a well-formed list hashes below its first node.
proof fn lemma_first_least<T: MapKey>(c: ListLink<T>, x: T)
    requires
        list_ok(c),
        c is Some,
        list_data(c).contains(x),
    ensures
        c.unwrap().spec_hash() <= hash_of(x),
{
    let n = c.unwrap();
    let i = choose|i: int| 0 <= i < list_data(c).len() && list_data(c)[i] == x;
    if i > 0 {
        assert(list_data(n.spec_next())[i - 1] == x);
        assert(list_data(n.spec_next()).contains(x));
    }
}

/// A walk of a list: its first element, then the rest.
proof fn lemma_unfold<T>(c: ListLink<T>)
    requires
        c is Some,
    ensures
        list_data(c).len() > 0,
        list_data(c)[0] == c.unwrap().spec_data(),
        list_data(c).drop_first() == list_data(c.unwrap().spec_next()),
        forall|x: T| #[trigger] list_data(c).contains(x) <==> x == c.unwrap().spec_data()
            || list_data(c.unwrap().spec_next()).contains(x),
{
    let n = c.unwrap();
    let s = list_data(c);
    let t = list_data(n.spec_next());
    assert(s.drop_first() =~= t);
    assert forall|x: T| #[trigger] s.contains(x) <==> x == n.spec_data() || t.contains(x) by {
        if s.contains(x) {
            let i = choose|i: int| 0 <= i < s.len() && s[i] == x;
            if i > 0 {
                assert(t[i - 1] == x);
            }
        }
        if x == n.spec_data() {
            assert(s[0] == x);
        } else if t.contains(x) {
            let j = choose|j: int| 0 <= j < t.len() && t[j] == x;
            assert(s[j + 1] == x);
        }
    }
}

/// Adds `data`, of hash `h`, before the first element of a higher hash,
/// unless the list holds it already.
fn add_list<T: MapKey>(c: &ListLink<T>, data: &T, h: u64) -> (res: (ListLink<T>, Option<T>))
    requires
        list_ok(*c),
        h == hash_of(*data),
    ensures
        list_ok(res.0),
        list_data(*c).contains(*data) ==> res.1 is None && res.0 == *c,
        !list_data(*c).contains(*data) ==> res.1 == Some(*data) && list_data(res.0)
            == insert_by_hash(list_data(*c), *data),
    decreases list_data(*c).len(),
{
    match c {
        None => {
            let node = Node::new(data);
            let res = Some(node);
            proof {
                assert(list_data(res) =~= seq![*data]);
            }
            (res, Some(data.duplicate()))
        },
        Some(n) => {
            proof {
                lemma_unfold(*c);
            }
            let same = n.hash == h && matches!(n.data.compare(data), Ordering::Equal);
            if same {
                proof {
                    T::lemma_rank_injective(&n.data, data);
                }
                (share(c), None)
            } else if n.hash > h {
                proof {
                    if list_data(*c).contains(*data) {
                        lemma_first_least(*c, *data);
                    }
                }
                let node = Node::in_front(data, share(c));
                let res = Some(node);
                proof {
                    assert forall|x: T| #[trigger] list_data(*c).contains(x) implies h <= hash_of(
                        x,
                    ) by {
                        lemma_first_least(*c, x);
                    }
                    assert(list_data(res) =~= seq![*data].add(list_data(*c)));
                }
                (res, Some(data.duplicate()))
            } else {
                proof {
                    assert(n.data != *data);
                }
                let (rest, r) = add_list(&n.next, data, h);
                match r {
                    None => (share(c), None),
                    Some(d) => {
                        let node = Node::with_next(n, rest);
                        let res = Some(node);
                        proof {
                            lemma_insert_contains(list_data(n.spec_next()), *data);
                            assert(list_data(rest) == insert_by_hash(list_data(n.next), *data));
                            assert(list_data(res) =~= seq![n.data].add(list_data(rest)));
                            assert(list_data(res) =~= insert_by_hash(list_data(*c), *data));
                        }
                        (res, Some(d))
                    },
                }
            }
        },
    }
}

/// Takes `data`, of hash `h`, out of the list, where it is there.
fn remove_list<T: MapKey>(c: &ListLink<T>, data: &T, h: u64) -> (res: (ListLink<T>, Option<T>))
    requires
        list_ok(*c),
        h == hash_of(*data),
    ensures
        list_ok(res.0),
        list_data(*c).contains(*data) ==> res.1 == Some(*data) && list_data(res.0) == remove_first(
            list_data(*c),
            *data,
        ),
        !list_data(*c).contains(*data) ==> res.1 is None && res.0 == *c,
    decreases list_data(*c).len(),
{
    match c {
        None => (None, None),
        Some(n) => {
            proof {
                lemma_unfold(*c);
            }
            let same = n.hash == h && matches!(n.data.compare(data), Ordering::Equal);
            if same {
                proof {
                    T::lemma_rank_injective(&n.data, data);
                }
                (share(&n.next), Some(data.duplicate()))
            } else if n.hash > h {
                proof {
                    if list_data(*c).contains(*data) {
                        lemma_first_least(*c, *data);
                    }
                }
                (share(c), None)
            } else {
                proof {
                    assert(n.data != *data);
                }
                let (rest, r) = remove_list(&n.next, data, h);
                match r {
                    None => (share(c), None),
                    Some(d) => {
                        let node = Node::with_next(n, rest);
                        let res = Some(node);
                        proof {
                            lemma_remove_first_within(list_data(n.spec_next()), *data);
                            assert forall|x: T| #[trigger] list_data(rest).contains(x) implies list_data(
                                n.next,
                            ).contains(x) by {}
                            assert(list_data(res) =~= seq![n.data].add(list_data(rest)));
                            assert(list_data(res) =~= remove_first(list_data(*c), *data));
                        }
                        (res, Some(d))
                    },
                }
            }
        },
    }
}

/// The position of `data`, of hash `h`, in the list.
fn find_list<T: MapKey>(c: &ListLink<T>, data: &T, h: u64) -> (r: Option<u32>)
    requires
        list_ok(*c),
        h == hash_of(*data),
        list_data(*c).len() <= u32::MAX,
    ensures
        r matches Some(i) ==> i < list_data(*c).len() && list_data(*c)[i as int] == *data,
        r is None <==> !list_data(*c).contains(*data),
    decreases list_data(*c).len(),
{
    match c {
        None => None,
        Some(n) => {
            proof {
                lemma_unfold(*c);
            }
            let same = n.hash == h && matches!(n.data.compare(data), Ordering::Equal);
            if same {
                proof {
                    T::lemma_rank_injective(&n.data, data);
                }
                Some(0)
            } else if n.hash > h {
                proof {
                    if list_data(*c).contains(*data) {
                        lemma_first_least(*c, *data);
                    }
                }
                None
            } else {
                proof {
                    assert(n.data != *data);
                }
                match find_list(&n.next, data, h) {
                    None => None,
                    Some(i) => {
                        proof {
                            assert(list_data(*c)[i + 1] == list_data(n.next)[i as int]);
                        }
                        Some(i + 1)
                    },
                }
            }
        },
    }
}

/// A set of elements, kept in a chain ordered by hash. Changes build new
/// nodes up to the change point and share the rest.
pub struct List<T> {
    head: ListLink<T>,
}

impl<T> View for List<T> {
    type V = Seq<T>;

    closed spec fn view(&self) -> Seq<T> {
        list_data(self.head)
    }
}

impl<T: MapKey> List<T> {
    /// Hashes are stored and ordered, and no element comes twice.
    pub closed spec fn wf(&self) -> bool {
        list_ok(self.head)
    }

    /// An empty list.
    pub fn new() -> (r: Self)
        ensures
            r.wf(),
            r@ == Seq::<T>::empty(),
    {
        List { head: None }
    }

    /// Adds `data` before the first element of a higher hash and returns it;
    /// returns `None`, changing nothing, where `data` is there already.
    pub fn add(&mut self, data: &T) -> (r: Option<T>)
        requires
            old(self).wf(),
        ensures
            final(self).wf(),
            old(self)@.contains(*data) ==> r is None && *final(self) == *old(self),
            !old(self)@.contains(*data) ==> r == Some(*data) && final(self)@ == insert_by_hash(
                old(self)@,
                *data,
            ),
    {
        let hash = get_hash(data);
        let (head, r) = add_list(&self.head, data, hash);
        self.head = head;
        r
    }

    /// Takes `data` out and returns it; returns `None`, changing nothing,
    /// where `data` is absent.
    pub fn remove(&mut self, data: &T) -> (r: Option<T>)
        requires
            old(self).wf(),
        ensures
            final(self).wf(),
            old(self)@.contains(*data) ==> r == Some(*data) && final(self)@ == remove_first(
                old(self)@,
                *data,
            ),
            !old(self)@.contains(*data) ==> r is None && *final(self) == *old(self),
    {
        let hash = get_hash(data);
        let (head, r) = remove_list(&self.head, data, hash);
        self.head = head;
        r
    }

    /// The position of `data` in the list, counted from 0, or `None` where
    /// it is absent.
    pub fn find(&self, data: &T) -> (r: Option<u32>)
        requires
            self.wf(),
            self@.len() <= u32::MAX,
        ensures
            r matches Some(i) ==> i < self@.len() && self@[i as int] == *data,
            r is None <==> !self@.contains(*data),
    {
        let hash = get_hash(data);
        find_list(&self.head, data, hash)
    }
}

} // verus!
