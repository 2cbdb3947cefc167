//! Sorted set of `u64` values kept as a singly linked list.
//!
//! The list holds its elements in strictly increasing order, so every
//! traversal can stop as soon as it sees a value at least as large as the
//! one it looks for. Each operation walks the chain from the head, exactly
//! as a lock-coupling traversal would, one node at a time.

use vstd::prelude::*;

verus! {

struct Node {
    data: u64,
    next: Option<Box<Node>>,
}

/// Sorted singly linked list of unique `u64` values.
pub struct FineGrainedListSet {
    head: Option<Box<Node>>,
}

/// The sequence is strictly increasing: later elements are strictly larger.
pub open spec fn strictly_sorted(s: Seq<u64>) -> bool {
    forall|i: int, j: int| 0 <= i < j < s.len() ==> s[i] < s[j]
}

/// The strictly sorted sequence `s` with `key` placed at its position;
/// `s` itself if `key` already occurs.
pub open spec fn sorted_insert(s: Seq<u64>, key: u64) -> Seq<u64>
    decreases s.len(),
{
    if s.len() == 0 {
        seq![key]
    } else if key == s[0] {
        s
    } else if key < s[0] {
        seq![key] + s
    } else {
        seq![s[0]] + sorted_insert(s.drop_first(), key)
    }
}

/// The strictly sorted sequence `s` without `key`; `s` itself if `key`
/// does not occur.
pub open spec fn sorted_remove(s: Seq<u64>, key: u64) -> Seq<u64>
    decreases s.len(),
{
    if s.len() == 0 {
        s
    } else if key == s[0] {
        s.drop_first()
    } else if key < s[0] {
        s
    } else {
        seq![s[0]] + sorted_remove(s.drop_first(), key)
    }
}

spec fn link_seq(link: Option<Box<Node>>) -> Seq<u64>
    decreases link,
{
    match link {
        None => Seq::empty(),
        Some(node) => seq![node.data] + link_seq(node.next),
    }
}

/// Membership in a non-empty sequence is membership at the head or in the
/// tail.
proof fn lemma_cons_membership(s: Seq<u64>, x: u64)
    requires
        s.len() > 0,
    ensures
        s.contains(x) <==> (s[0] == x || s.drop_first().contains(x)),
{
    let tail = s.drop_first();
    if s.contains(x) {
        let i = choose|i: int| 0 <= i < s.len() && s[i] == x;
        if i > 0 {
            assert(tail[i - 1] == x);
            assert(tail.contains(x));
        }
    }
    if s[0] == x {
        assert(s.contains(x));
    }
    if tail.contains(x) {
        let i = choose|i: int| 0 <= i < tail.len() && tail[i] == x;
        assert(s[i + 1] == x);
        assert(s.contains(x));
    }
}

/// A strictly sorted sequence stays strictly sorted past its first
/// element, which is strictly below everything that follows.
proof fn lemma_sorted_head_tail(s: Seq<u64>)
    requires
        strictly_sorted(s),
        s.len() > 0,
    ensures
        strictly_sorted(s.drop_first()),
        forall|x: u64| s.drop_first().contains(x) ==> s[0] < x,
{
    let tail = s.drop_first();
    assert forall|x: u64| tail.contains(x) implies s[0] < x by {
        let i = choose|i: int| 0 <= i < tail.len() && tail[i] == x;
        assert(s[i + 1] == x);
    }
}

/// Putting an element strictly below a strictly sorted sequence in front
/// of it keeps the whole strictly sorted.
proof fn lemma_sorted_cons(d: u64, t: Seq<u64>)
    requires
        strictly_sorted(t),
        forall|x: u64| t.contains(x) ==> d < x,
    ensures
        strictly_sorted(seq![d] + t),
{
    let s = seq![d] + t;
    assert forall|i: int, j: int| 0 <= i < j < s.len() implies s[i] < s[j] by {
        assert(t.contains(t[j - 1]));
        if i > 0 {
            assert(s[i] == t[i - 1] && s[j] == t[j - 1]);
        }
    }
}

/// What `sorted_insert` yields: the old elements plus `key`, strictly
/// sorted again, and longer by one exactly when `key` was absent.
pub proof fn lemma_sorted_insert_props(s: Seq<u64>, key: u64)
    requires
        strictly_sorted(s),
    ensures
        forall|x: u64| #[trigger] sorted_insert(s, key).contains(x) <==> (s.contains(x) || x
            == key),
        strictly_sorted(sorted_insert(s, key)),
        s.contains(key) ==> sorted_insert(s, key) == s,
        !s.contains(key) ==> sorted_insert(s, key).len() == s.len() + 1,
    decreases s.len(),
{
    let r = sorted_insert(s, key);
    if s.len() == 0 {
        assert forall|x: u64| #[trigger] r.contains(x) <==> (s.contains(x) || x == key) by {
            lemma_cons_membership(r, x);
        }
    } else if key == s[0] {
        assert(s.contains(key));
    } else if key < s[0] {
        lemma_sorted_head_tail(s);
        assert forall|x: u64| s.contains(x) implies key < x by {
            lemma_cons_membership(s, x);
        }
        lemma_sorted_cons(key, s);
        assert forall|x: u64| #[trigger] r.contains(x) <==> (s.contains(x) || x == key) by {
            lemma_cons_membership(r, x);
            assert(r.drop_first() =~= s);
        }
        if s.contains(key) {
            assert(key < key);
        }
    } else {
        let tail = s.drop_first();
        lemma_sorted_head_tail(s);
        lemma_sorted_insert_props(tail, key);
        let rt = sorted_insert(tail, key);
        assert forall|x: u64| rt.contains(x) implies s[0] < x by {
            if tail.contains(x) {
            } else {
                assert(x == key);
            }
        }
        lemma_sorted_cons(s[0], rt);
        assert forall|x: u64| #[trigger] r.contains(x) <==> (s.contains(x) || x == key) by {
            lemma_cons_membership(r, x);
            assert(r.drop_first() =~= rt);
            lemma_cons_membership(s, x);
        }
        if s.contains(key) {
            lemma_cons_membership(s, key);
            assert(tail.contains(key));
            assert(seq![s[0]] + tail =~= s);
        }
    }
}

/// What `sorted_remove` yields: the old elements but `key`, strictly
/// sorted again, and shorter by one exactly when `key` was present.
pub proof fn lemma_sorted_remove_props(s: Seq<u64>, key: u64)
    requires
        strictly_sorted(s),
    ensures
        forall|x: u64| #[trigger] sorted_remove(s, key).contains(x) <==> (s.contains(x) && x
            != key),
        strictly_sorted(sorted_remove(s, key)),
        !s.contains(key) ==> sorted_remove(s, key) == s,
        s.contains(key) ==> sorted_remove(s, key).len() == s.len() - 1,
    decreases s.len(),
{
    let r = sorted_remove(s, key);
    if s.len() == 0 {
    } else if key == s[0] {
        lemma_sorted_head_tail(s);
        assert(s.contains(key));
        assert forall|x: u64| #[trigger] r.contains(x) <==> (s.contains(x) && x != key) by {
            lemma_cons_membership(s, x);
            if r.contains(x) {
                assert(s[0] < x);
            }
        }
    } else if key < s[0] {
        lemma_sorted_head_tail(s);
        assert forall|x: u64| s.contains(x) implies s[0] <= x by {
            lemma_cons_membership(s, x);
        }
        if s.contains(key) {
            assert(s[0] <= key);
        }
    } else {
        let tail = s.drop_first();
        lemma_sorted_head_tail(s);
        lemma_sorted_remove_props(tail, key);
        let rt = sorted_remove(tail, key);
        assert forall|x: u64| rt.contains(x) implies s[0] < x by {
            assert(tail.contains(x));
        }
        lemma_sorted_cons(s[0], rt);
        assert forall|x: u64| #[trigger] r.contains(x) <==> (s.contains(x) && x != key) by {
            lemma_cons_membership(r, x);
            assert(r.drop_first() =~= rt);
            lemma_cons_membership(s, x);
        }
        lemma_cons_membership(s, key);
        if s.contains(key) {
            assert(seq![s[0]] + tail =~= s);
        }
    }
}

impl FineGrainedListSet {
    /// The elements in list order, from the head on.
    pub closed spec fn view(&self) -> Seq<u64> {
        link_seq(self.head)
    }

    #[verifier::type_invariant]
    spec fn wf(&self) -> bool {
        strictly_sorted(link_seq(self.head))
    }

    /// Creates a new, empty list.
    pub fn new() -> (s: Self)
        ensures
            s@ == Seq::<u64>::empty(),
    {
        FineGrainedListSet { head: None }
    }

    /// Returns whether `key` is in the set.
    pub fn contains(&self, key: u64) -> (r: bool)
        ensures
            r == self@.contains(key),
            strictly_sorted(self@),
    {
        proof {
            use_type_invariant(self);
        }
        Node::find(&self.head, key)
    }

    /// Puts `key` into the set. Returns false, and changes nothing, exactly
    /// when `key` was already present.
    pub fn insert(&mut self, key: u64) -> (r: bool)
        ensures
            r == !old(self)@.contains(key),
            final(self)@ == sorted_insert(old(self)@, key),
            forall|x: u64| final(self)@.contains(x) <==> (old(self)@.contains(x) || x == key),
            strictly_sorted(final(self)@),
    {
        proof {
            use_type_invariant(&*self);
        }
        let mut head = None;
        std::mem::swap(&mut head, &mut self.head);
        let ghost s0 = link_seq(head);
        let r = Node::insert_link(&mut head, key);
        proof {
            lemma_sorted_insert_props(s0, key);
        }
        self.head = head;
        r
    }

    /// Takes `key` out of the set. Returns false, and changes nothing,
    /// exactly when `key` was not present.
    pub fn remove(&mut self, key: u64) -> (r: bool)
        ensures
            r == old(self)@.contains(key),
            final(self)@ == sorted_remove(old(self)@, key),
            forall|x: u64| final(self)@.contains(x) <==> (old(self)@.contains(x) && x != key),
            strictly_sorted(final(self)@),
    {
        proof {
            use_type_invariant(&*self);
        }
        let mut head = None;
        std::mem::swap(&mut head, &mut self.head);
        let ghost s0 = link_seq(head);
        let r = Node::remove_link(&mut head, key);
        proof {
            lemma_sorted_remove_props(s0, key);
        }
        self.head = head;
        r
    }
}

/// Walk over the elements of a `FineGrainedListSet`, in ascending order.
pub struct Iter<'a> {
    cursor: &'a Option<Box<Node>>,
}

impl<'a> Iter<'a> {
    /// The elements the walk has not yielded yet, in list order.
    pub closed spec fn view(&self) -> Seq<u64> {
        link_seq(*self.cursor)
    }

    /// Yields the next element: the first the walk has not passed yet,
    /// `None` once the chain is exhausted.
    pub fn next(&mut self) -> (r: Option<u64>)
        ensures
            match r {
                None => old(self)@.len() == 0 && final(self)@ == old(self)@,
                Some(v) => old(self)@.len() > 0 && v == old(self)@[0] && final(self)@ == old(
                    self,
                )@.drop_first(),
            },
    {
        match self.cursor {
            None => None,
            Some(node) => {
                let v = node.data;
                self.cursor = &node.next;
                proof {
                    assert(old(self)@.drop_first() =~= self@);
                }
                Some(v)
            },
        }
    }
}

impl FineGrainedListSet {
    /// Starts a walk over all elements, in ascending order.
    pub fn iter(&self) -> (it: Iter<'_>)
        ensures
            it@ == self@,
            strictly_sorted(self@),
    {
        proof {
            use_type_invariant(self);
        }
        Iter { cursor: &self.head }
    }
}

impl Default for FineGrainedListSet {
    /// The empty set.
    fn default() -> (s: Self)
        ensures
            s@ == Seq::<u64>::empty(),
    {
        FineGrainedListSet::new()
    }
}

/// All the values of `vs`, inserted into `s` in turn.
pub open spec fn sorted_insert_all(s: Seq<u64>, vs: Seq<u64>) -> Seq<u64>
    decreases vs.len(),
{
    if vs.len() == 0 {
        s
    } else {
        sorted_insert_all(sorted_insert(s, vs[0]), vs.drop_first())
    }
}

/// Inserting a batch of values yields the strictly sorted sequence whose
/// elements are exactly the old ones together with the batch: none is
/// lost, and strict sortedness leaves room for none twice.
pub proof fn lemma_insert_all_union(s: Seq<u64>, vs: Seq<u64>)
    requires
        strictly_sorted(s),
    ensures
        strictly_sorted(sorted_insert_all(s, vs)),
        forall|x: u64| #[trigger] sorted_insert_all(s, vs).contains(x) <==> (s.contains(x)
            || vs.contains(x)),
    decreases vs.len(),
{
    if vs.len() == 0 {
    } else {
        lemma_sorted_insert_props(s, vs[0]);
        lemma_insert_all_union(sorted_insert(s, vs[0]), vs.drop_first());
        assert forall|x: u64| #[trigger] sorted_insert_all(s, vs).contains(x) <==> (s.contains(x)
            || vs.contains(x)) by {
            lemma_cons_membership(vs, x);
        }
    }
}

/// Two strictly sorted sequences with the same members are the same
/// sequence: the layout of a sorted set is fixed by its contents, whatever
/// order built it.
pub proof fn lemma_sorted_unique(a: Seq<u64>, b: Seq<u64>)
    requires
        strictly_sorted(a),
        strictly_sorted(b),
        forall|x: u64| a.contains(x) <==> b.contains(x),
    ensures
        a == b,
    decreases a.len(),
{
    if a.len() == 0 {
        if b.len() > 0 {
            assert(b.contains(b[0]));
        }
        assert(a =~= b);
    } else {
        assert(a.contains(a[0]));
        assert(b.contains(a[0]));
        assert(b.len() > 0);
        assert(b.contains(b[0]));
        assert(a.contains(b[0]));
        let i = choose|i: int| 0 <= i < a.len() && a[i] == b[0];
        let j = choose|j: int| 0 <= j < b.len() && b[j] == a[0];
        assert(a[0] <= a[i] && b[0] <= b[j]);
        assert(a[0] == b[0]);
        lemma_sorted_head_tail(a);
        lemma_sorted_head_tail(b);
        assert forall|x: u64| a.drop_first().contains(x) <==> b.drop_first().contains(x) by {
            lemma_cons_membership(a, x);
            lemma_cons_membership(b, x);
            if a.drop_first().contains(x) {
                assert(a[0] < x);
            }
            if b.drop_first().contains(x) {
                assert(b[0] < x);
            }
        }
        lemma_sorted_unique(a.drop_first(), b.drop_first());
        assert(a.len() == b.len());
        assert forall|i: int| 0 <= i < a.len() implies a[i] == b[i] by {
            if i > 0 {
                assert(a.drop_first()[i - 1] == b.drop_first()[i - 1]);
            }
        }
        assert(a =~= b);
    }
}

/// Round trip: after an insert the element is in; after a remove it is
/// out; a second insert or remove of the same element changes nothing, so
/// it reports failure.
pub proof fn lemma_set_round_trip(s: Seq<u64>, x: u64)
    requires
        strictly_sorted(s),
    ensures
        sorted_insert(s, x).contains(x),
        !sorted_remove(s, x).contains(x),
        sorted_insert(sorted_insert(s, x), x) == sorted_insert(s, x),
        sorted_remove(sorted_remove(s, x), x) == sorted_remove(s, x),
{
    lemma_sorted_insert_props(s, x);
    lemma_sorted_remove_props(s, x);
    lemma_sorted_insert_props(sorted_insert(s, x), x);
    lemma_sorted_remove_props(sorted_remove(s, x), x);
}

impl Node {
    /// Boxes a fresh node holding `data` in front of the chain `next`.
    fn new(data: u64, next: Option<Box<Node>>) -> (node: Box<Node>)
        ensures
            link_seq(Some(node)) == seq![data] + link_seq(next),
    {
        Box::new(Node { data, next })
    }

    /// Walks the chain from `link` on, moving to each node's successor in
    /// turn, and reports whether `key` occurs. The walk stops early at the
    /// first value not below `key`: sortedness rules the rest of the chain
    /// out.
    fn find(link: &Option<Box<Node>>, key: u64) -> (r: bool)
        requires
            strictly_sorted(link_seq(*link)),
        ensures
            r == link_seq(*link).contains(key),
        decreases *link,
    {
        match link {
            None => {
                proof {
                    assert(!link_seq(*link).contains(key));
                }
                false
            },
            Some(node) => {
                proof {
                    assert(link_seq(*link).drop_first() =~= link_seq(node.next));
                    lemma_cons_membership(link_seq(*link), key);
                    lemma_sorted_head_tail(link_seq(*link));
                }
                if node.data == key {
                    true
                } else if node.data > key {
                    proof {
                        if link_seq(node.next).contains(key) {
                            assert(node.data < key);
                        }
                    }
                    false
                } else {
                    Node::find(&node.next, key)
                }
            },
        }
    }

    /// Walks the chain to the position where `key` belongs; if it is not
    /// already there, swings the pointer it stopped at onto a fresh node
    /// that takes over the rest of the chain.
    fn insert_link(link: &mut Option<Box<Node>>, key: u64) -> (r: bool)
        requires
            strictly_sorted(link_seq(*old(link))),
        ensures
            link_seq(*final(link)) == sorted_insert(link_seq(*old(link)), key),
            r == !link_seq(*old(link)).contains(key),
        decreases *old(link),
    {
        proof {
            if link_seq(*old(link)).len() > 0 {
                lemma_cons_membership(link_seq(*old(link)), key);
                lemma_sorted_head_tail(link_seq(*old(link)));
            }
        }
        match link.take() {
            None => {
                *link = Some(Node::new(key, None));
                proof {
                    assert(link_seq(*link) =~= seq![key]);
                    assert(!link_seq(*old(link)).contains(key));
                }
                true
            },
            Some(mut node) => {
                let ghost s = link_seq(*old(link));
                proof {
                    assert(s.drop_first() =~= link_seq(node.next));
                }
                if node.data == key {
                    *link = Some(node);
                    proof {
                        assert(link_seq(*link) == s);
                    }
                    false
                } else if node.data > key {
                    *link = Some(Node::new(key, Some(node)));
                    proof {
                        assert(link_seq(*link) =~= seq![key] + s);
                        if link_seq(*old(link)).contains(key) {
                            if s.drop_first().contains(key) {
                                assert(s[0] < key);
                            }
                        }
                    }
                    true
                } else {
                    let r = Node::insert_link(&mut node.next, key);
                    let ghost t = link_seq(node.next);
                    *link = Some(node);
                    proof {
                        assert(link_seq(*link) =~= seq![s[0]] + t);
                        if s.drop_first().contains(key) {
                            assert(s.contains(key));
                        }
                    }
                    r
                }
            },
        }
    }

    /// Walks the chain to the position where `key` would stand; if it is
    /// there, swings the pointer it stopped at past the node that holds it,
    /// onto that node's successor, and frees the node.
    fn remove_link(link: &mut Option<Box<Node>>, key: u64) -> (r: bool)
        requires
            strictly_sorted(link_seq(*old(link))),
        ensures
            link_seq(*final(link)) == sorted_remove(link_seq(*old(link)), key),
            r == link_seq(*old(link)).contains(key),
        decreases *old(link),
    {
        proof {
            if link_seq(*old(link)).len() > 0 {
                lemma_cons_membership(link_seq(*old(link)), key);
                lemma_sorted_head_tail(link_seq(*old(link)));
            }
        }
        match link.take() {
            None => {
                proof {
                    assert(!link_seq(*old(link)).contains(key));
                }
                false
            },
            Some(mut node) => {
                let ghost s = link_seq(*old(link));
                proof {
                    assert(s.drop_first() =~= link_seq(node.next));
                }
                if node.data == key {
                    *link = node.next;
                    proof {
                        assert(s.contains(key));
                    }
                    true
                } else if node.data > key {
                    *link = Some(node);
                    proof {
                        assert(link_seq(*link) == s);
                        if s.drop_first().contains(key) {
                            assert(s[0] < key);
                        }
                    }
                    false
                } else {
                    let r = Node::remove_link(&mut node.next, key);
                    let ghost t = link_seq(node.next);
                    *link = Some(node);
                    proof {
                        assert(link_seq(*link) =~= seq![s[0]] + t);
                        if s.drop_first().contains(key) {
                            assert(s.contains(key));
                        }
                    }
                    r
                }
            },
        }
    }
}

} // verus!
