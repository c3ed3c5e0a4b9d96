//! Two linked-list representations over copyable elements.
//!
//! `LinkedNode` is a persistent singly linked list: every operation returns a
//! new handle and shares the unmodified part of the old structure through
//! reference counting.  `DoublyLinkedList` is a mutable circular doubly linked
//! list: nodes live in an arena and are wired into a ring through `next` and
//! `prev` indices, so the list supports deque operations, bidirectional
//! indexed access and direct removal of a node through a handle.

use std::rc::Rc;
use vstd::pervasive::VecAdditionalExecFns;
use vstd::prelude::*;

verus! {

/// Relies on `Rc::clone`: the returned handle points to the same allocation,
/// so it carries the same value.
#[verifier::external_body]
fn rc_clone<T>(rc: &Rc<T>) -> (r: Rc<T>)
    ensures
        r == *rc,
{
    Rc::clone(rc)
}

/// The mutable-list interface: in-place operations that report status codes
/// or borrows, stated over each implementor's invariant and contents.
pub trait List<T>: Sized {
    /// The structural invariant that every operation preserves.
    spec fn list_inv(&self) -> bool;

    /// The abstract contents of the list.
    spec fn list_view(&self) -> Seq<T>;

    /// Inserts an element at the end of the list; `0` on success.
    fn append(&mut self, value: T) -> (r: u8)
        requires
            old(self).list_inv(),
        ensures
            final(self).list_inv(),
            final(self).list_view() == old(self).list_view().push(value),
            r == 0u8,
    ;

    /// Inserts an element so it ends up at `index`; `0` on success.
    fn insert_at(&mut self, value: T, index: usize) -> (r: u8)
        requires
            old(self).list_inv(),
            index <= old(self).list_view().len(),
        ensures
            final(self).list_inv(),
            final(self).list_view() == old(self).list_view().insert(index as int, value),
            r == 0u8,
    ;

    /// Removes the element at `index`: `0` on success, `1` if the list is
    /// already empty, `2` if the index is out of bounds.
    fn remove_at(&mut self, index: usize) -> (r: u8)
        requires
            old(self).list_inv(),
        ensures
            final(self).list_inv(),
            old(self).list_view().len() == 0 ==> r == 1u8 && final(self).list_view() == old(
                self,
            ).list_view(),
            old(self).list_view().len() > 0 && index >= old(self).list_view().len() ==> r == 2u8
                && final(self).list_view() == old(self).list_view(),
            index < old(self).list_view().len() ==> r == 0u8 && final(self).list_view() == old(
                self,
            ).list_view().remove(index as int),
    ;

    /// An immutable borrow of the element stored at `index`.
    fn value_at(&self, index: usize) -> (r: &T)
        requires
            self.list_inv(),
            index < self.list_view().len(),
        ensures
            *r == self.list_view()[index as int],
    ;

    /// A mutable borrow of the element stored at `index`.
    fn mut_value_at(&mut self, index: usize) -> (r: &mut T)
        requires
            old(self).list_inv(),
            index < old(self).list_view().len(),
        ensures
            *r == old(self).list_view()[index as int],
            final(self).list_view() == old(self).list_view().update(index as int, *final(r)),
            final(self).list_inv(),
    ;

    /// The number of elements stored in the list.
    fn size(&self) -> (r: usize)
        requires
            self.list_inv(),
        ensures
            r == self.list_view().len(),
    ;
}

/// The persistent-list interface: every operation takes its list by value
/// and hands back a new list, leaving all old handles valid.
pub trait InmutList<T>: Sized {
    /// The abstract contents of the list.
    spec fn inmut_view(&self) -> Seq<T>;

    /// A new list holding `list`'s elements followed by `other_list`'s.
    fn append(list: Self, other_list: Self) -> (r: Self)
        ensures
            r.inmut_view() == list.inmut_view() + other_list.inmut_view(),
    ;

    /// A new list with `insert_list` spliced in at position `index`.
    fn insert_at(list: Self, insert_list: Self, index: usize) -> (r: Self)
        requires
            index <= list.inmut_view().len(),
        ensures
            r.inmut_view() == list.inmut_view().take(index as int) + insert_list.inmut_view()
                + list.inmut_view().skip(index as int),
    ;

    /// A new list without the `count` elements that start at `index`;
    /// `count == 0` returns the list unchanged.
    fn remove_at(list: Self, index: usize, count: usize) -> (r: Self)
        requires
            count == 0 || index + count <= list.inmut_view().len(),
        ensures
            count == 0 ==> r == list,
            count > 0 ==> r.inmut_view() == list.inmut_view().take(index as int)
                + list.inmut_view().skip(index + count),
    ;

    /// The element stored at `index`.
    fn value_at(list: Self, index: usize) -> (r: T)
        requires
            index < list.inmut_view().len(),
        ensures
            r == list.inmut_view()[index as int],
    ;

    /// The number of elements stored in the list.
    fn size(&self) -> (r: usize)
        requires
            self.inmut_view().len() <= usize::MAX,
        ensures
            r == self.inmut_view().len(),
    ;

    /// A new list with the contents reversed: `[0,1,2]` becomes `[2,1,0]`.
    fn reverse(&self) -> (r: Self)
        ensures
            r.inmut_view() == self.inmut_view().reverse(),
    ;
}

/// In-place reversal of a container's contents.
pub trait Reversible: Sized {
    /// The element type held by the container.
    type Elem;

    /// The structural invariant that reversal preserves.
    spec fn rev_inv(&self) -> bool;

    /// The abstract contents of the container.
    spec fn rev_view(&self) -> Seq<Self::Elem>;

    /// Reverses the contents in place: `[0,1,2]` becomes `[2,1,0]`.  The
    /// borrow handed back is the container itself.
    fn reverse(&mut self) -> (r: &mut Self)
        requires
            old(self).rev_inv(),
        ensures
            (*r).rev_inv(),
            (*r).rev_view() == old(self).rev_view().reverse(),
            *final(self) == *final(r),
    ;
}

/// The double-ended-queue interface over a list's two ends.
pub trait Deque<T>: Sized {
    /// The structural invariant that every operation preserves.
    spec fn deque_inv(&self) -> bool;

    /// The abstract contents of the deque, front first.
    spec fn deque_view(&self) -> Seq<T>;

    /// True exactly when the deque holds nothing.
    fn empty(&self) -> (r: bool)
        requires
            self.deque_inv(),
        ensures
            r <==> self.deque_view().len() == 0,
    ;

    /// Pushes an element at the back; the borrow handed back is the deque
    /// itself.
    fn push_back(&mut self, value: T) -> (r: &mut Self)
        requires
            old(self).deque_inv(),
        ensures
            (*r).deque_inv(),
            (*r).deque_view() == old(self).deque_view().push(value),
            *final(self) == *final(r),
    ;

    /// Pops the element at the back of a non-empty deque.
    fn pop_back(&mut self) -> (r: T)
        requires
            old(self).deque_inv(),
            old(self).deque_view().len() > 0,
        ensures
            final(self).deque_inv(),
            r == old(self).deque_view().last(),
            final(self).deque_view() == old(self).deque_view().drop_last(),
    ;

    /// Pushes an element at the front; the borrow handed back is the deque
    /// itself.
    fn push_front(&mut self, value: T) -> (r: &mut Self)
        requires
            old(self).deque_inv(),
        ensures
            (*r).deque_inv(),
            (*r).deque_view() == seq![value] + old(self).deque_view(),
            *final(self) == *final(r),
    ;

    /// Pops the element at the front of a non-empty deque.
    fn pop_front(&mut self) -> (r: T)
        requires
            old(self).deque_inv(),
            old(self).deque_view().len() > 0,
        ensures
            final(self).deque_inv(),
            r == old(self).deque_view().first(),
            final(self).deque_view() == old(self).deque_view().drop_first(),
    ;
}

/// A node of the persistent singly linked list.
///
/// The head node of every list is a sentinel: its own `value` is scaffolding,
/// and the visible elements are the values of the nodes hanging below it.  A
/// list is empty exactly when the sentinel's `next` reference is absent.
pub struct LinkedNode<T> {
    next: Option<Rc<LinkedNode<T>>>,
    value: T,
}

/// The elements visible below a node: the values of the chain hanging from
/// its `next` reference, in order.
pub closed spec fn elems_below<T>(node: LinkedNode<T>) -> Seq<T>
    decreases node,
{
    match node.next {
        Option::None => Seq::empty(),
        Option::Some(m) => seq![m.value] + elems_below(*m),
    }
}

impl<T> View for LinkedNode<T> {
    type V = Seq<T>;

    closed spec fn view(&self) -> Seq<T> {
        elems_below(*self)
    }
}

impl<T: Copy> LinkedNode<T> {
    /// Builds a one-element list: a sentinel wrapping a single value node.
    pub fn new(value: T) -> (r: Rc<LinkedNode<T>>)
        ensures
            r@ == seq![value],
    {
        let inner = LinkedNode { value, next: None };
        let rc_inner = Rc::new(inner);
        let r = Rc::new(LinkedNode { value, next: Some(rc_inner) });
        proof {
            reveal_with_fuel(elems_below, 3);
            assert(r@ =~= seq![value]);
        }
        r
    }

    /// Builds a canonical empty list.  The `value` parameter only fixes the
    /// element type; it carries no meaning once the list is empty.
    pub fn empty_list(value: T) -> (r: Rc<LinkedNode<T>>)
        ensures
            r@ == Seq::<T>::empty(),
    {
        Rc::new(LinkedNode { value, next: None })
    }

    /// True exactly when the list has no elements.
    pub fn is_empty(&self) -> (r: bool)
        ensures
            r <==> self@.len() == 0,
    {
        self.next.is_none()
    }

    /// True exactly when the list has at least two elements, so that `next`
    /// yields a list that is still non-empty.
    pub fn has_next(&self) -> (r: bool)
        ensures
            r <==> self@.len() >= 2,
    {
        proof {
            reveal_with_fuel(elems_below, 3);
        }
        match &self.next {
            None => false,
            Some(m) => m.next.is_some(),
        }
    }

    /// The first element of a non-empty list.
    pub fn value(&self) -> (r: &T)
        requires
            self@.len() > 0,
        ensures
            *r == self@[0],
    {
        match &self.next {
            Some(m) => &m.value,
            None => unreached(),
        }
    }

    /// The tail of a non-empty list: everything after the first element.  The
    /// returned list shares the remaining structure with `self`.
    pub fn next(&self) -> (r: Rc<LinkedNode<T>>)
        requires
            self@.len() > 0,
        ensures
            r@ == self@.drop_first(),
    {
        match &self.next {
            Some(m) => {
                let link = match &m.next {
                    Some(inner) => Some(rc_clone(inner)),
                    None => None,
                };
                let r = Rc::new(LinkedNode { value: self.value, next: link });
                proof {
                    reveal_with_fuel(elems_below, 3);
                    assert(r@ =~= self@.drop_first());
                }
                r
            },
            None => unreached(),
        }
    }

    /// Prepends the first element of `element` onto `list`.  An empty
    /// `element` contributes nothing and `list` is returned unchanged.
    pub fn cons(element: Rc<LinkedNode<T>>, list: Rc<LinkedNode<T>>) -> (r: Rc<LinkedNode<T>>)
        ensures
            element@.len() == 0 ==> r == list,
            element@.len() > 0 ==> r@ == seq![element@[0]] + list@,
    {
        if element.is_empty() {
            return list;
        }
        if list.is_empty() {
            let r = LinkedNode::new(*element.value());
            proof {
                assert(r@ =~= seq![element@[0]] + list@);
            }
            return r;
        }
        let link = match &list.next {
            Some(m) => Some(rc_clone(m)),
            None => None,
        };
        let inner = Rc::new(LinkedNode { value: *element.value(), next: link });
        let ghost below = inner@;
        let r = Rc::new(LinkedNode { value: element.value, next: Some(inner) });
        proof {
            assert(below =~= list@);
            assert(r@ =~= seq![element@[0]] + list@);
        }
        r
    }

    /// Concatenation: a new list holding the elements of `list` followed by
    /// the elements of `other`.  The nodes of `other` are reused unchanged.
    pub fn append(list: Rc<LinkedNode<T>>, other: Rc<LinkedNode<T>>) -> (r: Rc<LinkedNode<T>>)
        ensures
            r@ == list@ + other@,
        decreases list@.len(),
    {
        if list.is_empty() {
            proof {
                assert(list@ + other@ =~= other@);
            }
            return other;
        }
        if !list.has_next() {
            let r = Self::cons(list, other);
            proof {
                assert(r@ =~= list@ + other@);
            }
            return r;
        }
        let nx = list.next();
        let rest = Self::append(nx, other);
        let r = Self::cons(list, rest);
        proof {
            assert(r@ =~= list@ + other@);
        }
        r
    }

    /// Splices `insert_list` into `list` so that its first element lands at
    /// position `index` of the result; index 0 means "prepend".
    pub fn insert_at(
        list: Rc<LinkedNode<T>>,
        insert_list: Rc<LinkedNode<T>>,
        index: usize,
    ) -> (r: Rc<LinkedNode<T>>)
        requires
            index <= list@.len(),
        ensures
            r@ == list@.take(index as int) + insert_list@ + list@.skip(index as int),
        decreases index,
    {
        if index == 0 {
            let r = Self::append(insert_list, list);
            proof {
                assert(r@ =~= list@.take(0) + insert_list@ + list@.skip(0));
            }
            return r;
        }
        let v = *list.value();
        let nx = list.next();
        let rest = Self::insert_at(nx, insert_list, index - 1);
        let r = Self::cons(LinkedNode::new(v), rest);
        proof {
            assert(r@ =~= list@.take(index as int) + insert_list@ + list@.skip(index as int));
        }
        r
    }

    /// Removes `count` consecutive elements starting at `index`; `count == 0`
    /// is a no-op returning the list unchanged.
    pub fn remove_at(list: Rc<LinkedNode<T>>, index: usize, count: usize) -> (r: Rc<LinkedNode<T>>)
        requires
            count == 0 || index + count <= list@.len(),
        ensures
            count == 0 ==> r == list,
            count > 0 ==> r@ == list@.take(index as int) + list@.skip(index + count),
        decreases index + count,
    {
        if count == 0 {
            return list;
        }
        if index == 0 {
            if count == 1 && !list.has_next() {
                let r = Self::empty_list(list.value);
                proof {
                    assert(r@ =~= list@.take(0) + list@.skip(1));
                }
                return r;
            }
            let nx = list.next();
            let r = Self::remove_at(nx, 0, count - 1);
            proof {
                assert(r@ =~= list@.take(0) + list@.skip(index + count));
            }
            return r;
        }
        let nx = list.next();
        let rest = Self::remove_at(nx, index - 1, count);
        let r = Self::cons(list, rest);
        proof {
            assert(r@ =~= list@.take(index as int) + list@.skip(index + count));
        }
        r
    }

    /// The element at position `index`, reached by a recursive walk.
    pub fn value_at(list: Rc<LinkedNode<T>>, index: usize) -> (r: T)
        requires
            index < list@.len(),
        ensures
            r == list@[index as int],
        decreases index,
    {
        if index == 0 {
            *list.value()
        } else {
            Self::value_at(list.next(), index - 1)
        }
    }

    /// The number of elements, counted by walking the chain.
    #[verifier::loop_isolation(false)]
    pub fn size(&self) -> (r: usize)
        requires
            self@.len() <= usize::MAX,
        ensures
            r == self@.len(),
    {
        if self.is_empty() {
            return 0;
        }
        let mut n: usize = 1;
        let mut cur: &LinkedNode<T> = self;
        while cur.has_next()
            invariant
                1 <= cur@.len(),
                n + cur@.len() == self@.len() + 1,
            decreases cur@.len(),
        {
            match &cur.next {
                Some(m) => {
                    cur = &**m;
                },
                None => {
                    proof {
                        assert(false);
                    }
                },
            }
            n = n + 1;
        }
        n
    }

    /// Moves the elements of `queued`, one at a time, onto the front of
    /// `reversed`; the result is `queued` reversed followed by `reversed`.
    fn reverse_help(queued: &LinkedNode<T>, reversed: Rc<LinkedNode<T>>) -> (r: Rc<LinkedNode<T>>)
        ensures
            r@ == queued@.reverse() + reversed@,
        decreases queued@.len(),
    {
        if queued.is_empty() {
            proof {
                assert(queued@.reverse() + reversed@ =~= reversed@);
            }
            return reversed;
        }
        let v = *queued.value();
        let acc = Self::insert_at(reversed, LinkedNode::new(v), 0);
        if !queued.has_next() {
            proof {
                assert(acc@ =~= queued@.reverse() + reversed@);
            }
            acc
        } else {
            let nx = queued.next();
            let r = Self::reverse_help(&*nx, acc);
            proof {
                assert(queued@ =~= seq![queued@[0]] + queued@.drop_first());
                assert(r@ =~= queued@.reverse() + reversed@);
            }
            r
        }
    }

    /// A new list with the elements in reverse order; the input list is left
    /// untouched and still valid.
    pub fn reverse(&self) -> (r: Rc<LinkedNode<T>>)
        ensures
            r@ == self@.reverse(),
    {
        let acc = Self::empty_list(self.value);
        let r = Self::reverse_help(self, acc);
        proof {
            assert(r@ =~= self@.reverse());
        }
        r
    }

    /// Persistence: splicing into a persistent list builds a new list and
    /// leaves every other handle to the old structure untouched.  The pair
    /// returned holds a retained handle to the input list next to the
    /// spliced result: the retained handle still reports exactly the
    /// elements the input had.
    pub fn insert_at_preserves_original(
        list: Rc<LinkedNode<T>>,
        insert_list: Rc<LinkedNode<T>>,
        index: usize,
    ) -> (r: (Rc<LinkedNode<T>>, Rc<LinkedNode<T>>))
        requires
            index <= list@.len(),
        ensures
            r.0@ == list@,
            r.1@ == list@.take(index as int) + insert_list@ + list@.skip(index as int),
    {
        let kept = rc_clone(&list);
        let spliced = Self::insert_at(list, insert_list, index);
        (kept, spliced)
    }
}

impl<T: Copy> InmutList<T> for Rc<LinkedNode<T>> {
    open spec fn inmut_view(&self) -> Seq<T> {
        (**self)@
    }

    fn append(list: Self, other_list: Self) -> Self {
        LinkedNode::append(list, other_list)
    }

    fn insert_at(list: Self, insert_list: Self, index: usize) -> Self {
        LinkedNode::insert_at(list, insert_list, index)
    }

    fn remove_at(list: Self, index: usize, count: usize) -> Self {
        LinkedNode::remove_at(list, index, count)
    }

    fn value_at(list: Self, index: usize) -> T {
        LinkedNode::value_at(list, index)
    }

    fn size(&self) -> usize {
        (**self).size()
    }

    fn reverse(&self) -> Self {
        (**self).reverse()
    }
}

/// The ring position that follows `k` in a ring of `n` nodes, wrapping at
/// the end.
pub open spec fn next_pos(k: int, n: int) -> int {
    if k == n - 1 {
        0
    } else {
        k + 1
    }
}

/// The ring position that precedes `k` in a ring of `n` nodes, wrapping at
/// the start.
pub open spec fn prev_pos(k: int, n: int) -> int {
    if k == 0 {
        n - 1
    } else {
        k - 1
    }
}

/// A node of the circular doubly linked list.  Nodes live in the list's
/// arena, and `next` and `prev` hold the arena positions of the node's two
/// neighbours on the ring.
#[derive(Clone, Copy)]
pub struct DoubleNode<T> {
    next: usize,
    prev: usize,
    value: T,
}

impl<T> View for DoubleNode<T> {
    type V = T;

    closed spec fn view(&self) -> T {
        self.value
    }
}

/// A handle to one node of a `DoublyLinkedList`, obtained from an indexed
/// lookup and retained by the caller for a later direct removal or for
/// stepping to a neighbouring node.
#[derive(Clone, Copy, PartialEq, Eq, Structural)]
pub struct NodeHandle {
    index: usize,
}

/// A mutable circular doubly linked list.
///
/// Nodes are stored in an arena (`nodes`); the ghost sequence `ring` lists
/// the arena positions that currently form the ring, in list order starting
/// at `head`.  A removed node's slot stays in the arena with its last links,
/// exactly as a detached node keeps its dangling references, so handles held
/// by the caller remain safe to step through.
pub struct DoublyLinkedList<T> {
    nodes: Vec<DoubleNode<T>>,
    head: Option<usize>,
    n: usize,
    ring: Ghost<Seq<usize>>,
}

impl<T> View for DoublyLinkedList<T> {
    type V = Seq<T>;

    closed spec fn view(&self) -> Seq<T> {
        let r = self.ring@;
        Seq::new(r.len(), |k: int| self.nodes@[r[k] as int].value)
    }
}

impl<T> DoublyLinkedList<T> {
    /// The ring is consistent at position `k`: the node stored there sits in
    /// the arena, its `next` is the node one ring position later and its
    /// `prev` the node one ring position earlier.
    spec fn wf_at(self, k: int) -> bool {
        let r = self.ring@;
        let m = self.nodes@;
        &&& (r[k] as int) < m.len()
        &&& m[r[k] as int].next == r[next_pos(k, r.len() as int)]
        &&& m[r[k] as int].prev == r[prev_pos(k, r.len() as int)]
    }

    /// Structural invariant of the ring: `n` counts its nodes, the ring's
    /// positions are distinct arena slots, following `next` from any ring
    /// node reaches the next one (wrapping), `prev` the previous one, and
    /// `head` is the first ring node exactly when the list is non-empty.
    pub closed spec fn wf(self) -> bool {
        let r = self.ring@;
        &&& self.n == r.len()
        &&& r.len() <= self.nodes@.len()
        &&& r.no_duplicates()
        &&& forall|k: int| 0 <= k < r.len() ==> #[trigger] self.wf_at(k)
        &&& match self.head {
            Some(h) => r.len() > 0 && h == r[0],
            None => r.len() == 0,
        }
    }

    /// The handle names a slot of the arena (live or detached), so the
    /// stepping operations may read its links.
    pub closed spec fn in_arena(self, h: NodeHandle) -> bool {
        (h.index as int) < self.nodes@.len()
    }

    /// The handle names a node that is currently linked into the ring.
    pub closed spec fn on_ring(self, h: NodeHandle) -> bool {
        self.ring@.contains(h.index)
    }

    /// The list position of the ring node that the handle names.
    pub closed spec fn pos_of(self, h: NodeHandle) -> int {
        self.ring@.index_of(h.index)
    }

    /// The arena slot reached from the head after `k` steps through `next`.
    pub closed spec fn walk_next(self, k: nat) -> usize
        decreases k,
    {
        if k == 0 {
            self.head.unwrap()
        } else {
            self.nodes@[self.walk_next((k - 1) as nat) as int].next
        }
    }

    /// The arena slot reached from the head after `k` steps through `prev`.
    pub closed spec fn walk_prev(self, k: nat) -> usize
        decreases k,
    {
        if k == 0 {
            self.head.unwrap()
        } else {
            self.nodes@[self.walk_prev((k - 1) as nat) as int].prev
        }
    }

    proof fn lemma_walk_next_prefix(self, k: nat)
        requires
            self.wf(),
            0 < self@.len(),
            k <= self@.len(),
        ensures
            self.walk_next(k) == if (k as int) < self@.len() as int {
                self.ring@[k as int]
            } else {
                self.ring@[0]
            },
        decreases k,
    {
        if k > 0 {
            self.lemma_walk_next_prefix((k - 1) as nat);
            assert(self.wf_at(k - 1));
        }
    }

    proof fn lemma_walk_prev_prefix(self, k: nat)
        requires
            self.wf(),
            0 < self@.len(),
            k <= self@.len(),
        ensures
            self.walk_prev(k) == if k == 0 {
                self.ring@[0]
            } else {
                self.ring@[self@.len() - k]
            },
        decreases k,
    {
        if k > 0 {
            self.lemma_walk_prev_prefix((k - 1) as nat);
            if k == 1 {
                assert(self.wf_at(0));
            } else {
                assert(self.wf_at(self@.len() - (k - 1)));
            }
        }
    }

    /// Size agrees with the node graph: on a non-empty well-formed list,
    /// following `next` from the head comes back to the head after exactly
    /// `size()` steps and not before, and the walk through `prev` does the
    /// same.  So the count of nodes reachable along either direction of the
    /// ring equals the stored size.
    pub proof fn lemma_size_counts_ring(self)
        requires
            self.wf(),
            0 < self@.len(),
        ensures
            self.walk_next(self@.len()) == self.walk_next(0),
            forall|k: nat| 1 <= k < self@.len() ==> #[trigger] self.walk_next(k) != self.walk_next(0),
            self.walk_prev(self@.len()) == self.walk_prev(0),
            forall|k: nat| 1 <= k < self@.len() ==> #[trigger] self.walk_prev(k) != self.walk_prev(0),
    {
        self.lemma_walk_next_prefix(self@.len());
        self.lemma_walk_prev_prefix(self@.len());
        assert forall|k: nat| 1 <= k < self@.len() implies #[trigger] self.walk_next(k)
            != self.walk_next(0) by {
            self.lemma_walk_next_prefix(k);
            assert(self.ring@[k as int] != self.ring@[0]);
        }
        assert forall|k: nat| 1 <= k < self@.len() implies #[trigger] self.walk_prev(k)
            != self.walk_prev(0) by {
            self.lemma_walk_prev_prefix(k);
            assert(self.ring@[self@.len() - k] != self.ring@[0]);
        }
    }
}

impl<T: Copy> DoublyLinkedList<T> {
    /// An empty list: no head, no nodes.
    pub fn new() -> (r: DoublyLinkedList<T>)
        ensures
            r.wf(),
            r@ == Seq::<T>::empty(),
    {
        let r = DoublyLinkedList {
            nodes: Vec::new(),
            head: None,
            n: 0,
            ring: Ghost(Seq::empty()),
        };
        proof {
            assert(r@ =~= Seq::<T>::empty());
        }
        r
    }

    /// The number of elements, kept up to date by every operation.
    pub fn size(&self) -> (r: usize)
        requires
            self.wf(),
        ensures
            r == self@.len(),
    {
        self.n
    }

    /// Inserts `value` at the logical end of the ring.  The first insertion
    /// creates a node linked to itself; afterwards the new node is wired
    /// between the tail (reached from `head.prev` in one hop) and the head.
    pub fn append(&mut self, value: T) -> (r: u8)
        requires
            old(self).wf(),
        ensures
            final(self).wf(),
            final(self)@ == old(self)@.push(value),
            r == 0u8,
    {
        match self.head {
            None => {
                let idx = self.nodes.len();
                self.nodes.push(DoubleNode { next: idx, prev: idx, value });
                self.head = Some(idx);
                self.n = 1;
                proof {
                    self.ring@ = seq![idx];
                    assert forall|k: int| 0 <= k < self.ring@.len() implies #[trigger] self
                        .wf_at(k) by {
                        assert(self.nodes@[idx as int].next == idx);
                    }
                    assert(self@ =~= old(self)@.push(value));
                }
            },
            Some(h) => {
                proof {
                    assert(old(self).wf_at(0));
                    assert(old(self).wf_at(prev_pos(0, old(self).ring@.len() as int)));
                }
                let tail = self.nodes[h].prev;
                self.nodes.push(DoubleNode { next: h, prev: tail, value });
                let idx = self.nodes.len() - 1;
                let mut tn = self.nodes[tail];
                tn.next = idx;
                self.nodes.set(tail, tn);
                let mut hn = self.nodes[h];
                hn.prev = idx;
                self.nodes.set(h, hn);
                self.n = self.n + 1;
                proof {
                    self.ring@ = self.ring@.push(idx);
                    let r0 = old(self).ring@;
                    let n0 = r0.len() as int;
                    let m0 = old(self).nodes@;
                    let r1 = self.ring@;
                    assert(tail == r0[n0 - 1]) by {
                        assert(old(self).wf_at(0));
                    }
                    assert forall|k: int| 0 <= k < n0 implies (#[trigger] r0[k] as int)
                        < m0.len() by {
                        assert(old(self).wf_at(k));
                    }
                    assert forall|k: int| 0 <= k < r1.len() implies #[trigger] self.wf_at(k) by {
                        if k < n0 {
                            assert(old(self).wf_at(k));
                            assert(old(self).wf_at(next_pos(k, n0)));
                            assert(old(self).wf_at(prev_pos(k, n0)));
                            if 0 < k {
                                assert(r0[k] != r0[0]);
                            }
                            if k < n0 - 1 {
                                assert(r0[k] != r0[n0 - 1]);
                            }
                        }
                    }
                    assert(r1.no_duplicates());
                    assert(self@ =~= old(self)@.push(value));
                }
            },
        }
        0
    }

    /// True exactly when the list holds no elements.
    pub fn empty(&self) -> (r: bool)
        requires
            self.wf(),
        ensures
            r <==> self@.len() == 0,
    {
        self.size() == 0
    }

    /// Nearest-end traversal: the arena position of the ring node at `index`,
    /// reached by walking forward from the head when the index lies in the
    /// first half of the list and backward through `prev` otherwise.
    #[verifier::loop_isolation(false)]
    fn at_index(&self, index: usize) -> (pos: usize)
        requires
            self.wf(),
            index < self@.len(),
        ensures
            pos == self.ring@[index as int],
    {
        let h = match self.head {
            Some(h) => h,
            None => unreached(),
        };
        if index < self.n / 2 {
            let mut cur = h;
            let mut k: usize = 0;
            while k < index
                invariant
                    k <= index,
                    cur == self.ring@[k as int],
                decreases index - k,
            {
                proof {
                    assert(self.wf_at(k as int));
                }
                cur = self.nodes[cur].next;
                k = k + 1;
            }
            cur
        } else {
            let mut cur = h;
            let mut k: usize = self.n;
            while k > index
                invariant
                    index <= k <= self.n,
                    k == self.n ==> cur == self.ring@[0],
                    k < self.n ==> cur == self.ring@[k as int],
                decreases k - index,
            {
                proof {
                    let ghost j: int = if k == self.n { 0int } else { k as int };
                    assert(self.wf_at(j));
                    assert(self.nodes@[self.ring@[j] as int].prev == self.ring@[prev_pos(
                        j,
                        self.ring@.len() as int,
                    )]);
                }
                cur = self.nodes[cur].prev;
                k = k - 1;
            }
            cur
        }
    }

    /// A handle to the node at `index`, found by nearest-end traversal.
    pub fn at(&self, index: usize) -> (h: NodeHandle)
        requires
            self.wf(),
            index < self@.len(),
        ensures
            self.in_arena(h),
            self.on_ring(h),
            self.pos_of(h) == index,
    {
        let pos = self.at_index(index);
        let h = NodeHandle { index: pos };
        proof {
            assert(self.wf_at(index as int));
            assert(self.ring@[index as int] == pos);
            let j = self.ring@.index_of(pos);
            assert(0 <= j < self.ring@.len() && self.ring@[j] == pos);
            assert(j == index);
        }
        h
    }

    /// A borrow of the element at `index`, via nearest-end traversal.
    pub fn value_at(&self, index: usize) -> (r: &T)
        requires
            self.wf(),
            index < self@.len(),
        ensures
            *r == self@[index as int],
    {
        let pos = self.at_index(index);
        proof {
            assert(self.wf_at(index as int));
        }
        &self.nodes[pos].value
    }

    /// A mutable borrow of the element at `index`: the list afterwards holds
    /// at `index` whatever the caller wrote through the borrow, and the ring
    /// itself is untouched.
    pub fn mut_value_at(&mut self, index: usize) -> (r: &mut T)
        requires
            old(self).wf(),
            index < old(self)@.len(),
        ensures
            *r == old(self)@[index as int],
            final(self)@ == old(self)@.update(index as int, *final(r)),
            final(self).wf(),
    {
        let pos = self.at_index(index);
        proof {
            assert(self.wf_at(index as int));
        }
        let r = &mut self.nodes[pos].value;
        proof {
            assert forall|k: int| 0 <= k < after_borrow(self).ring@.len()
                implies #[trigger] after_borrow(self).wf_at(k) by {
                assert(old(self).wf_at(k));
            }
            assert forall|k: int| 0 <= k < old(self).ring@.len() implies (#[trigger] old(
                self,
            ).ring@[k] as int) < old(self).nodes@.len() by {
                assert(old(self).wf_at(k));
            }
            assert(after_borrow(self)@ =~= old(self)@.update(index as int, *final(r)));
        }
        r
    }

    /// Splices `value` in so that it lands at position `index`; `index == n`
    /// degenerates to `append`, `index == 0` makes the new node the head.
    #[verifier::rlimit(50)]
    pub fn insert_at(&mut self, value: T, index: usize) -> (r: u8)
        requires
            old(self).wf(),
            index <= old(self)@.len(),
        ensures
            final(self).wf(),
            final(self)@ == old(self)@.insert(index as int, value),
            r == 0u8,
    {
        if index == self.n {
            let r = self.append(value);
            proof {
                assert(self@ =~= old(self)@.insert(index as int, value));
            }
            return r;
        }
        proof {
            assert(self.wf_at(index as int));
            assert(self.wf_at(prev_pos(index as int, self.ring@.len() as int)));
        }
        let pos = self.at_index(index);
        let prev = self.nodes[pos].prev;
        self.nodes.push(DoubleNode { next: pos, prev, value });
        let idx = self.nodes.len() - 1;
        let mut pn = self.nodes[prev];
        pn.next = idx;
        self.nodes.set(prev, pn);
        let mut xn = self.nodes[pos];
        xn.prev = idx;
        self.nodes.set(pos, xn);
        if index == 0 {
            self.head = Some(idx);
        }
        self.n = self.n + 1;
        proof {
            self.ring@ = self.ring@.insert(index as int, idx);
            let r0 = old(self).ring@;
            let n0 = r0.len() as int;
            let m0 = old(self).nodes@;
            let r1 = self.ring@;
            let i = index as int;
            let p = prev_pos(i, n0);
            r0.insert_ensures(i, idx);
            assert forall|k: int| 0 <= k < n0 implies (#[trigger] r0[k] as int) < m0.len() by {
                assert(old(self).wf_at(k));
            }
            assert forall|k: int| 0 <= k < r1.len() implies #[trigger] self.wf_at(k) by {
                let k0: int = if k < i { k } else { k - 1 };
                if k != i {
                    assert(old(self).wf_at(k0));
                    assert(old(self).wf_at(next_pos(k0, n0)));
                    assert(old(self).wf_at(prev_pos(k0, n0)));
                    if k0 != i {
                        assert(r0[k0] != r0[i]);
                    }
                    if k0 != p {
                        assert(r0[k0] != r0[p]);
                    }
                } else {
                    assert(old(self).wf_at(i));
                    assert(old(self).wf_at(p));
                }
            }
            assert forall|k1: int, k2: int|
                0 <= k1 < r1.len() && 0 <= k2 < r1.len() && k1 != k2 implies r1[k1] != r1[k2] by {
                let a1: int = if k1 < i { k1 } else { k1 - 1 };
                let a2: int = if k2 < i { k2 } else { k2 - 1 };
                if k1 != i && k2 != i && a1 != a2 {
                    assert(r0[a1] != r0[a2]);
                }
            }
            assert(self@ =~= old(self)@.insert(i, value));
        }
        0
    }

    /// Unlinks the ring node at list position `index`, stored in arena slot
    /// `pos`, by reconnecting its two neighbours; the ring must still have a
    /// node left afterwards.  The slot keeps its last links, as a detached
    /// node keeps its dangling references.
    #[verifier::rlimit(50)]
    fn unlink(&mut self, pos: usize, index: Ghost<int>)
        requires
            old(self).wf(),
            2 <= old(self)@.len(),
            0 <= index@ < old(self).ring@.len(),
            old(self).ring@[index@] == pos,
        ensures
            final(self).wf(),
            final(self)@ == old(self)@.remove(index@),
    {
        proof {
            assert(self.wf_at(index@));
            assert(self.wf_at(prev_pos(index@, self.ring@.len() as int)));
            assert(self.wf_at(next_pos(index@, self.ring@.len() as int)));
        }
        let pn = self.nodes[pos].prev;
        let nx = self.nodes[pos].next;
        let mut a = self.nodes[pn];
        a.next = nx;
        self.nodes.set(pn, a);
        let mut b = self.nodes[nx];
        b.prev = pn;
        self.nodes.set(nx, b);
        let h = match self.head {
            Some(h) => h,
            None => unreached(),
        };
        if pos == h {
            proof {
                if index@ != 0 {
                    assert(old(self).ring@[index@] != old(self).ring@[0]);
                }
            }
            self.head = Some(nx);
        } else {
            proof {
                assert(index@ != 0);
            }
        }
        self.n = self.n - 1;
        proof {
            self.ring@ = self.ring@.remove(index@);
            let r0 = old(self).ring@;
            let n0 = r0.len() as int;
            let m0 = old(self).nodes@;
            let r1 = self.ring@;
            let i = index@;
            let p = prev_pos(i, n0);
            let q = next_pos(i, n0);
            r0.remove_ensures(i);
            assert forall|k: int| 0 <= k < n0 implies (#[trigger] r0[k] as int) < m0.len() by {
                assert(old(self).wf_at(k));
            }
            assert forall|k: int| 0 <= k < r1.len() implies #[trigger] self.wf_at(k) by {
                let k0: int = if k < i { k } else { k + 1 };
                assert(old(self).wf_at(k0));
                assert(old(self).wf_at(next_pos(k0, n0)));
                assert(old(self).wf_at(prev_pos(k0, n0)));
                assert(old(self).wf_at(next_pos(next_pos(k0, n0), n0)));
                assert(old(self).wf_at(prev_pos(prev_pos(k0, n0), n0)));
                if k0 != i {
                    assert(r0[k0] != r0[i]);
                }
                if k0 != p {
                    assert(r0[k0] != r0[p]);
                }
                if k0 != q {
                    assert(r0[k0] != r0[q]);
                }
            }
            assert forall|k1: int, k2: int|
                0 <= k1 < r1.len() && 0 <= k2 < r1.len() && k1 != k2 implies r1[k1] != r1[k2] by {
                let a1: int = if k1 < i { k1 } else { k1 + 1 };
                let a2: int = if k2 < i { k2 } else { k2 + 1 };
                assert(r0[a1] != r0[a2]);
            }
            assert(self@ =~= old(self)@.remove(i));
        }
    }

    /// Removes the element at `index`: status `1` if the list is already
    /// empty, `2` if the index is out of bounds, else `0` after unlinking the
    /// node and, if it was the head, moving the head to its successor.
    pub fn remove_at(&mut self, index: usize) -> (r: u8)
        requires
            old(self).wf(),
        ensures
            final(self).wf(),
            old(self)@.len() == 0 ==> r == 1u8 && final(self)@ == old(self)@,
            old(self)@.len() > 0 && index >= old(self)@.len() ==> r == 2u8 && final(self)@ == old(
                self,
            )@,
            index < old(self)@.len() ==> r == 0u8 && final(self)@ == old(self)@.remove(
                index as int,
            ),
    {
        if self.n == 0 {
            return 1;
        }
        if index >= self.n {
            return 2;
        }
        if self.n == 1 {
            self.head = None;
            self.n = 0;
            proof {
                self.ring@ = Seq::empty();
                assert(self@ =~= old(self)@.remove(index as int));
            }
            return 0;
        }
        let pos = self.at_index(index);
        self.unlink(pos, Ghost(index as int));
        0
    }

    /// Removes the specific node that `node` names, wherever it now sits in
    /// the ring, and returns the detached node with its former contents.
    pub fn remove_node(&mut self, node: NodeHandle) -> (r: DoubleNode<T>)
        requires
            old(self).wf(),
            old(self).on_ring(node),
        ensures
            final(self).wf(),
            final(self)@ == old(self)@.remove(old(self).pos_of(node)),
            r@ == old(self)@[old(self).pos_of(node)],
    {
        let ghost k = self.pos_of(node);
        proof {
            assert(0 <= k < self.ring@.len() && self.ring@[k] == node.index);
            assert(self.wf_at(k));
        }
        let i = node.index;
        let detached = self.nodes[i];
        if self.n == 1 {
            self.head = None;
            self.n = 0;
            proof {
                self.ring@ = Seq::empty();
                assert(self@ =~= old(self)@.remove(k));
            }
            return detached;
        }
        proof {
            let p = prev_pos(k, self.ring@.len() as int);
            let q = next_pos(k, self.ring@.len() as int);
            assert(self.wf_at(p));
            assert(self.wf_at(q));
            if p != k {
                assert(self.ring@[p] != self.ring@[k]);
            }
            if q != k {
                assert(self.ring@[q] != self.ring@[k]);
            }
        }
        self.unlink(i, Ghost(k));
        detached
    }

    /// In-place reversal: every ring node's `next` and `prev` references are
    /// swapped in one pass, and the head moves to the old tail.  A list of
    /// fewer than two elements is left as it is.
    #[verifier::loop_isolation(false)]
    #[verifier::rlimit(50)]
    pub fn reverse(&mut self)
        requires
            old(self).wf(),
        ensures
            final(self).wf(),
            final(self)@ == old(self)@.reverse(),
    {
        if self.n <= 1 {
            proof {
                assert(self@ =~= old(self)@.reverse());
            }
            return;
        }
        let h = match self.head {
            Some(h) => h,
            None => unreached(),
        };
        let ghost r0 = self.ring@;
        let ghost m0 = self.nodes@;
        let ghost n0 = r0.len() as int;
        proof {
            assert forall|j: int| 0 <= j < n0 implies (#[trigger] r0[j] as int) < m0.len() by {
                assert(self.wf_at(j));
            }
        }
        let mut cur = h;
        let mut k: usize = 0;
        while k < self.n
            invariant
                k <= self.n,
                self.n == old(self).n,
                self.head == old(self).head,
                self.ring@ == r0,
                n0 == r0.len() as int,
                n0 == self.n as int,
                r0.no_duplicates(),
                forall|j: int| 0 <= j < n0 ==> (#[trigger] r0[j] as int) < m0.len(),
                self.nodes@.len() == m0.len(),
                k < self.n ==> cur == r0[k as int],
                k == self.n ==> cur == r0[n0 - 1],
                forall|j: int|
                    0 <= j < k ==> #[trigger] self.nodes@[r0[j] as int] == (DoubleNode {
                        next: m0[r0[j] as int].prev,
                        prev: m0[r0[j] as int].next,
                        value: m0[r0[j] as int].value,
                    }),
                forall|j: int|
                    k <= j < n0 ==> #[trigger] self.nodes@[r0[j] as int] == m0[r0[j] as int],
            decreases self.n - k,
        {
            proof {
                assert(old(self).wf_at(k as int));
            }
            let nd = self.nodes[cur];
            let mut sw = nd;
            sw.next = nd.prev;
            sw.prev = nd.next;
            self.nodes.set(cur, sw);
            proof {
                assert forall|j: int| 0 <= j < n0 && j != k implies r0[j] != r0[k as int] by {}
            }
            if k + 1 < self.n {
                cur = nd.next;
            }
            k = k + 1;
        }
        self.head = Some(cur);
        proof {
            self.ring@ = self.ring@.reverse();
            let r1 = self.ring@;
            assert forall|k2: int| 0 <= k2 < r1.len() implies #[trigger] self.wf_at(k2) by {
                assert(old(self).wf_at(n0 - 1 - k2));
                assert(old(self).wf_at(next_pos(n0 - 1 - k2, n0)));
                assert(old(self).wf_at(prev_pos(n0 - 1 - k2, n0)));
            }
            assert forall|k1: int, k2: int|
                0 <= k1 < r1.len() && 0 <= k2 < r1.len() && k1 != k2 implies r1[k1] != r1[k2] by {
                assert(r0[n0 - 1 - k1] != r0[n0 - 1 - k2]);
            }
            assert(self@ =~= old(self)@.reverse());
        }
    }

    /// A deep copy: the ring is rebuilt node by node from one walk of the
    /// original, so the copy holds the same values and shares no node.
    #[verifier::loop_isolation(false)]
    pub fn clone(&self) -> (r: DoublyLinkedList<T>)
        requires
            self.wf(),
        ensures
            r.wf(),
            r@ == self@,
    {
        let mut out = DoublyLinkedList::new();
        if self.n == 0 {
            proof {
                assert(out@ =~= self@);
            }
            return out;
        }
        let h = match self.head {
            Some(h) => h,
            None => unreached(),
        };
        let mut cur = h;
        let mut k: usize = 0;
        while k < self.n
            invariant
                k <= self.n,
                out.wf(),
                out@ == self@.take(k as int),
                k < self.n ==> cur == self.ring@[k as int],
            decreases self.n - k,
        {
            proof {
                assert(self.wf_at(k as int));
            }
            let v = self.nodes[cur].value;
            out.append(v);
            cur = self.nodes[cur].next;
            k = k + 1;
            proof {
                assert(out@ =~= self@.take(k as int));
            }
        }
        proof {
            assert(self@.take(self.n as int) =~= self@);
        }
        out
    }

    /// Deque: push at the back, an alias for `append`.
    pub fn push_back(&mut self, value: T)
        requires
            old(self).wf(),
        ensures
            final(self).wf(),
            final(self)@ == old(self)@.push(value),
    {
        self.append(value);
    }

    /// Deque: pop the last element of a non-empty list.
    pub fn pop_back(&mut self) -> (r: T)
        requires
            old(self).wf(),
            old(self)@.len() > 0,
        ensures
            final(self).wf(),
            r == old(self)@.last(),
            final(self)@ == old(self)@.drop_last(),
    {
        let last = self.size() - 1;
        let removed = *self.value_at(last);
        self.remove_at(last);
        proof {
            assert(self@ =~= old(self)@.drop_last());
        }
        removed
    }

    /// Deque: push at the front, an alias for `insert_at` at index 0.
    pub fn push_front(&mut self, value: T)
        requires
            old(self).wf(),
        ensures
            final(self).wf(),
            final(self)@ == seq![value] + old(self)@,
    {
        self.insert_at(value, 0);
        proof {
            assert(self@ =~= seq![value] + old(self)@);
        }
    }

    /// Deque: pop the first element of a non-empty list.
    pub fn pop_front(&mut self) -> (r: T)
        requires
            old(self).wf(),
            old(self)@.len() > 0,
        ensures
            final(self).wf(),
            r == old(self)@.first(),
            final(self)@ == old(self)@.drop_first(),
    {
        let removed = *self.value_at(0);
        self.remove_at(0);
        proof {
            assert(self@ =~= old(self)@.drop_first());
        }
        removed
    }

    /// The handle stored in the node's `prev` link.  For a node on the ring
    /// this is its ring predecessor; a detached node still steps to the
    /// neighbour recorded when it was unlinked.
    pub fn prev_of(&self, h: NodeHandle) -> (r: NodeHandle)
        requires
            self.wf(),
            self.in_arena(h),
        ensures
            self.on_ring(h) ==> {
                &&& self.on_ring(r)
                &&& self.pos_of(r) == prev_pos(self.pos_of(h), self@.len() as int)
            },
    {
        let r = NodeHandle { index: self.nodes[h.index].prev };
        proof {
            if self.on_ring(h) {
                let k = self.pos_of(h);
                assert(0 <= k < self.ring@.len() && self.ring@[k] == h.index);
                assert(self.wf_at(k));
                let p = prev_pos(k, self.ring@.len() as int);
                assert(self.ring@[p] == r.index);
                let j = self.ring@.index_of(r.index);
                assert(0 <= j < self.ring@.len() && self.ring@[j] == r.index);
                assert(j == p);
            }
        }
        r
    }

    /// The handle stored in the node's `next` link: the ring successor of a
    /// node that is still on the ring.
    pub fn next_of(&self, h: NodeHandle) -> (r: NodeHandle)
        requires
            self.wf(),
            self.in_arena(h),
        ensures
            self.on_ring(h) ==> {
                &&& self.on_ring(r)
                &&& self.pos_of(r) == next_pos(self.pos_of(h), self@.len() as int)
            },
    {
        let r = NodeHandle { index: self.nodes[h.index].next };
        proof {
            if self.on_ring(h) {
                let k = self.pos_of(h);
                assert(0 <= k < self.ring@.len() && self.ring@[k] == h.index);
                assert(self.wf_at(k));
                let q = next_pos(k, self.ring@.len() as int);
                assert(self.ring@[q] == r.index);
                let j = self.ring@.index_of(r.index);
                assert(0 <= j < self.ring@.len() && self.ring@[j] == r.index);
                assert(j == q);
            }
        }
        r
    }
}

impl<T: Copy> List<T> for DoublyLinkedList<T> {
    open spec fn list_inv(&self) -> bool {
        self.wf()
    }

    open spec fn list_view(&self) -> Seq<T> {
        self@
    }

    fn append(&mut self, value: T) -> u8 {
        self.append(value)
    }

    fn insert_at(&mut self, value: T, index: usize) -> u8 {
        self.insert_at(value, index)
    }

    fn remove_at(&mut self, index: usize) -> u8 {
        self.remove_at(index)
    }

    fn value_at(&self, index: usize) -> &T {
        self.value_at(index)
    }

    fn mut_value_at(&mut self, index: usize) -> &mut T {
        self.mut_value_at(index)
    }

    fn size(&self) -> usize {
        self.size()
    }
}

impl<T: Copy> Reversible for DoublyLinkedList<T> {
    type Elem = T;

    open spec fn rev_inv(&self) -> bool {
        self.wf()
    }

    open spec fn rev_view(&self) -> Seq<T> {
        self@
    }

    fn reverse(&mut self) -> &mut Self {
        self.reverse();
        self
    }
}

impl<T: Copy> Deque<T> for DoublyLinkedList<T> {
    open spec fn deque_inv(&self) -> bool {
        self.wf()
    }

    open spec fn deque_view(&self) -> Seq<T> {
        self@
    }

    fn empty(&self) -> bool {
        self.empty()
    }

    fn push_back(&mut self, value: T) -> &mut Self {
        self.push_back(value);
        self
    }

    fn pop_back(&mut self) -> T {
        self.pop_back()
    }

    fn push_front(&mut self, value: T) -> &mut Self {
        self.push_front(value);
        self
    }

    fn pop_front(&mut self) -> T {
        self.pop_front()
    }
}

impl<T> DoubleNode<T> {
    /// The value carried by a (possibly detached) node.
    pub fn value(&self) -> (r: &T)
        ensures
            *r == self@,
    {
        &self.value
    }
}

/// Round trip for the persistent list: reversing a list twice restores the
/// original elements, for any list.
pub proof fn lemma_persistent_reverse_round_trip<T>(list: LinkedNode<T>)
    ensures
        list@.reverse().reverse() == list@,
{
    assert(list@.reverse().reverse() =~= list@);
}

/// Round trip for the circular list: reversing a list twice restores the
/// original elements, for any list.
pub proof fn lemma_circular_reverse_round_trip<T>(list: DoublyLinkedList<T>)
    ensures
        list@.reverse().reverse() == list@,
{
    assert(list@.reverse().reverse() =~= list@);
}

/// The view after pushing every element of `values`, in order, at the back
/// of a deque whose view is `init`.
pub open spec fn pushed_back<T>(init: Seq<T>, values: Seq<T>) -> Seq<T>
    decreases values.len(),
{
    if values.len() == 0 {
        init
    } else {
        pushed_back(init.push(values[0]), values.drop_first())
    }
}

/// The view after pushing every element of `values`, in order, at the front
/// of a deque whose view is `init`.
pub open spec fn pushed_front<T>(init: Seq<T>, values: Seq<T>) -> Seq<T>
    decreases values.len(),
{
    if values.len() == 0 {
        init
    } else {
        pushed_front(seq![values[0]] + init, values.drop_first())
    }
}

proof fn lemma_pushed_back_appends<T>(init: Seq<T>, values: Seq<T>)
    ensures
        pushed_back(init, values) == init + values,
    decreases values.len(),
{
    if values.len() == 0 {
        assert(pushed_back(init, values) =~= init + values);
    } else {
        lemma_pushed_back_appends(init.push(values[0]), values.drop_first());
        assert(init.push(values[0]) + values.drop_first() =~= init + values);
    }
}

proof fn lemma_pushed_front_reverses<T>(init: Seq<T>, values: Seq<T>)
    ensures
        pushed_front(init, values) == values.reverse() + init,
    decreases values.len(),
{
    if values.len() == 0 {
        assert(pushed_front(init, values) =~= values.reverse() + init);
    } else {
        lemma_pushed_front_reverses(seq![values[0]] + init, values.drop_first());
        assert(values.drop_first().reverse() + (seq![values[0]] + init) =~= values.reverse()
            + init);
    }
}

/// First in, first out: `push_back` of `values`, in order, onto an empty
/// deque yields the view `values`; the k-th `pop_front` afterwards returns
/// `values[k]` and leaves the elements after it — the values come back in
/// the order they went in.
pub proof fn lemma_deque_fifo<T>(values: Seq<T>, k: int)
    requires
        0 <= k < values.len(),
    ensures
        pushed_back(Seq::<T>::empty(), values) == values,
        values.skip(k).first() == values[k],
        values.skip(k).drop_first() == values.skip(k + 1),
{
    lemma_pushed_back_appends(Seq::<T>::empty(), values);
    assert(Seq::<T>::empty() + values =~= values);
    assert(values.skip(k).drop_first() =~= values.skip(k + 1));
}

/// The mirrored order: `push_front` of `values`, in order, onto an empty
/// deque yields them reversed; the k-th `pop_back` afterwards returns
/// `values[k]` and leaves the rest — again the order they went in.
pub proof fn lemma_deque_lifo<T>(values: Seq<T>, k: int)
    requires
        0 <= k < values.len(),
    ensures
        pushed_front(Seq::<T>::empty(), values) == values.reverse(),
        values.reverse().take(values.len() - k).last() == values[k],
        values.reverse().take(values.len() - k).drop_last() == values.reverse().take(
            values.len() - k - 1,
        ),
{
    lemma_pushed_front_reverses(Seq::<T>::empty(), values);
    assert(values.reverse() + Seq::<T>::empty() =~= values.reverse());
    assert(values.reverse().take(values.len() - k).drop_last() =~= values.reverse().take(
        values.len() - k - 1,
    ));
}

} // verus!
