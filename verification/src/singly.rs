//! A singly linked list of exclusively owned cells.
//!
//! Each cell owns its successor, so the whole chain is owned by the list
//! container, and every structural operation is pure link surgery.  The
//! abstract value of a list is the sequence of element values in chain
//! order, written `list@`.

use vstd::prelude::*;

verus! {

use core::cmp::Ordering;
use vstd::laws_cmp::obeys_cmp;
use vstd::laws_cmp::obeys_cmp_ord;
use vstd::laws_cmp::obeys_cmp_partial_ord;
use vstd::laws_cmp::obeys_partial_cmp_spec_properties;
use vstd::std_specs::cmp::PartialEqSpec;
use vstd::std_specs::cmp::PartialOrdSpec;

/// One chain cell: an element value and the link to the rest of the chain.
#[derive(Hash)]
struct Node<T> {
    value: T,
    next: Option<Box<Node<T>>>,
}

/// A forward-linked list; `self@` is the sequence of its values in chain order.
#[derive(Hash)]
pub struct SinglyLinkedList<T> {
    head: Option<Box<Node<T>>>,
}

/// The sequence of values stored in the chain hanging off `link`.
spec fn link_view<T>(link: Option<Box<Node<T>>>) -> Seq<T>
    decreases link,
{
    match link {
        None => Seq::empty(),
        Some(node) => seq![node.value] + link_view(node.next),
    }
}

/// Replaces the `None` link at the end of the chain `*link` by `tail`,
/// re-parenting `tail`'s whole chain in one link assignment.
#[verifier::loop_isolation(false)]
fn set_tail_link<T>(link: &mut Option<Box<Node<T>>>, tail: Option<Box<Node<T>>>)
    ensures
        link_view(*final(link)) == link_view(*old(link)) + link_view(tail),
{
    let ghost tail_view: Seq<T> = link_view(tail);
    let mut chain = link.take();
    let ghost orig: Seq<T> = link_view(chain);
    let mut cur: &mut Option<Box<Node<T>>> = &mut chain;
    let ghost mut i: int = 0;
    while cur.is_some()
        invariant
            0 <= i <= orig.len(),
            link_view(*cur) == orig.skip(i),
            link_view(after_borrow(chain)) == orig.take(i) + link_view(*final(cur)),
        decreases orig.len() - i,
    {
        match cur {
            Some(node) => {
                proof {
                    assert(orig.skip(i).drop_first() =~= orig.skip(i + 1));
                    assert(orig.take(i + 1) =~= orig.take(i).push(orig.skip(i)[0]));
                }
                cur = &mut node.next;
                proof {
                    i = i + 1;
                }
            }
            None => {}
        }
    }
    proof {
        assert(i == orig.len());
        assert(orig.take(i) =~= orig);
    }
    *cur = tail;
    *link = chain;
}

/// A link holds a cell exactly when its chain holds at least one value.
proof fn lemma_link_view_is_some<T>(link: Option<Box<Node<T>>>)
    ensures
        (link is Some) <==> link_view(link).len() > 0,
{
    match link {
        None => {}
        Some(node) => {
            assert(link_view(link) == seq![node.value] + link_view(node.next));
        }
    }
}

/// The chain of a last cell (one with no successor) is its value alone.
proof fn lemma_tail_link_view<T>(link: Option<Box<Node<T>>>)
    requires
        link matches Some(node) && node.next is None,
    ensures
        link matches Some(node) && link_view(link) == seq![node.value],
{
    match link {
        None => {}
        Some(node) => {
            assert(link_view(node.next) =~= Seq::<T>::empty());
            assert(link_view(link) == seq![node.value] + link_view(node.next));
            assert(seq![node.value] + Seq::<T>::empty() =~= seq![node.value]);
        }
    }
}

/// True iff `link` holds a cell that has a successor cell.
fn has_next<T>(link: &Option<Box<Node<T>>>) -> (r: bool)
    ensures
        r <==> (link matches Some(node) && node.next is Some),
{
    match link {
        None => false,
        Some(node) => node.next.is_some(),
    }
}

impl<T> View for SinglyLinkedList<T> {
    type V = Seq<T>;

    closed spec fn view(&self) -> Seq<T> {
        link_view(self.head)
    }
}

impl<T> SinglyLinkedList<T> {
    /// Creates an empty list.
    pub fn new() -> (r: Self)
        ensures
            r@ == Seq::<T>::empty(),
    {
        SinglyLinkedList { head: None }
    }

    /// True iff the list holds no cell; constant time.
    pub fn is_empty(&self) -> (r: bool)
        ensures
            r <==> self@.len() == 0,
    {
        self.head.is_none()
    }

    /// Prepends `value` as the new first cell; constant time.
    pub fn push_front(&mut self, value: T)
        ensures
            final(self)@ == seq![value] + old(self)@,
    {
        let rest = self.head.take();
        self.head = Some(Box::new(Node { value, next: rest }));
    }

    /// Removes and returns the first value, or `None` on an empty list;
    /// constant time.
    pub fn pop_front(&mut self) -> (r: Option<T>)
        ensures
            old(self)@.len() == 0 ==> r is None && final(self)@ == old(self)@,
            old(self)@.len() > 0 ==> r == Some(old(self)@[0]) && final(self)@ == old(self)@.drop_first(),
    {
        match self.head.take() {
            None => None,
            Some(node) => {
                let node = *node;
                self.head = node.next;
                Some(node.value)
            }
        }
    }

    /// Appends `value` as the new last cell; walks the whole chain to find
    /// the last link, so linear time.
    pub fn push_back(&mut self, value: T)
        ensures
            final(self)@ == old(self)@.push(value),
    {
        let node = Box::new(Node { value, next: None });
        proof {
            assert(link_view(None::<Box<Node<T>>>) =~= Seq::<T>::empty());
            assert(link_view(Some(node)) =~= seq![value]);
        }
        set_tail_link(&mut self.head, Some(node));
        proof {
            assert(old(self)@ + seq![value] =~= old(self)@.push(value));
        }
    }

    /// Links `other`'s whole chain after `self`'s last cell and leaves
    /// `other` empty; linear time in `self`'s length.
    pub fn append(&mut self, other: &mut Self)
        ensures
            final(self)@ == old(self)@ + old(other)@,
            final(other)@ == Seq::<T>::empty(),
    {
        let tail = other.head.take();
        set_tail_link(&mut self.head, tail);
    }

    /// Removes and returns the last value, or `None` on an empty list; a
    /// single pass that stops at the next-to-last cell so its link can be
    /// cleared.
    #[verifier::loop_isolation(false)]
    pub fn pop_back(&mut self) -> (r: Option<T>)
        ensures
            old(self)@.len() == 0 ==> r is None && final(self)@ == old(self)@,
            old(self)@.len() > 0 ==> r == Some(old(self)@.last())
                && final(self)@ == old(self)@.drop_last(),
    {
        if self.head.is_none() {
            return None;
        }
        let mut chain = self.head.take();
        let ghost orig: Seq<T> = link_view(chain);
        let mut cur: &mut Option<Box<Node<T>>> = &mut chain;
        let ghost mut i: int = 0;
        while has_next(cur)
            invariant
                0 <= i < orig.len(),
                link_view(*cur) == orig.skip(i),
                *cur is Some,
                link_view(after_borrow(chain)) == orig.take(i) + link_view(*final(cur)),
            decreases orig.len() - i,
        {
            match cur {
                Some(node) => {
                    proof {
                        lemma_link_view_is_some(node.next);
                        assert(orig.skip(i).drop_first() =~= orig.skip(i + 1));
                        assert(orig.take(i + 1) =~= orig.take(i).push(orig.skip(i)[0]));
                    }
                    cur = &mut node.next;
                    proof {
                        i = i + 1;
                    }
                }
                None => {}
            }
        }
        proof {
            lemma_tail_link_view(*cur);
            assert(i == orig.len() - 1);
            assert(orig.take(i) =~= orig.drop_last());
            assert(orig.skip(i)[0] == orig.last());
        }
        let last = match cur.take() {
            Some(boxed) => *boxed,
            None => {
                proof {
                    assert(false);
                }
                return None;
            }
        };
        self.head = chain;
        Some(last.value)
    }

    /// Returns a new list holding the cells from position `at` onward;
    /// `self` keeps the cells before `at`.  The split moves a whole
    /// sub-chain by one link assignment.  A position past the end of the
    /// list is rejected by the precondition; see [`Self::try_split_off`]
    /// for the checked form.
    #[verifier::loop_isolation(false)]
    pub fn split_off(&mut self, at: usize) -> (r: Self)
        requires
            at <= old(self)@.len(),
        ensures
            final(self)@ == old(self)@.take(at as int),
            r@ == old(self)@.skip(at as int),
    {
        let mut chain = self.head.take();
        let ghost orig: Seq<T> = link_view(chain);
        let mut cur: &mut Option<Box<Node<T>>> = &mut chain;
        let mut k: usize = 0;
        while k < at
            invariant
                0 <= k <= at,
                link_view(*cur) == orig.skip(k as int),
                link_view(after_borrow(chain)) == orig.take(k as int) + link_view(*final(cur)),
            decreases at - k,
        {
            match cur {
                Some(node) => {
                    proof {
                        assert(orig.skip(k as int).drop_first() =~= orig.skip(k + 1));
                        assert(orig.take(k + 1) =~= orig.take(k as int).push(orig.skip(k as int)[0]));
                    }
                    cur = &mut node.next;
                    k = k + 1;
                }
                None => {
                    proof {
                        assert(false);
                    }
                }
            }
        }
        let detached = cur.take();
        self.head = chain;
        SinglyLinkedList { head: detached }
    }

    /// Splits at `at` like [`Self::split_off`] after checking the position:
    /// an out-of-range split point is reported as `None` and leaves the
    /// list unchanged, so no link changes before the check.
    pub fn try_split_off(&mut self, at: usize) -> (r: Option<Self>)
        requires
            old(self)@.len() <= usize::MAX,
        ensures
            at <= old(self)@.len() ==> (r matches Some(rest)
                && rest@ == old(self)@.skip(at as int)
                && final(self)@ == old(self)@.take(at as int)),
            at > old(self)@.len() ==> r is None && final(self)@ == old(self)@,
    {
        if at > self.len() {
            return None;
        }
        Some(self.split_off(at))
    }

    /// Resets the list to empty, destroying the whole chain cell by cell
    /// in a loop, so that no chain is ever destroyed by deep recursion.
    pub fn clear(&mut self)
        ensures
            final(self)@ == Seq::<T>::empty(),
    {
        let mut cur = self.head.take();
        while cur.is_some()
            decreases link_view(cur).len(),
        {
            match cur {
                Some(boxed) => {
                    let cell = *boxed;
                    cur = cell.next;
                }
                None => {}
            }
        }
    }

    /// An exclusive reference to the first value, or `None` on an empty
    /// list.
    pub fn front_mut(&mut self) -> (r: Option<&mut T>)
        ensures
            old(self)@.len() == 0 ==> r is None && final(self)@ == old(self)@,
            old(self)@.len() > 0 ==> (r matches Some(p) && *p == old(self)@[0]
                && final(self)@ == old(self)@.update(0, *final(p))),
    {
        match &mut self.head {
            None => None,
            Some(node) => Some(&mut node.value),
        }
    }

    /// An exclusive reference to the last value, or `None` on an empty
    /// list; scans the whole chain, since no tail link is kept.
    #[verifier::loop_isolation(false)]
    pub fn back_mut(&mut self) -> (r: Option<&mut T>)
        ensures
            old(self)@.len() == 0 ==> r is None && final(self)@ == old(self)@,
            old(self)@.len() > 0 ==> (r matches Some(p) && *p == old(self)@.last()
                && final(self)@ == old(self)@.update(old(self)@.len() - 1, *final(p))),
    {
        if self.head.is_none() {
            return None;
        }
        let ghost orig: Seq<T> = self@;
        let mut cur: &mut Option<Box<Node<T>>> = &mut self.head;
        let ghost mut i: int = 0;
        while has_next(cur)
            invariant
                0 <= i < orig.len(),
                link_view(*cur) == orig.skip(i),
                *cur is Some,
                link_view(after_borrow(self.head)) == orig.take(i) + link_view(*final(cur)),
            decreases orig.len() - i,
        {
            match cur {
                Some(node) => {
                    proof {
                        lemma_link_view_is_some(node.next);
                        assert(orig.skip(i).drop_first() =~= orig.skip(i + 1));
                        assert(orig.take(i + 1) =~= orig.take(i).push(orig.skip(i)[0]));
                    }
                    cur = &mut node.next;
                    proof {
                        i = i + 1;
                    }
                }
                None => {}
            }
        }
        proof {
            lemma_tail_link_view(*cur);
            assert(i == orig.len() - 1);
            assert(orig.skip(i)[0] == orig.last());
        }
        match cur {
            Some(node) => {
                proof {
                    assert forall|x: T|
                        orig.take(orig.len() - 1).push(x) =~= #[trigger] orig.update(
                            orig.len() - 1,
                            x,
                        ) by {}
                }
                Some(&mut node.value)
            }
            None => {
                proof {
                    assert(false);
                }
                None
            }
        }
    }

    /// Counts the cells by walking the chain; linear time.
    pub fn len(&self) -> (r: usize)
        requires
            self@.len() <= usize::MAX,
        ensures
            r == self@.len(),
    {
        let mut cur: &Option<Box<Node<T>>> = &self.head;
        let mut n: usize = 0;
        loop
            invariant
                n + link_view(*cur).len() == self@.len(),
                self@.len() <= usize::MAX,
            decreases link_view(*cur).len(),
        {
            match cur {
                Some(node) => {
                    n = n + 1;
                    cur = &node.next;
                }
                None => {
                    return n;
                }
            }
        }
    }

    /// A reference to the first value, or `None` on an empty list.
    pub fn front(&self) -> (r: Option<&T>)
        ensures
            self@.len() == 0 ==> r is None,
            self@.len() > 0 ==> (r matches Some(v) && *v == self@[0]),
    {
        match &self.head {
            None => None,
            Some(node) => Some(&node.value),
        }
    }

    /// A reference to the last value, or `None` on an empty list; scans the
    /// whole chain, since no tail link is kept.
    pub fn back(&self) -> (r: Option<&T>)
        ensures
            self@.len() == 0 ==> r is None,
            self@.len() > 0 ==> (r matches Some(v) && *v == self@[self@.len() - 1]),
    {
        let mut node: &Node<T> = match &self.head {
            None => {
                return None;
            }
            Some(first) => first,
        };
        let ghost mut i: int = 0;
        loop
            invariant
                0 <= i < self@.len(),
                seq![node.value] + link_view(node.next) == self@.skip(i),
            decreases link_view(node.next).len(),
        {
            match &node.next {
                Some(next) => {
                    proof {
                        assert(self@.skip(i).drop_first() =~= self@.skip(i + 1));
                    }
                    node = next;
                    proof {
                        i = i + 1;
                    }
                }
                None => {
                    proof {
                        assert(self@.skip(i).len() == 1);
                        assert(self@[self@.len() - 1] == self@.skip(i)[0]);
                    }
                    return Some(&node.value);
                }
            }
        }
    }

    /// A read-only cursor over the chain, starting at the first cell.
    pub fn iter(&self) -> (it: Iter<T>)
        ensures
            it.remaining() == self@,
    {
        Iter { cur: &self.head }
    }

    /// An exclusive-mutable cursor over the chain, starting at the first
    /// cell.
    pub fn iter_mut(&mut self) -> (it: IterMut<T>)
        ensures
            it.remaining() == old(self)@,
    {
        IterMut {
            cur: match &mut self.head {
                Some(first) => Some(&mut **first),
                None => None,
            },
        }
    }

    /// A consuming cursor that drains the list front to back.
    pub fn into_iter(self) -> (it: IntoIter<T>)
        ensures
            it.remaining() == self@,
    {
        IntoIter { list: self }
    }

    /// True iff some cell's value equals `*value`, walking the chain in
    /// order; linear time.  Equality is the element type's `==`.
    pub fn contains(&self, value: &T) -> (r: bool) where T: PartialEq
        ensures
            T::obeys_eq_spec() ==> (r <==> exists|i: int|
                0 <= i < self@.len() && T::eq_spec(&self@[i], value)),
            self@.len() == 0 ==> !r,
    {
        let mut cur: &Option<Box<Node<T>>> = &self.head;
        let ghost mut k: int = 0;
        loop
            invariant
                0 <= k <= self@.len(),
                link_view(*cur) == self@.skip(k),
                T::obeys_eq_spec() ==> !(exists|i: int|
                    0 <= i < k && T::eq_spec(&self@[i], value)),
            decreases link_view(*cur).len(),
        {
            match cur {
                Some(node) => {
                    if node.value.eq(value) {
                        proof {
                            assert(self@[k] == self@.skip(k)[0]);
                        }
                        return true;
                    }
                    proof {
                        assert(self@.skip(k).drop_first() =~= self@.skip(k + 1));
                        assert(self@[k] == self@.skip(k)[0]);
                    }
                    cur = &node.next;
                    proof {
                        k = k + 1;
                    }
                }
                None => {
                    return false;
                }
            }
        }
    }
}

/// Element-wise equality of two value sequences of equal length, under
/// the element type's own equality.
pub open spec fn seq_elems_eq<T: PartialEq>(a: Seq<T>, b: Seq<T>) -> bool {
    a.len() == b.len() && forall|i: int| 0 <= i < a.len() ==> #[trigger] T::eq_spec(&a[i], &b[i])
}

/// Lexicographic comparison of two value sequences under the element
/// type's own ordering: the first unequal pair decides, and a sequence
/// that is a strict prefix of the other compares as lesser.
pub open spec fn seq_lex_cmp<T: PartialOrd>(a: Seq<T>, b: Seq<T>) -> Option<Ordering>
    decreases a.len() + b.len(),
{
    if a.len() == 0 && b.len() == 0 {
        Some(Ordering::Equal)
    } else if a.len() == 0 {
        Some(Ordering::Less)
    } else if b.len() == 0 {
        Some(Ordering::Greater)
    } else {
        match T::partial_cmp_spec(&a[0], &b[0]) {
            Some(Ordering::Equal) => seq_lex_cmp(a.drop_first(), b.drop_first()),
            c => c,
        }
    }
}

impl<T: PartialEq> PartialEq for SinglyLinkedList<T> {
    /// Two lists are equal iff their traversals produce pairwise-equal
    /// values of equal length.
    #[verifier::loop_isolation(false)]
    fn eq(&self, other: &Self) -> (r: bool) {
        let mut a: &Option<Box<Node<T>>> = &self.head;
        let mut b: &Option<Box<Node<T>>> = &other.head;
        let ghost mut i: int = 0;
        while a.is_some() && b.is_some()
            invariant
                0 <= i <= self@.len(),
                0 <= i <= other@.len(),
                link_view(*a) == self@.skip(i),
                link_view(*b) == other@.skip(i),
                T::obeys_eq_spec() ==> forall|j: int|
                    0 <= j < i ==> #[trigger] T::eq_spec(&self@[j], &other@[j]),
            decreases self@.len() - i,
        {
            match (a, b) {
                (Some(x), Some(y)) => {
                    if !x.value.eq(&y.value) {
                        proof {
                            assert(self@[i] == self@.skip(i)[0]);
                            assert(other@[i] == other@.skip(i)[0]);
                        }
                        return false;
                    }
                    proof {
                        assert(self@.skip(i).drop_first() =~= self@.skip(i + 1));
                        assert(other@.skip(i).drop_first() =~= other@.skip(i + 1));
                        assert(self@[i] == self@.skip(i)[0]);
                        assert(other@[i] == other@.skip(i)[0]);
                    }
                    a = &x.next;
                    b = &y.next;
                    proof {
                        i = i + 1;
                    }
                }
                _ => {}
            }
        }
        proof {
            lemma_link_view_is_some(*a);
            lemma_link_view_is_some(*b);
        }
        a.is_none() && b.is_none()
    }
}

impl<T: PartialEq> vstd::std_specs::cmp::PartialEqSpecImpl for SinglyLinkedList<T> {
    open spec fn obeys_eq_spec() -> bool {
        T::obeys_eq_spec()
    }

    open spec fn eq_spec(&self, other: &Self) -> bool {
        seq_elems_eq(self@, other@)
    }
}

impl<T: Eq> Eq for SinglyLinkedList<T> {
}

impl<T: PartialOrd> PartialOrd for SinglyLinkedList<T> {
    /// Lexicographic comparison over the two traversals, mirroring
    /// sequence comparison semantics.
    #[verifier::loop_isolation(false)]
    fn partial_cmp(&self, other: &Self) -> (r: Option<Ordering>) {
        let mut a: &Option<Box<Node<T>>> = &self.head;
        let mut b: &Option<Box<Node<T>>> = &other.head;
        let ghost mut i: int = 0;
        proof {
            assert(self@.skip(0) =~= self@);
            assert(other@.skip(0) =~= other@);
        }
        while a.is_some() && b.is_some()
            invariant
                0 <= i <= self@.len(),
                0 <= i <= other@.len(),
                link_view(*a) == self@.skip(i),
                link_view(*b) == other@.skip(i),
                T::obeys_partial_cmp_spec() ==> seq_lex_cmp(self@, other@) == seq_lex_cmp(
                    self@.skip(i),
                    other@.skip(i),
                ),
            decreases self@.len() - i,
        {
            match (a, b) {
                (Some(x), Some(y)) => {
                    proof {
                        assert(self@[i] == self@.skip(i)[0]);
                        assert(other@[i] == other@.skip(i)[0]);
                    }
                    match x.value.partial_cmp(&y.value) {
                        Some(Ordering::Equal) => {
                            proof {
                                assert(self@.skip(i).drop_first() =~= self@.skip(i + 1));
                                assert(other@.skip(i).drop_first() =~= other@.skip(i + 1));
                            }
                            a = &x.next;
                            b = &y.next;
                            proof {
                                i = i + 1;
                            }
                        }
                        c => {
                            return c;
                        }
                    }
                }
                _ => {}
            }
        }
        proof {
            lemma_link_view_is_some(*a);
            lemma_link_view_is_some(*b);
        }
        if a.is_some() {
            Some(Ordering::Greater)
        } else if b.is_some() {
            Some(Ordering::Less)
        } else {
            Some(Ordering::Equal)
        }
    }
}

impl<T: PartialOrd> vstd::std_specs::cmp::PartialOrdSpecImpl for SinglyLinkedList<T> {
    open spec fn obeys_partial_cmp_spec() -> bool {
        T::obeys_partial_cmp_spec()
    }

    open spec fn partial_cmp_spec(&self, other: &Self) -> Option<Ordering> {
        seq_lex_cmp(self@, other@)
    }
}

impl<T: Clone> Clone for SinglyLinkedList<T> {
    /// Builds an independent chain whose values are element-wise clones
    /// of `self`'s values, in the same order.  For element types whose
    /// `clone` returns a value equal to its input, the clone's value
    /// sequence equals the original's; mutating either list afterwards
    /// never affects the other, since each owns its whole chain.
    #[verifier::loop_isolation(false)]
    fn clone(&self) -> (res: Self)
        ensures
            res@.len() == self@.len(),
            forall|i: int| 0 <= i < self@.len() ==> cloned::<T>(self@[i], #[trigger] res@[i]),
    {
        let mut src: &Option<Box<Node<T>>> = &self.head;
        let mut out: Option<Box<Node<T>>> = None;
        let ghost mut pre: Seq<T> = Seq::empty();
        let ghost mut i: int = 0;
        let mut cur: &mut Option<Box<Node<T>>> = &mut out;
        while src.is_some()
            invariant
                0 <= i <= self@.len(),
                link_view(*src) == self@.skip(i),
                *cur is None,
                pre.len() == i,
                forall|j: int| 0 <= j < i ==> cloned::<T>(self@[j], #[trigger] pre[j]),
                link_view(after_borrow(out)) == pre + link_view(*final(cur)),
            decreases self@.len() - i,
        {
            match src {
                Some(node) => {
                    proof {
                        assert(self@[i] == self@.skip(i)[0]);
                        assert(self@.skip(i).drop_first() =~= self@.skip(i + 1));
                    }
                    let value = node.value.clone();
                    proof {
                        pre = pre.push(value);
                    }
                    *cur = Some(Box::new(Node { value, next: None }));
                    match cur {
                        Some(fresh) => {
                            cur = &mut fresh.next;
                        }
                        None => {}
                    }
                    src = &node.next;
                    proof {
                        i = i + 1;
                        assert(pre.drop_last() + (seq![pre.last()] + link_view(*final(cur))) =~= pre
                            + link_view(*final(cur)));
                    }
                }
                None => {}
            }
        }
        proof {
            assert(link_view(after_borrow(out)) == pre + Seq::<T>::empty());
            assert(pre + Seq::<T>::empty() =~= pre);
        }
        SinglyLinkedList { head: out }
    }
}

impl<T> Default for SinglyLinkedList<T> {
    /// The default list is the empty list.
    fn default() -> (r: Self)
        ensures
            r@ == Seq::<T>::empty(),
    {
        SinglyLinkedList::new()
    }
}

impl<T> SinglyLinkedList<T> {
    /// Appends every value of `elems` in order, each through
    /// [`Self::push_back`], so the source order is preserved.
    pub fn extend_from_vec(&mut self, elems: Vec<T>)
        ensures
            final(self)@ == old(self)@ + elems@,
    {
        let mut elems = elems;
        let ghost all: Seq<T> = elems@;
        let ghost mut i: int = 0;
        while !elems.is_empty()
            invariant
                0 <= i <= all.len(),
                elems@ == all.skip(i),
                self@ == old(self)@ + all.take(i),
            decreases all.len() - i,
        {
            let value = elems.remove(0);
            proof {
                assert(all.skip(i)[0] == all[i]);
                assert(all.skip(i).remove(0) =~= all.skip(i + 1));
            }
            self.push_back(value);
            proof {
                i = i + 1;
                assert((old(self)@ + all.take(i - 1)).push(all[i - 1]) =~= old(self)@ + all.take(
                    i,
                ));
            }
        }
        proof {
            assert(all.take(i) =~= all);
        }
    }

    /// Builds a list from the values of `elems`, preserving their order.
    pub fn from_vec(elems: Vec<T>) -> (r: Self)
        ensures
            r@ == elems@,
    {
        let mut list = SinglyLinkedList::new();
        list.extend_from_vec(elems);
        proof {
            assert(Seq::<T>::empty() + elems@ =~= elems@);
        }
        list
    }

    /// Appends a copy of every value of `elems` in order, each through
    /// [`Self::push_back`].
    pub fn extend_copied(&mut self, elems: &Vec<T>) where T: Copy
        ensures
            final(self)@ == old(self)@ + elems@,
    {
        let ghost all: Seq<T> = elems@;
        let mut k: usize = 0;
        while k < elems.len()
            invariant
                0 <= k <= all.len(),
                elems@ == all,
                self@ == old(self)@ + all.take(k as int),
            decreases all.len() - k,
        {
            let value = elems[k];
            self.push_back(value);
            k = k + 1;
            proof {
                assert((old(self)@ + all.take(k - 1)).push(all[k - 1]) =~= old(self)@ + all.take(
                    k as int,
                ));
            }
        }
        proof {
            assert(all.take(all.len() as int) =~= all);
        }
    }
}

/// The sequence that repeated first-value removal produces: what a list
/// with value sequence `s` hands out when it is drained by `pop_front`,
/// one removed first value at a time, in order of removal.
pub open spec fn drained<T>(s: Seq<T>) -> Seq<T>
    decreases s.len(),
{
    if s.len() == 0 {
        Seq::empty()
    } else {
        seq![s[0]] + drained(s.drop_first())
    }
}

/// Draining a list built from a sequence reproduces that sequence.
///
/// Building a list from `s` gives a list whose value sequence is `s`
/// (`from_vec`), and each `pop_front` removes and returns exactly the
/// first remaining value, so the removed values read in order are
/// `drained(s)` — which this law shows is `s` itself, in the original
/// order.
pub proof fn lemma_drain_reproduces<T>(s: Seq<T>)
    ensures
        drained(s) == s,
    decreases s.len(),
{
    if s.len() > 0 {
        lemma_drain_reproduces(s.drop_first());
        assert(seq![s[0]] + s.drop_first() =~= s);
    }
}

/// An empty list is equal exactly to the lists that are also empty: an
/// empty value sequence is element-wise equal to another sequence if
/// and only if that sequence is empty too.
pub proof fn lemma_empty_equals_only_empty<T: PartialEq>(a: Seq<T>, b: Seq<T>)
    requires
        a.len() == 0,
    ensures
        seq_elems_eq(a, b) <==> b.len() == 0,
{
}

/// In a total order, every value compares equal to itself.
proof fn lemma_cmp_self_equal<T: Ord>(x: T)
    requires
        obeys_cmp::<T>(),
    ensures
        x.partial_cmp_spec(&x) == Some(Ordering::Equal),
{
    reveal(obeys_partial_cmp_spec_properties);
    reveal(obeys_cmp_partial_ord);
    reveal(obeys_cmp_ord);
    assert(x.partial_cmp_spec(&x) == Some(Ordering::Less) <==> x.partial_cmp_spec(&x) == Some(
        Ordering::Greater,
    ));
    assert(x.partial_cmp_spec(&x) is Some);
}

/// A list that is a strict prefix of another compares as lesser under
/// the lexicographic ordering, as sequence comparison demands.
pub proof fn lemma_strict_prefix_lex_lesser<T: Ord>(a: Seq<T>, b: Seq<T>)
    requires
        obeys_cmp::<T>(),
        a.len() < b.len(),
        a == b.take(a.len() as int),
    ensures
        seq_lex_cmp(a, b) == Some(Ordering::Less),
    decreases a.len(),
{
    if a.len() == 0 {
        assert(seq_lex_cmp(a, b) == Some(Ordering::Less));
    } else {
        assert(a[0] == b.take(a.len() as int)[0]);
        lemma_cmp_self_equal(a[0]);
        assert(a.drop_first() =~= b.drop_first().take(a.len() - 1));
        lemma_strict_prefix_lex_lesser(a.drop_first(), b.drop_first());
    }
}

/// The lexicographic ordering agrees with list equality: in a total
/// order, two value sequences compare as `Equal` exactly when they are
/// element-wise equal with equal length.
pub proof fn lemma_lex_equal_iff_elems_eq<T: Ord>(a: Seq<T>, b: Seq<T>)
    requires
        obeys_cmp::<T>(),
    ensures
        seq_lex_cmp(a, b) == Some(Ordering::Equal) <==> seq_elems_eq(a, b),
    decreases a.len() + b.len(),
{
    reveal(obeys_partial_cmp_spec_properties);
    reveal(obeys_cmp_partial_ord);
    reveal(obeys_cmp_ord);
    if a.len() > 0 && b.len() > 0 {
        lemma_lex_equal_iff_elems_eq(a.drop_first(), b.drop_first());
        if a[0].partial_cmp_spec(&b[0]) == Some(Ordering::Equal) {
            assert(a[0].eq_spec(&b[0]));
            if seq_elems_eq(a.drop_first(), b.drop_first()) {
                assert forall|i: int| 0 <= i < a.len() implies #[trigger] T::eq_spec(
                    &a[i],
                    &b[i],
                ) by {
                    if i > 0 {
                        assert(T::eq_spec(&a.drop_first()[i - 1], &b.drop_first()[i - 1]));
                    }
                }
            }
            if seq_elems_eq(a, b) {
                assert forall|i: int|
                    0 <= i < a.drop_first().len() implies #[trigger] T::eq_spec(
                    &a.drop_first()[i],
                    &b.drop_first()[i],
                ) by {
                    assert(T::eq_spec(&a[i + 1], &b[i + 1]));
                }
            }
        } else {
            assert(a[0].partial_cmp_spec(&b[0]) is Some);
            assert(seq_lex_cmp(a, b) != Some(Ordering::Equal));
            assert(!T::eq_spec(&a[0], &b[0]));
        }
    }
}

/// A read-only forward cursor over a list's chain.
///
/// The cursor is fused: once it reports exhaustion it reports exhaustion
/// on every later step.  While it lives it borrows the list, so the chain
/// cannot be structurally changed under it.
#[derive(Clone)]
pub struct Iter<'a, T> {
    cur: &'a Option<Box<Node<T>>>,
}

impl<'a, T> Iter<'a, T> {
    /// The values the cursor has not yet produced, in chain order.
    pub closed spec fn remaining(&self) -> Seq<T> {
        link_view(*self.cur)
    }

    /// Produces a reference to the next value, or `None` once the chain is
    /// exhausted.
    pub fn next(&mut self) -> (r: Option<&'a T>)
        ensures
            old(self).remaining().len() == 0 ==> r is None
                && final(self).remaining() == old(self).remaining(),
            old(self).remaining().len() > 0 ==> (r matches Some(v)
                && *v == old(self).remaining()[0]
                && final(self).remaining() == old(self).remaining().drop_first()),
    {
        match self.cur {
            None => None,
            Some(node) => {
                proof {
                    assert((seq![node.value] + link_view(node.next)).drop_first() =~= link_view(
                        node.next,
                    ));
                }
                self.cur = &node.next;
                Some(&node.value)
            }
        }
    }
}

/// An exclusive-mutable forward cursor over a list's chain.
///
/// It produces an exclusive reference to each value in turn.  The borrow
/// rules guarantee that the produced references never alias one another
/// or overlap a read cursor: each points into its own cell, and the list
/// stays mutably borrowed while the cursor lives.  The cursor is fused:
/// once exhausted it stays exhausted.
pub struct IterMut<'a, T> {
    cur: Option<&'a mut Node<T>>,
}

impl<'a, T> IterMut<'a, T> {
    /// The values the cursor has not yet produced, in chain order.
    pub closed spec fn remaining(&self) -> Seq<T> {
        match self.cur {
            None => Seq::empty(),
            Some(node) => seq![node.value] + link_view(node.next),
        }
    }

    /// Produces an exclusive reference to the next value, or `None` once
    /// the chain is exhausted.
    ///
    /// The values a caller writes through the produced references become
    /// the list's values at those positions once the cursor's borrow ends.
    pub fn next(&mut self) -> (r: Option<&'a mut T>)
        ensures
            old(self).remaining().len() == 0 ==> r is None
                && final(self).remaining() == old(self).remaining(),
            old(self).remaining().len() > 0 ==> (r matches Some(p)
                && *p == old(self).remaining()[0]
                && final(self).remaining() == old(self).remaining().drop_first()),
    {
        match self.cur.take() {
            None => None,
            Some(node) => {
                proof {
                    assert((seq![node.value] + link_view(node.next)).drop_first() =~= link_view(
                        node.next,
                    ));
                }
                self.cur = match &mut node.next {
                    Some(child) => Some(&mut **child),
                    None => None,
                };
                Some(&mut node.value)
            }
        }
    }
}

/// A consuming forward cursor: it owns the list it walks and drains it
/// one first cell at a time, so it produces exactly the list's values in
/// chain order and is fused once the list is empty.
#[derive(Clone)]
pub struct IntoIter<T> {
    list: SinglyLinkedList<T>,
}

impl<T> IntoIter<T> {
    /// The values the cursor has not yet produced, in chain order.
    pub closed spec fn remaining(&self) -> Seq<T> {
        self.list@
    }

    /// Removes and produces the next value, or `None` once the owned list
    /// is drained.
    pub fn next(&mut self) -> (r: Option<T>)
        ensures
            old(self).remaining().len() == 0 ==> r is None
                && final(self).remaining() == old(self).remaining(),
            old(self).remaining().len() > 0 ==> (r == Some(old(self).remaining()[0])
                && final(self).remaining() == old(self).remaining().drop_first()),
    {
        self.list.pop_front()
    }
}

} // verus!
