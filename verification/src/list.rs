//! A singly linked sequence with stack discipline.
//!
//! A [`List`] owns a chain of nodes in which every node owns the one behind it.
//! Its view is the sequence of its elements from the head to the tail, so the
//! element pushed last is at index 0.
use vstd::prelude::*;

verus! {

struct Node<T> {
    elem: T,
    next: List<T>,
}

/// The container: an owned chain of nodes, newest element first.
pub struct List<T> {
    head: Option<Box<Node<T>>>,
}

/// Consuming traversal: owns the list and hands its elements out head first.
pub struct IntoIter<T>(List<T>);

/// Read-only traversal: a position in a borrowed list.
pub struct Iter<'a, T> {
    rest: &'a List<T>,
}

/// Mutable traversal: exclusive access to what is left of a borrowed list.
///
/// `rest` is the part of the list from the current position to the tail, or
/// `None` once the traversal has been advanced past the tail. The field is
/// public so that a caller's proof can follow the borrow to its end: when the
/// traversal is dropped, the part it still holds stays as it is.
pub struct IterMut<'a, T> {
    pub rest: Option<&'a mut List<T>>,
}

/// `s` with `elem` put in front.
pub open spec fn pushed<T>(s: Seq<T>, elem: T) -> Seq<T> {
    seq![elem] + s
}

/// The element in front of `s`, if there is one.
pub open spec fn front<T>(s: Seq<T>) -> Option<T> {
    if s.len() == 0 {
        None
    } else {
        Some(s[0])
    }
}

/// `s` without the element in front; the empty sequence stays empty.
pub open spec fn popped<T>(s: Seq<T>) -> Seq<T> {
    if s.len() == 0 {
        s
    } else {
        s.skip(1)
    }
}

/// What an optional reference refers to.
pub open spec fn referent<T>(item: Option<&T>) -> Option<T> {
    match item {
        None => None,
        Some(r) => Some(*r),
    }
}

/// The place of the first element of `s` that satisfies `p`, or the length
/// of `s` if none does.
pub open spec fn first_where<T>(s: Seq<T>, p: spec_fn(T) -> bool) -> int
    decreases s.len(),
{
    if s.len() == 0 || p(s[0]) {
        0
    } else {
        1 + first_where(s.skip(1), p)
    }
}

/// `s` after each element of `elems` was put in front of it, the first one
/// first.
pub open spec fn pushed_all<T>(s: Seq<T>, elems: Seq<T>) -> Seq<T>
    decreases elems.len(),
{
    if elems.len() == 0 {
        s
    } else {
        pushed_all(pushed(s, elems[0]), elems.skip(1))
    }
}

/// What `n` pops in a row return, starting from `s`.
pub open spec fn pops<T>(s: Seq<T>, n: nat) -> Seq<Option<T>>
    decreases n,
{
    if n == 0 {
        Seq::empty()
    } else {
        seq![front(s)] + pops(popped(s), (n - 1) as nat)
    }
}

/// What is left of `s` after `n` pops in a row.
pub open spec fn popped_n<T>(s: Seq<T>, n: nat) -> Seq<T>
    decreases n,
{
    if n == 0 {
        s
    } else {
        popped_n(popped(s), (n - 1) as nat)
    }
}

/// `k` is where a scan of `s` with the predicate `f` stops: `f` answered
/// `false` on every element before `k`, and `k` is either the end of `s` or
/// an element on which `f` answered `true`.
pub open spec fn scan_stops_at<T, F: Fn(&T) -> bool>(f: F, s: Seq<T>, k: int) -> bool {
    &&& 0 <= k <= s.len()
    &&& forall|j: int| 0 <= j < k ==> call_ensures(f, (&#[trigger] s[j],), false)
    &&& k < s.len() ==> call_ensures(f, (&s[k],), true)
}

/// `f` may be called on every element of `s`.
pub open spec fn callable_on<T, F: Fn(&T) -> bool>(f: F, s: Seq<T>) -> bool {
    forall|j: int| 0 <= j < s.len() ==> call_requires(f, (&#[trigger] s[j],))
}

impl<T> List<T> {
    spec fn items(self) -> Seq<T>
        decreases self,
    {
        match self.head {
            None => Seq::empty(),
            Some(node) => pushed(node.next.items(), node.elem),
        }
    }

    proof fn lemma_items_of_node(self)
        ensures
            self.head is None ==> self.items() == Seq::<T>::empty(),
            self.head matches Some(node) ==> {
                &&& self.items().len() > 0
                &&& self.items()[0] == node.elem
                &&& self.items().skip(1) == node.next.items()
            },
    {
        match self.head {
            None => {},
            Some(node) => {
                assert(pushed(node.next.items(), node.elem).skip(1) =~= node.next.items());
            },
        }
    }
}

impl<T> View for List<T> {
    type V = Seq<T>;

    closed spec fn view(&self) -> Seq<T> {
        self.items()
    }
}

impl<T> List<T> {
    /// An empty list.
    pub fn new() -> (list: Self)
        ensures
            list@ == Seq::<T>::empty(),
    {
        List { head: None }
    }

    /// Puts `elem` in front of the list.
    pub fn push(&mut self, elem: T)
        ensures
            final(self)@ == pushed(old(self)@, elem),
    {
        let new_node = Box::new(Node { elem, next: List { head: self.head.take() } });
        self.head = Some(new_node);
    }

    /// Takes the element in front off the list; `None` on an empty list.
    pub fn pop(&mut self) -> (item: Option<T>)
        ensures
            item == front(old(self)@),
            final(self)@ == popped(old(self)@),
    {
        proof {
            self.lemma_items_of_node();
        }
        match self.head.take() {
            None => None,
            Some(node) => {
                let mut node = *node;
                self.head = node.next.head.take();
                Some(node.elem)
            },
        }
    }

    /// The element in front, left where it is.
    pub fn peek(&self) -> (item: Option<&T>)
        ensures
            referent(item) == front(self@),
    {
        proof {
            self.lemma_items_of_node();
        }
        match &self.head {
            None => None,
            Some(node) => Some(&node.elem),
        }
    }

    /// Exclusive access to the element in front. What the caller leaves in it
    /// is what the list holds in front afterwards; nothing else changes.
    pub fn peek_mut(&mut self) -> (item: Option<&mut T>)
        ensures
            old(self)@.len() == 0 ==> item is None && final(self)@ == old(self)@,
            old(self)@.len() > 0 ==> item is Some && *item->0 == old(self)@[0] && final(self)@
                == old(self)@.update(0, *final(item->0)),
    {
        match &mut self.head {
            None => None,
            Some(node) => Some(&mut node.elem),
        }
    }

    /// Turns the list into a traversal that consumes it.
    pub fn into_iter(self) -> (it: IntoIter<T>)
        ensures
            it@ == self@,
    {
        IntoIter(self)
    }

    /// A read-only traversal that starts at the head.
    pub fn iter(&self) -> (it: Iter<'_, T>)
        ensures
            it@ == self@,
    {
        Iter { rest: self }
    }

    /// A mutable traversal that starts at the head. The list ends up as the
    /// traversal, and the references it handed out, leave it.
    pub fn iter_mut(&mut self) -> (it: IterMut<'_, T>)
        ensures
            it@ == old(self)@,
            it.rest is Some,
            final(self)@ == final(it.rest->0)@,
    {
        IterMut { rest: Some(self) }
    }

    /// A read-only traversal positioned at the first element on which
    /// `comparator` answers `true`, or past the tail if it never does.
    pub fn seek_f<F: Fn(&T) -> bool>(&self, comparator: F) -> (it: Iter<'_, T>)
        requires
            callable_on(comparator, self@),
        ensures
            it@.len() <= self@.len(),
            it@ == self@.skip(self@.len() - it@.len()),
            scan_stops_at(comparator, self@, self@.len() - it@.len()),
    {
        let mut it = self.iter();
        loop
            invariant
                callable_on(comparator, self@),
                it@.len() <= self@.len(),
                it@ == self@.skip(self@.len() - it@.len()),
                forall|j: int|
                    0 <= j < self@.len() - it@.len() ==> call_ensures(
                        comparator,
                        (&#[trigger] self@[j],),
                        false,
                    ),
            ensures
                scan_stops_at(comparator, self@, self@.len() - it@.len()),
            decreases it@.len(),
        {
            let ghost k = self@.len() - it@.len();
            match it.peek() {
                None => {
                    break;
                },
                Some(value) => {
                    assert(it@[0] == self@[k]);
                    if comparator(value) {
                        break;
                    }
                },
            }
            it.next();
            assert(it@ =~= self@.skip(k + 1));
        }
        it
    }

    /// A mutable traversal positioned at the first element on which
    /// `comparator` answers `true`, or past the tail if it never does. The
    /// elements before that position stay as they are.
    pub fn seek_mut_f<F: Fn(&T) -> bool>(&mut self, comparator: F) -> (it: IterMut<'_, T>)
        requires
            callable_on(comparator, old(self)@),
        ensures
            it@.len() <= old(self)@.len(),
            it@ == old(self)@.skip(old(self)@.len() - it@.len()),
            scan_stops_at(comparator, old(self)@, old(self)@.len() - it@.len()),
            it.rest is None ==> final(self)@ == old(self)@,
            it.rest is Some ==> final(self)@ == old(self)@.take(old(self)@.len() - it@.len())
                + final(it.rest->0)@,
    {
        let ghost whole = self@;
        let mut it = self.iter_mut();
        loop
            invariant
                callable_on(comparator, whole),
                it@.len() <= whole.len(),
                it@ == whole.skip(whole.len() - it@.len()),
                forall|j: int|
                    0 <= j < whole.len() - it@.len() ==> call_ensures(
                        comparator,
                        (&#[trigger] whole[j],),
                        false,
                    ),
                it.rest is None ==> after_borrow(*self)@ == whole,
                it.rest is Some ==> after_borrow(*self)@ == whole.take(whole.len() - it@.len())
                    + final(it.rest->0)@,
            ensures
                scan_stops_at(comparator, whole, whole.len() - it@.len()),
            decreases it@.len(),
        {
            let ghost k = whole.len() - it@.len();
            let found = match it.peek_mut() {
                None => true,
                Some(value) => {
                    assert(*value == whole[k]);
                    comparator(&*value)
                },
            };
            if found {
                break;
            }
            it.next();
            proof {
                assert(it@ =~= whole.skip(k + 1));
                assert(whole.take(k + 1) =~= whole.take(k) + seq![whole[k]]);
            }
        }
        it
    }

    /// Takes the first element on which `comparator` answers `true` out of the
    /// list and returns it; the other elements keep their places. `None`, and
    /// an unchanged list, if it never does.
    pub fn remove_f<F: Fn(&T) -> bool>(&mut self, comparator: F) -> (item: Option<T>)
        requires
            callable_on(comparator, old(self)@),
        ensures
            item is None ==> final(self)@ == old(self)@ && scan_stops_at(
                comparator,
                old(self)@,
                old(self)@.len() as int,
            ),
            item matches Some(found) ==> exists|k: int|
                {
                    &&& 0 <= k < old(self)@.len()
                    &&& #[trigger] scan_stops_at(comparator, old(self)@, k)
                    &&& found == old(self)@[k]
                    &&& final(self)@ == old(self)@.remove(k)
                },
    {
        let ghost whole = self@;
        let mut skipped: List<T> = List::new();
        let mut found: Option<T> = None;
        loop
            invariant_except_break
                found is None,
                skipped@.len() + self@.len() == whole.len(),
                self@ == whole.skip(skipped@.len() as int),
            invariant
                callable_on(comparator, whole),
                skipped@ == whole.take(skipped@.len() as int).reverse(),
                forall|j: int|
                    0 <= j < skipped@.len() ==> call_ensures(
                        comparator,
                        (&#[trigger] whole[j],),
                        false,
                    ),
            ensures
                skipped@.len() <= whole.len(),
                skipped@ == whole.take(skipped@.len() as int).reverse(),
                scan_stops_at(comparator, whole, skipped@.len() as int),
                found is None ==> skipped@.len() == whole.len() && self@.len() == 0,
                found matches Some(x) ==> skipped@.len() < whole.len() && x == whole[skipped@.len() as int]
                    && self@ == whole.skip(skipped@.len() as int + 1),
            decreases self@.len(),
        {
            let ghost k = skipped@.len() as int;
            match self.pop() {
                None => {
                    break;
                },
                Some(value) => {
                    assert(value == whole[k]);
                    assert(self@ =~= whole.skip(k + 1));
                    if comparator(&value) {
                        found = Some(value);
                        break;
                    }
                    skipped.push(value);
                    assert(skipped@ =~= whole.take(k + 1).reverse());
                },
            }
        }
        let ghost k = skipped@.len() as int;
        let ghost tail = self@;
        loop
            invariant
                skipped@.len() <= k <= whole.len(),
                skipped@ == whole.take(skipped@.len() as int).reverse(),
                self@ == whole.subrange(skipped@.len() as int, k) + tail,
            ensures
                self@ == whole.take(k) + tail,
            decreases skipped@.len(),
        {
            let ghost n = skipped@.len() as int;
            match skipped.pop() {
                None => {
                    assert(whole.subrange(0, k) =~= whole.take(k));
                    break;
                },
                Some(value) => {
                    assert(value == whole[n - 1]);
                    assert(skipped@ =~= whole.take(n - 1).reverse());
                    self.push(value);
                    assert(self@ =~= whole.subrange(n - 1, k) + tail);
                },
            }
        }
        proof {
            if found is None {
                assert(self@ =~= whole);
            } else {
                assert(self@ =~= whole.remove(k));
            }
        }
        found
    }

    fn clear(&mut self)
        ensures
            final(self)@ == Seq::<T>::empty(),
        opens_invariants none
        no_unwind
    {
        let mut link: Option<Box<Node<T>>> = None;
        core::mem::swap(&mut link, &mut self.head);
        loop
            invariant
                self.head is None,
            decreases link,
        {
            match link {
                None => {
                    break;
                },
                Some(mut node) => {
                    let mut next: Option<Box<Node<T>>> = None;
                    core::mem::swap(&mut next, &mut node.next.head);
                    link = next;
                },
            }
        }
    }
}

impl<T: PartialEq> List<T> {
    /// A read-only traversal positioned at the first element that `v` equals,
    /// or past the tail if it equals none.
    pub fn seek(&self, v: T) -> (it: Iter<'_, T>)
        ensures
            it@.len() <= self@.len(),
            it@ == self@.skip(self@.len() - it@.len()),
            forall|j: int|
                0 <= j < self@.len() - it@.len() ==> call_ensures(
                    T::eq,
                    (&v, &#[trigger] self@[j]),
                    false,
                ),
            it@.len() > 0 ==> call_ensures(T::eq, (&v, &it@[0]), true),
    {
        let equals_v = |value: &T| -> (same: bool)
            ensures
                call_ensures(T::eq, (&v, value), same),
        {
            v.eq(value)
        };
        let it = self.seek_f(equals_v);
        proof {
            let k = self@.len() - it@.len();
            assert(it@.len() > 0 ==> it@[0] == self@[k]);
        }
        it
    }

    /// A mutable traversal positioned at the first element that `v` equals, or
    /// past the tail if it equals none. The elements before that position stay
    /// as they are.
    pub fn seek_mut(&mut self, v: T) -> (it: IterMut<'_, T>)
        ensures
            it@.len() <= old(self)@.len(),
            it@ == old(self)@.skip(old(self)@.len() - it@.len()),
            forall|j: int|
                0 <= j < old(self)@.len() - it@.len() ==> call_ensures(
                    T::eq,
                    (&v, &#[trigger] old(self)@[j]),
                    false,
                ),
            it@.len() > 0 ==> call_ensures(T::eq, (&v, &it@[0]), true),
            it.rest is None ==> final(self)@ == old(self)@,
            it.rest is Some ==> final(self)@ == old(self)@.take(old(self)@.len() - it@.len())
                + final(it.rest->0)@,
    {
        let ghost whole = self@;
        let equals_v = |value: &T| -> (same: bool)
            ensures
                call_ensures(T::eq, (&v, value), same),
        {
            v.eq(value)
        };
        let it = self.seek_mut_f(equals_v);
        proof {
            let k = whole.len() - it@.len();
            assert(it@.len() > 0 ==> it@[0] == whole[k]);
        }
        it
    }
}

impl<T> Drop for List<T> {
    /// Unlinks the nodes one at a time, so that releasing a long chain does
    /// not nest one call per node.
    fn drop(&mut self)
        opens_invariants none
        no_unwind
    {
        self.clear();
    }
}

impl<T> View for IntoIter<T> {
    type V = Seq<T>;

    closed spec fn view(&self) -> Seq<T> {
        self.0@
    }
}

impl<T> IntoIter<T> {
    /// Takes the next element out of the list; `None` once it is used up.
    pub fn next(&mut self) -> (item: Option<T>)
        ensures
            item == front(old(self)@),
            final(self)@ == popped(old(self)@),
    {
        self.0.pop()
    }
}

impl<'a, T> View for Iter<'a, T> {
    type V = Seq<T>;

    closed spec fn view(&self) -> Seq<T> {
        self.rest@
    }
}

impl<'a, T> Iter<'a, T> {
    /// The element at the current position, with a step past it; `None`, and
    /// no step, past the tail.
    pub fn next(&mut self) -> (item: Option<&'a T>)
        ensures
            referent(item) == front(old(self)@),
            final(self)@ == popped(old(self)@),
    {
        proof {
            self.rest.lemma_items_of_node();
        }
        match &self.rest.head {
            None => None,
            Some(node) => {
                self.rest = &node.next;
                Some(&node.elem)
            },
        }
    }

    /// The element at the current position, without a step.
    pub fn peek(&self) -> (item: Option<&T>)
        ensures
            referent(item) == front(self@),
    {
        self.rest.peek()
    }
}

impl<'a, T> IterMut<'a, T> {
    /// The elements from the current position to the tail, as they are now.
    pub open spec fn view(&self) -> Seq<T> {
        match self.rest {
            None => Seq::empty(),
            Some(list) => list@,
        }
    }

    /// Exclusive access to the element at the current position, with a step
    /// past it. The part of the list that the traversal held ends up as that
    /// element, as the caller leaves it, followed by what the traversal holds
    /// from now on. Past the tail the answer is `None`, and the traversal lets
    /// go of the list.
    pub fn next(&mut self) -> (item: Option<&'a mut T>)
        ensures
            old(self)@.len() == 0 ==> {
                &&& item is None
                &&& final(self).rest is None
                &&& old(self).rest is Some ==> final(old(self).rest->0)@ == Seq::<T>::empty()
            },
            old(self)@.len() > 0 ==> {
                &&& item is Some
                &&& *item->0 == old(self)@[0]
                &&& final(self).rest is Some
                &&& final(self)@ == old(self)@.skip(1)
                &&& final(old(self).rest->0)@ == pushed(
                    final(final(self).rest->0)@,
                    *final(item->0),
                )
            },
    {
        match self.rest.take() {
            None => None,
            Some(list) => {
                proof {
                    list.lemma_items_of_node();
                }
                match &mut list.head {
                    None => None,
                    Some(node) => {
                        self.rest = Some(&mut node.next);
                        Some(&mut node.elem)
                    },
                }
            },
        }
    }

    /// Exclusive access to the element at the current position, without a
    /// step. What the caller leaves in it is what stands at that position
    /// afterwards.
    pub fn peek_mut(&mut self) -> (item: Option<&mut T>)
        ensures
            old(self)@.len() == 0 ==> item is None && final(self)@ == old(self)@,
            old(self)@.len() > 0 ==> item is Some && *item->0 == old(self)@[0] && final(self)@
                == old(self)@.update(0, *final(item->0)),
            final(self).rest is Some <==> old(self).rest is Some,
            old(self).rest is Some ==> final(final(self).rest->0)@ == final(old(self).rest->0)@,
    {
        match &mut self.rest {
            None => None,
            Some(list) => list.peek_mut(),
        }
    }
}

/// `first_where` is the least place that satisfies the predicate: no element
/// before it does, and the element at it does unless it is the length.
pub proof fn lemma_first_where<T>(s: Seq<T>, p: spec_fn(T) -> bool)
    ensures
        0 <= first_where(s, p) <= s.len(),
        forall|j: int| 0 <= j < first_where(s, p) ==> !p(#[trigger] s[j]),
        first_where(s, p) < s.len() ==> p(s[first_where(s, p)]),
    decreases s.len(),
{
    if s.len() == 0 || p(s[0]) {
    } else {
        let t = s.skip(1);
        lemma_first_where(t, p);
        let k = first_where(s, p);
        assert forall|j: int| 0 <= j < k implies !p(#[trigger] s[j]) by {
            if j > 0 {
                assert(s[j] == t[j - 1]);
            }
        }
        if k < s.len() {
            assert(s[k] == t[k - 1]);
        }
    }
}

/// A place before which nothing satisfies the predicate, and which is the
/// length or satisfies it, is `first_where`.
pub proof fn lemma_first_where_is<T>(s: Seq<T>, p: spec_fn(T) -> bool, k: int)
    requires
        0 <= k <= s.len(),
        forall|j: int| 0 <= j < k ==> !p(#[trigger] s[j]),
        k < s.len() ==> p(s[k]),
    ensures
        first_where(s, p) == k,
{
    lemma_first_where(s, p);
    let w = first_where(s, p);
    if w < k {
        assert(!p(s[w]));
    } else if k < w {
        assert(!p(s[k]));
    }
}

/// Where a scan with an exec predicate stops, if that predicate computes `p`.
pub proof fn lemma_scan_is_first_where<T, F: Fn(&T) -> bool>(
    f: F,
    s: Seq<T>,
    k: int,
    p: spec_fn(T) -> bool,
)
    requires
        scan_stops_at(f, s, k),
        forall|x: T, answer: bool| call_ensures(f, (&x,), answer) ==> answer == p(x),
    ensures
        k == first_where(s, p),
{
    assert forall|j: int| 0 <= j < k implies !p(#[trigger] s[j]) by {
        assert(call_ensures(f, (&s[j],), false));
    }
    lemma_first_where_is(s, p, k);
}

/// Predicates that agree on every element find the same place.
pub proof fn lemma_first_where_same<A>(s: Seq<A>, p: spec_fn(A) -> bool, q: spec_fn(A) -> bool)
    requires
        forall|x: A| #[trigger] p(x) == q(x),
    ensures
        first_where(s, p) == first_where(s, q),
    decreases s.len(),
{
    if s.len() > 0 && !p(s[0]) {
        lemma_first_where_same(s.skip(1), p, q);
    }
}

/// `first_where` on the images of the elements under `image` is `first_where`
/// on the elements, with the predicate taken through `image`.
pub proof fn lemma_first_where_of_images<A, B>(
    s: Seq<A>,
    image: spec_fn(A) -> B,
    p: spec_fn(B) -> bool,
)
    ensures
        first_where(s.map_values(image), p) == first_where(s, |x: A| p(image(x))),
    decreases s.len(),
{
    let q = |x: A| p(image(x));
    if s.len() == 0 || q(s[0]) {
    } else {
        lemma_first_where_of_images(s.skip(1), image, p);
        assert(s.skip(1).map_values(image) =~= s.map_values(image).skip(1));
    }
}

/// Where a scan with an exec predicate stops, if that predicate computes `p`
/// of the image of its argument.
pub proof fn lemma_scan_of_images<A, B, F: Fn(&A) -> bool>(
    f: F,
    s: Seq<A>,
    k: int,
    image: spec_fn(A) -> B,
    p: spec_fn(B) -> bool,
)
    requires
        scan_stops_at(f, s, k),
        forall|x: A, answer: bool| call_ensures(f, (&x,), answer) ==> answer == p(image(x)),
    ensures
        k == first_where(s.map_values(image), p),
{
    lemma_scan_is_first_where(f, s, k, |x: A| p(image(x)));
    lemma_first_where_of_images(s, image, p);
}

/// Seeking and then peeking gives the first element that satisfies the
/// predicate, in the order of the list, and nothing if none does. The list is
/// the same sequence before and after: what the traversal holds is its tail
/// from that element on.
pub proof fn lemma_seek_then_peek<T, F: Fn(&T) -> bool>(
    f: F,
    s: Seq<T>,
    k: int,
    p: spec_fn(T) -> bool,
)
    requires
        scan_stops_at(f, s, k),
        forall|x: T, answer: bool| call_ensures(f, (&x,), answer) ==> answer == p(x),
    ensures
        k == first_where(s, p),
        s == s.take(k) + s.skip(k),
        forall|j: int| 0 <= j < k ==> !p(#[trigger] s[j]),
        front(s.skip(k)) is Some ==> p(front(s.skip(k))->0) && front(s.skip(k))->0 == s[k],
        front(s.skip(k)) is None <==> forall|j: int| 0 <= j < s.len() ==> !p(#[trigger] s[j]),
{
    lemma_scan_is_first_where(f, s, k, p);
    lemma_first_where(s, p);
    assert(s =~= s.take(k) + s.skip(k));
    if k < s.len() {
        assert(s.skip(k)[0] == s[k]);
    }
}

proof fn lemma_pushed_all<T>(s: Seq<T>, elems: Seq<T>)
    ensures
        pushed_all(s, elems) == elems.reverse() + s,
    decreases elems.len(),
{
    if elems.len() == 0 {
        assert(elems.reverse() + s =~= s);
    } else {
        lemma_pushed_all(pushed(s, elems[0]), elems.skip(1));
        assert(elems.skip(1).reverse() + pushed(s, elems[0]) =~= elems.reverse() + s);
    }
}

proof fn lemma_pops<T>(front_part: Seq<T>, s: Seq<T>)
    ensures
        pops(front_part + s, front_part.len()) == front_part.map_values(|x: T| Some(x)),
        popped_n(front_part + s, front_part.len()) == s,
    decreases front_part.len(),
{
    let whole = front_part + s;
    if front_part.len() == 0 {
        assert(whole =~= s);
        assert(pops(whole, 0) =~= front_part.map_values(|x: T| Some(x)));
    } else {
        let rest = front_part.skip(1);
        assert(popped(whole) =~= rest + s);
        lemma_pops(rest, s);
        assert(pops(whole, front_part.len()) =~= front_part.map_values(|x: T| Some(x)));
    }
}

/// Last in, first out. After the elements of `elems` were pushed on a list in
/// order, as many pops return them in reverse order and leave the list as it
/// was before the pushes.
pub proof fn lemma_pops_reverse_pushes<T>(s: Seq<T>, elems: Seq<T>)
    ensures
        pops(pushed_all(s, elems), elems.len()) == elems.reverse().map_values(|x: T| Some(x)),
        popped_n(pushed_all(s, elems), elems.len()) == s,
{
    lemma_pushed_all(s, elems);
    lemma_pops(elems.reverse(), s);
}

/// Popping an empty list returns nothing and leaves it empty, however often
/// it is done.
pub proof fn lemma_pops_of_empty<T>(n: nat)
    ensures
        pops(Seq::<T>::empty(), n) == Seq::new(n, |i: int| None::<T>),
        popped_n(Seq::<T>::empty(), n) == Seq::<T>::empty(),
    decreases n,
{
    let empty = Seq::<T>::empty();
    if n > 0 {
        lemma_pops_of_empty::<T>((n - 1) as nat);
        assert(popped(empty) == empty);
        assert(pops(empty, n) =~= Seq::new(n, |i: int| None::<T>));
    } else {
        assert(pops(empty, n) =~= Seq::new(n, |i: int| None::<T>));
    }
}

/// A traversal that consumes the list returns what repeated pops return: all
/// the elements from the head to the tail. After as many steps as there were
/// elements nothing is left, and the next pop returns nothing.
pub proof fn lemma_traversal_uses_list_up<T>(s: Seq<T>)
    ensures
        pops(s, s.len()) == s.map_values(|x: T| Some(x)),
        popped_n(s, s.len()) == Seq::<T>::empty(),
        front(popped_n(s, s.len())) is None,
{
    lemma_pops(s, Seq::<T>::empty());
    assert(s + Seq::<T>::empty() =~= s);
}

/// What is written through `peek_mut` is what `peek` returns next, and no
/// other element changes. Looking alone changes nothing: `peek` has the list
/// by shared reference.
pub proof fn lemma_write_in_front_is_seen<T>(s: Seq<T>, v: T)
    requires
        s.len() > 0,
    ensures
        front(s.update(0, v)) == Some(v),
        popped(s.update(0, v)) == popped(s),
{
    assert(s.update(0, v).skip(1) =~= s.skip(1));
}

} // verus!
