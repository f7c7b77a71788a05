//! Persistent singly-linked list with structural sharing.
//!
//! The mutable collections of a plan (steps, links, unsafes, open conditions)
//! are immutable `Chain<T>` nodes shared across plan nodes via reference
//! counting. Refining a plan conses a new element onto the front (or removes
//! one), reusing the unchanged suffix. A chain is `Option<Rc<Chain<T>>>`, where
//! `None` is the empty chain and cloning the `Rc` shares the unchanged tail.
use std::rc::Rc;

use vstd::prelude::*;
use vstd::std_specs::cmp::PartialEqSpec;

verus! {

/// A non-empty chain node. A full (possibly empty) chain is
/// `Option<Rc<Chain<T>>>`.
#[derive(Debug)]
pub struct Chain<T> {
    pub head: T,
    pub tail: Option<Rc<Chain<T>>>,
}

/// The elements of a possibly empty chain, front first.
pub open spec fn elements<T>(c: &Option<Rc<Chain<T>>>) -> Seq<T>
    decreases c,
{
    match c {
        None => Seq::empty(),
        Some(node) => seq![node.head] + elements(&node.tail),
    }
}

/// The position of the first element equal to `x` (the length when there is none).
pub open spec fn first_match<T: PartialEq>(s: Seq<T>, x: T) -> int
    decreases s.len(),
{
    if s.len() == 0 {
        0
    } else if s[0].eq_spec(&x) {
        0
    } else {
        1 + first_match(s.drop_first(), x)
    }
}

/// `r` is `s` without its first element equal to `x`: what stood before that
/// element is cloned, what stood behind it is kept.
pub open spec fn without_first<T: PartialEq + Clone>(s: Seq<T>, r: Seq<T>, x: T) -> bool {
    let k = first_match(s, x);
    if k < s.len() {
        &&& r.len() == s.len() - 1
        &&& r.skip(k) == s.skip(k + 1)
        &&& forall|i: int| 0 <= i < k ==> cloned::<T>(s[i], #[trigger] r[i])
    } else {
        &&& r.len() == s.len()
        &&& forall|i: int| 0 <= i < s.len() ==> (cloned::<T>(s[i], #[trigger] r[i]) || r[i] == s[i])
    }
}

impl<T> Chain<T> {
    /// The elements from this node to the end.
    pub open spec fn items(&self) -> Seq<T> {
        seq![self.head] + elements(&self.tail)
    }

    pub fn new(head: T, tail: Option<Rc<Chain<T>>>) -> (res: Rc<Chain<T>>)
        ensures
            (*res).head == head,
            (*res).tail == tail,
    {
        Rc::new(Chain { head, tail })
    }

    /// Number of elements from this node to the end.
    pub fn len(&self) -> (n: usize)
        requires
            self.items().len() <= usize::MAX,
        ensures
            n == self.items().len(),
    {
        let mut n: usize = 1;
        let mut cur: &Option<Rc<Chain<T>>> = &self.tail;
        while cur.is_some()
            invariant
                n + elements(cur).len() == self.items().len(),
                self.items().len() <= usize::MAX,
            decreases elements(cur).len(),
        {
            match cur {
                Some(node) => {
                    n = n + 1;
                    cur = &node.tail;
                },
                None => {},
            }
        }
        n
    }

    /// A non-empty chain node always holds at least its `head`, so this is
    /// always `false`. The empty chain is represented by `None`.
    pub fn is_empty(&self) -> (res: bool)
        ensures
            res == (self.items().len() == 0),
    {
        false
    }

    pub fn iter(&self) -> (it: Iter<'_, T>)
        ensures
            it.rest() == self.items(),
    {
        Iter { cur: Some(self) }
    }
}

impl<T: PartialEq> Chain<T> {
    /// Whether some element of the chain equals `x`.
    pub fn contains(&self, x: &T) -> (res: bool)
        ensures
            T::obeys_eq_spec() ==> res == (first_match(self.items(), *x) < self.items().len()),
        decreases self,
    {
        proof {
            assert(self.items().drop_first() =~= elements(&self.tail));
            lemma_first_match_bound(elements(&self.tail), *x);
        }
        if self.head == *x {
            return true;
        }
        match &self.tail {
            Some(node) => {
                proof {
                    assert(node.items() =~= elements(&self.tail));
                }
                node.contains(x)
            },
            None => false,
        }
    }
}

impl<T: PartialEq + Clone> Chain<T> {
    /// Returns a chain with the first occurrence of `x` removed, sharing the
    /// suffix after the removed element. If `x` is not present the elements
    /// are unchanged (a fresh spine is built).
    pub fn remove(self: &Rc<Self>, x: &T) -> (res: Option<Rc<Chain<T>>>)
        ensures
            T::obeys_eq_spec() ==> without_first(self.items(), elements(&res), *x),
        decreases self,
    {
        proof {
            assert(self.items().drop_first() =~= elements(&self.tail));
            lemma_first_match_bound(elements(&self.tail), *x);
        }
        if self.head == *x {
            proof {
                assert(elements(&self.tail).skip(0) =~= self.items().skip(1));
            }
            match &self.tail {
                Some(t) => Some(t.clone()),
                None => None,
            }
        } else {
            match &self.tail {
                Some(t) => {
                    let rest = t.remove(x);
                    let head = self.head.clone();
                    proof {
                        assert(t.items() =~= elements(&self.tail));
                    }
                    let res = Some(Chain::new(head, rest));
                    proof {
                        let s = self.items();
                        let r = elements(&res);
                        let s0 = elements(&self.tail);
                        let r0 = elements(&rest);
                        let k = first_match(s0, *x);
                        if T::obeys_eq_spec() {
                            assert(s =~= seq![self.head] + s0);
                            assert(r =~= seq![head] + r0);
                            if k < s0.len() {
                                assert(r.skip(k + 1) =~= r0.skip(k));
                                assert(s.skip(k + 2) =~= s0.skip(k + 1));
                                assert forall|i: int| 0 <= i < k + 1 implies cloned::<T>(s[i], #[trigger] r[i]) by {
                                    if i > 0 {
                                        assert(r[i] == r0[i - 1]);
                                        assert(s[i] == s0[i - 1]);
                                    }
                                }
                            } else {
                                assert forall|i: int| 0 <= i < s.len() implies (cloned::<T>(s[i], #[trigger] r[i]) || r[i] == s[i]) by {
                                    if i > 0 {
                                        assert(r[i] == r0[i - 1]);
                                        assert(s[i] == s0[i - 1]);
                                    }
                                }
                            }
                        }
                    }
                    res
                },
                None => {
                    let res = Some(self.clone());
                    assert(elements(&res) =~= self.items());
                    res
                },
            }
        }
    }
}

proof fn lemma_first_match_bound<T: PartialEq>(s: Seq<T>, x: T)
    ensures
        0 <= first_match(s, x) <= s.len(),
    decreases s.len(),
{
    if s.len() > 0 && !s[0].eq_spec(&x) {
        lemma_first_match_bound(s.drop_first(), x);
    }
}

/// Borrowing cursor over a chain's elements.
pub struct Iter<'a, T> {
    cur: Option<&'a Chain<T>>,
}

impl<'a, T> Iter<'a, T> {
    /// The elements still to be handed out.
    pub closed spec fn rest(self) -> Seq<T> {
        match self.cur {
            None => Seq::empty(),
            Some(node) => node.items(),
        }
    }

    /// Hands out the next element, front first.
    pub fn next(&mut self) -> (res: Option<&'a T>)
        ensures
            old(self).rest().len() == 0 ==> res is None && final(self).rest() == old(self).rest(),
            old(self).rest().len() > 0 ==> res is Some && *res->0 == old(self).rest()[0]
                && final(self).rest() == old(self).rest().drop_first(),
    {
        match self.cur {
            None => None,
            Some(node) => {
                self.cur = match &node.tail {
                    Some(t) => Some(&**t),
                    None => None,
                };
                assert(node.items().drop_first() =~= elements(&node.tail));
                Some(&node.head)
            },
        }
    }
}

pub fn cons<T>(head: T, tail: Option<Rc<Chain<T>>>) -> (res: Option<Rc<Chain<T>>>)
    ensures
        res is Some,
        (*res->0).head == head,
        (*res->0).tail == tail,
        elements(&res) == seq![head] + elements(&tail),
{
    Some(Chain::new(head, tail))
}

/// Another handle on the same chain.
pub fn share<T>(c: &Option<Rc<Chain<T>>>) -> (res: Option<Rc<Chain<T>>>)
    ensures
        res == *c,
{
    match c {
        Some(node) => Some(node.clone()),
        None => None,
    }
}

pub fn len<T>(c: &Option<Rc<Chain<T>>>) -> (n: usize)
    requires
        elements(c).len() <= usize::MAX,
    ensures
        n == elements(c).len(),
{
    match c {
        Some(node) => {
            assert(node.items() =~= elements(c));
            node.len()
        },
        None => 0,
    }
}

pub fn contains<T: PartialEq>(c: &Option<Rc<Chain<T>>>, x: &T) -> (res: bool)
    ensures
        T::obeys_eq_spec() ==> res == (first_match(elements(c), *x) < elements(c).len()),
{
    match c {
        Some(node) => {
            assert(node.items() =~= elements(c));
            node.contains(x)
        },
        None => false,
    }
}

pub fn iter<T>(c: &Option<Rc<Chain<T>>>) -> (it: Iter<'_, T>)
    ensures
        it.rest() == elements(c),
{
    match c {
        Some(node) => Iter { cur: Some(&**node) },
        None => Iter { cur: None },
    }
}

pub fn remove<T: PartialEq + Clone>(c: &Option<Rc<Chain<T>>>, x: &T) -> (res: Option<Rc<Chain<T>>>)
    ensures
        T::obeys_eq_spec() ==> without_first(elements(c), elements(&res), *x),
{
    match c {
        Some(node) => {
            assert(node.items() =~= elements(c));
            node.remove(x)
        },
        None => None,
    }
}

/// Consing an element and removing it again gives back the chain, when the
/// element is found first.
pub proof fn cons_then_remove<T: PartialEq + Clone>(head: T, tail: Seq<T>, r: Seq<T>)
    requires
        head.eq_spec(&head),
        without_first(seq![head] + tail, r, head),
    ensures
        r == tail,
{
    let s = seq![head] + tail;
    assert(first_match(s, head) == 0);
    assert(r =~= r.skip(0));
    assert(s.skip(1) =~= tail);
}

} // verus!
