//! A persistent stack: to push is to make a new stack that shares the old
//! one, so every holder of a stack keeps seeing its own items.

use std::rc::Rc;
use vstd::prelude::*;

verus! {

/// A stack of items. A cell holds the number of items from it downwards, its
/// item, and the stack below it.
#[derive(Debug)]
pub enum Stack<T> {
    Nil,
    Cons(Rc<(usize, T, Stack<T>)>),
}

/// `Rc::clone`: another pointer to the same cell.
#[verifier::external_body]
fn share<T>(cell: &Rc<(usize, T, Stack<T>)>) -> (r: Rc<(usize, T, Stack<T>)>)
    ensures
        r == *cell,
{
    Rc::clone(cell)
}

impl<T> Clone for Stack<T> {
    fn clone(&self) -> (r: Self)
        ensures
            r == *self,
    {
        match self {
            Stack::Nil => Stack::Nil,
            Stack::Cons(rc) => Stack::Cons(share(rc)),
        }
    }
}

impl<T> Stack<T> {
    /// The items, the one pushed last first.
    pub open spec fn view(&self) -> Seq<T>
        decreases self,
    {
        match self {
            Stack::Nil => Seq::empty(),
            Stack::Cons(rc) => seq![rc.1] + rc.2.view(),
        }
    }

    /// The number that the top cell holds; zero for the empty stack.
    pub open spec fn count(&self) -> nat {
        match self {
            Stack::Nil => 0,
            Stack::Cons(rc) => rc.0 as nat,
        }
    }

    /// Every cell holds the number of items from it downwards.
    pub open spec fn wf(&self) -> bool
        decreases self,
    {
        match self {
            Stack::Nil => true,
            Stack::Cons(rc) => rc.0 == rc.2.view().len() + 1 && rc.2.wf(),
        }
    }

    /// The empty stack.
    pub fn new() -> (r: Stack<T>)
        ensures
            r == Stack::<T>::Nil,
            r@ == Seq::<T>::empty(),
            r.wf(),
    {
        Stack::Nil
    }

    /// The stack with `x` on top of the items of `self`, which is left as it
    /// is.
    pub fn push(&self, x: T) -> (r: Stack<T>)
        requires
            self.count() < usize::MAX,
        ensures
            r@ == seq![x] + self@,
            r.count() == self.count() + 1,
            self.wf() ==> r.wf(),
    {
        Stack::Cons(Rc::new((self.len() + 1, x, self.clone())))
    }

    /// The number of items.
    pub fn len(&self) -> (r: usize)
        ensures
            r == self.count(),
            self.wf() ==> r == self@.len(),
    {
        match self {
            Stack::Nil => 0,
            Stack::Cons(rc) => rc.0,
        }
    }

    /// A walk over the cells, from the top down.
    pub fn iter(&self) -> (r: Iter<T>)
        ensures
            r.rest() == *self,
    {
        Iter(self.clone())
    }
}

/// The walk over the cells of a stack, from the top down.
pub struct Iter<T>(Stack<T>);

impl<T> Iter<T> {
    /// The stack whose cells the walk has still to yield.
    pub closed spec fn rest(&self) -> Stack<T> {
        self.0
    }

    /// Yields the top cell of what is left and goes on below it.
    pub fn next(&mut self) -> (r: Option<Rc<(usize, T, Stack<T>)>>)
        ensures
            old(self).rest() matches Stack::Nil ==> r is None && final(self).rest() == old(
                self,
            ).rest(),
            old(self).rest() matches Stack::Cons(rc) ==> r == Some(rc) && final(self).rest()
                == rc.2,
    {
        let x = self.0.clone();
        match x {
            Stack::Nil => None,
            Stack::Cons(rc) => {
                self.0 = rc.2.clone();
                Some(rc)
            },
        }
    }
}

} // verus!
