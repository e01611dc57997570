//! A small heterogeneous list (cons-list).
use vstd::prelude::*;

verus! {

/// The end of a heterogeneous list.
#[derive(Debug, Clone, Hash, PartialEq, Eq)]
pub struct Nil;

/// A building block of a heterogeneous list: one element followed by the rest of the list.
#[derive(Debug, Clone, Hash, PartialEq, Eq)]
pub struct Cons<H, T> {
    /// Value of this element of the list.
    pub head: H,
    /// Remaining elements of the list.
    pub tail: T,
}

/// Builds a `Cons` list node.
pub fn cons<H, T>(head: H, tail: T) -> (r: Cons<H, T>)
    ensures
        r.head == head,
        r.tail == tail,
{
    Cons { head, tail }
}

/// Adding a new element to the front of a heterogeneous list.
pub trait PushFront<H>: Sized {
    /// The list type after the push.
    type Output;

    /// Add an element to the front of this list.
    fn push_front(self, head: H) -> Self::Output;
}

impl<NewH, H, T> PushFront<NewH> for Cons<H, T> {
    type Output = Cons<NewH, Self>;

    fn push_front(self, head: NewH) -> (r: Cons<NewH, Self>)
        ensures
            r.head == head,
            r.tail == self,
    {
        cons(head, self)
    }
}

impl<NewH> PushFront<NewH> for Nil {
    type Output = Cons<NewH, Nil>;

    fn push_front(self, head: NewH) -> (r: Cons<NewH, Nil>)
        ensures
            r.head == head,
    {
        cons(head, self)
    }
}

/// Adding a new element to the end of a heterogeneous list.
pub trait PushBack<U>: Sized {
    /// The list type after the push.
    type Output;

    /// Add an element to the end of this list.
    fn push_back(self, elem: U) -> Self::Output;
}

impl<U> PushBack<U> for Nil {
    type Output = Cons<U, Nil>;

    fn push_back(self, elem: U) -> (r: Cons<U, Nil>)
        ensures
            r.head == elem,
    {
        cons(elem, Nil)
    }
}

impl<U, H, T> PushBack<U> for Cons<H, T> where T: PushBack<U> {
    type Output = Cons<H, T::Output>;

    fn push_back(self, elem: U) -> (r: Cons<H, T::Output>)
        ensures
            r.head == self.head,
    {
        cons(self.head, self.tail.push_back(elem))
    }
}

/// Adding a whole list to the end of a heterogeneous list.
pub trait Append<List>: Sized {
    /// The list type after appending.
    type Appended;

    /// Add the elements of `list` to the end of this list.
    fn append(self, list: List) -> Self::Appended;
}

impl<List> Append<List> for Nil {
    type Appended = List;

    fn append(self, list: List) -> (r: List)
        ensures
            r == list,
    {
        list
    }
}

impl<List, H, T> Append<List> for Cons<H, T> where T: Append<List> {
    type Appended = Cons<H, T::Appended>;

    fn append(self, list: List) -> (r: Cons<H, T::Appended>)
        ensures
            r.head == self.head,
    {
        cons(self.head, self.tail.append(list))
    }
}

} // verus!
