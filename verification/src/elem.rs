//! Wrappers that hand out mutable access to elements without letting the caller move
//! them: moving an element, or swapping two, could break the invariants of the tree.
use vstd::prelude::*;
use crate::geom::Rect;
use crate::{HasAabb, HasInner};

verus! {

/// Forbids the user from swapping two nodes around.
pub struct ProtectedNode<'a, T> {
    inner: &'a mut T,
}

impl<'a, T> ProtectedNode<'a, T> {
    /// The current value of the node.
    pub closed spec fn value(&self) -> T {
        *self.inner
    }

    /// The reference to the node.
    pub closed spec fn handle(&self) -> &'a mut T {
        self.inner
    }

    /// Once a protected node is no longer used, the node is left as it holds it.
    pub broadcast proof fn lemma_node_resolved(self)
        ensures
            #[trigger] has_resolved(self) ==> *final(self.handle()) == self.value(),
    {
    }

    /// Protects `inner`: what is written through the protected node is written to `inner`.
    pub fn new(inner: &'a mut T) -> (r: Self)
        ensures
            r.value() == *old(inner),
            *final(inner) == *final(r.handle()),
    {
        ProtectedNode { inner }
    }

    /// Reborrows the protected node: what is written through the result is written to
    /// this node.
    pub fn as_ref(&mut self) -> (r: ProtectedNode<'_, T>)
        ensures
            r.value() == old(self).value(),
            final(self).value() == *final(r.handle()),
            *final(final(self).handle()) == *final(old(self).handle()),
    {
        ProtectedNode { inner: &mut *self.inner }
    }
}

/// Forbids the user from swapping aabb's around.
pub struct ProtectedBBox<'a, T> {
    inner: &'a mut T,
}

impl<'a, T> ProtectedBBox<'a, T> {
    /// The current value of the element.
    pub closed spec fn value(&self) -> T {
        *self.inner
    }

    /// The reference to the element.
    pub closed spec fn handle(&self) -> &'a mut T {
        self.inner
    }

    /// Once a protected element is no longer used, the element is left as it holds it.
    pub broadcast proof fn lemma_bbox_resolved(self)
        ensures
            #[trigger] has_resolved(self) ==> *final(self.handle()) == self.value(),
    {
    }

    /// Protects `inner`: what is written through the protected element is written to
    /// `inner`.
    pub fn new(inner: &'a mut T) -> (r: Self)
        ensures
            r.value() == *old(inner),
            *final(inner) == *final(r.handle()),
    {
        ProtectedBBox { inner }
    }

    /// Reborrows the protected element: what is written through the result is written
    /// to this element.
    pub fn as_mut(&mut self) -> (r: ProtectedBBox<'_, T>)
        ensures
            r.value() == old(self).value(),
            final(self).value() == *final(r.handle()),
            *final(final(self).handle()) == *final(old(self).handle()),
    {
        ProtectedBBox { inner: &mut *self.inner }
    }

    /// Read access to the element.
    pub fn as_ref(&self) -> (r: &T)
        ensures
            *r == self.value(),
    {
        &*self.inner
    }
}

impl<'a, T: HasAabb> HasAabb for ProtectedBBox<'a, T> {
    open spec fn aabb(&self) -> Rect {
        self.value().aabb()
    }

    fn get(&self) -> (r: &Rect) {
        self.inner.get()
    }
}

impl<'a, T: HasInner> HasInner for ProtectedBBox<'a, T> {
    type Inner = T::Inner;

    open spec fn spec_inner(&self) -> T::Inner {
        self.value().spec_inner()
    }

    fn get_inner(&self) -> (r: (&Rect, &T::Inner)) {
        self.inner.get_inner()
    }

    fn get_inner_mut(&mut self) -> (r: (&Rect, &mut T::Inner))
        ensures
            *final(final(self).handle()) == *final(old(self).handle()),
    {
        self.inner.get_inner_mut()
    }
}

/// Forbids the user from swapping mutable slices in the nodes around.
pub struct ProtectedBBoxSlice<'a, T> {
    inner: &'a mut [T],
}

impl<'a, T> ProtectedBBoxSlice<'a, T> {
    /// The current elements of the slice.
    pub closed spec fn view(&self) -> Seq<T> {
        self.inner@
    }

    /// The reference to the elements.
    pub closed spec fn handle(&self) -> &'a mut [T] {
        self.inner
    }

    /// Once a protected slice is no longer used, the elements are left as it holds them.
    pub broadcast proof fn lemma_slice_resolved(self)
        ensures
            #[trigger] has_resolved(self) ==> final(self.handle())@ == self.view(),
    {
    }

    /// Protects `inner`: what is written through the protected slice is written to
    /// `inner`.
    pub fn new(inner: &'a mut [T]) -> (r: Self)
        ensures
            r.view() == old(inner)@,
            final(inner)@ == final(r.handle())@,
    {
        ProtectedBBoxSlice { inner }
    }

    /// The number of elements.
    pub fn len(&self) -> (r: usize)
        ensures
            r == self.view().len(),
    {
        self.inner.len()
    }

    /// Splits off the first element, if there is one.
    pub fn split_first_mut(self) -> (r: Option<(ProtectedBBox<'a, T>, ProtectedBBoxSlice<'a, T>)>)
        ensures
            self.view().len() == 0 <==> r is None,
            r matches Some((first, rest)) ==> {
                &&& first.value() == self.view()[0]
                &&& rest.view() == self.view().subrange(1, self.view().len() as int)
                &&& final(self.handle())@ == seq![*final(first.handle())] + final(rest.handle())@
            },
            r is None ==> final(self.handle())@ == self.view(),
    {
        let inner = self.inner;
        if inner.len() == 0 {
            return None;
        }
        let (first, rest) = inner.split_at_mut(1);
        let f: &'a mut T = first.first_mut().unwrap();
        Some((ProtectedBBox { inner: f }, ProtectedBBoxSlice { inner: rest }))
    }

    /// The elements before index `end`.
    pub fn truncate_to(self, end: usize) -> (r: Self)
        requires
            end <= self.view().len(),
        ensures
            r.view() == self.view().subrange(0, end as int),
            final(self.handle())@ == final(r.handle())@ + self.view().subrange(end as int, self.view().len() as int),
    {
        let (l, _rest) = self.inner.split_at_mut(end);
        ProtectedBBoxSlice { inner: l }
    }

    /// The elements from index `start` on.
    pub fn truncate_from(self, start: usize) -> (r: Self)
        requires
            start <= self.view().len(),
        ensures
            r.view() == self.view().subrange(start as int, self.view().len() as int),
            final(self.handle())@ == self.view().subrange(0, start as int) + final(r.handle())@,
    {
        let (_first, rest) = self.inner.split_at_mut(start);
        ProtectedBBoxSlice { inner: rest }
    }

    /// The elements from index `start` up to index `end`.
    pub fn truncate(self, start: usize, end: usize) -> (r: Self)
        requires
            start <= end <= self.view().len(),
        ensures
            r.view() == self.view().subrange(start as int, end as int),
            final(self.handle())@ == self.view().subrange(0, start as int) + final(r.handle())@
                + self.view().subrange(end as int, self.view().len() as int),
    {
        let (l, _rest) = self.inner.split_at_mut(end);
        let (_first, m) = l.split_at_mut(start);
        ProtectedBBoxSlice { inner: m }
    }

    /// Reborrows the slice: what is written through the result is written to this slice.
    pub fn as_mut(&mut self) -> (r: ProtectedBBoxSlice<'_, T>)
        ensures
            r.view() == old(self).view(),
            final(self).view() == final(r.handle())@,
            final(final(self).handle())@ == final(old(self).handle())@,
    {
        ProtectedBBoxSlice { inner: &mut *self.inner }
    }

    /// Read access to the elements; nothing can be written through the slice any more.
    pub fn as_slice(self) -> (r: &'a [T])
        ensures
            r@ == self.view(),
            final(self.handle())@ == self.view(),
    {
        self.inner
    }

    /// Read access to the elements, for as long as the slice is borrowed.
    pub fn as_ref(&self) -> (r: &[T])
        ensures
            r@ == self.view(),
    {
        &*self.inner
    }

    /// An iterator over the elements, handing out read access: it yields a reference to
    /// each element, in order.
    pub fn iter(&self) -> (r: core::slice::Iter<'_, T>)
        ensures
            r == vstd::std_specs::slice::spec_slice_iter(self.as_slice_spec()),
            self.as_slice_spec()@ == self.view(),
            vstd::std_specs::iter::IteratorSpec::remaining(&r) == self.view().as_ref(),
    {
        broadcast use vstd::std_specs::slice::axiom_spec_slice_iter;
        let s: &[T] = &*self.inner;
        s.iter()
    }

    /// The elements as a slice.
    pub closed spec fn as_slice_spec(&self) -> &[T] {
        &*self.inner
    }

    /// An iterator over the elements, handing out protected mutable access.
    pub fn iter_mut(self) -> (r: ProtectedBBoxIter<'a, T>)
        ensures
            r.remaining() == self.view(),
            final(self.handle())@ == final(r.handle())@,
    {
        ProtectedBBoxIter { inner: self.inner }
    }
}

/// Iterates over the elements of a protected slice, handing out protected mutable access.
pub struct ProtectedBBoxIter<'a, T> {
    inner: &'a mut [T],
}

impl<'a, T> ProtectedBBoxIter<'a, T> {
    /// The elements not yet handed out.
    pub closed spec fn remaining(&self) -> Seq<T> {
        self.inner@
    }

    /// The reference to the elements not yet handed out.
    pub closed spec fn handle(&self) -> &'a mut [T] {
        self.inner
    }

    /// Once an iterator is no longer used, the elements it did not hand out are left as
    /// it holds them.
    pub broadcast proof fn lemma_iter_resolved(self)
        ensures
            #[trigger] has_resolved(self) ==> final(self.handle())@ == self.remaining(),
    {
    }

    /// Hands out the next element, if any is left.
    pub fn next(&mut self) -> (r: Option<ProtectedBBox<'a, T>>)
        ensures
            old(self).remaining().len() == 0 ==> r is None && final(self).remaining().len() == 0,
            old(self).remaining().len() > 0 ==> (r matches Some(b) && b.value() == old(self).remaining()[0]),
            old(self).remaining().len() > 0 ==> final(self).remaining() == old(self).remaining().subrange(1, old(self).remaining().len() as int),
            r matches Some(b) ==> final(old(self).handle())@ == seq![*final(b.handle())] + final(final(self).handle())@,
            r is None ==> final(old(self).handle())@ == final(final(self).handle())@,
    {
        let mut taken: &'a mut [T] = &mut [];
        core::mem::swap(&mut taken, &mut self.inner);
        if taken.len() == 0 {
            self.inner = taken;
            return None;
        }
        let (first, rest) = taken.split_at_mut(1);
        let f: &'a mut T = first.first_mut().unwrap();
        self.inner = rest;
        Some(ProtectedBBox { inner: f })
    }
}

} // verus!
