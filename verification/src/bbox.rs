//! Containers that pair a bounding box with a value.
use vstd::prelude::*;
use crate::geom::Rect;
use crate::{HasAabb, HasInner};

verus! {

/// Equivalent to `(Rect, T)`.
#[derive(Copy, Clone)]
pub struct BBox<T> {
    pub rect: Rect,
    pub inner: T,
}

impl<T> BBox<T> {
    pub fn new(rect: Rect, inner: T) -> (r: BBox<T>)
        ensures
            r.rect == rect,
            r.inner == inner,
    {
        BBox { rect, inner }
    }
}

impl<T> HasAabb for BBox<T> {
    open spec fn aabb(&self) -> Rect {
        self.rect
    }

    fn get(&self) -> (r: &Rect) {
        &self.rect
    }
}

impl<T> HasInner for BBox<T> {
    type Inner = T;

    open spec fn spec_inner(&self) -> T {
        self.inner
    }

    fn get_inner(&self) -> (r: (&Rect, &T)) {
        (&self.rect, &self.inner)
    }

    fn get_inner_mut(&mut self) -> (r: (&Rect, &mut T)) {
        (&self.rect, &mut self.inner)
    }
}

/// Equivalent to `(Rect, &mut T)`.
pub struct BBoxMut<'a, T> {
    pub rect: Rect,
    pub inner: &'a mut T,
}

impl<'a, T> BBoxMut<'a, T> {
    /// Pairs `rect` with `inner`: what is written through `r.inner` is written to `inner`.
    pub fn new(rect: Rect, inner: &'a mut T) -> (r: BBoxMut<'a, T>)
        ensures
            r.rect == rect,
            *r.inner == *old(inner),
            *final(inner) == *final(r.inner),
    {
        BBoxMut { rect, inner }
    }
}

impl<'a, T> HasAabb for BBoxMut<'a, T> {
    open spec fn aabb(&self) -> Rect {
        self.rect
    }

    fn get(&self) -> (r: &Rect) {
        &self.rect
    }
}

impl<'a, T> HasInner for BBoxMut<'a, T> {
    type Inner = T;

    open spec fn spec_inner(&self) -> T {
        *self.inner
    }

    fn get_inner(&self) -> (r: (&Rect, &T)) {
        (&self.rect, &*self.inner)
    }

    fn get_inner_mut(&mut self) -> (r: (&Rect, &mut T))
        ensures
            *final(final(self).inner) == *final(old(self).inner),
    {
        (&self.rect, &mut *self.inner)
    }
}


/// Equivalent to `(&Rect, &T)`.
pub struct BBoxRef<'a, T> {
    pub rect: &'a Rect,
    pub inner: &'a T,
}

impl<'a, T> BBoxRef<'a, T> {
    pub fn new(rect: &'a Rect, inner: &'a T) -> (r: BBoxRef<'a, T>)
        ensures
            *r.rect == *rect,
            *r.inner == *inner,
    {
        BBoxRef { rect, inner }
    }
}

/// Equivalent to `(&Rect, &mut T)`.
pub struct BBoxRefMut<'a, T> {
    pub rect: &'a Rect,
    pub inner: &'a mut T,
}

impl<'a, T> BBoxRefMut<'a, T> {
    /// The current value behind `inner`.
    pub open spec fn inner_value(&self) -> T {
        *self.inner
    }

    /// Pairs `rect` with `inner`: what is written through `r.inner` is written to `inner`.
    pub fn new(rect: &'a Rect, inner: &'a mut T) -> (r: BBoxRefMut<'a, T>)
        ensures
            *r.rect == *rect,
            *r.inner == *old(inner),
            *final(inner) == *final(r.inner),
    {
        BBoxRefMut { rect, inner }
    }

    /// Reborrows this reference: what is written through the result is written to this one.
    pub fn as_mut(&mut self) -> (r: BBoxRefMut<'_, T>)
        ensures
            *r.rect == *old(self).rect,
            *r.inner == *old(self).inner,
            *final(self).rect == *old(self).rect,
            *final(self).inner == *final(r.inner),
            *final(final(self).inner) == *final(old(self).inner),
    {
        BBoxRefMut { rect: self.rect, inner: &mut *self.inner }
    }

    /// A shared view of this reference.
    pub fn as_ref(&self) -> (r: BBoxRef<'_, T>)
        ensures
            *r.rect == *self.rect,
            *r.inner == self.inner_value(),
    {
        BBoxRef { rect: self.rect, inner: &*self.inner }
    }
}

/// A mutable reference to an element that has a bounding box.
pub struct BBoxIndirect<'a, T> {
    pub inner: &'a mut T,
}

impl<'a, T: HasAabb> HasAabb for BBoxIndirect<'a, T> {
    open spec fn aabb(&self) -> Rect {
        (*self.inner).aabb()
    }

    fn get(&self) -> (r: &Rect) {
        self.inner.get()
    }
}

impl<'a, T: HasInner> HasInner for BBoxIndirect<'a, T> {
    type Inner = T::Inner;

    open spec fn spec_inner(&self) -> T::Inner {
        (*self.inner).spec_inner()
    }

    fn get_inner(&self) -> (r: (&Rect, &T::Inner)) {
        self.inner.get_inner()
    }

    fn get_inner_mut(&mut self) -> (r: (&Rect, &mut T::Inner))
        ensures
            *final(final(self).inner) == *final(old(self).inner),
    {
        self.inner.get_inner_mut()
    }
}

} // verus!
