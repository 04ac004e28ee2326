//! Element storage behind a tensor: an owned vector, a shared borrow of a
//! slice, a mutable borrow of a slice, or an owned-or-borrowed hybrid.
//! Tensors are generic over the storage so that owning tensors and views
//! share one implementation.
use vstd::prelude::*;

verus! {

/// Read access to a flat run of elements.
pub trait Storage<T>: Sized {
    /// The stored elements, as a mathematical sequence.
    spec fn sview(&self) -> Seq<T>;

    /// The number of stored elements.
    fn slen(&self) -> (n: usize)
        ensures
            n == self.sview().len(),
    ;

    /// The element at position `i`.
    fn sget(&self, i: usize) -> (r: &T)
        requires
            i < self.sview().len(),
        ensures
            *r == self.sview()[i as int],
    ;

    /// The elements as one shared slice.
    fn sborrow(&self) -> (r: &[T])
        ensures
            r@ == self.sview(),
    ;
}

/// Write access to a flat run of elements.
pub trait StorageMut<T>: Storage<T> {
    /// Overwrite the element at position `i`.
    fn sset(&mut self, i: usize, v: T)
        requires
            i < old(self).sview().len(),
        ensures
            final(self).sview() == old(self).sview().update(i as int, v),
    ;

    /// The elements as one mutable slice; writes through it land back in
    /// the storage.
    fn sborrow_mut(&mut self) -> (r: &mut [T])
        ensures
            r@ == old(self).sview(),
            final(self).sview() == final(r)@,
    ;
}

impl<T> Storage<T> for Vec<T> {
    open spec fn sview(&self) -> Seq<T> {
        self@
    }

    fn slen(&self) -> (n: usize) {
        self.len()
    }

    fn sget(&self, i: usize) -> (r: &T) {
        &self[i]
    }

    fn sborrow(&self) -> (r: &[T]) {
        self.as_slice()
    }
}

impl<T> StorageMut<T> for Vec<T> {
    fn sset(&mut self, i: usize, v: T) {
        self[i] = v;
    }

    fn sborrow_mut(&mut self) -> (r: &mut [T]) {
        self.as_mut_slice()
    }
}

impl<'a, T> Storage<T> for &'a [T] {
    open spec fn sview(&self) -> Seq<T> {
        (*self)@
    }

    fn slen(&self) -> (n: usize) {
        self.len()
    }

    fn sget(&self, i: usize) -> (r: &T) {
        &self[i]
    }

    fn sborrow(&self) -> (r: &[T]) {
        self
    }
}

impl<'a, T> Storage<T> for &'a mut [T] {
    open spec fn sview(&self) -> Seq<T> {
        (*self)@
    }

    fn slen(&self) -> (n: usize) {
        let s: &[T] = self;
        s.len()
    }

    fn sget(&self, i: usize) -> (r: &T) {
        &self[i]
    }

    fn sborrow(&self) -> (r: &[T]) {
        self
    }
}

impl<'a, T> StorageMut<T> for &'a mut [T] {
    fn sset(&mut self, i: usize, v: T) {
        self[i] = v;
    }

    fn sborrow_mut(&mut self) -> (r: &mut [T]) {
        self
    }
}

/// Storage that either borrows an existing slice or owns a fresh vector:
/// the result of materializing a view that may already be contiguous.
pub enum CowData<'a, T> {
    /// A borrow of storage owned elsewhere.
    Borrowed(&'a [T]),
    /// Freshly allocated storage.
    Owned(Vec<T>),
}

impl<'a, T> Storage<T> for CowData<'a, T> {
    open spec fn sview(&self) -> Seq<T> {
        match self {
            CowData::Borrowed(s) => (*s)@,
            CowData::Owned(v) => v@,
        }
    }

    fn slen(&self) -> (n: usize) {
        match self {
            CowData::Borrowed(s) => s.len(),
            CowData::Owned(v) => v.len(),
        }
    }

    fn sget(&self, i: usize) -> (r: &T) {
        match self {
            CowData::Borrowed(s) => &s[i],
            CowData::Owned(v) => &v[i],
        }
    }

    fn sborrow(&self) -> (r: &[T]) {
        match self {
            CowData::Borrowed(s) => s,
            CowData::Owned(v) => v.as_slice(),
        }
    }
}

} // verus!
