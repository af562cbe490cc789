use vstd::pervasive::VecAdditionalExecFns;
use vstd::prelude::*;

verus! {

/// An append-only arena.
///
/// Elements are only ever added, never removed: `append` hands out the index
/// of the freshly stored element, and that index stays valid for the lifetime
/// of the arena.  Existing elements may be overwritten in place through `set`,
/// but their indices are never invalidated, which lets long-lived bookkeeping
/// (such as the tape cursor) hold plain integer addresses into the arena.
pub struct AppendArray<T> {
    inner: Vec<T>,
}

impl<T> View for AppendArray<T> {
    type V = Seq<T>;

    closed spec fn view(&self) -> Seq<T> {
        self.inner@
    }
}

impl<T> AppendArray<T> {
    /// Creates an empty arena.
    pub fn new() -> (a: AppendArray<T>)
        ensures
            a@ == Seq::<T>::empty(),
    {
        AppendArray { inner: Vec::new() }
    }

    /// Appends `value` at the end of the arena and returns its index.
    pub fn append(&mut self, value: T) -> (i: usize)
        ensures
            final(self)@ == old(self)@.push(value),
            i as int == old(self)@.len(),
    {
        let i = self.inner.len();
        self.inner.push(value);
        i
    }

    /// Number of elements stored so far.
    pub fn len(&self) -> (n: usize)
        ensures
            n as int == self@.len(),
    {
        self.inner.len()
    }

    /// Borrows the element stored at index `i`.
    pub fn get(&self, i: usize) -> (r: &T)
        requires
            i < self@.len(),
        ensures
            *r == self@[i as int],
    {
        &self.inner[i]
    }

    /// Overwrites the element stored at index `i`; the index stays valid.
    pub fn set(&mut self, i: usize, value: T)
        requires
            i < old(self)@.len(),
        ensures
            final(self)@ == old(self)@.update(i as int, value),
    {
        self.inner.set(i, value);
    }
}

} // verus!
