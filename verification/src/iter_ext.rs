//! Looking at the errors that pass through an iterator of results.

use vstd::prelude::*;
use vstd::std_specs::iter::IteratorSpec;

verus! {

/// An iterator's items, each error shown to a function on its way.
pub struct InspectErr<I, F> {
    iter: I,
    f: F,
}

impl<I, F, T, E> InspectErr<I, F> where I: Iterator<Item = Result<T, E>>, F: FnMut(&E) {
    /// The iterator whose items are handed on.
    pub closed spec fn inner(&self) -> I {
        self.iter
    }

    /// The function that is shown the errors.
    pub closed spec fn inspector(&self) -> F {
        self.f
    }

    /// Hands on the next item, unchanged, after showing it to the function
    /// if it is an error.
    pub fn next(&mut self) -> (r: Option<Result<T, E>>)
        requires
            forall|e: E| #[trigger] call_requires(old(self).inspector(), (&e,)),
        ensures
            final(self).inspector() == old(self).inspector(),
            match r {
                Some(Err(e)) => call_ensures(old(self).inspector(), (&e,), ()),
                _ => true,
            },
            old(self).inner().obeys_prophetic_iter_laws() ==> {
                &&& final(self).inner().obeys_prophetic_iter_laws()
                &&& old(self).inner().decrease() is Some <==> final(self).inner().decrease()
                    is Some
                &&& if old(self).inner().remaining().len() > 0 {
                    &&& r == Some(old(self).inner().remaining()[0])
                    &&& final(self).inner().remaining() == old(
                        self,
                    ).inner().remaining().drop_first()
                } else {
                    &&& r is None
                    &&& final(self).inner().remaining() == old(self).inner().remaining()
                }
                &&& old(self).inner().remaining().len() > 0 && final(self).inner().decrease()
                    is Some ==> decreases_to!(old(self).inner().decrease()->0 => final(self).inner().decrease()->0)
            },
    {
        broadcast use vstd::function::group_function_axioms;

        let next = self.iter.next();
        match &next {
            Some(Err(e)) => {
                assert(call_requires(old(self).inspector(), (e,)));
                (self.f)(e);
            },
            _ => {},
        }
        next
    }

    /// All the items that are left, in order, each error shown to the
    /// function as it passes.
    pub fn collect(self) -> (items: Vec<Result<T, E>>)
        requires
            self.inner().obeys_prophetic_iter_laws(),
            self.inner().decrease() is Some,
            forall|e: E| #[trigger] call_requires(self.inspector(), (&e,)),
        ensures
            items@ == self.inner().remaining(),
            forall|i: int|
                0 <= i < items@.len() ==> match #[trigger] items@[i] {
                    Err(e) => call_ensures(self.inspector(), (&e,), ()),
                    Ok(_) => true,
                },
    {
        let mut this = self;
        let mut items: Vec<Result<T, E>> = Vec::new();
        loop
            invariant
                this.inner().obeys_prophetic_iter_laws(),
                this.inner().decrease() is Some,
                this.inspector() == self.inspector(),
                forall|e: E| #[trigger] call_requires(this.inspector(), (&e,)),
                items@ + this.inner().remaining() == self.inner().remaining(),
                forall|i: int|
                    0 <= i < items@.len() ==> match #[trigger] items@[i] {
                        Err(e) => call_ensures(self.inspector(), (&e,), ()),
                        Ok(_) => true,
                    },
            ensures
                items@ == self.inner().remaining(),
                forall|i: int|
                    0 <= i < items@.len() ==> match #[trigger] items@[i] {
                        Err(e) => call_ensures(self.inspector(), (&e,), ()),
                        Ok(_) => true,
                    },
            decreases this.inner().decrease()->0,
        {
            match this.next() {
                Some(item) => {
                    items.push(item);
                },
                None => {
                    break ;
                },
            }
        }
        items
    }
}

/// Iterators of results, with a way to look at their errors.
pub trait IteratorExt: Iterator {
    /// This iterator, with each error shown to `f` on its way.
    fn inspect_err<T, E, F>(self, f: F) -> (r: InspectErr<Self, F>) where
        Self: Iterator<Item = Result<T, E>> + Sized,
        F: FnMut(&E),

        ensures
            r.inner() == self,
            r.inspector() == f,
    {
        InspectErr { iter: self, f }
    }
}

impl<I: ?Sized> IteratorExt for I where I: Iterator {

}

} // verus!
