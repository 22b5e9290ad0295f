//! A one-shot future cell: a value is published once with `put` and taken
//! once with `get`.  This sequential form models the cell's state machine
//! exactly; wiring it between threads is the caller's business.

use vstd::prelude::*;

verus! {

/// The reading side of a one-shot cell.
pub trait PollableFuture<T>: Sized {
    /// A value has been published.
    spec fn is_published(&self) -> bool;

    /// The published value has already been taken.
    spec fn is_polled(&self) -> bool;

    /// The value currently held.
    spec fn stored(&self) -> Option<T>;

    /// The cell's states are consistent: a published, untaken cell holds a
    /// value; an unpublished cell holds none and was never polled.
    spec fn inv(&self) -> bool;

    /// Takes the published value, if any: `None` while nothing has been
    /// published; the value, exactly once, afterwards.
    fn get(&mut self) -> (r: Option<T>)
        requires
            old(self).inv(),
            old(self).is_published() ==> !old(self).is_polled(),
        ensures
            final(self).inv(),
            r == if old(self).is_published() {
                old(self).stored()
            } else {
                Option::<T>::None
            },
            final(self).is_published() == old(self).is_published(),
            old(self).is_published() ==> final(self).is_polled() && final(self).stored() is None,
            !old(self).is_published() ==> *final(self) == *old(self),
    ;

    /// Waits for the published value.  Sequentially there is nobody left to
    /// publish one, so the value must already be there.
    fn busy_poll(&mut self) -> (r: Option<T>)
        requires
            old(self).inv(),
            old(self).is_published(),
            !old(self).is_polled(),
        ensures
            final(self).inv(),
            r == old(self).stored(),
            r is Some,
    ;
}

/// The writing side of a one-shot cell.  It extends the reading side so
/// that publishing and taking compose: after `put` the cell is published
/// and still consistent, and a following `get` hands the published value
/// out.
pub trait WritableFuture<T>: PollableFuture<T> {
    /// Publishes a value.  The first publication wins; later ones are
    /// ignored.
    fn put(&mut self, t: T)
        requires
            old(self).inv(),
        ensures
            final(self).inv(),
            final(self).is_published(),
            final(self).is_polled() == old(self).is_polled(),
            final(self).stored() == if old(self).is_published() {
                old(self).stored()
            } else {
                Some(t)
            },
    ;
}

/// The one-shot cell itself.
pub struct Future<T> {
    value: Option<T>,
    value_polled: bool,
    value_published: bool,
}

impl<T> Future<T> {
    /// An empty cell: nothing published, nothing polled.
    pub fn new() -> (r: Future<T>)
        ensures
            !r.is_published(),
            !r.is_polled(),
            r.stored() is None,
            r.inv(),
    {
        Future { value: None, value_polled: false, value_published: false }
    }
}

impl<T> PollableFuture<T> for Future<T> {
    closed spec fn is_published(&self) -> bool {
        self.value_published
    }

    closed spec fn is_polled(&self) -> bool {
        self.value_polled
    }

    closed spec fn stored(&self) -> Option<T> {
        self.value
    }

    closed spec fn inv(&self) -> bool {
        &&& (self.value_published && !self.value_polled ==> self.value is Some)
        &&& (!self.value_published ==> self.value is None && !self.value_polled)
    }

    fn get(&mut self) -> (r: Option<T>) {
        if !self.value_published {
            return None;
        }
        let t = self.value.take();
        self.value_polled = true;
        t
    }

    fn busy_poll(&mut self) -> (r: Option<T>) {
        self.get()
    }
}

impl<T> WritableFuture<T> for Future<T> {
    fn put(&mut self, t: T) {
        if self.value_published {
            return ;
        }
        self.value = Some(t);
        self.value_published = true;
    }
}

} // verus!
