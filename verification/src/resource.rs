//! App-wide singletons, one per type. A resource is *absent*, *in the
//! store* (where any number of readers may read it), or *lent* to exactly
//! one [`ResMut`] writer. A reader is a [`Res`] lease: the store counts the
//! leases it hands out and each comes back with [`Resources::release`], as
//! a writer comes back with [`Resources::restore`]. While any lease is out
//! the resource can be neither written nor removed. A lookup that cannot be
//! satisfied returns `None`; the caller gives back what it holds and asks
//! again.

use core::marker::PhantomData;
use vstd::prelude::*;

verus! {

/// Marks a type as storable as an app-wide singleton.
pub trait Resource {}

/// The state of one resource type.
pub struct Resources<R> {
    value: Option<R>,
    lent: bool,
    readers: u64,
}

impl<R> Resources<R> {
    pub closed spec fn is_present(&self) -> bool {
        self.value is Some
    }

    pub closed spec fn is_lent(&self) -> bool {
        self.lent
    }

    /// The value in the store (meaningful while present).
    pub closed spec fn stored(&self) -> R {
        self.value.unwrap()
    }

    /// How many reader leases are out.
    pub closed spec fn readers(&self) -> nat {
        self.readers as nat
    }

    /// At most one of present and lent, and leases only on a present value.
    pub closed spec fn wf(&self) -> bool {
        &&& !(self.value is Some && self.lent)
        &&& self.readers > 0 ==> self.value is Some
    }

    pub open spec fn is_absent(&self) -> bool {
        !self.is_present() && !self.is_lent()
    }

    /// A resource is never both in the store and lent, and reader leases
    /// are only ever out on a resource in the store.
    pub proof fn lemma_lent_or_present(&self)
        requires
            self.wf(),
        ensures
            !(self.is_present() && self.is_lent()),
            self.readers() > 0 ==> self.is_present() && !self.is_lent(),
    {
    }

    /// No resource of the type yet.
    pub fn new() -> (r: Self)
        ensures
            r.wf(),
            r.is_absent(),
            r.readers() == 0,
    {
        Resources { value: None, lent: false, readers: 0 }
    }

    /// Whether nothing is stored and nothing is lent: what
    /// [`Resources::insert`] needs.
    pub fn absent(&self) -> (b: bool)
        ensures
            b == self.is_absent(),
    {
        self.value.is_none() && !self.lent
    }

    /// Store `resource` as the one value of its type.
    pub fn insert(&mut self, resource: R)
        requires
            old(self).wf(),
            old(self).is_absent(),
        ensures
            final(self).wf(),
            final(self).is_present(),
            !final(self).is_lent(),
            final(self).stored() == resource,
            final(self).readers() == old(self).readers(),
    {
        self.value = Some(resource);
    }

    /// A reader lease. `Some` exactly when the resource is in the store
    /// (and the count of leases has room), counting one more lease out.
    pub fn get(&mut self) -> (r: Option<Res<R>>)
        requires
            old(self).wf(),
        ensures
            final(self).wf(),
            r is Some <==> old(self).is_present() && old(self).readers() < u64::MAX,
            final(self).is_present() == old(self).is_present(),
            final(self).is_lent() == old(self).is_lent(),
            old(self).is_present() ==> final(self).stored() == old(self).stored(),
            final(self).readers() == (if r is Some { old(self).readers() + 1 } else { old(self).readers() }),
    {
        if self.value.is_some() && self.readers < u64::MAX {
            self.readers = self.readers + 1;
            Some(Res { marker: PhantomData })
        } else {
            None
        }
    }

    /// The value, for a reader. `None` if absent or lent.
    pub fn read(&self) -> (r: Option<&R>)
        ensures
            r is Some <==> self.is_present(),
            r matches Some(v) ==> *v == self.stored(),
    {
        match &self.value {
            Some(v) => Some(v),
            None => None,
        }
    }

    /// Give a reader lease back.
    pub fn release(&mut self, reader: Res<R>)
        requires
            old(self).wf(),
        ensures
            final(self).wf(),
            final(self).is_present() == old(self).is_present(),
            final(self).is_lent() == old(self).is_lent(),
            old(self).is_present() ==> final(self).stored() == old(self).stored(),
            final(self).readers() == (if old(self).readers() > 0 { old(self).readers() - 1 } else { 0 }),
    {
        if self.readers > 0 {
            self.readers = self.readers - 1;
        }
    }

    /// An exclusive write: the value leaves the store until
    /// [`Resources::restore`]. `Some` exactly when the resource is in the
    /// store and no reader lease is out; otherwise nothing changes.
    pub fn get_mut(&mut self) -> (r: Option<ResMut<R>>)
        requires
            old(self).wf(),
        ensures
            final(self).wf(),
            r is Some <==> old(self).is_present() && old(self).readers() == 0,
            r is None ==> *final(self) == *old(self),
            r matches Some(w) ==> final(self).is_lent() && !final(self).is_present() && w.spec_value() == old(self).stored()
                && final(self).readers() == 0,
    {
        if self.readers > 0 {
            return None;
        }
        match self.value.take() {
            None => None,
            Some(value) => {
                self.lent = true;
                Some(ResMut { value })
            },
        }
    }

    /// Put back the value a [`ResMut`] held.
    pub fn restore(&mut self, writer: ResMut<R>)
        requires
            old(self).wf(),
            old(self).is_lent(),
        ensures
            final(self).wf(),
            final(self).is_present(),
            !final(self).is_lent(),
            final(self).stored() == writer.spec_value(),
            final(self).readers() == old(self).readers(),
    {
        self.value = Some(writer.value);
        self.lent = false;
    }

    /// Take the value out for good. `Some` exactly when the resource is in
    /// the store and no reader lease is out, leaving it absent; otherwise
    /// nothing changes.
    pub fn remove(&mut self) -> (r: Option<R>)
        requires
            old(self).wf(),
        ensures
            final(self).wf(),
            r is Some <==> old(self).is_present() && old(self).readers() == 0,
            r is None ==> *final(self) == *old(self),
            r is Some ==> final(self).is_absent() && r.unwrap() == old(self).stored() && final(self).readers() == 0,
    {
        if self.readers > 0 {
            return None;
        }
        self.value.take()
    }
}

/// A reader lease on a resource: while it is out the resource cannot be
/// written or removed. It goes back with [`Resources::release`].
pub struct Res<R> {
    marker: PhantomData<R>,
}

/// An exclusive write to a resource, out of the store until it is put back.
pub struct ResMut<R> {
    value: R,
}

impl<R> ResMut<R> {
    pub closed spec fn spec_value(&self) -> R {
        self.value
    }

    pub fn value(&self) -> (r: &R)
        ensures
            *r == self.spec_value(),
    {
        &self.value
    }

    pub fn value_mut(&mut self) -> (r: &mut R)
        ensures
            *r == old(self).spec_value(),
            final(self).spec_value() == *final(r),
    {
        &mut self.value
    }
}

} // verus!
