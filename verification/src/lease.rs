//! The asymmetric ownership cell behind the object table: a `Resident`
//! owns an object together with its protocol metadata, and a `Lease` is a
//! temporary exclusive claim that moves the object out for the duration
//! of one handler call. At most one lease exists at a time; a second
//! claim fails rather than aliasing the object.
use vstd::prelude::*;

use crate::wire::Id;
use crate::Error;

verus! {

/// A protocol error raised by a dispatcher: the object it concerns and
/// the interface-specific error code.
#[derive(Clone, Copy, Debug, PartialEq, Eq, Structural)]
pub struct DispatchError {
    pub object: Id,
    pub error: u32,
}

/// An object held out of its cell for the duration of one operation,
/// along with the cell's protocol metadata.
pub struct Lease<T> {
    pub id: Id,
    pub interface: &'static str,
    pub version: u32,
    /// The leased object itself.
    pub value: T,
}

impl<T> Lease<T> {
    pub open spec fn spec_id(&self) -> Id {
        self.id
    }

    pub open spec fn spec_interface(&self) -> Seq<char> {
        self.interface@
    }

    pub open spec fn spec_version(&self) -> u32 {
        self.version
    }

    /// The id of the leased object.
    pub fn id(&self) -> (r: Id)
        ensures
            r == self.spec_id(),
    {
        self.id
    }

    /// The interface the leased object implements.
    pub fn interface(&self) -> (r: &'static str)
        ensures
            r@ == self.spec_interface(),
    {
        self.interface
    }

    /// The interface version the leased object was created with.
    pub fn version(&self) -> (r: u32)
        ensures
            r == self.spec_version(),
    {
        self.version
    }
}

/// The owning cell of one protocol object: the object, its id, its
/// interface name and version, and whether a lease is outstanding.
pub struct Resident<T> {
    id: Id,
    interface: &'static str,
    version: u32,
    leased: bool,
    value: Option<T>,
}

impl<T> Resident<T> {
    pub closed spec fn spec_id(&self) -> Id {
        self.id
    }

    pub closed spec fn spec_interface(&self) -> Seq<char> {
        self.interface@
    }

    pub closed spec fn spec_version(&self) -> u32 {
        self.version
    }

    /// Whether a lease on this cell is outstanding.
    pub closed spec fn spec_leased(&self) -> bool {
        self.leased
    }

    /// The stored object, absent while leased.
    pub closed spec fn spec_value(&self) -> Option<T> {
        self.value
    }

    /// The cell holds its object exactly when no lease is outstanding.
    pub open spec fn well_formed(&self) -> bool {
        self.spec_leased() <==> self.spec_value() is None
    }

    pub fn new(id: Id, interface: &'static str, version: u32, value: T) -> (r: Self)
        ensures
            r.well_formed(),
            r.spec_id() == id,
            r.spec_interface() == interface@,
            r.spec_version() == version,
            !r.spec_leased(),
            r.spec_value() == Some(value),
    {
        Resident { id, interface, version, leased: false, value: Some(value) }
    }

    /// A reference to the object, unless it is leased out.
    pub fn get(&self) -> (r: Option<&T>)
        requires
            self.well_formed(),
        ensures
            self.spec_leased() ==> r is None,
            !self.spec_leased() ==> r is Some && *r->Some_0 == self.spec_value()->Some_0,
    {
        if self.leased {
            None
        } else {
            self.value.as_ref()
        }
    }

    /// The id of the resident object.
    pub fn id(&self) -> (r: Id)
        ensures
            r == self.spec_id(),
    {
        self.id
    }

    /// The interface the resident object implements.
    pub fn interface(&self) -> (r: &'static str)
        ensures
            r@ == self.spec_interface(),
    {
        self.interface
    }

    /// The interface version the resident object was created with.
    pub fn version(&self) -> (r: u32)
        ensures
            r == self.spec_version(),
    {
        self.version
    }

    /// Claim the object. Fails with `DoubleLease` while another lease is
    /// outstanding; this is the at-most-one-lease discipline.
    pub fn lease(&mut self) -> (r: Result<Lease<T>, Error>)
        requires
            old(self).well_formed(),
        ensures
            final(self).well_formed(),
            final(self).spec_id() == old(self).spec_id(),
            final(self).spec_interface() == old(self).spec_interface(),
            final(self).spec_version() == old(self).spec_version(),
            old(self).spec_leased() ==> r is Err && r->Err_0 is DoubleLease && *final(self)
                == *old(self),
            !old(self).spec_leased() ==> {
                &&& final(self).spec_leased()
                &&& r is Ok
                &&& r->Ok_0.spec_id() == old(self).spec_id()
                &&& r->Ok_0.spec_interface() == old(self).spec_interface()
                &&& r->Ok_0.spec_version() == old(self).spec_version()
                &&& Some(r->Ok_0.value) == old(self).spec_value()
            },
    {
        if self.leased {
            Err(Error::DoubleLease)
        } else {
            let value = self.value.take().unwrap();
            self.leased = true;
            Ok(Lease { id: self.id, interface: self.interface, version: self.version, value })
        }
    }

    /// Return a leased object to its cell, ending the lease.
    pub fn end_lease(&mut self, lease: Lease<T>)
        requires
            old(self).well_formed(),
            old(self).spec_leased(),
        ensures
            final(self).well_formed(),
            !final(self).spec_leased(),
            final(self).spec_value() == Some(lease.value),
            final(self).spec_id() == old(self).spec_id(),
            final(self).spec_interface() == old(self).spec_interface(),
            final(self).spec_version() == old(self).spec_version(),
    {
        self.value = Some(lease.value);
        self.leased = false;
    }
}

} // verus!
