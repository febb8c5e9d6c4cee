//! The reactor's source table: event sources keyed by file descriptor,
//! with the checkout discipline that `wait` relies on. A ready source is
//! taken out of its slot before its callback runs — leaving a sentinel
//! behind — so the callback may add or remove *other* sources freely; a
//! reentrant checkout of the same descriptor finds the sentinel and gets
//! nothing. The caller puts the source back afterwards, or removes the
//! slot for good on error or hang-up.
use vstd::prelude::*;

use std::collections::HashMap;

verus! {

broadcast use vstd::std_specs::hash::group_hash_axioms;

/// Event sources by file descriptor; `None` marks a slot whose source
/// is checked out.
pub struct SourceTable<T> {
    slots: HashMap<u32, Option<T>>,
}

impl<T> SourceTable<T> {
    pub closed spec fn view(&self) -> Map<u32, Option<T>> {
        self.slots@
    }

    /// An empty table.
    pub fn new() -> (r: Self)
        ensures
            r@ == Map::<u32, Option<T>>::empty(),
    {
        SourceTable { slots: HashMap::new() }
    }

    /// Register a source under its descriptor; a source already
    /// registered there is replaced.
    pub fn add(&mut self, fd: u32, source: T)
        ensures
            final(self)@ == old(self)@.insert(fd, Some(source)),
    {
        self.slots.insert(fd, Some(source));
    }

    /// Check the source for `fd` out of its slot, leaving the sentinel
    /// behind. Nothing comes out when the descriptor is unknown or its
    /// source is already checked out — a source cannot be leased twice.
    pub fn checkout(&mut self, fd: u32) -> (r: Option<T>)
        ensures
            !old(self)@.contains_key(fd) ==> r is None && final(self)@ == old(self)@,
            old(self)@.contains_key(fd) && old(self)@[fd] is None ==> r is None && final(self)@
                == old(self)@,
            old(self)@.contains_key(fd) && old(self)@[fd] is Some ==> r == old(self)@[fd] && final(self)@ == old(self)@.insert(fd, None),
    {
        match self.slots.remove(&fd) {
            None => {
                proof {
                    assert(self@ =~= old(self)@);
                }
                None
            },
            Some(slot) => {
                self.slots.insert(fd, None);
                match slot {
                    None => {
                        proof {
                            assert(self@ =~= old(self)@);
                        }
                        None
                    },
                    Some(source) => Some(source),
                }
            },
        }
    }

    /// Put a checked-out source back into its slot. The slot must still
    /// be present and vacated: a source must not remove its own entry
    /// while it is out.
    pub fn restore(&mut self, fd: u32, source: T)
        requires
            old(self)@.contains_key(fd),
            old(self)@[fd] is None,
        ensures
            final(self)@ == old(self)@.insert(fd, Some(source)),
    {
        self.slots.insert(fd, Some(source));
    }

    /// Drop a descriptor's slot entirely, returning whatever it held.
    pub fn remove(&mut self, fd: u32) -> (r: Option<Option<T>>)
        ensures
            !old(self)@.contains_key(fd) ==> r is None && final(self)@ == old(self)@,
            old(self)@.contains_key(fd) ==> r == Some(old(self)@[fd]) && final(self)@ == old(self)@.remove(fd),
    {
        let r = self.slots.remove(&fd);
        proof {
            if !old(self)@.contains_key(fd) {
                assert(self@ =~= old(self)@);
            }
        }
        r
    }

    /// Whether a descriptor is registered, checked out or not.
    pub fn contains(&self, fd: u32) -> (r: bool)
        ensures
            r == self@.contains_key(fd),
    {
        self.slots.contains_key(&fd)
    }
}

} // verus!
