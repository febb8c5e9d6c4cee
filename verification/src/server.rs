//! The per-connection server state: the object table with its lease
//! discipline, the registry of advertised globals, the deferred delete
//! queue, the event serial, and the display/registry request handling
//! that every Wayland server owes its clients.
use vstd::prelude::*;

use std::collections::HashMap;

use crate::lease::{Lease, Resident};
use crate::types::NewId;
use crate::wire::{
    spec_header_word, spec_string_words, word_count, Id, Stream, WlError, WlErrorKind,
};
use crate::Error;
use vstd::utf8::encode_utf8;

verus! {

broadcast use vstd::std_specs::hash::group_hash_axioms;

/// A server-advertised object kind that clients may bind to. The
/// factory that builds the bound object lives with the caller; the
/// table here carries what the registry advertises.
pub struct Global {
    /// The numeric name broadcast through `registry.global`.
    pub name: u32,
    /// The interface the bound object will implement.
    pub interface: &'static str,
    /// The highest interface version offered.
    pub version: u32,
}

/// The words of a `display.delete_id(id)` event.
pub open spec fn spec_delete_id_words(id: u32) -> Seq<u32> {
    seq![1u32, spec_header_word(12, 1), id]
}

/// The words of a `callback.done(serial)` event.
pub open spec fn spec_done_words(callback: u32, serial: u32) -> Seq<u32> {
    seq![callback, spec_header_word(12, 0), serial]
}

/// The words of a `display.error(object, code, message)` event.
pub open spec fn spec_error_words(err: WlError) -> Seq<u32> {
    let desc = encode_utf8(WlError::spec_description(err.kind));
    seq![
        1u32,
        spec_header_word((20 + 4 * word_count((desc.len() + 1) as nat)) as u32, 0),
        err.object.spec_val(),
        err.error,
    ] + spec_string_words(desc)
}

/// The words of one `registry.global(name, interface, version)` event.
pub open spec fn spec_global_words(registry: Id, g: Global) -> Seq<u32> {
    let name = encode_utf8(g.interface@);
    seq![
        registry.spec_val(),
        spec_header_word((20 + 4 * word_count((name.len() + 1) as nat)) as u32, 0),
        g.name,
    ] + spec_string_words(name) + seq![g.version]
}

/// The words of the whole `registry.global` broadcast, one event per
/// registered global, in registration order.
pub open spec fn spec_registry_words(registry: Id, globals: Seq<Global>) -> Seq<u32>
    decreases globals.len(),
{
    if globals.len() == 0 {
        Seq::empty()
    } else {
        spec_global_words(registry, globals[0]) + spec_registry_words(registry, globals.skip(1))
    }
}

/// The server id counter steps forward through the server range
/// `[0xFF000000, 0xFFFFFFFF]`, wrapping at the top.
pub open spec fn spec_wrap_inc(c: u32) -> u32 {
    if c == 0xFFFF_FFFFu32 {
        0xFF00_0000u32
    } else {
        (c + 1) as u32
    }
}

/// The first id not in `dom`, searching from `c` and stepping with
/// `spec_wrap_inc`, giving up (on the current candidate) when the fuel
/// runs out.
pub open spec fn spec_next_free(dom: Set<u32>, c: u32, fuel: nat) -> u32
    decreases fuel,
{
    if fuel == 0 || !dom.contains(c) {
        c
    } else {
        spec_next_free(dom, spec_wrap_inc(c), (fuel - 1) as nat)
    }
}

/// The delete events that draining the queue sends: one
/// `display.delete_id` per queued id still in the table, in queue
/// order; ids already gone are passed over.
pub open spec fn spec_drain_words(dom: Set<u32>, queue: Seq<u32>) -> Seq<u32>
    decreases queue.len(),
{
    if queue.len() == 0 {
        Seq::empty()
    } else if dom.contains(queue[0]) {
        spec_delete_id_words(queue[0]) + spec_drain_words(dom.remove(queue[0]), queue.skip(1))
    } else {
        spec_drain_words(dom, queue.skip(1))
    }
}

/// A prefix one longer contains one more element.
proof fn lemma_take_snoc_contains(q: Seq<u32>, i: int, k: u32)
    requires
        0 <= i < q.len(),
    ensures
        q.take(i + 1).contains(k) <==> (q.take(i).contains(k) || q[i] == k),
{
    if q.take(i + 1).contains(k) {
        let j = choose|j: int| 0 <= j < q.take(i + 1).len() && #[trigger] q.take(i + 1)[j] == k;
        if j < i {
            assert(q.take(i)[j] == k);
        }
    }
    if q.take(i).contains(k) {
        let j = choose|j: int| 0 <= j < q.take(i).len() && #[trigger] q.take(i)[j] == k;
        assert(q.take(i + 1)[j] == k);
    }
    if q[i] == k {
        assert(q.take(i + 1)[i] == k);
    }
}

fn wrap_inc(c: u32) -> (r: u32)
    ensures
        r == spec_wrap_inc(c),
{
    if c == 0xFFFF_FFFF {
        0xFF00_0000
    } else {
        c + 1
    }
}

/// Well-formedness carries over to a state with the same table, the
/// same globals and the same delete queue.
proof fn lemma_wf_transfer<T>(a: Client<T>, b: Client<T>)
    requires
        a.well_formed(),
        b.spec_stream().well_formed(),
        b.spec_counter() >= 0xFF00_0000,
        b.spec_globals() == a.spec_globals(),
        b.spec_objects() == a.spec_objects(),
        b.spec_drop_queue() == a.spec_drop_queue(),
    ensures
        b.well_formed(),
{
    assert forall|i: int| 0 <= i < b.spec_globals().len() implies encode_utf8(
        (#[trigger] b.spec_globals()[i]).interface@,
    ).len() <= 4000 by {
        assert(encode_utf8(a.spec_globals()[i].interface@).len() <= 4000);
    }
    assert forall|k: u32| #[trigger] b.spec_objects().contains_key(k) implies b.spec_objects()[
        k
    ].well_formed() && b.spec_objects()[k].spec_id().spec_val() == k && k != 0 by {
        assert(a.spec_objects().contains_key(k));
    }
    assert forall|i: int| 0 <= i < b.spec_drop_queue().len() implies #[trigger] b.spec_drop_queue()[
        i
    ] != 0 by {
        assert(a.spec_drop_queue()[i] != 0);
    }
}

/// Well-formedness carries over to a state whose table differs at one
/// key only, provided that entry is itself well formed.
proof fn lemma_wf_update<T>(a: Client<T>, b: Client<T>, idv: u32)
    requires
        a.well_formed(),
        b.spec_stream().well_formed(),
        b.spec_counter() >= 0xFF00_0000,
        b.spec_globals() == a.spec_globals(),
        b.spec_drop_queue() == a.spec_drop_queue(),
        forall|k: u32|
            k != idv ==> (#[trigger] b.spec_objects().contains_key(k) <==> a.spec_objects().contains_key(k)),
        forall|k: u32|
            k != idv && #[trigger] b.spec_objects().contains_key(k) ==> b.spec_objects()[k]
                == a.spec_objects()[k],
        b.spec_objects().contains_key(idv) ==> b.spec_objects()[idv].well_formed()
            && b.spec_objects()[idv].spec_id().spec_val() == idv && idv != 0,
    ensures
        b.well_formed(),
{
    assert forall|i: int| 0 <= i < b.spec_globals().len() implies encode_utf8(
        (#[trigger] b.spec_globals()[i]).interface@,
    ).len() <= 4000 by {
        assert(encode_utf8(a.spec_globals()[i].interface@).len() <= 4000);
    }
    assert forall|k: u32| #[trigger] b.spec_objects().contains_key(k) implies b.spec_objects()[
        k
    ].well_formed() && b.spec_objects()[k].spec_id().spec_val() == k && k != 0 by {
        if k != idv {
            assert(a.spec_objects().contains_key(k));
            assert(a.spec_objects()[k].well_formed() && a.spec_objects()[k].spec_id().spec_val()
                == k && k != 0);
        }
    }
    assert forall|i: int| 0 <= i < b.spec_drop_queue().len() implies #[trigger] b.spec_drop_queue()[
        i
    ] != 0 by {
        assert(a.spec_drop_queue()[i] != 0);
    }
}

/// One connected Wayland client: its staging buffers, its table of
/// protocol objects, the globals it may bind, the ids queued for
/// deferred deletion, and its counters.
pub struct Client<T> {
    stream: Stream,
    objects: HashMap<u32, Resident<T>>,
    globals: Vec<Global>,
    drop_queue: Vec<u32>,
    new_id: u32,
    event_serial: u32,
}

impl<T> Client<T> {
    pub closed spec fn spec_stream(&self) -> Stream {
        self.stream
    }

    pub closed spec fn spec_objects(&self) -> Map<u32, Resident<T>> {
        self.objects@
    }

    pub closed spec fn spec_globals(&self) -> Seq<Global> {
        self.globals@
    }

    pub closed spec fn spec_drop_queue(&self) -> Seq<u32> {
        self.drop_queue@
    }

    pub closed spec fn spec_counter(&self) -> u32 {
        self.new_id
    }

    pub closed spec fn spec_serial(&self) -> u32 {
        self.event_serial
    }

    pub open spec fn well_formed(&self) -> bool {
        &&& self.spec_stream().well_formed()
        &&& self.spec_counter() >= 0xFF00_0000
        &&& forall|i: int|
            0 <= i < self.spec_globals().len() ==> encode_utf8(
                (#[trigger] self.spec_globals()[i]).interface@,
            ).len() <= 4000
        &&& forall|k: u32|
            #[trigger] self.spec_objects().contains_key(k) ==> self.spec_objects()[k].well_formed()
                && self.spec_objects()[k].spec_id().spec_val() == k && k != 0
        &&& forall|i: int|
            0 <= i < self.spec_drop_queue().len() ==> #[trigger] self.spec_drop_queue()[i] != 0
    }

    /// A fresh client around newly created buffers: an empty object
    /// table, no globals, no queued deletions, the server id counter at
    /// the bottom of the server range, and serial 0.
    pub fn new(stream: Stream) -> (r: Self)
        requires
            stream.well_formed(),
        ensures
            r.well_formed(),
            r.spec_stream() == stream,
            r.spec_objects() == Map::<u32, Resident<T>>::empty(),
            r.spec_globals() == Seq::<Global>::empty(),
            r.spec_drop_queue() == Seq::<u32>::empty(),
            r.spec_counter() == 0xFF00_0000u32,
            r.spec_serial() == 0u32,
    {
        Client {
            stream,
            objects: HashMap::new(),
            globals: Vec::new(),
            drop_queue: Vec::new(),
            new_id: 0xFF00_0000,
            event_serial: 0,
        }
    }

    /// The client's staging buffers, for pushing events and moving
    /// words in and out.
    pub fn stream(&mut self) -> (r: &mut Stream)
        ensures
            *r == old(self).spec_stream(),
            final(self).spec_stream() == *final(r),
            final(self).spec_objects() == old(self).spec_objects(),
            final(self).spec_globals() == old(self).spec_globals(),
            final(self).spec_drop_queue() == old(self).spec_drop_queue(),
            final(self).spec_counter() == old(self).spec_counter(),
            final(self).spec_serial() == old(self).spec_serial(),
    {
        &mut self.stream
    }

    /// Get an id for the next server-allocated object: the first id at
    /// or after the counter that no object uses, wrapping from the top
    /// of the server range back to `0xFF000000` and searching at most
    /// the whole server range. The counter moves past the returned id.
    pub fn new_id(&mut self) -> (r: u32)
        requires
            old(self).well_formed(),
        ensures
            final(self).well_formed(),
            final(self).spec_stream() == old(self).spec_stream(),
            final(self).spec_objects() == old(self).spec_objects(),
            final(self).spec_globals() == old(self).spec_globals(),
            final(self).spec_drop_queue() == old(self).spec_drop_queue(),
            final(self).spec_serial() == old(self).spec_serial(),
            r == spec_next_free(
                old(self).spec_objects().dom(),
                old(self).spec_counter(),
                0x0100_0000,
            ),
            r >= 0xFF00_0000u32,
            final(self).spec_counter() == spec_wrap_inc(r),
    {
        let ghost dom = self.objects@.dom();
        let ghost c0 = self.new_id;
        let mut fuel: u32 = 0x0100_0000;
        loop
            invariant
                self.well_formed(),
                self.objects@.dom() == dom,
                self.spec_stream() == old(self).spec_stream(),
                self.spec_objects() == old(self).spec_objects(),
                self.spec_globals() == old(self).spec_globals(),
                self.spec_drop_queue() == old(self).spec_drop_queue(),
                self.spec_serial() == old(self).spec_serial(),
                spec_next_free(dom, c0, 0x0100_0000) == spec_next_free(
                    dom,
                    self.spec_counter(),
                    fuel as nat,
                ),
            ensures
                self.well_formed(),
                self.spec_stream() == old(self).spec_stream(),
                self.spec_objects() == old(self).spec_objects(),
                self.spec_globals() == old(self).spec_globals(),
                self.spec_drop_queue() == old(self).spec_drop_queue(),
                self.spec_serial() == old(self).spec_serial(),
                self.spec_counter() == spec_next_free(dom, c0, 0x0100_0000),
            decreases fuel,
        {
            if fuel == 0 {
                break ;
            }
            if !self.objects.contains_key(&self.new_id) {
                break ;
            }
            let ghost pre = *self;
            self.new_id = wrap_inc(self.new_id);
            fuel = fuel - 1;
            proof {
                lemma_wf_transfer(pre, *self);
            }
        }
        let id = self.new_id;
        self.new_id = wrap_inc(id);
        proof {
            assert(spec_wrap_inc(id) >= 0xFF00_0000u32);
            lemma_wf_transfer(*old(self), *self);
        }
        id
    }

    /// Get the event serial, then increment it, wrapping at the top.
    pub fn next_event(&mut self) -> (r: u32)
        requires
            old(self).well_formed(),
        ensures
            final(self).well_formed(),
            final(self).spec_stream() == old(self).spec_stream(),
            final(self).spec_objects() == old(self).spec_objects(),
            final(self).spec_globals() == old(self).spec_globals(),
            final(self).spec_drop_queue() == old(self).spec_drop_queue(),
            final(self).spec_counter() == old(self).spec_counter(),
            r == old(self).spec_serial(),
            old(self).spec_serial() < 0xFFFF_FFFFu32 ==> final(self).spec_serial() == old(self).spec_serial() + 1,
            old(self).spec_serial() == 0xFFFF_FFFFu32 ==> final(self).spec_serial() == 0u32,
    {
        let serial = self.event_serial;
        if self.event_serial == 0xFFFF_FFFF {
            self.event_serial = 0;
        } else {
            self.event_serial = self.event_serial + 1;
        }
        proof {
            lemma_wf_transfer(*old(self), *self);
        }
        serial
    }

    /// Insert an object into the table and lease it to the caller.
    /// Fails when the id is already occupied, leaving the table
    /// unchanged.
    pub fn insert(&mut self, object: Resident<T>) -> (r: Result<Lease<T>, WlError>)
        requires
            old(self).well_formed(),
            object.well_formed(),
            !object.spec_leased(),
            object.spec_id().spec_val() != 0,
        ensures
            final(self).well_formed(),
            final(self).spec_stream() == old(self).spec_stream(),
            final(self).spec_globals() == old(self).spec_globals(),
            final(self).spec_drop_queue() == old(self).spec_drop_queue(),
            final(self).spec_counter() == old(self).spec_counter(),
            final(self).spec_serial() == old(self).spec_serial(),
            old(self).spec_objects().contains_key(object.spec_id().spec_val()) ==> r == Err::<
                Lease<T>,
                WlError,
            >(WlError::spec_internal()) && final(self).spec_objects() == old(self).spec_objects(),
            !old(self).spec_objects().contains_key(object.spec_id().spec_val()) ==> {
                let idv = object.spec_id().spec_val();
                &&& r is Ok
                &&& r->Ok_0.spec_id() == object.spec_id()
                &&& r->Ok_0.spec_interface() == object.spec_interface()
                &&& r->Ok_0.spec_version() == object.spec_version()
                &&& Some(r->Ok_0.value) == object.spec_value()
                &&& final(self).spec_objects().contains_key(idv)
                &&& final(self).spec_objects().remove(idv) == old(self).spec_objects()
                &&& final(self).spec_objects()[idv].spec_leased()
                &&& final(self).spec_objects()[idv].spec_id() == object.spec_id()
                &&& final(self).spec_objects()[idv].spec_interface() == object.spec_interface()
                &&& final(self).spec_objects()[idv].spec_version() == object.spec_version()
            },
    {
        let mut object = object;
        let id = object.id();
        let idv = id.to_u32();
        if self.objects.contains_key(&idv) {
            return Err(WlError::internal());
        }
        let lease = match object.lease() {
            Ok(l) => l,
            Err(_) => {
                return Err(WlError::internal());
            },
        };
        self.objects.insert(idv, object);
        proof {
            assert(self.spec_objects().remove(idv) =~= old(self).spec_objects());
            lemma_wf_update(*old(self), *self, idv);
        }
        Ok(lease)
    }

    /// Lease the object with the given id out of the table. Fails with
    /// `NoObject` when no such object exists, and with `DoubleLease`
    /// when a lease on it is already outstanding.
    pub fn lease(&mut self, id: Id) -> (r: Result<Lease<T>, Error>)
        requires
            old(self).well_formed(),
        ensures
            final(self).well_formed(),
            final(self).spec_stream() == old(self).spec_stream(),
            final(self).spec_globals() == old(self).spec_globals(),
            final(self).spec_drop_queue() == old(self).spec_drop_queue(),
            final(self).spec_counter() == old(self).spec_counter(),
            final(self).spec_serial() == old(self).spec_serial(),
            !old(self).spec_objects().contains_key(id.spec_val()) ==> r == Err::<Lease<T>, Error>(
                Error::NoObject(id.spec_val()),
            ) && final(self).spec_objects() == old(self).spec_objects(),
            old(self).spec_objects().contains_key(id.spec_val()) && old(self).spec_objects()[
                id.spec_val()
            ].spec_leased() ==> r is Err && r->Err_0 is DoubleLease && final(self).spec_objects()
                == old(self).spec_objects(),
            old(self).spec_objects().contains_key(id.spec_val()) && !old(self).spec_objects()[
                id.spec_val()
            ].spec_leased() ==> {
                let idv = id.spec_val();
                let cell = old(self).spec_objects()[idv];
                &&& r is Ok
                &&& r->Ok_0.spec_id() == cell.spec_id()
                &&& r->Ok_0.spec_interface() == cell.spec_interface()
                &&& r->Ok_0.spec_version() == cell.spec_version()
                &&& Some(r->Ok_0.value) == cell.spec_value()
                &&& final(self).spec_objects().contains_key(idv)
                &&& final(self).spec_objects().remove(idv) == old(self).spec_objects().remove(idv)
                &&& final(self).spec_objects()[idv].spec_leased()
                &&& final(self).spec_objects()[idv].spec_id() == cell.spec_id()
                &&& final(self).spec_objects()[idv].spec_interface() == cell.spec_interface()
                &&& final(self).spec_objects()[idv].spec_version() == cell.spec_version()
            },
    {
        let idv = id.to_u32();
        let mut resident = match self.objects.remove(&idv) {
            Some(r) => r,
            None => {
                proof {
                    assert(self.spec_objects() =~= old(self).spec_objects());
                    lemma_wf_transfer(*old(self), *self);
                }
                return Err(Error::NoObject(idv));
            },
        };
        proof {
            assert(old(self).spec_objects().contains_key(idv));
        }
        match resident.lease() {
            Ok(lease) => {
                self.objects.insert(idv, resident);
                proof {
                    assert(self.spec_objects().remove(idv) =~= old(self).spec_objects().remove(
                        idv,
                    ));
                    lemma_wf_update(*old(self), *self, idv);
                }
                Ok(lease)
            },
            Err(e) => {
                self.objects.insert(idv, resident);
                proof {
                    assert(self.spec_objects() =~= old(self).spec_objects());
                    lemma_wf_update(*old(self), *self, idv);
                }
                Err(e)
            },
        }
    }

    /// Return a leased object to its cell in the table. Fails with
    /// `NoObject` when the cell has been removed in the meantime — the
    /// object is then simply dropped, which is the deferred-free path —
    /// and with `DoubleLease` when the cell is not leased out.
    pub fn release(&mut self, lease: Lease<T>) -> (r: Result<(), Error>)
        requires
            old(self).well_formed(),
        ensures
            final(self).well_formed(),
            final(self).spec_stream() == old(self).spec_stream(),
            final(self).spec_globals() == old(self).spec_globals(),
            final(self).spec_drop_queue() == old(self).spec_drop_queue(),
            final(self).spec_counter() == old(self).spec_counter(),
            final(self).spec_serial() == old(self).spec_serial(),
            !old(self).spec_objects().contains_key(lease.spec_id().spec_val()) ==> r == Err::<
                (),
                Error,
            >(Error::NoObject(lease.spec_id().spec_val())) && final(self).spec_objects() == old(self).spec_objects(),
            old(self).spec_objects().contains_key(lease.spec_id().spec_val()) && !old(self).spec_objects()[lease.spec_id().spec_val()].spec_leased() ==> r is Err && r->Err_0
                is DoubleLease && final(self).spec_objects() == old(self).spec_objects(),
            old(self).spec_objects().contains_key(lease.spec_id().spec_val()) && old(self).spec_objects()[lease.spec_id().spec_val()].spec_leased() ==> {
                let idv = lease.spec_id().spec_val();
                let cell = old(self).spec_objects()[idv];
                &&& r is Ok
                &&& final(self).spec_objects().contains_key(idv)
                &&& final(self).spec_objects().remove(idv) == old(self).spec_objects().remove(idv)
                &&& !final(self).spec_objects()[idv].spec_leased()
                &&& final(self).spec_objects()[idv].spec_value() == Some(lease.value)
                &&& final(self).spec_objects()[idv].spec_id() == cell.spec_id()
                &&& final(self).spec_objects()[idv].spec_interface() == cell.spec_interface()
                &&& final(self).spec_objects()[idv].spec_version() == cell.spec_version()
            },
    {
        let idv = lease.id().to_u32();
        let mut resident = match self.objects.remove(&idv) {
            Some(r) => r,
            None => {
                proof {
                    assert(self.spec_objects() =~= old(self).spec_objects());
                    lemma_wf_transfer(*old(self), *self);
                }
                return Err(Error::NoObject(idv));
            },
        };
        proof {
            assert(old(self).spec_objects().contains_key(idv));
        }
        if resident.get().is_some() {
            self.objects.insert(idv, resident);
            proof {
                assert(self.spec_objects() =~= old(self).spec_objects());
                lemma_wf_transfer(*old(self), *self);
            }
            return Err(Error::DoubleLease);
        }
        resident.end_lease(lease);
        self.objects.insert(idv, resident);
        proof {
            assert(self.spec_objects().remove(idv) =~= old(self).spec_objects().remove(idv));
            lemma_wf_update(*old(self), *self, idv);
        }
        Ok(())
    }

    /// Remove the object with the given id from the table and send the
    /// client a `display.delete_id` event so it can recycle the id.
    pub fn remove(&mut self, id: Id) -> (r: Result<Resident<T>, WlError>)
        requires
            old(self).well_formed(),
        ensures
            final(self).well_formed(),
            final(self).spec_globals() == old(self).spec_globals(),
            final(self).spec_drop_queue() == old(self).spec_drop_queue(),
            final(self).spec_counter() == old(self).spec_counter(),
            final(self).spec_serial() == old(self).spec_serial(),
            final(self).spec_stream().rx() == old(self).spec_stream().rx(),
            final(self).spec_stream().rx_fds() == old(self).spec_stream().rx_fds(),
            final(self).spec_stream().tx_fds() == old(self).spec_stream().tx_fds(),
            !old(self).spec_objects().contains_key(id.spec_val()) ==> r == Err::<
                Resident<T>,
                WlError,
            >(WlError::spec_no_object()) && final(self).spec_objects() == old(self).spec_objects()
                && final(self).spec_stream().tx() == old(self).spec_stream().tx(),
            old(self).spec_objects().contains_key(id.spec_val()) ==> {
                &&& r is Ok
                &&& r->Ok_0 == old(self).spec_objects()[id.spec_val()]
                &&& final(self).spec_objects() == old(self).spec_objects().remove(id.spec_val())
                &&& final(self).spec_stream().tx() == old(self).spec_stream().tx()
                    + spec_delete_id_words(id.spec_val())
            },
    {
        let idv = id.to_u32();
        let resident = match self.objects.remove(&idv) {
            Some(r) => r,
            None => {
                proof {
                    assert(self.spec_objects() =~= old(self).spec_objects());
                    lemma_wf_transfer(*old(self), *self);
                }
                return Err(WlError::no_object());
            },
        };
        proof {
            assert(old(self).spec_objects().contains_key(idv));
        }
        let key = self.stream.start_message(Id::display(), 1);
        let _ = self.stream.send_object(Some(id));
        let _ = self.stream.commit(key);
        proof {
            assert(self.spec_stream().tx() =~= old(self).spec_stream().tx()
                + spec_delete_id_words(id.spec_val()));
            lemma_wf_update(*old(self), *self, idv);
        }
        Ok(resident)
    }

    /// Send a protocol error to the client through `display.error`.
    /// The description is bounded so that the event always fits a
    /// message frame.
    pub fn error(&mut self, error: &WlError) -> (r: Result<(), WlError>)
        requires
            old(self).well_formed(),
        ensures
            final(self).well_formed(),
            final(self).spec_objects() == old(self).spec_objects(),
            final(self).spec_globals() == old(self).spec_globals(),
            final(self).spec_drop_queue() == old(self).spec_drop_queue(),
            final(self).spec_counter() == old(self).spec_counter(),
            final(self).spec_serial() == old(self).spec_serial(),
            final(self).spec_stream().rx() == old(self).spec_stream().rx(),
            final(self).spec_stream().rx_fds() == old(self).spec_stream().rx_fds(),
            final(self).spec_stream().tx_fds() == old(self).spec_stream().tx_fds(),
            encode_utf8(WlError::spec_description(error.kind)).len() <= 65000 ==> r is Ok && final(self).spec_stream().tx() == old(self).spec_stream().tx() + spec_error_words(*error),
            encode_utf8(WlError::spec_description(error.kind)).len() > 65000 ==> r == Err::<
                (),
                WlError,
            >(WlError::spec_internal()) && final(self).spec_stream().tx() == old(self).spec_stream().tx(),
    {
        let desc = error.description();
        if desc.as_bytes().len() > 65000 {
            return Err(WlError::internal());
        }
        let key = self.stream.start_message(Id::display(), 0);
        let _ = self.stream.send_object(Some(error.object));
        let _ = self.stream.send_u32(error.error);
        let _ = self.stream.send_string(Some(desc));
        let r = self.stream.commit(key);
        proof {
            assert(self.spec_stream().tx() =~= old(self).spec_stream().tx() + spec_error_words(
                *error,
            ));
            lemma_wf_transfer(*old(self), *self);
        }
        r
    }

    /// Advertise a global; later `get_registry` requests broadcast it
    /// in registration order. The interface name is bounded so that the
    /// broadcast event always fits a message frame.
    pub fn register_global(&mut self, global: Global)
        requires
            old(self).well_formed(),
            encode_utf8(global.interface@).len() <= 4000,
        ensures
            final(self).well_formed(),
            final(self).spec_stream() == old(self).spec_stream(),
            final(self).spec_objects() == old(self).spec_objects(),
            final(self).spec_drop_queue() == old(self).spec_drop_queue(),
            final(self).spec_counter() == old(self).spec_counter(),
            final(self).spec_serial() == old(self).spec_serial(),
            final(self).spec_globals() == old(self).spec_globals().push(global),
    {
        self.globals.push(global);
        proof {
            assert forall|i: int| 0 <= i < self.spec_globals().len() implies encode_utf8(
                (#[trigger] self.spec_globals()[i]).interface@,
            ).len() <= 4000 by {
                if i < old(self).spec_globals().len() {
                    assert(encode_utf8(old(self).spec_globals()[i].interface@).len() <= 4000);
                }
            }
            assert forall|k: u32| #[trigger] self.spec_objects().contains_key(k) implies self.spec_objects()[
                k
            ].well_formed() && self.spec_objects()[k].spec_id().spec_val() == k && k != 0 by {
                assert(old(self).spec_objects().contains_key(k));
            }
            assert forall|i: int|
                0 <= i < self.spec_drop_queue().len() implies #[trigger] self.spec_drop_queue()[
                i
            ] != 0 by {
                assert(old(self).spec_drop_queue()[i] != 0);
            }
        }
    }

    /// The globals registered so far, in registration order.
    pub fn globals(&self) -> (r: &Vec<Global>)
        ensures
            r@ == self.spec_globals(),
    {
        &self.globals
    }

    /// Queue an object id for deferred deletion; queuing the same id
    /// twice has no further effect.
    pub fn queue_delete(&mut self, id: Id)
        requires
            old(self).well_formed(),
            id.spec_val() != 0,
        ensures
            final(self).well_formed(),
            final(self).spec_stream() == old(self).spec_stream(),
            final(self).spec_objects() == old(self).spec_objects(),
            final(self).spec_globals() == old(self).spec_globals(),
            final(self).spec_counter() == old(self).spec_counter(),
            final(self).spec_serial() == old(self).spec_serial(),
            old(self).spec_drop_queue().contains(id.spec_val()) ==> final(self).spec_drop_queue()
                == old(self).spec_drop_queue(),
            !old(self).spec_drop_queue().contains(id.spec_val()) ==> final(self).spec_drop_queue()
                == old(self).spec_drop_queue().push(id.spec_val()),
    {
        let idv = id.to_u32();
        let mut i: usize = 0;
        while i < self.drop_queue.len()
            invariant
                idv == id.spec_val(),
                i <= self.drop_queue@.len(),
                forall|j: int| 0 <= j < i ==> self.spec_drop_queue()[j] != idv,
                self.well_formed(),
                *self == *old(self),
            decreases self.drop_queue@.len() - i,
        {
            if self.drop_queue[i] == idv {
                proof {
                    assert(old(self).spec_drop_queue()[i as int] == idv);
                    assert(old(self).spec_drop_queue().contains(idv));
                }
                return ;
            }
            i = i + 1;
        }
        self.drop_queue.push(idv);
        proof {
            assert forall|i: int|
                0 <= i < self.spec_drop_queue().len() implies #[trigger] self.spec_drop_queue()[
                i
            ] != 0 by {
                if i < old(self).spec_drop_queue().len() {
                    assert(old(self).spec_drop_queue()[i] != 0);
                }
            }
            assert forall|i: int| 0 <= i < self.spec_globals().len() implies encode_utf8(
                (#[trigger] self.spec_globals()[i]).interface@,
            ).len() <= 4000 by {
                assert(encode_utf8(old(self).spec_globals()[i].interface@).len() <= 4000);
            }
            assert forall|k: u32| #[trigger] self.spec_objects().contains_key(k) implies self.spec_objects()[
                k
            ].well_formed() && self.spec_objects()[k].spec_id().spec_val() == k && k != 0 by {
                assert(old(self).spec_objects().contains_key(k));
            }
        }
    }
}

impl<T> Client<T> {
    /// Drain the deferred delete queue: remove each queued object that
    /// is still in the table and send `display.delete_id` for it. Ids
    /// already gone are skipped, so a deletion queued twice, or an
    /// object deleted by other means in the meantime, does no harm.
    pub fn drain_deletes(&mut self)
        requires
            old(self).well_formed(),
        ensures
            final(self).well_formed(),
            final(self).spec_globals() == old(self).spec_globals(),
            final(self).spec_counter() == old(self).spec_counter(),
            final(self).spec_serial() == old(self).spec_serial(),
            final(self).spec_stream().rx() == old(self).spec_stream().rx(),
            final(self).spec_stream().rx_fds() == old(self).spec_stream().rx_fds(),
            final(self).spec_stream().tx_fds() == old(self).spec_stream().tx_fds(),
            final(self).spec_drop_queue() == Seq::<u32>::empty(),
            forall|k: u32|
                #[trigger] final(self).spec_objects().contains_key(k) <==> (old(self).spec_objects().contains_key(k) && !old(self).spec_drop_queue().contains(k)),
            forall|k: u32|
                #[trigger] final(self).spec_objects().contains_key(k) ==> final(self).spec_objects()[k] == old(self).spec_objects()[k],
            final(self).spec_stream().tx() == old(self).spec_stream().tx() + spec_drain_words(
                old(self).spec_objects().dom(),
                old(self).spec_drop_queue(),
            ),
    {
        let ghost q0 = self.drop_queue@;
        let ghost obj0 = self.objects@;
        let ghost tx0 = self.stream.tx();
        let ghost mut i: int = 0;
        while self.drop_queue.len() > 0
            invariant
                self.well_formed(),
                0 <= i <= q0.len(),
                self.spec_drop_queue() == q0.skip(i),
                self.spec_globals() == old(self).spec_globals(),
                self.spec_counter() == old(self).spec_counter(),
                self.spec_serial() == old(self).spec_serial(),
                self.spec_stream().rx() == old(self).spec_stream().rx(),
                self.spec_stream().rx_fds() == old(self).spec_stream().rx_fds(),
                self.spec_stream().tx_fds() == old(self).spec_stream().tx_fds(),
                q0 == old(self).spec_drop_queue(),
                obj0 == old(self).spec_objects(),
                tx0 == old(self).spec_stream().tx(),
                forall|k: u32|
                    #[trigger] self.spec_objects().contains_key(k) <==> (obj0.contains_key(k)
                        && !q0.take(i).contains(k)),
                forall|k: u32|
                    #[trigger] self.spec_objects().contains_key(k) ==> self.spec_objects()[k]
                        == obj0[k],
                tx0 + spec_drain_words(obj0.dom(), q0) == self.spec_stream().tx()
                    + spec_drain_words(self.spec_objects().dom(), q0.skip(i)),
            decreases q0.len() - i,
        {
            let idv = self.drop_queue.remove(0);
            proof {
                assert(idv == q0.skip(i)[0]);
                assert(idv == q0[i]);
                assert(self.drop_queue@ =~= q0.skip(i + 1));
            }
            let ghost pre = *self;
            let removed = self.objects.remove(&idv);
            match removed {
                Some(_) => {
                    let key = self.stream.start_message(Id::display(), 1);
                    let _ = self.stream.send_object(Some(Id::new(idv)));
                    let _ = self.stream.commit(key);
                    proof {
                        assert(pre.spec_objects().contains_key(idv));
                        assert(self.spec_objects() =~= pre.spec_objects().remove(idv));
                        assert(self.spec_objects().dom() =~= pre.spec_objects().dom().remove(
                            idv,
                        ));
                        assert(self.spec_stream().tx() =~= pre.spec_stream().tx()
                            + spec_delete_id_words(idv));
                        assert(spec_drain_words(pre.spec_objects().dom(), q0.skip(i))
                            == spec_delete_id_words(idv) + spec_drain_words(
                            self.spec_objects().dom(),
                            q0.skip(i).skip(1),
                        ));
                        assert(q0.skip(i).skip(1) =~= q0.skip(i + 1));
                        assert(pre.spec_stream().tx() + (spec_delete_id_words(idv)
                            + spec_drain_words(self.spec_objects().dom(), q0.skip(i + 1))) =~= (
                        pre.spec_stream().tx() + spec_delete_id_words(idv)) + spec_drain_words(
                            self.spec_objects().dom(),
                            q0.skip(i + 1),
                        ));
                    }
                },
                None => {
                    proof {
                        assert(!pre.spec_objects().contains_key(idv));
                        assert(self.spec_objects() =~= pre.spec_objects());
                        assert(q0.skip(i).skip(1) =~= q0.skip(i + 1));
                    }
                },
            }
            proof {
                assert forall|k: u32| #[trigger]
                    self.spec_objects().contains_key(k) <==> (obj0.contains_key(k) && !q0.take(
                        i + 1,
                    ).contains(k)) by {
                    lemma_take_snoc_contains(q0, i, k);
                }
                i = i + 1;
                lemma_wf_update(pre, *self, idv);
            }
        }
        proof {
            assert(q0.take(i) =~= q0);
            assert(q0.skip(i) =~= Seq::<u32>::empty());
            assert(self.spec_drop_queue() =~= Seq::<u32>::empty());
            assert(self.spec_stream().tx() + spec_drain_words(
                self.spec_objects().dom(),
                Seq::<u32>::empty(),
            ) =~= self.spec_stream().tx());
        }
    }

    /// Handle `display.sync`: create the callback object, emit
    /// `callback.done` carrying the current event serial, step the
    /// serial, then delete the callback again, which sends
    /// `display.delete_id` after the `done` event.
    pub fn handle_sync(&mut self, callback: Id, value: T) -> (r: Result<(), WlError>)
        requires
            old(self).well_formed(),
            callback.spec_val() != 0,
        ensures
            final(self).well_formed(),
            final(self).spec_globals() == old(self).spec_globals(),
            final(self).spec_drop_queue() == old(self).spec_drop_queue(),
            final(self).spec_counter() == old(self).spec_counter(),
            final(self).spec_stream().rx() == old(self).spec_stream().rx(),
            final(self).spec_stream().rx_fds() == old(self).spec_stream().rx_fds(),
            final(self).spec_stream().tx_fds() == old(self).spec_stream().tx_fds(),
            old(self).spec_objects().contains_key(callback.spec_val()) ==> r == Err::<
                (),
                WlError,
            >(WlError::spec_internal()) && final(self).spec_objects() == old(self).spec_objects()
                && final(self).spec_stream().tx() == old(self).spec_stream().tx() && final(self).spec_serial() == old(self).spec_serial(),
            !old(self).spec_objects().contains_key(callback.spec_val()) ==> {
                &&& r is Ok
                &&& final(self).spec_objects() == old(self).spec_objects()
                &&& final(self).spec_stream().tx() == old(self).spec_stream().tx()
                    + spec_done_words(callback.spec_val(), old(self).spec_serial())
                    + spec_delete_id_words(callback.spec_val())
                &&& (old(self).spec_serial() < 0xFFFF_FFFFu32 ==> final(self).spec_serial() == old(self).spec_serial() + 1)
                &&& (old(self).spec_serial() == 0xFFFF_FFFFu32 ==> final(self).spec_serial()
                    == 0u32)
            },
    {
        let lease = match self.insert(Resident::new(callback, "wl_callback", 1, value)) {
            Ok(l) => l,
            Err(e) => {
                return Err(e);
            },
        };
        let _ = self.release(lease);
        let serial = self.next_event();
        let key = self.stream.start_message(callback, 0);
        let _ = self.stream.send_u32(serial);
        let _ = self.stream.commit(key);
        let ghost mid = *self;
        let removed = self.remove(callback);
        proof {
            assert(removed is Ok);
            assert(self.spec_objects() =~= old(self).spec_objects());
            assert(mid.spec_stream().tx() =~= old(self).spec_stream().tx() + spec_done_words(
                callback.spec_val(),
                old(self).spec_serial(),
            ));
            assert(self.spec_stream().tx() =~= old(self).spec_stream().tx() + spec_done_words(
                callback.spec_val(),
                old(self).spec_serial(),
            ) + spec_delete_id_words(callback.spec_val()));
        }
        Ok(())
    }

    /// Handle `display.get_registry`: create the registry object and
    /// broadcast one `registry.global` event per registered global, in
    /// registration order.
    pub fn handle_get_registry(&mut self, registry: Id, value: T) -> (r: Result<(), WlError>)
        requires
            old(self).well_formed(),
            registry.spec_val() != 0,
        ensures
            final(self).well_formed(),
            final(self).spec_globals() == old(self).spec_globals(),
            final(self).spec_drop_queue() == old(self).spec_drop_queue(),
            final(self).spec_counter() == old(self).spec_counter(),
            final(self).spec_serial() == old(self).spec_serial(),
            final(self).spec_stream().rx() == old(self).spec_stream().rx(),
            final(self).spec_stream().rx_fds() == old(self).spec_stream().rx_fds(),
            final(self).spec_stream().tx_fds() == old(self).spec_stream().tx_fds(),
            old(self).spec_objects().contains_key(registry.spec_val()) ==> r == Err::<
                (),
                WlError,
            >(WlError::spec_internal()) && final(self).spec_objects() == old(self).spec_objects()
                && final(self).spec_stream().tx() == old(self).spec_stream().tx(),
            !old(self).spec_objects().contains_key(registry.spec_val()) ==> {
                let idv = registry.spec_val();
                &&& r is Ok
                &&& final(self).spec_objects().contains_key(idv)
                &&& final(self).spec_objects().remove(idv) == old(self).spec_objects()
                &&& !final(self).spec_objects()[idv].spec_leased()
                &&& final(self).spec_objects()[idv].spec_id() == registry
                &&& final(self).spec_objects()[idv].spec_interface() == "wl_registry"@
                &&& final(self).spec_objects()[idv].spec_version() == 1u32
                &&& final(self).spec_objects()[idv].spec_value() == Some(value)
                &&& final(self).spec_stream().tx() == old(self).spec_stream().tx()
                    + spec_registry_words(registry, old(self).spec_globals())
            },
    {
        let lease = match self.insert(Resident::new(registry, "wl_registry", 1, value)) {
            Ok(l) => l,
            Err(e) => {
                return Err(e);
            },
        };
        let _ = self.release(lease);
        let ghost base = *self;
        let ghost gs = self.globals@;
        let mut i: usize = 0;
        while i < self.globals.len()
            invariant
                self.well_formed(),
                i <= gs.len(),
                gs == self.spec_globals(),
                self.spec_objects() == base.spec_objects(),
                self.spec_globals() == base.spec_globals(),
                self.spec_drop_queue() == base.spec_drop_queue(),
                self.spec_counter() == base.spec_counter(),
                self.spec_serial() == base.spec_serial(),
                self.spec_stream().rx() == base.spec_stream().rx(),
                self.spec_stream().rx_fds() == base.spec_stream().rx_fds(),
                self.spec_stream().tx_fds() == base.spec_stream().tx_fds(),
                self.spec_stream().tx() == base.spec_stream().tx() + spec_registry_words(
                    registry,
                    gs.take(i as int),
                ),
            decreases gs.len() - i,
        {
            let ghost pre = *self;
            let name = self.globals[i].name;
            let interface = self.globals[i].interface;
            let version = self.globals[i].version;
            let key = self.stream.start_message(registry, 0);
            let _ = self.stream.send_u32(name);
            let _ = self.stream.send_string(Some(interface));
            let _ = self.stream.send_u32(version);
            let _ = self.stream.commit(key);
            proof {
                assert(self.spec_stream().tx() =~= pre.spec_stream().tx() + spec_global_words(
                    registry,
                    gs[i as int],
                ));
                lemma_registry_words_snoc(registry, gs, i as int);
                assert(base.spec_stream().tx() + spec_registry_words(
                    registry,
                    gs.take(i as int),
                ) + spec_global_words(registry, gs[i as int]) =~= base.spec_stream().tx()
                    + spec_registry_words(registry, gs.take(i as int + 1)));
            }
            i = i + 1;
        }
        proof {
            assert(gs.take(gs.len() as int) =~= gs);
        }
        Ok(())
    }

    /// Handle `registry.bind`: find the global with the requested name
    /// and check the requested version against what is offered. On
    /// success the index of the matching global is returned so the
    /// caller can run its factory; an unknown name or an excessive
    /// version is a protocol error blamed on the registry object, and
    /// nothing is inserted.
    pub fn handle_bind(&mut self, registry: Id, name: u32, new_id: &NewId) -> (r: Result<
        usize,
        WlError,
    >)
        requires
            old(self).well_formed(),
        ensures
            final(self).well_formed(),
            *final(self) == *old(self),
            r is Ok ==> {
                let i = r->Ok_0 as int;
                &&& i < old(self).spec_globals().len()
                &&& old(self).spec_globals()[i].name == name
                &&& (forall|j: int|
                    0 <= j < i ==> (#[trigger] old(self).spec_globals()[j]).name != name)
                &&& new_id.version <= old(self).spec_globals()[i].version
            },
            (forall|j: int|
                0 <= j < old(self).spec_globals().len() ==> (#[trigger] old(self).spec_globals()[
                    j
                ]).name != name) <==> r == Err::<usize, WlError>(
                WlError { object: registry, error: 0, kind: WlErrorKind::NoGlobal },
            ),
            r is Err && r->Err_0.kind == WlErrorKind::UnsupportedVersion <==> (exists|i: int|
                0 <= i < old(self).spec_globals().len() && (#[trigger] old(self).spec_globals()[
                    i
                ]).name == name && (forall|j: int|
                    0 <= j < i ==> (#[trigger] old(self).spec_globals()[j]).name != name)
                    && new_id.version > old(self).spec_globals()[i].version),
            r is Err && r->Err_0.kind == WlErrorKind::UnsupportedVersion ==> r->Err_0 == (WlError {
                object: registry,
                error: 1,
                kind: WlErrorKind::UnsupportedVersion,
            }),
            (exists|i: int|
                0 <= i < old(self).spec_globals().len() && (#[trigger] old(self).spec_globals()[
                    i
                ]).name == name && (forall|j: int|
                    0 <= j < i ==> (#[trigger] old(self).spec_globals()[j]).name != name)
                    && new_id.version <= old(self).spec_globals()[i].version) ==> r is Ok,
    {
        let mut i: usize = 0;
        while i < self.globals.len()
            invariant
                self.well_formed(),
                *self == *old(self),
                i <= self.spec_globals().len(),
                forall|j: int| 0 <= j < i ==> (#[trigger] self.spec_globals()[j]).name != name,
            decreases self.spec_globals().len() - i,
        {
            if self.globals[i].name == name {
                if new_id.version() > self.globals[i].version {
                    return Err(
                        WlError {
                            object: registry,
                            error: 1,
                            kind: WlErrorKind::UnsupportedVersion,
                        },
                    );
                }
                return Ok(i);
            }
            i = i + 1;
        }
        Err(WlError { object: registry, error: 0, kind: WlErrorKind::NoGlobal })
    }
}

/// Appending one more global to the broadcast appends its event.
proof fn lemma_registry_words_snoc(registry: Id, gs: Seq<Global>, i: int)
    requires
        0 <= i < gs.len(),
    ensures
        spec_registry_words(registry, gs.take(i + 1)) == spec_registry_words(
            registry,
            gs.take(i),
        ) + spec_global_words(registry, gs[i]),
    decreases i,
{
    if i == 0 {
        assert(gs.take(1) =~= seq![gs[0]]);
        assert(gs.take(1).skip(1) =~= Seq::<Global>::empty());
        assert(gs.take(0) =~= Seq::<Global>::empty());
        assert(spec_registry_words(registry, Seq::<Global>::empty()) == Seq::<u32>::empty());
        assert(spec_registry_words(registry, gs.take(0)) + spec_global_words(registry, gs[0])
            =~= spec_global_words(registry, gs[0]));
        assert(spec_registry_words(registry, gs.take(1)) =~= spec_global_words(
            registry,
            gs[0],
        ));
    } else {
        lemma_registry_words_snoc(registry, gs.skip(1), i - 1);
        assert(gs.take(i + 1).skip(1) =~= gs.skip(1).take(i));
        assert(gs.take(i).skip(1) =~= gs.skip(1).take(i - 1));
        assert(gs.take(i + 1)[0] == gs[0]);
        assert(gs.take(i)[0] == gs[0]);
        assert(gs.skip(1)[i - 1] == gs[i]);
        assert(spec_global_words(registry, gs[0]) + (spec_registry_words(
            registry,
            gs.skip(1).take(i - 1),
        ) + spec_global_words(registry, gs[i])) =~= (spec_global_words(registry, gs[0])
            + spec_registry_words(registry, gs.skip(1).take(i - 1))) + spec_global_words(
            registry,
            gs[i],
        ));
    }
}

/// Law: after an id is removed from the table, a lookup of that id
/// finds nothing, so `lease` reports `NoObject(id)` for it.
pub proof fn lemma_removed_then_no_object<T>(m: Map<u32, Resident<T>>, id: u32)
    ensures
        !m.remove(id).contains_key(id),
{
}

/// The free-id search never steps below its starting point as long as
/// some id at or above the start, within reach of the fuel, is free.
pub proof fn lemma_next_free_no_wrap(dom: Set<u32>, c: u32, fuel: nat, j: u32)
    requires
        c <= j,
        !dom.contains(j),
        fuel > j - c,
    ensures
        c <= spec_next_free(dom, c, fuel) <= j,
    decreases j - c,
{
    if dom.contains(c) {
        assert(c < j);
        assert(spec_wrap_inc(c) == c + 1);
        lemma_next_free_no_wrap(dom, (c + 1) as u32, (fuel - 1) as nat, j);
    }
}

/// Law: ids from consecutive `new_id` calls with no insertions in
/// between are strictly increasing — modulo the wrap of the counter,
/// which cannot occur while a free id remains above the first result.
/// The second call searches from the counter, which `new_id` left at
/// the successor of the first result.
pub proof fn lemma_new_id_monotone(dom: Set<u32>, r1: u32, fuel: nat, j: u32)
    requires
        r1 < j,
        !dom.contains(j),
        fuel > j - (r1 + 1),
    ensures
        spec_next_free(dom, spec_wrap_inc(r1), fuel) > r1,
{
    assert(spec_wrap_inc(r1) == r1 + 1);
    lemma_next_free_no_wrap(dom, (r1 + 1) as u32, fuel, j);
}

} // verus!
