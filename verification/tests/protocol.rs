use wl::lease::Resident;
use wl::server::{Client, Global};
use wl::types::NewId;
use wl::wire::{Id, Stream, WlErrorKind};
use wl::Error;

fn word(bytes: &[u8]) -> u32 {
    let mut v: [u8; 4] = [0; 4];
    for (i, b) in bytes.iter().enumerate() {
        v[i] = *b;
    }
    u32::from_le_bytes(v)
}

fn fresh_client() -> Client<u32> {
    let mut client = Client::new(Stream::new());
    let lease = client
        .insert(Resident::new(Id::new(1), "wl_display", 1, 0))
        .unwrap();
    client.release(lease).unwrap();
    client
}

#[test]
fn bootstrap_broadcasts_globals_in_order() {
    // get_registry inserts the registry and emits one global event per
    // registered global, in registration order.
    let mut client = fresh_client();
    client.register_global(Global { name: 1, interface: "wl_shm", version: 1 });
    client.register_global(Global { name: 2, interface: "wl_compositor", version: 4 });
    client.handle_get_registry(Id::new(2), 7).unwrap();

    let expected: Vec<u32> = vec![
        // registry@2.global(1, "wl_shm", 1): 7 words = 28 bytes.
        2, 28 << 16, 1, 7, word(b"wl_s"), word(b"hm\0\0"), 1,
        // registry@2.global(2, "wl_compositor", 4): 9 words = 36 bytes.
        2, 36 << 16, 2, 14, word(b"wl_c"), word(b"ompo"), word(b"sito"), word(b"r\0\0\0"), 4,
    ];
    assert_eq!(client.stream().tx_words(), &expected);

    // The registry object is now resident.
    let lease = client.lease(Id::new(2)).unwrap();
    assert_eq!(lease.interface(), "wl_registry");
    assert_eq!(lease.version(), 1);
    assert_eq!(lease.value, 7);
    client.release(lease).unwrap();
}

#[test]
fn sync_emits_done_then_delete_and_removes() {
    let mut client = fresh_client();
    client.handle_sync(Id::new(3), 0).unwrap();
    // Two messages: callback@3.done(serial 0), then display@1.delete_id(3).
    let expected: Vec<u32> = vec![3, 12 << 16, 0, 1, (12 << 16) | 1, 3];
    assert_eq!(client.stream().tx_words(), &expected);
    // The serial stepped and the callback is gone.
    assert_eq!(client.next_event(), 1);
    match client.lease(Id::new(3)) {
        Err(Error::NoObject(3)) => {},
        _ => panic!("callback object should be gone"),
    }
}

#[test]
fn bind_unknown_global_reports_and_inserts_nothing() {
    let mut client = fresh_client();
    client.register_global(Global { name: 1, interface: "wl_shm", version: 1 });
    client.register_global(Global { name: 2, interface: "wl_compositor", version: 4 });

    let new_id = NewId::new(10, 1, "wl_shm".to_string());
    let err = client.handle_bind(Id::new(2), 99, &new_id).unwrap_err();
    assert_eq!(err.kind, WlErrorKind::NoGlobal);
    assert_eq!(err.object, Id::new(2));
    assert_eq!(err.error, 0);

    client.error(&err).unwrap();
    let tx = client.stream().tx_words().clone();
    // display@1.error(object=2, code=0, message): header, object, code,
    // then a non-empty string.
    assert_eq!(tx[0], 1);
    assert_eq!(tx[2], 2);
    assert_eq!(tx[3], 0);
    assert!(tx[4] > 1);

    // Object 10 was never inserted.
    match client.lease(Id::new(10)) {
        Err(Error::NoObject(10)) => {},
        _ => panic!("bind must not insert on error"),
    }
}

#[test]
fn bind_known_global_yields_its_index() {
    let mut client = fresh_client();
    client.register_global(Global { name: 1, interface: "wl_shm", version: 1 });
    client.register_global(Global { name: 2, interface: "wl_compositor", version: 4 });
    let new_id = NewId::new(10, 3, "wl_compositor".to_string());
    let idx = client.handle_bind(Id::new(2), 2, &new_id).unwrap();
    assert_eq!(idx, 1);
    assert_eq!(client.globals()[idx].interface, "wl_compositor");
}

#[test]
fn bind_excessive_version_is_unsupported() {
    let mut client = fresh_client();
    client.register_global(Global { name: 1, interface: "wl_shm", version: 1 });
    let new_id = NewId::new(10, 2, "wl_shm".to_string());
    let err = client.handle_bind(Id::new(2), 1, &new_id).unwrap_err();
    assert_eq!(err.kind, WlErrorKind::UnsupportedVersion);
}

#[test]
fn deletes_drain_after_the_cycle() {
    // A handler event pushed during the cycle is sent before the
    // delete_id for an object queued in the same cycle.
    let mut client = fresh_client();
    let lease = client
        .insert(Resident::new(Id::new(7), "wl_surface", 4, 0))
        .unwrap();
    client.release(lease).unwrap();

    // The commit handler runs first and emits an event on object 7...
    let stream = client.stream();
    let key = stream.start_message(Id::new(7), 6);
    stream.commit(key).unwrap();
    // ... then the destroy handler queues the deletion; nothing is
    // removed until the cycle drains.
    client.queue_delete(Id::new(7));
    client.queue_delete(Id::new(7));
    assert!(client.lease(Id::new(7)).is_ok_and(|l| {
        client.release(l).unwrap();
        true
    }));

    client.drain_deletes();
    let tx = client.stream().tx_words().clone();
    // The handler's event precedes display@1.delete_id(7), which was
    // emitted once despite the double queueing.
    assert_eq!(tx, vec![7, (8 << 16) | 6, 1, (12 << 16) | 1, 7]);

    // A late message for the id finds no object, with no crash.
    match client.lease(Id::new(7)) {
        Err(Error::NoObject(7)) => {},
        _ => panic!("object 7 should be gone"),
    }

    // Draining again sends nothing more.
    client.queue_delete(Id::new(7));
    client.drain_deletes();
    assert_eq!(client.stream().tx_words().len(), 5);
}

#[test]
fn removed_object_lookup_is_no_object() {
    // Insert then remove: a later lookup of the id fails with NoObject.
    let mut client = fresh_client();
    let lease = client
        .insert(Resident::new(Id::new(5), "wl_region", 1, 0))
        .unwrap();
    client.release(lease).unwrap();
    let resident = client.remove(Id::new(5)).unwrap();
    assert_eq!(resident.id(), Id::new(5));
    // Removal announced the id for reuse.
    assert_eq!(client.stream().tx_words().as_slice(), &[1, (12 << 16) | 1, 5]);
    match client.lease(Id::new(5)) {
        Err(Error::NoObject(5)) => {},
        _ => panic!("expected NoObject"),
    }
}

#[test]
fn second_lease_is_refused() {
    // The lease flag admits exactly one outstanding lease.
    let mut resident = Resident::new(Id::new(4), "wl_pointer", 1, 0u32);
    let first = resident.lease().unwrap();
    assert!(resident.get().is_none());
    match resident.lease() {
        Err(Error::DoubleLease) => {},
        _ => panic!("second lease must fail"),
    }
    resident.end_lease(first);
    assert_eq!(resident.get(), Some(&0u32));

    let mut client = fresh_client();
    let held = client.lease(Id::new(1)).unwrap();
    match client.lease(Id::new(1)) {
        Err(Error::DoubleLease) => {},
        _ => panic!("second lease through the table must fail"),
    }
    client.release(held).unwrap();
    assert!(client.lease(Id::new(1)).is_ok());
}

#[test]
fn duplicate_insert_is_refused() {
    let mut client = fresh_client();
    let err = match client.insert(Resident::new(Id::new(1), "wl_display", 1, 9)) {
        Err(e) => e,
        Ok(_) => panic!("duplicate insert must fail"),
    };
    assert_eq!(err.kind, WlErrorKind::Internal);
}

#[test]
fn new_ids_increase_and_skip_used_ones() {
    let mut client = fresh_client();
    // With no insertions in between, values are strictly increasing.
    let a = client.new_id();
    let b = client.new_id();
    let c = client.new_id();
    assert_eq!(a, 0xFF00_0000);
    assert_eq!(b, 0xFF00_0001);
    assert_eq!(c, 0xFF00_0002);
    assert!(a < b && b < c);

    // An id already in use is skipped.
    let lease = client
        .insert(Resident::new(Id::new(0xFF00_0003), "wl_output", 1, 0))
        .unwrap();
    client.release(lease).unwrap();
    assert_eq!(client.new_id(), 0xFF00_0004);
}

#[test]
fn serial_counts_up_per_event() {
    let mut client = fresh_client();
    assert_eq!(client.next_event(), 0);
    assert_eq!(client.next_event(), 1);
    assert_eq!(client.next_event(), 2);
}

#[test]
fn lease_metadata_matches_resident() {
    let mut resident = Resident::new(Id::new(12), "wl_keyboard", 8, 77u32);
    assert_eq!(resident.id(), Id::new(12));
    assert_eq!(resident.interface(), "wl_keyboard");
    assert_eq!(resident.version(), 8);
    let lease = resident.lease().unwrap();
    assert_eq!(lease.id(), Id::new(12));
    assert_eq!(lease.interface(), "wl_keyboard");
    assert_eq!(lease.version(), 8);
    assert_eq!(lease.value, 77);
}
