use wl::message::{Args, Message};
use wl::ring::RingBuffer;
use wl::types::{Array, Fd, Fixed, NewId, Object};
use wl::wire::{Id, Stream, WlError, WlErrorKind};

fn word(bytes: &[u8]) -> u32 {
    let mut v: [u8; 4] = [0; 4];
    for (i, b) in bytes.iter().enumerate() {
        v[i] = *b;
    }
    u32::from_le_bytes(v)
}

fn ring_of(words: &[u32]) -> RingBuffer<u32> {
    let mut rb = RingBuffer::new(1024);
    for w in words {
        assert!(rb.push(*w).is_none());
    }
    rb
}

#[test]
fn ring_buffer_fifo() {
    // Fill to capacity - 1, then drain: the dequeue order is the enqueue order.
    let mut rb: RingBuffer<u32> = RingBuffer::new(8);
    assert_eq!(rb.capacity(), 8);
    assert!(rb.is_empty());
    for i in 0..7u32 {
        assert!(rb.push(100 + i).is_none());
    }
    assert!(rb.is_full());
    // One slot stays reserved: free() counts unused slots.
    assert_eq!(rb.free(), 1);
    assert_eq!(rb.push(999), Some(999));
    for i in 0..7u32 {
        assert_eq!(rb.pop(), Some(100 + i));
    }
    assert_eq!(rb.pop(), None);
}

#[test]
fn ring_buffer_wraparound_keeps_order() {
    let mut rb: RingBuffer<u32> = RingBuffer::new(4);
    for round in 0..10u32 {
        assert!(rb.push(round * 2).is_none());
        assert!(rb.push(round * 2 + 1).is_none());
        assert_eq!(rb.pop(), Some(round * 2));
        assert_eq!(rb.get(0), Some(&(round * 2 + 1)));
        assert_eq!(rb.pop(), Some(round * 2 + 1));
    }
    assert!(rb.is_empty());
    assert_eq!(rb.len(), 0);
}

#[test]
fn ring_buffer_clear_drops_everything() {
    let mut rb: RingBuffer<u32> = RingBuffer::new(8);
    rb.push(1);
    rb.push(2);
    assert_eq!(rb.len(), 2);
    rb.clear();
    assert!(rb.is_empty());
    assert_eq!(rb.get(0), None);
    assert_eq!(rb.front(), rb.back());
}

#[test]
fn message_round_trip_is_byte_identical() {
    // Decoding a message and re-encoding it yields the same words.
    let mut m = Message::new(3, 2);
    m.push_u32(7);
    m.push_i32(-1);
    m.push_fixed(Fixed::from_raw(0x1234));
    let words = m.encode();
    assert_eq!(words[0], 3);
    assert_eq!(words[1], (20 << 16) | 2);

    let mut rb = ring_of(&words);
    let decoded = Message::read(&mut rb).unwrap();
    assert_eq!(decoded.object, 3);
    assert_eq!(decoded.opcode, 2);
    assert_eq!(decoded.args, vec![7, 0xFFFF_FFFF, 0x1234]);
    assert_eq!(decoded.encode(), words);
}

#[test]
fn message_available_peeks_without_consuming() {
    let rb = ring_of(&[9, (12 << 16) | 1]);
    assert!(!Message::available(&rb));
    let rb = ring_of(&[9, (12 << 16) | 1, 42]);
    assert!(Message::available(&rb));
}

#[test]
fn message_read_rejects_bad_sizes() {
    // size < 8 is malformed framing.
    let mut rb = ring_of(&[9, 4 << 16]);
    assert_eq!(Message::read(&mut rb).unwrap_err().kind, WlErrorKind::Corrupt);
    // size not a multiple of 4 is malformed framing.
    let mut rb = ring_of(&[9, (10 << 16) | 1, 5]);
    assert_eq!(Message::read(&mut rb).unwrap_err().kind, WlErrorKind::Corrupt);
}

#[test]
fn args_primitives_round_trip() {
    let mut m = Message::new(1, 0);
    m.push_u32(0xDEAD_BEEF);
    m.push_i32(-42);
    m.push_fixed(Fixed(512));
    let mut args = m.args();
    assert_eq!(args.next_u32().unwrap(), 0xDEAD_BEEF);
    assert_eq!(args.next_i32().unwrap(), -42);
    assert_eq!(args.next_fixed().unwrap(), Fixed(512));
    assert_eq!(args.next_u32().unwrap_err().kind, WlErrorKind::Corrupt);
}

#[test]
fn args_string_round_trip() {
    let mut m = Message::new(1, 0);
    m.push_str("wl_shm");
    // Length word counts the terminating NUL: 6 + 1.
    assert_eq!(m.args[0], 7);
    assert_eq!(m.args.len(), 3);
    assert_eq!(m.args[1], word(b"wl_s"));
    assert_eq!(m.args[2], word(b"hm\0\0"));
    let mut args = m.args();
    assert_eq!(args.next_str().unwrap(), "wl_shm");
}

#[test]
fn args_string_multibyte_round_trip() {
    // A non-ASCII string exercises real UTF-8 decoding: a codec that
    // handed bytes through unchanged would not produce these chars.
    let mut m = Message::new(1, 0);
    m.push_str("héllo");
    let mut args = m.args();
    let s = args.next_str().unwrap();
    assert_eq!(s, "héllo");
    assert_eq!(s.chars().count(), 5);
}

#[test]
fn args_array_round_trip() {
    let mut m = Message::new(1, 0);
    m.push_array(Array(vec![1, 2, 3, 4, 5]));
    assert_eq!(m.args[0], 5);
    assert_eq!(m.args.len(), 3);
    let mut args = m.args();
    assert_eq!(args.next_array().unwrap(), vec![1, 2, 3, 4, 5]);
}

#[test]
fn args_dynamic_new_id_round_trip() {
    let mut m = Message::new(1, 0);
    m.push_dynamic_new_id(NewId::new(10, 3, "wl_output".to_string()));
    let mut args = m.args();
    let id = args.next_dynamic_new_id().unwrap();
    assert_eq!(id.id(), 10);
    assert_eq!(id.version(), 3);
    assert_eq!(id.interface(), "wl_output");
    assert_eq!(id.object(), 10);
}

#[test]
fn args_new_id_null_is_rejected() {
    let mut m = Message::new(1, 0);
    m.push_u32(0);
    let mut args = m.args();
    assert_eq!(
        args.next_new_id("wl_callback", 1).unwrap_err().kind,
        WlErrorKind::NonNullable
    );
}

#[test]
fn stream_header_size_below_eight_is_corrupt() {
    let mut s = Stream::new();
    assert_eq!(s.push_rx_words(&[5, 4 << 16]), 2);
    let err = s.message().unwrap().unwrap_err();
    assert_eq!(err.kind, WlErrorKind::Corrupt);
}

#[test]
fn stream_header_size_not_word_multiple_is_corrupt() {
    let mut s = Stream::new();
    assert_eq!(s.push_rx_words(&[5, (14 << 16) | 3, 0, 0]), 4);
    let err = s.message().unwrap().unwrap_err();
    assert_eq!(err.kind, WlErrorKind::Corrupt);
}

#[test]
fn stream_partial_message_waits_intact() {
    // A header whose body has not arrived yields nothing and leaves the
    // buffer untouched; completing the body then yields that message.
    let mut s = Stream::new();
    s.push_rx_words(&[7, (12 << 16) | 1]);
    assert!(s.message().is_none());
    assert_eq!(s.len_rx(), 2);
    s.push_rx_words(&[99]);
    let m = s.message().unwrap().unwrap();
    assert_eq!(m.object, Id::new(7));
    assert_eq!(m.opcode, 1);
    assert_eq!(m.size, 12);
    assert_eq!(s.u32().unwrap(), 99);
}

#[test]
fn stream_null_header_object_is_non_nullable() {
    let mut s = Stream::new();
    s.push_rx_words(&[0, 8 << 16]);
    let err = s.message().unwrap().unwrap_err();
    assert_eq!(err.kind, WlErrorKind::NonNullable);
}

#[test]
fn stream_string_invalid_utf8_fails() {
    let mut s = Stream::new();
    // Length 3: two invalid bytes and the NUL terminator.
    s.push_rx_words(&[3, word(&[0xFF, 0xFE, 0, 0])]);
    let err = s.string().unwrap_err();
    assert_eq!(err.kind, WlErrorKind::Utf8);
}

#[test]
fn stream_string_decodes_null_and_empty() {
    let mut s = Stream::new();
    s.push_rx_words(&[7, word(b"wl_s"), word(b"hm\0\0")]);
    assert_eq!(s.string().unwrap(), Some("wl_shm".to_string()));
    // A zero length word is the null string.
    s.push_rx_words(&[0]);
    assert_eq!(s.string().unwrap(), None);
    // A region of just the NUL is the empty string.
    s.push_rx_words(&[1, 0]);
    assert_eq!(s.string().unwrap(), Some(String::new()));
}

#[test]
fn stream_string_null_and_empty_round_trip() {
    // The decoder accepts exactly what the encoder emits for the null
    // and empty strings.
    let mut tx = Stream::new();
    tx.send_string(None).unwrap();
    tx.send_string(Some("")).unwrap();
    let words: Vec<u32> = tx.tx_words().clone();
    assert_eq!(words, vec![0, 1, 0]);

    let mut rx = Stream::new();
    rx.push_rx_words(&words);
    assert_eq!(rx.string().unwrap(), None);
    assert_eq!(rx.string().unwrap(), Some(String::new()));
    assert_eq!(rx.len_rx(), 0);
}

#[test]
fn stream_new_id_null_interface_is_non_nullable() {
    let mut rx = Stream::new();
    // Null interface string, version 1, id 5.
    rx.push_rx_words(&[0, 1, 5]);
    assert_eq!(rx.new_id().unwrap_err().kind, WlErrorKind::NonNullable);
}

#[test]
fn args_str_null_is_non_nullable() {
    let mut m = Message::new(1, 0);
    m.push_u32(0);
    let mut args = m.args();
    assert_eq!(args.next_str().unwrap_err().kind, WlErrorKind::NonNullable);
}

#[test]
fn stream_fd_from_empty_queue_is_no_fd() {
    let mut s = Stream::new();
    let err = s.file().unwrap_err();
    assert_eq!(err.kind, WlErrorKind::NoFd);
}

#[test]
fn stream_fds_come_out_in_order() {
    // The n-th fd argument is the n-th undelivered ancillary fd, no
    // matter how the reads were batched.
    let mut s = Stream::new();
    assert!(s.push_rx_fd(Fd::new(10)).is_none());
    assert!(s.push_rx_fd(Fd::new(11)).is_none());
    s.push_rx_words(&[5, (8 << 16) | 0, 6, (8 << 16) | 0]);
    let first = s.message().unwrap().unwrap();
    assert_eq!(first.object, Id::new(5));
    assert_eq!(s.file().unwrap().raw(), 10);
    let second = s.message().unwrap().unwrap();
    assert_eq!(second.object, Id::new(6));
    assert_eq!(s.file().unwrap().raw(), 11);
}

#[test]
fn stream_send_string_length_word_counts_nul() {
    // For a string of byte length L the length word is L + 1, and the
    // payload is padded to a 4-byte boundary.
    let mut s = Stream::new();
    s.send_string(Some("abc")).unwrap();
    assert_eq!(s.tx_words().as_slice(), &[4, word(b"abc\0")]);
    s.clear_tx();
    s.send_string(Some("abcd")).unwrap();
    assert_eq!(s.tx_words().as_slice(), &[5, word(b"abcd"), 0]);
    s.clear_tx();
    s.send_string(None).unwrap();
    assert_eq!(s.tx_words().as_slice(), &[0]);
}

#[test]
fn stream_send_bytes_pads_with_zeros() {
    let mut s = Stream::new();
    s.send_bytes(&[9, 8, 7]).unwrap();
    assert_eq!(s.tx_words().as_slice(), &[3, word(&[9, 8, 7, 0])]);
}

#[test]
fn stream_wire_primitives_round_trip() {
    // encode(decode(bytes)) == bytes for each primitive: push every
    // primitive, feed the words back in, and re-encode what was read.
    let mut tx = Stream::new();
    tx.send_u32(12345).unwrap();
    tx.send_i32(-7).unwrap();
    tx.send_fixed(Fixed(-256)).unwrap();
    tx.send_object(Some(Id::new(9))).unwrap();
    tx.send_object(None).unwrap();
    tx.send_string(Some("hi")).unwrap();
    tx.send_bytes(&[1, 2, 3, 4]).unwrap();
    let words: Vec<u32> = tx.tx_words().clone();

    let mut rx = Stream::new();
    rx.push_rx_words(&words);
    let u = rx.u32().unwrap();
    let i = rx.i32().unwrap();
    let f = rx.fixed().unwrap();
    let o1 = rx.object().unwrap();
    let o2 = rx.object().unwrap();
    let st = rx.string().unwrap();
    let by = rx.bytes().unwrap();
    assert_eq!(rx.len_rx(), 0);

    let mut back = Stream::new();
    back.send_u32(u).unwrap();
    back.send_i32(i).unwrap();
    back.send_fixed(f).unwrap();
    back.send_object(o1).unwrap();
    back.send_object(o2).unwrap();
    back.send_string(st.as_deref()).unwrap();
    back.send_bytes(&by).unwrap();
    assert_eq!(back.tx_words(), &words);
}

#[test]
fn stream_new_id_round_trip() {
    let mut tx = Stream::new();
    let id = NewId::new(4, 2, "wl_seat".to_string());
    tx.send_new_id(&id).unwrap();
    let words: Vec<u32> = tx.tx_words().clone();

    let mut rx = Stream::new();
    rx.push_rx_words(&words);
    let got = rx.new_id().unwrap();
    assert_eq!(got.id(), 4);
    assert_eq!(got.version(), 2);
    assert_eq!(got.interface(), "wl_seat");
}

#[test]
fn stream_new_id_null_id_is_non_nullable() {
    let mut rx = Stream::new();
    // interface "a", version 1, id 0.
    rx.push_rx_words(&[2, word(b"a\0\0\0"), 1, 0]);
    assert_eq!(rx.new_id().unwrap_err().kind, WlErrorKind::NonNullable);
}

#[test]
fn stream_commit_patches_header_size() {
    let mut s = Stream::new();
    let key = s.start_message(Id::new(3), 5);
    s.send_u32(77).unwrap();
    s.commit(key).unwrap();
    assert_eq!(s.tx_words().as_slice(), &[3, (12 << 16) | 5, 77]);
}

#[test]
fn stream_send_file_overflow_is_internal() {
    let mut s = Stream::new();
    for i in 0..7 {
        s.send_file(Fd::new(i)).unwrap();
    }
    let err = s.send_file(Fd::new(7)).unwrap_err();
    assert_eq!(err.kind, WlErrorKind::Internal);
    for i in 0..7 {
        assert_eq!(s.pop_tx_fd().unwrap().raw(), i);
    }
    assert!(s.pop_tx_fd().is_none());
}

#[test]
fn stream_rx_backpressure_counts_words() {
    let mut s = Stream::new();
    assert_eq!(s.rx_space(), 1023);
    let words = vec![7u32; 1030];
    assert_eq!(s.push_rx_words(&words), 1023);
    assert_eq!(s.rx_space(), 0);
    assert_eq!(s.push_rx_words(&[1]), 0);
}

#[test]
fn fixed_raw_round_trip() {
    let f = Fixed::from_raw(0x8000_0100);
    assert_eq!(f.0, 0x8000_0100u32 as i32);
    assert_eq!(f.to_raw(), 0x8000_0100);
}

#[test]
fn fixed_whole_number_conversions() {
    assert_eq!(Fixed::from_i32(3).0, 768);
    assert_eq!(Fixed::from_i32(-2).0, -512);
    // Truncation rounds toward zero from either side.
    assert_eq!(Fixed(768).to_i32(), 3);
    assert_eq!(Fixed(1000).to_i32(), 3);
    assert_eq!(Fixed(-1000).to_i32(), -3);
    assert_eq!(Fixed(-256).to_i32(), -1);
    assert_eq!(Fixed(i32::MIN).to_i32(), -0x0080_0000);
}

#[test]
fn ring_buffer_get_mut_edits_in_place() {
    let mut rb: RingBuffer<u32> = RingBuffer::new(4);
    rb.push(10);
    rb.push(20);
    // Rotate so the queue wraps the storage boundary.
    rb.pop();
    rb.push(30);
    rb.push(40);
    *rb.get_mut(2) = 44;
    assert_eq!(rb.pop(), Some(20));
    assert_eq!(rb.pop(), Some(30));
    assert_eq!(rb.pop(), Some(44));
}

#[test]
fn error_descriptions_are_nonempty() {
    let errors = [
        WlError::corrupt(),
        WlError::no_object(),
        WlError::unsupported_version(),
        WlError::invalid_opcode(),
        WlError::no_global(),
        WlError::utf_8(),
        WlError::non_nullable(),
        WlError::no_fd(),
        WlError::oom(),
        WlError::internal(),
    ];
    for e in errors.iter() {
        assert!(!e.description().is_empty());
        assert_eq!(e.object, Id::display());
    }
    assert_eq!(WlError::oom().error, 2);
    assert_eq!(WlError::internal().error, 3);
    assert_eq!(WlError::no_object().error, 0);
}

#[test]
fn find_free_socket_names_the_default() {
    assert_eq!(wl::find_free_socket(), "wayland.socket");
}
