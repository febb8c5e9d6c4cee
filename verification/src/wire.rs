//! Wire-level protocol pieces: object ids, the protocol error values sent
//! through `display.error`, message headers, and the `Stream` that stages
//! words and file descriptors between the socket and the dispatcher.
//!
//! Every Wayland message is a sequence of 32-bit words:
//! word 0 carries the target object id; word 1 carries the byte size of
//! the whole message in its high 16 bits and the opcode in its low 16
//! bits; the remaining words carry the arguments. Words pack bytes in
//! little-endian order.
use vstd::prelude::*;

use crate::ring::RingBuffer;
use crate::types::{Fd, Fixed, NewId};
use vstd::utf8::{decode_utf8, encode_utf8, valid_utf8};

verus! {

/// The id of a live protocol object; never zero on the wire.
#[derive(Clone, Copy, Debug, PartialEq, Eq, Hash, Structural)]
pub struct Id(pub u32);

impl Id {
    pub open spec fn spec_val(&self) -> u32 {
        self.0
    }

    /// Create an id from an integer, which must not be zero; zero is the
    /// wire encoding of "no object".
    pub fn new(value: u32) -> (r: Self)
        requires
            value != 0,
        ensures
            r.spec_val() == value,
    {
        Id(value)
    }

    /// The display object, pinned to id 1 while the client is connected.
    pub fn display() -> (r: Self)
        ensures
            r.spec_val() == 1,
    {
        Id(1)
    }

    /// The raw wire word for this id.
    pub fn to_u32(&self) -> (r: u32)
        ensures
            r == self.spec_val(),
            r != 0 == (self.spec_val() != 0),
    {
        self.0
    }
}

/// What went wrong, as reported to the client through `display.error`.
#[derive(Clone, Copy, Debug, PartialEq, Eq, Structural)]
pub enum WlErrorKind {
    /// Protocol violation or malformed framing.
    Corrupt,
    /// No object with the addressed id.
    NoObject,
    /// The requested version of an interface is unsupported.
    UnsupportedVersion,
    /// Request contains an invalid opcode.
    InvalidOpcode,
    /// No global with that name.
    NoGlobal,
    /// A string argument was not valid UTF-8.
    Utf8,
    /// Null was passed where the argument is not nullable.
    NonNullable,
    /// A file descriptor argument was expected but none was received.
    NoFd,
    /// The compositor is out of memory.
    Oom,
    /// Internal compositor state is corrupted.
    Internal,
}

/// A protocol error: the object it concerns, the numeric error code sent
/// on the wire, and the kind that picks the human-readable description.
#[derive(Clone, Copy, Debug, PartialEq, Eq, Structural)]
pub struct WlError {
    pub object: Id,
    pub error: u32,
    pub kind: WlErrorKind,
}

impl WlError {
    pub fn corrupt() -> (r: Self)
        ensures
            r == WlError::spec_corrupt(),
    {
        WlError { object: Id(1), error: 1, kind: WlErrorKind::Corrupt }
    }

    pub open spec fn spec_corrupt() -> Self {
        WlError { object: Id(1), error: 1, kind: WlErrorKind::Corrupt }
    }

    pub fn no_object() -> (r: Self)
        ensures
            r == WlError::spec_no_object(),
    {
        WlError { object: Id(1), error: 0, kind: WlErrorKind::NoObject }
    }

    pub open spec fn spec_no_object() -> Self {
        WlError { object: Id(1), error: 0, kind: WlErrorKind::NoObject }
    }

    pub fn unsupported_version() -> (r: Self)
        ensures
            r == WlError::spec_unsupported_version(),
    {
        WlError { object: Id(1), error: 1, kind: WlErrorKind::UnsupportedVersion }
    }

    pub open spec fn spec_unsupported_version() -> Self {
        WlError { object: Id(1), error: 1, kind: WlErrorKind::UnsupportedVersion }
    }

    pub fn invalid_opcode() -> (r: Self)
        ensures
            r == WlError::spec_invalid_opcode(),
    {
        WlError { object: Id(1), error: 1, kind: WlErrorKind::InvalidOpcode }
    }

    pub open spec fn spec_invalid_opcode() -> Self {
        WlError { object: Id(1), error: 1, kind: WlErrorKind::InvalidOpcode }
    }

    pub fn no_global() -> (r: Self)
        ensures
            r == WlError::spec_no_global(),
    {
        WlError { object: Id(1), error: 1, kind: WlErrorKind::NoGlobal }
    }

    pub open spec fn spec_no_global() -> Self {
        WlError { object: Id(1), error: 1, kind: WlErrorKind::NoGlobal }
    }

    pub fn utf_8() -> (r: Self)
        ensures
            r == WlError::spec_utf_8(),
    {
        WlError { object: Id(1), error: 1, kind: WlErrorKind::Utf8 }
    }

    pub open spec fn spec_utf_8() -> Self {
        WlError { object: Id(1), error: 1, kind: WlErrorKind::Utf8 }
    }

    pub fn non_nullable() -> (r: Self)
        ensures
            r == WlError::spec_non_nullable(),
    {
        WlError { object: Id(1), error: 1, kind: WlErrorKind::NonNullable }
    }

    pub open spec fn spec_non_nullable() -> Self {
        WlError { object: Id(1), error: 1, kind: WlErrorKind::NonNullable }
    }

    pub fn no_fd() -> (r: Self)
        ensures
            r == WlError::spec_no_fd(),
    {
        WlError { object: Id(1), error: 1, kind: WlErrorKind::NoFd }
    }

    pub open spec fn spec_no_fd() -> Self {
        WlError { object: Id(1), error: 1, kind: WlErrorKind::NoFd }
    }

    pub fn oom() -> (r: Self)
        ensures
            r == WlError::spec_oom(),
    {
        WlError { object: Id(1), error: 2, kind: WlErrorKind::Oom }
    }

    pub open spec fn spec_oom() -> Self {
        WlError { object: Id(1), error: 2, kind: WlErrorKind::Oom }
    }

    pub fn internal() -> (r: Self)
        ensures
            r == WlError::spec_internal(),
    {
        WlError { object: Id(1), error: 3, kind: WlErrorKind::Internal }
    }

    pub open spec fn spec_internal() -> Self {
        WlError { object: Id(1), error: 3, kind: WlErrorKind::Internal }
    }

    /// The description sent to the client for this kind of error.
    pub open spec fn spec_description(kind: WlErrorKind) -> Seq<char> {
        match kind {
            WlErrorKind::Corrupt => "Protocol violation or malformed request."@,
            WlErrorKind::NoObject => "No object with that ID."@,
            WlErrorKind::UnsupportedVersion
                => "The requested version of an interface is unsupported."@,
            WlErrorKind::InvalidOpcode => "Request contains an invalid opcode."@,
            WlErrorKind::NoGlobal => "No global with that name."@,
            WlErrorKind::Utf8 => "Strings must be valid UTF-8."@,
            WlErrorKind::NonNullable => "Argument is not nullable."@,
            WlErrorKind::NoFd => "Expected a file descriptor but none were received."@,
            WlErrorKind::Oom => "The compositor is out of memory."@,
            WlErrorKind::Internal => "Internal compositor state is corrupted."@,
        }
    }

    /// The human-readable description of this error.
    pub fn description(&self) -> (r: &'static str)
        ensures
            r@ == WlError::spec_description(self.kind),
    {
        match self.kind {
            WlErrorKind::Corrupt => "Protocol violation or malformed request.",
            WlErrorKind::NoObject => "No object with that ID.",
            WlErrorKind::UnsupportedVersion
                => "The requested version of an interface is unsupported.",
            WlErrorKind::InvalidOpcode => "Request contains an invalid opcode.",
            WlErrorKind::NoGlobal => "No global with that name.",
            WlErrorKind::Utf8 => "Strings must be valid UTF-8.",
            WlErrorKind::NonNullable => "Argument is not nullable.",
            WlErrorKind::NoFd => "Expected a file descriptor but none were received.",
            WlErrorKind::Oom => "The compositor is out of memory.",
            WlErrorKind::Internal => "Internal compositor state is corrupted.",
        }
    }
}

/// The header of one message taken off the wire: the addressed object,
/// the request opcode, and the total byte size of the message.
#[derive(Clone, Copy, Debug, PartialEq, Eq, Structural)]
pub struct Message {
    pub object: Id,
    pub opcode: u16,
    pub size: u16,
}

/// Used to complete a message, preventing new arguments from being pushed.
#[must_use]
#[derive(Debug)]
pub struct CommitKey(pub usize);

/// The high 16 bits of a header word: the message byte size.
pub open spec fn spec_header_size(w: u32) -> u32 {
    w / 0x10000
}

/// The low 16 bits of a header word: the opcode.
pub open spec fn spec_header_opcode(w: u32) -> u32 {
    w % 0x10000
}

/// Compose a header word from a byte size and an opcode.
pub open spec fn spec_header_word(size: u32, opcode: u32) -> u32
    recommends
        size < 0x10000,
        opcode < 0x10000,
{
    (size * 0x10000 + opcode) as u32
}

/// Number of words needed to carry `n` bytes.
pub open spec fn word_count(n: nat) -> nat {
    (n + 3) / 4
}

/// The byte at position `i` of a byte region padded with zeros.
pub open spec fn spec_padded_byte(bytes: Seq<u8>, i: int) -> u8 {
    if 0 <= i < bytes.len() {
        bytes[i]
    } else {
        0
    }
}

/// A wire word packing four bytes in little-endian order.
pub open spec fn spec_word_of_bytes(b0: u8, b1: u8, b2: u8, b3: u8) -> u32 {
    (b0 + b1 * 0x100 + b2 * 0x10000 + b3 * 0x1000000) as u32
}

/// Byte `k` (0 = lowest) of a wire word.
pub open spec fn spec_byte_of_word(w: u32, k: int) -> u8 {
    if k == 0 {
        (w % 0x100) as u8
    } else if k == 1 {
        ((w / 0x100) % 0x100) as u8
    } else if k == 2 {
        ((w / 0x10000) % 0x100) as u8
    } else {
        ((w / 0x1000000) % 0x100) as u8
    }
}

/// The words that carry a byte region on the wire, zero-padded to a
/// word boundary.
pub open spec fn spec_pack_words(bytes: Seq<u8>) -> Seq<u32> {
    Seq::new(
        word_count(bytes.len()),
        |w: int|
            spec_word_of_bytes(
                spec_padded_byte(bytes, 4 * w),
                spec_padded_byte(bytes, 4 * w + 1),
                spec_padded_byte(bytes, 4 * w + 2),
                spec_padded_byte(bytes, 4 * w + 3),
            ),
    )
}

/// The first `len` bytes carried by a run of wire words.
pub open spec fn spec_unpack_bytes(words: Seq<u32>, len: nat) -> Seq<u8>
    recommends
        words.len() >= word_count(len),
{
    Seq::new(len, |i: int| spec_byte_of_word(words[i / 4], i % 4))
}

/// The wire encoding of a `string` argument whose UTF-8 content is
/// `bytes`: a length word counting the terminating NUL, then the content,
/// NUL-terminated and zero-padded to a word boundary.
pub open spec fn spec_string_words(bytes: Seq<u8>) -> Seq<u32>
    recommends
        bytes.len() + 1 <= u32::MAX,
{
    seq![(bytes.len() + 1) as u32] + spec_pack_words(bytes.push(0))
}

/// The wire encoding of an `array` argument: a length word, then the
/// bytes zero-padded to a word boundary.
pub open spec fn spec_array_words(bytes: Seq<u8>) -> Seq<u32>
    recommends
        bytes.len() <= u32::MAX,
{
    seq![bytes.len() as u32] + spec_pack_words(bytes)
}

/// Whether the receive buffer starts with a complete length-prefixed
/// byte region.
pub open spec fn rx_has_block(rx: Seq<u32>) -> bool {
    rx.len() >= 1 && rx.len() >= 1 + word_count(rx[0] as nat)
}

/// The bytes of the length-prefixed region at the start of `rx`.
pub open spec fn rx_block_bytes(rx: Seq<u32>) -> Seq<u8>
    recommends
        rx_has_block(rx),
{
    spec_unpack_bytes(rx.subrange(1, 1 + word_count(rx[0] as nat) as int), rx[0] as nat)
}

/// What is left of `rx` after the length-prefixed region.
pub open spec fn rx_block_rest(rx: Seq<u32>) -> Seq<u32>
    recommends
        rx_has_block(rx),
{
    rx.skip(1 + word_count(rx[0] as nat) as int)
}

/// A byte region extended with zeros up to length `n`.
pub open spec fn seq_ext(bytes: Seq<u8>, n: nat) -> Seq<u8>
    recommends
        n >= bytes.len(),
{
    Seq::new(n, |i: int| if i < bytes.len() { bytes[i] } else { 0u8 })
}

/// Compose a wire word from four bytes, lowest first.
pub(crate) fn word_of_bytes(b0: u8, b1: u8, b2: u8, b3: u8) -> (r: u32)
    ensures
        r == spec_word_of_bytes(b0, b1, b2, b3),
{
    (b0 as u32) + (b1 as u32) * 0x100 + (b2 as u32) * 0x10000 + (b3 as u32) * 0x1000000
}

/// Extract byte `k` (0 = lowest) of a wire word.
pub(crate) fn byte_of_word(w: u32, k: usize) -> (r: u8)
    requires
        k < 4,
    ensures
        r == spec_byte_of_word(w, k as int),
{
    if k == 0 {
        (w % 0x100) as u8
    } else if k == 1 {
        ((w / 0x100) % 0x100) as u8
    } else if k == 2 {
        ((w / 0x10000) % 0x100) as u8
    } else {
        ((w / 0x1000000) % 0x100) as u8
    }
}

/// Append the words that carry `bytes`, zero-extended to `n` bytes and
/// zero-padded to a word boundary, onto `out`.
pub(crate) fn push_packed(out: &mut Vec<u32>, bytes: &[u8], n: usize)
    requires
        bytes@.len() <= n,
        n + 3 <= u32::MAX,
    ensures
        final(out)@ == old(out)@ + spec_pack_words(seq_ext(bytes@, n as nat)),
{
    let ghost target = spec_pack_words(seq_ext(bytes@, n as nat));
    let nw = n / 4 + if n % 4 != 0 {
        1
    } else {
        0
    };
    assert(nw == word_count(n as nat));
    let mut w: usize = 0;
    while w < nw
        invariant
            w <= nw,
            nw == word_count(n as nat),
            n + 3 <= u32::MAX,
            bytes@.len() <= n,
            target == spec_pack_words(seq_ext(bytes@, n as nat)),
            out@ == old(out)@ + target.take(w as int),
        decreases nw - w,
    {
        let i = 4 * w;
        let b0 = if i < bytes.len() {
            bytes[i]
        } else {
            0
        };
        let b1 = if i + 1 < bytes.len() {
            bytes[i + 1]
        } else {
            0
        };
        let b2 = if i + 2 < bytes.len() {
            bytes[i + 2]
        } else {
            0
        };
        let b3 = if i + 3 < bytes.len() {
            bytes[i + 3]
        } else {
            0
        };
        let word = word_of_bytes(b0, b1, b2, b3);
        proof {
            assert(word == target[w as int]);
            assert(target.take(w as int + 1) =~= target.take(w as int).push(target[w as int]));
        }
        out.push(word);
        w = w + 1;
    }
    proof {
        assert(target.take(nw as int) =~= target);
    }
}

/// Pop `count` words off the front of a ring buffer into a vector.
pub(crate) fn pop_words(rx: &mut RingBuffer<u32>, count: usize) -> (r: Vec<u32>)
    requires
        old(rx).well_formed(),
        count <= old(rx)@.len(),
    ensures
        final(rx).well_formed(),
        final(rx).spec_capacity() == old(rx).spec_capacity(),
        r@ == old(rx)@.take(count as int),
        final(rx)@ == old(rx)@.skip(count as int),
{
    let mut out: Vec<u32> = Vec::new();
    let mut i: usize = 0;
    while i < count
        invariant
            i <= count,
            count <= old(rx)@.len(),
            rx.well_formed(),
            rx.spec_capacity() == old(rx).spec_capacity(),
            out@ == old(rx)@.take(i as int),
            rx@ == old(rx)@.skip(i as int),
        decreases count - i,
    {
        let w = rx.pop().unwrap();
        proof {
            assert(old(rx)@.skip(i as int)[0] == old(rx)@[i as int]);
            assert(old(rx)@.take(i as int).push(old(rx)@[i as int]) =~= old(rx)@.take(
                i as int + 1,
            ));
        }
        out.push(w);
        i = i + 1;
        proof {
            assert(rx@ =~= old(rx)@.skip(i as int));
        }
    }
    out
}

/// Read the first `len` bytes carried by a run of words.
pub(crate) fn unpack_bytes(words: &[u32], len: usize) -> (r: Vec<u8>)
    requires
        word_count(len as nat) <= words@.len(),
    ensures
        r@ == spec_unpack_bytes(words@, len as nat),
{
    let mut out: Vec<u8> = Vec::new();
    let mut i: usize = 0;
    while i < len
        invariant
            i <= len,
            word_count(len as nat) <= words@.len(),
            out@ == spec_unpack_bytes(words@, len as nat).take(i as int),
        decreases len - i,
    {
        let b = byte_of_word(words[i / 4], i % 4);
        proof {
            let target = spec_unpack_bytes(words@, len as nat);
            assert(b == target[i as int]);
            assert(target.take(i as int + 1) =~= target.take(i as int).push(target[i as int]));
        }
        out.push(b);
        i = i + 1;
    }
    proof {
        assert(spec_unpack_bytes(words@, len as nat).take(len as int) =~= spec_unpack_bytes(
            words@,
            len as nat,
        ));
    }
    out
}

/// Assemble whole wire words from the raw bytes that came off the
/// socket; a trailing partial word cannot occur in a conforming stream
/// and is discarded.
pub fn words_of_bytes(bytes: &[u8]) -> (r: Vec<u32>)
    ensures
        r@ == Seq::new(
            bytes@.len() / 4,
            |w: int|
                spec_word_of_bytes(
                    bytes@[4 * w],
                    bytes@[4 * w + 1],
                    bytes@[4 * w + 2],
                    bytes@[4 * w + 3],
                ),
        ),
{
    let ghost target = Seq::new(
        bytes@.len() / 4,
        |w: int|
            spec_word_of_bytes(
                bytes@[4 * w],
                bytes@[4 * w + 1],
                bytes@[4 * w + 2],
                bytes@[4 * w + 3],
            ),
    );
    let nw = bytes.len() / 4;
    let mut out: Vec<u32> = Vec::new();
    let mut w: usize = 0;
    while w < nw
        invariant
            w <= nw,
            nw == bytes@.len() / 4,
            4 * nw <= usize::MAX,
            target == Seq::new(
                bytes@.len() / 4,
                |w: int|
                    spec_word_of_bytes(
                        bytes@[4 * w],
                        bytes@[4 * w + 1],
                        bytes@[4 * w + 2],
                        bytes@[4 * w + 3],
                    ),
            ),
            out@ == target.take(w as int),
        decreases nw - w,
    {
        let i = 4 * w;
        let word = word_of_bytes(bytes[i], bytes[i + 1], bytes[i + 2], bytes[i + 3]);
        proof {
            assert(word == target[w as int]);
            assert(target.take(w as int + 1) =~= target.take(w as int).push(target[w as int]));
        }
        out.push(word);
        w = w + 1;
    }
    proof {
        assert(target.take(nw as int) =~= target);
    }
    out
}

/// Serialize queued wire words back to the raw bytes the socket sends.
pub fn bytes_of_words(words: &[u32]) -> (r: Vec<u8>)
    requires
        4 * words@.len() <= usize::MAX,
    ensures
        r@ == spec_unpack_bytes(words@, (4 * words@.len()) as nat),
{
    let n = 4 * words.len();
    let mut out: Vec<u8> = Vec::new();
    let mut i: usize = 0;
    while i < n
        invariant
            i <= n,
            n == 4 * words@.len(),
            out@ == spec_unpack_bytes(words@, n as nat).take(i as int),
        decreases n - i,
    {
        let b = byte_of_word(words[i / 4], i % 4);
        proof {
            let target = spec_unpack_bytes(words@, n as nat);
            assert(b == target[i as int]);
            assert(target.take(i as int + 1) =~= target.take(i as int).push(target[i as int]));
        }
        out.push(b);
        i = i + 1;
    }
    proof {
        assert(spec_unpack_bytes(words@, n as nat).take(n as int) =~= spec_unpack_bytes(
            words@,
            n as nat,
        ));
    }
    out
}

/// Relies on `String::from_utf8`: it succeeds exactly on valid UTF-8
/// input and yields the characters that the bytes encode.
#[verifier::external_body]
pub(crate) fn string_from_utf8(bytes: Vec<u8>) -> (r: Option<String>)
    ensures
        r is Some <==> valid_utf8(bytes@),
        r is Some ==> r->Some_0@ == decode_utf8(bytes@),
{
    String::from_utf8(bytes).ok()
}

/// One client connection's staging buffers: inbound words and file
/// descriptors received from the socket, outbound words and descriptors
/// waiting to be flushed. The socket itself is owned by the caller, who
/// moves raw words and descriptor numbers in and out through the
/// `push_rx_*` / `tx_*` operations.
pub struct Stream {
    rx_msg: RingBuffer<u32>,
    tx_msg: Vec<u32>,
    rx_fd: RingBuffer<Fd>,
    tx_fd: RingBuffer<Fd>,
}

impl Stream {
    /// Words received and not yet consumed, oldest first.
    pub closed spec fn rx(&self) -> Seq<u32> {
        self.rx_msg@
    }

    /// Words queued for sending.
    pub closed spec fn tx(&self) -> Seq<u32> {
        self.tx_msg@
    }

    /// File descriptors received and not yet consumed, oldest first.
    pub closed spec fn rx_fds(&self) -> Seq<Fd> {
        self.rx_fd@
    }

    /// File descriptors queued for sending.
    pub closed spec fn tx_fds(&self) -> Seq<Fd> {
        self.tx_fd@
    }

    pub closed spec fn well_formed(&self) -> bool {
        &&& self.rx_msg.well_formed()
        &&& self.rx_fd.well_formed()
        &&& self.tx_fd.well_formed()
        &&& self.rx_msg.spec_capacity() == 1024
        &&& self.rx_fd.spec_capacity() == 8
        &&& self.tx_fd.spec_capacity() == 8
    }

    /// Fresh buffers for a newly accepted connection: room for 1024
    /// words (4 KiB) and 8 file descriptors in either direction.
    pub fn new() -> (r: Self)
        ensures
            r.well_formed(),
            r.rx() == Seq::<u32>::empty(),
            r.tx() == Seq::<u32>::empty(),
            r.rx_fds() == Seq::<Fd>::empty(),
            r.tx_fds() == Seq::<Fd>::empty(),
    {
        proof {
            assert(1024usize & 1023usize == 0) by (bit_vector);
            assert(8usize & 7usize == 0) by (bit_vector);
        }
        Stream {
            rx_msg: RingBuffer::new(1024),
            tx_msg: Vec::new(),
            rx_fd: RingBuffer::new(8),
            tx_fd: RingBuffer::new(8),
        }
    }

    /// Peek for a complete message frame. Returns `None` while the header
    /// or body has not fully arrived, leaving the buffer untouched; on a
    /// complete frame, consumes the two header words and returns the
    /// parsed header. A declared size below 8 or not a multiple of 4 is
    /// malformed framing; a zero object id is not addressable.
    pub fn message(&mut self) -> (r: Option<Result<Message, WlError>>)
        requires
            old(self).well_formed(),
        ensures
            final(self).well_formed(),
            final(self).tx() == old(self).tx(),
            final(self).rx_fds() == old(self).rx_fds(),
            final(self).tx_fds() == old(self).tx_fds(),
            old(self).rx().len() < 2 ==> r is None && final(self).rx() == old(self).rx(),
            old(self).rx().len() >= 2 ==> {
                let size = spec_header_size(old(self).rx()[1]);
                let opcode = spec_header_opcode(old(self).rx()[1]);
                &&& (size < 8 || size % 4 != 0) ==> r == Some(Err::<Message, WlError>(
                    WlError::spec_corrupt(),
                )) && final(self).rx() == old(self).rx()
                &&& (size >= 8 && size % 4 == 0 && old(self).rx().len() < size / 4) ==> r is None
                    && final(self).rx() == old(self).rx()
                &&& (size >= 8 && size % 4 == 0 && old(self).rx().len() >= size / 4) ==> if old(
                    self,
                ).rx()[0] == 0 {
                    r == Some(Err::<Message, WlError>(WlError::spec_non_nullable())) && final(self).rx() == old(self).rx()
                } else {
                    r == Some(Ok::<Message, WlError>(
                        Message {
                            object: Id(old(self).rx()[0]),
                            opcode: opcode as u16,
                            size: size as u16,
                        },
                    )) && final(self).rx() == old(self).rx().skip(2)
                }
            },
    {
        let hdr = match self.rx_msg.get(1) {
            Some(w) => *w,
            None => {
                return None;
            },
        };
        let size = hdr / 0x10000;
        let opcode = (hdr % 0x10000) as u16;
        if size < 8 || size % 4 != 0 {
            return Some(Err(WlError::corrupt()));
        }
        let need = (size / 4) as usize;
        if self.len_rx() < need {
            return None;
        }
        let object = *self.rx_msg.get(0).unwrap();
        if object == 0 {
            return Some(Err(WlError::non_nullable()));
        }
        let _ = self.rx_msg.pop();
        let _ = self.rx_msg.pop();
        proof {
            assert(self.rx() =~= old(self).rx().skip(2));
        }
        Some(Ok(Message { object: Id::new(object), opcode, size: size as u16 }))
    }

    /// Number of received words waiting to be parsed.
    pub fn len_rx(&self) -> (r: usize)
        requires
            self.well_formed(),
        ensures
            r == self.rx().len(),
    {
        self.rx_msg.len()
    }

    /// Read one word as an unsigned integer.
    pub fn u32(&mut self) -> (r: Result<u32, WlError>)
        requires
            old(self).well_formed(),
        ensures
            final(self).well_formed(),
            final(self).tx() == old(self).tx(),
            final(self).rx_fds() == old(self).rx_fds(),
            final(self).tx_fds() == old(self).tx_fds(),
            old(self).rx().len() == 0 ==> r == Err::<u32, WlError>(WlError::spec_corrupt())
                && final(self).rx() == old(self).rx(),
            old(self).rx().len() > 0 ==> r == Ok::<u32, WlError>(old(self).rx()[0])
                && final(self).rx() == old(self).rx().skip(1),
    {
        match self.rx_msg.pop() {
            Some(w) => {
                proof {
                    assert(self.rx() =~= old(self).rx().skip(1));
                }
                Ok(w)
            },
            None => Err(WlError::corrupt()),
        }
    }

    /// Queue one word carrying an unsigned integer.
    pub fn send_u32(&mut self, value: u32) -> (r: Result<(), WlError>)
        requires
            old(self).well_formed(),
        ensures
            final(self).well_formed(),
            final(self).rx() == old(self).rx(),
            final(self).rx_fds() == old(self).rx_fds(),
            final(self).tx_fds() == old(self).tx_fds(),
            r is Ok,
            final(self).tx() == old(self).tx().push(value),
    {
        self.tx_msg.push(value);
        Ok(())
    }

    /// Read one word as a signed integer.
    pub fn i32(&mut self) -> (r: Result<i32, WlError>)
        requires
            old(self).well_formed(),
        ensures
            final(self).well_formed(),
            final(self).tx() == old(self).tx(),
            final(self).rx_fds() == old(self).rx_fds(),
            final(self).tx_fds() == old(self).tx_fds(),
            old(self).rx().len() == 0 ==> r == Err::<i32, WlError>(WlError::spec_corrupt())
                && final(self).rx() == old(self).rx(),
            old(self).rx().len() > 0 ==> r == Ok::<i32, WlError>(old(self).rx()[0] as i32)
                && final(self).rx() == old(self).rx().skip(1),
    {
        match self.u32() {
            Ok(w) => Ok(w as i32),
            Err(e) => Err(e),
        }
    }

    /// Queue one word carrying a signed integer.
    pub fn send_i32(&mut self, value: i32) -> (r: Result<(), WlError>)
        requires
            old(self).well_formed(),
        ensures
            final(self).well_formed(),
            final(self).rx() == old(self).rx(),
            final(self).rx_fds() == old(self).rx_fds(),
            final(self).tx_fds() == old(self).tx_fds(),
            r is Ok,
            final(self).tx() == old(self).tx().push(value as u32),
    {
        self.tx_msg.push(value as u32);
        Ok(())
    }

    /// Read one word as a fixed-point number.
    pub fn fixed(&mut self) -> (r: Result<Fixed, WlError>)
        requires
            old(self).well_formed(),
        ensures
            final(self).well_formed(),
            final(self).tx() == old(self).tx(),
            final(self).rx_fds() == old(self).rx_fds(),
            final(self).tx_fds() == old(self).tx_fds(),
            old(self).rx().len() == 0 ==> r == Err::<Fixed, WlError>(WlError::spec_corrupt())
                && final(self).rx() == old(self).rx(),
            old(self).rx().len() > 0 ==> r == Ok::<Fixed, WlError>(
                Fixed(old(self).rx()[0] as i32),
            ) && final(self).rx() == old(self).rx().skip(1),
    {
        match self.u32() {
            Ok(w) => Ok(Fixed::from_raw(w)),
            Err(e) => Err(e),
        }
    }

    /// Queue one word carrying a fixed-point number.
    pub fn send_fixed(&mut self, value: Fixed) -> (r: Result<(), WlError>)
        requires
            old(self).well_formed(),
        ensures
            final(self).well_formed(),
            final(self).rx() == old(self).rx(),
            final(self).rx_fds() == old(self).rx_fds(),
            final(self).tx_fds() == old(self).tx_fds(),
            r is Ok,
            final(self).tx() == old(self).tx().push(value.0 as u32),
    {
        let raw = value.to_raw();
        self.tx_msg.push(raw);
        Ok(())
    }

    /// Read one word as an object id; zero decodes as null.
    pub fn object(&mut self) -> (r: Result<Option<Id>, WlError>)
        requires
            old(self).well_formed(),
        ensures
            final(self).well_formed(),
            final(self).tx() == old(self).tx(),
            final(self).rx_fds() == old(self).rx_fds(),
            final(self).tx_fds() == old(self).tx_fds(),
            old(self).rx().len() == 0 ==> r == Err::<Option<Id>, WlError>(WlError::spec_corrupt())
                && final(self).rx() == old(self).rx(),
            old(self).rx().len() > 0 ==> final(self).rx() == old(self).rx().skip(1) && r is Ok && (
            if old(self).rx()[0] == 0 {
                r->Ok_0 is None
            } else {
                r->Ok_0 == Some(Id(old(self).rx()[0]))
            }),
    {
        match self.u32() {
            Ok(w) => {
                if w == 0 {
                    Ok(None)
                } else {
                    Ok(Some(Id::new(w)))
                }
            },
            Err(e) => Err(e),
        }
    }

    /// Queue one word carrying an object id, or zero for null.
    pub fn send_object(&mut self, object: Option<Id>) -> (r: Result<(), WlError>)
        requires
            old(self).well_formed(),
        ensures
            final(self).well_formed(),
            final(self).rx() == old(self).rx(),
            final(self).rx_fds() == old(self).rx_fds(),
            final(self).tx_fds() == old(self).tx_fds(),
            r is Ok,
            object is Some ==> final(self).tx() == old(self).tx().push(object->Some_0.spec_val()),
            object is None ==> final(self).tx() == old(self).tx().push(0),
    {
        match object {
            Some(id) => {
                let raw = id.to_u32();
                self.tx_msg.push(raw);
            },
            None => {
                self.tx_msg.push(0);
            },
        }
        Ok(())
    }

    /// Read a length-prefixed byte region, dropping the padding. When
    /// the region is truncated nothing is consumed, not even the length
    /// word: the failure is atomic, and `Corrupt` ends the connection
    /// anyway.
    pub fn bytes(&mut self) -> (r: Result<Vec<u8>, WlError>)
        requires
            old(self).well_formed(),
        ensures
            final(self).well_formed(),
            final(self).tx() == old(self).tx(),
            final(self).rx_fds() == old(self).rx_fds(),
            final(self).tx_fds() == old(self).tx_fds(),
            !rx_has_block(old(self).rx()) ==> r == Err::<Vec<u8>, WlError>(WlError::spec_corrupt())
                && final(self).rx() == old(self).rx(),
            rx_has_block(old(self).rx()) ==> r is Ok && r->Ok_0@ == rx_block_bytes(old(self).rx())
                && final(self).rx() == rx_block_rest(old(self).rx()),
    {
        let len_word = match self.rx_msg.get(0) {
            Some(w) => *w,
            None => {
                return Err(WlError::corrupt());
            },
        };
        let len = len_word as usize;
        let nw = len / 4 + if len % 4 != 0 {
            1
        } else {
            0
        };
        assert(nw == word_count(len_word as nat));
        if self.len_rx() - 1 < nw {
            return Err(WlError::corrupt());
        }
        let _ = self.rx_msg.pop();
        let words = pop_words(&mut self.rx_msg, nw);
        let out = unpack_bytes(words.as_slice(), len);
        proof {
            assert(words@ =~= old(self).rx().subrange(1, 1 + nw as int));
            assert(self.rx() =~= rx_block_rest(old(self).rx()));
        }
        Ok(out)
    }

    /// Queue a byte region as an `array` argument: a length word, the
    /// bytes, and zero padding up to a word boundary.
    pub fn send_bytes(&mut self, bytes: &[u8]) -> (r: Result<(), WlError>)
        requires
            old(self).well_formed(),
            bytes@.len() + 3 <= u32::MAX,
        ensures
            final(self).well_formed(),
            final(self).rx() == old(self).rx(),
            final(self).rx_fds() == old(self).rx_fds(),
            final(self).tx_fds() == old(self).tx_fds(),
            r is Ok,
            final(self).tx() == old(self).tx() + spec_array_words(bytes@),
    {
        let len = bytes.len();
        self.tx_msg.push(len as u32);
        push_packed(&mut self.tx_msg, bytes, len);
        proof {
            assert(seq_ext(bytes@, len as nat) =~= bytes@);
            assert(final(self).tx() =~= old(self).tx() + spec_array_words(bytes@));
        }
        Ok(())
    }

    /// Read a `string` argument: a NUL-terminated, length-prefixed UTF-8
    /// byte region. A zero length word is the null string and decodes as
    /// `None`; a region of just the NUL decodes as the empty string.
    pub fn string(&mut self) -> (r: Result<Option<String>, WlError>)
        requires
            old(self).well_formed(),
        ensures
            final(self).well_formed(),
            final(self).tx() == old(self).tx(),
            final(self).rx_fds() == old(self).rx_fds(),
            final(self).tx_fds() == old(self).tx_fds(),
            !rx_has_block(old(self).rx()) ==> r == Err::<Option<String>, WlError>(
                WlError::spec_corrupt(),
            ) && final(self).rx() == old(self).rx(),
            rx_has_block(old(self).rx()) ==> {
                let b = rx_block_bytes(old(self).rx());
                &&& final(self).rx() == rx_block_rest(old(self).rx())
                &&& b.len() == 0 ==> r == Ok::<Option<String>, WlError>(None)
                &&& b.len() > 0 && b.last() != 0 ==> r == Err::<Option<String>, WlError>(
                    WlError::spec_corrupt(),
                )
                &&& b.len() > 0 && b.last() == 0 ==> {
                    let content = b.drop_last();
                    &&& !valid_utf8(content) ==> r == Err::<Option<String>, WlError>(
                        WlError::spec_utf_8(),
                    )
                    &&& valid_utf8(content) ==> r is Ok && r->Ok_0 is Some
                        && r->Ok_0->Some_0@ == decode_utf8(content)
                }
            },
    {
        let mut bytes = match self.bytes() {
            Ok(b) => b,
            Err(e) => {
                return Err(e);
            },
        };
        if bytes.len() == 0 {
            return Ok(None);
        }
        let last = match bytes.pop() {
            Some(b) => b,
            None => {
                return Err(WlError::corrupt());
            },
        };
        if last != 0 {
            return Err(WlError::corrupt());
        }
        match string_from_utf8(bytes) {
            Some(s) => Ok(Some(s)),
            None => Err(WlError::utf_8()),
        }
    }

    /// Queue a `string` argument, or a zero length word for null. The
    /// length word counts the terminating NUL.
    pub fn send_string(&mut self, string: Option<&str>) -> (r: Result<(), WlError>)
        requires
            old(self).well_formed(),
            string is Some ==> encode_utf8(string->Some_0@).len() + 4 <= u32::MAX,
        ensures
            final(self).well_formed(),
            final(self).rx() == old(self).rx(),
            final(self).rx_fds() == old(self).rx_fds(),
            final(self).tx_fds() == old(self).tx_fds(),
            r is Ok,
            string is None ==> final(self).tx() == old(self).tx().push(0),
            string is Some ==> final(self).tx() == old(self).tx() + spec_string_words(
                encode_utf8(string->Some_0@),
            ),
    {
        match string {
            None => {
                self.tx_msg.push(0);
                Ok(())
            },
            Some(s) => {
                let b = s.as_bytes();
                let len = b.len();
                self.tx_msg.push((len + 1) as u32);
                push_packed(&mut self.tx_msg, b, len + 1);
                proof {
                    assert(seq_ext(b@, (len + 1) as nat) =~= b@.push(0));
                    assert(final(self).tx() =~= old(self).tx() + spec_string_words(
                        encode_utf8(s@),
                    ));
                }
                Ok(())
            },
        }
    }

    /// Read a dynamically typed `new_id` argument: an interface string,
    /// a version word and the id word. Neither the interface nor the id
    /// may be null.
    pub fn new_id(&mut self) -> (r: Result<NewId, WlError>)
        requires
            old(self).well_formed(),
        ensures
            final(self).well_formed(),
            final(self).tx() == old(self).tx(),
            final(self).rx_fds() == old(self).rx_fds(),
            final(self).tx_fds() == old(self).tx_fds(),
            !rx_has_block(old(self).rx()) ==> r == Err::<NewId, WlError>(WlError::spec_corrupt())
                && final(self).rx() == old(self).rx(),
            rx_has_block(old(self).rx()) ==> {
                let b = rx_block_bytes(old(self).rx());
                let rest = rx_block_rest(old(self).rx());
                &&& b.len() == 0 ==> r == Err::<NewId, WlError>(WlError::spec_non_nullable())
                    && final(self).rx() == rest
                &&& b.len() > 0 && b.last() != 0 ==> r == Err::<NewId, WlError>(
                    WlError::spec_corrupt(),
                ) && final(self).rx() == rest
                &&& b.len() > 0 && b.last() == 0 ==> {
                    let content = b.drop_last();
                    &&& !valid_utf8(content) ==> r == Err::<NewId, WlError>(
                        WlError::spec_utf_8(),
                    ) && final(self).rx() == rest
                    &&& valid_utf8(content) ==> {
                        &&& rest.len() == 0 ==> r == Err::<NewId, WlError>(
                            WlError::spec_corrupt(),
                        ) && final(self).rx() == rest
                        &&& rest.len() == 1 ==> r == Err::<NewId, WlError>(
                            WlError::spec_corrupt(),
                        ) && final(self).rx() == rest.skip(1)
                        &&& rest.len() >= 2 ==> final(self).rx() == rest.skip(2) && (if rest[1]
                            == 0 {
                            r == Err::<NewId, WlError>(WlError::spec_non_nullable())
                        } else {
                            r is Ok && r->Ok_0.id == rest[1] && r->Ok_0.version == rest[0]
                                && r->Ok_0.interface@ == decode_utf8(content)
                        })
                    }
                }
            },
    {
        let interface = match self.string() {
            Ok(Some(s)) => s,
            Ok(None) => {
                return Err(WlError::non_nullable());
            },
            Err(e) => {
                return Err(e);
            },
        };
        let version = match self.u32() {
            Ok(v) => v,
            Err(e) => {
                return Err(e);
            },
        };
        let id = match self.object() {
            Ok(Some(id)) => id,
            Ok(None) => {
                return Err(WlError::non_nullable());
            },
            Err(e) => {
                return Err(e);
            },
        };
        Ok(NewId { id: id.to_u32(), version, interface })
    }

    /// Queue a dynamically typed `new_id` argument.
    pub fn send_new_id(&mut self, new_id: &NewId) -> (r: Result<(), WlError>)
        requires
            old(self).well_formed(),
            encode_utf8(new_id.interface@).len() + 4 <= u32::MAX,
        ensures
            final(self).well_formed(),
            final(self).rx() == old(self).rx(),
            final(self).rx_fds() == old(self).rx_fds(),
            final(self).tx_fds() == old(self).tx_fds(),
            r is Ok,
            final(self).tx() == old(self).tx() + spec_string_words(encode_utf8(new_id.interface@))
                + seq![new_id.version, new_id.id],
    {
        let _ = self.send_string(Some(new_id.interface.as_str()));
        let _ = self.send_u32(new_id.version);
        let _ = self.send_u32(new_id.id);
        proof {
            assert(final(self).tx() =~= old(self).tx() + spec_string_words(
                encode_utf8(new_id.interface@),
            ) + seq![new_id.version, new_id.id]);
        }
        Ok(())
    }

    /// Take the oldest received file descriptor; fails with `NoFd` when
    /// none is pending.
    pub fn file(&mut self) -> (r: Result<Fd, WlError>)
        requires
            old(self).well_formed(),
        ensures
            final(self).well_formed(),
            final(self).rx() == old(self).rx(),
            final(self).tx() == old(self).tx(),
            final(self).tx_fds() == old(self).tx_fds(),
            old(self).rx_fds().len() == 0 ==> r == Err::<Fd, WlError>(WlError::spec_no_fd())
                && final(self).rx_fds() == old(self).rx_fds(),
            old(self).rx_fds().len() > 0 ==> r == Ok::<Fd, WlError>(old(self).rx_fds()[0])
                && final(self).rx_fds() == old(self).rx_fds().skip(1),
    {
        match self.rx_fd.pop() {
            Some(fd) => {
                proof {
                    assert(self.rx_fds() =~= old(self).rx_fds().skip(1));
                }
                Ok(fd)
            },
            None => Err(WlError::no_fd()),
        }
    }

    /// Queue a file descriptor for sending; fails when eight are already
    /// pending.
    pub fn send_file(&mut self, fd: Fd) -> (r: Result<(), WlError>)
        requires
            old(self).well_formed(),
        ensures
            final(self).well_formed(),
            final(self).rx() == old(self).rx(),
            final(self).tx() == old(self).tx(),
            final(self).rx_fds() == old(self).rx_fds(),
            old(self).tx_fds().len() < 7 ==> r is Ok && final(self).tx_fds() == old(
                self,
            ).tx_fds().push(fd),
            old(self).tx_fds().len() == 7 ==> r == Err::<(), WlError>(WlError::spec_internal())
                && final(self).tx_fds() == old(self).tx_fds(),
    {
        match self.tx_fd.push(fd) {
            Some(_) => Err(WlError::internal()),
            None => Ok(()),
        }
    }

    /// Reserve the two header words of an outgoing message; the returned
    /// key patches the size in on `commit`.
    pub fn start_message(&mut self, id: Id, opcode: u16) -> (r: CommitKey)
        requires
            old(self).well_formed(),
        ensures
            final(self).well_formed(),
            final(self).rx() == old(self).rx(),
            final(self).rx_fds() == old(self).rx_fds(),
            final(self).tx_fds() == old(self).tx_fds(),
            r.0 == old(self).tx().len(),
            final(self).tx() == old(self).tx() + seq![id.spec_val(), opcode as u32],
    {
        let key = CommitKey(self.tx_msg.len());
        self.tx_msg.push(id.to_u32());
        self.tx_msg.push(opcode as u32);
        proof {
            assert(final(self).tx() =~= old(self).tx() + seq![id.spec_val(), opcode as u32]);
        }
        key
    }

    /// Complete a message by patching the total byte size into the
    /// header word reserved by `start_message`. Fails when the key does
    /// not point at a reserved header or the message is too long for the
    /// 16-bit size field.
    pub fn commit(&mut self, key: CommitKey) -> (r: Result<(), WlError>)
        requires
            old(self).well_formed(),
        ensures
            final(self).well_formed(),
            final(self).rx() == old(self).rx(),
            final(self).rx_fds() == old(self).rx_fds(),
            final(self).tx_fds() == old(self).tx_fds(),
            (key.0 + 2 <= old(self).tx().len() && old(self).tx().len() - key.0 <= 0x3fff) ==> {
                &&& r is Ok
                &&& final(self).tx() == old(self).tx().update(
                    key.0 + 1,
                    spec_header_word(
                        (4 * (old(self).tx().len() - key.0)) as u32,
                        spec_header_opcode(old(self).tx()[key.0 + 1]),
                    ),
                )
            },
            !(key.0 + 2 <= old(self).tx().len() && old(self).tx().len() - key.0 <= 0x3fff) ==> r
                == Err::<(), WlError>(WlError::spec_internal()) && final(self).tx() == old(
                self,
            ).tx(),
    {
        let total = self.tx_msg.len();
        if total < 2 || key.0 > total - 2 {
            return Err(WlError::internal());
        }
        let len_words = total - key.0;
        if len_words > 0x3fff {
            return Err(WlError::internal());
        }
        let w = self.tx_msg[key.0 + 1];
        let patched = (w % 0x10000) + ((len_words as u32) * 4) * 0x10000;
        self.tx_msg[key.0 + 1] = patched;
        Ok(())
    }

    /// Hand received words to the codec, oldest first; accepts only as
    /// many as the receive buffer has room for and returns that count.
    pub fn push_rx_words(&mut self, words: &[u32]) -> (n: usize)
        requires
            old(self).well_formed(),
        ensures
            final(self).well_formed(),
            final(self).tx() == old(self).tx(),
            final(self).rx_fds() == old(self).rx_fds(),
            final(self).tx_fds() == old(self).tx_fds(),
            n == if words@.len() <= 1023 - old(self).rx().len() {
                words@.len() as int
            } else {
                1023 - old(self).rx().len()
            },
            final(self).rx() == old(self).rx() + words@.take(n as int),
    {
        let space = self.rx_msg.free() - 1;
        let n = if words.len() <= space {
            words.len()
        } else {
            space
        };
        let mut i: usize = 0;
        while i < n
            invariant
                i <= n,
                n <= words@.len(),
                self.well_formed(),
                old(self).rx().len() + n <= 1023,
                self.tx() == old(self).tx(),
                self.rx_fds() == old(self).rx_fds(),
                self.tx_fds() == old(self).tx_fds(),
                self.rx() == old(self).rx() + words@.take(i as int),
            decreases n - i,
        {
            let dropped = self.rx_msg.push(words[i]);
            proof {
                assert(dropped is None);
                assert(old(self).rx() + words@.take(i as int + 1) =~= (old(self).rx()
                    + words@.take(i as int)).push(words@[i as int]));
            }
            i = i + 1;
        }
        n
    }

    /// Hand one received file descriptor to the codec; returns it back
    /// when eight are already pending.
    pub fn push_rx_fd(&mut self, fd: Fd) -> (r: Option<Fd>)
        requires
            old(self).well_formed(),
        ensures
            final(self).well_formed(),
            final(self).rx() == old(self).rx(),
            final(self).tx() == old(self).tx(),
            final(self).tx_fds() == old(self).tx_fds(),
            old(self).rx_fds().len() < 7 ==> r is None && final(self).rx_fds() == old(
                self,
            ).rx_fds().push(fd),
            old(self).rx_fds().len() == 7 ==> r == Some(fd) && final(self).rx_fds() == old(
                self,
            ).rx_fds(),
    {
        self.rx_fd.push(fd)
    }

    /// The words queued for sending, in order.
    pub fn tx_words(&self) -> (r: &Vec<u32>)
        ensures
            r@ == self.tx(),
    {
        &self.tx_msg
    }

    /// Drop all queued outbound words after they have been sent.
    pub fn clear_tx(&mut self)
        requires
            old(self).well_formed(),
        ensures
            final(self).well_formed(),
            final(self).rx() == old(self).rx(),
            final(self).rx_fds() == old(self).rx_fds(),
            final(self).tx_fds() == old(self).tx_fds(),
            final(self).tx() == Seq::<u32>::empty(),
    {
        self.tx_msg.clear();
    }

    /// Take the oldest outbound file descriptor for sending.
    pub fn pop_tx_fd(&mut self) -> (r: Option<Fd>)
        requires
            old(self).well_formed(),
        ensures
            final(self).well_formed(),
            final(self).rx() == old(self).rx(),
            final(self).tx() == old(self).tx(),
            final(self).rx_fds() == old(self).rx_fds(),
            old(self).tx_fds().len() == 0 ==> r is None && final(self).tx_fds() == old(
                self,
            ).tx_fds(),
            old(self).tx_fds().len() > 0 ==> r == Some(old(self).tx_fds()[0]) && final(self).tx_fds() == old(self).tx_fds().skip(1),
    {
        let r = self.tx_fd.pop();
        proof {
            if old(self).tx_fds().len() > 0 {
                assert(self.tx_fds() =~= old(self).tx_fds().skip(1));
            }
        }
        r
    }

    /// Room left in the receive buffer, in words.
    pub fn rx_space(&self) -> (r: usize)
        requires
            self.well_formed(),
        ensures
            r == 1023 - self.rx().len(),
    {
        self.rx_msg.free() - 1
    }
}

proof fn lemma_word_split_bv(w: u32)
    by (bit_vector)
    ensures
        w == (w % 0x100) + ((w / 0x100) % 0x100) * 0x100 + ((w / 0x10000) % 0x100) * 0x10000 + ((
        w / 0x1000000) % 0x100) * 0x1000000,
{
}

proof fn lemma_bytes_of_sum_bv(b0: u8, b1: u8, b2: u8, b3: u8, w: u32)
    by (bit_vector)
    requires
        w == (b0 as u32) + (b1 as u32) * 0x100 + (b2 as u32) * 0x10000 + (b3 as u32) * 0x1000000,
    ensures
        w % 0x100 == b0 as u32,
        (w / 0x100) % 0x100 == b1 as u32,
        (w / 0x10000) % 0x100 == b2 as u32,
        (w / 0x1000000) % 0x100 == b3 as u32,
{
}

/// Splitting a word into its four bytes and repacking them yields the
/// word back.
pub proof fn lemma_word_byte_identity(w: u32)
    ensures
        spec_word_of_bytes(
            spec_byte_of_word(w, 0),
            spec_byte_of_word(w, 1),
            spec_byte_of_word(w, 2),
            spec_byte_of_word(w, 3),
        ) == w,
{
    lemma_word_split_bv(w);
}

/// Packing four bytes into a word and reading them back yields the
/// bytes.
pub proof fn lemma_byte_word_identity(b0: u8, b1: u8, b2: u8, b3: u8)
    ensures
        spec_byte_of_word(spec_word_of_bytes(b0, b1, b2, b3), 0) == b0,
        spec_byte_of_word(spec_word_of_bytes(b0, b1, b2, b3), 1) == b1,
        spec_byte_of_word(spec_word_of_bytes(b0, b1, b2, b3), 2) == b2,
        spec_byte_of_word(spec_word_of_bytes(b0, b1, b2, b3), 3) == b3,
{
    let w = spec_word_of_bytes(b0, b1, b2, b3);
    lemma_bytes_of_sum_bv(b0, b1, b2, b3, w);
}

/// Law: unpacking a packed byte region yields exactly the bytes that
/// went in, whatever they were.
pub proof fn lemma_pack_unpack(bytes: Seq<u8>)
    ensures
        spec_unpack_bytes(spec_pack_words(bytes), bytes.len()) == bytes,
{
    let ws = spec_pack_words(bytes);
    let u = spec_unpack_bytes(ws, bytes.len());
    assert forall|i: int| 0 <= i < bytes.len() implies u[i] == bytes[i] by {
        let w = i / 4;
        let k = i % 4;
        lemma_byte_word_identity(
            spec_padded_byte(bytes, 4 * w),
            spec_padded_byte(bytes, 4 * w + 1),
            spec_padded_byte(bytes, 4 * w + 2),
            spec_padded_byte(bytes, 4 * w + 3),
        );
        assert(4 * w + k == i);
    }
    assert(u =~= bytes);
}

/// Law: the wire form of an `array` argument decodes back to the same
/// bytes, consuming exactly its own words.
pub proof fn lemma_array_round_trip(bytes: Seq<u8>)
    requires
        bytes.len() + 3 <= u32::MAX,
    ensures
        rx_has_block(spec_array_words(bytes)),
        rx_block_bytes(spec_array_words(bytes)) == bytes,
        rx_block_rest(spec_array_words(bytes)) == Seq::<u32>::empty(),
{
    let ws = spec_array_words(bytes);
    assert(ws.subrange(1, 1 + word_count(ws[0] as nat) as int) =~= spec_pack_words(bytes));
    lemma_pack_unpack(bytes);
    assert(rx_block_bytes(ws) =~= bytes);
    assert(rx_block_rest(ws) =~= Seq::<u32>::empty());
}

/// Law: re-encoding a decoded `array` argument yields byte-identical
/// words, provided the input was well formed: the declared length fits
/// the word run and the padding bytes are zero.
pub proof fn lemma_array_words_exact(ws: Seq<u32>)
    requires
        ws.len() >= 1,
        ws.len() == 1 + word_count(ws[0] as nat),
        forall|i: int|
            ws[0] <= i < 4 * (ws.len() - 1) ==> #[trigger] spec_byte_of_word(ws[1 + i / 4], i % 4)
                == 0,
    ensures
        spec_array_words(rx_block_bytes(ws)) == ws,
{
    let len = ws[0] as nat;
    let b = rx_block_bytes(ws);
    let target = spec_array_words(b);
    assert(b.len() == len);
    assert(target.len() == ws.len());
    assert forall|w: int| 0 <= w < ws.len() implies target[w] == ws[w] by {
        if w >= 1 {
            let p = w - 1;
            lemma_word_byte_identity(ws[w]);
            assert forall|k: int| 0 <= k < 4 implies spec_padded_byte(b, 4 * p + k)
                == spec_byte_of_word(ws[w], k) by {
                let i = 4 * p + k;
                if i < len {
                    assert(b[i] == spec_byte_of_word(ws.subrange(1, ws.len() as int)[i / 4], i
                        % 4));
                    assert(ws.subrange(1, ws.len() as int)[i / 4] == ws[1 + i / 4]);
                    assert(1 + i / 4 == w && i % 4 == k);
                } else {
                    assert(spec_byte_of_word(ws[1 + i / 4], i % 4) == 0);
                    assert(1 + i / 4 == w && i % 4 == k);
                }
            }
        }
    }
    assert(target =~= ws);
}

/// Law: the wire form of a `string` argument decodes back to the same
/// content followed by its NUL, consuming exactly its own words.
pub proof fn lemma_string_round_trip(bytes: Seq<u8>)
    requires
        bytes.len() + 4 <= u32::MAX,
    ensures
        rx_has_block(spec_string_words(bytes)),
        rx_block_bytes(spec_string_words(bytes)) == bytes.push(0),
        rx_block_bytes(spec_string_words(bytes)).drop_last() == bytes,
        rx_block_rest(spec_string_words(bytes)) == Seq::<u32>::empty(),
{
    let ws = spec_string_words(bytes);
    assert(ws.subrange(1, 1 + word_count(ws[0] as nat) as int) =~= spec_pack_words(
        bytes.push(0),
    ));
    lemma_pack_unpack(bytes.push(0));
    assert(rx_block_bytes(ws) =~= bytes.push(0));
    assert(rx_block_bytes(ws).drop_last() =~= bytes);
    assert(rx_block_rest(ws) =~= Seq::<u32>::empty());
}

/// Law: re-encoding a decoded `string` argument yields byte-identical
/// words, provided the input was well formed: a nonzero length word
/// that fits the word run, a terminating NUL, and zero padding.
#[verifier::rlimit(100)]
pub proof fn lemma_string_words_exact(ws: Seq<u32>)
    requires
        ws.len() >= 1,
        ws[0] >= 1,
        ws.len() == 1 + word_count(ws[0] as nat),
        rx_block_bytes(ws).last() == 0,
        forall|i: int|
            ws[0] <= i < 4 * (ws.len() - 1) ==> #[trigger] spec_byte_of_word(ws[1 + i / 4], i % 4)
                == 0,
    ensures
        spec_string_words(rx_block_bytes(ws).drop_last()) == ws,
{
    let b = rx_block_bytes(ws);
    lemma_array_words_exact(ws);
    assert(b.drop_last().push(0) =~= b);
    assert(spec_string_words(b.drop_last()) =~= spec_array_words(b));
}

/// Law: a string of byte length `L` encodes with length word `L + 1`
/// (counting the terminating NUL), padded to a 4-byte boundary.
pub proof fn lemma_string_length_word(bytes: Seq<u8>)
    requires
        bytes.len() + 4 <= u32::MAX,
    ensures
        spec_string_words(bytes)[0] == bytes.len() + 1,
        spec_string_words(bytes).len() == 1 + (bytes.len() + 4) / 4,
{
}

/// Law: the one-word argument primitives (`int`, `uint`, `fixed`,
/// `object`) re-encode to exactly the word they were decoded from:
/// sending the value read appends the word that the read consumed.
pub proof fn lemma_word_round_trip(rx: Seq<u32>, tx: Seq<u32>)
    requires
        rx.len() > 0,
    ensures
        tx.push(rx[0]) == tx + rx.take(1),
{
    assert(tx.push(rx[0]) =~= tx + rx.take(1));
}

/// Law: the wire form of a dynamically typed `new_id` argument — its
/// interface string followed by the version and id words — decodes
/// back to the same parts, consuming exactly its own words.
#[verifier::rlimit(100)]
pub proof fn lemma_new_id_round_trip(bytes: Seq<u8>, version: u32, id: u32)
    requires
        bytes.len() + 4 <= u32::MAX,
    ensures
        ({
            let ws = spec_string_words(bytes) + seq![version, id];
            &&& rx_has_block(ws)
            &&& rx_block_bytes(ws) == bytes.push(0)
            &&& rx_block_rest(ws) == seq![version, id]
        }),
{
    let sw = spec_string_words(bytes);
    let ws = sw + seq![version, id];
    lemma_string_round_trip(bytes);
    assert(ws[0] == sw[0]);
    assert(ws.subrange(1, 1 + word_count(ws[0] as nat) as int) =~= sw.subrange(
        1,
        1 + word_count(sw[0] as nat) as int,
    ));
    assert(rx_block_bytes(ws) == rx_block_bytes(sw));
    assert(rx_block_rest(ws) =~= seq![version, id]);
}

/// Law: every protocol error kind carries a non-empty description, so
/// a `display.error` event never ships an empty message.
pub proof fn lemma_description_nonempty(kind: WlErrorKind)
    ensures
        WlError::spec_description(kind).len() > 0,
{
    reveal_strlit("Protocol violation or malformed request.");
    reveal_strlit("No object with that ID.");
    reveal_strlit("The requested version of an interface is unsupported.");
    reveal_strlit("Request contains an invalid opcode.");
    reveal_strlit("No global with that name.");
    reveal_strlit("Strings must be valid UTF-8.");
    reveal_strlit("Argument is not nullable.");
    reveal_strlit("Expected a file descriptor but none were received.");
    reveal_strlit("The compositor is out of memory.");
    reveal_strlit("Internal compositor state is corrupted.");
}

} // verus!
