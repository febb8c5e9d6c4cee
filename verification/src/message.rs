//! Whole-message handling: an owned message with its untyped argument
//! words and file descriptors, and the `Args` adapter that parses typed
//! arguments back out of the word stream.
use vstd::prelude::*;

use crate::ring::RingBuffer;
use crate::types::{Array, Fd, Fixed, NewId};
use crate::wire::{
    push_packed, pop_words, rx_block_bytes, rx_block_rest, rx_has_block, seq_ext,
    spec_array_words, spec_header_opcode, spec_header_size, spec_header_word, spec_string_words,
    string_from_utf8, unpack_bytes, word_count, WlError,
};
use vstd::slice::slice_subrange;
use vstd::utf8::{decode_utf8, encode_utf8, valid_utf8};

verus! {

/// The words of a whole message as they stand on the wire: the object
/// word, the header word composed from byte size and opcode, then the
/// argument words.
pub open spec fn spec_message_words(object: u32, opcode: u16, args: Seq<u32>) -> Seq<u32>
    recommends
        args.len() <= 0x3ffd,
{
    seq![object, spec_header_word((8 + 4 * args.len()) as u32, opcode as u32)] + args
}

/// A message over the wire: an action to carry out on an object, with
/// untyped argument words and out-of-band file descriptors.
#[derive(Debug)]
pub struct Message {
    /// The object instance that the message refers to.
    pub object: u32,
    /// The event or request to carry out.
    pub opcode: u16,
    /// The untyped arguments to pass to the callee.
    pub args: Vec<u32>,
    /// The file descriptor arguments.
    pub fds: Vec<Fd>,
}

impl Message {
    /// Create a new message with no arguments.
    pub fn new(object: u32, opcode: u16) -> (r: Self)
        ensures
            r.object == object,
            r.opcode == opcode,
            r.args@ == Seq::<u32>::empty(),
            r.fds@ == Seq::<Fd>::empty(),
    {
        Message { object, opcode, args: Vec::new(), fds: Vec::new() }
    }

    /// Peek whether a full message is buffered: a complete header whose
    /// declared size has entirely arrived.
    pub fn available(messages: &RingBuffer<u32>) -> (r: bool)
        requires
            messages.well_formed(),
        ensures
            r == (messages@.len() >= 2 && messages@.len() * 4 >= spec_header_size(messages@[1])),
    {
        match messages.get(1) {
            Some(w) => {
                let size = *w / 0x10000;
                let len = messages.len();
                len >= (size as usize + 3) / 4
            },
            None => false,
        }
    }

    /// Decode the next message directly off the wire. The declared size
    /// must be at least the 8 header bytes, a multiple of 4, and fully
    /// buffered; otherwise the message is malformed or incomplete and
    /// nothing is consumed.
    pub fn read(messages: &mut RingBuffer<u32>) -> (r: Result<Self, WlError>)
        requires
            old(messages).well_formed(),
        ensures
            final(messages).well_formed(),
            final(messages).spec_capacity() == old(messages).spec_capacity(),
            old(messages)@.len() < 2 ==> r == Err::<Message, WlError>(WlError::spec_corrupt())
                && final(messages)@ == old(messages)@,
            old(messages)@.len() >= 2 ==> {
                let size = spec_header_size(old(messages)@[1]);
                let opcode = spec_header_opcode(old(messages)@[1]);
                &&& (size % 4 != 0 || size < 8) ==> r == Err::<Message, WlError>(
                    WlError::spec_corrupt(),
                ) && final(messages)@ == old(messages)@
                &&& (size % 4 == 0 && size >= 8 && old(messages)@.len() < size / 4) ==> r == Err::<
                    Message,
                    WlError,
                >(WlError::spec_corrupt()) && final(messages)@ == old(messages)@
                &&& (size % 4 == 0 && size >= 8 && old(messages)@.len() >= size / 4) ==> {
                    &&& r is Ok
                    &&& r->Ok_0.object == old(messages)@[0]
                    &&& r->Ok_0.opcode == opcode as u16
                    &&& r->Ok_0.args@ == old(messages)@.subrange(2, size as int / 4)
                    &&& r->Ok_0.fds@ == Seq::<Fd>::empty()
                    &&& final(messages)@ == old(messages)@.skip(size as int / 4)
                }
            },
    {
        let header = match messages.get(1) {
            Some(w) => *w,
            None => {
                return Err(WlError::corrupt());
            },
        };
        let message_size = header / 0x10000;
        let opcode = (header % 0x10000) as u16;
        if message_size % 4 != 0 || message_size < 8 {
            return Err(WlError::corrupt());
        }
        let need = (message_size / 4) as usize;
        if messages.len() < need {
            return Err(WlError::corrupt());
        }
        let object = *messages.get(0).unwrap();
        let _ = messages.pop();
        let _ = messages.pop();
        let args = pop_words(messages, need - 2);
        proof {
            assert(args@ =~= old(messages)@.subrange(2, message_size as int / 4));
            assert(messages@ =~= old(messages)@.skip(message_size as int / 4));
        }
        Ok(Message { object, opcode, args, fds: Vec::new() })
    }

    /// The words this message occupies on the wire, header first.
    pub fn encode(&self) -> (r: Vec<u32>)
        requires
            self.args@.len() <= 0x3ffd,
        ensures
            r@ == spec_message_words(self.object, self.opcode, self.args@),
    {
        let mut out: Vec<u32> = Vec::new();
        out.push(self.object);
        let size = (8 + 4 * self.args.len()) as u32;
        out.push(size * 0x10000 + self.opcode as u32);
        let mut i: usize = 0;
        while i < self.args.len()
            invariant
                i <= self.args@.len(),
                self.args@.len() <= 0x3ffd,
                out@ == spec_message_words(self.object, self.opcode, self.args@).take(2 + i),
            decreases self.args@.len() - i,
        {
            out.push(self.args[i]);
            proof {
                let target = spec_message_words(self.object, self.opcode, self.args@);
                assert(target.take(2 + i + 1) =~= target.take(2 + i).push(target[2 + i]));
            }
            i = i + 1;
        }
        proof {
            let target = spec_message_words(self.object, self.opcode, self.args@);
            assert(target.take(2 + self.args@.len() as int) =~= target);
        }
        out
    }

    /// Get an adapter over the arguments.
    pub fn args<'a>(&'a self) -> (r: Args<'a>)
        ensures
            r.remaining() == self.args@,
    {
        Args { args: self.args.as_slice() }
    }

    /// Push a u32 to the list of arguments.
    pub fn push_u32(&mut self, value: u32)
        ensures
            final(self).object == old(self).object,
            final(self).opcode == old(self).opcode,
            final(self).fds@ == old(self).fds@,
            final(self).args@ == old(self).args@.push(value),
    {
        self.args.push(value)
    }

    /// Push an i32 to the list of arguments.
    pub fn push_i32(&mut self, value: i32)
        ensures
            final(self).object == old(self).object,
            final(self).opcode == old(self).opcode,
            final(self).fds@ == old(self).fds@,
            final(self).args@ == old(self).args@.push(value as u32),
    {
        self.args.push(value as u32)
    }

    /// Push a fixed-point number to the list of arguments.
    pub fn push_fixed(&mut self, fixed: Fixed)
        ensures
            final(self).object == old(self).object,
            final(self).opcode == old(self).opcode,
            final(self).fds@ == old(self).fds@,
            final(self).args@ == old(self).args@.push(fixed.0 as u32),
    {
        let raw = fixed.to_raw();
        self.args.push(raw)
    }

    /// Push a string to the list of arguments, appending a terminating
    /// NUL and padding to a word boundary.
    pub fn push_str(&mut self, value: &str)
        requires
            encode_utf8(value@).len() + 4 <= u32::MAX,
        ensures
            final(self).object == old(self).object,
            final(self).opcode == old(self).opcode,
            final(self).fds@ == old(self).fds@,
            final(self).args@ == old(self).args@ + spec_string_words(encode_utf8(value@)),
    {
        let b = value.as_bytes();
        let len = b.len();
        self.args.push((len + 1) as u32);
        push_packed(&mut self.args, b, len + 1);
        proof {
            assert(seq_ext(b@, (len + 1) as nat) =~= b@.push(0));
            assert(final(self).args@ =~= old(self).args@ + spec_string_words(encode_utf8(value@)));
        }
    }

    /// Push an array of bytes to the list of arguments, zero-padded to a
    /// word boundary.
    pub fn push_array(&mut self, array: Array)
        requires
            array.0@.len() + 3 <= u32::MAX,
        ensures
            final(self).object == old(self).object,
            final(self).opcode == old(self).opcode,
            final(self).fds@ == old(self).fds@,
            final(self).args@ == old(self).args@ + spec_array_words(array.0@),
    {
        let len = array.0.len();
        self.args.push(len as u32);
        push_packed(&mut self.args, array.0.as_slice(), len);
        proof {
            assert(seq_ext(array.0@, len as nat) =~= array.0@);
            assert(final(self).args@ =~= old(self).args@ + spec_array_words(array.0@));
        }
    }

    /// Push a file descriptor; it travels out of band.
    pub fn push_file(&mut self, fd: Fd)
        ensures
            final(self).object == old(self).object,
            final(self).opcode == old(self).opcode,
            final(self).args@ == old(self).args@,
            final(self).fds@ == old(self).fds@.push(fd),
    {
        self.fds.push(fd)
    }

    /// Push a statically typed new id: only the id word travels.
    pub fn push_new_id(&mut self, id: NewId)
        ensures
            final(self).object == old(self).object,
            final(self).opcode == old(self).opcode,
            final(self).fds@ == old(self).fds@,
            final(self).args@ == old(self).args@.push(id.id),
    {
        self.args.push(id.id)
    }

    /// Push a dynamically typed new id: interface string, version, id.
    pub fn push_dynamic_new_id(&mut self, id: NewId)
        requires
            encode_utf8(id.interface@).len() + 4 <= u32::MAX,
        ensures
            final(self).object == old(self).object,
            final(self).opcode == old(self).opcode,
            final(self).fds@ == old(self).fds@,
            final(self).args@ == old(self).args@ + spec_string_words(encode_utf8(id.interface@))
                + seq![id.version, id.id],
    {
        self.push_str(id.interface.as_str());
        self.args.push(id.version);
        self.args.push(id.id);
        proof {
            assert(final(self).args@ =~= old(self).args@ + spec_string_words(
                encode_utf8(id.interface@),
            ) + seq![id.version, id.id]);
        }
    }
}

/// An adapter over an argument word stream; each accessor consumes the
/// words of one argument.
pub struct Args<'a> {
    args: &'a [u32],
}

impl<'a> Args<'a> {
    /// The argument words not yet consumed.
    pub closed spec fn remaining(&self) -> Seq<u32> {
        self.args@
    }

    /// Interpret the next argument as an unsigned integer.
    pub fn next_u32(&mut self) -> (r: Result<u32, WlError>)
        ensures
            old(self).remaining().len() == 0 ==> r == Err::<u32, WlError>(WlError::spec_corrupt())
                && final(self).remaining() == old(self).remaining(),
            old(self).remaining().len() > 0 ==> r == Ok::<u32, WlError>(old(self).remaining()[0])
                && final(self).remaining() == old(self).remaining().skip(1),
    {
        if self.args.len() == 0 {
            return Err(WlError::corrupt());
        }
        let v = self.args[0];
        self.args = slice_subrange(self.args, 1, self.args.len());
        proof {
            assert(self.remaining() =~= old(self).remaining().skip(1));
        }
        Ok(v)
    }

    /// Interpret the next argument as a signed integer.
    pub fn next_i32(&mut self) -> (r: Result<i32, WlError>)
        ensures
            old(self).remaining().len() == 0 ==> r == Err::<i32, WlError>(WlError::spec_corrupt())
                && final(self).remaining() == old(self).remaining(),
            old(self).remaining().len() > 0 ==> r == Ok::<i32, WlError>(
                old(self).remaining()[0] as i32,
            ) && final(self).remaining() == old(self).remaining().skip(1),
    {
        match self.next_u32() {
            Ok(v) => Ok(v as i32),
            Err(e) => Err(e),
        }
    }

    /// Interpret the next argument as a fixed-point decimal.
    pub fn next_fixed(&mut self) -> (r: Result<Fixed, WlError>)
        ensures
            old(self).remaining().len() == 0 ==> r == Err::<Fixed, WlError>(
                WlError::spec_corrupt(),
            ) && final(self).remaining() == old(self).remaining(),
            old(self).remaining().len() > 0 ==> r == Ok::<Fixed, WlError>(
                Fixed(old(self).remaining()[0] as i32),
            ) && final(self).remaining() == old(self).remaining().skip(1),
    {
        match self.next_u32() {
            Ok(v) => Ok(Fixed::from_raw(v)),
            Err(e) => Err(e),
        }
    }

    /// Take the length-prefixed byte region at the head of the stream.
    /// When the region is truncated nothing is consumed, not even the
    /// length word: the failure is atomic, and `Corrupt` abandons the
    /// message anyway.
    fn next_block(&mut self) -> (r: Result<Vec<u8>, WlError>)
        ensures
            !rx_has_block(old(self).remaining()) ==> r == Err::<Vec<u8>, WlError>(
                WlError::spec_corrupt(),
            ) && final(self).remaining() == old(self).remaining(),
            rx_has_block(old(self).remaining()) ==> r is Ok && r->Ok_0@ == rx_block_bytes(
                old(self).remaining(),
            ) && final(self).remaining() == rx_block_rest(old(self).remaining()),
    {
        if self.args.len() == 0 {
            return Err(WlError::corrupt());
        }
        let len_word = self.args[0];
        let len = len_word as usize;
        let nw = len / 4 + if len % 4 != 0 {
            1
        } else {
            0
        };
        assert(nw == word_count(len_word as nat));
        if self.args.len() - 1 < nw {
            return Err(WlError::corrupt());
        }
        let words = slice_subrange(self.args, 1, 1 + nw);
        let bytes = unpack_bytes(words, len);
        self.args = slice_subrange(self.args, 1 + nw, self.args.len());
        proof {
            assert(self.remaining() =~= rx_block_rest(old(self).remaining()));
        }
        Ok(bytes)
    }

    /// Interpret the next argument as a NUL-terminated UTF-8 string. A
    /// zero length word is the null string, which has no place where a
    /// string is demanded; a region of just the NUL is the empty string.
    pub fn next_str(&mut self) -> (r: Result<String, WlError>)
        ensures
            !rx_has_block(old(self).remaining()) ==> r == Err::<String, WlError>(
                WlError::spec_corrupt(),
            ) && final(self).remaining() == old(self).remaining(),
            rx_has_block(old(self).remaining()) ==> {
                let b = rx_block_bytes(old(self).remaining());
                &&& final(self).remaining() == rx_block_rest(old(self).remaining())
                &&& b.len() == 0 ==> r == Err::<String, WlError>(WlError::spec_non_nullable())
                &&& b.len() > 0 && b.last() != 0 ==> r == Err::<String, WlError>(
                    WlError::spec_corrupt(),
                )
                &&& b.len() > 0 && b.last() == 0 ==> {
                    let content = b.drop_last();
                    &&& !valid_utf8(content) ==> r == Err::<String, WlError>(
                        WlError::spec_utf_8(),
                    )
                    &&& valid_utf8(content) ==> r is Ok && r->Ok_0@ == decode_utf8(content)
                }
            },
    {
        let mut bytes = match self.next_block() {
            Ok(b) => b,
            Err(e) => {
                return Err(e);
            },
        };
        let last = match bytes.pop() {
            Some(b) => b,
            None => {
                return Err(WlError::non_nullable());
            },
        };
        if last != 0 {
            return Err(WlError::corrupt());
        }
        match string_from_utf8(bytes) {
            Some(s) => Ok(s),
            None => Err(WlError::utf_8()),
        }
    }

    /// Interpret the next argument as a byte array. A truncated region
    /// consumes nothing, the length word included: the failure is
    /// atomic.
    pub fn next_array(&mut self) -> (r: Result<Vec<u8>, WlError>)
        ensures
            !rx_has_block(old(self).remaining()) ==> r == Err::<Vec<u8>, WlError>(
                WlError::spec_corrupt(),
            ) && final(self).remaining() == old(self).remaining(),
            rx_has_block(old(self).remaining()) ==> r is Ok && r->Ok_0@ == rx_block_bytes(
                old(self).remaining(),
            ) && final(self).remaining() == rx_block_rest(old(self).remaining()),
    {
        self.next_block()
    }

    /// Interpret the next argument as a new id whose interface is known
    /// from the protocol specification.
    pub fn next_new_id(&mut self, interface: &str, version: u32) -> (r: Result<NewId, WlError>)
        ensures
            old(self).remaining().len() == 0 ==> r == Err::<NewId, WlError>(
                WlError::spec_corrupt(),
            ) && final(self).remaining() == old(self).remaining(),
            old(self).remaining().len() > 0 ==> final(self).remaining() == old(
                self,
            ).remaining().skip(1) && (if old(self).remaining()[0] == 0 {
                r == Err::<NewId, WlError>(WlError::spec_non_nullable())
            } else {
                r is Ok && r->Ok_0.id == old(self).remaining()[0] && r->Ok_0.version == version
                    && r->Ok_0.interface@ == interface@
            }),
    {
        let id = match self.next_u32() {
            Ok(v) => v,
            Err(e) => {
                return Err(e);
            },
        };
        if id == 0 {
            return Err(WlError::non_nullable());
        }
        Ok(NewId { id, version, interface: interface.to_owned() })
    }

    /// Interpret the next argument as a new id whose interface is named
    /// on the wire: an interface string, a version and the id.
    pub fn next_dynamic_new_id(&mut self) -> (r: Result<NewId, WlError>)
        ensures
            !rx_has_block(old(self).remaining()) ==> r == Err::<NewId, WlError>(
                WlError::spec_corrupt(),
            ) && final(self).remaining() == old(self).remaining(),
            rx_has_block(old(self).remaining()) ==> {
                let b = rx_block_bytes(old(self).remaining());
                let rest = rx_block_rest(old(self).remaining());
                &&& b.len() == 0 ==> r == Err::<NewId, WlError>(WlError::spec_non_nullable())
                    && final(self).remaining() == rest
                &&& b.len() > 0 && b.last() != 0 ==> r == Err::<NewId, WlError>(
                    WlError::spec_corrupt(),
                ) && final(self).remaining() == rest
                &&& b.len() > 0 && b.last() == 0 ==> {
                    let content = b.drop_last();
                    &&& !valid_utf8(content) ==> r == Err::<NewId, WlError>(WlError::spec_utf_8())
                        && final(self).remaining() == rest
                    &&& valid_utf8(content) ==> {
                        &&& rest.len() == 0 ==> r == Err::<NewId, WlError>(
                            WlError::spec_corrupt(),
                        ) && final(self).remaining() == rest
                        &&& rest.len() == 1 ==> r == Err::<NewId, WlError>(
                            WlError::spec_corrupt(),
                        ) && final(self).remaining() == rest.skip(1)
                        &&& rest.len() >= 2 ==> final(self).remaining() == rest.skip(2) && (if rest[1]
                            == 0 {
                            r == Err::<NewId, WlError>(WlError::spec_non_nullable())
                        } else {
                            r is Ok && r->Ok_0.id == rest[1] && r->Ok_0.version == rest[0]
                                && r->Ok_0.interface@ == decode_utf8(content)
                        })
                    }
                }
            },
    {
        let interface = match self.next_str() {
            Ok(s) => s,
            Err(e) => {
                return Err(e);
            },
        };
        let version = match self.next_u32() {
            Ok(v) => v,
            Err(e) => {
                return Err(e);
            },
        };
        let id = match self.next_u32() {
            Ok(v) => v,
            Err(e) => {
                return Err(e);
            },
        };
        if id == 0 {
            return Err(WlError::non_nullable());
        }
        Ok(NewId { id, version, interface })
    }
}

/// Law: decoding one complete message and re-encoding it yields
/// byte-identical words (round trip). `rx` is exactly the words of one
/// well-formed frame: at least the 8 header bytes, a multiple of 4, and
/// a size that matches the frame.
pub proof fn lemma_message_round_trip(rx: Seq<u32>)
    requires
        rx.len() >= 2,
        spec_header_size(rx[1]) >= 8,
        spec_header_size(rx[1]) % 4 == 0,
        rx.len() == spec_header_size(rx[1]) / 4,
    ensures
        spec_message_words(
            rx[0],
            spec_header_opcode(rx[1]) as u16,
            rx.subrange(2, rx.len() as int),
        ) == rx,
{
    let size = spec_header_size(rx[1]) as int;
    let opcode = spec_header_opcode(rx[1]);
    let args = rx.subrange(2, rx.len() as int);
    assert(4 * (size / 4) == size);
    assert(args.len() == size / 4 - 2);
    assert(8 + 4 * args.len() == size);
    assert(rx[1] == 0x10000 * (rx[1] / 0x10000) + rx[1] % 0x10000);
    assert(spec_header_word(size as u32, opcode as u16 as u32) == rx[1]);
    assert(spec_message_words(rx[0], opcode as u16, args) =~= rx);
}

} // verus!
