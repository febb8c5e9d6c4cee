//! Plain value types carried by the wire protocol: fixed-point numbers,
//! requested object ids, file-descriptor numbers and raw byte arrays.
use vstd::prelude::*;

verus! {

/// A fixed-point decimal as defined by the Wayland wire format: the high
/// 24 bits are the integer part (two's complement), the low 8 bits the
/// fraction.
#[derive(Clone, Copy, Debug, PartialEq, Eq, Structural)]
pub struct Fixed(pub i32);

impl Fixed {
    /// Reinterpret one wire word as a fixed-point value.
    pub fn from_raw(raw: u32) -> (r: Self)
        ensures
            r.0 == raw as i32,
    {
        Fixed(raw as i32)
    }

    /// The wire word carrying this value.
    pub fn to_raw(&self) -> (r: u32)
        ensures
            r == self.0 as u32,
    {
        self.0 as u32
    }

    /// The fixed-point form of a whole number. The whole part has 24
    /// bits, so the number must fit them.
    pub fn from_i32(value: i32) -> (r: Self)
        requires
            -0x0080_0000 <= value < 0x0080_0000,
        ensures
            r.0 == value * 256,
    {
        Fixed(value * 256)
    }

    /// The whole part of the value, truncated toward zero.
    pub open spec fn spec_whole(&self) -> int {
        if self.0 >= 0 {
            self.0 / 256
        } else {
            -((-self.0) / 256)
        }
    }

    /// Truncate to a whole number, rounding toward zero.
    pub fn to_i32(&self) -> (r: i32)
        ensures
            r == self.spec_whole(),
    {
        if self.0 >= 0 {
            ((self.0 as u32) / 256) as i32
        } else {
            let magnitude = (-(self.0 as i64)) as u64;
            -((magnitude / 256) as i32)
        }
    }
}

/// An id for an object that was requested to be created, along with the
/// interface name and version that the creating request carried (or that
/// the protocol fixed in advance).
#[derive(Debug)]
pub struct NewId {
    pub id: u32,
    pub version: u32,
    pub interface: String,
}

impl NewId {
    pub fn new(id: u32, version: u32, interface: String) -> (r: Self)
        ensures
            r.id == id,
            r.version == version,
            r.interface == interface,
    {
        NewId { id, version, interface }
    }

    /// The requested object id.
    pub fn id(&self) -> (r: u32)
        ensures
            r == self.id,
    {
        self.id
    }

    /// The requested interface version.
    pub fn version(&self) -> (r: u32)
        ensures
            r == self.version,
    {
        self.version
    }

    /// The name of the interface to instantiate.
    pub fn interface(&self) -> (r: &str)
        ensures
            r@ == self.interface@,
    {
        self.interface.as_str()
    }
}

/// A file descriptor number. The library only routes these numbers
/// through its buffers; opening, duplicating and closing them is the
/// caller's business.
#[derive(Debug, PartialEq, Eq, Structural)]
pub struct Fd(pub i32);

impl Fd {
    pub fn new(fd: i32) -> (r: Self)
        ensures
            r.0 == fd,
    {
        Fd(fd)
    }

    /// The raw descriptor number.
    pub fn raw(&self) -> (r: i32)
        ensures
            r == self.0,
    {
        self.0
    }
}

/// A raw byte array argument; unlike a string it carries no terminator
/// and need not be text.
#[derive(Debug)]
pub struct Array(pub Vec<u8>);

/// Something addressable as a protocol object.
pub trait Object {
    /// The object id this value refers to.
    fn object(&self) -> u32;
}

impl Object for NewId {
    fn object(&self) -> u32 {
        self.id
    }
}

} // verus!
