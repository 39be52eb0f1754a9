//! IPv4 and MAC address values, and the byte-level conversions the codec and
//! the pool share: big-endian assembly of a 32-bit value from four octets and
//! its inverse.

use vstd::prelude::*;

verus! {

/// The four bytes of `i` in big-endian order, highest byte first.
pub open spec fn be_bytes_of_u32(i: u32) -> Seq<u8> {
    seq![
        ((i >> 24) & 0xff) as u8,
        ((i >> 16) & 0xff) as u8,
        ((i >> 8) & 0xff) as u8,
        (i & 0xff) as u8,
    ]
}

/// The 32-bit value whose big-endian bytes are `a`, `b`, `c`, `d`.
pub open spec fn u32_of_be_bytes(a: u8, b: u8, c: u8, d: u8) -> u32 {
    (((a as u32) << 24) | ((b as u32) << 16) | ((c as u32) << 8) | (d as u32)) as u32
}

/// Reassembling the big-endian bytes of a value gives the value back.
pub proof fn lemma_be_bytes_round_trip(i: u32)
    ensures
        u32_of_be_bytes(
            be_bytes_of_u32(i)[0],
            be_bytes_of_u32(i)[1],
            be_bytes_of_u32(i)[2],
            be_bytes_of_u32(i)[3],
        ) == i,
{
    assert((((((i >> 24) & 0xff) as u8 as u32) << 24) | ((((i >> 16) & 0xff) as u8 as u32) << 16)
        | ((((i >> 8) & 0xff) as u8 as u32) << 8) | ((i & 0xff) as u8 as u32)) as u32 == i)
        by (bit_vector);
}

/// An IPv4 address, held as the 32-bit value that its four octets spell in
/// big-endian order.
#[derive(Clone, Copy, PartialEq, Eq, Structural, Debug, Hash)]
pub struct Ipv4 {
    pub bits: u32,
}

impl Ipv4 {
    /// The address whose octets, in address order, are `a`, `b`, `c`, `d`.
    pub open spec fn spec_from_octets(a: u8, b: u8, c: u8, d: u8) -> Ipv4 {
        Ipv4 { bits: u32_of_be_bytes(a, b, c, d) }
    }

    /// The four octets of the address, in address order.
    pub open spec fn spec_octets(self) -> Seq<u8> {
        be_bytes_of_u32(self.bits)
    }

    pub fn from_octets(a: u8, b: u8, c: u8, d: u8) -> (r: Ipv4)
        ensures
            r == Ipv4::spec_from_octets(a, b, c, d),
    {
        Ipv4 { bits: ((a as u32) << 24) | ((b as u32) << 16) | ((c as u32) << 8) | (d as u32) }
    }

    pub fn octets(self) -> (r: [u8; 4])
        ensures
            r@ == self.spec_octets(),
    {
        let r = [
            ((self.bits >> 24) & 0xff) as u8,
            ((self.bits >> 16) & 0xff) as u8,
            ((self.bits >> 8) & 0xff) as u8,
            (self.bits & 0xff) as u8,
        ];
        assert(r@ =~= self.spec_octets());
        r
    }
}

/// The address read from a four-byte window, first byte highest.
pub open spec fn ipv4_of_byte_seq(s: Seq<u8>) -> Ipv4
    recommends
        s.len() == 4,
{
    Ipv4::spec_from_octets(s[0], s[1], s[2], s[3])
}

/// An address's own octets read back give the address: the octet encoding is
/// injective and `ipv4_of_byte_seq` inverts it.
pub proof fn lemma_ipv4_octets_round_trip(ip: Ipv4)
    ensures
        ipv4_of_byte_seq(ip.spec_octets()) == ip,
{
    lemma_be_bytes_round_trip(ip.bits);
}

/// A 48-bit Ethernet MAC address, one field per octet in address order.
#[derive(Clone, Copy, PartialEq, Eq, Structural, Debug, Hash)]
pub struct Mac {
    pub b0: u8,
    pub b1: u8,
    pub b2: u8,
    pub b3: u8,
    pub b4: u8,
    pub b5: u8,
}

impl Mac {
    /// The six octets of the address, in address order.
    pub open spec fn spec_octets(self) -> Seq<u8> {
        seq![self.b0, self.b1, self.b2, self.b3, self.b4, self.b5]
    }

    pub fn new(b0: u8, b1: u8, b2: u8, b3: u8, b4: u8, b5: u8) -> (r: Mac)
        ensures
            r == (Mac { b0, b1, b2, b3, b4, b5 }),
    {
        Mac { b0, b1, b2, b3, b4, b5 }
    }
}

/// The MAC address read from a six-byte window.
pub open spec fn mac_of_byte_seq(s: Seq<u8>) -> Mac
    recommends
        s.len() == 6,
{
    Mac { b0: s[0], b1: s[1], b2: s[2], b3: s[3], b4: s[4], b5: s[5] }
}

/// A MAC address's own octets read back give the address.
pub proof fn lemma_mac_octets_round_trip(m: Mac)
    ensures
        mac_of_byte_seq(m.spec_octets()) == m,
{
}

/// Converts a four-byte slice to an IPv4 address; any other length is
/// rejected.
pub fn u8_to_ipv4addr(buf: &[u8]) -> (r: Option<Ipv4>)
    ensures
        buf@.len() == 4 ==> r == Some(ipv4_of_byte_seq(buf@)),
        buf@.len() != 4 ==> r is None,
{
    if buf.len() == 4 {
        Some(Ipv4::from_octets(buf[0], buf[1], buf[2], buf[3]))
    } else {
        None
    }
}

/// The four bytes of `i`, big-endian, as a fresh vector; used for the lease
/// time carried in a DHCP option.
pub fn make_big_endian_vec_from_u32(i: u32) -> (r: Vec<u8>)
    ensures
        r@ == be_bytes_of_u32(i),
{
    let mut v: Vec<u8> = Vec::new();
    v.push(((i >> 24) & 0xff) as u8);
    v.push(((i >> 16) & 0xff) as u8);
    v.push(((i >> 8) & 0xff) as u8);
    v.push((i & 0xff) as u8);
    assert(v@ =~= be_bytes_of_u32(i));
    v
}

} // verus!
