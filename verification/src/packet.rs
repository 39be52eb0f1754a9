//! The DHCP wire format: a fixed-layout view over a raw byte buffer, field
//! accessors over byte-offset windows, and the TLV option list that follows
//! the magic cookie.
//!
//! Every field write is specified as a `splice` of the buffer's byte
//! sequence, every read as `bytes_at`; the round-trip laws at the end of the
//! module state that a written window reads back unchanged and that other
//! windows are untouched.

use vstd::prelude::*;

use crate::addr::ipv4_of_byte_seq;
use crate::addr::mac_of_byte_seq;
use crate::addr::Ipv4;
use crate::addr::Mac;

verus! {

pub const OP: usize = 0;

pub const HTYPE: usize = 1;

pub const HLEN: usize = 2;

pub const XID: usize = 4;

pub const SECS: usize = 8;

pub const FLAGS: usize = 10;

pub const CIADDR: usize = 12;

pub const YIADDR: usize = 16;

pub const SIADDR: usize = 20;

pub const GIADDR: usize = 24;

pub const CHADDR: usize = 28;

pub const SNAME: usize = 44;

pub const OPTIONS: usize = 236;

/// Size of the fixed fields alone; shorter buffers are rejected.
pub const DHCP_MINIMUM_SIZE: usize = 237;

pub const OPTION_END: u8 = 255;

pub const OPTION_PAD: u8 = 0;

/// Errors a packet operation can report. A malformed option stream (a TLV
/// whose length runs past the end of the buffer, or a stream with no end
/// marker) is rejected instead of being read out of bounds.
#[derive(Clone, Copy, PartialEq, Eq, Structural, Debug)]
pub enum DhcpError {
    MalformedOptions,
}

/// The window of `w` bytes of `s` starting at `at`.
pub open spec fn bytes_at(s: Seq<u8>, at: int, w: int) -> Seq<u8> {
    s.subrange(at, at + w)
}

/// `s` with the bytes starting at `at` replaced by `c`; everything outside
/// the window keeps its value.
pub open spec fn splice(s: Seq<u8>, at: int, c: Seq<u8>) -> Seq<u8> {
    s.subrange(0, at) + c + s.subrange(at + c.len(), s.len() as int)
}

/// Writing a window never changes the buffer's length.
pub proof fn lemma_splice_len(s: Seq<u8>, at: int, c: Seq<u8>)
    requires
        0 <= at,
        at + c.len() <= s.len(),
    ensures
        splice(s, at, c).len() == s.len(),
{
}

/// A field written with `splice` reads back unchanged with `bytes_at`: the
/// set-then-get round trip for every fixed-width field.
pub proof fn lemma_field_round_trip(s: Seq<u8>, at: int, c: Seq<u8>)
    requires
        0 <= at,
        at + c.len() <= s.len(),
    ensures
        bytes_at(splice(s, at, c), at, c.len() as int) == c,
{
    assert(bytes_at(splice(s, at, c), at, c.len() as int) =~= c);
}

/// Writing one window leaves any disjoint window unchanged.
pub proof fn lemma_field_write_disjoint(s: Seq<u8>, at: int, c: Seq<u8>, at2: int, w2: int)
    requires
        0 <= at,
        at + c.len() <= s.len(),
        0 <= at2,
        0 <= w2,
        at2 + w2 <= s.len(),
        at2 + w2 <= at || at + c.len() <= at2,
    ensures
        bytes_at(splice(s, at, c), at2, w2) == bytes_at(s, at2, w2),
{
    assert(bytes_at(splice(s, at, c), at2, w2) =~= bytes_at(s, at2, w2));
}

/// An IPv4 field round trip: writing an address's octets into a window
/// and reading the window back gives the same address.
pub proof fn lemma_ip_window_round_trip(s: Seq<u8>, at: int, ip: Ipv4)
    requires
        0 <= at,
        at + 4 <= s.len(),
    ensures
        ipv4_of_byte_seq(bytes_at(splice(s, at, ip.spec_octets()), at, 4)) == ip,
{
    lemma_field_round_trip(s, at, ip.spec_octets());
    crate::addr::lemma_ipv4_octets_round_trip(ip);
}

/// A hardware-address field round trip: writing a MAC's octets into a
/// window and reading the window back gives the same address.
pub proof fn lemma_mac_window_round_trip(s: Seq<u8>, at: int, m: Mac)
    requires
        0 <= at,
        at + 6 <= s.len(),
    ensures
        mac_of_byte_seq(bytes_at(splice(s, at, m.spec_octets()), at, 6)) == m,
{
    lemma_field_round_trip(s, at, m.spec_octets());
    crate::addr::lemma_mac_octets_round_trip(m);
}

/// The four magic-cookie bytes that precede the options.
pub open spec fn magic_cookie_bytes() -> Seq<u8> {
    seq![0x63u8, 0x82u8, 0x53u8, 0x63u8]
}

/// What scanning an option stream for `code` yields.
pub enum OptionLookup {
    Found(Seq<u8>),
    Absent,
    Malformed,
}

/// Scan of a TLV option stream for `code`, mirroring the reader: stop at the
/// end marker, step over a padding byte without a length, otherwise advance
/// by two plus the length byte. Running out of bytes before the end marker,
/// or a length that points past the end, is malformed.
pub open spec fn find_option(opts: Seq<u8>, code: u8) -> OptionLookup
    decreases opts.len(),
{
    if opts.len() == 0 {
        OptionLookup::Malformed
    } else if opts[0] == OPTION_END {
        OptionLookup::Absent
    } else if opts[0] == OPTION_PAD {
        find_option(opts.skip(1), code)
    } else if opts.len() < 2 || 2 + opts[1] as int > opts.len() {
        OptionLookup::Malformed
    } else if opts[0] == code {
        OptionLookup::Found(opts.subrange(2, 2 + opts[1] as int))
    } else {
        find_option(opts.skip(2 + opts[1] as int), code)
    }
}

/// The bytes the option scan walks: everything after the fixed fields and
/// the four-byte cookie. Empty (hence malformed) if the buffer ends before
/// that point.
pub open spec fn option_scan_region(s: Seq<u8>) -> Seq<u8> {
    if s.len() >= OPTIONS + 4 {
        s.skip(OPTIONS + 4)
    } else {
        Seq::empty()
    }
}

/// One item of an option list as a writer lays it down: a single padding
/// byte, or a code with its value bytes.
pub enum OptionItem {
    Pad,
    Entry { code: u8, value: Seq<u8> },
}

/// An entry's code is an ordinary one (not padding, not the end marker) and
/// its value fits the one-byte length field.
pub open spec fn option_item_wf(it: OptionItem) -> bool {
    match it {
        OptionItem::Pad => true,
        OptionItem::Entry { code, value } => code != OPTION_PAD && code != OPTION_END
            && value.len() <= 255,
    }
}

/// The bytes one option item occupies on the wire.
pub open spec fn encode_option_item(it: OptionItem) -> Seq<u8> {
    match it {
        OptionItem::Pad => seq![OPTION_PAD],
        OptionItem::Entry { code, value } => seq![code, value.len() as u8] + value,
    }
}

/// The bytes a whole option list occupies, in order.
pub open spec fn encode_option_items(items: Seq<OptionItem>) -> Seq<u8>
    decreases items.len(),
{
    if items.len() == 0 {
        Seq::empty()
    } else {
        encode_option_item(items[0]) + encode_option_items(items.drop_first())
    }
}

/// The value of the first entry carrying `code`, if the list has one.
pub open spec fn first_option_value(items: Seq<OptionItem>, code: u8) -> Option<Seq<u8>>
    decreases items.len(),
{
    if items.len() == 0 {
        None
    } else {
        match items[0] {
            OptionItem::Entry { code: c, value } => if c == code {
                Some(value)
            } else {
                first_option_value(items.drop_first(), code)
            },
            OptionItem::Pad => first_option_value(items.drop_first(), code),
        }
    }
}

/// Option round trip: scanning a stream that starts with the encoding of
/// `items` returns the first value written under `code` exactly as written,
/// stepping over padding bytes; when no item carries `code` the scan moves
/// on into whatever follows the encoding. An entry's encoding is byte for
/// byte what `set_option` writes for that code and value, so a packet
/// whose options were laid down by `set_option` and closed with the end
/// marker reads back exactly what was written.
pub proof fn lemma_options_round_trip(items: Seq<OptionItem>, rest: Seq<u8>, code: u8)
    requires
        forall|i: int| 0 <= i < items.len() ==> option_item_wf(#[trigger] items[i]),
        code != OPTION_PAD,
        code != OPTION_END,
    ensures
        find_option(encode_option_items(items) + rest, code) == (match first_option_value(
            items,
            code,
        ) {
            Some(v) => OptionLookup::Found(v),
            None => find_option(rest, code),
        }),
    decreases items.len(),
{
    if items.len() == 0 {
        assert(encode_option_items(items) + rest =~= rest);
    } else {
        let it = items[0];
        let tail = items.drop_first();
        let enc_tail = encode_option_items(tail);
        let opts = encode_option_items(items) + rest;
        assert(option_item_wf(it));
        assert forall|i: int| 0 <= i < tail.len() implies option_item_wf(#[trigger] tail[i]) by {
            assert(tail[i] == items[i + 1]);
        }
        match it {
            OptionItem::Pad => {
                assert(opts =~= seq![OPTION_PAD] + (enc_tail + rest));
                assert(opts.skip(1) =~= enc_tail + rest);
                lemma_options_round_trip(tail, rest, code);
            },
            OptionItem::Entry { code: c, value } => {
                let l: u8 = value.len() as u8;
                assert(opts =~= seq![c, l] + value + (enc_tail + rest));
                assert(opts[0] == c);
                assert(opts[1] == l);
                assert(opts.len() == 2 + value.len() + enc_tail.len() + rest.len());
                if c == code {
                    assert(opts.subrange(2, 2 + l as int) =~= value);
                } else {
                    assert(opts.skip(2 + l as int) =~= enc_tail + rest);
                    lemma_options_round_trip(tail, rest, code);
                }
            },
        }
    }
}

/// A stream that opens with the end marker reports every code absent,
/// whatever bytes trail behind the marker.
pub proof fn lemma_end_marker_absent(rest: Seq<u8>, code: u8)
    ensures
        find_option(seq![OPTION_END] + rest, code) == OptionLookup::Absent,
{
    assert((seq![OPTION_END] + rest)[0] == OPTION_END);
}

/// A DHCP packet: a byte buffer of at least the fixed-field size, read and
/// written through byte-offset windows.
pub struct DhcpPacket {
    buf: Vec<u8>,
}

impl View for DhcpPacket {
    type V = Seq<u8>;

    closed spec fn view(&self) -> Seq<u8> {
        self.buf@
    }
}

/// Copies `src` over `dst` starting at `at`.
fn store_bytes(dst: &mut Vec<u8>, at: usize, src: &[u8])
    requires
        at + src@.len() <= old(dst)@.len(),
    ensures
        final(dst)@ == splice(old(dst)@, at as int, src@),
{
    let ghost orig: Seq<u8> = dst@;
    let dlen = dst.len();
    let n = src.len();
    let mut k: usize = 0;
    while k < n
        invariant
            n == src@.len(),
            orig.len() == dlen,
            at + n <= orig.len(),
            k <= n,
            dst@ == splice(orig, at as int, src@.take(k as int)),
        decreases n - k,
    {
        dst[at + k] = src[k];
        k = k + 1;
        proof {
            assert(dst@ =~= splice(orig, at as int, src@.take(k as int)));
        }
    }
    proof {
        assert(src@.take(n as int) =~= src@);
    }
}

impl DhcpPacket {
    /// The buffer holds at least the fixed fields.
    pub open spec fn wf(self) -> bool {
        self@.len() >= DHCP_MINIMUM_SIZE
    }

    /// Takes ownership of a raw buffer; rejects one shorter than the fixed
    /// fields.
    pub fn new(buf: Vec<u8>) -> (r: Option<Self>)
        ensures
            match r {
                Some(p) => buf@.len() >= DHCP_MINIMUM_SIZE && p@ == buf@ && p.wf(),
                None => buf@.len() < DHCP_MINIMUM_SIZE,
            },
    {
        if buf.len() >= DHCP_MINIMUM_SIZE {
            Some(Self { buf })
        } else {
            None
        }
    }

    pub fn get_buffer(&self) -> (r: &[u8])
        ensures
            r@ == self@,
    {
        self.buf.as_slice()
    }

    pub fn get_op(&self) -> (r: u8)
        requires
            self.wf(),
        ensures
            r == self@[OP as int],
    {
        self.buf[OP]
    }

    /// The option bytes: everything from the magic cookie on.
    pub fn get_options(&self) -> (r: &[u8])
        requires
            self.wf(),
        ensures
            r@ == self@.skip(OPTIONS as int),
    {
        let n = self.buf.len();
        &self.buf[OPTIONS..n]
    }

    pub fn get_xid(&self) -> (r: &[u8])
        requires
            self.wf(),
        ensures
            r@ == bytes_at(self@, XID as int, 4),
    {
        &self.buf[XID..SECS]
    }

    pub fn get_flags(&self) -> (r: &[u8])
        requires
            self.wf(),
        ensures
            r@ == bytes_at(self@, FLAGS as int, 2),
    {
        &self.buf[FLAGS..CIADDR]
    }

    /// The IPv4 address stored in the four-byte window at `at`.
    fn ip4_at(&self, at: usize) -> (r: Ipv4)
        requires
            at + 4 <= self@.len(),
        ensures
            r == ipv4_of_byte_seq(bytes_at(self@, at as int, 4)),
    {
        let n = self.buf.len();
        let r = Ipv4::from_octets(
            self.buf[at],
            self.buf[at + 1],
            self.buf[at + 2],
            self.buf[at + 3],
        );
        proof {
            let w = bytes_at(self@, at as int, 4);
            assert(w[0] == self@[at as int]);
            assert(w[1] == self@[at as int + 1]);
            assert(w[2] == self@[at as int + 2]);
            assert(w[3] == self@[at as int + 3]);
        }
        r
    }

    pub fn get_giaddr(&self) -> (r: Ipv4)
        requires
            self.wf(),
        ensures
            r == ipv4_of_byte_seq(bytes_at(self@, GIADDR as int, 4)),
    {
        self.ip4_at(GIADDR)
    }

    pub fn get_ciaddr(&self) -> (r: Ipv4)
        requires
            self.wf(),
        ensures
            r == ipv4_of_byte_seq(bytes_at(self@, CIADDR as int, 4)),
    {
        self.ip4_at(CIADDR)
    }

    /// The client hardware address: the first six bytes of the sixteen-byte
    /// hardware field, as an Ethernet MAC.
    pub fn get_chaddr(&self) -> (r: Mac)
        requires
            self.wf(),
        ensures
            r == mac_of_byte_seq(bytes_at(self@, CHADDR as int, 6)),
    {
        let r = Mac::new(
            self.buf[CHADDR],
            self.buf[CHADDR + 1],
            self.buf[CHADDR + 2],
            self.buf[CHADDR + 3],
            self.buf[CHADDR + 4],
            self.buf[CHADDR + 5],
        );
        proof {
            let w = bytes_at(self@, CHADDR as int, 6);
            assert(w[0] == self@[CHADDR as int]);
            assert(w[1] == self@[CHADDR as int + 1]);
            assert(w[2] == self@[CHADDR as int + 2]);
            assert(w[3] == self@[CHADDR as int + 3]);
            assert(w[4] == self@[CHADDR as int + 4]);
            assert(w[5] == self@[CHADDR as int + 5]);
        }
        r
    }

    pub fn set_op(&mut self, op: u8)
        requires
            old(self).wf(),
        ensures
            final(self)@ == old(self)@.update(OP as int, op),
            final(self).wf(),
    {
        self.buf[OP] = op;
    }

    pub fn set_htype(&mut self, htype: u8)
        requires
            old(self).wf(),
        ensures
            final(self)@ == old(self)@.update(HTYPE as int, htype),
            final(self).wf(),
    {
        self.buf[HTYPE] = htype;
    }

    pub fn set_hlen(&mut self, hlen: u8)
        requires
            old(self).wf(),
        ensures
            final(self)@ == old(self)@.update(HLEN as int, hlen),
            final(self).wf(),
    {
        self.buf[HLEN] = hlen;
    }

    pub fn set_xid(&mut self, xid: &[u8])
        requires
            old(self).wf(),
            xid@.len() == 4,
        ensures
            final(self)@ == splice(old(self)@, XID as int, xid@),
            final(self).wf(),
    {
        store_bytes(&mut self.buf, XID, xid);
    }

    pub fn set_flags(&mut self, flags: &[u8])
        requires
            old(self).wf(),
            flags@.len() == 2,
        ensures
            final(self)@ == splice(old(self)@, FLAGS as int, flags@),
            final(self).wf(),
    {
        store_bytes(&mut self.buf, FLAGS, flags);
    }

    /// Writes the four octets of `ip` into the window at `at`.
    fn put_ip4(&mut self, at: usize, ip: Ipv4)
        requires
            at + 4 <= old(self)@.len(),
        ensures
            final(self)@ == splice(old(self)@, at as int, ip.spec_octets()),
            final(self)@.len() == old(self)@.len(),
    {
        let n = self.buf.len();
        let o = ip.octets();
        self.buf[at] = o[0];
        self.buf[at + 1] = o[1];
        self.buf[at + 2] = o[2];
        self.buf[at + 3] = o[3];
        proof {
            assert(self.buf@ =~= splice(old(self)@, at as int, ip.spec_octets()));
        }
    }

    pub fn set_ciaddr(&mut self, ciaddr: Ipv4)
        requires
            old(self).wf(),
        ensures
            final(self)@ == splice(old(self)@, CIADDR as int, ciaddr.spec_octets()),
            final(self).wf(),
    {
        self.put_ip4(CIADDR, ciaddr);
    }

    pub fn set_yiaddr(&mut self, yiaddr: Ipv4)
        requires
            old(self).wf(),
        ensures
            final(self)@ == splice(old(self)@, YIADDR as int, yiaddr.spec_octets()),
            final(self).wf(),
    {
        self.put_ip4(YIADDR, yiaddr);
    }

    pub fn set_giaddr(&mut self, giaddr: Ipv4)
        requires
            old(self).wf(),
        ensures
            final(self)@ == splice(old(self)@, GIADDR as int, giaddr.spec_octets()),
            final(self).wf(),
    {
        self.put_ip4(GIADDR, giaddr);
    }

    /// Writes the six MAC octets; the rest of the sixteen-byte hardware
    /// field is left as it is.
    pub fn set_chaddr(&mut self, chaddr: Mac)
        requires
            old(self).wf(),
        ensures
            final(self)@ == splice(old(self)@, CHADDR as int, chaddr.spec_octets()),
            final(self).wf(),
    {
        self.buf[CHADDR] = chaddr.b0;
        self.buf[CHADDR + 1] = chaddr.b1;
        self.buf[CHADDR + 2] = chaddr.b2;
        self.buf[CHADDR + 3] = chaddr.b3;
        self.buf[CHADDR + 4] = chaddr.b4;
        self.buf[CHADDR + 5] = chaddr.b5;
        proof {
            assert(self.buf@ =~= splice(old(self)@, CHADDR as int, chaddr.spec_octets()));
        }
    }

    /// Writes one option at `cursor`: code, then (unless the code is the end
    /// marker) the length byte and, when given, the contents. For an
    /// ordinary option the cursor advances by two plus the length; for the
    /// end marker only the single code byte is written and the cursor does
    /// not move.
    pub fn set_option(&mut self, cursor: &mut usize, code: u8, len: usize, contents: Option<&[u8]>)
        requires
            old(self).wf(),
            code == OPTION_END ==> *old(cursor) < old(self)@.len(),
            code != OPTION_END ==> len <= 255 && *old(cursor) + 2 + len <= old(self)@.len(),
            code != OPTION_END ==> (contents matches Some(c) ==> c@.len() == len),
        ensures
            code == OPTION_END ==> final(self)@ == old(self)@.update(
                *old(cursor) as int,
                OPTION_END,
            ) && *final(cursor) == *old(cursor),
            code != OPTION_END ==> *final(cursor) == *old(cursor) + 2 + len && final(self)@
                == splice(
                old(self)@,
                *old(cursor) as int,
                seq![code, len as u8] + (match contents {
                    Some(c) => c@,
                    None => Seq::<u8>::empty(),
                }),
            ),
            final(self).wf(),
    {
        let ghost orig: Seq<u8> = self@;
        let ghost start: int = *cursor as int;
        let n = self.buf.len();
        self.buf[*cursor] = code;
        if code == OPTION_END {
            return ;
        }
        *cursor = *cursor + 1;
        self.buf[*cursor] = len as u8;
        *cursor = *cursor + 1;
        if let Some(contents) = contents {
            store_bytes(&mut self.buf, *cursor, contents);
            proof {
                assert(self.buf@ =~= splice(orig, start, seq![code, len as u8] + contents@));
            }
        } else {
            proof {
                assert(self.buf@ =~= splice(orig, start, seq![code, len as u8] + Seq::<
                    u8,
                >::empty()));
            }
        }
        *cursor = *cursor + len;
    }

    /// Writes the four cookie bytes at `cursor` and advances it past them.
    pub fn set_magic_cookie(&mut self, cursor: &mut usize)
        requires
            old(self).wf(),
            *old(cursor) + 4 <= old(self)@.len(),
        ensures
            final(self)@ == splice(old(self)@, *old(cursor) as int, magic_cookie_bytes()),
            *final(cursor) == *old(cursor) + 4,
            final(self).wf(),
    {
        let ghost orig: Seq<u8> = self@;
        let ghost start: int = *cursor as int;
        let n = self.buf.len();
        self.buf[*cursor] = 0x63;
        self.buf[*cursor + 1] = 0x82;
        self.buf[*cursor + 2] = 0x53;
        self.buf[*cursor + 3] = 0x63;
        *cursor = *cursor + 4;
        proof {
            assert(self.buf@ =~= splice(orig, start, magic_cookie_bytes()));
        }
    }

    /// Scans the options after the magic cookie for `code` and returns a
    /// copy of its value, `None` when the end marker comes first, or an
    /// error when the stream runs past the end of the buffer.
    pub fn get_option(&self, option_code: u8) -> (r: Result<Option<Vec<u8>>, DhcpError>)
        requires
            self.wf(),
        ensures
            match r {
                Ok(Some(v)) => find_option(option_scan_region(self@), option_code)
                    == OptionLookup::Found(v@),
                Ok(None) => find_option(option_scan_region(self@), option_code)
                    == OptionLookup::Absent,
                Err(e) => e == DhcpError::MalformedOptions && find_option(
                    option_scan_region(self@),
                    option_code,
                ) == OptionLookup::Malformed,
            },
    {
        let n = self.buf.len();
        let mut idx: usize = OPTIONS + 4;
        if n < idx {
            return Err(DhcpError::MalformedOptions);
        }
        loop
            invariant
                self.wf(),
                n == self@.len(),
                OPTIONS + 4 <= idx <= n,
                find_option(option_scan_region(self@), option_code) == find_option(
                    self@.skip(idx as int),
                    option_code,
                ),
            decreases n - idx,
        {
            let ghost opts: Seq<u8> = self@.skip(idx as int);
            if idx == n {
                return Err(DhcpError::MalformedOptions);
            }
            let b = self.buf[idx];
            assert(b == opts[0]);
            if b == OPTION_END {
                return Ok(None);
            }
            if b == OPTION_PAD {
                idx = idx + 1;
                proof {
                    assert(self@.skip(idx as int) =~= opts.skip(1));
                }
                continue ;
            }
            let remaining = n - idx;
            if remaining < 2 {
                return Err(DhcpError::MalformedOptions);
            }
            let l = self.buf[idx + 1] as usize;
            assert(l == opts[1] as int);
            if l > remaining - 2 {
                return Err(DhcpError::MalformedOptions);
            }
            if b == option_code {
                let start = idx + 2;
                let mut v: Vec<u8> = Vec::new();
                let mut j: usize = 0;
                while j < l
                    invariant
                        start + l <= n,
                        n == self@.len(),
                        j <= l,
                        v@ == self@.subrange(start as int, start as int + j as int),
                    decreases l - j,
                {
                    v.push(self.buf[start + j]);
                    j = j + 1;
                    proof {
                        assert(v@ =~= self@.subrange(start as int, start as int + j as int));
                    }
                }
                proof {
                    assert(v@ =~= opts.subrange(2, 2 + opts[1] as int));
                }
                return Ok(Some(v));
            }
            idx = idx + 2 + l;
            proof {
                assert(self@.skip(idx as int) =~= opts.skip(2 + opts[1] as int));
            }
        }
    }
}

} // verus!
