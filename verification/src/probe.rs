//! The conflict probe's computational parts: the ICMP echo-request buffer
//! (with its internet checksum computed and proved against a one's-
//! complement specification) and the decision rule that turns what came
//! back — or did not come back — into a verdict on the candidate address.
//!
//! Sending the echo request and racing the reply against the deadline is
//! I/O and lives outside this crate; it hands this module the ICMP type of
//! the first reply that arrived in time, or nothing on timeout. A reply
//! that arrives after the deadline is discarded by the racing code and
//! never reaches the decision rule.

use vstd::prelude::*;

verus! {

pub const ICMP_ECHO_REQUEST: u8 = 8;

pub const ICMP_ECHO_REPLY: u8 = 0;

/// One's-complement addition of two 16-bit words: the carry out of the top
/// bit is added back at the bottom.
pub open spec fn oc_add(a: u16, b: u16) -> u16 {
    if a + b > 0xffff {
        (a + b - 0xffff) as u16
    } else {
        (a + b) as u16
    }
}

/// The big-endian 16-bit word at word index `i`.
pub open spec fn word_at(s: Seq<u8>, i: int) -> u16
    recommends
        0 <= i,
        2 * i + 1 < s.len(),
{
    ((s[2 * i] as u16) * 256 + s[2 * i + 1] as u16) as u16
}

/// One's-complement sum of the first `n` words.
pub open spec fn oc_sum(s: Seq<u8>, n: int) -> u16
    decreases n,
{
    if n <= 0 {
        0
    } else {
        oc_add(oc_sum(s, n - 1), word_at(s, n - 1))
    }
}

/// The internet checksum of an even-length byte string: the complement of
/// the one's-complement sum of its big-endian words.
pub open spec fn checksum_of(s: Seq<u8>) -> u16
    recommends
        s.len() % 2 == 0,
{
    !oc_sum(s, s.len() as int / 2)
}

/// Computes the internet checksum of an even-length buffer.
pub fn internet_checksum(data: &Vec<u8>) -> (r: u16)
    requires
        data@.len() % 2 == 0,
    ensures
        r == checksum_of(data@),
{
    let n = data.len();
    let mut sum: u16 = 0;
    let mut i: usize = 0;
    while i < n
        invariant
            n == data@.len(),
            n % 2 == 0,
            i % 2 == 0,
            i <= n,
            sum == oc_sum(data@, i as int / 2),
        decreases n - i,
    {
        assert(i + 1 < n);
        let word: u16 = (data[i] as u16) * 256 + (data[i + 1] as u16);
        let wide: u32 = (sum as u32) + (word as u32);
        sum = if wide > 0xffff {
            (wide - 0xffff) as u16
        } else {
            wide as u16
        };
        i = i + 2;
        proof {
            assert(word == word_at(data@, i as int / 2 - 1));
        }
    }
    !sum
}

/// The eight bytes of the default ICMP echo request: type, code, the
/// checksum over the message with a zeroed checksum field, and a zero
/// rest-of-header.
pub open spec fn default_icmp_request() -> Seq<u8> {
    let zeroed = seq![ICMP_ECHO_REQUEST, 0u8, 0u8, 0u8, 0u8, 0u8, 0u8, 0u8];
    let c = checksum_of(zeroed);
    seq![ICMP_ECHO_REQUEST, 0u8, (c >> 8) as u8, (c & 0xff) as u8, 0u8, 0u8, 0u8, 0u8]
}

/// Builds the echo-request buffer the probe sends.
pub fn create_default_icmp_buffer() -> (r: Vec<u8>)
    ensures
        r@ == default_icmp_request(),
{
    let mut buf: Vec<u8> = Vec::new();
    buf.push(ICMP_ECHO_REQUEST);
    let mut k: usize = 1;
    while k < 8
        invariant
            1 <= k <= 8,
            buf@.len() == k,
            buf@[0] == ICMP_ECHO_REQUEST,
            forall|j: int| 1 <= j < k ==> buf@[j] == 0u8,
        decreases 8 - k,
    {
        buf.push(0);
        k = k + 1;
    }
    proof {
        assert(buf@ =~= seq![ICMP_ECHO_REQUEST, 0u8, 0u8, 0u8, 0u8, 0u8, 0u8, 0u8]);
    }
    let c = internet_checksum(&buf);
    buf[2] = (c >> 8) as u8;
    buf[3] = (c & 0xff) as u8;
    proof {
        assert(buf@ =~= default_icmp_request());
    }
    buf
}

/// What the probe concludes about a candidate address.
#[derive(Clone, Copy, PartialEq, Eq, Structural, Debug)]
pub enum ProbeOutcome {
    InUse,
    Available,
}

/// The probe's decision rule: the candidate is reported in use exactly
/// when the reply that arrived before the deadline carries the echo-reply
/// type. No reply in time, or a reply of any other type, means no
/// counter-evidence was found — the address is reported available, a
/// best-effort answer by design.
pub fn probe_verdict(reply_type: Option<u8>) -> (r: ProbeOutcome)
    ensures
        r == ProbeOutcome::InUse <==> reply_type == Some(ICMP_ECHO_REPLY),
{
    match reply_type {
        Some(t) => if t == ICMP_ECHO_REPLY {
            ProbeOutcome::InUse
        } else {
            ProbeOutcome::Available
        },
        None => ProbeOutcome::Available,
    }
}

} // verus!
