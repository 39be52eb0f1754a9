//! The dotted-quad text form of IPv4 addresses, as the lease store writes
//! them: four decimal components of at most three digits, no leading
//! zeros, joined by dots. The grammar is the specification; the parser is
//! proved complete against it, so `None` really means the text has no
//! valid reading. Rows whose stored text does not parse are skipped when a
//! stored ledger is read back.

use vstd::prelude::*;

use crate::addr::Ipv4;

verus! {

/// The ASCII dot that separates components.
pub const ASCII_DOT: u8 = 46;

/// The ASCII zero digit.
pub const ASCII_ZERO: u8 = 48;

pub open spec fn is_ascii_digit(c: u8) -> bool {
    48 <= c <= 57
}

/// The number a digit string denotes, most significant digit first.
pub open spec fn dec_value(s: Seq<u8>) -> int
    decreases s.len(),
{
    if s.len() == 0 {
        0
    } else {
        dec_value(s.drop_last()) * 10 + (s.last() as int - 48)
    }
}

/// One component of a dotted quad: one to three digits, no leading zero
/// (except the single digit zero itself), value at most 255.
pub open spec fn is_component(s: Seq<u8>) -> bool {
    &&& 1 <= s.len() <= 3
    &&& forall|i: int| 0 <= i < s.len() ==> is_ascii_digit(#[trigger] s[i])
    &&& (s.len() > 1 ==> s[0] != ASCII_ZERO)
    &&& dec_value(s) <= 255
}

/// `s` splits at dots `p1 < p2 < p3` into the four components of `ip`.
pub open spec fn quad_at(s: Seq<u8>, ip: Ipv4, p1: int, p2: int, p3: int) -> bool {
    &&& 0 <= p1 < p2 < p3 < s.len()
    &&& s[p1] == ASCII_DOT
    &&& s[p2] == ASCII_DOT
    &&& s[p3] == ASCII_DOT
    &&& is_component(s.subrange(0, p1))
    &&& is_component(s.subrange(p1 + 1, p2))
    &&& is_component(s.subrange(p2 + 1, p3))
    &&& is_component(s.subrange(p3 + 1, s.len() as int))
    &&& ip == Ipv4::spec_from_octets(
        dec_value(s.subrange(0, p1)) as u8,
        dec_value(s.subrange(p1 + 1, p2)) as u8,
        dec_value(s.subrange(p2 + 1, p3)) as u8,
        dec_value(s.subrange(p3 + 1, s.len() as int)) as u8,
    )
}

/// `s` is a dotted-quad spelling of `ip`.
pub open spec fn is_dotted_quad(s: Seq<u8>, ip: Ipv4) -> bool {
    exists|p1: int, p2: int, p3: int| #[trigger] quad_at(s, ip, p1, p2, p3)
}

/// The address `s` spells, if it spells one.
pub open spec fn quad_value(s: Seq<u8>) -> Option<Ipv4> {
    if exists|ip: Ipv4| is_dotted_quad(s, ip) {
        Some(choose|ip: Ipv4| is_dotted_quad(s, ip))
    } else {
        None
    }
}

/// Inside a valid quad, a dot can only stand at one of the three split
/// points: the components themselves are all digits.
proof fn lemma_dot_at_split(s: Seq<u8>, ip: Ipv4, p1: int, p2: int, p3: int, j: int)
    requires
        quad_at(s, ip, p1, p2, p3),
        0 <= j < s.len(),
        s[j] == ASCII_DOT,
    ensures
        j == p1 || j == p2 || j == p3,
{
    if j < p1 {
        assert(s.subrange(0, p1)[j] == s[j]);
    } else if p1 < j < p2 {
        assert(s.subrange(p1 + 1, p2)[j - p1 - 1] == s[j]);
    } else if p2 < j < p3 {
        assert(s.subrange(p2 + 1, p3)[j - p2 - 1] == s[j]);
    } else if p3 < j {
        assert(s.subrange(p3 + 1, s.len() as int)[j - p3 - 1] == s[j]);
    }
}

/// A valid quad's split is determined: any increasing list of exactly the
/// dot positions of `s` has three members, and they are the split points —
/// so the components, and with them the address, are unique.
proof fn lemma_dots_determine_quad(s: Seq<u8>, ip: Ipv4, ds: Seq<usize>)
    requires
        s.len() <= usize::MAX,
        is_dotted_quad(s, ip),
        forall|k: int| 0 <= k < ds.len() ==> ds[k] < s.len() && s[#[trigger] ds[k] as int]
            == ASCII_DOT,
        forall|k1: int, k2: int| 0 <= k1 < k2 < ds.len() ==> ds[k1] < ds[k2],
        forall|j: int| 0 <= j < s.len() && s[j] == ASCII_DOT ==> ds.contains(j as usize),
    ensures
        ds.len() == 3,
        quad_at(s, ip, ds[0] as int, ds[1] as int, ds[2] as int),
{
    let (p1, p2, p3): (int, int, int) = choose|p1: int, p2: int, p3: int|
        quad_at(s, ip, p1, p2, p3);
    assert(quad_at(s, ip, p1, p2, p3));
    assert(ds.contains(p1 as usize));
    assert(ds.contains(p2 as usize));
    assert(ds.contains(p3 as usize));
    let k1 = choose|k: int| 0 <= k < ds.len() && ds[k] == p1 as usize;
    let k2 = choose|k: int| 0 <= k < ds.len() && ds[k] == p2 as usize;
    let k3 = choose|k: int| 0 <= k < ds.len() && ds[k] == p3 as usize;
    assert forall|k: int| 0 <= k < ds.len() implies (ds[k] as int == p1 || ds[k] as int == p2
        || ds[k] as int == p3) by {
        lemma_dot_at_split(s, ip, p1, p2, p3, ds[k] as int);
    }
    assert(k1 < k2) by {
        if k2 < k1 {
            assert(ds[k2] < ds[k1]);
        }
    }
    assert(k2 < k3) by {
        if k3 < k2 {
            assert(ds[k3] < ds[k2]);
        }
    }
    assert(ds.len() >= 3);
    if ds.len() > 3 {
        assert(ds[0] < ds[1] < ds[2] < ds[3]);
        assert(false);
    }
    assert(k1 == 0 && k2 == 1 && k3 == 2);
}

/// Two spellings of the same string are spellings of the same address:
/// the dots of a valid quad are its split points, so the split — and with
/// it the address — is unique.
proof fn lemma_quad_unique(s: Seq<u8>, ip1: Ipv4, ip2: Ipv4)
    requires
        is_dotted_quad(s, ip1),
        is_dotted_quad(s, ip2),
    ensures
        ip1 == ip2,
{
    let (p1, p2, p3): (int, int, int) = choose|p1: int, p2: int, p3: int|
        quad_at(s, ip1, p1, p2, p3);
    let (q1, q2, q3): (int, int, int) = choose|q1: int, q2: int, q3: int|
        quad_at(s, ip2, q1, q2, q3);
    assert(quad_at(s, ip1, p1, p2, p3));
    assert(quad_at(s, ip2, q1, q2, q3));
    lemma_dot_at_split(s, ip1, p1, p2, p3, q1);
    lemma_dot_at_split(s, ip1, p1, p2, p3, q2);
    lemma_dot_at_split(s, ip1, p1, p2, p3, q3);
    assert(q1 == p1 && q2 == p2 && q3 == p3);
}

/// The canonical decimal spelling of one octet: no leading zeros.
pub open spec fn dec_text(n: int) -> Seq<u8>
    recommends
        0 <= n <= 255,
{
    if n < 10 {
        seq![(48 + n) as u8]
    } else if n < 100 {
        seq![(48 + n / 10) as u8, (48 + n % 10) as u8]
    } else {
        seq![(48 + n / 100) as u8, (48 + (n / 10) % 10) as u8, (48 + n % 10) as u8]
    }
}

/// The canonical spelling of an octet is a valid component and reads back
/// as the same number.
proof fn lemma_dec_text_component(n: int)
    requires
        0 <= n <= 255,
    ensures
        is_component(dec_text(n)),
        dec_value(dec_text(n)) == n,
{
    reveal_with_fuel(dec_value, 4);
    let s = dec_text(n);
    if n < 10 {
        assert(s.drop_last() =~= Seq::<u8>::empty());
    } else if n < 100 {
        assert(s.drop_last().drop_last() =~= Seq::<u8>::empty());
        assert(s.drop_last() =~= seq![(48 + n / 10) as u8]);
        assert(dec_value(s) == (n / 10) * 10 + n % 10);
    } else {
        assert(s.drop_last().drop_last().drop_last() =~= Seq::<u8>::empty());
        assert(s.drop_last().drop_last() =~= seq![(48 + n / 100) as u8]);
        assert(s.drop_last() =~= seq![(48 + n / 100) as u8, (48 + (n / 10) % 10) as u8]);
        assert(dec_value(s) == ((n / 100) * 10 + (n / 10) % 10) * 10 + n % 10);
        assert(n / 100 == (n / 10) / 10);
        assert((n / 10) == ((n / 10) / 10) * 10 + (n / 10) % 10);
        assert(n == (n / 10) * 10 + n % 10);
    }
}

/// The canonical dotted-quad spelling of an address.
pub open spec fn spec_ipv4_text(ip: Ipv4) -> Seq<u8> {
    dec_text(ip.spec_octets()[0] as int) + seq![ASCII_DOT] + dec_text(ip.spec_octets()[1] as int)
        + seq![ASCII_DOT] + dec_text(ip.spec_octets()[2] as int) + seq![ASCII_DOT] + dec_text(
        ip.spec_octets()[3] as int,
    )
}

/// Text round trip: the canonical spelling of an address spells exactly
/// that address, so writing an address out and parsing it back loses
/// nothing.
pub proof fn lemma_text_round_trip(ip: Ipv4)
    ensures
        quad_value(spec_ipv4_text(ip)) == Some(ip),
{
    let o0 = ip.spec_octets()[0] as int;
    let o1 = ip.spec_octets()[1] as int;
    let o2 = ip.spec_octets()[2] as int;
    let o3 = ip.spec_octets()[3] as int;
    let d0 = dec_text(o0);
    let d1 = dec_text(o1);
    let d2 = dec_text(o2);
    let d3 = dec_text(o3);
    lemma_dec_text_component(o0);
    lemma_dec_text_component(o1);
    lemma_dec_text_component(o2);
    lemma_dec_text_component(o3);
    let s = spec_ipv4_text(ip);
    let p1 = d0.len() as int;
    let p2 = p1 + 1 + d1.len();
    let p3 = p2 + 1 + d2.len();
    assert(s.subrange(0, p1) =~= d0);
    assert(s.subrange(p1 + 1, p2) =~= d1);
    assert(s.subrange(p2 + 1, p3) =~= d2);
    assert(s.subrange(p3 + 1, s.len() as int) =~= d3);
    assert(s[p1] == ASCII_DOT && s[p2] == ASCII_DOT && s[p3] == ASCII_DOT);
    crate::addr::lemma_ipv4_octets_round_trip(ip);
    assert(quad_at(s, ip, p1, p2, p3));
    assert(is_dotted_quad(s, ip));
    let picked = choose|x: Ipv4| is_dotted_quad(s, x);
    lemma_quad_unique(s, ip, picked);
}

/// Appends the decimal spelling of one octet.
fn push_dec_text(out: &mut Vec<u8>, n: u8)
    ensures
        final(out)@ == old(out)@ + dec_text(n as int),
{
    if n < 10 {
        out.push(48 + n);
    } else if n < 100 {
        out.push(48 + n / 10);
        out.push(48 + n % 10);
    } else {
        out.push(48 + n / 100);
        out.push(48 + (n / 10) % 10);
        out.push(48 + n % 10);
    }
    proof {
        assert(out@ =~= old(out)@ + dec_text(n as int));
    }
}

/// Writes the canonical dotted-quad text of an address — what the lease
/// store persists.
pub fn ipv4_text(ip: Ipv4) -> (r: Vec<u8>)
    ensures
        r@ == spec_ipv4_text(ip),
        quad_value(r@) == Some(ip),
{
    let o = ip.octets();
    let mut out: Vec<u8> = Vec::new();
    push_dec_text(&mut out, o[0]);
    out.push(ASCII_DOT);
    push_dec_text(&mut out, o[1]);
    out.push(ASCII_DOT);
    push_dec_text(&mut out, o[2]);
    out.push(ASCII_DOT);
    push_dec_text(&mut out, o[3]);
    proof {
        assert(out@ =~= spec_ipv4_text(ip));
        lemma_text_round_trip(ip);
    }
    out
}

/// Parses the digits of `s` between `from` and `to` as one component.
fn parse_component(s: &[u8], from: usize, to: usize) -> (r: Option<u8>)
    requires
        from <= to <= s@.len(),
    ensures
        match r {
            Some(v) => is_component(s@.subrange(from as int, to as int)) && v as int == dec_value(
                s@.subrange(from as int, to as int),
            ),
            None => !is_component(s@.subrange(from as int, to as int)),
        },
{
    let ghost comp: Seq<u8> = s@.subrange(from as int, to as int);
    let slen = s.len();
    let len = to - from;
    if len < 1 || len > 3 {
        return None;
    }
    if len > 1 && s[from] == ASCII_ZERO {
        proof {
            assert(comp[0] == s@[from as int]);
        }
        return None;
    }
    let mut val: u32 = 0;
    let mut k: usize = 0;
    while k < len
        invariant
            from + len <= slen,
            slen == s@.len(),
            to == from + len,
            k <= len,
            len <= 3,
            comp == s@.subrange(from as int, to as int),
            k == 0 ==> val == 0,
            k == 1 ==> val <= 9,
            k == 2 ==> val <= 99,
            k == 3 ==> val <= 999,
            forall|t: int| 0 <= t < k ==> is_ascii_digit(#[trigger] comp[t]),
            val == dec_value(comp.subrange(0, k as int)),
        decreases len - k,
    {
        let c = s[from + k];
        proof {
            assert(comp[k as int] == s@[from as int + k as int]);
        }
        if c < 48 || c > 57 {
            proof {
                assert(!is_ascii_digit(comp[k as int]));
            }
            return None;
        }
        val = val * 10 + ((c - 48) as u32);
        k = k + 1;
        proof {
            assert(comp.subrange(0, k as int).drop_last() =~= comp.subrange(0, k as int - 1));
            assert(comp.subrange(0, k as int).last() == comp[k as int - 1]);
        }
    }
    proof {
        assert(comp.subrange(0, len as int) =~= comp);
    }
    if val > 255 {
        return None;
    }
    Some(val as u8)
}

/// Parses a dotted quad. The grammar above is the whole contract: the
/// parser returns the address `s` spells, and `None` exactly when `s`
/// spells none.
pub fn parse_ipv4_bytes(s: &[u8]) -> (r: Option<Ipv4>)
    ensures
        r == quad_value(s@),
{
    let n = s.len();
    let mut dots: Vec<usize> = Vec::new();
    let mut i: usize = 0;
    while i < n
        invariant
            n == s@.len(),
            i <= n,
            forall|k: int| 0 <= k < dots@.len() ==> dots@[k] < i && s@[#[trigger] dots@[k] as int]
                == ASCII_DOT,
            forall|k1: int, k2: int| 0 <= k1 < k2 < dots@.len() ==> dots@[k1] < dots@[k2],
            forall|j: int| 0 <= j < i && s@[j] == ASCII_DOT ==> dots@.contains(j as usize),
        decreases n - i,
    {
        if s[i] == ASCII_DOT {
            let ghost before: Seq<usize> = dots@;
            dots.push(i);
            proof {
                assert forall|j: int|
                    0 <= j < i + 1 && s@[j] == ASCII_DOT implies dots@.contains(j as usize) by {
                    if j < i {
                        let k = choose|k: int| 0 <= k < before.len() && before[k] == j as usize;
                        assert(dots@[k] == j as usize);
                    } else {
                        assert(dots@[dots@.len() - 1] == i);
                    }
                }
            }
        }
        i = i + 1;
    }
    if dots.len() != 3 {
        proof {
            if exists|ip: Ipv4| is_dotted_quad(s@, ip) {
                let ip = choose|ip: Ipv4| is_dotted_quad(s@, ip);
                lemma_dots_determine_quad(s@, ip, dots@);
            }
        }
        return None;
    }
    let p1 = dots[0];
    let p2 = dots[1];
    let p3 = dots[2];
    proof {
        assert(p1 < p2 < p3 < n);
    }
    let a = match parse_component(s, 0, p1) {
        Some(v) => v,
        None => {
            proof {
                if exists|ip: Ipv4| is_dotted_quad(s@, ip) {
                    let ip = choose|ip: Ipv4| is_dotted_quad(s@, ip);
                    lemma_dots_determine_quad(s@, ip, dots@);
                }
            }
            return None;
        },
    };
    let b = match parse_component(s, p1 + 1, p2) {
        Some(v) => v,
        None => {
            proof {
                if exists|ip: Ipv4| is_dotted_quad(s@, ip) {
                    let ip = choose|ip: Ipv4| is_dotted_quad(s@, ip);
                    lemma_dots_determine_quad(s@, ip, dots@);
                }
            }
            return None;
        },
    };
    let c = match parse_component(s, p2 + 1, p3) {
        Some(v) => v,
        None => {
            proof {
                if exists|ip: Ipv4| is_dotted_quad(s@, ip) {
                    let ip = choose|ip: Ipv4| is_dotted_quad(s@, ip);
                    lemma_dots_determine_quad(s@, ip, dots@);
                }
            }
            return None;
        },
    };
    let d = match parse_component(s, p3 + 1, n) {
        Some(v) => v,
        None => {
            proof {
                if exists|ip: Ipv4| is_dotted_quad(s@, ip) {
                    let ip = choose|ip: Ipv4| is_dotted_quad(s@, ip);
                    lemma_dots_determine_quad(s@, ip, dots@);
                }
            }
            return None;
        },
    };
    let ip = Ipv4::from_octets(a, b, c, d);
    proof {
        assert(quad_at(s@, ip, p1 as int, p2 as int, p3 as int));
        assert(is_dotted_quad(s@, ip));
        let picked = choose|x: Ipv4| is_dotted_quad(s@, x);
        lemma_dots_determine_quad(s@, picked, dots@);
    }
    Some(ip)
}

/// The addresses of the rows that parse; a malformed stored address is
/// skipped rather than failing the whole query.
pub open spec fn parsed_rows(rows: Seq<Vec<u8>>) -> Seq<Ipv4>
    decreases rows.len(),
{
    if rows.len() == 0 {
        Seq::empty()
    } else {
        let rest = parsed_rows(rows.drop_last());
        match quad_value(rows.last()@) {
            Some(ip) => rest.push(ip),
            None => rest,
        }
    }
}

/// Converts stored rows of address text to addresses, skipping each row
/// whose text spells no address.
pub fn get_addresses_from_row(rows: &Vec<Vec<u8>>) -> (r: Vec<Ipv4>)
    ensures
        r@ == parsed_rows(rows@),
{
    let n = rows.len();
    let mut out: Vec<Ipv4> = Vec::new();
    let mut i: usize = 0;
    while i < n
        invariant
            n == rows@.len(),
            i <= n,
            out@ == parsed_rows(rows@.take(i as int)),
        decreases n - i,
    {
        match parse_ipv4_bytes(rows[i].as_slice()) {
            Some(ip) => out.push(ip),
            None => {},
        }
        i = i + 1;
        proof {
            let t = rows@.take(i as int);
            assert(t.drop_last() =~= rows@.take(i as int - 1));
            assert(t.last() == rows@[i as int - 1]);
        }
    }
    proof {
        assert(rows@.take(n as int) =~= rows@);
    }
    out
}

} // verus!
