//! The monitor of a network function's connection to its controller: the
//! addresses the controller reports, and when the connection has gone away.
use std::sync::Arc;

use vstd::prelude::*;

use crate::cpu_list::{free_of, lemma_dec_text, lemma_split_join};
use crate::text::{
    dec, digit_char, join,
    all_digits, digits_value, is_digit, parse_usize_in, split,
    split_ranges, str_chars, unsigned_digits, push_str_chars, string_from_chars,
};

verus! {

// ---------------------------------------------------------------------------
// Calls into `libc`
// ---------------------------------------------------------------------------

/// `libc::POLLHUP`, which is `0x10` on every target where `libc` defines
/// `POLLRDHUP` too (Linux, Android, FreeBSD, illumos, NuttX, Hermit).
#[verifier::external_body]
fn poll_hup() -> (r: i16)
    ensures
        r == 0x10,
{
    libc::POLLHUP
}

/// `libc::POLLERR`, which is `0x8` on every target where `libc` defines
/// `POLLRDHUP` too.
#[verifier::external_body]
fn poll_err() -> (r: i16)
    ensures
        r == 0x8,
{
    libc::POLLERR
}

/// `libc::POLLRDHUP`: `0x2000` on Linux, Android and Hermit, `0x800` on
/// SPARC Linux, `0x4000` on FreeBSD and illumos, `0x10` on NuttX (the only
/// targets where `libc` defines it).
#[verifier::external_body]
fn poll_rdhup() -> (r: i16)
    ensures
        r == 0x2000 || r == 0x800 || r == 0x4000 || r == 0x10,
{
    libc::POLLRDHUP
}

// ---------------------------------------------------------------------------
// Errors
// ---------------------------------------------------------------------------

/// Errors of the monitor.
#[derive(Debug)]
pub enum FlashError {
    /// The controller reported an address that is not dotted-decimal IPv4.
    InvalidIpAddr(String),
}

pub enum FlashErrorView {
    InvalidIpAddr(Seq<char>),
}

/// The text a monitor error is displayed with.
pub open spec fn flash_error_message(e: FlashErrorView) -> Seq<char> {
    match e {
        FlashErrorView::InvalidIpAddr(t) => "flash error: invalid IP address "@ + t,
    }
}

impl FlashError {
    /// The text the error is displayed with.
    pub fn message(&self) -> (r: String)
        ensures
            r@ == flash_error_message(self@),
    {
        match self {
            FlashError::InvalidIpAddr(t) => {
                let mut v = str_chars("flash error: invalid IP address ");
                push_str_chars(&mut v, t.as_str());
                string_from_chars(v.as_slice())
            },
        }
    }
}

impl View for FlashError {
    type V = FlashErrorView;

    open spec fn view(&self) -> FlashErrorView {
        match self {
            FlashError::InvalidIpAddr(s) => FlashErrorView::InvalidIpAddr(s@),
        }
    }
}

// ---------------------------------------------------------------------------
// The monitor
// ---------------------------------------------------------------------------

/// Watches the connection to the controller, through the client `C` that holds it.
pub struct Monitor<C> {
    uds_client: Arc<C>,
}

impl<C> Monitor<C> {
    pub closed spec fn client(&self) -> Arc<C> {
        self.uds_client
    }

    /// A monitor over the connection that `uds_client` holds.
    pub fn new(uds_client: Arc<C>) -> (r: Self)
        ensures
            r.client() == uds_client,
    {
        Monitor { uds_client }
    }

    /// The client that holds the connection.
    pub fn uds_client(&self) -> (r: &Arc<C>)
        ensures
            *r == self.client(),
    {
        &self.uds_client
    }
}

// ---------------------------------------------------------------------------
// Dotted-decimal IPv4 addresses
// ---------------------------------------------------------------------------

/// One part of a dotted-decimal address: one to three ASCII digits, no
/// leading zero unless the part is `0`, at most 255.
pub open spec fn octet_value(t: Seq<char>) -> Option<u8> {
    if 1 <= t.len() <= 3 && all_digits(t) && !(t.len() > 1 && t[0] == '0') && digits_value(t)
        <= 255 {
        Some(digits_value(t) as u8)
    } else {
        None
    }
}

/// The octets of a dotted-decimal IPv4 address (`a.b.c.d`), as
/// `Ipv4Addr::from_str` reads it; `None` for any other text.
pub open spec fn parse_ipv4(s: Seq<char>) -> Option<Seq<u8>> {
    let parts = split(s, '.');
    if parts.len() == 4 && (forall|i: int| 0 <= i < 4 ==> (#[trigger] octet_value(parts[i])) is Some) {
        Some(Seq::new(4, |i: int| octet_value(parts[i])->0))
    } else {
        None
    }
}

spec fn pow10(n: nat) -> nat
    decreases n,
{
    if n == 0 {
        1
    } else {
        10 * pow10((n - 1) as nat)
    }
}

proof fn lemma_digits_value_bound(t: Seq<char>)
    requires
        all_digits(t),
    ensures
        digits_value(t) < pow10(t.len()),
    decreases t.len(),
{
    if t.len() > 0 {
        let p = t.drop_last();
        assert(all_digits(p)) by {
            assert forall|i: int| 0 <= i < p.len() implies is_digit(#[trigger] p[i]) by {
                assert(p[i] == t[i]);
            }
        }
        lemma_digits_value_bound(p);
        assert(is_digit(t[t.len() - 1]));
    }
}

proof fn lemma_digits_value_small(t: Seq<char>)
    requires
        t.len() <= 3,
        all_digits(t),
    ensures
        digits_value(t) < 1000,
{
    lemma_digits_value_bound(t);
    assert(pow10(0) == 1);
    assert(pow10(1) == 10);
    assert(pow10(2) == 100);
    assert(pow10(3) == 1000);
}

/// The octet `s[lo..hi]`.
fn octet_in(s: &Vec<char>, lo: usize, hi: usize) -> (r: Option<u8>)
    requires
        lo <= hi <= s.len(),
    ensures
        r == octet_value(s@.subrange(lo as int, hi as int)),
{
    let ghost t = s@.subrange(lo as int, hi as int);
    let len = hi - lo;
    if len < 1 || len > 3 {
        return None;
    }
    let c0 = s[lo];
    let u0 = c0 as u32;
    if !(48 <= u0 && u0 <= 57) {
        assert(t[0] == c0);
        return None;
    }
    if len > 1 && c0 == '0' {
        assert(t[0] == c0);
        return None;
    }
    assert(t[0] == c0);
    assert(unsigned_digits(t) == t);
    match parse_usize_in(s, lo, hi) {
        Some(v) => {
            if v <= 255 {
                Some(v as u8)
            } else {
                None
            }
        },
        None => {
            proof {
                if all_digits(t) {
                    lemma_digits_value_small(t);
                }
            }
            None
        },
    }
}

/// The octets of the dotted-decimal IPv4 address in `s`.
pub fn parse_ipv4_chars(s: &Vec<char>) -> (r: Option<[u8; 4]>)
    ensures
        match parse_ipv4(s@) {
            Some(o) => r matches Some(a) && a@ == o,
            None => r is None,
        },
{
    let parts = split_ranges(s, '.');
    let ghost ps = split(s@, '.');
    if parts.len() != 4 {
        return None;
    }
    let (l0, h0) = parts[0];
    let (l1, h1) = parts[1];
    let (l2, h2) = parts[2];
    let (l3, h3) = parts[3];
    let o0 = octet_in(s, l0, h0);
    let o1 = octet_in(s, l1, h1);
    let o2 = octet_in(s, l2, h2);
    let o3 = octet_in(s, l3, h3);
    assert(octet_value(ps[0]) == o0);
    assert(octet_value(ps[1]) == o1);
    assert(octet_value(ps[2]) == o2);
    assert(octet_value(ps[3]) == o3);
    match (o0, o1, o2, o3) {
        (Some(a), Some(b), Some(c), Some(d)) => {
            let r = [a, b, c, d];
            assert(r@ =~= Seq::new(4, |i: int| octet_value(ps[i])->0));
            Some(r)
        },
        _ => {
            proof {
                if o0 is None {
                    assert(octet_value(ps[0]) is None);
                } else if o1 is None {
                    assert(octet_value(ps[1]) is None);
                } else if o2 is None {
                    assert(octet_value(ps[2]) is None);
                } else {
                    assert(octet_value(ps[3]) is None);
                }
            }
            None
        },
    }
}

/// The address in the controller's reply `reply`.
pub fn parse_ip_addr(reply: &str) -> (r: Result<[u8; 4], FlashError>)
    ensures
        match parse_ipv4(reply@) {
            Some(o) => r matches Ok(a) && a@ == o,
            None => r matches Err(e) && e@ == FlashErrorView::InvalidIpAddr(reply@),
        },
{
    let chars = str_chars(reply);
    match parse_ipv4_chars(&chars) {
        Some(a) => Ok(a),
        None => Err(FlashError::InvalidIpAddr(reply.to_owned())),
    }
}

/// The addresses in the controller's replies, in order; the first reply that
/// is not an address is the error.
pub fn parse_ip_addrs(replies: &Vec<String>) -> (r: Result<Vec<[u8; 4]>, FlashError>)
    ensures
        match r {
            Ok(v) => v.len() == replies.len() && forall|i: int|
                0 <= i < v.len() ==> parse_ipv4(replies[i]@) == Some(#[trigger] v[i]@),
            Err(e) => exists|k: int|
                0 <= k < replies.len() && parse_ipv4(#[trigger] replies[k]@) is None && e@
                    == FlashErrorView::InvalidIpAddr(replies[k]@) && forall|j: int|
                    0 <= j < k ==> parse_ipv4(#[trigger] replies[j]@) is Some,
        },
        r is Ok <==> forall|i: int| 0 <= i < replies.len() ==> parse_ipv4(#[trigger] replies[i]@) is Some,
{
    let mut out: Vec<[u8; 4]> = Vec::new();
    let mut i: usize = 0;
    while i < replies.len()
        invariant
            0 <= i <= replies.len(),
            out.len() == i,
            forall|j: int| 0 <= j < i ==> parse_ipv4(replies[j]@) == Some(#[trigger] out[j]@),
        decreases replies.len() - i,
    {
        match parse_ip_addr(replies[i].as_str()) {
            Ok(a) => {
                out.push(a);
            },
            Err(e) => {
                assert(parse_ipv4(replies[i as int]@) is None);
                assert(forall|j: int| 0 <= j < i ==> parse_ipv4(#[trigger] replies[j]@) is Some) by {
                    assert forall|j: int| 0 <= j < i implies parse_ipv4(#[trigger] replies[j]@) is Some by {
                        assert(parse_ipv4(replies[j]@) == Some(out[j]@));
                    }
                }
                return Err(e);
            },
        }
        i = i + 1;
    }
    assert forall|j: int| 0 <= j < replies.len() implies parse_ipv4(#[trigger] replies[j]@) is Some by {
        assert(parse_ipv4(replies[j]@) == Some(out[j]@));
    }
    Ok(out)
}

// ---------------------------------------------------------------------------
// Disconnection
// ---------------------------------------------------------------------------

/// The poll events that mean the peer hung up or the connection failed:
/// `POLLHUP | POLLERR | POLLRDHUP`: always the hang-up and error bits
/// `0x18`, and the read-hang-up bit of the target.
pub fn disconnect_events() -> (r: i16)
    ensures
        r == 0x2018 || r == 0x818 || r == 0x4018 || r == 0x18,
        r & 0x18 == 0x18,
{
    let hup = poll_hup();
    let err = poll_err();
    let rdhup = poll_rdhup();
    assert((0x10i16 | 0x8i16 | 0x2000i16) == 0x2018i16) by (bit_vector);
    assert((0x10i16 | 0x8i16 | 0x800i16) == 0x818i16) by (bit_vector);
    assert((0x10i16 | 0x8i16 | 0x4000i16) == 0x4018i16) by (bit_vector);
    assert((0x10i16 | 0x8i16 | 0x10i16) == 0x18i16) by (bit_vector);
    assert((0x2018i16 & 0x18i16) == 0x18i16) by (bit_vector);
    assert((0x818i16 & 0x18i16) == 0x18i16) by (bit_vector);
    assert((0x4018i16 & 0x18i16) == 0x18i16) by (bit_vector);
    assert((0x18i16 & 0x18i16) == 0x18i16) by (bit_vector);
    hup | err | rdhup
}

/// Whether a `poll` that returned `poll_ret` with the returned events
/// `revents` reports one of `events`: then the disconnect handler runs.
pub fn is_disconnect_event(poll_ret: i32, revents: i16, events: i16) -> (r: bool)
    ensures
        r == (poll_ret > 0 && (revents & events) != 0),
{
    poll_ret > 0 && (revents & events) != 0
}

// ---------------------------------------------------------------------------
// Every address reads back
// ---------------------------------------------------------------------------

/// The decimal text of a non-zero number does not start with `0`.
proof fn lemma_dec_leading(n: nat)
    requires
        n > 0,
    ensures
        dec(n)[0] != '0',
    decreases n,
{
    lemma_dec_text(n);
    if n >= 10 {
        lemma_dec_leading(n / 10);
        lemma_dec_text(n / 10);
        assert(dec(n)[0] == dec(n / 10)[0]);
    } else {
        assert(dec(n)[0] == digit_char(n));
        assert((digit_char(n) as u32) == n + 48);
    }
}

/// The decimal text of a number below 1000 has at most three digits.
proof fn lemma_dec_short(n: nat)
    requires
        n < 1000,
    ensures
        dec(n).len() <= 3,
{
    if n < 10 {
        assert(dec(n).len() == 1);
    } else if n / 10 < 10 {
        assert(dec(n / 10).len() == 1);
        assert(dec(n).len() == 2);
    } else {
        let m = n / 10;
        assert(m / 10 < 10);
        assert(dec(m / 10).len() == 1);
        assert(dec(m).len() == 2);
        assert(dec(n).len() == 3);
    }
}

/// Each octet written in decimal reads back as itself.
pub proof fn lemma_octet_round_trip(x: u8)
    ensures
        octet_value(dec(x as nat)) == Some(x),
        free_of(dec(x as nat), '.'),
{
    let d = dec(x as nat);
    lemma_dec_text(x as nat);
    lemma_dec_short(x as nat);
    if x > 0 {
        lemma_dec_leading(x as nat);
    } else {
        assert(d.len() == 1);
    }
    assert(free_of(d, '.')) by {
        assert forall|i: int| 0 <= i < d.len() implies d[i] != '.' by {
            assert(is_digit(d[i]));
        }
    }
}

/// Every IPv4 address, written as four decimal octets separated by dots,
/// reads back as the same four octets.
pub proof fn lemma_ipv4_round_trip(a: u8, b: u8, c: u8, d: u8)
    ensures
        parse_ipv4(
            dec(a as nat) + seq!['.'] + dec(b as nat) + seq!['.'] + dec(c as nat) + seq!['.'] + dec(
                d as nat,
            ),
        ) == Some(seq![a, b, c, d]),
{
    let parts = seq![dec(a as nat), dec(b as nat), dec(c as nat), dec(d as nat)];
    lemma_octet_round_trip(a);
    lemma_octet_round_trip(b);
    lemma_octet_round_trip(c);
    lemma_octet_round_trip(d);
    let p1 = seq![dec(a as nat)];
    let p2 = seq![dec(a as nat), dec(b as nat)];
    let p3 = seq![dec(a as nat), dec(b as nat), dec(c as nat)];
    assert(p2.drop_last() =~= p1);
    assert(p3.drop_last() =~= p2);
    assert(parts.drop_last() =~= p3);
    assert(join(p1, '.') == dec(a as nat));
    assert(join(p2, '.') == dec(a as nat) + seq!['.'] + dec(b as nat));
    assert(join(p3, '.') == dec(a as nat) + seq!['.'] + dec(b as nat) + seq!['.'] + dec(c as nat));
    let text = dec(a as nat) + seq!['.'] + dec(b as nat) + seq!['.'] + dec(c as nat) + seq!['.']
        + dec(d as nat);
    assert(join(parts, '.') =~= text);
    assert forall|i: int| 0 <= i < parts.len() implies free_of(#[trigger] parts[i], '.') by {}
    lemma_split_join(parts, '.');
    let ps = split(text, '.');
    assert(ps == parts);
    assert(octet_value(ps[0]) == Some(a));
    assert(octet_value(ps[1]) == Some(b));
    assert(octet_value(ps[2]) == Some(c));
    assert(octet_value(ps[3]) == Some(d));
    assert(Seq::new(4, |i: int| octet_value(ps[i])->0) =~= seq![a, b, c, d]);
}

} // verus!
