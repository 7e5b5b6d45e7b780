//! Parsing socket address literals: `a.b.c.d:port`, or `[x:…:x]:port` with
//! an IPv6 address of eight hex groups, one run of which may be compressed
//! to `::`.
//!
//! The accepted language is pinned by `spec_parse_socket_addr`: parsing
//! succeeds exactly when that spec parser yields a value, and then yields
//! the same octets and port. The ID a node derives from the parsed address
//! is pinned by `spec_compute_id`.

use vstd::prelude::*;
use vstd::string::StringSliceAdditionalSpecFns;

use crate::peer::{wf_ip, wf_node, IpInfo, IpV, Node, NodeEvictionStatus, PeerInfo, PeerNode};

verus! {

/// An ASCII decimal digit.
pub open spec fn is_digit(c: u8) -> bool {
    48 <= c <= 57
}

/// An ASCII hexadecimal digit, either case.
pub open spec fn is_hex_digit(c: u8) -> bool {
    (48 <= c <= 57) || (97 <= c <= 102) || (65 <= c <= 70)
}

/// Value of one hexadecimal digit.
pub open spec fn hex_digit_val(c: u8) -> int {
    if 48 <= c <= 57 {
        c - 48
    } else if 97 <= c <= 102 {
        c - 87
    } else {
        c - 55
    }
}

/// Value of the decimal digits `s[from..to]`, most significant first.
pub open spec fn dec_val(s: Seq<u8>, from: int, to: int) -> int
    decreases to - from,
{
    if to <= from {
        0
    } else {
        dec_val(s, from, to - 1) * 10 + (s[to - 1] - 48)
    }
}

/// Value of the hexadecimal digits `s[from..to]`, most significant first.
pub open spec fn hex_val(s: Seq<u8>, from: int, to: int) -> int
    decreases to - from,
{
    if to <= from {
        0
    } else {
        hex_val(s, from, to - 1) * 16 + hex_digit_val(s[to - 1])
    }
}

/// A nonempty all-decimal-digit run whose value stays within `max`.
pub open spec fn dec_ok(s: Seq<u8>, from: int, to: int, max: int) -> bool {
    &&& from < to
    &&& forall|j: int| from <= j < to ==> is_digit(#[trigger] s[j])
    &&& dec_val(s, from, to) <= max
}

/// A hexadecimal group: one to four hex digits.
pub open spec fn hex_group_ok(s: Seq<u8>, from: int, to: int) -> bool {
    &&& from < to <= from + 4
    &&& forall|j: int| from <= j < to ==> is_hex_digit(#[trigger] s[j])
}

/// First position of `c` in `s[from..to]`, or `to` if it does not occur.
pub open spec fn first_pos(s: Seq<u8>, c: u8, from: int, to: int) -> int
    decreases to - from,
{
    if from >= to {
        to
    } else if s[from] == c {
        from
    } else {
        first_pos(s, c, from + 1, to)
    }
}

/// Extending an all-digit run can only grow its value.
proof fn lemma_dec_val_mono(s: Seq<u8>, from: int, k: int, to: int)
    requires
        from <= k <= to,
        dec_val(s, from, k) >= 0,
        forall|j: int| k <= j < to ==> is_digit(#[trigger] s[j]),
    ensures
        dec_val(s, from, to) >= dec_val(s, from, k),
        dec_val(s, from, to) >= 0,
    decreases to - k,
{
    if to > k {
        lemma_dec_val_mono(s, from, k, to - 1);
        assert(is_digit(s[to - 1]));
    }
}

/// Powers of sixteen, for the hex-digit count bound.
spec fn pow16(n: nat) -> int
    decreases n,
{
    if n == 0 {
        1
    } else {
        16 * pow16((n - 1) as nat)
    }
}

/// Parse ASCII decimal digits in `bytes[from..to]`: succeeds exactly on a
/// nonempty digit run worth at most `max`, yielding its value.
fn parse_decimal(bytes: &Vec<u8>, from: usize, to: usize, max: u32) -> (r: Option<u32>)
    requires
        from <= to <= bytes@.len(),
        max <= 0xffff,
    ensures
        r is Some <==> dec_ok(bytes@, from as int, to as int, max as int),
        r matches Some(v) ==> v == dec_val(bytes@, from as int, to as int),
{
    if from == to {
        return None;
    }
    let mut val: u32 = 0;
    let mut i: usize = from;
    while i < to
        invariant
            from <= i <= to <= bytes@.len(),
            max <= 0xffff,
            val <= max,
            val == dec_val(bytes@, from as int, i as int),
            forall|j: int| from <= j < i ==> is_digit(#[trigger] bytes@[j]),
        decreases to - i,
    {
        let c = bytes[i];
        if c < 48 || c > 57 {
            return None;
        }
        let next: u32 = val * 10 + ((c - 48) as u32);
        if next > max {
            proof {
                if forall|j: int| i + 1 <= j < to ==> is_digit(#[trigger] bytes@[j]) {
                    lemma_dec_val_mono(bytes@, from as int, i + 1, to as int);
                }
            }
            return None;
        }
        val = next;
        i += 1;
    }
    Some(val)
}

/// Parse ASCII hexadecimal digits in `bytes[from..to]`: succeeds exactly
/// on a run of one to four hex digits, yielding its value.
fn parse_hex_group(bytes: &Vec<u8>, from: usize, to: usize) -> (r: Option<u16>)
    requires
        from <= to <= bytes@.len(),
    ensures
        r is Some <==> hex_group_ok(bytes@, from as int, to as int),
        r matches Some(v) ==> v == hex_val(bytes@, from as int, to as int),
{
    if from == to || to - from > 4 {
        return None;
    }
    proof {
        assert(pow16(0) == 1);
        assert(pow16(1) == 16);
        assert(pow16(2) == 256);
        assert(pow16(3) == 4096);
        assert(pow16(4) == 65536);
    }
    let mut val: u32 = 0;
    let mut i: usize = from;
    while i < to
        invariant
            from <= i <= to <= bytes@.len(),
            to - from <= 4,
            val == hex_val(bytes@, from as int, i as int),
            val < pow16((i - from) as nat),
            forall|j: int| from <= j < i ==> is_hex_digit(#[trigger] bytes@[j]),
        decreases to - i,
    {
        let c = bytes[i];
        let digit: u32 = if c >= 48 && c <= 57 {
            (c - 48) as u32
        } else if c >= 97 && c <= 102 {
            (c - 87) as u32
        } else if c >= 65 && c <= 70 {
            (c - 55) as u32
        } else {
            return None;
        };
        proof {
            assert(pow16(0) == 1);
            assert(pow16(1) == 16);
            assert(pow16(2) == 256);
            assert(pow16(3) == 4096);
            let k = (i - from) as nat;
            assert(k <= 3);
            assert(pow16((k + 1) as nat) == 16 * pow16(k));
            if k == 0 {
                assert(pow16(k) == 1);
            } else if k == 1 {
                assert(pow16(k) == 16);
            } else if k == 2 {
                assert(pow16(k) == 256);
            } else {
                assert(pow16(k) == 4096);
            }
        }
        val = val * 16 + digit;
        i += 1;
    }
    proof {
        assert(pow16(0) == 1);
        assert(pow16(1) == 16);
        assert(pow16(2) == 256);
        assert(pow16(3) == 4096);
        assert(pow16(4) == 65536);
        let k = (to - from) as nat;
        if k == 1 {
        } else if k == 2 {
        } else if k == 3 {
        } else {
            assert(k == 4);
        }
        assert(pow16(k) <= 65536);
    }
    Some(val as u16)
}

/// First position of `c` in `bytes[from..to]`, or `to`.
fn find_pos(bytes: &Vec<u8>, c: u8, from: usize, to: usize) -> (r: usize)
    requires
        from <= to <= bytes@.len(),
    ensures
        r == first_pos(bytes@, c, from as int, to as int),
        from <= r <= to,
    decreases to - from,
{
    if from >= to {
        to
    } else if bytes[from] == c {
        from
    } else {
        find_pos(bytes, c, from + 1, to)
    }
}

/// The octets of the dotted-decimal run `s[from..to]`, up to `fuel`
/// segments of value at most 255.
pub open spec fn spec_octets(s: Seq<u8>, from: int, to: int, fuel: nat) -> Option<Seq<u8>>
    decreases fuel,
{
    if fuel == 0 {
        None
    } else {
        let p = first_pos(s, 46, from, to);
        if p == to {
            if dec_ok(s, from, to, 255) {
                Some(seq![dec_val(s, from, to) as u8])
            } else {
                None
            }
        } else if dec_ok(s, from, p, 255) {
            match spec_octets(s, p + 1, to, (fuel - 1) as nat) {
                Some(rest) => Some(seq![dec_val(s, from, p) as u8] + rest),
                None => None,
            }
        } else {
            None
        }
    }
}

/// The octets of the colon-separated hexadecimal run `s[from..to]`, two
/// big-endian bytes per group, up to `fuel` groups.
pub open spec fn spec_groups(s: Seq<u8>, from: int, to: int, fuel: nat) -> Option<Seq<u8>>
    decreases fuel,
{
    if fuel == 0 {
        None
    } else {
        let p = first_pos(s, 58, from, to);
        if p == to {
            if hex_group_ok(s, from, to) {
                Some(seq![(hex_val(s, from, to) / 256) as u8, (hex_val(s, from, to) % 256) as u8])
            } else {
                None
            }
        } else if hex_group_ok(s, from, p) {
            match spec_groups(s, p + 1, to, (fuel - 1) as nat) {
                Some(rest) => Some(
                    seq![(hex_val(s, from, p) / 256) as u8, (hex_val(s, from, p) % 256) as u8]
                        + rest,
                ),
                None => None,
            }
        } else {
            None
        }
    }
}

/// First position in `s[from..to]` where two colons stand together, or
/// `to` when none do.
pub open spec fn first_dcolon(s: Seq<u8>, from: int, to: int) -> int
    decreases to - from,
{
    if from + 1 >= to {
        to
    } else if s[from] == 58 && s[from + 1] == 58 {
        from
    } else {
        first_dcolon(s, from + 1, to)
    }
}

/// A group run that may also be empty, as either side of a `::` may be.
pub open spec fn spec_groups0(s: Seq<u8>, from: int, to: int, fuel: nat) -> Option<Seq<u8>> {
    if from == to {
        Some(Seq::empty())
    } else {
        spec_groups(s, from, to, fuel)
    }
}

/// The sixteen octets of an IPv6 literal `s[from..to]`: eight hex groups,
/// or two shorter runs around one `::` standing for the missing zero
/// groups.
pub open spec fn spec_ipv6_octets(s: Seq<u8>, from: int, to: int) -> Option<Seq<u8>> {
    let dc = first_dcolon(s, from, to);
    if dc == to {
        match spec_groups(s, from, to, 8) {
            Some(o) => if o.len() == 16 {
                Some(o)
            } else {
                None
            },
            None => None,
        }
    } else {
        match (spec_groups0(s, from, dc, 7), spec_groups0(s, dc + 2, to, 7)) {
            (Some(l), Some(r)) => if l.len() + r.len() <= 14 {
                Some(l + Seq::new((16 - l.len() - r.len()) as nat, |x: int| 0u8) + r)
            } else {
                None
            },
            _ => None,
        }
    }
}

/// What a socket address literal means: `a.b.c.d:port` with four decimal
/// octets, or `[hex groups, one gap of zero groups as ::]:port`, with a
/// decimal port up to 65535.
pub open spec fn spec_parse_socket_addr(s: Seq<u8>) -> Option<(IpV, u16)> {
    if s.len() == 0 {
        None
    } else if s[0] == 91 {
        let close = first_pos(s, 93, 1, s.len() as int);
        if close + 1 >= s.len() || s[close + 1] != 58 {
            None
        } else if !dec_ok(s, close + 2, s.len() as int, 0xffff) {
            None
        } else {
            match spec_ipv6_octets(s, 1, close) {
                Some(o) => Some((IpV::V6(o), dec_val(s, close + 2, s.len() as int) as u16)),
                None => None,
            }
        }
    } else {
        let colon = first_pos(s, 58, 0, s.len() as int);
        if colon >= s.len() {
            None
        } else if !dec_ok(s, colon + 1, s.len() as int, 0xffff) {
            None
        } else {
            match spec_octets(s, 0, colon, 4) {
                Some(o) => if o.len() == 4 {
                    Some((IpV::V4(o), dec_val(s, colon + 1, s.len() as int) as u16))
                } else {
                    None
                },
                None => None,
            }
        }
    }
}

/// Parse a dotted-decimal run, mirroring `spec_octets`.
fn parse_octets(bytes: &Vec<u8>, from: usize, to: usize, fuel: u32) -> (r: Option<Vec<u8>>)
    requires
        from <= to <= bytes@.len(),
    ensures
        match r {
            Some(o) => spec_octets(bytes@, from as int, to as int, fuel as nat) == Some(o@),
            None => spec_octets(bytes@, from as int, to as int, fuel as nat) is None,
        },
    decreases fuel,
{
    if fuel == 0 {
        return None;
    }
    let p = find_pos(bytes, 46, from, to);
    if p == to {
        match parse_decimal(bytes, from, to, 255) {
            Some(v) => {
                let mut o: Vec<u8> = Vec::new();
                o.push(v as u8);
                proof {
                    assert(o@ =~= seq![dec_val(bytes@, from as int, to as int) as u8]);
                }
                Some(o)
            }
            None => None,
        }
    } else {
        match parse_decimal(bytes, from, p, 255) {
            Some(v) => match parse_octets(bytes, p + 1, to, fuel - 1) {
                Some(rest) => {
                    let mut o: Vec<u8> = Vec::new();
                    o.push(v as u8);
                    let mut tail = rest;
                    let ghost tv = tail@;
                    o.append(&mut tail);
                    proof {
                        assert(o@ =~= seq![dec_val(bytes@, from as int, p as int) as u8] + tv);
                    }
                    Some(o)
                }
                None => None,
            },
            None => None,
        }
    }
}

/// Parse a colon-separated hexadecimal run, mirroring `spec_groups`.
fn parse_groups(bytes: &Vec<u8>, from: usize, to: usize, fuel: u32) -> (r: Option<Vec<u8>>)
    requires
        from <= to <= bytes@.len(),
    ensures
        match r {
            Some(o) => spec_groups(bytes@, from as int, to as int, fuel as nat) == Some(o@),
            None => spec_groups(bytes@, from as int, to as int, fuel as nat) is None,
        },
    decreases fuel,
{
    if fuel == 0 {
        return None;
    }
    let p = find_pos(bytes, 58, from, to);
    if p == to {
        match parse_hex_group(bytes, from, to) {
            Some(v) => {
                let mut o: Vec<u8> = Vec::new();
                o.push((v / 256) as u8);
                o.push((v % 256) as u8);
                proof {
                    let hv = hex_val(bytes@, from as int, to as int);
                    assert(o@ =~= seq![(hv / 256) as u8, (hv % 256) as u8]);
                }
                Some(o)
            }
            None => None,
        }
    } else {
        match parse_hex_group(bytes, from, p) {
            Some(v) => match parse_groups(bytes, p + 1, to, fuel - 1) {
                Some(rest) => {
                    let mut o: Vec<u8> = Vec::new();
                    o.push((v / 256) as u8);
                    o.push((v % 256) as u8);
                    let mut tail = rest;
                    let ghost tv = tail@;
                    o.append(&mut tail);
                    proof {
                        let hv = hex_val(bytes@, from as int, p as int);
                        assert(o@ =~= seq![(hv / 256) as u8, (hv % 256) as u8] + tv);
                    }
                    Some(o)
                }
                None => None,
            },
            None => None,
        }
    }
}

/// First position of two adjacent colons in `bytes[from..to]`, or `to`.
fn find_dcolon(bytes: &Vec<u8>, from: usize, to: usize) -> (r: usize)
    requires
        from <= to <= bytes@.len(),
    ensures
        r == first_dcolon(bytes@, from as int, to as int),
        from <= r <= to,
        r != to ==> r + 2 <= to,
    decreases to - from,
{
    if to - from < 2 {
        to
    } else if bytes[from] == 58 && bytes[from + 1] == 58 {
        from
    } else {
        find_dcolon(bytes, from + 1, to)
    }
}

/// Parse a group run that may be empty, mirroring `spec_groups0`.
fn parse_groups0(bytes: &Vec<u8>, from: usize, to: usize, fuel: u32) -> (r: Option<Vec<u8>>)
    requires
        from <= to <= bytes@.len(),
    ensures
        match r {
            Some(o) => spec_groups0(bytes@, from as int, to as int, fuel as nat) == Some(o@)
                && o@.len() % 2 == 0,
            None => spec_groups0(bytes@, from as int, to as int, fuel as nat) is None,
        },
{
    if from == to {
        let o: Vec<u8> = Vec::new();
        proof {
            assert(o@ =~= Seq::<u8>::empty());
        }
        Some(o)
    } else {
        match parse_groups(bytes, from, to, fuel) {
            Some(o) => {
                proof {
                    lemma_groups_even(bytes@, from as int, to as int, fuel as nat);
                }
                Some(o)
            }
            None => None,
        }
    }
}

/// A group run always holds a whole number of two-byte groups.
proof fn lemma_groups_even(s: Seq<u8>, from: int, to: int, fuel: nat)
    requires
        spec_groups(s, from, to, fuel) is Some,
    ensures
        spec_groups(s, from, to, fuel)->0.len() % 2 == 0,
    decreases fuel,
{
    if fuel > 0 {
        let p = first_pos(s, 58, from, to);
        if p != to && hex_group_ok(s, from, p) {
            if spec_groups(s, p + 1, to, (fuel - 1) as nat) is Some {
                lemma_groups_even(s, p + 1, to, (fuel - 1) as nat);
            }
        }
    }
}

/// Parse the sixteen octets of an IPv6 literal, mirroring
/// `spec_ipv6_octets`.
fn parse_ipv6_octets(bytes: &Vec<u8>, from: usize, to: usize) -> (r: Option<Vec<u8>>)
    requires
        from <= to <= bytes@.len(),
    ensures
        match r {
            Some(o) => spec_ipv6_octets(bytes@, from as int, to as int) == Some(o@)
                && o@.len() == 16,
            None => spec_ipv6_octets(bytes@, from as int, to as int) is None,
        },
{
    let dc = find_dcolon(bytes, from, to);
    if dc == to {
        match parse_groups(bytes, from, to, 8) {
            Some(o) => {
                if o.len() == 16 {
                    Some(o)
                } else {
                    None
                }
            }
            None => None,
        }
    } else {
        let left = match parse_groups0(bytes, from, dc, 7) {
            Some(l) => l,
            None => {
                return None;
            }
        };
        let right = match parse_groups0(bytes, dc + 2, to, 7) {
            Some(x) => x,
            None => {
                return None;
            }
        };
        if left.len() > 14 || right.len() > 14 - left.len() {
            return None;
        }
        let ghost lv = left@;
        let ghost rv = right@;
        let zeros = 16 - left.len() - right.len();
        let mut o = left;
        let mut z: usize = 0;
        while z < zeros
            invariant
                z <= zeros,
                o@ == lv + Seq::new(z as nat, |x: int| 0u8),
            decreases zeros - z,
        {
            o.push(0);
            proof {
                assert(lv + Seq::new(z as nat, |x: int| 0u8) + seq![0u8]
                    =~= lv + Seq::new((z + 1) as nat, |x: int| 0u8));
            }
            z += 1;
        }
        let mut tail = right;
        o.append(&mut tail);
        proof {
            assert(o@ =~= lv + Seq::new(zeros as nat, |x: int| 0u8) + rv);
        }
        Some(o)
    }
}

/// Parse a socket address literal: succeeds exactly when
/// `spec_parse_socket_addr` accepts the string's bytes, and then yields the
/// same octets and port.
pub fn parse_socket_addr(address: &str) -> (r: Option<(IpInfo, u16)>)
    ensures
        match r {
            Some((ip, port)) => spec_parse_socket_addr(address.spec_bytes())
                == Some((ip@, port)) && wf_ip(ip@),
            None => spec_parse_socket_addr(address.spec_bytes()) is None,
        },
{
    let slice = address.as_bytes();
    let mut bytes: Vec<u8> = Vec::new();
    let mut ci: usize = 0;
    while ci < slice.len()
        invariant
            ci <= slice@.len(),
            bytes@ == slice@.take(ci as int),
        decreases slice@.len() - ci,
    {
        bytes.push(slice[ci]);
        proof {
            assert(slice@.take(ci as int).push(slice@[ci as int]) =~= slice@.take(ci + 1));
        }
        ci += 1;
    }
    proof {
        assert(slice@.take(slice@.len() as int) =~= slice@);
        assert(bytes@ == address.spec_bytes());
    }
    let n = bytes.len();
    if n == 0 {
        return None;
    }
    if bytes[0] == 91 {
        let close = find_pos(&bytes, 93, 1, n);
        if close >= n - 1 || bytes[close + 1] != 58 {
            return None;
        }
        let port = match parse_decimal(&bytes, close + 2, n, 0xffff) {
            Some(p) => p as u16,
            None => {
                return None;
            }
        };
        match parse_ipv6_octets(&bytes, 1, close) {
            Some(octets) => Some((IpInfo::IPv6(octets), port)),
            None => None,
        }
    } else {
        let colon = find_pos(&bytes, 58, 0, n);
        if colon >= n {
            return None;
        }
        let port = match parse_decimal(&bytes, colon + 1, n, 0xffff) {
            Some(p) => p as u16,
            None => {
                return None;
            }
        };
        match parse_octets(&bytes, 0, colon, 4) {
            Some(octets) => {
                if octets.len() == 4 {
                    Some((IpInfo::IPv4(octets), port))
                } else {
                    None
                }
            }
            None => None,
        }
    }
}

impl Node {
    /// Parse an address literal and build the node whose ID is the
    /// canonical hash of that address, first seen at `now`. `None` exactly
    /// when `spec_parse_socket_addr` refuses the literal; otherwise the
    /// node carries the parsed address and its canonical ID.
    pub fn generate(address: &str, now: u64) -> (r: Option<PeerNode>)
        ensures
            match spec_parse_socket_addr(address.spec_bytes()) {
                Some((ip, port)) => r matches Some(n) && n@.ip == ip && n@.port == port
                    && wf_node(n@)
                    && n@.seen_at == now
                    && n@.eviction_status == NodeEvictionStatus::Clear,
                None => r is None,
            },
    {
        match parse_socket_addr(address) {
            Some((ip, port)) => {
                let id = PeerNode::compute_id(&ip, port);
                Some(Node::new(id, PeerInfo { ip, port }, now))
            }
            None => None,
        }
    }

    /// `generate`, under the name the codec tests use.
    pub fn from_address(address: &str, now: u64) -> (r: Option<PeerNode>)
        ensures
            match spec_parse_socket_addr(address.spec_bytes()) {
                Some((ip, port)) => r matches Some(n) && n@.ip == ip && n@.port == port
                    && wf_node(n@)
                    && n@.seen_at == now
                    && n@.eviction_status == NodeEvictionStatus::Clear,
                None => r is None,
            },
    {
        Node::generate(address, now)
    }
}

} // verus!
