//! Peer endpoints and the two forms in which a tracker lists them.

use crate::endian::{be_u16, be_u32, read_be_u16, read_be_u32};
use vstd::prelude::*;

verus! {

/// An IPv4 endpoint: where a peer listens. `ip` holds the four octets of
/// the address as one number, first octet most significant.
#[derive(Clone, Copy, Debug, PartialEq, Eq, Hash, Structural)]
pub struct PeerAddr {
    pub ip: u32,
    pub port: u16,
}

impl PeerAddr {
    /// The address `a.b.c.d` as one number.
    pub open spec fn ip_of(a: u8, b: u8, c: u8, d: u8) -> int {
        a * 16777216 + b * 65536 + c * 256 + d
    }

    /// The endpoint `a.b.c.d:port`.
    pub fn new(a: u8, b: u8, c: u8, d: u8, port: u16) -> (addr: PeerAddr)
        ensures
            addr.ip == Self::ip_of(a, b, c, d),
            addr.port == port,
    {
        let ip: u32 = (a as u32) * 16777216 + (b as u32) * 65536 + (c as u32) * 256 + (d as u32);
        PeerAddr { ip, port }
    }

    /// The four octets of the address, first one first.
    pub fn octets(&self) -> (octets: [u8; 4])
        ensures
            Self::ip_of(octets[0], octets[1], octets[2], octets[3]) == self.ip,
    {
        [
            (self.ip / 16777216) as u8,
            ((self.ip / 65536) % 256) as u8,
            ((self.ip / 256) % 256) as u8,
            (self.ip % 256) as u8,
        ]
    }
}

/// What is known of a peer.
#[derive(Debug)]
pub struct Peer {
    pub addr: PeerAddr,
    pub peer_id: Option<String>,
    pub downloaded: u64,
    pub uploaded: u64,
    pub left: u64,
}

impl Peer {
    /// A peer at `addr` of which nothing else is known yet.
    pub fn new(addr: PeerAddr) -> (peer: Peer)
        ensures
            peer.addr == addr,
            peer.peer_id.is_none(),
            peer.downloaded == 0,
            peer.uploaded == 0,
            peer.left == 0,
    {
        Peer { addr, peer_id: None, downloaded: 0, uploaded: 0, left: 0 }
    }
}

/// A bencoded value. A dictionary is held as its entries; looking a key up
/// finds the first entry that has it.
#[derive(Debug)]
pub enum Value {
    Bytes(Vec<u8>),
    Int(i64),
    List(Vec<Value>),
    Dict(Vec<(Vec<u8>, Value)>),
}

/// The key `ip` of a peer dictionary.
pub open spec fn key_ip() -> Seq<u8> {
    seq![105u8, 112u8]
}

/// The key `port` of a peer dictionary.
pub open spec fn key_port() -> Seq<u8> {
    seq![112u8, 111u8, 114u8, 116u8]
}

/// True for an ASCII decimal digit.
pub open spec fn is_digit(byte: u8) -> bool {
    48 <= byte <= 57
}

/// Number of decimal digits that `text` holds from `from` on without a break.
pub open spec fn digit_run(text: Seq<u8>, from: int) -> nat
    decreases text.len() - from,
{
    if 0 <= from < text.len() && is_digit(text[from]) {
        1 + digit_run(text, from + 1)
    } else {
        0
    }
}

/// The octet that the digits at `from` spell: one to three digits, none
/// before the number but for a lone `0`, and no more than 255.
pub open spec fn octet_at(text: Seq<u8>, from: int) -> Option<u8> {
    let n = digit_run(text, from);
    let d0 = text[from] - 48;
    let d1 = text[from + 1] - 48;
    let d2 = text[from + 2] - 48;
    if n == 1 {
        Some(d0 as u8)
    } else if n == 2 && d0 != 0 {
        Some((10 * d0 + d1) as u8)
    } else if n == 3 && d0 != 0 && 100 * d0 + 10 * d1 + d2 <= 255 {
        Some((100 * d0 + 10 * d1 + d2) as u8)
    } else {
        None
    }
}

/// The address that `count` octets from `from` on spell, each but the last
/// followed by a dot and the last by the end of the text.
pub open spec fn octets_at(text: Seq<u8>, from: int, count: nat) -> Option<int>
    decreases count,
{
    if count == 0 {
        None
    } else {
        let end = from + digit_run(text, from);
        match octet_at(text, from) {
            None => None,
            Some(octet) => if count == 1 {
                if end == text.len() {
                    Some(octet as int)
                } else {
                    None
                }
            } else if end < text.len() && text[end] == 46 {
                match octets_at(text, end + 1, (count - 1) as nat) {
                    Some(rest) => Some(octet * pow256((count - 1) as nat) + rest),
                    None => None,
                }
            } else {
                None
            },
        }
    }
}

/// 256 to the power of `n`.
pub open spec fn pow256(n: nat) -> int
    decreases n,
{
    if n == 0 {
        1
    } else {
        256 * pow256((n - 1) as nat)
    }
}

/// The IPv4 address that `text` spells in dotted decimal: four octets
/// separated by dots and nothing else.
pub open spec fn ipv4_of(text: Seq<u8>) -> Option<int> {
    octets_at(text, 0, 4)
}

/// The low 16 bits of `value`.
pub open spec fn low16(value: i64) -> u16 {
    (value & 0xffff) as u16
}

/// Index of the first entry at or after `from` whose key is `key`.
pub open spec fn find_key(entries: Seq<(Vec<u8>, Value)>, key: Seq<u8>, from: int) -> Option<int>
    decreases entries.len() - from,
{
    if from < 0 || from >= entries.len() {
        None
    } else if entries[from].0@ == key {
        Some(from)
    } else {
        find_key(entries, key, from + 1)
    }
}

/// The endpoint that one item of a peer list names: a dictionary whose
/// `ip` is a byte string that spells an IPv4 address and whose `port` is an
/// integer, of which the low 16 bits count.
pub open spec fn peer_of(item: Value) -> Option<PeerAddr> {
    match item {
        Value::Dict(entries) => match (
            find_key(entries@, key_ip(), 0),
            find_key(entries@, key_port(), 0),
        ) {
            (Some(i), Some(p)) => match entries@[i].1 {
                Value::Bytes(text) => match entries@[p].1 {
                    Value::Int(port) => match ipv4_of(text@) {
                        Some(ip) => Some(PeerAddr { ip: ip as u32, port: low16(port) }),
                        None => None,
                    },
                    _ => None,
                },
                _ => None,
            },
            _ => None,
        },
        _ => None,
    }
}

/// The endpoints that the first `n` items of a peer list name, in order;
/// items that name none are passed over.
pub open spec fn listed_peers(items: Seq<Value>, n: nat) -> Seq<PeerAddr>
    decreases n,
{
    if n == 0 {
        Seq::empty()
    } else {
        let before = listed_peers(items, (n - 1) as nat);
        match peer_of(items[n - 1]) {
            Some(addr) => before.push(addr),
            None => before,
        }
    }
}

/// Endpoint number `i` of a compact peer string: four bytes of address and
/// two of port, both big-endian.
pub open spec fn compact_peer(bytes: Seq<u8>, i: int) -> PeerAddr {
    PeerAddr {
        ip: be_u32(bytes.subrange(6 * i, 6 * i + 4)) as u32,
        port: be_u16(bytes.subrange(6 * i + 4, 6 * i + 6)) as u16,
    }
}

/// The endpoints of a compact peer string: one for each whole group of six
/// bytes.
pub open spec fn compact_peers(bytes: Seq<u8>) -> Seq<PeerAddr> {
    Seq::new((bytes.len() / 6) as nat, |i: int| compact_peer(bytes, i))
}

/// The endpoints that the `peers` value of a tracker response names.
pub open spec fn peers_of(value: Value) -> Seq<PeerAddr> {
    match value {
        Value::Bytes(bytes) => compact_peers(bytes@),
        Value::List(items) => listed_peers(items@, items@.len()),
        _ => Seq::empty(),
    }
}

/// Counts the digits from `from` on.
fn count_digits(text: &[u8], from: usize) -> (n: usize)
    requires
        from <= text@.len(),
    ensures
        n == digit_run(text@, from as int),
        from + n <= text@.len(),
{
    let mut end = from;
    while end < text.len() && text[end] >= 48 && text[end] <= 57
        invariant
            from <= end <= text@.len(),
            digit_run(text@, from as int) == (end - from) + digit_run(text@, end as int),
        decreases text@.len() - end,
    {
        end += 1;
    }
    end - from
}

/// Reads the octet that starts at `from`; gives it with the index of the
/// byte after it.
fn parse_octet(text: &[u8], from: usize) -> (parsed: Option<(u8, usize)>)
    requires
        from <= text@.len(),
    ensures
        match octet_at(text@, from as int) {
            Some(octet) => parsed == Some((octet, (from + digit_run(text@, from as int)) as usize)),
            None => parsed.is_none(),
        },
        from + digit_run(text@, from as int) <= text@.len(),
{
    let n = count_digits(text, from);
    if n == 0 || n > 3 {
        return None;
    }
    let d0: u32 = (text[from] - 48) as u32;
    if n == 1 {
        return Some((d0 as u8, from + 1));
    }
    if d0 == 0 {
        return None;
    }
    assert(is_digit(text@[from + 1])) by {
        assert(digit_run(text@, from as int) == 1 + digit_run(text@, from + 1));
    }
    let d1: u32 = (text[from + 1] - 48) as u32;
    if n == 2 {
        return Some(((10 * d0 + d1) as u8, from + 2));
    }
    assert(is_digit(text@[from + 2])) by {
        assert(digit_run(text@, from as int) == 1 + digit_run(text@, from + 1));
        assert(digit_run(text@, from + 1) == 1 + digit_run(text@, from + 2));
    }
    let d2: u32 = (text[from + 2] - 48) as u32;
    let value = 100 * d0 + 10 * d1 + d2;
    if value > 255 {
        return None;
    }
    Some((value as u8, from + 3))
}

/// Reads an IPv4 address in dotted decimal: `Some` exactly for four
/// octets separated by dots, each of one to three digits with no zero
/// before the number, and no more than 255.
pub fn parse_ipv4(text: &[u8]) -> (ip: Option<u32>)
    ensures
        match ipv4_of(text@) {
            Some(value) => ip == Some(value as u32) && 0 <= value < 4294967296,
            None => ip.is_none(),
        },
{
    proof {
        reveal_with_fuel(octets_at, 5);
        reveal_with_fuel(pow256, 4);
    }
    let (a, after_a) = match parse_octet(text, 0) {
        Some(parsed) => parsed,
        None => {
            return None;
        },
    };
    if after_a >= text.len() || text[after_a] != 46 {
        return None;
    }
    let (b, after_b) = match parse_octet(text, after_a + 1) {
        Some(parsed) => parsed,
        None => {
            return None;
        },
    };
    if after_b >= text.len() || text[after_b] != 46 {
        return None;
    }
    let (c, after_c) = match parse_octet(text, after_b + 1) {
        Some(parsed) => parsed,
        None => {
            return None;
        },
    };
    if after_c >= text.len() || text[after_c] != 46 {
        return None;
    }
    let (d, after_d) = match parse_octet(text, after_c + 1) {
        Some(parsed) => parsed,
        None => {
            return None;
        },
    };
    if after_d != text.len() {
        return None;
    }
    Some(PeerAddr::new(a, b, c, d, 0).ip)
}

/// True iff the two byte strings are equal.
fn same_bytes(a: &[u8], b: &[u8]) -> (same: bool)
    ensures
        same == (a@ == b@),
{
    if a.len() != b.len() {
        return false;
    }
    let mut i: usize = 0;
    while i < a.len()
        invariant
            i <= a@.len(),
            a@.len() == b@.len(),
            forall|j: int| 0 <= j < i ==> a@[j] == b@[j],
        decreases a@.len() - i,
    {
        if a[i] != b[i] {
            return false;
        }
        i += 1;
    }
    assert(a@ =~= b@);
    true
}

/// Index of the first entry whose key is `key`.
pub(crate) fn position_of(entries: &Vec<(Vec<u8>, Value)>, key: &[u8]) -> (found: Option<usize>)
    ensures
        match find_key(entries@, key@, 0) {
            Some(i) => found matches Some(k) && k == i && 0 <= i < entries@.len(),
            None => found.is_none(),
        },
{
    let mut i: usize = 0;
    while i < entries.len()
        invariant
            i <= entries@.len(),
            find_key(entries@, key@, 0) == find_key(entries@, key@, i as int),
        decreases entries@.len() - i,
    {
        if same_bytes(entries[i].0.as_slice(), key) {
            return Some(i);
        }
        i += 1;
    }
    None
}

/// The low 16 bits of `value`, as a port.
fn port_of(value: i64) -> (port: u16)
    ensures
        port == low16(value),
{
    let low = value & 0xffff;
    assert(0 <= low <= 0xffff) by (bit_vector)
        requires
            low == value & 0xffff,
    ;
    low as u16
}

/// The endpoint that one item of a peer list names, if it names one.
pub fn parse_peer(item: &Value) -> (addr: Option<PeerAddr>)
    ensures
        addr == peer_of(*item),
{
    let key_ip: [u8; 2] = [105, 112];
    let key_port: [u8; 4] = [112, 111, 114, 116];
    assert(key_ip@ =~= self::key_ip());
    assert(key_port@ =~= self::key_port());
    match item {
        Value::Dict(entries) => {
            let ip_at = position_of(entries, key_ip.as_slice());
            let port_at = position_of(entries, key_port.as_slice());
            match (ip_at, port_at) {
                (Some(i), Some(p)) => match &entries[i].1 {
                    Value::Bytes(text) => match &entries[p].1 {
                        Value::Int(port) => match parse_ipv4(text.as_slice()) {
                            Some(ip) => Some(PeerAddr { ip, port: port_of(*port) }),
                            None => None,
                        },
                        _ => None,
                    },
                    _ => None,
                },
                _ => None,
            }
        },
        _ => None,
    }
}

/// The endpoints that the `peers` value of a tracker response names. A
/// byte string is the compact form: six bytes for each peer, four of
/// address and two of port, big-endian; bytes left over at the end are
/// passed over. A list is the dictionary form: each item that is a
/// dictionary with a dotted-decimal `ip` and an integer `port` names one
/// peer, and every other item is passed over. Any other value names none.
pub fn parse_peers(value: &Value) -> (peers: Vec<PeerAddr>)
    ensures
        peers@ == peers_of(*value),
{
    let mut peers: Vec<PeerAddr> = Vec::new();
    match value {
        Value::Bytes(bytes) => {
            let count = bytes.len() / 6;
            let mut i: usize = 0;
            while i < count
                invariant
                    i <= count,
                    count == bytes@.len() / 6,
                    bytes@.len() <= usize::MAX,
                    peers@.len() == i,
                    forall|j: int| 0 <= j < i ==> peers@[j] == compact_peer(bytes@, j),
                decreases count - i,
            {
                let ip = read_be_u32(bytes.as_slice(), 6 * i);
                let port = read_be_u16(bytes.as_slice(), 6 * i + 4);
                peers.push(PeerAddr { ip, port });
                i += 1;
            }
            assert(peers@ =~= compact_peers(bytes@));
        },
        Value::List(items) => {
            let mut i: usize = 0;
            while i < items.len()
                invariant
                    i <= items@.len(),
                    peers@ == listed_peers(items@, i as nat),
                decreases items@.len() - i,
            {
                match parse_peer(&items[i]) {
                    Some(addr) => {
                        peers.push(addr);
                    },
                    None => {},
                }
                i += 1;
            }
        },
        _ => {},
    }
    peers
}

/// `count` octets spell a number under 256 to the power of `count`.
proof fn lemma_octets_in_range(text: Seq<u8>, from: int, count: nat)
    ensures
        octets_at(text, from, count) matches Some(value) ==> 0 <= value < pow256(count),
    decreases count,
{
    if count > 0 {
        let end = from + digit_run(text, from);
        let below = pow256((count - 1) as nat);
        assert(pow256(count) == 256 * below);
        match octet_at(text, from) {
            None => {},
            Some(octet) => {
                if count == 1 {
                    assert(below == 1);
                } else {
                    lemma_octets_in_range(text, end + 1, (count - 1) as nat);
                    match octets_at(text, end + 1, (count - 1) as nat) {
                        Some(rest) => {
                            let o = octet as int;
                            assert(0 <= o * below + rest < 256 * below) by (nonlinear_arith)
                                requires
                                    0 <= o <= 255,
                                    0 <= rest < below,
                            ;
                        },
                        None => {},
                    }
                }
            },
        }
    }
}

/// What `ipv4_of` reads is an address: a number of 32 bits.
pub proof fn law_ipv4_is_an_address(text: Seq<u8>)
    ensures
        ipv4_of(text) matches Some(value) ==> 0 <= value < 4294967296,
{
    lemma_octets_in_range(text, 0, 4);
    reveal_with_fuel(pow256, 5);
}

/// The decimal digits of an octet, without a zero before the number.
pub open spec fn octet_text(octet: u8) -> Seq<u8> {
    if octet < 10 {
        seq![(48 + octet) as u8]
    } else if octet < 100 {
        seq![(48 + octet / 10) as u8, (48 + octet % 10) as u8]
    } else {
        seq![(48 + octet / 100) as u8, (48 + (octet / 10) % 10) as u8, (48 + octet % 10) as u8]
    }
}

/// The address `a.b.c.d` in dotted decimal.
pub open spec fn dotted(a: u8, b: u8, c: u8, d: u8) -> Seq<u8> {
    octet_text(a) + seq![46u8] + octet_text(b) + seq![46u8] + octet_text(c) + seq![46u8]
        + octet_text(d)
}

/// Where `text` holds the digits of `octet` at `from`, and no digit after
/// them, that octet is what is read there.
proof fn lemma_octet_read_back(text: Seq<u8>, from: int, octet: u8)
    requires
        0 <= from,
        from + octet_text(octet).len() <= text.len(),
        text.subrange(from, from + octet_text(octet).len()) == octet_text(octet),
        from + octet_text(octet).len() < text.len() ==> !is_digit(
            text[from + octet_text(octet).len()],
        ),
    ensures
        digit_run(text, from) == octet_text(octet).len(),
        octet_at(text, from) == Some(octet),
{
    let digits = octet_text(octet);
    let n = digits.len() as int;
    let part = text.subrange(from, from + n);
    reveal_with_fuel(digit_run, 5);
    assert(text[from] == part[0]);
    if octet >= 10 {
        assert(text[from + 1] == part[1]);
    }
    if octet >= 100 {
        assert(text[from + 2] == part[2]);
    }
}

/// An address that is written in dotted decimal is read back as it was.
pub proof fn law_ipv4_reads_what_is_written(a: u8, b: u8, c: u8, d: u8)
    ensures
        ipv4_of(dotted(a, b, c, d)) == Some(PeerAddr::ip_of(a, b, c, d)),
{
    let text = dotted(a, b, c, d);
    let ta = octet_text(a);
    let tb = octet_text(b);
    let tc = octet_text(c);
    let td = octet_text(d);
    let at_b = ta.len() as int + 1;
    let at_c = at_b + tb.len() + 1;
    let at_d = at_c + tc.len() + 1;
    assert(text.len() == at_d + td.len());
    assert(text.subrange(0, ta.len() as int) =~= ta);
    assert(text.subrange(at_b, at_b + tb.len()) =~= tb);
    assert(text.subrange(at_c, at_c + tc.len()) =~= tc);
    assert(text.subrange(at_d, at_d + td.len()) =~= td);
    assert(text[at_b - 1] == 46);
    assert(text[at_c - 1] == 46);
    assert(text[at_d - 1] == 46);
    lemma_octet_read_back(text, 0, a);
    lemma_octet_read_back(text, at_b, b);
    lemma_octet_read_back(text, at_c, c);
    lemma_octet_read_back(text, at_d, d);
    reveal_with_fuel(octets_at, 5);
    reveal_with_fuel(pow256, 5);
}

/// The digits that are read as an octet are that octet's decimal digits.
proof fn lemma_octet_is_canonical(text: Seq<u8>, from: int)
    requires
        0 <= from,
        octet_at(text, from).is_some(),
    ensures
        from + digit_run(text, from) <= text.len(),
        text.subrange(from, from + digit_run(text, from)) == octet_text(
            octet_at(text, from).unwrap(),
        ),
{
    reveal_with_fuel(digit_run, 5);
    let n = digit_run(text, from) as int;
    let octet = octet_at(text, from).unwrap();
    assert(text.subrange(from, from + n) =~= octet_text(octet));
}

/// What is read as `count` octets from `from` on is the text of some
/// octets, each in decimal, with dots between, and the number they spell.
proof fn lemma_octets_are_canonical(text: Seq<u8>, from: int, count: nat) -> (octets: Seq<u8>)
    requires
        0 <= from,
        octets_at(text, from, count).is_some(),
    ensures
        from <= text.len(),
        octets.len() == count,
        text.subrange(from, text.len() as int) == dotted_from(octets, 0),
        octets_at(text, from, count) == Some(number_of(octets, 0)),
    decreases count,
{
    let octet = octet_at(text, from).unwrap();
    let end = from + digit_run(text, from);
    lemma_octet_is_canonical(text, from);
    let tail = text.subrange(from, text.len() as int);
    if count == 1 {
        let octets = seq![octet];
        assert(tail =~= octet_text(octet));
        reveal_with_fuel(dotted_from, 2);
        reveal_with_fuel(number_of, 2);
        reveal_with_fuel(pow256, 2);
        assert(dotted_from(octets, 0) =~= octet_text(octet));
        octets
    } else {
        let rest = lemma_octets_are_canonical(text, end + 1, (count - 1) as nat);
        let octets = seq![octet] + rest;
        assert(tail =~= octet_text(octet) + seq![46u8] + text.subrange(
            end + 1,
            text.len() as int,
        ));
        lemma_dotted_from_shift(octet, rest, 0);
        lemma_number_of_shift(octet, rest, 0);
        assert(octets.len() - 1 == rest.len());
        octets
    }
}

/// Octets `at` and after, each in decimal, with dots between.
pub open spec fn dotted_from(octets: Seq<u8>, at: int) -> Seq<u8>
    decreases octets.len() - at,
{
    if at < 0 || at >= octets.len() {
        Seq::empty()
    } else if at + 1 == octets.len() {
        octet_text(octets[at])
    } else {
        octet_text(octets[at]) + seq![46u8] + dotted_from(octets, at + 1)
    }
}

/// The number that the octets `at` and after spell, first one most significant.
pub open spec fn number_of(octets: Seq<u8>, at: int) -> int
    decreases octets.len() - at,
{
    if at < 0 || at >= octets.len() {
        0
    } else {
        octets[at] * pow256((octets.len() - at - 1) as nat) + number_of(octets, at + 1)
    }
}

/// Putting an octet before others leaves their text as it was.
proof fn lemma_dotted_from_shift(first: u8, rest: Seq<u8>, at: int)
    requires
        0 <= at <= rest.len(),
    ensures
        dotted_from(seq![first] + rest, at + 1) == dotted_from(rest, at),
    decreases rest.len() - at,
{
    let all = seq![first] + rest;
    if at < rest.len() {
        assert(all[at + 1] == rest[at]);
        if at + 1 < rest.len() {
            lemma_dotted_from_shift(first, rest, at + 1);
        }
    }
}

/// Putting an octet before others leaves their number as it was.
proof fn lemma_number_of_shift(first: u8, rest: Seq<u8>, at: int)
    requires
        0 <= at <= rest.len(),
    ensures
        number_of(seq![first] + rest, at + 1) == number_of(rest, at),
    decreases rest.len() - at,
{
    let all = seq![first] + rest;
    if at < rest.len() {
        assert(all[at + 1] == rest[at]);
        lemma_number_of_shift(first, rest, at + 1);
    }
}

/// Whatever is read as an address is that address in dotted decimal.
pub proof fn law_ipv4_reads_dotted_decimal_only(text: Seq<u8>)
    requires
        ipv4_of(text).is_some(),
    ensures
        exists|a: u8, b: u8, c: u8, d: u8|
            text == #[trigger] dotted(a, b, c, d) && ipv4_of(text) == Some(
                PeerAddr::ip_of(a, b, c, d),
            ),
{
    let octets = lemma_octets_are_canonical(text, 0, 4);
    let (a, b, c, d) = (octets[0], octets[1], octets[2], octets[3]);
    reveal_with_fuel(dotted_from, 5);
    reveal_with_fuel(number_of, 5);
    reveal_with_fuel(pow256, 5);
    assert(text.subrange(0, text.len() as int) =~= text);
    assert(dotted_from(octets, 0) =~= dotted(a, b, c, d));
    assert(text == dotted(a, b, c, d));
}

} // verus!
