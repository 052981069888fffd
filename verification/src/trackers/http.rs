//! The announce request of an HTTP tracker.

use crate::peers::peer_connection::PEER_ID;
use vstd::prelude::*;
use vstd::string::*;

verus! {

/// The port that the client says it listens on.
pub const LISTEN_PORT: u16 = 6881;

/// Appends one character to a string.
///
/// Calls `String::push`. Trusted: the string afterwards is the string
/// before with `c` at its end.
#[verifier::external_body]
fn push_char(out: &mut String, c: char)
    ensures
        final(out)@ == old(out)@.push(c),
{
    out.push(c);
}

/// True for the bytes that a URL holds as they are: ASCII letters and
/// digits, `-`, `.`, `_` and `~`.
pub open spec fn is_unreserved(byte: u8) -> bool {
    ||| 48 <= byte <= 57
    ||| 65 <= byte <= 90
    ||| 97 <= byte <= 122
    ||| byte == 45
    ||| byte == 46
    ||| byte == 95
    ||| byte == 126
}

/// The upper-case hexadecimal digit for a number under 16.
pub open spec fn hex_digit(n: int) -> char {
    if n < 10 {
        (48 + n) as u8 as char
    } else {
        (55 + n) as u8 as char
    }
}

/// One byte as a URL holds it: itself where it is unreserved, else `%` and
/// its two hexadecimal digits.
pub open spec fn encoded_byte(byte: u8) -> Seq<char> {
    if is_unreserved(byte) {
        seq![byte as char]
    } else {
        seq!['%', hex_digit(byte as int / 16), hex_digit(byte as int % 16)]
    }
}

/// The first `n` bytes of `bytes`, percent-encoded.
pub open spec fn percent_encoded(bytes: Seq<u8>, n: nat) -> Seq<char>
    decreases n,
{
    if n == 0 {
        Seq::empty()
    } else {
        percent_encoded(bytes, (n - 1) as nat) + encoded_byte(bytes[n - 1])
    }
}

/// A number in decimal, without leading zeros.
pub open spec fn decimal(n: nat) -> Seq<char>
    decreases n,
{
    if n < 10 {
        seq![(48 + n) as u8 as char]
    } else {
        decimal(n / 10).push((48 + n % 10) as u8 as char)
    }
}

/// The URL of an announce: the tracker's URL and the query that tells it
/// the swarm, who asks, and how much is left to download.
pub open spec fn announce_url_of(
    base: Seq<char>,
    info_hash: Seq<u8>,
    peer_id: Seq<u8>,
    port: u16,
    left: u64,
) -> Seq<char> {
    base + "?info_hash="@ + percent_encoded(info_hash, info_hash.len()) + "&peer_id="@
        + percent_encoded(peer_id, peer_id.len()) + "&port="@ + decimal(port as nat)
        + "&uploaded=0&downloaded=0&left="@ + decimal(left as nat) + "&compact=1&event=started"@
}

/// The upper-case hexadecimal digit for `n`.
fn hex_char(n: u8) -> (c: char)
    requires
        n < 16,
    ensures
        c == hex_digit(n as int),
{
    if n < 10 {
        (48 + n) as char
    } else {
        (55 + n) as char
    }
}

/// Appends `bytes`, percent-encoded: every byte but the unreserved ones
/// as `%` and two upper-case hexadecimal digits.
pub fn push_percent_encoded(out: &mut String, bytes: &[u8])
    ensures
        final(out)@ == old(out)@ + percent_encoded(bytes@, bytes@.len()),
{
    let mut i: usize = 0;
    while i < bytes.len()
        invariant
            i <= bytes@.len(),
            out@ == old(out)@ + percent_encoded(bytes@, i as nat),
        decreases bytes@.len() - i,
    {
        let byte = bytes[i];
        let ghost before = out@;
        if (48 <= byte && byte <= 57) || (65 <= byte && byte <= 90) || (97 <= byte && byte <= 122)
            || byte == 45 || byte == 46 || byte == 95 || byte == 126 {
            push_char(out, byte as char);
            assert(out@ =~= before + encoded_byte(byte));
        } else {
            push_char(out, '%');
            push_char(out, hex_char(byte / 16));
            push_char(out, hex_char(byte % 16));
            assert(out@ =~= before + encoded_byte(byte));
        }
        assert(out@ =~= old(out)@ + percent_encoded(bytes@, (i + 1) as nat));
        i += 1;
    }
}

/// Appends `n` in decimal.
pub fn push_decimal(out: &mut String, n: u64)
    ensures
        final(out)@ == old(out)@ + decimal(n as nat),
    decreases n,
{
    if n >= 10 {
        push_decimal(out, n / 10);
    }
    let ghost before = out@;
    push_char(out, (48 + (n % 10) as u8) as char);
    assert(out@ =~= old(out)@ + decimal(n as nat));
}

/// A tracker that is reached over HTTP.
#[derive(Debug)]
pub struct HttpTracker {
    pub url: String,
}

impl HttpTracker {
    /// The tracker at `url`.
    pub fn new(url: &str) -> (tracker: HttpTracker)
        ensures
            tracker.url@ == url@,
    {
        HttpTracker { url: url.to_owned() }
    }

    /// The tracker's URL.
    pub fn url(&self) -> (url: &str)
        ensures
            url@ == self.url@,
    {
        self.url.as_str()
    }

    /// The URL to fetch for an announce to the swarm `info_hash` with
    /// `left` bytes still to download: the tracker's URL, then the query
    /// with the info hash and our peer id percent-encoded, our port, the
    /// counters, the compact form asked for and the event `started`.
    pub fn announce_url(&self, info_hash: &[u8], left: u64) -> (url: String)
        ensures
            url@ == announce_url_of(self.url@, info_hash@, PEER_ID@, LISTEN_PORT, left),
    {
        let mut url = self.url.clone();
        url.append("?info_hash=");
        push_percent_encoded(&mut url, info_hash);
        url.append("&peer_id=");
        push_percent_encoded(&mut url, PEER_ID.as_slice());
        url.append("&port=");
        push_decimal(&mut url, LISTEN_PORT as u64);
        url.append("&uploaded=0&downloaded=0&left=");
        push_decimal(&mut url, left);
        url.append("&compact=1&event=started");
        url
    }
}

} // verus!
