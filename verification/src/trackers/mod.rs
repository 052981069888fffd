//! Trackers: what is asked of them and what they answer.

pub mod http;

use crate::error::Error;
use crate::peers::peer::{find_key, parse_peers, peers_of, position_of, PeerAddr, Value};
use vstd::prelude::*;

verus! {

/// Seconds to wait between announces where the tracker names none.
pub const DEFAULT_INTERVAL: u64 = 120;

/// The answer of a tracker to an announce.
#[derive(Debug)]
pub struct TrackerResponse {
    /// Seconds that the tracker asks to wait before the next announce.
    pub interval: Option<u64>,
    /// The peers that the tracker names, in either of its two forms.
    pub peers: Value,
}

/// The key `interval` of a tracker response.
pub open spec fn key_interval() -> Seq<u8> {
    seq![105u8, 110u8, 116u8, 101u8, 114u8, 118u8, 97u8, 108u8]
}

/// The key `peers` of a tracker response.
pub open spec fn key_peers() -> Seq<u8> {
    seq![112u8, 101u8, 101u8, 114u8, 115u8]
}

/// The interval that a decoded response names: none where it has no
/// `interval`, an error where that is no integer or is negative.
pub open spec fn interval_of(entries: Seq<(Vec<u8>, Value)>) -> Result<Option<u64>, Error> {
    match find_key(entries, key_interval(), 0) {
        None => Ok(None),
        Some(i) => match entries[i].1 {
            Value::Int(seconds) => if seconds >= 0 {
                Ok(Some(seconds as u64))
            } else {
                Err(Error::TrackerMalformed)
            },
            _ => Err(Error::TrackerMalformed),
        },
    }
}

/// The response that a decoded value stands for: a dictionary with a
/// `peers` entry and, if any, an `interval` that is an integer and not
/// negative. Anything else is malformed.
pub open spec fn response_of(value: Value) -> Result<TrackerResponse, Error> {
    match value {
        Value::Dict(entries) => match (
            interval_of(entries@),
            find_key(entries@, key_peers(), 0),
        ) {
            (Ok(interval), Some(p)) => Ok(TrackerResponse { interval, peers: entries@[p].1 }),
            _ => Err(Error::TrackerMalformed),
        },
        _ => Err(Error::TrackerMalformed),
    }
}

impl TrackerResponse {
    /// Reads a response out of the value that the tracker's answer decodes
    /// to. `TrackerMalformed` unless it is a dictionary with a `peers` entry
    /// and no `interval` other than a non-negative integer.
    pub fn from_value(value: Value) -> (read: Result<TrackerResponse, Error>)
        ensures
            read == response_of(value),
    {
        let key_interval: [u8; 8] = [105, 110, 116, 101, 114, 118, 97, 108];
        let key_peers: [u8; 5] = [112, 101, 101, 114, 115];
        assert(key_interval@ =~= self::key_interval());
        assert(key_peers@ =~= self::key_peers());
        match value {
            Value::Dict(mut entries) => {
                let interval = match position_of(&entries, key_interval.as_slice()) {
                    None => None,
                    Some(i) => match &entries[i].1 {
                        Value::Int(seconds) => {
                            if *seconds >= 0 {
                                Some(*seconds as u64)
                            } else {
                                return Err(Error::TrackerMalformed);
                            }
                        },
                        _ => {
                            return Err(Error::TrackerMalformed);
                        },
                    },
                };
                match position_of(&entries, key_peers.as_slice()) {
                    None => Err(Error::TrackerMalformed),
                    Some(p) => {
                        let (_, peers) = entries.swap_remove(p);
                        Ok(TrackerResponse { interval, peers })
                    },
                }
            },
            _ => Err(Error::TrackerMalformed),
        }
    }

    /// Seconds to wait before the next announce: what the tracker names,
    /// or the default where it names none or zero.
    pub open spec fn spec_announce_interval(&self) -> u64 {
        match self.interval {
            Some(seconds) => if seconds == 0 {
                DEFAULT_INTERVAL
            } else {
                seconds
            },
            None => DEFAULT_INTERVAL,
        }
    }

    /// Seconds to wait before the next announce: what the tracker names,
    /// or the default where it names none or zero.
    #[verifier::when_used_as_spec(spec_announce_interval)]
    pub fn announce_interval(&self) -> (seconds: u64)
        ensures
            seconds == self.spec_announce_interval(),
    {
        match self.interval {
            Some(seconds) => if seconds == 0 {
                DEFAULT_INTERVAL
            } else {
                seconds
            },
            None => DEFAULT_INTERVAL,
        }
    }

    /// The peers that the response names.
    pub fn peer_addrs(&self) -> (peers: Vec<PeerAddr>)
        ensures
            peers@ == peers_of(self.peers),
    {
        parse_peers(&self.peers)
    }
}

} // verus!
