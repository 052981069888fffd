//! The error kinds the client distinguishes.

use vstd::prelude::*;

verus! {

/// Why an operation of the client failed.
#[derive(Clone, Copy, Debug, PartialEq, Eq, Structural)]
pub enum Error {
    /// The metainfo is inconsistent; fatal.
    MetainfoInvalid,
    /// A tracker could not be reached; retried on the next interval.
    TrackerUnreachable,
    /// A tracker answered with something that is no announce response.
    TrackerMalformed,
    /// A peer could not be connected to.
    PeerConnectFailed,
    /// The remote handshake names another swarm.
    HandshakeMismatch,
    /// The peer broke the wire protocol.
    PeerProtocolError,
    /// A finished piece did not match its expected hash.
    HashMismatch,
    /// A verified piece could not be written out.
    DiskWriteFailed,
}

/// How far a failure reaches.
#[derive(Clone, Copy, Debug, PartialEq, Eq, Structural)]
pub enum Reach {
    /// The client stops.
    Client,
    /// The task of one tracker ends.
    TrackerTask,
    /// The session with one peer ends.
    Session,
    /// Nothing ends: the failure is logged, and what failed is tried again
    /// or given up.
    Nothing,
}

impl Error {
    /// True for the kinds that end the whole client rather than one task.
    pub open spec fn spec_is_fatal(self) -> bool {
        self == Error::MetainfoInvalid
    }

    /// True for the kinds that end the whole client rather than one task.
    #[verifier::when_used_as_spec(spec_is_fatal)]
    pub fn is_fatal(self) -> (fatal: bool)
        ensures
            fatal == self.spec_is_fatal(),
    {
        match self {
            Error::MetainfoInvalid => true,
            _ => false,
        }
    }

    /// What the failure ends. An invalid metainfo stops the client; a
    /// malformed answer ends its tracker's task; a peer that cannot be
    /// connected to, names another swarm or breaks the protocol ends its
    /// session. A tracker out of reach is asked again, a piece that fails
    /// its hash is fetched again, and a piece that cannot be written is lost.
    pub open spec fn spec_reach(self) -> Reach {
        match self {
            Error::MetainfoInvalid => Reach::Client,
            Error::TrackerMalformed => Reach::TrackerTask,
            Error::PeerConnectFailed => Reach::Session,
            Error::HandshakeMismatch => Reach::Session,
            Error::PeerProtocolError => Reach::Session,
            Error::TrackerUnreachable => Reach::Nothing,
            Error::HashMismatch => Reach::Nothing,
            Error::DiskWriteFailed => Reach::Nothing,
        }
    }

    /// What the failure ends.
    #[verifier::when_used_as_spec(spec_reach)]
    pub fn reach(self) -> (reach: Reach)
        ensures
            reach == self.spec_reach(),
            self.spec_is_fatal() <==> reach == Reach::Client,
    {
        match self {
            Error::MetainfoInvalid => Reach::Client,
            Error::TrackerMalformed => Reach::TrackerTask,
            Error::PeerConnectFailed => Reach::Session,
            Error::HandshakeMismatch => Reach::Session,
            Error::PeerProtocolError => Reach::Session,
            Error::TrackerUnreachable => Reach::Nothing,
            Error::HashMismatch => Reach::Nothing,
            Error::DiskWriteFailed => Reach::Nothing,
        }
    }
}

} // verus!
