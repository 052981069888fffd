//! The swarm supervisor's rules: which trackers are asked, which peers are
//! new, and what a tracker's task does after each announce.

use crate::error::{Error, Reach};
use crate::peers::peer::{peers_of, PeerAddr};
use crate::torrent::Torrent;
use crate::trackers::{TrackerResponse, DEFAULT_INTERVAL};
use std::collections::HashSet;
use vstd::prelude::*;
use vstd::string::*;

verus! {

broadcast use vstd::std_specs::hash::group_hash_axioms;

/// True for the tracker URLs that are announced to: those that begin with `http`.
pub open spec fn is_http(url: Seq<char>) -> bool {
    &&& url.len() >= 4
    &&& url[0] == 'h'
    &&& url[1] == 't'
    &&& url[2] == 't'
    &&& url[3] == 'p'
}

/// The URLs among the first `n` of a tier that are announced to.
pub open spec fn accepted_in(tier: Seq<String>, n: nat) -> Seq<String>
    decreases n,
{
    if n == 0 {
        Seq::empty()
    } else if is_http(tier[n - 1]@) {
        accepted_in(tier, (n - 1) as nat).push(tier[n - 1])
    } else {
        accepted_in(tier, (n - 1) as nat)
    }
}

/// The URLs in the first `n` tiers that are announced to, tier by tier.
pub open spec fn accepted_urls(tiers: Seq<Vec<String>>, n: nat) -> Seq<String>
    decreases n,
{
    if n == 0 {
        Seq::empty()
    } else {
        accepted_urls(tiers, (n - 1) as nat) + accepted_in(tiers[n - 1]@, tiers[n - 1]@.len())
    }
}

/// True iff `url` begins with `http`.
pub fn accepts_url(url: &str) -> (accepted: bool)
    ensures
        accepted == is_http(url@),
{
    if url.unicode_len() < 4 {
        return false;
    }
    url.get_char(0) == 'h' && url.get_char(1) == 't' && url.get_char(2) == 't' && url.get_char(3)
        == 'p'
}

/// The trackers of a torrent that are announced to: the URLs of its
/// announce list, tier by tier, that begin with `http`.
pub fn tracker_urls(torrent: &Torrent) -> (urls: Vec<String>)
    ensures
        urls@ == match torrent.announce_list {
            Some(tiers) => accepted_urls(tiers@, tiers@.len()),
            None => Seq::empty(),
        },
{
    let mut urls: Vec<String> = Vec::new();
    match &torrent.announce_list {
        None => {},
        Some(tiers) => {
            let mut i: usize = 0;
            while i < tiers.len()
                invariant
                    i <= tiers@.len(),
                    urls@ == accepted_urls(tiers@, i as nat),
                decreases tiers@.len() - i,
            {
                let tier = &tiers[i];
                let ghost before = urls@;
                let mut j: usize = 0;
                while j < tier.len()
                    invariant
                        j <= tier@.len(),
                        urls@ == before + accepted_in(tier@, j as nat),
                    decreases tier@.len() - j,
                {
                    if accepts_url(tier[j].as_str()) {
                        urls.push(tier[j].clone());
                        assert(urls@ =~= before + accepted_in(tier@, (j + 1) as nat));
                    }
                    j += 1;
                }
                i += 1;
            }
        },
    }
    urls
}

/// The number that stands for an endpoint in the pool.
pub open spec fn key_of(addr: PeerAddr) -> u64 {
    (addr.ip as u64 * 65536 + addr.port as u64) as u64
}

/// The peers among the first `n` of `peers` that are new to `known`: not
/// in it, and not named earlier in `peers`.
pub open spec fn new_peers(known: Set<PeerAddr>, peers: Seq<PeerAddr>, n: nat) -> Seq<PeerAddr>
    decreases n,
{
    if n == 0 {
        Seq::empty()
    } else {
        let before = new_peers(known, peers, (n - 1) as nat);
        let addr = peers[n - 1];
        if known.contains(addr) || peers.subrange(0, n - 1).contains(addr) {
            before
        } else {
            before.push(addr)
        }
    }
}

/// The endpoints that the swarm has heard of. It only grows.
pub struct PeerPool {
    keys: HashSet<u64>,
}

impl View for PeerPool {
    type V = Set<PeerAddr>;

    closed spec fn view(&self) -> Set<PeerAddr> {
        Set::new(|addr: PeerAddr| self.keys@.contains(key_of(addr)))
    }
}

impl PeerPool {
    /// A pool that has heard of no peer.
    pub fn new() -> (pool: PeerPool)
        ensures
            pool@ == Set::<PeerAddr>::empty(),
    {
        let pool = PeerPool { keys: HashSet::new() };
        assert(pool@ =~= Set::<PeerAddr>::empty());
        pool
    }

    /// True iff the pool has heard of `addr`.
    pub fn contains(&self, addr: PeerAddr) -> (known: bool)
        ensures
            known == self@.contains(addr),
    {
        let key: u64 = (addr.ip as u64) * 65536 + addr.port as u64;
        self.keys.contains(&key)
    }

    /// Makes `addr` known; true iff it was not.
    pub fn insert(&mut self, addr: PeerAddr) -> (inserted: bool)
        ensures
            inserted == !old(self)@.contains(addr),
            final(self)@ == old(self)@.insert(addr),
            old(self)@.subset_of(final(self)@),
    {
        let key: u64 = (addr.ip as u64) * 65536 + addr.port as u64;
        let inserted = self.keys.insert(key);
        proof {
            assert forall|other: PeerAddr| key_of(other) == key_of(addr) implies other == addr by {
                lemma_key_of_injective(other, addr);
            }
            assert(self@ =~= old(self)@.insert(addr));
        }
        inserted
    }

    /// Makes every peer of `peers` known, and gives those that were new,
    /// each once, in the order in which `peers` names them.
    pub fn merge(&mut self, peers: &Vec<PeerAddr>) -> (added: Vec<PeerAddr>)
        ensures
            final(self)@ == old(self)@.union(peers@.to_set()),
            added@ == new_peers(old(self)@, peers@, peers@.len()),
            old(self)@.subset_of(final(self)@),
    {
        let mut added: Vec<PeerAddr> = Vec::new();
        let mut i: usize = 0;
        while i < peers.len()
            invariant
                i <= peers@.len(),
                self@ == old(self)@.union(peers@.subrange(0, i as int).to_set()),
                added@ == new_peers(old(self)@, peers@, i as nat),
            decreases peers@.len() - i,
        {
            let addr = peers[i];
            let ghost seen = peers@.subrange(0, i as int);
            let inserted = self.insert(addr);
            if inserted {
                added.push(addr);
            }
            proof {
                let wider = peers@.subrange(0, i + 1);
                assert(wider =~= seen.push(addr));
                assert(seen.to_set().contains(addr) <==> seen.contains(addr));
                assert forall|a: PeerAddr| wider.to_set().contains(a) <==> seen.to_set().contains(
                    a,
                ) || a == addr by {
                    if wider.contains(a) {
                        let j = choose|j: int| 0 <= j < wider.len() && wider[j] == a;
                        if j < seen.len() {
                            assert(seen[j] == a);
                        }
                    }
                    if seen.contains(a) {
                        let j = choose|j: int| 0 <= j < seen.len() && seen[j] == a;
                        assert(wider[j] == a);
                    }
                    if a == addr {
                        assert(wider[i as int] == a);
                    }
                }
                assert(self@ =~= old(self)@.union(wider.to_set()));
            }
            i += 1;
        }
        assert(peers@.subrange(0, peers@.len() as int) =~= peers@);
        added
    }
}

/// Different endpoints stand in the pool under different numbers.
pub proof fn lemma_key_of_injective(a: PeerAddr, b: PeerAddr)
    requires
        key_of(a) == key_of(b),
    ensures
        a == b,
{
}

/// What a tracker's task does next.
#[derive(Debug)]
pub enum TrackerStep {
    /// Start a session with each of these peers, then announce again after
    /// so many seconds.
    Continue(Vec<PeerAddr>, u64),
    /// End the task.
    Stop,
}

/// The task of one tracker: announce, take the peers in, wait, again.
#[derive(Debug)]
pub struct TrackerLoop {
    /// Seconds between announces, as the tracker last asked.
    interval: u64,
}

impl TrackerLoop {
    /// Seconds that the task waits where an announce fails.
    pub closed spec fn interval(&self) -> u64 {
        self.interval
    }

    /// A task that has not announced yet.
    pub fn new() -> (task: TrackerLoop)
        ensures
            task.interval() == DEFAULT_INTERVAL,
    {
        TrackerLoop { interval: DEFAULT_INTERVAL }
    }

    /// Takes in the answer to an announce: the peers that it names become
    /// known to the pool, a session is to be started with each that was
    /// new, and the next announce follows after the interval that the
    /// answer asks for.
    pub fn on_response(&mut self, pool: &mut PeerPool, response: &TrackerResponse) -> (step:
        TrackerStep)
        ensures
            final(pool)@ == old(pool)@.union(peers_of(response.peers).to_set()),
            old(pool)@.subset_of(final(pool)@),
            final(self).interval() == response.spec_announce_interval(),
            step matches TrackerStep::Continue(spawn, wait) && {
                &&& spawn@ == new_peers(
                    old(pool)@,
                    peers_of(response.peers),
                    peers_of(response.peers).len(),
                )
                &&& wait == response.spec_announce_interval()
            },
    {
        let peers = response.peer_addrs();
        let spawn = pool.merge(&peers);
        self.interval = response.announce_interval();
        TrackerStep::Continue(spawn, self.interval)
    }

    /// Takes in the failure of an announce: an answer that is malformed
    /// ends the task; after any other failure the task announces again
    /// once the last interval has passed.
    pub fn on_failure(&self, error: Error) -> (step: TrackerStep)
        ensures
            error.spec_reach() == Reach::TrackerTask ==> step is Stop,
            error.spec_reach() != Reach::TrackerTask ==> (step matches TrackerStep::Continue(
                spawn,
                wait,
            ) && spawn@.len() == 0 && wait == self.interval()),
    {
        match error.reach() {
            Reach::TrackerTask => TrackerStep::Stop,
            _ => TrackerStep::Continue(Vec::new(), self.interval),
        }
    }
}

} // verus!
