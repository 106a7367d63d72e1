//! The gossip scheduler: selects peers for reconciliation rounds, paced by
//! per-peer intervals, weighted by reliability, and capped in concurrency.

use vstd::prelude::*;

verus! {

/// Reliability scores are clamped to this magnitude.
pub const MAX_RELIABILITY: i64 = 1000000;

/// Largest number of peers the scheduler tracks.
pub const MAX_PEERS: usize = 1000000;

/// One tracked peer: its identity, its reliability score (raised on settled
/// rounds, lowered on failed ones), when it next becomes eligible, and
/// whether a session with it is running.
#[derive(Clone, Copy, PartialEq, Eq, Structural, Debug)]
pub struct PeerEntry {
    pub id: u64,
    pub reliability: i64,
    pub next_eligible: u64,
    pub active: bool,
}

/// A peer may be picked when no session with it runs and its pacing
/// interval has elapsed.
pub open spec fn eligible(p: PeerEntry, now: u64) -> bool {
    !p.active && p.next_eligible <= now
}

/// Selection weight: strictly positive, higher for more reliable peers.
pub open spec fn spec_weight(p: PeerEntry) -> int {
    p.reliability + MAX_RELIABILITY + 1
}

/// Total selection weight of the eligible peers of a sequence.
pub open spec fn wsum(s: Seq<PeerEntry>, now: u64) -> int
    decreases s.len(),
{
    if s.len() == 0 {
        0
    } else {
        wsum(s.drop_last(), now) + if eligible(s.last(), now) {
            spec_weight(s.last())
        } else {
            0
        }
    }
}

/// A zero total weight means no peer of the sequence is eligible.
proof fn lemma_wsum_zero(s: Seq<PeerEntry>, now: u64)
    requires
        forall|i: int|
            0 <= i < s.len() ==> -MAX_RELIABILITY <= (#[trigger] s[i]).reliability
                <= MAX_RELIABILITY,
        wsum(s, now) == 0,
    ensures
        forall|i: int| 0 <= i < s.len() ==> !eligible(#[trigger] s[i], now),
    decreases s.len(),
{
    if s.len() > 0 {
        lemma_wsum_nonneg(s.drop_last(), now);
        lemma_wsum_zero(s.drop_last(), now);
        assert forall|i: int| 0 <= i < s.len() implies !eligible(#[trigger] s[i], now) by {
            if i < s.len() - 1 {
                assert(s.drop_last()[i] == s[i]);
            }
        }
    }
}

/// Total weights are never negative and grow at most linearly.
proof fn lemma_wsum_nonneg(s: Seq<PeerEntry>, now: u64)
    requires
        forall|i: int|
            0 <= i < s.len() ==> -MAX_RELIABILITY <= (#[trigger] s[i]).reliability
                <= MAX_RELIABILITY,
    ensures
        0 <= wsum(s, now) <= s.len() * (2 * MAX_RELIABILITY + 1),
    decreases s.len(),
{
    if s.len() > 0 {
        assert forall|i: int|
            0 <= i < s.drop_last().len() implies -MAX_RELIABILITY <= (
        #[trigger] s.drop_last()[i]).reliability <= MAX_RELIABILITY by {
            assert(s.drop_last()[i] == s[i]);
        }
        lemma_wsum_nonneg(s.drop_last(), now);
    }
}

/// The gossip scheduler and the peer states it owns.
pub struct GossipScheduler {
    pub peers: Vec<PeerEntry>,
    pub max_concurrent: usize,
    pub min_interval: u64,
}

impl GossipScheduler {
    /// Peer identities are unique, scores stay clamped, and the peer table
    /// is bounded.
    pub open spec fn wf(self) -> bool {
        &&& self.max_concurrent >= 1
        &&& self.peers@.len() <= MAX_PEERS
        &&& forall|i: int, j: int|
            0 <= i < j < self.peers@.len() ==> (#[trigger] self.peers@[i]).id != (
            #[trigger] self.peers@[j]).id
        &&& forall|i: int|
            0 <= i < self.peers@.len() ==> -MAX_RELIABILITY <= (
            #[trigger] self.peers@[i]).reliability <= MAX_RELIABILITY
    }

    /// Whether a peer is tracked.
    pub open spec fn spec_has_peer(self, id: u64) -> bool {
        exists|i: int| 0 <= i < self.peers@.len() && (#[trigger] self.peers@[i]).id == id
    }

    /// Number of running sessions.
    pub open spec fn spec_active_count(self) -> int {
        self.peers@.filter(|p: PeerEntry| p.active).len() as int
    }

    /// A scheduler with no peers yet.
    pub fn new(max_concurrent: usize, min_interval: u64) -> (r: GossipScheduler)
        requires
            max_concurrent >= 1,
        ensures
            r.wf(),
            r.peers@.len() == 0,
            r.max_concurrent == max_concurrent,
            r.min_interval == min_interval,
    {
        GossipScheduler { peers: Vec::new(), max_concurrent, min_interval }
    }

    /// Index of a tracked peer.
    fn find(&self, id: u64) -> (r: Option<usize>)
        ensures
            match r {
                Some(i) => i < self.peers@.len() && self.peers@[i as int].id == id,
                None => !self.spec_has_peer(id),
            },
    {
        let n = self.peers.len();
        let mut i: usize = 0;
        while i < n
            invariant
                i <= n,
                n == self.peers@.len(),
                forall|j: int| 0 <= j < i ==> (#[trigger] self.peers@[j]).id != id,
            decreases n - i,
        {
            if self.peers[i].id == id {
                return Some(i);
            }
            i += 1;
        }
        None
    }

    /// Tracks a newly connected peer; re-registering is a no-op.
    pub fn register(&mut self, id: u64, now: u64)
        requires
            old(self).wf(),
            old(self).peers@.len() < MAX_PEERS,
        ensures
            final(self).wf(),
            final(self).spec_has_peer(id),
            final(self).max_concurrent == old(self).max_concurrent,
            final(self).min_interval == old(self).min_interval,
            old(self).spec_has_peer(id) ==> *final(self) == *old(self),
            !old(self).spec_has_peer(id) ==> final(self).peers@ == old(self).peers@.push(
                PeerEntry { id, reliability: 0, next_eligible: now, active: false },
            ),
    {
        match self.find(id) {
            Some(at) => {
                proof {
                    assert(self.peers@[at as int].id == id);
                }
            },
            None => {
                self.peers.push(PeerEntry { id, reliability: 0, next_eligible: now, active: false });
                proof {
                    assert(self.peers@[self.peers@.len() - 1].id == id);
                }
            },
        }
    }

    /// Stops tracking a disconnected peer; its session state dies with it.
    pub fn unregister(&mut self, id: u64)
        requires
            old(self).wf(),
        ensures
            final(self).wf(),
            !final(self).spec_has_peer(id),
            old(self).spec_has_peer(id) ==> exists|j: int|
                0 <= j < old(self).peers@.len() && (#[trigger] old(self).peers@[j]).id == id
                    && final(self).peers@ == old(self).peers@.remove(j),
            !old(self).spec_has_peer(id) ==> *final(self) == *old(self),
    {
        match self.find(id) {
            Some(i) => {
                self.peers.remove(i);
                proof {
                    let oldp = old(self).peers@;
                    assert forall|p: int|
                        0 <= p < self.peers@.len() implies (#[trigger] self.peers@[p]).id
                        != id by {
                        assert(self.peers@[p] == if p < i {
                            oldp[p]
                        } else {
                            oldp[p + 1]
                        });
                    }
                }
            },
            None => {},
        }
    }

    /// A round with the peer settled: its reliability rises (clamped), its
    /// session slot frees, and its pacing interval restarts.
    pub fn note_settled(&mut self, id: u64, now: u64)
        requires
            old(self).wf(),
            now + old(self).min_interval <= u64::MAX,
        ensures
            final(self).wf(),
            old(self).spec_has_peer(id) ==> exists|j: int|
                {
                    &&& 0 <= j < old(self).peers@.len()
                    &&& (#[trigger] old(self).peers@[j]).id == id
                    &&& final(self).peers@ == old(self).peers@.update(
                        j,
                        PeerEntry {
                            id,
                            reliability: if old(self).peers@[j].reliability < MAX_RELIABILITY {
                                (old(self).peers@[j].reliability + 1) as i64
                            } else {
                                old(self).peers@[j].reliability
                            },
                            next_eligible: (now + old(self).min_interval) as u64,
                            active: false,
                        },
                    )
                },
            !old(self).spec_has_peer(id) ==> *final(self) == *old(self),
    {
        match self.find(id) {
            Some(i) => {
                let p = self.peers[i];
                let nr: i64 = if p.reliability < MAX_RELIABILITY {
                    p.reliability + 1
                } else {
                    p.reliability
                };
                self.peers.set(
                    i,
                    PeerEntry {
                        id,
                        reliability: nr,
                        next_eligible: now + self.min_interval,
                        active: false,
                    },
                );
            },
            None => {},
        }
    }

    /// A round with the peer failed: its reliability drops (clamped), its
    /// session slot frees, and its pacing interval restarts.
    pub fn note_failed(&mut self, id: u64, now: u64)
        requires
            old(self).wf(),
            now + old(self).min_interval <= u64::MAX,
        ensures
            final(self).wf(),
            old(self).spec_has_peer(id) ==> exists|j: int|
                {
                    &&& 0 <= j < old(self).peers@.len()
                    &&& (#[trigger] old(self).peers@[j]).id == id
                    &&& final(self).peers@ == old(self).peers@.update(
                        j,
                        PeerEntry {
                            id,
                            reliability: if old(self).peers@[j].reliability > -MAX_RELIABILITY {
                                (old(self).peers@[j].reliability - 1) as i64
                            } else {
                                old(self).peers@[j].reliability
                            },
                            next_eligible: (now + old(self).min_interval) as u64,
                            active: false,
                        },
                    )
                },
            !old(self).spec_has_peer(id) ==> *final(self) == *old(self),
    {
        match self.find(id) {
            Some(i) => {
                let p = self.peers[i];
                let nr: i64 = if p.reliability > -MAX_RELIABILITY {
                    p.reliability - 1
                } else {
                    p.reliability
                };
                self.peers.set(
                    i,
                    PeerEntry {
                        id,
                        reliability: nr,
                        next_eligible: now + self.min_interval,
                        active: false,
                    },
                );
            },
            None => {},
        }
    }

    /// Number of running sessions.
    pub fn active_count(&self) -> (r: usize)
        ensures
            r == self.spec_active_count(),
    {
        let n = self.peers.len();
        let mut cnt: usize = 0;
        let mut i: usize = 0;
        while i < n
            invariant
                i <= n,
                n == self.peers@.len(),
                cnt <= i,
                cnt == self.peers@.take(i as int).filter(|p: PeerEntry| p.active).len(),
            decreases n - i,
        {
            proof {
                let pr = |p: PeerEntry| p.active;
                assert(self.peers@.take(i + 1).drop_last() =~= self.peers@.take(i as int));
                reveal_with_fuel(Seq::filter, 2);
                self.peers@.take(i as int).lemma_filter_len(pr);
            }
            if self.peers[i].active {
                cnt = cnt + 1;
            }
            i += 1;
        }
        proof {
            assert(self.peers@.take(n as int) =~= self.peers@);
        }
        cnt
    }

    /// Picks a peer for the next round: a weighted draw over the eligible
    /// peers, driven by a caller-supplied random value, honouring the
    /// concurrency cap.  The picked peer's session slot is taken.
    pub fn select(&mut self, now: u64, rand: u64) -> (r: Option<u64>)
        requires
            old(self).wf(),
        ensures
            final(self).wf(),
            final(self).max_concurrent == old(self).max_concurrent,
            final(self).min_interval == old(self).min_interval,
            match r {
                Some(id) => {
                    &&& old(self).spec_active_count() < old(self).max_concurrent
                    &&& exists|j: int|
                        {
                            &&& 0 <= j < old(self).peers@.len()
                            &&& (#[trigger] old(self).peers@[j]).id == id
                            &&& eligible(old(self).peers@[j], now)
                            &&& final(self).peers@ == old(self).peers@.update(
                                j,
                                PeerEntry { active: true, ..old(self).peers@[j] },
                            )
                        }
                },
                None => {
                    &&& *final(self) == *old(self)
                    &&& (old(self).spec_active_count() >= old(self).max_concurrent || forall|
                        i: int,
                    |
                        0 <= i < old(self).peers@.len() ==> !eligible(
                            #[trigger] old(self).peers@[i],
                            now,
                        ))
                },
            },
    {
        if self.active_count() >= self.max_concurrent {
            return None;
        }
        let n = self.peers.len();
        let mut total: u64 = 0;
        let mut i: usize = 0;
        while i < n
            invariant
                i <= n,
                n == self.peers@.len(),
                self.wf(),
                total == wsum(self.peers@.take(i as int), now),
            decreases n - i,
        {
            proof {
                let s1 = self.peers@.take(i + 1);
                assert(s1.drop_last() =~= self.peers@.take(i as int));
                assert(s1.last() == self.peers@[i as int]);
                assert forall|j: int|
                    0 <= j < s1.len() implies -MAX_RELIABILITY <= (#[trigger] s1[j]).reliability
                        <= MAX_RELIABILITY by {
                    assert(s1[j] == self.peers@[j]);
                }
                lemma_wsum_nonneg(s1, now);
            }
            let p = self.peers[i];
            if !p.active && p.next_eligible <= now {
                total = total + ((p.reliability + MAX_RELIABILITY + 1) as u64);
            }
            i += 1;
        }
        proof {
            assert(self.peers@.take(n as int) =~= self.peers@);
        }
        if total == 0 {
            proof {
                lemma_wsum_zero(self.peers@, now);
            }
            return None;
        }
        let r = rand % total;
        let mut acc: u64 = 0;
        let mut i: usize = 0;
        while i < n
            invariant
                i <= n,
                n == self.peers@.len(),
                self.wf(),
                acc == wsum(self.peers@.take(i as int), now),
                acc <= r,
                r < total,
                total == wsum(self.peers@, now),
                self.max_concurrent == old(self).max_concurrent,
                self.min_interval == old(self).min_interval,
                *self == *old(self),
                old(self).spec_active_count() < old(self).max_concurrent,
            decreases n - i,
        {
            proof {
                let s1 = self.peers@.take(i + 1);
                assert(s1.drop_last() =~= self.peers@.take(i as int));
                assert(s1.last() == self.peers@[i as int]);
                assert forall|j: int|
                    0 <= j < s1.len() implies -MAX_RELIABILITY <= (#[trigger] s1[j]).reliability
                        <= MAX_RELIABILITY by {
                    assert(s1[j] == self.peers@[j]);
                }
                lemma_wsum_nonneg(s1, now);
                lemma_wsum_nonneg(self.peers@, now);
            }
            let p = self.peers[i];
            if !p.active && p.next_eligible <= now {
                let w = (p.reliability + MAX_RELIABILITY + 1) as u64;
                if r < acc + w {
                    self.peers.set(i, PeerEntry { active: true, ..p });
                    proof {
                        assert(old(self).peers@[i as int].id == p.id);
                        assert(self.peers@ == old(self).peers@.update(
                            i as int,
                            PeerEntry { active: true, ..old(self).peers@[i as int] },
                        ));
                    }
                    return Some(p.id);
                }
                acc = acc + w;
            }
            i += 1;
        }
        proof {
            assert(self.peers@.take(n as int) =~= self.peers@);
            assert(acc == total);
            assert(false);
        }
        None
    }
}

} // verus!
