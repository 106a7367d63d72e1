//! The per-peer state machine that drives one reconciliation round to
//! completion or failure.

use vstd::prelude::*;
use crate::digest::AdDigest;
use crate::error::SyncError;
use crate::iblt::Iblt;
use crate::iblt::MAX_BANDS;
use crate::iblt::MAX_BUCKETS;
use crate::registry::AdRegistry;

verus! {

/// The phases of a reconciliation round.  `Idle` is both the initial and
/// the recurring post-success phase; `Failed` is terminal for the round and
/// reachable from any phase.
#[derive(Clone, Copy, PartialEq, Eq, Structural, Debug)]
pub enum Phase {
    Idle,
    FilterSent,
    FilterReceived,
    DiffComputed,
    Requesting,
    Settled,
    Failed,
}

/// A conceptual wire message of the reconciliation protocol.
pub enum Message {
    FilterAnnounce { m: usize, k: usize, seed: u64, inventory_size: usize, summary: Iblt },
    WantList { digests: Vec<AdDigest> },
    ItemPush { digest: AdDigest, payload: Vec<u8> },
    ItemNotFound { digest: AdDigest },
    SessionAbort { reason: SyncError },
}

/// Whether a phase is awaiting further protocol activity and therefore
/// subject to its deadline.
pub open spec fn phase_active(p: Phase) -> bool {
    p == Phase::FilterSent || p == Phase::FilterReceived || p == Phase::DiffComputed || p
        == Phase::Requesting
}

/// How handling the peer's summary ended: the diff is ready, the round
/// retries with a larger summary, or the round is aborted.
#[derive(Clone, Copy, PartialEq, Eq, Structural, Debug)]
pub enum DiffOutcome {
    Computed,
    Enlarged,
    Aborted,
}

/// One peer's reconciliation round.
pub struct SyncSession {
    pub phase: Phase,
    pub m: usize,
    pub k: usize,
    pub seed: u64,
    pub decode_retries: u32,
    pub max_decode_retries: u32,
    pub phase_timeout: u64,
    pub phase_deadline: u64,
    pub cooldown: u64,
    pub cooldown_until: u64,
    pub want: Vec<AdDigest>,
    pub have: Vec<AdDigest>,
}

impl SyncSession {
    /// Parameters stay within the summary's supported sizes.
    pub open spec fn wf(self) -> bool {
        &&& 1 <= self.k <= MAX_BANDS
        &&& self.k <= self.m <= MAX_BUCKETS
        &&& self.m as int % self.k as int == 0
    }

    /// A fresh session, idle and ready to be scheduled.
    pub fn new(m: usize, k: usize, seed: u64, phase_timeout: u64, cooldown: u64, max_decode_retries: u32) -> (r:
        SyncSession)
        requires
            1 <= k <= MAX_BANDS,
            k <= m <= MAX_BUCKETS,
            m as int % k as int == 0,
        ensures
            r.wf(),
            r.phase == Phase::Idle,
            r.m == m,
            r.k == k,
            r.seed == seed,
            r.decode_retries == 0,
            r.phase_timeout == phase_timeout,
            r.cooldown == cooldown,
            r.max_decode_retries == max_decode_retries,
    {
        SyncSession {
            phase: Phase::Idle,
            m,
            k,
            seed,
            decode_retries: 0,
            max_decode_retries,
            phase_timeout,
            phase_deadline: 0,
            cooldown,
            cooldown_until: 0,
            want: Vec::new(),
            have: Vec::new(),
        }
    }

    /// The scheduler trigger: the round begins by announcing the summary of
    /// the local inventory snapshot, with its size and build parameters, and
    /// the phase deadline starts running.
    pub fn start(&mut self, now: u64, inventory: &Vec<AdDigest>) -> (r: Message)
        requires
            old(self).wf(),
            old(self).phase == Phase::Idle,
            now + old(self).phase_timeout <= u64::MAX,
            inventory@.len() <= crate::iblt::MAX_OPS,
        ensures
            final(self).wf(),
            final(self).phase == Phase::FilterSent,
            final(self).phase_deadline == now + old(self).phase_timeout,
            final(self).decode_retries == old(self).decode_retries,
            final(self).m == old(self).m,
            final(self).k == old(self).k,
            final(self).seed == old(self).seed,
            r matches Message::FilterAnnounce { m, k, seed, inventory_size, summary } && m == old(
                self,
            ).m && k == old(self).k && seed == old(self).seed && inventory_size
                == inventory@.len() && summary.wf() && summary.model()
                == crate::iblt::spec_encode(
                crate::engine::pos_items(inventory@, old(self).seed),
                old(self).m as int,
                old(self).k as int,
                old(self).seed,
            ),
    {
        self.phase = Phase::FilterSent;
        self.phase_deadline = now + self.phase_timeout;
        let summary = crate::engine::build_iblt(inventory, self.m, self.k, self.seed);
        Message::FilterAnnounce {
            m: self.m,
            k: self.k,
            seed: self.seed,
            inventory_size: inventory.len(),
            summary,
        }
    }

    /// The peer's summary arrived while ours was outstanding.
    pub fn on_summary(&mut self)
        requires
            old(self).wf(),
            old(self).phase == Phase::FilterSent,
        ensures
            final(self).wf(),
            final(self).phase == Phase::FilterReceived,
            final(self).m == old(self).m,
            final(self).k == old(self).k,
            final(self).seed == old(self).seed,
            final(self).decode_retries == old(self).decode_retries,
            final(self).phase_deadline == old(self).phase_deadline,
    {
        self.phase = Phase::FilterReceived;
    }

    /// The local diff succeeded: record what to request and what to serve.
    pub fn on_diff_computed(&mut self, want: Vec<AdDigest>, have: Vec<AdDigest>)
        requires
            old(self).wf(),
            old(self).phase == Phase::FilterReceived,
        ensures
            final(self).wf(),
            final(self).phase == Phase::DiffComputed,
            final(self).want@ == want@,
            final(self).have@ == have@,
            final(self).m == old(self).m,
            final(self).k == old(self).k,
            final(self).seed == old(self).seed,
    {
        self.phase = Phase::DiffComputed;
        self.want = want;
        self.have = have;
    }

    /// The local diff was undecodable: loop back to announcing a summary
    /// with the bucket count doubled (up to the supported maximum), a
    /// bounded number of times; past the bound the round fails.
    pub fn on_undecodable(&mut self, now: u64)
        requires
            old(self).wf(),
            old(self).phase == Phase::FilterReceived,
            now + old(self).phase_timeout <= u64::MAX,
            now + old(self).cooldown <= u64::MAX,
        ensures
            final(self).wf(),
            final(self).m == old(self).m || final(self).m == 2 * old(self).m,
            old(self).decode_retries < old(self).max_decode_retries ==> {
                &&& final(self).phase == Phase::FilterSent
                &&& final(self).decode_retries == old(self).decode_retries + 1
                &&& (2 * old(self).m <= MAX_BUCKETS ==> final(self).m == 2 * old(self).m)
                &&& final(self).phase_deadline == now + old(self).phase_timeout
            },
            old(self).decode_retries >= old(self).max_decode_retries ==> {
                &&& final(self).phase == Phase::Failed
                &&& final(self).cooldown_until == now + old(self).cooldown
            },
    {
        if self.decode_retries < self.max_decode_retries {
            self.decode_retries = self.decode_retries + 1;
            if self.m <= MAX_BUCKETS / 2 {
                let grown = self.m * 2;
                proof {
                    let mi = self.m as int;
                    let ki = self.k as int;
                    let q = mi / ki;
                    vstd::arithmetic::div_mod::lemma_fundamental_div_mod(mi, ki);
                    assert(grown as int == (2 * q) * ki) by (nonlinear_arith)
                        requires
                            mi == ki * q + mi % ki,
                            mi % ki == 0,
                            grown == 2 * mi,
                    ;
                    vstd::arithmetic::div_mod::lemma_mod_multiples_basic(2 * q, ki);
                }
                self.m = grown;
            }
            self.phase = Phase::FilterSent;
            self.phase_deadline = now + self.phase_timeout;
        } else {
            self.phase = Phase::Failed;
            self.cooldown_until = now + self.cooldown;
        }
    }

    /// Whether a received summary was built with this session's parameters.
    pub open spec fn params_match(self, remote: Iblt) -> bool {
        self.k == remote.k && self.seed == remote.seed && self.m == remote.buckets@.len()
    }

    /// Handles the peer's summary once ours is out: builds the local
    /// summary from the inventory snapshot, diffs the two, and advances the
    /// round.
    ///
    /// A successful diff lands in `DiffComputed` with the digests to request
    /// in `want` and those to serve in `have`, both sorted.  An undecodable
    /// diff re-enters `FilterSent` with enlarged parameters while retries
    /// remain, and a summary with foreign parameters or an overfull budget
    /// aborts the round.
    pub fn on_remote_summary(&mut self, now: u64, inventory: &Vec<AdDigest>, remote: &Iblt) -> (r:
        DiffOutcome)
        requires
            old(self).wf(),
            old(self).phase == Phase::FilterReceived,
            remote.wf(),
            inventory@.len() <= crate::iblt::MAX_OPS,
            now + old(self).phase_timeout <= u64::MAX,
            now + old(self).cooldown <= u64::MAX,
        ensures
            final(self).wf(),
            match r {
                DiffOutcome::Computed => {
                    &&& final(self).phase == Phase::DiffComputed
                    &&& old(self).params_match(*remote)
                    &&& inventory@.len() + remote.ops <= crate::iblt::MAX_OPS
                    &&& crate::digest::digests_sorted(final(self).want@)
                    &&& crate::digest::digests_sorted(final(self).have@)
                    &&& exists|ds: Seq<crate::iblt::Decoded>|
                        {
                            &&& crate::iblt::spec_encode(
                                crate::iblt::items_of(ds),
                                old(self).m as int,
                                old(self).k as int,
                                old(self).seed,
                            ) == crate::iblt::state_sub(
                                crate::iblt::spec_encode(
                                    crate::engine::pos_items(inventory@, old(self).seed),
                                    old(self).m as int,
                                    old(self).k as int,
                                    old(self).seed,
                                ),
                                remote.model(),
                            )
                            &&& final(self).want@.to_multiset()
                                == crate::engine::signed_digests(ds, -1).to_multiset()
                            &&& final(self).have@.to_multiset() == crate::engine::signed_digests(
                                ds,
                                1,
                            ).to_multiset()
                        }
                },
                DiffOutcome::Enlarged => {
                    &&& final(self).phase == Phase::FilterSent
                    &&& old(self).decode_retries < old(self).max_decode_retries
                    &&& final(self).decode_retries == old(self).decode_retries + 1
                    &&& final(self).phase_deadline == now + old(self).phase_timeout
                },
                DiffOutcome::Aborted => {
                    &&& final(self).phase == Phase::Failed
                    &&& final(self).cooldown_until == now + old(self).cooldown
                    &&& (!old(self).params_match(*remote) || inventory@.len() + remote.ops
                        > crate::iblt::MAX_OPS || old(self).decode_retries >= old(
                        self,
                    ).max_decode_retries)
                },
            },
            !old(self).params_match(*remote) ==> r == DiffOutcome::Aborted,
            ({
                &&& old(self).params_match(*remote)
                &&& inventory@.len() + remote.ops <= crate::iblt::MAX_OPS
                &&& crate::iblt::spec_peels(
                    crate::iblt::state_sub(
                        crate::iblt::spec_encode(
                            crate::engine::pos_items(inventory@, old(self).seed),
                            old(self).m as int,
                            old(self).k as int,
                            old(self).seed,
                        ),
                        remote.model(),
                    ),
                    old(self).k as int,
                    old(self).seed,
                    (crate::iblt::MAX_OPS - inventory@.len() - remote.ops) as nat,
                )
            }) ==> r == DiffOutcome::Computed,
    {
        let local = crate::engine::build_iblt(inventory, self.m, self.k, self.seed);
        match crate::engine::diff(&local, remote) {
            Ok(res) => {
                let ghost ol = res.only_local@;
                let ghost orr = res.only_remote@;
                self.on_diff_computed(res.only_remote, res.only_local);
                proof {
                    let ds = choose|ds: Seq<crate::iblt::Decoded>|
                        {
                            &&& crate::iblt::spec_encode(
                                crate::iblt::items_of(ds),
                                local.spec_m(),
                                local.k as int,
                                local.seed,
                            ) == crate::iblt::state_sub(local.model(), remote.model())
                            &&& ol.to_multiset() == crate::engine::signed_digests(
                                ds,
                                1,
                            ).to_multiset()
                            &&& orr.to_multiset() == crate::engine::signed_digests(
                                ds,
                                -1,
                            ).to_multiset()
                        };
                    assert(crate::iblt::spec_encode(
                        crate::iblt::items_of(ds),
                        old(self).m as int,
                        old(self).k as int,
                        old(self).seed,
                    ) == crate::iblt::state_sub(
                        crate::iblt::spec_encode(
                            crate::engine::pos_items(inventory@, old(self).seed),
                            old(self).m as int,
                            old(self).k as int,
                            old(self).seed,
                        ),
                        remote.model(),
                    ));
                    assert(self.want@.to_multiset() == crate::engine::signed_digests(
                        ds,
                        -1,
                    ).to_multiset());
                    assert(self.have@.to_multiset() == crate::engine::signed_digests(
                        ds,
                        1,
                    ).to_multiset());
                }
                DiffOutcome::Computed
            },
            Err(e) => {
                if matches!(e, SyncError::Undecodable) {
                    self.on_undecodable(now);
                    let retrying = matches!(self.phase, Phase::FilterSent);
                    if retrying {
                        DiffOutcome::Enlarged
                    } else {
                        DiffOutcome::Aborted
                    }
                } else {
                    let _ = self.on_protocol_violation(now);
                    DiffOutcome::Aborted
                }
            },
        }
    }

    /// The want-list goes out; transfers begin.
    pub fn send_want(&mut self) -> (r: Message)
        requires
            old(self).wf(),
            old(self).phase == Phase::DiffComputed,
        ensures
            final(self).wf(),
            final(self).phase == Phase::Requesting,
            r matches Message::WantList { digests } && digests@ == old(self).want@,
            final(self).want@ == old(self).want@,
            final(self).have@ == old(self).have@,
    {
        self.phase = Phase::Requesting;
        let mut copy: Vec<AdDigest> = Vec::new();
        let n = self.want.len();
        let mut i: usize = 0;
        while i < n
            invariant
                i <= n,
                n == self.want@.len(),
                copy@ == self.want@.take(i as int),
            decreases n - i,
        {
            copy.push(self.want[i]);
            proof {
                assert(copy@ =~= self.want@.take(i + 1));
            }
            i += 1;
        }
        proof {
            assert(copy@ =~= self.want@);
        }
        Message::WantList { digests: copy }
    }

    /// Every requested item arrived or was given up on for this round: the
    /// round settles and the cool-down starts.
    pub fn on_items_done(&mut self, now: u64)
        requires
            old(self).wf(),
            old(self).phase == Phase::Requesting,
            now + old(self).cooldown <= u64::MAX,
        ensures
            final(self).wf(),
            final(self).phase == Phase::Settled,
            final(self).cooldown_until == now + old(self).cooldown,
    {
        self.phase = Phase::Settled;
        self.cooldown_until = now + self.cooldown;
    }

    /// A malformed or oversized message from the peer fails the round; the
    /// round is torn down with an abort message naming the violation.
    pub fn on_protocol_violation(&mut self, now: u64) -> (r: Message)
        requires
            old(self).wf(),
            now + old(self).cooldown <= u64::MAX,
        ensures
            final(self).wf(),
            final(self).phase == Phase::Failed,
            final(self).cooldown_until == now + old(self).cooldown,
            r matches Message::SessionAbort { reason } && reason == SyncError::ProtocolViolation,
    {
        self.phase = Phase::Failed;
        self.cooldown_until = now + self.cooldown;
        Message::SessionAbort { reason: SyncError::ProtocolViolation }
    }

    /// A deadline check: an active phase whose deadline has elapsed moves to
    /// `Failed`; otherwise nothing changes.
    pub fn on_tick(&mut self, now: u64) -> (timed_out: bool)
        requires
            old(self).wf(),
            now + old(self).cooldown <= u64::MAX,
        ensures
            final(self).wf(),
            timed_out == (phase_active(old(self).phase) && now >= old(self).phase_deadline),
            timed_out ==> final(self).phase == Phase::Failed && final(self).cooldown_until == now
                + old(self).cooldown,
            !timed_out ==> *final(self) == *old(self),
    {
        let active = match self.phase {
            Phase::FilterSent => true,
            Phase::FilterReceived => true,
            Phase::DiffComputed => true,
            Phase::Requesting => true,
            _ => false,
        };
        if active && now >= self.phase_deadline {
            self.phase = Phase::Failed;
            self.cooldown_until = now + self.cooldown;
            true
        } else {
            false
        }
    }

    /// Whether the session may be scheduled again: settled or failed rounds
    /// become eligible once their cool-down has elapsed.
    pub fn retryable(&self, now: u64) -> (r: bool)
        ensures
            r == ((self.phase == Phase::Settled || self.phase == Phase::Failed) && now
                >= self.cooldown_until),
    {
        let done = match self.phase {
            Phase::Settled => true,
            Phase::Failed => true,
            _ => false,
        };
        done && now >= self.cooldown_until
    }

    /// Returns a settled or failed session to `Idle` once its cool-down has
    /// elapsed, ready for the next scheduled round.
    pub fn reset(&mut self, now: u64)
        requires
            old(self).wf(),
            old(self).phase == Phase::Settled || old(self).phase == Phase::Failed,
            now >= old(self).cooldown_until,
        ensures
            final(self).wf(),
            final(self).phase == Phase::Idle,
            final(self).decode_retries == 0,
            final(self).m == old(self).m,
            final(self).k == old(self).k,
            final(self).seed == old(self).seed,
    {
        self.phase = Phase::Idle;
        self.decode_retries = 0;
        self.want = Vec::new();
        self.have = Vec::new();
    }
}

/// Whether one reply message correctly answers a request for digest `d`
/// against the given registry: a push carries the stored payload for a
/// known digest, a not-found reports an unknown one.
pub open spec fn answers(msg: Message, d: AdDigest, reg: AdRegistry) -> bool {
    match msg {
        Message::ItemPush { digest, payload } => {
            &&& digest == d
            &&& reg.spec_has(d)
            &&& exists|j: int|
                0 <= j < reg.ads@.len() && (#[trigger] reg.ads@[j]).digest == d && payload@
                    == reg.ads@[j].payload@
        },
        Message::ItemNotFound { digest } => digest == d && !reg.spec_has(d),
        _ => false,
    }
}

/// Serves a peer's want-list from the registry: every requested digest is
/// answered, with its payload when it is known locally and with a benign
/// `ItemNotFound` when it is not — a missing item never fails the session.
pub fn serve_want_list(reg: &AdRegistry, want: &Vec<AdDigest>) -> (r: Vec<Message>)
    ensures
        r@.len() == want@.len(),
        forall|i: int| 0 <= i < want@.len() ==> answers(#[trigger] r@[i], want@[i], *reg),
{
    let n = want.len();
    let mut r: Vec<Message> = Vec::new();
    let mut i: usize = 0;
    while i < n
        invariant
            i <= n,
            n == want@.len(),
            r@.len() == i,
            forall|j: int| 0 <= j < i ==> answers(#[trigger] r@[j], want@[j], *reg),
        decreases n - i,
    {
        let d = want[i];
        match reg.get_payload(d) {
            Some(payload) => {
                r.push(Message::ItemPush { digest: d, payload });
            },
            None => {
                r.push(Message::ItemNotFound { digest: d });
            },
        }
        i += 1;
    }
    r
}

} // verus!
