//! The reconciliation engine: builds a summary from an inventory snapshot
//! and computes a verified symmetric difference between two summaries.

use vstd::prelude::*;
use crate::digest::AdDigest;
use crate::digest::digests_sorted;
use crate::digest::sort_digests;
use crate::error::SyncError;
use crate::iblt::Decoded;
use crate::iblt::Iblt;
use crate::iblt::MAX_BANDS;
use crate::iblt::MAX_BUCKETS;
use crate::iblt::MAX_OPS;
use crate::iblt::SignedItem;
use crate::iblt::items_of;
use crate::iblt::lemma_encode_push;
use crate::iblt::lemma_sub_encode;
use crate::iblt::neg_items;
use crate::iblt::spec_encode;
use crate::iblt::spec_valhash;
use crate::iblt::spec_peels;
use crate::iblt::state_sub;

verus! {

/// The signed items that an inventory snapshot contributes to a summary:
/// each digest once, positively, with its value checksum derived from its
/// low word.
pub open spec fn pos_items(inv: Seq<AdDigest>, seed: u64) -> Seq<SignedItem> {
    inv.map_values(|d: AdDigest| SignedItem { d, c: spec_valhash(seed, d.lo), sign: 1 })
}

/// The digests of the decoded entries that carry the given sign.
pub open spec fn signed_digests(ds: Seq<Decoded>, sign: int) -> Seq<AdDigest> {
    ds.filter(|x: Decoded| x.sign as int == sign).map_values(|x: Decoded| x.digest)
}

/// Builds the summary of an inventory snapshot: a deterministic function of
/// the snapshot and the parameters, reproducible given the same seed.
pub fn build_iblt(inv: &Vec<AdDigest>, m: usize, k: usize, seed: u64) -> (r: Iblt)
    requires
        1 <= k <= MAX_BANDS,
        k <= m <= MAX_BUCKETS,
        m as int % k as int == 0,
        inv@.len() <= MAX_OPS,
    ensures
        r.wf(),
        r.k == k,
        r.seed == seed,
        r.buckets@.len() == m,
        r.ops == inv@.len(),
        r.model() == spec_encode(pos_items(inv@, seed), m as int, k as int, seed),
{
    let mut ib = Iblt::new(m, k, seed);
    let n = inv.len();
    let mut i: usize = 0;
    while i < n
        invariant
            i <= n,
            n == inv@.len(),
            n <= MAX_OPS,
            ib.wf(),
            ib.k == k,
            ib.seed == seed,
            ib.buckets@.len() == m,
            ib.ops == i,
            1 <= k <= MAX_BANDS,
            k <= m <= MAX_BUCKETS,
            ib.model() == spec_encode(pos_items(inv@.take(i as int), seed), m as int, k as int, seed),
        decreases n - i,
    {
        let d = inv[i];
        let ghost before = pos_items(inv@.take(i as int), seed);
        ib.insert(d, d.lo);
        proof {
            let it = SignedItem { d, c: spec_valhash(seed, d.lo), sign: 1 };
            assert(pos_items(inv@.take(i + 1), seed) =~= before.push(it));
            lemma_encode_push(before, it, m as int, k as int, seed);
        }
        i += 1;
    }
    proof {
        assert(inv@.take(n as int) =~= inv@);
    }
    ib
}

/// The two sides of a computed symmetric difference, each sorted ascending
/// for determinism.
pub struct DiffResult {
    pub only_local: Vec<AdDigest>,
    pub only_remote: Vec<AdDigest>,
}

/// Subtracts and decodes two summaries.
///
/// On success the decoded signed entries explain the bucket-wise difference
/// of the two summaries exactly, the positive digests land in `only_local`
/// and the negative ones in `only_remote`, both sorted ascending.  Errors
/// say exactly why: incompatible parameters are a protocol violation,
/// overfull summaries exhaust the operation budget, and a failed peel is
/// `Undecodable` — never a silently partial result.
pub fn diff(local: &Iblt, remote: &Iblt) -> (r: Result<DiffResult, SyncError>)
    requires
        local.wf(),
        remote.wf(),
    ensures
        match r {
            Ok(res) => {
                &&& local.compatible(*remote)
                &&& local.ops + remote.ops <= MAX_OPS
                &&& digests_sorted(res.only_local@)
                &&& digests_sorted(res.only_remote@)
                &&& exists|ds: Seq<Decoded>|
                    {
                        &&& spec_encode(items_of(ds), local.spec_m(), local.k as int, local.seed)
                            == state_sub(local.model(), remote.model())
                        &&& res.only_local@.to_multiset() == signed_digests(ds, 1).to_multiset()
                        &&& res.only_remote@.to_multiset() == signed_digests(
                            ds,
                            -1,
                        ).to_multiset()
                    }
            },
            Err(e) => {
                &&& (e == SyncError::ProtocolViolation || e == SyncError::ResourceExhausted || e
                    == SyncError::Undecodable)
                &&& (e == SyncError::ProtocolViolation <==> !local.compatible(*remote))
                &&& (e == SyncError::ResourceExhausted <==> local.compatible(*remote)
                    && local.ops + remote.ops > MAX_OPS)
                &&& (e == SyncError::Undecodable ==> local.compatible(*remote) && local.ops
                    + remote.ops <= MAX_OPS)
            },
        },
        r is Ok <==> {
            &&& local.compatible(*remote)
            &&& local.ops + remote.ops <= MAX_OPS
            &&& spec_peels(
                state_sub(local.model(), remote.model()),
                local.k as int,
                local.seed,
                (MAX_OPS - local.ops - remote.ops) as nat,
            )
        },
{
    if local.k != remote.k || local.seed != remote.seed || local.buckets.len()
        != remote.buckets.len() {
        return Err(SyncError::ProtocolViolation);
    }
    if local.ops > MAX_OPS - remote.ops {
        return Err(SyncError::ResourceExhausted);
    }
    let sub = local.subtract(remote);
    let dec = match sub.decode() {
        Ok(v) => v,
        Err(_) => {
            return Err(SyncError::Undecodable);
        },
    };
    let mut only_local: Vec<AdDigest> = Vec::new();
    let mut only_remote: Vec<AdDigest> = Vec::new();
    let n = dec.len();
    let mut i: usize = 0;
    while i < n
        invariant
            i <= n,
            n == dec@.len(),
            only_local@ == signed_digests(dec@.take(i as int), 1),
            only_remote@ == signed_digests(dec@.take(i as int), -1),
            forall|j: int|
                0 <= j < n ==> (#[trigger] dec@[j]).sign == 1 || dec@[j].sign == -1i64,
        decreases n - i,
    {
        let x = dec[i];
        proof {
            let keep_pos = |y: Decoded| y.sign as int == 1;
            let keep_neg = |y: Decoded| y.sign as int == -1;
            assert(dec@.take(i + 1).drop_last() =~= dec@.take(i as int));
            assert(dec@.take(i + 1).last() == x);
            reveal_with_fuel(Seq::filter, 2);
            assert(dec@.take(i + 1).filter(keep_pos) == if keep_pos(x) {
                dec@.take(i as int).filter(keep_pos).push(x)
            } else {
                dec@.take(i as int).filter(keep_pos)
            });
            assert(dec@.take(i + 1).filter(keep_neg) == if keep_neg(x) {
                dec@.take(i as int).filter(keep_neg).push(x)
            } else {
                dec@.take(i as int).filter(keep_neg)
            });
        }
        if x.sign == 1 {
            only_local.push(x.digest);
            proof {
                assert(only_local@ =~= signed_digests(dec@.take(i + 1), 1));
                assert(only_remote@ =~= signed_digests(dec@.take(i + 1), -1));
            }
        } else {
            only_remote.push(x.digest);
            proof {
                assert(only_local@ =~= signed_digests(dec@.take(i + 1), 1));
                assert(only_remote@ =~= signed_digests(dec@.take(i + 1), -1));
            }
        }
        i += 1;
    }
    proof {
        assert(dec@.take(n as int) =~= dec@);
    }
    sort_digests(&mut only_local);
    sort_digests(&mut only_remote);
    let res = DiffResult { only_local, only_remote };
    proof {
        let ds = dec@;
        assert(spec_encode(items_of(ds), local.spec_m(), local.k as int, local.seed) == state_sub(
            local.model(),
            remote.model(),
        ));
    }
    Ok(res)
}

/// Filtering is decided element by element: predicates that agree on the
/// elements of a sequence filter it identically.
proof fn lemma_filter_congruent(
    s: Seq<AdDigest>,
    p: spec_fn(AdDigest) -> bool,
    q: spec_fn(AdDigest) -> bool,
)
    requires
        forall|x: AdDigest| s.contains(x) ==> p(x) == q(x),
    ensures
        s.filter(p) == s.filter(q),
    decreases s.len(),
{
    reveal(Seq::filter);
    if s.len() > 0 {
        assert forall|x: AdDigest| s.drop_last().contains(x) implies p(x) == q(x) by {
            let i = choose|i: int| 0 <= i < s.drop_last().len() && s.drop_last()[i] == x;
            assert(s[i] == x);
            assert(s.contains(x));
        }
        lemma_filter_congruent(s.drop_last(), p, q);
        assert(s.contains(s.last()));
    }
}

/// A predicate true of every element filters nothing away.
proof fn lemma_filter_all_true(s: Seq<AdDigest>, p: spec_fn(AdDigest) -> bool)
    requires
        forall|x: AdDigest| s.contains(x) ==> p(x),
    ensures
        s.filter(p) == s,
    decreases s.len(),
{
    reveal(Seq::filter);
    if s.len() > 0 {
        assert forall|x: AdDigest| s.drop_last().contains(x) implies p(x) by {
            let i = choose|i: int| 0 <= i < s.drop_last().len() && s.drop_last()[i] == x;
            assert(s[i] == x);
            assert(s.contains(x));
        }
        lemma_filter_all_true(s.drop_last(), p);
        assert(s.contains(s.last()));
        assert(s.filter(p) =~= s);
    }
}

/// Removing an element the predicate already rejects leaves the filtered
/// sequence unchanged.
proof fn lemma_filter_remove_rejected(s: Seq<AdDigest>, j: int, p: spec_fn(AdDigest) -> bool)
    requires
        0 <= j < s.len(),
        !p(s[j]),
    ensures
        s.remove(j).filter(p) == s.filter(p),
    decreases s.len(),
{
    reveal(Seq::filter);
    if j == s.len() - 1 {
        assert(s.remove(j) =~= s.drop_last());
    } else {
        lemma_filter_remove_rejected(s.drop_last(), j, p);
        assert(s.remove(j).drop_last() =~= s.drop_last().remove(j));
        assert(s.remove(j).last() == s.last());
    }
}

/// The inventories whose summaries the difference law speaks of: all
/// digests distinct.
pub open spec fn no_dups(s: Seq<AdDigest>) -> bool {
    forall|i: int, j: int| 0 <= i < j < s.len() ==> s[i] != s[j]
}

/// The signed items of the symmetric difference of two inventories: what
/// only the first holds, positively, then what only the second holds,
/// negatively.
pub open spec fn sd_items(a: Seq<AdDigest>, b: Seq<AdDigest>, seed: u64) -> Seq<SignedItem> {
    pos_items(a.filter(|x: AdDigest| !b.contains(x)), seed) + neg_items(
        pos_items(b.filter(|x: AdDigest| !a.contains(x)), seed),
    )
}

/// Joining one inventory positively with another negatively encodes the
/// same state as their symmetric difference alone: every digest both sides
/// share is inserted and erased once, and that round trip leaves no trace
/// in any bucket.
pub proof fn lemma_common_digests_cancel(
    a: Seq<AdDigest>,
    b: Seq<AdDigest>,
    m: int,
    k: int,
    seed: u64,
)
    requires
        m >= 0,
        no_dups(a),
        no_dups(b),
    ensures
        spec_encode(pos_items(a, seed) + neg_items(pos_items(b, seed)), m, k, seed) == spec_encode(
            sd_items(a, b, seed),
            m,
            k,
            seed,
        ),
    decreases b.len(),
{
    reveal(Seq::filter);
    if b.len() == 0 {
        assert(pos_items(a, seed) + neg_items(pos_items(b, seed)) =~= pos_items(a, seed));
        lemma_filter_all_true(a, |x: AdDigest| !b.contains(x));
        assert(b.filter(|x: AdDigest| !a.contains(x)) =~= Seq::<AdDigest>::empty());
        assert(sd_items(a, b, seed) =~= pos_items(a, seed));
    } else {
        let bp = b.drop_last();
        let dl = b.last();
        assert(no_dups(bp)) by {
            assert forall|i: int, j: int| 0 <= i < j < bp.len() implies bp[i] != bp[j] by {
                assert(b[i] == bp[i] && b[j] == bp[j]);
            }
        }
        assert(!bp.contains(dl)) by {
            if bp.contains(dl) {
                let i = choose|i: int| 0 <= i < bp.len() && bp[i] == dl;
                assert(b[i] == b[b.len() - 1]);
            }
        }
        let c = spec_valhash(seed, dl.lo);
        let nit = SignedItem { d: dl, c, sign: -1 };
        let pit = SignedItem { d: dl, c, sign: 1 };
        let left_p = pos_items(a, seed) + neg_items(pos_items(bp, seed));
        assert(pos_items(a, seed) + neg_items(pos_items(b, seed)) =~= left_p.push(nit));
        lemma_encode_push(left_p, nit, m, k, seed);
        if !a.contains(dl) {
            lemma_common_digests_cancel(a, bp, m, k, seed);
            lemma_encode_push(sd_items(a, bp, seed), nit, m, k, seed);
            assert(sd_items(a, bp, seed).push(nit) =~= sd_items(a, b, seed)) by {
                assert forall|x: AdDigest|
                    a.contains(x) implies (!bp.contains(x)) == (!b.contains(x)) by {
                    assert(x != dl);
                    if bp.contains(x) {
                        let i = choose|i: int| 0 <= i < bp.len() && bp[i] == x;
                        assert(b[i] == x);
                    }
                    if b.contains(x) {
                        let i = choose|i: int| 0 <= i < b.len() && b[i] == x;
                        assert(i < b.len() - 1);
                        assert(bp[i] == x);
                    }
                }
                lemma_filter_congruent(
                    a,
                    |x: AdDigest| !bp.contains(x),
                    |x: AdDigest| !b.contains(x),
                );
                assert(b.filter(|x: AdDigest| !a.contains(x)) == bp.filter(
                    |x: AdDigest| !a.contains(x),
                ).push(dl));
                assert(sd_items(a, bp, seed).push(nit) =~= sd_items(a, b, seed));
            }
        } else {
            let j = choose|j: int| 0 <= j < a.len() && a[j] == dl;
            assert(left_p[j] == pit);
            crate::iblt::lemma_encode_remove(left_p, j, m, k, seed);
            let rest = left_p.remove(j);
            let ap = a.remove(j);
            assert(rest =~= pos_items(ap, seed) + neg_items(pos_items(bp, seed)));
            crate::iblt::lemma_apply_round_trip(
                spec_encode(rest, m, k, seed),
                seed,
                k,
                dl,
                c,
                1,
            );
            assert(no_dups(ap)) by {
                assert forall|p: int, q: int| 0 <= p < q < ap.len() implies ap[p] != ap[q] by {
                    assert(ap[p] == if p < j {
                        a[p]
                    } else {
                        a[p + 1]
                    });
                    assert(ap[q] == if q < j {
                        a[q]
                    } else {
                        a[q + 1]
                    });
                }
            }
            lemma_common_digests_cancel(ap, bp, m, k, seed);
            assert(sd_items(ap, bp, seed) == sd_items(a, b, seed)) by {
                assert(!ap.contains(dl)) by {
                    if ap.contains(dl) {
                        let i = choose|i: int| 0 <= i < ap.len() && ap[i] == dl;
                        if i < j {
                            assert(a[i] == a[j]);
                        } else {
                            assert(a[i + 1] == a[j]);
                        }
                    }
                }
                assert forall|x: AdDigest| ap.contains(x) implies a.contains(x) && x != dl by {
                    let i = choose|i: int| 0 <= i < ap.len() && ap[i] == x;
                    if i < j {
                        assert(a[i] == x);
                    } else {
                        assert(a[i + 1] == x);
                    }
                }
                assert forall|x: AdDigest| a.contains(x) && x != dl implies ap.contains(x) by {
                    let i = choose|i: int| 0 <= i < a.len() && a[i] == x;
                    if i < j {
                        assert(ap[i] == x);
                    } else {
                        assert(i > j);
                        assert(ap[i - 1] == x);
                    }
                }
                // the positively kept digests agree
                assert forall|x: AdDigest|
                    ap.contains(x) implies (!bp.contains(x)) == (!b.contains(x)) by {
                    assert(x != dl);
                    if bp.contains(x) {
                        let i = choose|i: int| 0 <= i < bp.len() && bp[i] == x;
                        assert(b[i] == x);
                    }
                    if b.contains(x) {
                        let i = choose|i: int| 0 <= i < b.len() && b[i] == x;
                        assert(i < b.len() - 1);
                        assert(bp[i] == x);
                    }
                }
                lemma_filter_congruent(
                    ap,
                    |x: AdDigest| !bp.contains(x),
                    |x: AdDigest| !b.contains(x),
                );
                assert(!(|x: AdDigest| !b.contains(x))(a[j]));
                lemma_filter_remove_rejected(a, j, |x: AdDigest| !b.contains(x));
                // the negatively kept digests agree
                assert(b.filter(|x: AdDigest| !a.contains(x)) == bp.filter(
                    |x: AdDigest| !a.contains(x),
                ));
                assert forall|x: AdDigest|
                    bp.contains(x) implies (!a.contains(x)) == (!ap.contains(x)) by {
                    assert(x != dl);
                }
                lemma_filter_congruent(
                    bp,
                    |x: AdDigest| !a.contains(x),
                    |x: AdDigest| !ap.contains(x),
                );
            }
        }
    }
}

/// The law behind diffing: for any two duplicate-free inventories, the
/// bucket-wise subtraction of their summaries encodes exactly the signed
/// symmetric difference — what only the first holds positively, what only
/// the second holds negatively, and nothing of what they share.  Together
/// with `Iblt::decode`'s contract this pins a successful diff down: the
/// decoded signed list explains the very state the symmetric difference
/// explains.
pub proof fn lemma_subtract_is_symmetric_difference(
    a: Seq<AdDigest>,
    b: Seq<AdDigest>,
    m: int,
    k: int,
    seed: u64,
)
    requires
        m >= 0,
        no_dups(a),
        no_dups(b),
    ensures
        state_sub(
            spec_encode(pos_items(a, seed), m, k, seed),
            spec_encode(pos_items(b, seed), m, k, seed),
        ) == spec_encode(sd_items(a, b, seed), m, k, seed),
{
    lemma_sub_encode(pos_items(a, seed), pos_items(b, seed), m, k, seed);
    lemma_common_digests_cancel(a, b, m, k, seed);
}

/// What a successful diff of two duplicate-free inventories means: a
/// decoded list whose encoding explains the subtracted summaries (which is
/// what `Iblt::decode` guarantees of its result) explains exactly the state
/// of the signed symmetric difference.  Nothing the two sides share can be
/// reflected in it, and no bucket of the difference is left unexplained.
pub proof fn lemma_decoded_diff_explains_difference(
    ds: Seq<Decoded>,
    a: Seq<AdDigest>,
    b: Seq<AdDigest>,
    m: int,
    k: int,
    seed: u64,
)
    requires
        m >= 0,
        no_dups(a),
        no_dups(b),
        spec_encode(items_of(ds), m, k, seed) == state_sub(
            spec_encode(pos_items(a, seed), m, k, seed),
            spec_encode(pos_items(b, seed), m, k, seed),
        ),
    ensures
        spec_encode(items_of(ds), m, k, seed) == spec_encode(sd_items(a, b, seed), m, k, seed),
{
    lemma_subtract_is_symmetric_difference(a, b, m, k, seed);
}

/// Convergence of one reconciliation round: when each side learns exactly
/// the digests the other held beyond it, both inventories become the union
/// of the two, so two quiescent nodes agree after the round.
pub proof fn lemma_round_converges(a: Set<AdDigest>, b: Set<AdDigest>)
    ensures
        a.union(b.difference(a)) == a.union(b),
        b.union(a.difference(b)) == a.union(b),
        a.union(b.difference(a)) == b.union(a.difference(b)),
{
    assert(a.union(b.difference(a)) =~= a.union(b));
    assert(b.union(a.difference(b)) =~= b.union(a));
    assert(b.union(a) =~= a.union(b));
}

} // verus!
