//! The authoritative local view of known advertisements.

use vstd::prelude::*;
use crate::digest::AdDigest;
use crate::digest::payload_digest;
use crate::digest::spec_payload_digest;

verus! {

/// One advertisement: its content fingerprint, the opaque encoded payload,
/// the anti-spam weight derived from its linked transaction proof, its
/// expiry height and its arrival time.  Immutable once admitted.
pub struct Ad {
    pub digest: AdDigest,
    pub payload: Vec<u8>,
    pub weight: u64,
    pub expiry: u32,
    pub arrival: u64,
}

impl Ad {
    /// The digest is derived from the content, so it cannot disagree with
    /// the payload.
    pub open spec fn wf(self) -> bool {
        self.digest == spec_payload_digest(self.payload@)
    }

    /// Admits a payload, deriving its digest from the content.
    pub fn new(payload: Vec<u8>, weight: u64, expiry: u32, arrival: u64) -> (r: Ad)
        ensures
            r.wf(),
            r.payload@ == payload@,
            r.weight == weight,
            r.expiry == expiry,
            r.arrival == arrival,
    {
        let digest = payload_digest(payload.as_slice());
        Ad { digest, payload, weight, expiry, arrival }
    }
}

/// What `add` did: re-adding a known digest is a benign no-op; at capacity
/// the lowest-weight advertisement makes room and its digest is reported.
#[derive(Clone, Copy, PartialEq, Eq, Structural, Debug)]
pub enum AddOutcome {
    Added,
    Duplicate,
    Evicted(AdDigest),
}

/// Filtering a run of advertisements with pairwise-distinct, well-formed
/// entries keeps those properties: every kept entry is one of the original
/// entries, and no two kept positions can share a digest.
proof fn lemma_filter_keeps_registry_wf(s: Seq<Ad>, pred: spec_fn(Ad) -> bool)
    requires
        forall|p: int, q: int|
            0 <= p < q < s.len() ==> (#[trigger] s[p]).digest != (#[trigger] s[q]).digest,
        forall|p: int| 0 <= p < s.len() ==> (#[trigger] s[p]).wf(),
    ensures
        s.filter(pred).len() <= s.len(),
        forall|p: int| 0 <= p < s.filter(pred).len() ==> s.contains(#[trigger] s.filter(pred)[p]),
        forall|p: int, q: int|
            0 <= p < q < s.filter(pred).len() ==> (#[trigger] s.filter(pred)[p]).digest != (
            #[trigger] s.filter(pred)[q]).digest,
        forall|p: int| 0 <= p < s.filter(pred).len() ==> (#[trigger] s.filter(pred)[p]).wf(),
    decreases s.len(),
{
    reveal(Seq::filter);
    if s.len() > 0 {
        let dl = s.drop_last();
        let fdl = dl.filter(pred);
        assert forall|p: int, q: int|
            0 <= p < q < dl.len() implies (#[trigger] dl[p]).digest != (
        #[trigger] dl[q]).digest by {
            assert(dl[p] == s[p] && dl[q] == s[q]);
        }
        assert forall|p: int| 0 <= p < dl.len() implies (#[trigger] dl[p]).wf() by {
            assert(dl[p] == s[p]);
        }
        lemma_filter_keeps_registry_wf(dl, pred);
        assert forall|p: int|
            0 <= p < s.filter(pred).len() implies s.contains(#[trigger] s.filter(pred)[p]) by {
            if p < fdl.len() {
                assert(dl.contains(fdl[p]));
                let w = choose|w: int| 0 <= w < dl.len() && dl[w] == fdl[p];
                assert(s[w] == fdl[p]);
            } else {
                assert(s.filter(pred)[p] == s.last());
                assert(s[s.len() - 1] == s.last());
            }
        }
        assert forall|p: int, q: int|
            0 <= p < q < s.filter(pred).len() implies (#[trigger] s.filter(pred)[p]).digest != (
        #[trigger] s.filter(pred)[q]).digest by {
            if q == fdl.len() {
                assert(s.filter(pred)[q] == s.last());
                assert(dl.contains(fdl[p]));
                let w = choose|w: int| 0 <= w < dl.len() && dl[w] == fdl[p];
                assert(s[w].digest != s[s.len() - 1].digest);
            }
        }
        assert forall|p: int|
            0 <= p < s.filter(pred).len() implies (#[trigger] s.filter(pred)[p]).wf() by {
            if p == fdl.len() {
                assert(s.filter(pred)[p] == s.last());
                assert(s[s.len() - 1].wf());
            }
        }
    }
}

/// The registry of locally known advertisements, bounded by a capacity.
pub struct AdRegistry {
    pub ads: Vec<Ad>,
    pub capacity: usize,
}

impl AdRegistry {
    /// Digests are unique, every entry's digest matches its content, and
    /// the capacity is respected.
    pub open spec fn wf(self) -> bool {
        &&& self.capacity >= 1
        &&& self.ads@.len() <= self.capacity
        &&& forall|i: int, j: int|
            0 <= i < j < self.ads@.len() ==> (#[trigger] self.ads@[i]).digest != (
            #[trigger] self.ads@[j]).digest
        &&& forall|i: int| 0 <= i < self.ads@.len() ==> (#[trigger] self.ads@[i]).wf()
    }

    /// Whether a digest is known.
    pub open spec fn spec_has(self, d: AdDigest) -> bool {
        exists|i: int| 0 <= i < self.ads@.len() && (#[trigger] self.ads@[i]).digest == d
    }

    /// The digests known, in registry order.
    pub open spec fn spec_digests(self) -> Seq<AdDigest> {
        self.ads@.map_values(|a: Ad| a.digest)
    }

    /// An empty registry with the given capacity.
    pub fn new(capacity: usize) -> (r: AdRegistry)
        requires
            capacity >= 1,
        ensures
            r.wf(),
            r.ads@.len() == 0,
            r.capacity == capacity,
    {
        AdRegistry { ads: Vec::new(), capacity }
    }

    /// Number of advertisements held.
    pub fn len(&self) -> (r: usize)
        ensures
            r == self.ads@.len(),
    {
        self.ads.len()
    }

    /// Index of the entry holding digest `d`, if any.
    fn find(&self, d: AdDigest) -> (r: Option<usize>)
        ensures
            match r {
                Some(i) => i < self.ads@.len() && self.ads@[i as int].digest == d,
                None => !self.spec_has(d),
            },
    {
        let n = self.ads.len();
        let mut i: usize = 0;
        while i < n
            invariant
                i <= n,
                n == self.ads@.len(),
                forall|j: int| 0 <= j < i ==> (#[trigger] self.ads@[j]).digest != d,
            decreases n - i,
        {
            if self.ads[i].digest.hi == d.hi && self.ads[i].digest.lo == d.lo {
                return Some(i);
            }
            i += 1;
        }
        None
    }

    /// Whether a digest is known.
    pub fn contains(&self, d: AdDigest) -> (r: bool)
        ensures
            r == self.spec_has(d),
    {
        match self.find(d) {
            Some(_) => true,
            None => false,
        }
    }

    /// The payload stored for a digest, if the digest is known.
    pub fn get_payload(&self, d: AdDigest) -> (r: Option<Vec<u8>>)
        ensures
            match r {
                Some(p) => exists|i: int|
                    0 <= i < self.ads@.len() && (#[trigger] self.ads@[i]).digest == d && p@
                        == self.ads@[i].payload@,
                None => !self.spec_has(d),
            },
    {
        match self.find(d) {
            Some(i) => {
                let n = self.ads[i].payload.len();
                let mut p: Vec<u8> = Vec::new();
                let mut j: usize = 0;
                while j < n
                    invariant
                        j <= n,
                        i < self.ads@.len(),
                        n == self.ads@[i as int].payload@.len(),
                        p@ == self.ads@[i as int].payload@.take(j as int),
                    decreases n - j,
                {
                    p.push(self.ads[i].payload[j]);
                    proof {
                        assert(p@ =~= self.ads@[i as int].payload@.take(j + 1));
                    }
                    j += 1;
                }
                proof {
                    assert(p@ =~= self.ads@[i as int].payload@);
                }
                Some(p)
            },
            None => None,
        }
    }

    /// Adds an advertisement.
    ///
    /// Re-adding a known digest changes nothing.  Below capacity the entry
    /// is appended.  At capacity the first advertisement of minimal weight
    /// is evicted to make room, and its digest is reported.
    pub fn add(&mut self, ad: Ad) -> (r: AddOutcome)
        requires
            old(self).wf(),
            ad.wf(),
        ensures
            final(self).wf(),
            final(self).capacity == old(self).capacity,
            final(self).spec_has(ad.digest),
            match r {
                AddOutcome::Duplicate => old(self).spec_has(ad.digest) && *final(self) == *old(
                    self,
                ),
                AddOutcome::Added => !old(self).spec_has(ad.digest) && old(self).ads@.len() < old(
                    self,
                ).capacity && final(self).ads@ == old(self).ads@.push(ad),
                AddOutcome::Evicted(gone) => {
                    &&& !old(self).spec_has(ad.digest)
                    &&& old(self).ads@.len() == old(self).capacity
                    &&& exists|j: int|
                        {
                            &&& 0 <= j < old(self).ads@.len()
                            &&& (#[trigger] old(self).ads@[j]).digest == gone
                            &&& forall|i: int|
                                0 <= i < old(self).ads@.len() ==> (
                                #[trigger] old(self).ads@[i]).weight >= old(self).ads@[j].weight
                            &&& final(self).ads@ == old(self).ads@.remove(j).push(ad)
                        }
                },
            },
    {
        match self.find(ad.digest) {
            Some(at) => {
                proof {
                    assert(self.ads@[at as int].digest == ad.digest);
                }
                AddOutcome::Duplicate
            },
            None => {
                if self.ads.len() < self.capacity {
                    self.ads.push(ad);
                    proof {
                        assert(self.ads@[self.ads@.len() - 1] == ad);
                    }
                    AddOutcome::Added
                } else {
                    let n = self.ads.len();
                    let mut best: usize = 0;
                    let mut i: usize = 1;
                    while i < n
                        invariant
                            1 <= i <= n,
                            best < i,
                            n == self.ads@.len(),
                            forall|j: int|
                                0 <= j < i ==> (#[trigger] self.ads@[j]).weight
                                    >= self.ads@[best as int].weight,
                        decreases n - i,
                    {
                        if self.ads[i].weight < self.ads[best].weight {
                            best = i;
                        }
                        i += 1;
                    }
                    let gone = self.ads[best].digest;
                    self.ads.remove(best);
                    self.ads.push(ad);
                    proof {
                        let oldads = old(self).ads@;
                        assert forall|p: int, q: int|
                            0 <= p < q < self.ads@.len() implies (
                        #[trigger] self.ads@[p]).digest != (#[trigger] self.ads@[q]).digest by {
                            if q < self.ads@.len() - 1 {
                                assert(self.ads@[p] == if p < best {
                                    oldads[p]
                                } else {
                                    oldads[p + 1]
                                });
                                assert(self.ads@[q] == if q < best {
                                    oldads[q]
                                } else {
                                    oldads[q + 1]
                                });
                            } else {
                                assert(self.ads@[q] == ad);
                                assert(self.ads@[p] == if p < best {
                                    oldads[p]
                                } else {
                                    oldads[p + 1]
                                });
                                assert(!old(self).spec_has(ad.digest));
                            }
                        }
                    }
                    proof {
                        assert(self.ads@[self.ads@.len() - 1] == ad);
                    }
                    AddOutcome::Evicted(gone)
                }
            },
        }
    }

    /// Removes a digest, for expiry or capacity eviction; reports whether it
    /// was present.
    pub fn remove(&mut self, d: AdDigest) -> (r: bool)
        requires
            old(self).wf(),
        ensures
            final(self).wf(),
            final(self).capacity == old(self).capacity,
            r == old(self).spec_has(d),
            !final(self).spec_has(d),
            r ==> exists|j: int|
                0 <= j < old(self).ads@.len() && (#[trigger] old(self).ads@[j]).digest == d
                    && final(self).ads@ == old(self).ads@.remove(j),
            !r ==> *final(self) == *old(self),
    {
        match self.find(d) {
            Some(i) => {
                self.ads.remove(i);
                proof {
                    let oldads = old(self).ads@;
                    assert forall|p: int|
                        0 <= p < self.ads@.len() implies (#[trigger] self.ads@[p]).digest
                        != d by {
                        assert(self.ads@[p] == if p < i {
                            oldads[p]
                        } else {
                            oldads[p + 1]
                        });
                    }
                }
                true
            },
            None => false,
        }
    }

    /// Drops every advertisement whose expiry height has been reached, as
    /// driven by the header-chain tracker's validated height; everything
    /// still alive is kept in order.
    pub fn remove_expired(&mut self, height: u32)
        requires
            old(self).wf(),
        ensures
            final(self).wf(),
            final(self).capacity == old(self).capacity,
            final(self).ads@ == old(self).ads@.filter(|a: Ad| a.expiry > height),
    {
        let ghost oldads = self.ads@;
        let n = self.ads.len();
        let mut kept: Vec<Ad> = Vec::new();
        let mut i: usize = 0;
        while i < n
            invariant
                i <= n,
                n == oldads.len(),
                self.capacity == old(self).capacity,
                self.ads@ == oldads.skip(i as int),
                kept@ == oldads.take(i as int).filter(|a: Ad| a.expiry > height),
            decreases n - i,
        {
            proof {
                reveal_with_fuel(Seq::filter, 2);
                assert(oldads.take(i + 1).drop_last() =~= oldads.take(i as int));
                assert(oldads.take(i + 1).last() == oldads[i as int]);
                assert(self.ads@[0] == oldads[i as int]);
            }
            let a = self.ads.remove(0);
            proof {
                assert(self.ads@ =~= oldads.skip(i + 1));
            }
            if a.expiry > height {
                kept.push(a);
            }
            i += 1;
        }
        proof {
            assert(oldads.take(n as int) =~= oldads);
        }
        self.ads = kept;
        proof {
            lemma_filter_keeps_registry_wf(oldads, |a: Ad| a.expiry > height);
        }
    }

    /// A point-in-time copy of the digests held; reconciliation reads this
    /// snapshot, never the live registry.
    pub fn snapshot(&self) -> (r: Vec<AdDigest>)
        ensures
            r@ == self.spec_digests(),
    {
        let n = self.ads.len();
        let mut r: Vec<AdDigest> = Vec::new();
        let mut i: usize = 0;
        while i < n
            invariant
                i <= n,
                n == self.ads@.len(),
                r@.len() == i,
                forall|j: int| 0 <= j < i ==> r@[j] == (#[trigger] self.ads@[j]).digest,
            decreases n - i,
        {
            r.push(self.ads[i].digest);
            i += 1;
        }
        proof {
            assert(r@ =~= self.spec_digests());
        }
        r
    }
}

} // verus!
