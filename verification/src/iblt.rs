//! The invertible set summary: a fixed number of buckets over which digests
//! are accumulated so that the symmetric difference of two inventories can be
//! recovered from the bucket-wise subtraction of their summaries.

use vstd::prelude::*;
use vstd::arithmetic::div_mod::lemma_fundamental_div_mod_converse;
use crate::digest::AdDigest;
use crate::digest::digest_bytes;
use crate::digest::digest_to_bytes;
use crate::digest::u64_le_bytes;
use crate::digest::u64_to_bytes;
use crate::error::SyncError;

verus! {

/// Upper bound on the operations a summary may accumulate; it bounds every
/// bucket count, so count arithmetic cannot overflow.
pub const MAX_OPS: u64 = 0x1000_0000;

/// Largest supported bucket count.
pub const MAX_BUCKETS: usize = 0x10000;

/// Largest supported number of index-derivation bands.
pub const MAX_BANDS: usize = 64;

/// Domain-separation tag for the per-key checksum kept in `hashcheck`.
pub const CHK_TAG: u64 = 0x100;

/// Domain-separation tag for the per-value checksum kept in `valuesum`.
pub const VAL_TAG: u64 = 0x101;

/// What SipHash-2-4 returns for a key pair and a byte string.  The result
/// depends on the keys and the bytes alone.
pub uninterp spec fn sip24_of(k0: u64, k1: u64, data: Seq<u8>) -> u64;

/// Relies on `siphasher::sip::SipHasher24`: keyed SipHash-2-4 of the input
/// bytes, a pure function of the two keys and the bytes.
#[verifier::external_body]
fn sip_hash(k0: u64, k1: u64, data: &Vec<u8>) -> (r: u64)
    ensures
        r == sip24_of(k0, k1, data@),
{
    let mut h = siphasher::sip::SipHasher24::new_with_keys(k0, k1);
    std::hash::Hasher::write(&mut h, data.as_slice());
    std::hash::Hasher::finish(&h)
}

/// One summary bucket: a signed membership count and three xor-accumulators.
#[derive(Clone, Copy, PartialEq, Eq, Structural, Debug)]
pub struct Bucket {
    pub count: i64,
    pub keysum_hi: u64,
    pub keysum_lo: u64,
    pub valuesum: u64,
    pub hashcheck: u64,
}

/// The mathematical value of a bucket, with an unbounded count.
pub struct BucketModel {
    pub count: int,
    pub keysum_hi: u64,
    pub keysum_lo: u64,
    pub valuesum: u64,
    pub hashcheck: u64,
}

impl View for Bucket {
    type V = BucketModel;

    open spec fn view(&self) -> BucketModel {
        BucketModel {
            count: self.count as int,
            keysum_hi: self.keysum_hi,
            keysum_lo: self.keysum_lo,
            valuesum: self.valuesum,
            hashcheck: self.hashcheck,
        }
    }
}

/// One recovered entry of a decoded summary: sign `+1` means the item was in
/// the positively counted operand only, `-1` in the other only.
#[derive(Clone, Copy, PartialEq, Eq, Structural, Debug)]
pub struct Decoded {
    pub digest: AdDigest,
    pub checksum: u64,
    pub sign: i64,
}

/// A signed item as the summary model sees it: a digest, the value checksum
/// accumulated for it, and a sign.
pub struct SignedItem {
    pub d: AdDigest,
    pub c: u64,
    pub sign: int,
}

/// The signed items that a decoded list stands for.
pub open spec fn items_of(s: Seq<Decoded>) -> Seq<SignedItem> {
    s.map_values(|x: Decoded| SignedItem { d: x.digest, c: x.checksum, sign: x.sign as int })
}

/// The per-key checksum accumulated in `hashcheck`.
pub open spec fn spec_check(seed: u64, d: AdDigest) -> u64 {
    sip24_of(seed, CHK_TAG, digest_bytes(d))
}

/// The per-value checksum accumulated in `valuesum`.
pub open spec fn spec_valhash(seed: u64, v: u64) -> u64 {
    sip24_of(seed, VAL_TAG, u64_le_bytes(v))
}

/// The bucket index that band `t` derives for digest `d`, within the band's
/// own range of `w` buckets.
pub open spec fn spec_bucket_index(seed: u64, t: int, d: AdDigest, w: int) -> int {
    t * w + (sip24_of(seed, t as u64, digest_bytes(d)) as int) % w
}

/// Whether bucket `i` of an `m`-bucket, `k`-band summary is one of the
/// buckets digest `d` is routed to.
pub open spec fn spec_touches(i: int, seed: u64, k: int, m: int, d: AdDigest) -> bool
    recommends
        k >= 1,
        m == k * (m / k),
{
    let w = m / k;
    w >= 1 && spec_bucket_index(seed, i / w, d, w) == i
}

/// A bucket after one signed item lands in it.
pub open spec fn upd_bucket(b: BucketModel, d: AdDigest, c: u64, sign: int, seed: u64) -> BucketModel {
    BucketModel {
        count: b.count + sign,
        keysum_hi: b.keysum_hi ^ d.hi,
        keysum_lo: b.keysum_lo ^ d.lo,
        valuesum: b.valuesum ^ c,
        hashcheck: b.hashcheck ^ spec_check(seed, d),
    }
}

/// A whole summary state after one signed item is accumulated: each bucket
/// the digest is routed to is updated, the others are untouched.
pub open spec fn spec_apply(
    s: Seq<BucketModel>,
    seed: u64,
    k: int,
    d: AdDigest,
    c: u64,
    sign: int,
) -> Seq<BucketModel> {
    Seq::new(
        s.len(),
        |i: int|
            if spec_touches(i, seed, k, s.len() as int, d) {
                upd_bucket(s[i], d, c, sign, seed)
            } else {
                s[i]
            },
    )
}

/// The all-zero bucket.
pub open spec fn zero_bucket() -> BucketModel {
    BucketModel { count: 0, keysum_hi: 0, keysum_lo: 0, valuesum: 0, hashcheck: 0 }
}

/// The empty summary state of `m` buckets.
pub open spec fn zero_state(m: int) -> Seq<BucketModel> {
    Seq::new(m as nat, |i: int| zero_bucket())
}

/// The summary state that a sequence of signed items accumulates to.
pub open spec fn spec_encode(items: Seq<SignedItem>, m: int, k: int, seed: u64) -> Seq<BucketModel>
    decreases items.len(),
{
    if items.len() == 0 {
        zero_state(m)
    } else {
        spec_apply(
            spec_encode(items.drop_last(), m, k, seed),
            seed,
            k,
            items.last().d,
            items.last().c,
            items.last().sign,
        )
    }
}

/// Bucket-wise subtraction of two summary states of equal length.
pub open spec fn state_sub(a: Seq<BucketModel>, b: Seq<BucketModel>) -> Seq<BucketModel> {
    Seq::new(
        a.len(),
        |i: int|
            BucketModel {
                count: a[i].count - b[i].count,
                keysum_hi: a[i].keysum_hi ^ b[i].keysum_hi,
                keysum_lo: a[i].keysum_lo ^ b[i].keysum_lo,
                valuesum: a[i].valuesum ^ b[i].valuesum,
                hashcheck: a[i].hashcheck ^ b[i].hashcheck,
            },
    )
}

/// Bucket-wise addition of two summary states of equal length.
pub open spec fn state_add(a: Seq<BucketModel>, b: Seq<BucketModel>) -> Seq<BucketModel> {
    Seq::new(
        a.len(),
        |i: int|
            BucketModel {
                count: a[i].count + b[i].count,
                keysum_hi: a[i].keysum_hi ^ b[i].keysum_hi,
                keysum_lo: a[i].keysum_lo ^ b[i].keysum_lo,
                valuesum: a[i].valuesum ^ b[i].valuesum,
                hashcheck: a[i].hashcheck ^ b[i].hashcheck,
            },
    )
}

proof fn xor_facts(a: u64, b: u64, c: u64)
    by (bit_vector)
    ensures
        a ^ 0 == a,
        0u64 ^ a == a,
        b ^ 0 == b,
        c ^ 0 == c,
        a ^ b == b ^ a,
        (a ^ b) ^ b == a,
        a ^ (b ^ c) == (a ^ b) ^ c,
        (a ^ b) ^ c == (a ^ c) ^ b,
        (a ^ c) ^ (b ^ c) == a ^ b,
{
}

/// A bucket that can be peeled: its count names a single signed item and
/// its key checksum matches the digest its keysum holds.
pub open spec fn bucket_pure(b: BucketModel, seed: u64) -> bool {
    (b.count == 1 || b.count == -1) && b.hashcheck == spec_check(
        seed,
        AdDigest { hi: b.keysum_hi, lo: b.keysum_lo },
    )
}

/// Whether every bucket of a state is zero.
pub open spec fn all_zero(s: Seq<BucketModel>) -> bool {
    forall|i: int| 0 <= i < s.len() ==> s[i] == zero_bucket()
}

/// The lowest index at or after `i` holding a pure bucket, or the state's
/// length when none remains.
pub open spec fn first_pure_at(s: Seq<BucketModel>, seed: u64, i: int) -> int
    decreases s.len() - i,
{
    if i < 0 || i >= s.len() {
        s.len() as int
    } else if bucket_pure(s[i], seed) {
        i
    } else {
        first_pure_at(s, seed, i + 1)
    }
}

/// Whether greedy peeling — repeatedly erasing the item named by the
/// lowest-index pure bucket — empties the state within `fuel` steps.  This
/// is exactly the procedure `decode` runs, so it says on which summaries
/// decoding succeeds.
pub open spec fn spec_peels(s: Seq<BucketModel>, k: int, seed: u64, fuel: nat) -> bool
    decreases fuel,
{
    if all_zero(s) {
        true
    } else {
        let i = first_pure_at(s, seed, 0);
        if i >= s.len() || fuel == 0 {
            false
        } else {
            let b = s[i];
            let d = AdDigest { hi: b.keysum_hi, lo: b.keysum_lo };
            spec_peels(
                spec_apply(s, seed, k, d, b.valuesum, -b.count),
                k,
                seed,
                (fuel - 1) as nat,
            )
        }
    }
}

/// `first_pure_at` is characterized by a pure bucket with none before it.
proof fn lemma_first_pure_at_is(s: Seq<BucketModel>, seed: u64, lo: int, i0: int)
    requires
        0 <= lo <= i0 <= s.len(),
        forall|j: int| lo <= j < i0 ==> !bucket_pure(#[trigger] s[j], seed),
        i0 == s.len() || bucket_pure(s[i0], seed),
    ensures
        first_pure_at(s, seed, lo) == i0,
    decreases i0 - lo,
{
    if lo < i0 {
        lemma_first_pure_at_is(s, seed, lo + 1, i0);
    }
}

/// An item sequence with every sign reversed.
pub open spec fn neg_items(items: Seq<SignedItem>) -> Seq<SignedItem> {
    items.map_values(|it: SignedItem| SignedItem { d: it.d, c: it.c, sign: -it.sign })
}

/// An encoded state always has exactly `m` buckets.
pub proof fn lemma_encode_len(items: Seq<SignedItem>, m: int, k: int, seed: u64)
    requires
        m >= 0,
    ensures
        spec_encode(items, m, k, seed).len() == m,
    decreases items.len(),
{
    if items.len() > 0 {
        lemma_encode_len(items.drop_last(), m, k, seed);
    }
}

/// Accumulating one more item is one application to the encoded state.
pub proof fn lemma_encode_push(items: Seq<SignedItem>, it: SignedItem, m: int, k: int, seed: u64)
    ensures
        spec_encode(items.push(it), m, k, seed) == spec_apply(
            spec_encode(items, m, k, seed),
            seed,
            k,
            it.d,
            it.c,
            it.sign,
        ),
{
    assert(items.push(it).drop_last() =~= items);
    assert(items.push(it).last() == it);
}

/// Inserting and then erasing the identical pair restores every bucket to
/// its prior exact state: the reversibility law of the summary.
pub proof fn lemma_apply_round_trip(
    s: Seq<BucketModel>,
    seed: u64,
    k: int,
    d: AdDigest,
    c: u64,
    sign: int,
)
    ensures
        spec_apply(spec_apply(s, seed, k, d, c, sign), seed, k, d, c, -sign) == s,
{
    let s1 = spec_apply(s, seed, k, d, c, sign);
    let s2 = spec_apply(s1, seed, k, d, c, -sign);
    assert forall|i: int| 0 <= i < s.len() implies s2[i] == s[i] by {
        xor_facts(s[i].keysum_hi, d.hi, 0);
        xor_facts(s[i].keysum_lo, d.lo, 0);
        xor_facts(s[i].valuesum, c, 0);
        xor_facts(s[i].hashcheck, spec_check(seed, d), 0);
    }
    assert(s2 =~= s);
}

/// The reversibility law as `insert` and `erase` state it: erasing the
/// identical (digest, value) pair right after inserting it restores the
/// summary to its prior exact state, bucket for bucket.
pub proof fn lemma_insert_erase_round_trip(
    s: Seq<BucketModel>,
    seed: u64,
    k: int,
    d: AdDigest,
    v: u64,
)
    ensures
        spec_apply(
            spec_apply(s, seed, k, d, spec_valhash(seed, v), 1),
            seed,
            k,
            d,
            spec_valhash(seed, v),
            -1,
        ) == s,
{
    lemma_apply_round_trip(s, seed, k, d, spec_valhash(seed, v), 1);
}

/// Two item applications commute: the encoded state does not depend on the
/// order in which items are accumulated.
pub proof fn lemma_apply_exchange(
    s: Seq<BucketModel>,
    seed: u64,
    k: int,
    d1: AdDigest,
    c1: u64,
    g1: int,
    d2: AdDigest,
    c2: u64,
    g2: int,
)
    ensures
        spec_apply(spec_apply(s, seed, k, d1, c1, g1), seed, k, d2, c2, g2) == spec_apply(
            spec_apply(s, seed, k, d2, c2, g2),
            seed,
            k,
            d1,
            c1,
            g1,
        ),
{
    let a = spec_apply(spec_apply(s, seed, k, d1, c1, g1), seed, k, d2, c2, g2);
    let b = spec_apply(spec_apply(s, seed, k, d2, c2, g2), seed, k, d1, c1, g1);
    assert forall|i: int| 0 <= i < s.len() implies a[i] == b[i] by {
        xor_facts(s[i].keysum_hi, d1.hi, d2.hi);
        xor_facts(s[i].keysum_lo, d1.lo, d2.lo);
        xor_facts(s[i].valuesum, c1, c2);
        xor_facts(s[i].hashcheck, spec_check(seed, d1), spec_check(seed, d2));
    }
    assert(a =~= b);
}

/// Subtracting the empty state changes nothing.
pub proof fn lemma_state_sub_zero(a: Seq<BucketModel>)
    ensures
        state_sub(a, zero_state(a.len() as int)) == a,
{
    assert forall|i: int| 0 <= i < a.len() implies state_sub(a, zero_state(a.len() as int))[i]
        == a[i] by {
        xor_facts(a[i].keysum_hi, 0, 0);
        xor_facts(a[i].keysum_lo, 0, 0);
        xor_facts(a[i].valuesum, 0, 0);
        xor_facts(a[i].hashcheck, 0, 0);
    }
    assert(state_sub(a, zero_state(a.len() as int)) =~= a);
}

/// Adding the empty state changes nothing.
pub proof fn lemma_state_add_zero(a: Seq<BucketModel>)
    ensures
        state_add(zero_state(a.len() as int), a) == a,
{
    assert forall|i: int| 0 <= i < a.len() implies state_add(zero_state(a.len() as int), a)[i]
        == a[i] by {
        xor_facts(a[i].keysum_hi, 0, 0);
        xor_facts(a[i].keysum_lo, 0, 0);
        xor_facts(a[i].valuesum, 0, 0);
        xor_facts(a[i].hashcheck, 0, 0);
    }
    assert(state_add(zero_state(a.len() as int), a) =~= a);
}

/// Subtraction absorbs one application on its right operand as the reversed
/// application on the result.
pub proof fn lemma_state_sub_apply(
    a: Seq<BucketModel>,
    b: Seq<BucketModel>,
    seed: u64,
    k: int,
    d: AdDigest,
    c: u64,
    g: int,
)
    requires
        a.len() == b.len(),
    ensures
        state_sub(a, spec_apply(b, seed, k, d, c, g)) == spec_apply(
            state_sub(a, b),
            seed,
            k,
            d,
            c,
            -g,
        ),
{
    let lhs = state_sub(a, spec_apply(b, seed, k, d, c, g));
    let rhs = spec_apply(state_sub(a, b), seed, k, d, c, -g);
    assert forall|i: int| 0 <= i < a.len() implies lhs[i] == rhs[i] by {
        xor_facts(a[i].keysum_hi, b[i].keysum_hi, d.hi);
        xor_facts(a[i].keysum_lo, b[i].keysum_lo, d.lo);
        xor_facts(a[i].valuesum, b[i].valuesum, c);
        xor_facts(a[i].hashcheck, b[i].hashcheck, spec_check(seed, d));
    }
    assert(lhs =~= rhs);
}

/// A reversed application on one summand cancels the same application on the
/// other: the peeling step of decoding preserves what the pair explains.
pub proof fn lemma_add_apply_cancel(
    a: Seq<BucketModel>,
    b: Seq<BucketModel>,
    seed: u64,
    k: int,
    d: AdDigest,
    c: u64,
    g: int,
)
    requires
        a.len() == b.len(),
    ensures
        state_add(spec_apply(a, seed, k, d, c, -g), spec_apply(b, seed, k, d, c, g)) == state_add(
            a,
            b,
        ),
{
    let lhs = state_add(spec_apply(a, seed, k, d, c, -g), spec_apply(b, seed, k, d, c, g));
    assert forall|i: int| 0 <= i < a.len() implies lhs[i] == state_add(a, b)[i] by {
        xor_facts(a[i].keysum_hi, b[i].keysum_hi, d.hi);
        xor_facts(a[i].keysum_lo, b[i].keysum_lo, d.lo);
        xor_facts(a[i].valuesum, b[i].valuesum, c);
        xor_facts(a[i].hashcheck, b[i].hashcheck, spec_check(seed, d));
    }
    assert(lhs =~= state_add(a, b));
}

/// Any one item can be pulled out of an encoding: the state equals the
/// encoding of the remaining items with that item applied on top.
pub proof fn lemma_encode_remove(items: Seq<SignedItem>, j: int, m: int, k: int, seed: u64)
    requires
        0 <= j < items.len(),
    ensures
        spec_encode(items, m, k, seed) == spec_apply(
            spec_encode(items.remove(j), m, k, seed),
            seed,
            k,
            items[j].d,
            items[j].c,
            items[j].sign,
        ),
    decreases items.len(),
{
    let last = items.last();
    if j == items.len() - 1 {
        assert(items.remove(j) =~= items.drop_last());
    } else {
        let dl = items.drop_last();
        lemma_encode_remove(dl, j, m, k, seed);
        lemma_apply_exchange(
            spec_encode(dl.remove(j), m, k, seed),
            seed,
            k,
            dl[j].d,
            dl[j].c,
            dl[j].sign,
            last.d,
            last.c,
            last.sign,
        );
        lemma_encode_push(dl.remove(j), last, m, k, seed);
        assert(items.remove(j) =~= dl.remove(j).push(last));
        assert(items[j] == dl[j]);
    }
}

/// Linearity of the summary: the bucket-wise subtraction of two encoded
/// states encodes the first item sequence joined with the second reversed.
pub proof fn lemma_sub_encode(a: Seq<SignedItem>, b: Seq<SignedItem>, m: int, k: int, seed: u64)
    requires
        m >= 0,
    ensures
        state_sub(spec_encode(a, m, k, seed), spec_encode(b, m, k, seed)) == spec_encode(
            a + neg_items(b),
            m,
            k,
            seed,
        ),
    decreases b.len(),
{
    lemma_encode_len(a, m, k, seed);
    lemma_encode_len(b, m, k, seed);
    if b.len() == 0 {
        assert(a + neg_items(b) =~= a);
        lemma_state_sub_zero(spec_encode(a, m, k, seed));
    } else {
        let bp = b.drop_last();
        let it = b.last();
        let nit = SignedItem { d: it.d, c: it.c, sign: -it.sign };
        lemma_encode_len(bp, m, k, seed);
        lemma_sub_encode(a, bp, m, k, seed);
        lemma_state_sub_apply(
            spec_encode(a, m, k, seed),
            spec_encode(bp, m, k, seed),
            seed,
            k,
            it.d,
            it.c,
            it.sign,
        );
        lemma_encode_push(a + neg_items(bp), nit, m, k, seed);
        assert((a + neg_items(bp)).push(nit) =~= a + neg_items(b));
    }
}

/// The invertible set summary itself: `m` buckets in `k` bands, each band
/// deriving one bucket index per digest from a shared seed.
pub struct Iblt {
    pub buckets: Vec<Bucket>,
    pub k: usize,
    pub seed: u64,
    pub ops: u64,
}

impl Iblt {
    /// The mathematical state of the summary.
    pub open spec fn model(self) -> Seq<BucketModel> {
        self.buckets@.map_values(|b: Bucket| b@)
    }

    /// Number of buckets.
    pub open spec fn spec_m(self) -> int {
        self.buckets@.len() as int
    }

    /// Well-formedness: valid band layout and every count bounded by the
    /// operations accumulated so far.
    pub open spec fn wf(self) -> bool {
        &&& 1 <= self.k <= MAX_BANDS
        &&& self.k <= self.buckets@.len() <= MAX_BUCKETS
        &&& self.buckets@.len() as int % self.k as int == 0
        &&& self.ops <= MAX_OPS
        &&& forall|i: int|
            0 <= i < self.buckets@.len() ==> -(self.ops as int) <= (#[trigger] self.buckets@[i]).count
                as int <= self.ops as int
    }

    /// Two summaries built with identical bucket count, band count and seed
    /// may be subtracted.
    pub open spec fn compatible(self, other: Iblt) -> bool {
        self.k == other.k && self.seed == other.seed && self.buckets@.len()
            == other.buckets@.len()
    }

    /// Creates an empty summary of `m` buckets in `k` bands.
    pub fn new(m: usize, k: usize, seed: u64) -> (r: Iblt)
        requires
            1 <= k <= MAX_BANDS,
            k <= m <= MAX_BUCKETS,
            m % k == 0,
        ensures
            r.wf(),
            r.model() == zero_state(m as int),
            r.k == k,
            r.seed == seed,
            r.ops == 0,
            r.buckets@.len() == m,
    {
        let mut buckets: Vec<Bucket> = Vec::new();
        let mut i: usize = 0;
        while i < m
            invariant
                i <= m,
                buckets@.len() == i,
                forall|j: int| 0 <= j < i ==> (#[trigger] buckets@[j])@ == zero_bucket(),
            decreases m - i,
        {
            buckets.push(Bucket { count: 0, keysum_hi: 0, keysum_lo: 0, valuesum: 0, hashcheck: 0 });
            i += 1;
        }
        let r = Iblt { buckets, k, seed, ops: 0 };
        proof {
            assert(r.model() =~= zero_state(m as int));
        }
        r
    }

    /// Accumulates one signed item with an already-computed value checksum.
    fn apply_raw(&mut self, d: AdDigest, c: u64, sign: i64)
        requires
            old(self).wf(),
            sign == 1 || sign == -1i64,
            old(self).ops < MAX_OPS,
        ensures
            final(self).wf(),
            final(self).k == old(self).k,
            final(self).seed == old(self).seed,
            final(self).buckets@.len() == old(self).buckets@.len(),
            final(self).ops == old(self).ops + 1,
            final(self).model() == spec_apply(
                old(self).model(),
                old(self).seed,
                old(self).k as int,
                d,
                c,
                sign as int,
            ),
    {
        let ghost m0 = self.model();
        let ghost m = self.buckets@.len() as int;
        let ghost kk = self.k as int;
        let db = digest_to_bytes(d);
        let chk = sip_hash(self.seed, CHK_TAG, &db);
        let w = self.buckets.len() / self.k;
        let ghost wg = w as int;
        proof {
            assert(m == kk * wg) by (nonlinear_arith)
                requires
                    m % kk == 0,
                    wg == m / kk,
                    kk >= 1,
            ;
            assert(wg >= 1) by (nonlinear_arith)
                requires
                    m >= kk,
                    kk >= 1,
                    wg == m / kk,
            ;
        }
        let mut t: usize = 0;
        while t < self.k
            invariant
                1 <= self.k <= MAX_BANDS,
                self.k <= self.buckets@.len() <= MAX_BUCKETS,
                self.buckets@.len() as int % self.k as int == 0,
                t <= self.k,
                sign == 1 || sign == -1i64,
                self.k == old(self).k,
                self.seed == old(self).seed,
                self.ops == old(self).ops,
                self.ops < MAX_OPS,
                self.buckets@.len() == old(self).buckets@.len(),
                m == self.buckets@.len() as int,
                kk == self.k as int,
                wg == w as int,
                wg == m / kk,
                wg >= 1,
                m == kk * wg,
                db@ == digest_bytes(d),
                chk == spec_check(self.seed, d),
                m0 == old(self).model(),
                old(self).wf(),
                forall|i: int|
                    0 <= i < m ==> #[trigger] self.model()[i] == (
                    if spec_touches(i, self.seed, kk, m, d) && i / wg < t {
                        upd_bucket(m0[i], d, c, sign as int, self.seed)
                    } else {
                        m0[i]
                    }),
            decreases self.k - t,
        {
            let h = sip_hash(self.seed, t as u64, &db);
            let r = (h % (w as u64)) as usize;
            proof {
                assert(t * wg + r < m && t * wg >= 0) by (nonlinear_arith)
                    requires
                        0 <= t < kk,
                        0 <= r < wg,
                        m == kk * wg,
                ;
            }
            let idx = t * w + r;
            proof {
                lemma_fundamental_div_mod_converse(idx as int, wg, t as int, r as int);
                assert(idx as int / wg == t as int);
                assert(spec_bucket_index(self.seed, t as int, d, wg) == idx as int);
                assert(spec_touches(idx as int, self.seed, kk, m, d));
            }
            let ghost pre = *self;
            proof {
                assert(pre.model()[idx as int] == m0[idx as int]);
            }
            let b = self.buckets[idx];
            let nc: i64 = if sign == 1 {
                b.count + 1
            } else {
                b.count - 1
            };
            let nb = Bucket {
                count: nc,
                keysum_hi: b.keysum_hi ^ d.hi,
                keysum_lo: b.keysum_lo ^ d.lo,
                valuesum: b.valuesum ^ c,
                hashcheck: b.hashcheck ^ chk,
            };
            self.buckets.set(idx, nb);
            proof {
                assert(b@ == m0[idx as int]);
                assert(self.buckets@ == pre.buckets@.update(idx as int, nb));
                assert(self.buckets@[idx as int]@ == upd_bucket(
                    m0[idx as int],
                    d,
                    c,
                    sign as int,
                    self.seed,
                ));
                assert forall|i: int| 0 <= i < m implies #[trigger] self.model()[i] == (
                    if spec_touches(i, self.seed, kk, m, d) && i / wg < t + 1 {
                        upd_bucket(m0[i], d, c, sign as int, self.seed)
                    } else {
                        m0[i]
                    }) by {
                    if i != idx as int {
                        assert(self.model()[i] == pre.model()[i]);
                        if i / wg == t as int {
                            assert(!spec_touches(i, self.seed, kk, m, d));
                        }
                    }
                }
            }
            t += 1;
        }
        proof {
            assert(m0.len() == m);
            assert forall|i: int| 0 <= i < m implies #[trigger] (i / wg) < kk by {
                assert(i / wg < kk) by (nonlinear_arith)
                    requires
                        0 <= i < m,
                        m == kk * wg,
                        wg >= 1,
                ;
            }
            assert(self.model() =~= spec_apply(m0, self.seed, kk, d, c, sign as int));
        }
        let ghost done = *self;
        self.ops = self.ops + 1;
        proof {
            assert(self.buckets@ == done.buckets@);
            assert forall|i: int|
                0 <= i < self.buckets@.len() implies -(self.ops as int) <= (
            #[trigger] self.buckets@[i]).count as int <= self.ops as int by {
                assert(self.buckets@[i]@ == done.model()[i]);
                assert(done.model()[i] == spec_apply(m0, done.seed, kk, d, c, sign as int)[i]);
                assert(m0[i].count == old(self).buckets@[i]@.count);
            }
            assert(final(self).wf());
        }
    }

    /// Inserts a (digest, value) pair: each of the digest's `k` buckets gains
    /// a count, the digest in its keysum, and the value's checksum.
    pub fn insert(&mut self, d: AdDigest, v: u64)
        requires
            old(self).wf(),
            old(self).ops < MAX_OPS,
        ensures
            final(self).wf(),
            final(self).k == old(self).k,
            final(self).seed == old(self).seed,
            final(self).buckets@.len() == old(self).buckets@.len(),
            final(self).ops == old(self).ops + 1,
            final(self).model() == spec_apply(
                old(self).model(),
                old(self).seed,
                old(self).k as int,
                d,
                spec_valhash(old(self).seed, v),
                1,
            ),
    {
        let vb = u64_to_bytes(v);
        let c = sip_hash(self.seed, VAL_TAG, &vb);
        self.apply_raw(d, c, 1);
    }

    /// Erases a (digest, value) pair: the exact inverse of `insert`, so the
    /// round trip restores every touched bucket bit for bit.
    pub fn erase(&mut self, d: AdDigest, v: u64)
        requires
            old(self).wf(),
            old(self).ops < MAX_OPS,
        ensures
            final(self).wf(),
            final(self).k == old(self).k,
            final(self).seed == old(self).seed,
            final(self).buckets@.len() == old(self).buckets@.len(),
            final(self).ops == old(self).ops + 1,
            final(self).model() == spec_apply(
                old(self).model(),
                old(self).seed,
                old(self).k as int,
                d,
                spec_valhash(old(self).seed, v),
                -1,
            ),
    {
        let vb = u64_to_bytes(v);
        let c = sip_hash(self.seed, VAL_TAG, &vb);
        self.apply_raw(d, c, -1);
    }

    /// Recovers the items a summary holds by repeatedly peeling pure buckets
    /// (count `+1` or `-1` with a matching key checksum).
    ///
    /// On success the returned signed list explains the summary exactly: its
    /// encoding equals the summary state, so nothing is silently dropped or
    /// invented beyond what the bucket algebra can express.  An empty summary
    /// always decodes to the empty list.  `Undecodable` is returned when no
    /// pure bucket remains while some bucket is still nonzero; the caller
    /// must not trust any partial result and escalates instead.
    pub fn decode(&self) -> (r: Result<Vec<Decoded>, SyncError>)
        requires
            self.wf(),
        ensures
            match r {
                Ok(out) => {
                    &&& spec_encode(items_of(out@), self.spec_m(), self.k as int, self.seed)
                        == self.model()
                    &&& forall|i: int|
                        0 <= i < out@.len() ==> (#[trigger] out@[i]).sign == 1 || out@[i].sign
                            == -1i64
                },
                Err(e) => e == SyncError::Undecodable,
            },
            r is Ok <==> spec_peels(
                self.model(),
                self.k as int,
                self.seed,
                (MAX_OPS - self.ops) as nat,
            ),
            self.model() == zero_state(self.spec_m()) ==> r is Ok && r->Ok_0@.len() == 0,
    {
        let m = self.buckets.len();
        let mut wb: Vec<Bucket> = Vec::new();
        let mut i: usize = 0;
        while i < m
            invariant
                i <= m,
                m == self.buckets@.len(),
                wb@.len() == i,
                forall|j: int| 0 <= j < i ==> wb@[j] == self.buckets@[j],
            decreases m - i,
        {
            wb.push(self.buckets[i]);
            i += 1;
        }
        proof {
            assert(wb@ =~= self.buckets@);
        }
        let mut work = Iblt { buckets: wb, k: self.k, seed: self.seed, ops: self.ops };
        let mut out: Vec<Decoded> = Vec::new();
        let mut fuel: u64 = MAX_OPS - self.ops;
        let ghost fuel0 = (MAX_OPS - self.ops) as nat;
        proof {
            assert(work.model() == self.model());
            lemma_encode_len(items_of(out@), m as int, self.k as int, self.seed);
            assert(items_of(out@) =~= Seq::<SignedItem>::empty());
            lemma_state_add_zero(work.model());
            assert(state_add(
                spec_encode(items_of(out@), m as int, self.k as int, self.seed),
                work.model(),
            ) =~= state_add(zero_state(m as int), work.model()));
        }
        loop
            invariant
                self.wf(),
                m == self.buckets@.len(),
                work.wf(),
                work.k == self.k,
                work.seed == self.seed,
                work.buckets@.len() == m,
                work.ops + fuel == MAX_OPS,
                spec_peels(self.model(), self.k as int, self.seed, fuel0) == spec_peels(
                    work.model(),
                    self.k as int,
                    self.seed,
                    fuel as nat,
                ),
                fuel0 == (MAX_OPS - self.ops) as nat,
                state_add(
                    spec_encode(items_of(out@), m as int, self.k as int, self.seed),
                    work.model(),
                ) == self.model(),
                forall|j: int|
                    0 <= j < out@.len() ==> (#[trigger] out@[j]).sign == 1 || out@[j].sign
                        == -1i64,
                self.model() == zero_state(m as int) ==> work.model() == self.model()
                    && out@.len() == 0,
            decreases fuel,
        {
            let mut nonzero = false;
            let mut pure_idx: usize = m;
            let mut i: usize = 0;
            while i < m
                invariant
                    i <= m,
                    m == work.buckets@.len(),
                    work.wf(),
                    work.seed == self.seed,
                    nonzero == !(forall|j: int| 0 <= j < i ==> work.model()[j] == zero_bucket()),
                    pure_idx <= m,
                    pure_idx == m ==> forall|j: int|
                        0 <= j < i ==> !bucket_pure(#[trigger] work.model()[j], self.seed),
                    pure_idx < m ==> {
                        &&& pure_idx < i
                        &&& bucket_pure(work.model()[pure_idx as int], self.seed)
                        &&& forall|j: int|
                            0 <= j < pure_idx ==> !bucket_pure(
                                #[trigger] work.model()[j],
                                self.seed,
                            )
                    },
                decreases m - i,
            {
                let b = work.buckets[i];
                if b.count != 0 || b.keysum_hi != 0 || b.keysum_lo != 0 || b.valuesum != 0
                    || b.hashcheck != 0 {
                    nonzero = true;
                    proof {
                        assert(work.model()[i as int] != zero_bucket());
                    }
                }
                if (b.count == 1 || b.count == -1) && pure_idx == m {
                    let dg = AdDigest { hi: b.keysum_hi, lo: b.keysum_lo };
                    let db = digest_to_bytes(dg);
                    let hc = sip_hash(self.seed, CHK_TAG, &db);
                    if hc == b.hashcheck {
                        pure_idx = i;
                        proof {
                            assert(bucket_pure(work.model()[i as int], self.seed));
                        }
                    } else {
                        proof {
                            assert(!bucket_pure(work.model()[i as int], self.seed));
                        }
                    }
                } else {
                    proof {
                        if pure_idx == m {
                            assert(!bucket_pure(work.model()[i as int], self.seed));
                        }
                    }
                }
                i += 1;
            }
            if !nonzero {
                proof {
                    assert(all_zero(work.model()));
                    assert(spec_peels(work.model(), self.k as int, self.seed, fuel as nat));
                    assert(work.model() =~= zero_state(m as int));
                    lemma_encode_len(items_of(out@), m as int, self.k as int, self.seed);
                    let enc = spec_encode(items_of(out@), m as int, self.k as int, self.seed);
                    assert forall|j: int| 0 <= j < m implies enc[j] == state_add(
                        enc,
                        work.model(),
                    )[j] by {
                        xor_facts(enc[j].keysum_hi, 0, 0);
                        xor_facts(enc[j].keysum_lo, 0, 0);
                        xor_facts(enc[j].valuesum, 0, 0);
                        xor_facts(enc[j].hashcheck, 0, 0);
                    }
                    assert(enc =~= state_add(enc, work.model()));
                }
                return Ok(out);
            }
            if pure_idx == m || fuel == 0 {
                proof {
                    let wm = work.model();
                    let seed = self.seed;
                    assert(!all_zero(wm));
                    if pure_idx == m {
                        lemma_first_pure_at_is(wm, seed, 0, m as int);
                        assert(first_pure_at(wm, seed, 0) == wm.len());
                    } else {
                        lemma_first_pure_at_is(wm, seed, 0, pure_idx as int);
                    }
                    assert(!spec_peels(wm, self.k as int, seed, fuel as nat));
                }
                return Err(SyncError::Undecodable);
            }
            let b = work.buckets[pure_idx];
            let dg = AdDigest { hi: b.keysum_hi, lo: b.keysum_lo };
            let sg: i64 = b.count;
            let isg: i64 = if sg == 1 {
                -1
            } else {
                1
            };
            let ghost out_before = out@;
            let ghost work_before = work.model();
            let ghost fuel_before = fuel;
            proof {
                lemma_first_pure_at_is(work_before, self.seed, 0, pure_idx as int);
            }
            out.push(Decoded { digest: dg, checksum: b.valuesum, sign: sg });
            work.apply_raw(dg, b.valuesum, isg);
            fuel = fuel - 1;
            proof {
                let kk = self.k as int;
                let seed = self.seed;
                assert(!all_zero(work_before));
                assert(first_pure_at(work_before, seed, 0) == pure_idx as int);
                assert(work_before[pure_idx as int] == b@);
                assert(isg as int == -(b@.count));
                assert(work.model() == spec_apply(
                    work_before,
                    seed,
                    kk,
                    dg,
                    b.valuesum,
                    -(b@.count),
                ));
                assert(spec_peels(work_before, kk, seed, fuel_before as nat) == spec_peels(
                    work.model(),
                    kk,
                    seed,
                    fuel as nat,
                ));
                let it = SignedItem { d: dg, c: b.valuesum, sign: sg as int };
                assert(items_of(out@) =~= items_of(out_before).push(it));
                lemma_encode_push(items_of(out_before), it, m as int, kk, seed);
                lemma_encode_len(items_of(out_before), m as int, kk, seed);
                lemma_add_apply_cancel(
                    spec_encode(items_of(out_before), m as int, kk, seed),
                    work_before,
                    seed,
                    kk,
                    dg,
                    b.valuesum,
                    -(sg as int),
                );
                assert(isg as int == -(sg as int));
            }
        }
    }

    /// Bucket-wise subtraction.  The result encodes what the positively
    /// counted operand holds beyond the other, and vice versa negatively.
    pub fn subtract(&self, other: &Iblt) -> (r: Iblt)
        requires
            self.wf(),
            other.wf(),
            self.compatible(*other),
            self.ops + other.ops <= MAX_OPS,
        ensures
            r.wf(),
            r.k == self.k,
            r.seed == self.seed,
            r.buckets@.len() == self.buckets@.len(),
            r.ops == self.ops + other.ops,
            r.model() == state_sub(self.model(), other.model()),
    {
        let m = self.buckets.len();
        let mut buckets: Vec<Bucket> = Vec::new();
        let mut i: usize = 0;
        while i < m
            invariant
                i <= m,
                m == self.buckets@.len(),
                m == other.buckets@.len(),
                self.wf(),
                other.wf(),
                self.ops + other.ops <= MAX_OPS,
                buckets@.len() == i,
                forall|j: int|
                    0 <= j < i ==> (#[trigger] buckets@[j])@ == state_sub(
                        self.model(),
                        other.model(),
                    )[j],
                forall|j: int|
                    0 <= j < i ==> -(self.ops as int) - (other.ops as int) <= (
                    #[trigger] buckets@[j]).count as int <= self.ops as int + other.ops as int,
            decreases m - i,
        {
            let a = self.buckets[i];
            let b = other.buckets[i];
            buckets.push(
                Bucket {
                    count: a.count - b.count,
                    keysum_hi: a.keysum_hi ^ b.keysum_hi,
                    keysum_lo: a.keysum_lo ^ b.keysum_lo,
                    valuesum: a.valuesum ^ b.valuesum,
                    hashcheck: a.hashcheck ^ b.hashcheck,
                },
            );
            i += 1;
        }
        let r = Iblt { buckets, k: self.k, seed: self.seed, ops: self.ops + other.ops };
        proof {
            assert(r.model() =~= state_sub(self.model(), other.model()));
        }
        r
    }
}

} // verus!
