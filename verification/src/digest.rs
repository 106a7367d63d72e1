//! Advertisement digests: the fixed-width content fingerprints that serve as
//! set-member keys throughout reconciliation.

use vstd::prelude::*;

verus! {

/// A 128-bit content fingerprint, held as two machine words.
///
/// The fingerprint of an advertisement is derived from its payload bytes by a
/// cryptographic hash, so a digest collision between differing contents does
/// not occur in practice; the reconciliation logic treats digests as opaque
/// keys.
#[derive(Clone, Copy, PartialEq, Eq, Structural, Hash, Debug)]
pub struct AdDigest {
    pub hi: u64,
    pub lo: u64,
}

/// What the SHA-256 compression of a byte string returns; the digest of a
/// payload is read from it.  The result depends on the input bytes alone.
pub uninterp spec fn sha256_of(data: Seq<u8>) -> Seq<u8>;

/// Little-endian byte decomposition of a machine word.
pub open spec fn u64_le_bytes(x: u64) -> Seq<u8> {
    Seq::new(8, |i: int| ((x >> (8 * i)) & 0xff) as u8)
}

/// The 16-byte serialization of a digest: low word first, little endian.
pub open spec fn digest_bytes(d: AdDigest) -> Seq<u8> {
    u64_le_bytes(d.lo) + u64_le_bytes(d.hi)
}

/// A machine word read back from 8 little-endian bytes.
pub open spec fn u64_from_le(b: Seq<u8>) -> u64
    recommends
        b.len() == 8,
{
    (b[0] as u64) | ((b[1] as u64) << 8) | ((b[2] as u64) << 16) | ((b[3] as u64) << 24)
        | ((b[4] as u64) << 32) | ((b[5] as u64) << 40) | ((b[6] as u64) << 48)
        | ((b[7] as u64) << 56)
}

/// The digest of an advertisement payload: the first 16 bytes of its SHA-256
/// hash, low word first.
pub open spec fn spec_payload_digest(payload: Seq<u8>) -> AdDigest {
    AdDigest {
        lo: u64_from_le(sha256_of(payload).subrange(0, 8)),
        hi: u64_from_le(sha256_of(payload).subrange(8, 16)),
    }
}

/// Total order on digests: by high word, then by low word.
pub open spec fn spec_digest_le(a: AdDigest, b: AdDigest) -> bool {
    a.hi < b.hi || (a.hi == b.hi && a.lo <= b.lo)
}

/// Relies on `bitcoin_hashes::sha256::Hash::hash` followed by
/// `to_byte_array`: the 32-byte SHA-256 digest of the input, a function of
/// the input bytes alone.
#[verifier::external_body]
fn sha256_bytes(data: &[u8]) -> (r: Vec<u8>)
    ensures
        r@ == sha256_of(data@),
        r@.len() == 32,
{
    bitcoin_hashes::sha256::Hash::hash(data).to_byte_array().to_vec()
}

/// Reads a machine word from 8 little-endian bytes of `v` starting at `off`.
pub fn u64_from_le_at(v: &Vec<u8>, off: usize) -> (r: u64)
    requires
        off + 8 <= v@.len(),
    ensures
        r == u64_from_le(v@.subrange(off as int, off as int + 8)),
{
    let n = v.len();
    let ghost s = v@.subrange(off as int, off as int + 8);
    let r = (v[off] as u64) | ((v[off + 1] as u64) << 8) | ((v[off + 2] as u64) << 16)
        | ((v[off + 3] as u64) << 24) | ((v[off + 4] as u64) << 32) | ((v[off + 5] as u64) << 40)
        | ((v[off + 6] as u64) << 48) | ((v[off + 7] as u64) << 56);
    proof {
        assert(s[0] == v@[off as int]);
        assert(s[1] == v@[off as int + 1]);
        assert(s[2] == v@[off as int + 2]);
        assert(s[3] == v@[off as int + 3]);
        assert(s[4] == v@[off as int + 4]);
        assert(s[5] == v@[off as int + 5]);
        assert(s[6] == v@[off as int + 6]);
        assert(s[7] == v@[off as int + 7]);
    }
    r
}

/// Computes the digest of a payload: the first 16 bytes of its SHA-256 hash.
pub fn payload_digest(payload: &[u8]) -> (r: AdDigest)
    ensures
        r == spec_payload_digest(payload@),
{
    let h = sha256_bytes(payload);
    let lo = u64_from_le_at(&h, 0);
    let hi = u64_from_le_at(&h, 8);
    AdDigest { hi, lo }
}

/// Decides whether `digest` is the true fingerprint of `payload`; items
/// received from a peer are admitted to the registry only when this holds.
pub fn verify_item(digest: AdDigest, payload: &[u8]) -> (r: bool)
    ensures
        r == (digest == spec_payload_digest(payload@)),
{
    let d = payload_digest(payload);
    digest.hi == d.hi && digest.lo == d.lo
}

/// Serializes a machine word to its 8 little-endian bytes.
pub fn u64_to_bytes(x: u64) -> (r: Vec<u8>)
    ensures
        r@ == u64_le_bytes(x),
{
    let mut out: Vec<u8> = Vec::new();
    let mut i: usize = 0;
    while i < 8
        invariant
            i <= 8,
            out@.len() == i,
            forall|j: int| 0 <= j < i ==> out@[j] == ((x >> (8 * j)) & 0xff) as u8,
        decreases 8 - i,
    {
        out.push(((x >> ((8 * i) as u64)) & 0xff) as u8);
        i += 1;
    }
    proof {
        assert(out@ =~= u64_le_bytes(x));
    }
    out
}

/// Serializes a digest to its 16 bytes, low word first, little endian.
pub fn digest_to_bytes(d: AdDigest) -> (r: Vec<u8>)
    ensures
        r@ == digest_bytes(d),
{
    let mut out = u64_to_bytes(d.lo);
    let mut hi = u64_to_bytes(d.hi);
    out.append(&mut hi);
    proof {
        assert(out@ =~= digest_bytes(d));
    }
    out
}

/// Executable comparison agreeing with `spec_digest_le`.
pub fn digest_le(a: &AdDigest, b: &AdDigest) -> (r: bool)
    ensures
        r == spec_digest_le(*a, *b),
{
    a.hi < b.hi || (a.hi == b.hi && a.lo <= b.lo)
}

/// A digest sequence sorted ascending under the digest order.
pub open spec fn digests_sorted(s: Seq<AdDigest>) -> bool {
    forall|i: int, j: int| 0 <= i < j < s.len() ==> spec_digest_le(s[i], s[j])
}

/// Sorts a digest list ascending; the result holds exactly the same digests,
/// with multiplicity.  Used to make difference lists deterministic.
pub fn sort_digests(v: &mut Vec<AdDigest>)
    ensures
        digests_sorted(final(v)@),
        final(v)@.to_multiset() == old(v)@.to_multiset(),
{
    let n = v.len();
    if n < 2 {
        return ;
    }
    let mut i: usize = 1;
    while i < n
        invariant
            n == v@.len(),
            1 <= i <= n,
            forall|p: int, q: int| 0 <= p < q < i ==> spec_digest_le(v@[p], v@[q]),
            v@.to_multiset() == old(v)@.to_multiset(),
        decreases n - i,
    {
        let mut j: usize = i;
        while j > 0 && !digest_le(&v[j - 1], &v[j])
            invariant
                n == v@.len(),
                j <= i < n,
                v@.to_multiset() == old(v)@.to_multiset(),
                forall|p: int, q: int|
                    0 <= p < q <= i && q != j ==> spec_digest_le(v@[p], v@[q]),
            decreases j,
        {
            proof {
                broadcast use vstd::seq_lib::group_to_multiset_ensures;
                broadcast use vstd::seq_lib::to_multiset_update;
                broadcast use vstd::multiset::group_multiset_axioms;
                broadcast use vstd::multiset::group_multiset_properties;

                let s = v@;
                let u = s.update(j - 1, s[j as int]);
                let t = u.update(j as int, s[j - 1]);
                assert(u[j as int] == s[j as int]);
                assert(s.contains(s[j - 1]) && s.contains(s[j as int]));
                assert(t.to_multiset() =~= s.to_multiset());
            }
            let tmp = v[j - 1];
            let tj = v[j];
            v.set(j - 1, tj);
            v.set(j, tmp);
            j -= 1;
        }
        proof {
            assert forall|p: int, q: int| 0 <= p < q <= i implies spec_digest_le(v@[p], v@[q]) by {
                if q == j {
                    assert(j > 0);
                    assert(spec_digest_le(v@[j - 1], v@[j as int]));
                    if p < j - 1 {
                        assert(spec_digest_le(v@[p], v@[j - 1]));
                    }
                }
            }
        }
        i += 1;
    }
}

} // verus!
