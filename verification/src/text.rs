//! Space-saving text storage for advertisement payloads: UTF-8 or UTF-16,
//! each optionally compressed, whichever is smallest.
//!
//! Plain UTF-8 is biased towards European scripts while CJK scripts take
//! many more bytes; since serialized length affects ranking, the encoder
//! also tries UTF-16 and compression and keeps the shortest form.  The
//! first stored byte holds two flag bits: bit 0 for UTF-16, bit 1 for
//! compression.

use vstd::prelude::*;

verus! {

/// A text error: the stored bytes do not decode under their flags.
#[derive(Clone, Copy, PartialEq, Eq, Structural, Debug)]
pub enum TextError {
    Malformed,
}

/// What Snappy raw compression returns for a byte string; a function of the
/// input bytes alone.
pub uninterp spec fn snap_of(data: Seq<u8>) -> Seq<u8>;

/// What Snappy raw decompression returns for a byte string: the recovered
/// bytes, or nothing when the input is not a valid compressed block.
pub uninterp spec fn unsnap_of(data: Seq<u8>) -> Option<Seq<u8>>;

/// What `str::encode_utf16` returns for a string's characters.
pub uninterp spec fn utf16_of(s: Seq<char>) -> Seq<u16>;

/// What `str::as_bytes` returns for a string's characters: its UTF-8 bytes.
pub uninterp spec fn utf8_of(s: Seq<char>) -> Seq<u8>;

/// The largest input `snap::raw::Encoder::compress` accepts: it refuses an
/// input whenever `32 + len + len / 6` exceeds `u32::MAX`, so the last
/// accepted length is this one.
pub const SNAP_MAX_INPUT: u64 = 3681400511;

/// Relies on `snap::raw::Encoder::compress_vec`: the Snappy compression of
/// the input, which `snap::raw::Decoder` recovers losslessly.  It fails
/// only when `32 + len + len / 6` exceeds `u32::MAX`, which the caller
/// excludes; a nonempty input compresses to at least a length header, a
/// literal tag and one content byte.
#[verifier::external_body]
fn snap_compress(data: &Vec<u8>) -> (r: Vec<u8>)
    requires
        data@.len() <= SNAP_MAX_INPUT,
    ensures
        r@ == snap_of(data@),
        unsnap_of(r@) == Some(data@),
        data@.len() > 0 ==> r@.len() >= 3,
{
    snap::raw::Encoder::new().compress_vec(data.as_slice()).unwrap()
}

/// Relies on `snap::raw::Decoder::decompress_vec`: recovers the compressed
/// bytes, or reports that the input is not a valid compressed block.
#[verifier::external_body]
fn snap_decompress(data: &Vec<u8>) -> (r: Option<Vec<u8>>)
    ensures
        match r {
            Some(v) => unsnap_of(data@) == Some(v@),
            None => unsnap_of(data@) is None,
        },
{
    match snap::raw::Decoder::new().decompress_vec(data.as_slice()) {
        Ok(v) => Some(v),
        Err(_) => None,
    }
}

/// Relies on `str::encode_utf16`: the UTF-16 code units of the string.
#[verifier::external_body]
fn encode_utf16_units(s: &str) -> (r: Vec<u16>)
    ensures
        r@ == utf16_of(s@),
{
    s.encode_utf16().collect()
}

/// Relies on `String::from_utf16`: decodes UTF-16 code units, so the exact
/// encoding of any string decodes back to that string, and a decoded
/// string re-encodes to the very units that were decoded.
#[verifier::external_body]
fn utf16_units_to_string(v: &Vec<u16>) -> (r: Option<String>)
    ensures
        forall|t: Seq<char>| v@ == utf16_of(t) ==> r is Some && r->Some_0@ == t,
        r is Some ==> v@ == utf16_of(r->Some_0@),
{
    String::from_utf16(v.as_slice()).ok()
}

/// Relies on `str::as_bytes`: the UTF-8 bytes of the string.
#[verifier::external_body]
fn str_utf8_bytes(s: &str) -> (r: Vec<u8>)
    ensures
        r@ == utf8_of(s@),
{
    s.as_bytes().to_vec()
}

/// Relies on `String::from_utf8`: decodes UTF-8 bytes, so the exact
/// encoding of any string decodes back to that string, and a decoded
/// string's UTF-8 bytes are the very bytes that were decoded.
#[verifier::external_body]
fn string_from_utf8(v: &Vec<u8>) -> (r: Option<String>)
    ensures
        forall|t: Seq<char>| v@ == utf8_of(t) ==> r is Some && r->Some_0@ == t,
        r is Some ==> v@ == utf8_of(r->Some_0@),
{
    String::from_utf8(v.clone()).ok()
}

/// The little-endian byte serialization of a sequence of UTF-16 code units.
pub open spec fn u16s_le_bytes(u: Seq<u16>) -> Seq<u8> {
    Seq::new(
        2 * u.len(),
        |i: int|
            if i % 2 == 0 {
                (u[i / 2] & 0xff) as u8
            } else {
                (u[i / 2] >> 8) as u8
            },
    )
}

/// Serializes UTF-16 code units to little-endian bytes.
fn u16s_to_le_bytes(v: &Vec<u16>) -> (r: Vec<u8>)
    ensures
        r@ == u16s_le_bytes(v@),
{
    let n = v.len();
    let mut r: Vec<u8> = Vec::new();
    let mut i: usize = 0;
    while i < n
        invariant
            i <= n,
            n == v@.len(),
            r@ == u16s_le_bytes(v@.take(i as int)),
        decreases n - i,
    {
        let u = v[i];
        r.push((u & 0xff) as u8);
        r.push((u >> 8) as u8);
        proof {
            assert(r@ =~= u16s_le_bytes(v@.take(i + 1)));
        }
        i += 1;
    }
    proof {
        assert(v@.take(n as int) =~= v@);
    }
    r
}

proof fn u16_byte_facts(u: u16)
    by (bit_vector)
    ensures
        ((u & 0xff) as u8 as u16) | (((u >> 8) as u8 as u16) << 8) == u,
{
}

proof fn u16_combine_facts(lo: u8, hi: u8)
    by (bit_vector)
    ensures
        ((((lo as u16) | ((hi as u16) << 8)) & 0xff) as u8) == lo,
        ((((lo as u16) | ((hi as u16) << 8)) >> 8) as u8) == hi,
{
}

/// Reads UTF-16 code units back from little-endian bytes: the exact
/// serialization of any unit sequence reads back as that sequence, and an
/// even-length byte string is exactly the serialization of the result.
fn u16s_from_le_bytes(b: &Vec<u8>) -> (r: Vec<u16>)
    ensures
        r@.len() == b@.len() / 2,
        forall|u: Seq<u16>| b@ == u16s_le_bytes(u) ==> r@ == u,
        b@.len() % 2 == 0 ==> u16s_le_bytes(r@) == b@,
{
    let blen = b.len();
    let n = blen / 2;
    let mut r: Vec<u16> = Vec::new();
    let mut i: usize = 0;
    while i < n
        invariant
            i <= n,
            blen == b@.len(),
            n == b@.len() / 2,
            2 * n <= b@.len(),
            r@.len() == i,
            forall|j: int|
                0 <= j < i ==> #[trigger] r@[j] == ((b@[2 * j] as u16) | ((b@[2 * j + 1] as u16)
                    << 8)),
        decreases n - i,
    {
        let lo = b[2 * i];
        let hi = b[2 * i + 1];
        r.push((lo as u16) | ((hi as u16) << 8));
        i += 1;
    }
    proof {
        assert forall|u: Seq<u16>| b@ == u16s_le_bytes(u) implies r@ == u by {
            assert(b@.len() == 2 * u.len());
            assert(r@.len() == u.len());
            assert forall|j: int| 0 <= j < u.len() implies r@[j] == u[j] by {
                assert(b@[2 * j] == (u[j] & 0xff) as u8);
                assert(b@[2 * j + 1] == (u[j] >> 8) as u8);
                u16_byte_facts(u[j]);
            }
            assert(r@ =~= u);
        }
        if b@.len() % 2 == 0 {
            assert forall|j: int| 0 <= j < b@.len() implies u16s_le_bytes(r@)[j] == b@[j] by {
                u16_combine_facts(b@[2 * (j / 2)], b@[2 * (j / 2) + 1]);
                assert(r@[j / 2] == ((b@[2 * (j / 2)] as u16) | ((b@[2 * (j / 2) + 1] as u16)
                    << 8)));
            }
            assert(u16s_le_bytes(r@) =~= b@);
        }
    }
    r
}

/// A text object holding a string in its smallest supported encoding: one
/// flag byte (bit 0: UTF-16, bit 1: compressed) followed by the payload.
#[derive(Debug, Clone, PartialEq, Eq)]
pub struct Text {
    encoded: Vec<u8>,
}

impl View for Text {
    type V = Seq<u8>;

    closed spec fn view(&self) -> Seq<u8> {
        self.encoded@
    }
}

/// Whether the stored bytes `enc` are a well-formed encoding of the
/// character sequence `s` under the flag byte's bits.
pub open spec fn text_encodes(enc: Seq<u8>, s: Seq<char>) -> bool {
    &&& enc.len() >= 1
    &&& {
        let raw: Option<Seq<u8>> = if enc[0] & 2 != 0 {
            unsnap_of(enc.skip(1))
        } else {
            Some(enc.skip(1))
        };
        match raw {
            Some(bytes) => if enc[0] & 1 != 0 {
                bytes == u16s_le_bytes(utf16_of(s))
            } else {
                bytes == utf8_of(s)
            },
            None => false,
        }
    }
}

/// Whether the encoder picks UTF-16: only when the UTF-16 serialization is
/// no longer than the UTF-8 one.
pub open spec fn chooses_utf16(s: Seq<char>) -> bool {
    !(utf8_of(s).len() < u16s_le_bytes(utf16_of(s)).len())
}

/// The uncompressed payload the encoder picks: the shorter of the two
/// serializations, UTF-8 winning ties.
pub open spec fn plain_form(s: Seq<char>) -> Seq<u8> {
    if chooses_utf16(s) {
        u16s_le_bytes(utf16_of(s))
    } else {
        utf8_of(s)
    }
}

/// Whether the encoder stores the compressed payload: only when the picked
/// payload is within the compressor's limit and compression is strictly
/// shorter.
pub open spec fn chooses_compression(s: Seq<char>) -> bool {
    plain_form(s).len() <= SNAP_MAX_INPUT && snap_of(plain_form(s)).len() < plain_form(s).len()
}

/// The exact bytes `Text::new` stores for a string: a pure function of the
/// characters, so every node encodes a given string identically.
pub open spec fn spec_text_new(s: Seq<char>) -> Seq<u8> {
    let flag = ((if chooses_utf16(s) {
        1int
    } else {
        0int
    }) + (if chooses_compression(s) {
        2int
    } else {
        0int
    })) as u8;
    seq![flag] + if chooses_compression(s) {
        snap_of(plain_form(s))
    } else {
        plain_form(s)
    }
}

impl Text {
    /// Encodes a string: UTF-8 or UTF-16, whichever is fewer bytes (bit 0
    /// of the flag byte set exactly when UTF-16 is no longer), compressed
    /// exactly when compression is strictly shorter (bit 1).  The stored
    /// bytes are a pure function of the string, never longer than one byte
    /// beyond the shorter serialization, and always decode back to it.
    pub fn new(s: &str) -> (r: Text)
        ensures
            r@ == spec_text_new(s@),
            text_encodes(r@, s@),
            r@[0] < 4,
            r@.len() <= 1 + plain_form(s@).len(),
            plain_form(s@).len() <= utf8_of(s@).len(),
    {
        let utf8 = str_utf8_bytes(s);
        let units = encode_utf16_units(s);
        let utf16b = u16s_to_le_bytes(&units);
        let use_utf16 = !(utf8.len() < utf16b.len());
        let data = if use_utf16 {
            utf16b
        } else {
            utf8
        };
        let ghost dataview = data@;
        let mut use_comp = false;
        let mut payload = data;
        if payload.len() as u64 <= SNAP_MAX_INPUT {
            let compressed = snap_compress(&payload);
            if compressed.len() < payload.len() {
                use_comp = true;
                payload = compressed;
            }
        }
        proof {
            assert(use_comp ==> unsnap_of(payload@) == Some(dataview));
            assert(!use_comp ==> payload@ == dataview);
            assert(use_utf16 == chooses_utf16(s@));
            assert(dataview == plain_form(s@));
            assert(use_comp == chooses_compression(s@));
            assert(use_comp ==> payload@ == snap_of(plain_form(s@)));
        }
        let flag: u8 = if use_utf16 {
            if use_comp {
                3
            } else {
                1
            }
        } else {
            if use_comp {
                2
            } else {
                0
            }
        };
        proof {
            assert(0u8 & 2 == 0 && 0u8 & 1 == 0 && 1u8 & 2 == 0 && 1u8 & 1 == 1 && 2u8 & 2 == 2
                && 2u8 & 1 == 0 && 3u8 & 2 == 2 && 3u8 & 1 == 1) by (bit_vector);
        }
        let mut encoded: Vec<u8> = Vec::new();
        encoded.push(flag);
        let mut tail = payload;
        let ghost pay = tail@;
        encoded.append(&mut tail);
        let r = Text { encoded };
        proof {
            assert(r@.len() == 1 + pay.len());
            assert(r@[0] == flag);
            assert(r@.skip(1) =~= pay);
            assert((flag & 1 != 0) == use_utf16);
            assert((flag & 2 != 0) == use_comp);
            assert(text_encodes(r@, s@));
            assert(flag == ((if chooses_utf16(s@) {
                1int
            } else {
                0int
            }) + (if chooses_compression(s@) {
                2int
            } else {
                0int
            })) as u8);
            assert(r@ =~= spec_text_new(s@));
        }
        r
    }

    /// Wraps already-encoded bytes as received from the wire.
    pub fn from_encoded(encoded: &[u8]) -> (r: Text)
        ensures
            r@ == encoded@,
    {
        let n = encoded.len();
        let mut v: Vec<u8> = Vec::new();
        let mut i: usize = 0;
        while i < n
            invariant
                i <= n,
                n == encoded@.len(),
                v@ == encoded@.take(i as int),
            decreases n - i,
        {
            let b = *vstd::slice::slice_index_get(encoded, i);
            v.push(b);
            proof {
                assert(v@ =~= encoded@.take(i + 1));
            }
            i += 1;
        }
        proof {
            assert(v@ =~= encoded@);
        }
        Text { encoded: v }
    }

    /// The encoded storage bytes.
    pub fn as_bytes(&self) -> (r: &[u8])
        ensures
            r@ == self@,
    {
        self.encoded.as_slice()
    }

    /// The current encoding's flag byte.
    pub fn encoding(&self) -> (r: u8)
        requires
            self@.len() >= 1,
        ensures
            r == self@[0],
    {
        self.encoded[0]
    }

    /// Decodes the stored bytes back into a string: exactly the strings the
    /// storage well-formedly encodes are returned, and any malformed
    /// storage — an invalid compressed block, an odd UTF-16 body, bytes
    /// invalid for their flags — is reported, never silently misread.
    pub fn as_string(&self) -> (r: Result<String, TextError>)
        requires
            self@.len() >= 1,
        ensures
            forall|t: Seq<char>| text_encodes(self@, t) ==> r is Ok && r->Ok_0@ == t,
            match r {
                Ok(st) => text_encodes(self@, st@),
                Err(_) => !(exists|t: Seq<char>| text_encodes(self@, t)),
            },
    {
        let flag = self.encoded[0];
        let n = self.encoded.len();
        let mut payload: Vec<u8> = Vec::new();
        let mut i: usize = 1;
        while i < n
            invariant
                1 <= i <= n,
                n == self.encoded@.len(),
                payload@ == self.encoded@.subrange(1, i as int),
            decreases n - i,
        {
            payload.push(self.encoded[i]);
            proof {
                assert(payload@ =~= self.encoded@.subrange(1, i + 1));
            }
            i += 1;
        }
        proof {
            assert(payload@ =~= self@.skip(1));
        }
        let raw: Option<Vec<u8>> = if flag & 2 != 0 {
            snap_decompress(&payload)
        } else {
            Some(payload)
        };
        let bytes = match raw {
            Some(v) => v,
            None => {
                return Err(TextError::Malformed);
            },
        };
        if flag & 1 != 0 {
            if bytes.len() % 2 != 0 {
                // a UTF-16 body has an even length; a trailing odd byte is
                // corruption, not content to drop
                return Err(TextError::Malformed);
            }
            let units = u16s_from_le_bytes(&bytes);
            match utf16_units_to_string(&units) {
                Some(st) => Ok(st),
                None => Err(TextError::Malformed),
            }
        } else {
            match string_from_utf8(&bytes) {
                Some(st) => Ok(st),
                None => Err(TextError::Malformed),
            }
        }
    }
}

} // verus!
