//! Streaming UTF-8 validation for text payloads.
//!
//! A text message may be split across frames at any byte position, so a
//! fragment can end in the middle of a multi-byte scalar encoding.  The
//! model here is a greedy front-to-back scan: `scan_valid_len` gives the
//! length of the longest prefix made of whole, valid scalar encodings, and
//! `incomplete_suffix` says whether what follows that prefix could still
//! grow into a valid encoding once more bytes arrive.

use vstd::prelude::*;
use vstd::utf8::*;

verus! {

/// Width in bytes of a UTF-8 scalar encoding led by `b`, or 0 when `b` can
/// never lead a valid encoding (the overlong leads 0xC0/0xC1 and 0xF5
/// upward).
pub open spec fn lead_width(b: u8) -> int {
    if is_leading_byte_width_1(b) {
        1
    } else if 0xc2 <= b && b <= 0xdf {
        2
    } else if is_leading_byte_width_3(b) {
        3
    } else if 0xf0 <= b && b <= 0xf4 {
        4
    } else {
        0
    }
}

/// Constraint on the second byte of a multi-byte encoding led by `b0`.
/// For the leads 0xE0, 0xED, 0xF0 and 0xF4 the range is narrower than a
/// plain continuation byte, ruling out overlong encodings, surrogates and
/// scalars past 0x10FFFF.
pub open spec fn second_byte_ok(b0: u8, b1: u8) -> bool {
    if b0 == 0xe0 {
        0xa0 <= b1 && b1 <= 0xbf
    } else if b0 == 0xed {
        0x80 <= b1 && b1 <= 0x9f
    } else if b0 == 0xf0 {
        0x90 <= b1 && b1 <= 0xbf
    } else if b0 == 0xf4 {
        0x80 <= b1 && b1 <= 0x8f
    } else {
        is_continuation_byte(b1)
    }
}

/// True when `s` is a non-empty strict prefix of the encoding of a single
/// scalar: more bytes could still complete it.  Never longer than 3 bytes.
pub open spec fn incomplete_suffix(s: Seq<u8>) -> bool {
    &&& 1 <= s.len() < lead_width(s[0])
    &&& (s.len() >= 2 ==> second_byte_ok(s[0], s[1]))
    &&& (s.len() >= 3 ==> is_continuation_byte(s[2]))
}

/// Length of the longest prefix of `s` made of whole, valid scalar
/// encodings: the greedy front-to-back scan.
pub open spec fn scan_valid_len(s: Seq<u8>) -> int
    decreases s.len(),
{
    if s.len() == 0 {
        0
    } else if valid_first_scalar(s) && 1 <= length_of_first_scalar(s) <= s.len() {
        length_of_first_scalar(s) + scan_valid_len(pop_first_scalar(s))
    } else {
        0
    }
}

/// The bytes past the greedy scan: empty, a completable suffix, or garbage.
pub open spec fn scan_rest(s: Seq<u8>) -> Seq<u8> {
    s.skip(scan_valid_len(s))
}

pub proof fn lemma_scan_valid_len_bounds(s: Seq<u8>)
    ensures
        0 <= scan_valid_len(s) <= s.len(),
    decreases s.len(),
{
    if s.len() != 0 && valid_first_scalar(s) && 1 <= length_of_first_scalar(s) <= s.len() {
        lemma_scan_valid_len_bounds(pop_first_scalar(s));
    }
}

/// The greedy scan covers all of `s` exactly when `s` is valid UTF-8.
pub proof fn lemma_scan_complete_iff_valid(s: Seq<u8>)
    ensures
        valid_utf8(s) <==> scan_valid_len(s) == s.len(),
    decreases s.len(),
{
    if s.len() != 0 {
        if valid_first_scalar(s) && 1 <= length_of_first_scalar(s) <= s.len() {
            lemma_scan_complete_iff_valid(pop_first_scalar(s));
            lemma_scan_valid_len_bounds(pop_first_scalar(s));
        }
    }
}

/// What the greedy scan accepts is valid UTF-8.
pub proof fn lemma_scan_prefix_valid(s: Seq<u8>)
    ensures
        valid_utf8(s.take(scan_valid_len(s))),
    decreases s.len(),
{
    if s.len() == 0 || !(valid_first_scalar(s) && 1 <= length_of_first_scalar(s) <= s.len()) {
        assert(s.take(0) =~= Seq::<u8>::empty());
    } else {
        let l = length_of_first_scalar(s);
        let p = pop_first_scalar(s);
        lemma_scan_valid_len_bounds(p);
        let k = scan_valid_len(p);
        let t = s.take(l + k);
        lemma_scan_prefix_valid(p);
        assert(valid_first_scalar(t));
        assert(length_of_first_scalar(t) == l);
        assert(pop_first_scalar(t) =~= p.take(k));
        assert(valid_utf8(pop_first_scalar(t)));
        assert(valid_utf8(t));
    }
}

/// Scanning past a valid prefix scans the remainder: the scan is
/// compositional, which is what lets text be validated chunk by chunk.
pub proof fn lemma_scan_append(p: Seq<u8>, q: Seq<u8>)
    requires
        valid_utf8(p),
    ensures
        scan_valid_len(p + q) == p.len() + scan_valid_len(q),
    decreases p.len(),
{
    if p.len() == 0 {
        assert(p + q =~= q);
    } else {
        let l = length_of_first_scalar(p);
        assert(valid_first_scalar(p));
        assert(1 <= l <= p.len());
        let s = p + q;
        assert forall|i: int| 0 <= i < p.len() implies s[i] == p[i] by {}
        assert(valid_first_scalar(s));
        assert(length_of_first_scalar(s) == l);
        assert(pop_first_scalar(s) =~= pop_first_scalar(p) + q);
        lemma_scan_append(pop_first_scalar(p), q);
    }
}

/// A completable suffix on its own scans to nothing: its first scalar is
/// still missing bytes.
pub proof fn lemma_incomplete_scans_zero(s: Seq<u8>)
    requires
        incomplete_suffix(s),
    ensures
        scan_valid_len(s) == 0,
{
    assert(!valid_leading_and_continuation_bytes_first_codepoint(s));
}

/// A strict, non-empty prefix of a single valid scalar encoding is a
/// completable suffix.
pub proof fn lemma_scalar_prefix_incomplete(c: Seq<u8>, i: int)
    requires
        valid_first_scalar(c),
        length_of_first_scalar(c) == c.len(),
        1 <= i < c.len(),
    ensures
        incomplete_suffix(c.take(i)),
{
    let b0 = c[0];
    let w = c.len() as int;
    if w == 2 {
        let b1 = c[1];
        let cp = codepoint_width_2(b0, b1);
        assert(0xc2 <= b0 <= 0xdf) by (bit_vector)
            requires
                0xc0 <= b0 <= 0xdf,
                0x80 <= b1 <= 0xbf,
                cp == ((((b0 & 0x1f) as u32) << 6) | ((b1 & 0x3f) as u32)),
                cp >= 0x80,
        ;
        assert(lead_width(b0) == 2);
    } else if w == 3 {
        let b1 = c[1];
        let b2 = c[2];
        let cp = codepoint_width_3(b0, b1, b2);
        if i >= 2 {
            assert(second_byte_ok(b0, b1)) by {
                if b0 == 0xe0 {
                    assert(0xa0 <= b1 <= 0xbf) by (bit_vector)
                        requires
                            b0 == 0xe0,
                            0x80 <= b1 <= 0xbf,
                            cp == ((((b0 & 0x0f) as u32) << 12) | (((b1 & 0x3f) as u32) << 6) | (
                            (b2 & 0x3f) as u32)),
                            cp >= 0x800,
                    ;
                } else if b0 == 0xed {
                    assert(0x80 <= b1 <= 0x9f) by (bit_vector)
                        requires
                            b0 == 0xed,
                            0x80 <= b1 <= 0xbf,
                            cp == ((((b0 & 0x0f) as u32) << 12) | (((b1 & 0x3f) as u32) << 6) | (
                            (b2 & 0x3f) as u32)),
                            !(0xd800 <= cp <= 0xdfff),
                    ;
                }
            }
        }
        assert(lead_width(b0) == 3);
    } else {
        let b1 = c[1];
        let b2 = c[2];
        let b3 = c[3];
        let cp = codepoint_width_4(b0, b1, b2, b3);
        assert(0xf0 <= b0 <= 0xf4) by (bit_vector)
            requires
                0xf0 <= b0 <= 0xf7,
                0x80 <= b1 <= 0xbf,
                cp == ((((b0 & 0x07) as u32) << 18) | (((b1 & 0x3f) as u32) << 12) | (((b2
                    & 0x3f) as u32) << 6) | ((b3 & 0x3f) as u32)),
                0x10000 <= cp <= 0x10ffff,
        ;
        if i >= 2 {
            assert(second_byte_ok(b0, b1)) by {
                if b0 == 0xf0 {
                    assert(0x90 <= b1 <= 0xbf) by (bit_vector)
                        requires
                            b0 == 0xf0,
                            0x80 <= b1 <= 0xbf,
                            cp == ((((b0 & 0x07) as u32) << 18) | (((b1 & 0x3f) as u32) << 12) | ((
                            (b2 & 0x3f) as u32) << 6) | ((b3 & 0x3f) as u32)),
                            cp >= 0x10000,
                    ;
                } else if b0 == 0xf4 {
                    assert(0x80 <= b1 <= 0x8f) by (bit_vector)
                        requires
                            b0 == 0xf4,
                            0x80 <= b1 <= 0xbf,
                            cp == ((((b0 & 0x07) as u32) << 18) | (((b1 & 0x3f) as u32) << 12) | ((
                            (b2 & 0x3f) as u32) << 6) | ((b3 & 0x3f) as u32)),
                            cp <= 0x10ffff,
                    ;
                }
            }
        }
        assert(lead_width(b0) == 4);
    }
}

/// Any prefix of a valid UTF-8 sequence scans to a remainder that is
/// either empty or completable: cutting valid text anywhere never makes
/// the scan reject.
pub proof fn lemma_prefix_of_valid_scans_clean(w: Seq<u8>, i: int)
    requires
        valid_utf8(w),
        0 <= i <= w.len(),
    ensures
        scan_rest(w.take(i)).len() == 0 || incomplete_suffix(scan_rest(w.take(i))),
    decreases w.len(),
{
    let s = w.take(i);
    if i == 0 {
        assert(s =~= Seq::<u8>::empty());
    } else {
        assert(valid_first_scalar(w));
        let l = length_of_first_scalar(w);
        assert(1 <= l <= w.len());
        if i < l {
            let c = w.take(l);
            assert(valid_first_scalar(c));
            assert(length_of_first_scalar(c) == l);
            lemma_scalar_prefix_incomplete(c, i);
            assert(c.take(i) =~= s);
            lemma_incomplete_scans_zero(s);
            assert(scan_rest(s) =~= s);
        } else {
            assert(valid_first_scalar(s));
            assert(length_of_first_scalar(s) == l);
            let p = pop_first_scalar(w);
            assert(pop_first_scalar(s) =~= p.take(i - l));
            lemma_prefix_of_valid_scans_clean(p, i - l);
            lemma_scan_valid_len_bounds(p.take(i - l));
            assert(scan_valid_len(s) == l + scan_valid_len(p.take(i - l)));
            assert(scan_rest(s) =~= scan_rest(p.take(i - l)));
        }
    }
}

/// The outcome of scanning one chunk of a text payload.
pub enum Utf8Chunk {
    /// The whole chunk is valid UTF-8.
    Complete,
    /// `valid_len` bytes of valid UTF-8 followed by 1 to 3 bytes that may
    /// yet be completed by the next chunk.
    Split { valid_len: usize },
    /// The chunk contains a byte sequence that no continuation can repair.
    Malformed,
}

/// Relies on `utf8::decode` (crate `utf-8`): it scans greedily from the
/// front and reports either the whole input as valid, a valid prefix with
/// an incomplete trailing scalar encoding, or an unrecoverable error.
#[verifier::external_body]
pub fn decode_chunk(b: &Vec<u8>) -> (r: Utf8Chunk)
    ensures
        ({
            let v = scan_valid_len(b@);
            let rem = b@.skip(v);
            match r {
                Utf8Chunk::Complete => rem.len() == 0,
                Utf8Chunk::Split { valid_len } => valid_len == v && incomplete_suffix(rem),
                Utf8Chunk::Malformed => rem.len() > 0 && !incomplete_suffix(rem),
            }
        }),
{
    match utf8::decode(b.as_slice()) {
        Ok(_) => Utf8Chunk::Complete,
        Err(utf8::DecodeError::Incomplete { valid_prefix, .. }) => Utf8Chunk::Split {
            valid_len: valid_prefix.len(),
        },
        Err(utf8::DecodeError::Invalid { .. }) => Utf8Chunk::Malformed,
    }
}

/// Relies on `simdutf8::basic::from_utf8`: it returns `Ok` exactly on
/// valid UTF-8, as `std::str::from_utf8` does.
#[verifier::external_body]
pub fn is_valid_utf8(b: &Vec<u8>) -> (r: bool)
    ensures
        r == valid_utf8(b@),
{
    simdutf8::basic::from_utf8(b.as_slice()).is_ok()
}

} // verus!
