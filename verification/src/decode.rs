//! The UTF-8 model of the decoder: the scalars contained in the longest
//! decodable prefix of a byte sequence, and how decoding a bounded window
//! of the input relates to decoding the input as a whole.

use vstd::prelude::*;
use vstd::utf8::*;

verus! {

/// Length in bytes of the longest prefix of `bytes` that is a sequence of
/// complete, valid UTF-8 scalar encodings.
pub open spec fn valid_prefix_len(bytes: Seq<u8>) -> int
    decreases bytes.len(),
{
    if bytes.len() == 0 || !valid_first_scalar(bytes) {
        0
    } else {
        length_of_first_scalar(bytes) + valid_prefix_len(pop_first_scalar(bytes))
    }
}

/// The scalar values encoded in the longest decodable prefix of `bytes`.
/// Unlike [`decode_utf8`], this is meaningful for every input: decoding
/// stops at the first position where no complete, valid scalar begins.
pub open spec fn decoded_prefix(bytes: Seq<u8>) -> Seq<char>
    decreases bytes.len(),
{
    if bytes.len() == 0 || !valid_first_scalar(bytes) {
        seq![]
    } else {
        seq![decode_first_scalar(bytes) as char] + decoded_prefix(pop_first_scalar(bytes))
    }
}

/// Relies on char::from_u32: returns the character with the given numerical
/// value whenever that value is a Unicode scalar.
#[verifier::external_body]
fn char_from_scalar(v: u32) -> (c: char)
    requires
        is_scalar(v),
    ensures
        c as u32 == v,
{
    char::from_u32(v).unwrap()
}

/// Decode the scalar encoded at offset `i` of the window, if a complete,
/// valid encoding begins there. Returns the scalar and the number of bytes
/// of its encoding.
fn decode_scalar_at(w: &Vec<u8>, i: usize) -> (r: Option<(char, usize)>)
    requires
        i < w@.len(),
    ensures
        match r {
            Some(p) => {
                &&& valid_first_scalar(w@.skip(i as int))
                &&& p.1 as int == length_of_first_scalar(w@.skip(i as int))
                &&& p.0 as u32 == decode_first_scalar(w@.skip(i as int))
                &&& i + p.1 <= w@.len()
            },
            None => !valid_first_scalar(w@.skip(i as int)),
        },
{
    let ghost tail = w@.skip(i as int);
    let n = w.len();
    let b0 = w[i];
    if b0 < 0x80 {
        assert((b0 & 0x7f) == b0 && b0 as u32 <= 0x7f) by (bit_vector)
            requires
                b0 < 0x80,
        ;
        let c = char_from_scalar(b0 as u32);
        proof {
            char_u32_cast(c, b0 as u32);
        }
        Some((c, 1))
    } else if b0 < 0xc2 {
        // A lone continuation byte cannot lead, and 0xc0 / 0xc1 can only
        // begin an overlong encoding of a value below 0x80.
        proof {
            if valid_first_scalar(tail) {
                if 0xc0 <= b0 {
                    let b1g = tail[1];
                    assert(codepoint_width_2(b0, b1g) == (((b0 & 0x1f) as u32) << 6) | ((b1g
                        & 0x3f) as u32));
                    assert((((b0 & 0x1f) as u32) << 6) | ((b1g & 0x3f) as u32) < 0x80)
                        by (bit_vector)
                        requires
                            0xc0 <= b0 < 0xc2,
                    ;
                }
            }
        }
        None
    } else if b0 < 0xe0 {
        if n - i < 2 {
            return None;
        }
        let b1 = w[i + 1];
        if !(0x80 <= b1 && b1 < 0xc0) {
            return None;
        }
        let cp: u32 = (((b0 & 0x1f) as u32) << 6) | ((b1 & 0x3f) as u32);
        assert(0x80 <= cp <= 0x7ff) by (bit_vector)
            requires
                cp == (((b0 & 0x1f) as u32) << 6) | ((b1 & 0x3f) as u32),
                0xc2 <= b0 < 0xe0,
                0x80 <= b1 < 0xc0,
        ;
        let c = char_from_scalar(cp);
        proof {
            char_u32_cast(c, cp);
        }
        Some((c, 2))
    } else if b0 < 0xf0 {
        if n - i < 3 {
            return None;
        }
        let b1 = w[i + 1];
        let b2 = w[i + 2];
        if !(0x80 <= b1 && b1 < 0xc0) || !(0x80 <= b2 && b2 < 0xc0) {
            return None;
        }
        let cp: u32 = (((b0 & 0x0f) as u32) << 12) | (((b1 & 0x3f) as u32) << 6) | ((b2
            & 0x3f) as u32);
        assert(cp <= 0xffff) by (bit_vector)
            requires
                cp == (((b0 & 0x0f) as u32) << 12) | (((b1 & 0x3f) as u32) << 6) | ((b2
                    & 0x3f) as u32),
        ;
        if cp < 0x800 {
            return None;
        }
        if 0xd800 <= cp && cp <= 0xdfff {
            return None;
        }
        let c = char_from_scalar(cp);
        proof {
            char_u32_cast(c, cp);
        }
        Some((c, 3))
    } else if b0 < 0xf8 {
        if n - i < 4 {
            return None;
        }
        let b1 = w[i + 1];
        let b2 = w[i + 2];
        let b3 = w[i + 3];
        if !(0x80 <= b1 && b1 < 0xc0) || !(0x80 <= b2 && b2 < 0xc0) || !(0x80 <= b3 && b3
            < 0xc0) {
            return None;
        }
        let cp: u32 = (((b0 & 0x07) as u32) << 18) | (((b1 & 0x3f) as u32) << 12) | (((b2
            & 0x3f) as u32) << 6) | ((b3 & 0x3f) as u32);
        if cp < 0x10000 || cp > 0x10ffff {
            return None;
        }
        let c = char_from_scalar(cp);
        proof {
            char_u32_cast(c, cp);
        }
        Some((c, 4))
    } else {
        None
    }
}

/// Decode the maximal valid prefix of a window of bytes: the scalars it
/// encodes, and how many bytes of the window they cover.
pub fn decode_window(window: &Vec<u8>) -> (r: (Vec<char>, usize))
    ensures
        r.1 as int == valid_prefix_len(window@),
        r.0@ == decoded_prefix(window@),
{
    let mut chars: Vec<char> = Vec::new();
    let mut i: usize = 0;
    proof {
        assert(window@.skip(0) =~= window@);
    }
    while i < window.len()
        invariant
            i <= window@.len(),
            valid_prefix_len(window@) == i + valid_prefix_len(window@.skip(i as int)),
            decoded_prefix(window@) == chars@ + decoded_prefix(window@.skip(i as int)),
        decreases window@.len() - i,
    {
        let ghost tail = window@.skip(i as int);
        match decode_scalar_at(window, i) {
            None => {
                proof {
                    assert(chars@ + decoded_prefix(tail) =~= chars@);
                }
                return (chars, i);
            },
            Some(p) => {
                let (c, l) = p;
                proof {
                    char_u32_cast(c, decode_first_scalar(tail));
                    assert(pop_first_scalar(tail) =~= window@.skip(i + l));
                    assert(chars@ + (seq![decode_first_scalar(tail) as char]
                        + decoded_prefix(window@.skip(i + l))) =~= chars@.push(c)
                        + decoded_prefix(window@.skip(i + l)));
                }
                chars.push(c);
                i = i + l;
            },
        }
    }
    proof {
        assert(chars@ + decoded_prefix(window@.skip(i as int)) =~= chars@);
    }
    (chars, i)
}

/// An acceptable second byte for a 3-byte encoding led by `b0`: the ranges
/// exclude continuations that could only form overlong encodings (lead 0xe0)
/// or surrogate values (lead 0xed).
pub open spec fn fits_second_of_3(b0: u8, b1: u8) -> bool {
    &&& is_continuation_byte(b1)
    &&& (b0 == 0xe0 ==> b1 >= 0xa0)
    &&& (b0 == 0xed ==> b1 <= 0x9f)
}

/// An acceptable second byte for a 4-byte encoding led by `b0`: the ranges
/// exclude continuations that could only form overlong encodings (lead 0xf0)
/// or values beyond the last scalar (lead 0xf4).
pub open spec fn fits_second_of_4(b0: u8, b1: u8) -> bool {
    &&& is_continuation_byte(b1)
    &&& (b0 == 0xf0 ==> b1 >= 0x90)
    &&& (b0 == 0xf4 ==> b1 <= 0x8f)
}

/// The window ends in the middle of a scalar encoding: it carries a lead
/// byte announcing more bytes than the window holds, and every continuation
/// byte it does hold is acceptable at its position, so some longer input
/// would have completed a valid scalar where this window stops short.
pub open spec fn incomplete_first_scalar(w: Seq<u8>) -> bool {
    &&& w.len() >= 1
    &&& {
        ||| (0xc2 <= w[0] <= 0xdf && w.len() < 2)
        ||| (0xe0 <= w[0] <= 0xef && w.len() < 3 && (w.len() < 2 || fits_second_of_3(
            w[0],
            w[1],
        )))
        ||| (0xf0 <= w[0] <= 0xf4 && w.len() < 4 && (w.len() < 2 || fits_second_of_4(
            w[0],
            w[1],
        )) && (w.len() < 3 || is_continuation_byte(w[2])))
    }
}

/// A non-empty window is incomplete exactly when appending further bytes
/// could complete a valid scalar encoding longer than the window itself: an
/// incomplete window is a chunk-boundary artifact, while any other window
/// that fails to decode is a genuine error that no further input could
/// repair.
pub proof fn lemma_incomplete_iff_extendable(w: Seq<u8>)
    requires
        w.len() >= 1,
    ensures
        incomplete_first_scalar(w) <==> exists|ext: Seq<u8>|
            valid_first_scalar(w + ext) && w.len() < length_of_first_scalar(w + ext),
{
    let n = w.len() as int;
    let b0 = w[0];
    if incomplete_first_scalar(w) {
        if 0xc2 <= b0 <= 0xdf {
            let ext = seq![0x80u8];
            let u = w + ext;
            assert(u.len() == 2 && u[0] == b0 && u[1] == 0x80);
            let cp = codepoint_width_2(b0, 0x80);
            assert(0x80 <= cp <= 0x7ff) by (bit_vector)
                requires
                    cp == (((b0 & 0x1f) as u32) << 6) | ((0x80u8 & 0x3f) as u32),
                    0xc2 <= b0 <= 0xdf,
            ;
            assert(valid_first_scalar(w + ext) && w.len() < length_of_first_scalar(w + ext));
        } else if 0xe0 <= b0 <= 0xef {
            let snd: u8 = if n == 2 {
                w[1]
            } else if b0 == 0xe0 {
                0xa0
            } else {
                0x80
            };
            let ext: Seq<u8> = if n == 2 {
                seq![0x80u8]
            } else {
                seq![snd, 0x80u8]
            };
            let u = w + ext;
            assert(u.len() == 3 && u[0] == b0 && u[1] == snd && u[2] == 0x80);
            assert(is_continuation_byte(snd) && (b0 == 0xe0 ==> snd >= 0xa0) && (b0 == 0xed
                ==> snd <= 0x9f));
            let cp = codepoint_width_3(b0, snd, 0x80);
            assert(0x800 <= cp <= 0xffff && !(0xd800 <= cp <= 0xdfff)) by (bit_vector)
                requires
                    cp == (((b0 & 0x0f) as u32) << 12) | (((snd & 0x3f) as u32) << 6) | ((
                    0x80u8 & 0x3f) as u32),
                    0xe0 <= b0 <= 0xef,
                    0x80 <= snd <= 0xbf,
                    b0 == 0xe0 ==> snd >= 0xa0,
                    b0 == 0xed ==> snd <= 0x9f,
            ;
            assert(valid_first_scalar(w + ext) && w.len() < length_of_first_scalar(w + ext));
        } else {
            assert(0xf0 <= b0 <= 0xf4);
            let snd: u8 = if n >= 2 {
                w[1]
            } else if b0 == 0xf0 {
                0x90
            } else {
                0x80
            };
            let thd: u8 = if n == 3 {
                w[2]
            } else {
                0x80
            };
            let ext: Seq<u8> = if n == 3 {
                seq![0x80u8]
            } else if n == 2 {
                seq![thd, 0x80u8]
            } else {
                seq![snd, thd, 0x80u8]
            };
            let u = w + ext;
            assert(u.len() == 4 && u[0] == b0 && u[1] == snd && u[2] == thd && u[3] == 0x80);
            assert(is_continuation_byte(snd) && (b0 == 0xf0 ==> snd >= 0x90) && (b0 == 0xf4
                ==> snd <= 0x8f) && is_continuation_byte(thd));
            let cp = codepoint_width_4(b0, snd, thd, 0x80);
            assert(0x10000 <= cp <= 0x10ffff) by (bit_vector)
                requires
                    cp == (((b0 & 0x07) as u32) << 18) | (((snd & 0x3f) as u32) << 12) | (((
                    thd & 0x3f) as u32) << 6) | ((0x80u8 & 0x3f) as u32),
                    0xf0 <= b0 <= 0xf4,
                    0x80 <= snd <= 0xbf,
                    b0 == 0xf0 ==> snd >= 0x90,
                    b0 == 0xf4 ==> snd <= 0x8f,
                    0x80 <= thd <= 0xbf,
            ;
            assert(valid_first_scalar(w + ext) && w.len() < length_of_first_scalar(w + ext));
        }
    }
    if exists|ext: Seq<u8>|
        valid_first_scalar(w + ext) && w.len() < length_of_first_scalar(w + ext) {
        let ext = choose|ext: Seq<u8>|
            valid_first_scalar(w + ext) && w.len() < length_of_first_scalar(w + ext);
        let u = w + ext;
        let l = length_of_first_scalar(u);
        let cp = decode_first_codepoint(u);
        assert(u[0] == b0);
        if is_leading_byte_width_2(b0) {
            assert(l == 2 && n == 1);
            let b1u = u[1];
            assert(cp == codepoint_width_2(b0, b1u));
            assert(0xc2 <= b0) by (bit_vector)
                requires
                    cp == (((b0 & 0x1f) as u32) << 6) | ((b1u & 0x3f) as u32),
                    cp >= 0x80,
                    0xc0 <= b0 <= 0xdf,
            ;
        } else if is_leading_byte_width_3(b0) {
            assert(l == 3 && n <= 2);
            if n == 2 {
                let b1 = w[1];
                assert(u[1] == b1 && is_continuation_byte(b1));
                let b2u = u[2];
                assert(cp == codepoint_width_3(b0, b1, b2u));
                assert((b0 == 0xe0 ==> b1 >= 0xa0) && (b0 == 0xed ==> b1 <= 0x9f))
                    by (bit_vector)
                    requires
                        cp == (((b0 & 0x0f) as u32) << 12) | (((b1 & 0x3f) as u32) << 6) | ((
                        b2u & 0x3f) as u32),
                        cp >= 0x800,
                        !(0xd800 <= cp <= 0xdfff),
                        0xe0 <= b0 <= 0xef,
                        0x80 <= b1 <= 0xbf,
                ;
                assert(fits_second_of_3(b0, w[1]));
            }
            assert(incomplete_first_scalar(w));
        } else if is_leading_byte_width_4(b0) {
            assert(l == 4 && n <= 3);
            let b1u = u[1];
            let b2u = u[2];
            let b3u = u[3];
            assert(cp == codepoint_width_4(b0, b1u, b2u, b3u));
            assert(b0 <= 0xf4) by (bit_vector)
                requires
                    cp == (((b0 & 0x07) as u32) << 18) | (((b1u & 0x3f) as u32) << 12) | (((
                    b2u & 0x3f) as u32) << 6) | ((b3u & 0x3f) as u32),
                    cp <= 0x10ffff,
                    0xf0 <= b0 <= 0xf7,
            ;
            if n >= 2 {
                let b1 = w[1];
                assert(b1u == b1 && is_continuation_byte(b1));
                assert((b0 == 0xf0 ==> b1 >= 0x90) && (b0 == 0xf4 ==> b1 <= 0x8f))
                    by (bit_vector)
                    requires
                        cp == (((b0 & 0x07) as u32) << 18) | (((b1 & 0x3f) as u32) << 12) | (((
                        b2u & 0x3f) as u32) << 6) | ((b3u & 0x3f) as u32),
                        0x10000 <= cp <= 0x10ffff,
                        0xf0 <= b0 <= 0xf7,
                        0x80 <= b1 <= 0xbf,
                ;
                assert(fits_second_of_4(b0, w[1]));
            }
            if n == 3 {
                assert(b2u == w[2] && is_continuation_byte(w[2]));
            }
            assert(incomplete_first_scalar(w));
        } else {
            // A width-1 lead is complete within any non-empty window, and a
            // byte that fits no lead pattern admits no valid encoding.
            assert(false);
        }
    }
}

/// Classify a window on which decoding could not start: does it stop in the
/// middle of a plausible scalar encoding, as opposed to holding a byte that
/// no amount of further input could redeem?
pub fn window_truncated(w: &Vec<u8>) -> (r: bool)
    ensures
        r == incomplete_first_scalar(w@),
{
    let n = w.len();
    if n == 0 {
        return false;
    }
    let b0 = w[0];
    if 0xc2 <= b0 && b0 <= 0xdf {
        n < 2
    } else if 0xe0 <= b0 && b0 <= 0xef {
        if n >= 3 {
            false
        } else if n < 2 {
            true
        } else {
            let b1 = w[1];
            0x80 <= b1 && b1 <= 0xbf && (b0 != 0xe0 || b1 >= 0xa0) && (b0 != 0xed || b1 <= 0x9f)
        }
    } else if 0xf0 <= b0 && b0 <= 0xf4 {
        if n >= 4 {
            false
        } else if n < 2 {
            true
        } else {
            let b1 = w[1];
            let second_fits = 0x80 <= b1 && b1 <= 0xbf && (b0 != 0xf0 || b1 >= 0x90) && (b0
                != 0xf4 || b1 <= 0x8f);
            if !second_fits {
                false
            } else if n < 3 {
                true
            } else {
                let b2 = w[2];
                0x80 <= b2 && b2 <= 0xbf
            }
        }
    } else {
        false
    }
}

/// How many bytes one chunk read covers: four, or whatever remains of the
/// input if that is less.
pub open spec fn chunk_span(rest: Seq<u8>) -> int {
    if rest.len() < 4 {
        rest.len() as int
    } else {
        4
    }
}

/// The window a chunk read yields when `rest` is the undecoded remainder of
/// the input.
pub open spec fn window_of(rest: Seq<u8>) -> Seq<u8> {
    rest.subrange(0, chunk_span(rest))
}

/// Whether a byte sequence begins with a complete, valid scalar encoding,
/// and what that scalar is, depend only on the bytes of the encoding itself:
/// a prefix long enough to contain it sees exactly the same scalar, and a
/// scalar seen in the prefix is seen in the whole sequence.
pub proof fn lemma_first_scalar_in_prefix(s: Seq<u8>, m: int)
    requires
        0 <= m <= s.len(),
    ensures
        ({
            let w = s.subrange(0, m);
            &&& (valid_first_scalar(s) && length_of_first_scalar(s) <= m ==> {
                &&& valid_first_scalar(w)
                &&& length_of_first_scalar(w) == length_of_first_scalar(s)
                &&& decode_first_scalar(w) == decode_first_scalar(s)
            })
            &&& (valid_first_scalar(w) ==> {
                &&& valid_first_scalar(s)
                &&& length_of_first_scalar(s) == length_of_first_scalar(w)
                &&& decode_first_scalar(s) == decode_first_scalar(w)
            })
        }),
{
    let w = s.subrange(0, m);
    assert(forall|j: int| 0 <= j < m ==> w[j] == s[j]);
}

/// The scalars of the maximal valid prefix take at least one byte each.
pub proof fn lemma_decoded_len(bytes: Seq<u8>)
    ensures
        decoded_prefix(bytes).len() <= valid_prefix_len(bytes),
        0 <= valid_prefix_len(bytes) <= bytes.len(),
    decreases bytes.len(),
{
    if bytes.len() != 0 && valid_first_scalar(bytes) {
        lemma_decoded_len(pop_first_scalar(bytes));
    }
}

/// Decoding through bounded windows is invisible: the scalars of the whole
/// remaining input are exactly the scalars of the window's maximal valid
/// prefix followed by the scalars of the input that starts where that prefix
/// ends. Moreover a window of `m` bytes always captures a first scalar whose
/// encoding is at most `m` bytes long, and consuming the maximal prefix of
/// the window keeps a valid remainder valid.
pub proof fn lemma_window_decode(s: Seq<u8>, m: int)
    requires
        0 <= m <= s.len(),
    ensures
        ({
            let w = s.subrange(0, m);
            let k = valid_prefix_len(w);
            &&& 0 <= k <= m
            &&& decoded_prefix(s) == decoded_prefix(w) + decoded_prefix(s.skip(k))
            &&& (valid_utf8(s) ==> valid_utf8(s.skip(k)))
            &&& (s.len() > 0 && valid_first_scalar(s) && length_of_first_scalar(s) <= m ==> k
                >= 1)
            &&& (k >= 1 ==> valid_first_scalar(s))
        }),
    decreases s.len(),
{
    let w = s.subrange(0, m);
    let k = valid_prefix_len(w);
    lemma_decoded_len(w);
    lemma_first_scalar_in_prefix(s, m);
    if m == 0 || !valid_first_scalar(w) {
        assert(k == 0);
        assert(s.skip(0) =~= s);
        assert(decoded_prefix(w) + decoded_prefix(s) =~= decoded_prefix(s));
    } else {
        let l = length_of_first_scalar(s);
        let s2 = s.skip(l);
        let m2 = m - l;
        assert(pop_first_scalar(s) =~= s2);
        assert(pop_first_scalar(w) =~= s2.subrange(0, m2));
        lemma_window_decode(s2, m2);
        let k2 = valid_prefix_len(s2.subrange(0, m2));
        assert(k == l + k2);
        assert(s.skip(k) =~= s2.skip(k2));
        assert(decoded_prefix(w) == seq![decode_first_scalar(s) as char] + decoded_prefix(
            s2.subrange(0, m2),
        ));
        assert(decoded_prefix(s) == seq![decode_first_scalar(s) as char] + decoded_prefix(s2));
        assert((seq![decode_first_scalar(s) as char] + decoded_prefix(s2.subrange(0, m2)))
            + decoded_prefix(s2.skip(k2)) =~= seq![decode_first_scalar(s) as char] + (
        decoded_prefix(s2.subrange(0, m2)) + decoded_prefix(s2.skip(k2))));
    }
}

/// On a fully valid input, decoding the maximal prefix is decoding the whole
/// input.
pub proof fn lemma_decoded_prefix_of_valid(bytes: Seq<u8>)
    requires
        valid_utf8(bytes),
    ensures
        valid_prefix_len(bytes) == bytes.len(),
        decoded_prefix(bytes) == decode_utf8(bytes),
    decreases bytes.len(),
{
    if bytes.len() != 0 {
        lemma_decoded_prefix_of_valid(pop_first_scalar(bytes));
    }
}

} // verus!
