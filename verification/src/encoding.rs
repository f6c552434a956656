use vstd::prelude::*;
use vstd::utf8::*;

verus! {

/// The byte ranges an executable scan accepts as the first scalar of a
/// UTF-8 stream. Equivalent to `valid_first_scalar` (see
/// `lemma_first_scalar_ok`), but phrased over the raw bytes so an exec
/// checker can branch on it directly.
pub open spec fn first_scalar_ok(t: Seq<u8>) -> bool {
    ||| (t.len() >= 1 && t[0] < 0x80)
    ||| (t.len() >= 2 && 0xc2 <= t[0] <= 0xdf && is_continuation_byte(t[1]))
    ||| (t.len() >= 3 && 0xe0 <= t[0] <= 0xef && is_continuation_byte(t[1])
        && is_continuation_byte(t[2]) && (t[0] != 0xe0 || t[1] >= 0xa0) && (t[0] != 0xed || t[1]
        <= 0x9f))
    ||| (t.len() >= 4 && 0xf0 <= t[0] <= 0xf4 && is_continuation_byte(t[1])
        && is_continuation_byte(t[2]) && is_continuation_byte(t[3]) && (t[0] != 0xf0 || t[1]
        >= 0x90) && (t[0] != 0xf4 || t[1] <= 0x8f))
}

/// Width in bytes of the scalar encoding that starts with the given byte,
/// assuming the byte can start one at all.
pub open spec fn scalar_width(b: u8) -> int {
    if b < 0x80 {
        1
    } else if b < 0xe0 {
        2
    } else if b < 0xf0 {
        3
    } else {
        4
    }
}

proof fn lemma_width_2_bounds(b0: u8, b1: u8)
    requires
        0xc0 <= b0 <= 0xdf,
        is_continuation_byte(b1),
    ensures
        b0 >= 0xc2 ==> 0x80 <= codepoint_width_2(b0, b1) < 0x800,
        b0 < 0xc2 ==> codepoint_width_2(b0, b1) < 0x80,
{
    let cp = codepoint_width_2(b0, b1);
    assert(cp == (((b0 & 0x1f) as u32) << 6) | ((b1 & 0x3f) as u32));
    assert({
        let v = (((b0 & 0x1f) as u32) << 6) | ((b1 & 0x3f) as u32);
        &&& (b0 >= 0xc2 ==> 0x80 <= v && v < 0x800)
        &&& (b0 < 0xc2 ==> v < 0x80)
    }) by (bit_vector)
        requires
            0xc0 <= b0 && b0 <= 0xdf && 0x80 <= b1 && b1 <= 0xbf,
    ;
}

proof fn lemma_width_3_bounds(b0: u8, b1: u8, b2: u8)
    requires
        0xe0 <= b0 <= 0xef,
        is_continuation_byte(b1),
        is_continuation_byte(b2),
    ensures
        b0 == 0xe0 && b1 >= 0xa0 ==> 0x800 <= codepoint_width_3(b0, b1, b2) < 0xd800,
        b0 == 0xe0 && b1 < 0xa0 ==> codepoint_width_3(b0, b1, b2) < 0x800,
        b0 == 0xed && b1 <= 0x9f ==> 0x800 <= codepoint_width_3(b0, b1, b2) < 0xd800,
        b0 == 0xed && b1 > 0x9f ==> 0xd800 <= codepoint_width_3(b0, b1, b2) <= 0xdfff,
        b0 != 0xe0 && b0 != 0xed ==> 0x800 <= codepoint_width_3(b0, b1, b2) && !(0xd800
            <= codepoint_width_3(b0, b1, b2) <= 0xdfff),
{
    let cp = codepoint_width_3(b0, b1, b2);
    assert(cp == (((b0 & 0x0f) as u32) << 12) | (((b1 & 0x3f) as u32) << 6) | ((b2
        & 0x3f) as u32));
    assert({
        let v = (((b0 & 0x0f) as u32) << 12) | (((b1 & 0x3f) as u32) << 6) | ((b2
            & 0x3f) as u32);
        &&& (b0 == 0xe0 && b1 >= 0xa0 ==> 0x800 <= v && v < 0xd800)
        &&& (b0 == 0xe0 && b1 < 0xa0 ==> v < 0x800)
        &&& (b0 == 0xed && b1 <= 0x9f ==> 0x800 <= v && v < 0xd800)
        &&& (b0 == 0xed && b1 > 0x9f ==> 0xd800 <= v && v <= 0xdfff)
        &&& (b0 != 0xe0 && b0 != 0xed ==> 0x800 <= v && !(0xd800 <= v && v <= 0xdfff))
    }) by (bit_vector)
        requires
            0xe0 <= b0 && b0 <= 0xef && 0x80 <= b1 && b1 <= 0xbf && 0x80 <= b2 && b2 <= 0xbf,
    ;
}

proof fn lemma_width_4_bounds(b0: u8, b1: u8, b2: u8, b3: u8)
    requires
        0xf0 <= b0 <= 0xf7,
        is_continuation_byte(b1),
        is_continuation_byte(b2),
        is_continuation_byte(b3),
    ensures
        b0 == 0xf0 && b1 >= 0x90 ==> 0x10000 <= codepoint_width_4(b0, b1, b2, b3) <= 0x10ffff,
        b0 == 0xf0 && b1 < 0x90 ==> codepoint_width_4(b0, b1, b2, b3) < 0x10000,
        0xf1 <= b0 <= 0xf3 ==> 0x10000 <= codepoint_width_4(b0, b1, b2, b3) <= 0x10ffff,
        b0 == 0xf4 && b1 <= 0x8f ==> 0x10000 <= codepoint_width_4(b0, b1, b2, b3) <= 0x10ffff,
        b0 == 0xf4 && b1 > 0x8f ==> codepoint_width_4(b0, b1, b2, b3) > 0x10ffff,
        b0 >= 0xf5 ==> codepoint_width_4(b0, b1, b2, b3) > 0x10ffff,
{
    let cp = codepoint_width_4(b0, b1, b2, b3);
    assert(cp == (((b0 & 0x07) as u32) << 18) | (((b1 & 0x3f) as u32) << 12) | (((b2
        & 0x3f) as u32) << 6) | ((b3 & 0x3f) as u32));
    assert({
        let v = (((b0 & 0x07) as u32) << 18) | (((b1 & 0x3f) as u32) << 12) | (((b2
            & 0x3f) as u32) << 6) | ((b3 & 0x3f) as u32);
        &&& (b0 == 0xf0 && b1 >= 0x90 ==> 0x10000 <= v && v <= 0x10ffff)
        &&& (b0 == 0xf0 && b1 < 0x90 ==> v < 0x10000)
        &&& (0xf1 <= b0 && b0 <= 0xf3 ==> 0x10000 <= v && v <= 0x10ffff)
        &&& (b0 == 0xf4 && b1 <= 0x8f ==> 0x10000 <= v && v <= 0x10ffff)
        &&& (b0 == 0xf4 && b1 > 0x8f ==> v > 0x10ffff)
        &&& (b0 >= 0xf5 ==> v > 0x10ffff)
    }) by (bit_vector)
        requires
            0xf0 <= b0 && b0 <= 0xf7 && 0x80 <= b1 && b1 <= 0xbf && 0x80 <= b2 && b2 <= 0xbf
                && 0x80 <= b3 && b3 <= 0xbf,
    ;
}

/// The byte-range test `first_scalar_ok` accepts exactly the sequences that
/// start with a well-formed scalar encoding, whose width is determined by
/// the first byte.
pub proof fn lemma_first_scalar_ok(t: Seq<u8>)
    requires
        t.len() >= 1,
    ensures
        first_scalar_ok(t) <==> valid_first_scalar(t),
        valid_first_scalar(t) ==> length_of_first_scalar(t) == scalar_width(t[0]),
{
    let b0 = t[0];
    if b0 < 0x80 {
        assert(codepoint_width_1(b0) == (b0 & 0x7f) as u32);
        assert(b0 < 0x80 ==> ((b0 & 0x7f) as u32) < 0xd800) by (bit_vector);
    } else if b0 < 0xc0 {
        assert(!valid_leading_and_continuation_bytes_first_codepoint(t));
    } else if b0 < 0xe0 {
        if t.len() >= 2 && is_continuation_byte(t[1]) {
            lemma_width_2_bounds(b0, t[1]);
        } else {
            assert(!valid_leading_and_continuation_bytes_first_codepoint(t));
        }
    } else if b0 < 0xf0 {
        if t.len() >= 3 && is_continuation_byte(t[1]) && is_continuation_byte(t[2]) {
            lemma_width_3_bounds(b0, t[1], t[2]);
        } else {
            assert(!valid_leading_and_continuation_bytes_first_codepoint(t));
        }
    } else if b0 < 0xf8 {
        if t.len() >= 4 && is_continuation_byte(t[1]) && is_continuation_byte(t[2])
            && is_continuation_byte(t[3]) {
            lemma_width_4_bounds(b0, t[1], t[2], t[3]);
        } else {
            assert(!valid_leading_and_continuation_bytes_first_codepoint(t));
        }
    } else {
        assert(!valid_leading_and_continuation_bytes_first_codepoint(t));
    }
}

/// Returns the width of the well-formed scalar encoding that begins at
/// byte `i`, or 0 when no well-formed scalar begins there.
fn check_first_scalar(s: &Vec<u8>, i: usize, end: usize) -> (w: usize)
    requires
        i < end,
        end <= s.len(),
    ensures
        ({
            let t = s@.subrange(i as int, end as int);
            if w == 0 {
                !valid_first_scalar(t)
            } else {
                valid_first_scalar(t) && length_of_first_scalar(t) == w && i + w <= end
            }
        }),
{
    let ghost t = s@.subrange(i as int, end as int);
    proof {
        lemma_first_scalar_ok(t);
    }
    let b0 = s[i];
    assert(t[0] == b0);
    if b0 < 0x80 {
        1
    } else if b0 < 0xc2 {
        assert(!first_scalar_ok(t));
        0
    } else if b0 < 0xe0 {
        if end - i >= 2 {
            let b1 = s[i + 1];
            assert(t[1] == b1);
            if 0x80 <= b1 && b1 <= 0xbf {
                2
            } else {
                0
            }
        } else {
            0
        }
    } else if b0 < 0xf0 {
        if end - i >= 3 {
            let b1 = s[i + 1];
            let b2 = s[i + 2];
            assert(t[1] == b1 && t[2] == b2);
            if 0x80 <= b1 && b1 <= 0xbf && 0x80 <= b2 && b2 <= 0xbf && (b0 != 0xe0 || b1 >= 0xa0)
                && (b0 != 0xed || b1 <= 0x9f) {
                3
            } else {
                0
            }
        } else {
            0
        }
    } else if b0 <= 0xf4 {
        if end - i >= 4 {
            let b1 = s[i + 1];
            let b2 = s[i + 2];
            let b3 = s[i + 3];
            assert(t[1] == b1 && t[2] == b2 && t[3] == b3);
            if 0x80 <= b1 && b1 <= 0xbf && 0x80 <= b2 && b2 <= 0xbf && 0x80 <= b3 && b3 <= 0xbf
                && (b0 != 0xf0 || b1 >= 0x90) && (b0 != 0xf4 || b1 <= 0x8f) {
                4
            } else {
                0
            }
        } else {
            0
        }
    } else {
        assert(!first_scalar_ok(t));
        0
    }
}

/// Decides whether the bytes of `s` between `start` and `end` form valid
/// UTF-8 text, exactly as `vstd::utf8::valid_utf8` defines it.
pub fn utf8_range_valid(s: &Vec<u8>, start: usize, end: usize) -> (b: bool)
    requires
        start <= end,
        end <= s.len(),
    ensures
        b == valid_utf8(s@.subrange(start as int, end as int)),
{
    let ghost whole = s@.subrange(start as int, end as int);
    let mut i = start;
    while i < end
        invariant
            start <= i <= end,
            end <= s.len(),
            whole == s@.subrange(start as int, end as int),
            valid_utf8(whole) == valid_utf8(s@.subrange(i as int, end as int)),
        decreases end - i,
    {
        let ghost t = s@.subrange(i as int, end as int);
        let w = check_first_scalar(s, i, end);
        if w == 0 {
            assert(!valid_utf8(t));
            return false;
        }
        proof {
            assert(pop_first_scalar(t) =~= s@.subrange(i + w as int, end as int));
            assert(valid_utf8(t) == valid_utf8(pop_first_scalar(t)));
        }
        i = i + w;
    }
    proof {
        assert(s@.subrange(end as int, end as int).len() == 0);
    }
    true
}

/// True when no well-formed scalar encoding can begin with the given byte:
/// continuation bytes, the two overlong-only leading bytes 0xc0 and 0xc1,
/// and bytes past 0xf4 (whose codepoints lie beyond the scalar range).
pub open spec fn cannot_start_scalar(b: u8) -> bool {
    is_continuation_byte(b) || b == 0xc0 || b == 0xc1 || b >= 0xf5
}

/// Text that begins with a byte no scalar encoding can start with is not
/// valid UTF-8, whatever follows.
pub proof fn lemma_cannot_start_scalar(t: Seq<u8>)
    requires
        t.len() > 0,
        cannot_start_scalar(t[0]),
    ensures
        !valid_utf8(t),
{
    lemma_first_scalar_ok(t);
    assert(!first_scalar_ok(t));
}

/// Relies on `String::from_utf8`: it succeeds exactly when the bytes are
/// valid UTF-8, and the string then holds the input bytes unchanged.
#[verifier::external_body]
pub fn string_from_bytes(v: Vec<u8>) -> (r: Option<String>)
    ensures
        r is Some <==> valid_utf8(v@),
        r matches Some(s) ==> encode_utf8(s@) == v@,
{
    String::from_utf8(v).ok()
}

/// A sequence of bytes below 0x80 is valid UTF-8: each byte is a 1-byte
/// scalar encoding.
pub proof fn lemma_ascii_bytes_valid_utf8(s: Seq<u8>)
    requires
        forall|i: int| 0 <= i < s.len() ==> s[i] < 0x80,
    ensures
        valid_utf8(s),
    decreases s.len(),
{
    if s.len() > 0 {
        lemma_first_scalar_ok(s);
        assert(first_scalar_ok(s));
        lemma_ascii_bytes_valid_utf8(s.subrange(1, s.len() as int));
        assert(pop_first_scalar(s) =~= s.subrange(1, s.len() as int));
    }
}

} // verus!
