//! Percent-encoding with the OAuth unreserved-character set, and the
//! lenient percent-decoder used when a remote URL path is turned back
//! into a local file name.
//!
//! ASCII letters, digits and `-` `.` `_` `~` pass through unchanged;
//! every other byte becomes `%XX` with uppercase hex digits.

use vstd::prelude::*;
use vstd::utf8::{valid_utf8, encode_utf8, partial_valid_utf8, partial_valid_utf8_extend_ascii_block, is_leading_byte_width_1, is_char_boundary, valid_utf8_split, valid_first_scalar, length_of_first_scalar, pop_first_scalar};

verus! {

/// `A`
pub const UPPER_A: u8 = 65;
/// `Z`
pub const UPPER_Z: u8 = 90;
/// `a`
pub const LOWER_A: u8 = 97;
/// `z`
pub const LOWER_Z: u8 = 122;
/// `0`
pub const DIGIT_0: u8 = 48;
/// `9`
pub const DIGIT_9: u8 = 57;
/// `-`
pub const DASH: u8 = 45;
/// `.`
pub const DOT: u8 = 46;
/// `_`
pub const UNDERSCORE: u8 = 95;
/// `~`
pub const TILDE: u8 = 126;
/// `%`
pub const PERCENT: u8 = 37;
/// `F`
pub const UPPER_F: u8 = 70;
/// `f`
pub const LOWER_F: u8 = 102;

/// A byte that the OAuth encoder passes through unchanged.
pub open spec fn is_unreserved(b: u8) -> bool {
    (UPPER_A <= b && b <= UPPER_Z) || (LOWER_A <= b && b <= LOWER_Z)
        || (DIGIT_0 <= b && b <= DIGIT_9)
        || b == DASH || b == DOT || b == UNDERSCORE || b == TILDE
}

/// Uppercase hex digit for a nibble.
pub open spec fn hex_digit(n: u8) -> u8
    recommends
        n < 16,
{
    if n < 10 {
        (DIGIT_0 + n) as u8
    } else {
        (UPPER_A + (n - 10)) as u8
    }
}

/// What the encoder emits for one byte.
pub open spec fn encode_byte(b: u8) -> Seq<u8> {
    if is_unreserved(b) {
        seq![b]
    } else {
        seq![PERCENT, hex_digit(b / 16), hex_digit(b % 16)]
    }
}

/// Percent-encoding of a whole byte string.
pub open spec fn percent_encode(s: Seq<u8>) -> Seq<u8>
    decreases s.len(),
{
    if s.len() == 0 {
        Seq::empty()
    } else {
        encode_byte(s.first()) + percent_encode(s.drop_first())
    }
}

proof fn lemma_percent_encode_snoc(t: Seq<u8>, x: u8)
    ensures
        percent_encode(t.push(x)) == percent_encode(t) + encode_byte(x),
    decreases t.len(),
{
    if t.len() == 0 {
        assert(t.push(x).first() == x);
        assert(t.push(x).drop_first() =~= Seq::<u8>::empty());
        assert(percent_encode(Seq::<u8>::empty()) =~= Seq::<u8>::empty());
        assert(percent_encode(t.push(x)) == encode_byte(x) + percent_encode(
            Seq::<u8>::empty(),
        ));
        assert(percent_encode(t.push(x)) =~= encode_byte(x));
        assert(percent_encode(t) + encode_byte(x) =~= encode_byte(x));
    } else {
        assert(t.push(x).first() == t.first());
        assert(t.push(x).drop_first() =~= t.drop_first().push(x));
        lemma_percent_encode_snoc(t.drop_first(), x);
        assert(percent_encode(t.push(x)) =~= percent_encode(t) + encode_byte(x));
    }
}

/// Every byte the encoder emits is ASCII.
pub proof fn lemma_percent_encode_ascii(s: Seq<u8>)
    ensures
        forall|i: int| 0 <= i < percent_encode(s).len() ==> percent_encode(s)[i] < 0x80,
    decreases s.len(),
{
    if s.len() > 0 {
        lemma_percent_encode_ascii(s.drop_first());
        let e = encode_byte(s.first());
        let rest = percent_encode(s.drop_first());
        assert(percent_encode(s) == e + rest);
        assert forall|i: int| 0 <= i < percent_encode(s).len() implies percent_encode(s)[i]
            < 0x80 by {
            if i < e.len() {
                assert(e[i] < 0x80);
            } else {
                assert(percent_encode(s)[i] == rest[i - e.len()]);
            }
        }
    }
}

/// A byte string of ASCII bytes is valid UTF-8.
pub proof fn lemma_ascii_bytes_valid_utf8(s: Seq<u8>)
    requires
        forall|i: int| 0 <= i < s.len() ==> s[i] < 0x80,
    ensures
        valid_utf8(s),
{
    assert(s.subrange(0, 0) =~= Seq::<u8>::empty());
    assert(valid_utf8(s.subrange(0, 0)));
    assert(partial_valid_utf8(s, 0));
    assert forall|i: int| 0 <= i < s.len() implies #[trigger] is_leading_byte_width_1(s[i]) by {
        assert(s[i] < 0x80);
    }
    partial_valid_utf8_extend_ascii_block(s, 0, s.len() as int);
    assert(s.subrange(0, s.len() as int) =~= s);
}

/// Encoding a string made only of unreserved bytes returns it unchanged.
pub proof fn lemma_percent_encode_unreserved_identity(s: Seq<u8>)
    requires
        forall|i: int| 0 <= i < s.len() ==> is_unreserved(s[i]),
    ensures
        percent_encode(s) == s,
    decreases s.len(),
{
    if s.len() == 0 {
        assert(percent_encode(s) =~= s);
    } else {
        assert(is_unreserved(s[0]));
        lemma_percent_encode_unreserved_identity(s.drop_first());
        assert(percent_encode(s) =~= s);
    }
}

/// In valid UTF-8, a position at an ASCII byte, right after an ASCII
/// byte, or at either end, falls on a character boundary.
pub proof fn lemma_ascii_position_is_boundary(bytes: Seq<u8>, p: int)
    requires
        valid_utf8(bytes),
        0 <= p <= bytes.len(),
        p == 0 || p == bytes.len() || bytes[p] < 0x80 || (p > 0 && bytes[p - 1] < 0x80),
    ensures
        is_char_boundary(bytes, p),
    decreases bytes.len(),
{
    if p == 0 {
    } else {
        assert(bytes.len() > 0);
        assert(valid_first_scalar(bytes));
        let k = length_of_first_scalar(bytes);
        let rest = pop_first_scalar(bytes);
        assert(valid_utf8(rest));
        assert(1 <= k <= 4);
        if p < k {
            assert(false);
        } else {
            assert(forall|t: int| 0 <= t < rest.len() ==> rest[t] == bytes[t + k]);
            lemma_ascii_position_is_boundary(rest, p - k);
        }
    }
}

/// A segment cut out of valid UTF-8 between ASCII delimiters (or the
/// ends) is itself valid UTF-8.
pub proof fn lemma_ascii_delimited_segment_valid(bytes: Seq<u8>, i: int, j: int)
    requires
        valid_utf8(bytes),
        0 <= i <= j <= bytes.len(),
        i == 0 || bytes[i - 1] < 0x80,
        j == bytes.len() || bytes[j] < 0x80,
    ensures
        valid_utf8(bytes.subrange(i, j)),
{
    lemma_ascii_position_is_boundary(bytes, i);
    valid_utf8_split(bytes, i);
    let suffix = bytes.subrange(i, bytes.len() as int);
    assert(valid_utf8(suffix));
    lemma_ascii_position_is_boundary(suffix, j - i);
    valid_utf8_split(suffix, j - i);
    assert(suffix.subrange(0, j - i) =~= bytes.subrange(i, j));
}

/// Compare two byte strings for equality.
pub fn bytes_eq(a: &[u8], b: &[u8]) -> (r: bool)
    ensures
        r == (a@ == b@),
{
    if a.len() != b.len() {
        proof {
            assert(a@ != b@);
        }
        return false;
    }
    let mut i: usize = 0;
    while i < a.len()
        invariant
            a@.len() == b@.len(),
            i <= a@.len(),
            forall|k: int| 0 <= k < i ==> a@[k] == b@[k],
        decreases a@.len() - i,
    {
        if a[i] != b[i] {
            proof {
                assert(a@[i as int] != b@[i as int]);
            }
            return false;
        }
        i += 1;
    }
    proof {
        assert(a@ =~= b@);
    }
    true
}

/// Relies on std's `String::from_utf8`: it succeeds exactly on valid UTF-8
/// input, and the returned string holds those very bytes.
#[verifier::external_body]
pub(crate) fn string_from_utf8(v: Vec<u8>) -> (r: Option<String>)
    ensures
        r is Some <==> valid_utf8(v@),
        r is Some ==> encode_utf8(r->Some_0@) == v@,
{
    String::from_utf8(v).ok()
}

pub fn is_unreserved_byte(b: u8) -> (r: bool)
    ensures
        r == is_unreserved(b),
{
    (b >= UPPER_A && b <= UPPER_Z) || (b >= LOWER_A && b <= LOWER_Z)
        || (b >= DIGIT_0 && b <= DIGIT_9)
        || b == DASH || b == DOT || b == UNDERSCORE || b == TILDE
}

pub fn hex_digit_byte(n: u8) -> (r: u8)
    requires
        n < 16,
    ensures
        r == hex_digit(n),
{
    if n < 10 {
        DIGIT_0 + n
    } else {
        UPPER_A + (n - 10)
    }
}

/// Percent-encode a byte string.
pub fn percent_encode_bytes(s: &[u8]) -> (r: Vec<u8>)
    ensures
        r@ == percent_encode(s@),
{
    let mut out: Vec<u8> = Vec::new();
    let mut i: usize = 0;
    while i < s.len()
        invariant
            i <= s@.len(),
            out@ == percent_encode(s@.subrange(0, i as int)),
        decreases s@.len() - i,
    {
        let b = s[i];
        if is_unreserved_byte(b) {
            out.push(b);
        } else {
            out.push(PERCENT);
            out.push(hex_digit_byte(b / 16));
            out.push(hex_digit_byte(b % 16));
        }
        proof {
            let prefix = s@.subrange(0, i as int);
            lemma_percent_encode_snoc(prefix, s@[i as int]);
            assert(s@.subrange(0, i + 1) =~= prefix.push(s@[i as int]));
            assert(out@ =~= percent_encode(s@.subrange(0, i + 1)));
        }
        i += 1;
    }
    proof {
        assert(s@.subrange(0, s@.len() as int) =~= s@);
    }
    out
}

/// Percent-encode a string with the OAuth unreserved set.
pub fn escape(value: &str) -> (r: String)
    ensures
        encode_utf8(r@) == percent_encode(encode_utf8(value@)),
{
    let bytes = value.as_bytes();
    let encoded = percent_encode_bytes(bytes);
    proof {
        lemma_percent_encode_ascii(encode_utf8(value@));
        lemma_ascii_bytes_valid_utf8(encoded@);
    }
    match string_from_utf8(encoded) {
        Some(s) => s,
        None => {
            proof {
                assert(false);
            }
            String::new()
        },
    }
}


/// An ASCII hex digit, either case.
pub open spec fn is_hex_digit(b: u8) -> bool {
    (DIGIT_0 <= b && b <= DIGIT_9) || (UPPER_A <= b && b <= UPPER_F) || (LOWER_A <= b
        && b <= LOWER_F)
}

/// The value of a hex digit byte.
pub open spec fn hex_value(b: u8) -> u8
    recommends
        is_hex_digit(b),
{
    if DIGIT_0 <= b && b <= DIGIT_9 {
        (b - DIGIT_0) as u8
    } else if UPPER_A <= b && b <= UPPER_F {
        (b - UPPER_A + 10) as u8
    } else {
        (b - LOWER_A + 10) as u8
    }
}

/// Lenient percent-decoding: `%` followed by two hex digits becomes
/// one byte; anything else passes through unchanged.
pub open spec fn percent_decode(s: Seq<u8>) -> Seq<u8>
    decreases s.len(),
{
    if s.len() == 0 {
        Seq::empty()
    } else if s[0] == PERCENT && s.len() >= 3 && is_hex_digit(s[1]) && is_hex_digit(s[2]) {
        seq![(hex_value(s[1]) * 16 + hex_value(s[2])) as u8] + percent_decode(s.skip(3))
    } else {
        seq![s[0]] + percent_decode(s.skip(1))
    }
}

pub(crate) fn hex_value_byte(b: u8) -> (r: Option<u8>)
    ensures
        r is Some <==> is_hex_digit(b),
        r is Some ==> r->Some_0 == hex_value(b),
{
    if b >= DIGIT_0 && b <= DIGIT_9 {
        Some(b - DIGIT_0)
    } else if b >= UPPER_A && b <= UPPER_F {
        Some(b - UPPER_A + 10)
    } else if b >= LOWER_A && b <= LOWER_F {
        Some(b - LOWER_A + 10)
    } else {
        None
    }
}

/// Percent-decode a byte string, leniently.
#[verifier::loop_isolation(false)]
pub fn percent_decode_bytes(s: &[u8]) -> (r: Vec<u8>)
    ensures
        r@ == percent_decode(s@),
{
    let mut out: Vec<u8> = Vec::new();
    let mut i: usize = 0;
    proof {
        assert(s@.skip(0) =~= s@);
    }
    while i < s.len()
        invariant
            i <= s@.len(),
            percent_decode(s@) == out@ + percent_decode(s@.skip(i as int)),
        decreases s@.len() - i,
    {
        let ghost sfx = s@.skip(i as int);
        proof {
            assert(sfx[0] == s@[i as int]);
            assert(sfx.len() == s@.len() - i);
            if s@.len() - i > 2 {
                assert(sfx[1] == s@[i as int + 1]);
                assert(sfx[2] == s@[i as int + 2]);
            }
        }
        let b = s[i];
        if b == PERCENT && s.len() - i > 2 {
            let h = hex_value_byte(s[i + 1]);
            let l = hex_value_byte(s[i + 2]);
            match (h, l) {
                (Some(hv), Some(lv)) => {
                    out.push(hv * 16 + lv);
                    proof {
                        assert(sfx.skip(3) =~= s@.skip(i as int + 3));
                        assert(percent_decode(sfx) == seq![(hex_value(sfx[1]) * 16 + hex_value(
                            sfx[2],
                        )) as u8] + percent_decode(sfx.skip(3)));
                    }
                    i += 3;
                },
                _ => {
                    out.push(b);
                    proof {
                        assert(sfx.skip(1) =~= s@.skip(i as int + 1));
                        assert(percent_decode(sfx) == seq![sfx[0]] + percent_decode(
                            sfx.skip(1),
                        ));
                    }
                    i += 1;
                },
            }
        } else {
            out.push(b);
            proof {
                assert(sfx.skip(1) =~= s@.skip(i as int + 1));
                assert(percent_decode(sfx) == seq![sfx[0]] + percent_decode(sfx.skip(1)));
            }
            i += 1;
        }
    }
    proof {
        assert(s@.skip(s@.len() as int) =~= Seq::<u8>::empty());
        assert(out@ =~= percent_decode(s@));
    }
    out
}

} // verus!
