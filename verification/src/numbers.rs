//! Decimal formatting and parsing of the unsigned integers that travel
//! in request parameters and listing responses.

use vstd::prelude::*;
use vstd::utf8::encode_utf8;
use crate::encoding::{DIGIT_0, DIGIT_9, string_from_utf8, lemma_ascii_bytes_valid_utf8};

verus! {

/// `+`
pub const PLUS: u8 = 43;

/// An ASCII decimal digit.
pub open spec fn is_digit(b: u8) -> bool {
    DIGIT_0 <= b && b <= DIGIT_9
}

/// The digit byte for a value below ten.
pub open spec fn digit_byte(d: nat) -> u8
    recommends
        d < 10,
{
    (DIGIT_0 + d) as u8
}

/// The decimal digits of `n`, most significant first.
pub open spec fn dec_bytes(n: nat) -> Seq<u8>
    decreases n,
{
    if n < 10 {
        seq![digit_byte(n)]
    } else {
        dec_bytes(n / 10).push(digit_byte(n % 10))
    }
}

/// The value of a digit string (zero when empty).
pub open spec fn digits_value(s: Seq<u8>) -> int
    decreases s.len(),
{
    if s.len() == 0 {
        0
    } else {
        digits_value(s.drop_last()) * 10 + (s.last() - DIGIT_0)
    }
}

/// The digits of a decimal string after an optional leading `+`.
pub open spec fn dec_digits_part(s: Seq<u8>) -> Seq<u8> {
    if s.len() > 0 && s[0] == PLUS {
        s.drop_first()
    } else {
        s
    }
}

/// Whether a byte string parses as a `u32`: an optional `+`, then at
/// least one digit, and a value that fits.
pub open spec fn parse_u32_ok(s: Seq<u8>) -> bool {
    let d = dec_digits_part(s);
    d.len() > 0 && (forall|i: int| 0 <= i < d.len() ==> is_digit(d[i])) && digits_value(d)
        <= u32::MAX
}

/// The parsed value.
pub open spec fn parse_u32_val(s: Seq<u8>) -> int {
    digits_value(dec_digits_part(s))
}

proof fn lemma_dec_bytes_digits(n: nat)
    ensures
        forall|i: int| 0 <= i < dec_bytes(n).len() ==> is_digit(#[trigger] dec_bytes(n)[i]),
    decreases n,
{
    if n >= 10 {
        lemma_dec_bytes_digits(n / 10);
        let prev = dec_bytes(n / 10);
        assert(dec_bytes(n) == prev.push(digit_byte(n % 10)));
        assert forall|i: int| 0 <= i < dec_bytes(n).len() implies is_digit(
            #[trigger] dec_bytes(n)[i],
        ) by {
            if i < prev.len() {
                assert(dec_bytes(n)[i] == prev[i]);
            } else {
                assert(dec_bytes(n)[i] == digit_byte(n % 10));
            }
        }
    }
}

fn dec_bytes_exec(n: u64) -> (r: Vec<u8>)
    ensures
        r@ == dec_bytes(n as nat),
    decreases n,
{
    if n < 10 {
        let mut out: Vec<u8> = Vec::new();
        out.push(DIGIT_0 + (n as u8));
        out
    } else {
        let mut out = dec_bytes_exec(n / 10);
        out.push(DIGIT_0 + ((n % 10) as u8));
        out
    }
}

/// Format an unsigned integer in decimal.
pub fn u64_to_string(n: u64) -> (r: String)
    ensures
        encode_utf8(r@) == dec_bytes(n as nat),
{
    let bytes = dec_bytes_exec(n);
    proof {
        lemma_dec_bytes_digits(n as nat);
        lemma_ascii_bytes_valid_utf8(bytes@);
    }
    match string_from_utf8(bytes) {
        Some(s) => s,
        None => {
            proof {
                assert(false);
            }
            String::new()
        },
    }
}

/// Appending a digit never lowers the value of a digit string.
proof fn lemma_digits_value_nonneg(s: Seq<u8>)
    requires
        forall|i: int| 0 <= i < s.len() ==> is_digit(s[i]),
    ensures
        digits_value(s) >= 0,
    decreases s.len(),
{
    if s.len() > 0 {
        assert(forall|i: int| 0 <= i < s.drop_last().len() ==> is_digit(s.drop_last()[i]));
        lemma_digits_value_nonneg(s.drop_last());
    }
}

proof fn lemma_digits_value_prefix(s: Seq<u8>, i: int)
    requires
        0 <= i <= s.len(),
        forall|j: int| 0 <= j < s.len() ==> is_digit(s[j]),
    ensures
        digits_value(s.take(i)) <= digits_value(s),
    decreases s.len() - i,
{
    if i < s.len() {
        let t = s.take(i + 1);
        assert(t.drop_last() =~= s.take(i));
        assert(forall|j: int| 0 <= j < t.len() ==> is_digit(t[j]));
        lemma_digits_value_nonneg(s.take(i));
        assert(digits_value(t) == digits_value(s.take(i)) * 10 + (t.last() - DIGIT_0));
        assert(digits_value(s.take(i)) <= digits_value(t));
        lemma_digits_value_prefix(s, i + 1);
        assert(s.take(s.len() as int) =~= s);
    } else {
        assert(s.take(i) =~= s);
    }
}

/// Parse a `u32` from its decimal text, with the same acceptance rule
/// as std: an optional leading `+`, then one or more digits, value in
/// range.
pub fn parse_u32_bytes(s: &[u8]) -> (r: Option<u32>)
    ensures
        r is Some <==> parse_u32_ok(s@),
        r is Some ==> r->Some_0 == parse_u32_val(s@),
{
    let ghost d = dec_digits_part(s@);
    let start: usize = if s.len() > 0 && s[0] == PLUS {
        1
    } else {
        0
    };
    proof {
        assert(d =~= s@.skip(start as int));
    }
    if s.len() == start {
        return None;
    }
    let mut acc: u64 = 0;
    let mut i: usize = start;
    while i < s.len()
        invariant
            start <= i <= s@.len(),
            d == dec_digits_part(s@),
            d == s@.skip(start as int),
            acc == digits_value(d.take(i - start)),
            acc <= u32::MAX,
            forall|j: int| 0 <= j < i - start ==> is_digit(d[j]),
        decreases s@.len() - i,
    {
        let b = s[i];
        proof {
            assert(d[i - start] == s@[i as int]);
        }
        if b < DIGIT_0 || b > DIGIT_9 {
            proof {
                assert(d == dec_digits_part(s@));
                assert(0 <= i - start < d.len());
                assert(!is_digit(d[i - start]));
                assert(!parse_u32_ok(s@));
            }
            return None;
        }
        proof {
            assert(d.take(i - start + 1).drop_last() =~= d.take(i - start));
            assert(d.take(i - start + 1).last() == b);
        }
        let next: u64 = acc * 10 + ((b - DIGIT_0) as u64);
        if next > (u32::MAX as u64) {
            proof {
                assert(digits_value(d.take(i - start + 1)) == next);
                if parse_u32_ok(s@) {
                    assert(d == dec_digits_part(s@));
                    assert(forall|j: int| 0 <= j < d.len() ==> is_digit(d[j]));
                    lemma_digits_value_prefix(d, i - start + 1);
                    assert(false);
                }
            }
            return None;
        }
        acc = next;
        i += 1;
    }
    proof {
        assert(d.take(d.len() as int) =~= d);
    }
    Some(acc as u32)
}

} // verus!
