//! Persistence of the access token: a canonical, pretty-printed JSON
//! blob holding the token and its secret, written once after a
//! successful authorization and read back on startup, with the
//! round trip proved exact.

use vstd::prelude::*;
use vstd::utf8::{encode_utf8, valid_utf8};
use crate::error::WallflowerError;
use crate::encoding::{hex_digit, hex_digit_byte, is_hex_digit, hex_value, hex_value_byte, string_from_utf8, bytes_eq, DIGIT_0};
use crate::flickr::{AccessToken, TokenSecret};

verus! {

/// `"`
pub const QUOTE: u8 = 34;
/// `\`
pub const BACKSLASH: u8 = 92;
/// `{`
pub const LBRACE: u8 = 123;
/// `}`
pub const RBRACE: u8 = 125;
/// `,`
pub const COMMA: u8 = 44;
/// newline
pub const NEWLINE: u8 = 10;
/// space
pub const SPACE: u8 = 32;
/// `:`
pub const COLON_BYTE: u8 = 58;
/// `u`
pub const LOWER_U: u8 = 117;
/// `t`
pub const LOWER_T: u8 = 116;
/// `o`
pub const LOWER_O: u8 = 111;
/// `k`
pub const LOWER_K: u8 = 107;
/// `e`
pub const LOWER_E: u8 = 101;
/// `n`
pub const LOWER_N: u8 = 110;
/// `s`
pub const LOWER_S: u8 = 115;
/// `c`
pub const LOWER_C: u8 = 99;
/// `r`
pub const LOWER_R: u8 = 114;

/// What the blob's string escaping emits for one byte: quote and
/// backslash get a backslash escape, control bytes a `\u00XX` escape,
/// and everything else passes through.
pub open spec fn json_escape_byte(b: u8) -> Seq<u8> {
    if b == QUOTE {
        seq![BACKSLASH, QUOTE]
    } else if b == BACKSLASH {
        seq![BACKSLASH, BACKSLASH]
    } else if b < 0x20 {
        seq![BACKSLASH, LOWER_U, DIGIT_0, DIGIT_0, hex_digit(b / 16), hex_digit(b % 16)]
    } else {
        seq![b]
    }
}

/// The escaped form of a whole byte string.
pub open spec fn json_escape(s: Seq<u8>) -> Seq<u8>
    decreases s.len(),
{
    if s.len() == 0 {
        Seq::empty()
    } else {
        json_escape_byte(s.first()) + json_escape(s.drop_first())
    }
}

/// `{`, newline, two spaces, `"token": "`.
pub open spec fn blob_head() -> Seq<u8> {
    seq![
        LBRACE, NEWLINE, SPACE, SPACE, QUOTE, LOWER_T, LOWER_O, LOWER_K, LOWER_E, LOWER_N,
        QUOTE, COLON_BYTE, SPACE, QUOTE,
    ]
}

/// `",`, newline, two spaces, `"secret": "`.
pub open spec fn blob_mid() -> Seq<u8> {
    seq![
        QUOTE, COMMA, NEWLINE, SPACE, SPACE, QUOTE, LOWER_S, LOWER_E, LOWER_C, LOWER_R,
        LOWER_E, LOWER_T, QUOTE, COLON_BYTE, SPACE, QUOTE,
    ]
}

/// `"`, newline, `}`.
pub open spec fn blob_tail() -> Seq<u8> {
    seq![QUOTE, NEWLINE, RBRACE]
}

/// The serialized credential blob for a token and secret.
pub open spec fn token_blob(tok: Seq<u8>, sec: Seq<u8>) -> Seq<u8> {
    blob_head() + json_escape(tok) + blob_mid() + json_escape(sec) + blob_tail()
}

/// Undo the escaping up to the closing quote: the decoded content and
/// the position of that quote; `None` when the text breaks the
/// escaping rules or never closes.
pub open spec fn unescape_prefix(s: Seq<u8>) -> Option<(Seq<u8>, int)>
    decreases s.len(),
{
    if s.len() == 0 {
        None
    } else if s[0] == QUOTE {
        Some((Seq::empty(), 0))
    } else if s[0] == BACKSLASH {
        if s.len() >= 2 && s[1] == QUOTE {
            match unescape_prefix(s.skip(2)) {
                None => None,
                Some((c, j)) => Some((seq![QUOTE] + c, j + 2)),
            }
        } else if s.len() >= 2 && s[1] == BACKSLASH {
            match unescape_prefix(s.skip(2)) {
                None => None,
                Some((c, j)) => Some((seq![BACKSLASH] + c, j + 2)),
            }
        } else if s.len() >= 6 && s[1] == LOWER_U && s[2] == DIGIT_0 && s[3] == DIGIT_0
            && is_hex_digit(s[4]) && is_hex_digit(s[5]) && hex_value(s[4]) * 16 + hex_value(s[5])
            < 0x20 {
            match unescape_prefix(s.skip(6)) {
                None => None,
                Some((c, j)) => Some(
                    (seq![(hex_value(s[4]) * 16 + hex_value(s[5])) as u8] + c, j + 6),
                ),
            }
        } else {
            None
        }
    } else if s[0] < 0x20 {
        None
    } else {
        match unescape_prefix(s.skip(1)) {
            None => None,
            Some((c, j)) => Some((seq![s[0]] + c, j + 1)),
        }
    }
}

/// Parse a credential blob: the fixed frame around two escaped
/// strings, accepted exactly as the writer lays it out.
pub open spec fn spec_parse_blob(s: Seq<u8>) -> Option<(Seq<u8>, Seq<u8>)> {
    let head = blob_head();
    let mid = blob_mid();
    if s.len() >= head.len() && s.take(head.len() as int) == head {
        let s1 = s.skip(head.len() as int);
        match unescape_prefix(s1) {
            None => None,
            Some((tok, j)) => {
                let s2 = s1.skip(j);
                if s2.len() >= mid.len() && s2.take(mid.len() as int) == mid {
                    match unescape_prefix(s2.skip(mid.len() as int)) {
                        None => None,
                        Some((sec, j2)) => {
                            if s2.skip(mid.len() as int).skip(j2) == blob_tail() {
                                Some((tok, sec))
                            } else {
                                None
                            }
                        },
                    }
                } else {
                    None
                }
            },
        }
    } else {
        None
    }
}

proof fn lemma_unescape_escape(x: Seq<u8>, rest: Seq<u8>)
    ensures
        unescape_prefix(json_escape(x) + seq![QUOTE] + rest) == Some(
            (x, json_escape(x).len() as int),
        ),
    decreases x.len(),
{
    let s = json_escape(x) + seq![QUOTE] + rest;
    if x.len() == 0 {
        assert(json_escape(x) =~= Seq::<u8>::empty());
        assert(s[0] == QUOTE);
        assert(unescape_prefix(s) == Some((Seq::<u8>::empty(), 0int)));
        assert(x =~= Seq::<u8>::empty());
    } else {
        let b = x.first();
        let e = json_escape_byte(b);
        let rest_esc = json_escape(x.drop_first());
        assert(json_escape(x) == e + rest_esc);
        let inner = rest_esc + seq![QUOTE] + rest;
        lemma_unescape_escape(x.drop_first(), rest);
        assert(seq![b] + x.drop_first() =~= x);
        if b == QUOTE {
            assert(s[0] == BACKSLASH && s[1] == QUOTE);
            assert(s.skip(2) =~= inner);
            assert(unescape_prefix(s) == Some(
                (seq![QUOTE] + x.drop_first(), rest_esc.len() as int + 2),
            ));
        } else if b == BACKSLASH {
            assert(s[0] == BACKSLASH && s[1] == BACKSLASH);
            assert(s.skip(2) =~= inner);
            assert(unescape_prefix(s) == Some(
                (seq![BACKSLASH] + x.drop_first(), rest_esc.len() as int + 2),
            ));
        } else if b < 0x20 {
            assert(s[0] == BACKSLASH && s[1] == LOWER_U && s[2] == DIGIT_0 && s[3] == DIGIT_0);
            assert(s[4] == hex_digit(b / 16) && s[5] == hex_digit(b % 16));
            assert(is_hex_digit(hex_digit(b / 16)));
            assert(is_hex_digit(hex_digit(b % 16)));
            assert(hex_value(hex_digit(b / 16)) == b / 16);
            assert(hex_value(hex_digit(b % 16)) == b % 16);
            assert(hex_value(s[4]) * 16 + hex_value(s[5]) == b);
            assert(s.skip(6) =~= inner);
            assert(unescape_prefix(s) == Some((seq![b] + x.drop_first(), rest_esc.len() as int + 6)));
        } else {
            assert(s[0] == b);
            assert(b != QUOTE && b != BACKSLASH && b >= 0x20);
            assert(s.skip(1) =~= inner);
            assert(unescape_prefix(s) == Some((seq![b] + x.drop_first(), rest_esc.len() as int + 1)));
        }
    }
}

/// Round-trip persistence: parsing a written credential blob yields
/// the very token and secret it was written from.
pub proof fn lemma_token_blob_round_trip(tok: Seq<u8>, sec: Seq<u8>)
    ensures
        spec_parse_blob(token_blob(tok, sec)) == Some((tok, sec)),
{
    let s = token_blob(tok, sec);
    let head = blob_head();
    let mid = blob_mid();
    let tail = blob_tail();
    assert(s.take(head.len() as int) =~= head);
    let s1 = s.skip(head.len() as int);
    let after_tok = mid.drop_first() + json_escape(sec) + tail;
    assert(s1 =~= json_escape(tok) + seq![QUOTE] + after_tok);
    lemma_unescape_escape(tok, after_tok);
    assert(unescape_prefix(s1) == Some((tok, json_escape(tok).len() as int)));
    let s2 = s1.skip(json_escape(tok).len() as int);
    assert(s2 =~= mid + json_escape(sec) + tail);
    assert(s2.take(mid.len() as int) =~= mid);
    let s3 = s2.skip(mid.len() as int);
    assert(s3 =~= json_escape(sec) + tail);
    assert(tail == seq![QUOTE] + seq![NEWLINE, RBRACE]);
    assert(s3 =~= json_escape(sec) + seq![QUOTE] + seq![NEWLINE, RBRACE]);
    lemma_unescape_escape(sec, seq![NEWLINE, RBRACE]);
    assert(unescape_prefix(s3) == Some((sec, json_escape(sec).len() as int)));
    assert(s3.skip(json_escape(sec).len() as int) =~= tail);
}

fn blob_head_vec() -> (r: Vec<u8>)
    ensures
        r@ == blob_head(),
{
    let mut v: Vec<u8> = Vec::new();
    v.push(LBRACE);
    v.push(NEWLINE);
    v.push(SPACE);
    v.push(SPACE);
    v.push(QUOTE);
    v.push(LOWER_T);
    v.push(LOWER_O);
    v.push(LOWER_K);
    v.push(LOWER_E);
    v.push(LOWER_N);
    v.push(QUOTE);
    v.push(COLON_BYTE);
    v.push(SPACE);
    v.push(QUOTE);
    proof {
        assert(v@ =~= blob_head());
    }
    v
}

fn blob_mid_vec() -> (r: Vec<u8>)
    ensures
        r@ == blob_mid(),
{
    let mut v: Vec<u8> = Vec::new();
    v.push(QUOTE);
    v.push(COMMA);
    v.push(NEWLINE);
    v.push(SPACE);
    v.push(SPACE);
    v.push(QUOTE);
    v.push(LOWER_S);
    v.push(LOWER_E);
    v.push(LOWER_C);
    v.push(LOWER_R);
    v.push(LOWER_E);
    v.push(LOWER_T);
    v.push(QUOTE);
    v.push(COLON_BYTE);
    v.push(SPACE);
    v.push(QUOTE);
    proof {
        assert(v@ =~= blob_mid());
    }
    v
}

proof fn lemma_json_escape_snoc(t: Seq<u8>, b: u8)
    ensures
        json_escape(t.push(b)) == json_escape(t) + json_escape_byte(b),
    decreases t.len(),
{
    if t.len() == 0 {
        assert(t.push(b).first() == b);
        assert(t.push(b).drop_first() =~= Seq::<u8>::empty());
        assert(json_escape(Seq::<u8>::empty()) =~= Seq::<u8>::empty());
        assert(json_escape(t.push(b)) == json_escape_byte(b) + json_escape(
            Seq::<u8>::empty(),
        ));
        assert(json_escape(t.push(b)) =~= json_escape_byte(b));
        assert(json_escape(t) + json_escape_byte(b) =~= json_escape_byte(b));
    } else {
        assert(t.push(b).first() == t.first());
        assert(t.push(b).drop_first() =~= t.drop_first().push(b));
        lemma_json_escape_snoc(t.drop_first(), b);
        assert(json_escape(t.push(b)) =~= json_escape(t) + json_escape_byte(b));
    }
}

/// Append the escaped form of a byte string.
#[verifier::loop_isolation(false)]
fn json_escape_push(out: &mut Vec<u8>, s: &[u8])
    ensures
        final(out)@ == old(out)@ + json_escape(s@),
{
    let mut i: usize = 0;
    proof {
        assert(json_escape(s@.take(0)) =~= Seq::<u8>::empty());
        assert(out@ =~= old(out)@ + json_escape(s@.take(0)));
    }
    while i < s.len()
        invariant
            i <= s@.len(),
            out@ == old(out)@ + json_escape(s@.take(i as int)),
        decreases s@.len() - i,
    {
        let b = s[i];
        if b == QUOTE {
            out.push(BACKSLASH);
            out.push(QUOTE);
        } else if b == BACKSLASH {
            out.push(BACKSLASH);
            out.push(BACKSLASH);
        } else if b < 0x20 {
            out.push(BACKSLASH);
            out.push(LOWER_U);
            out.push(DIGIT_0);
            out.push(DIGIT_0);
            out.push(hex_digit_byte(b / 16));
            out.push(hex_digit_byte(b % 16));
        } else {
            out.push(b);
        }
        proof {
            lemma_json_escape_snoc(s@.take(i as int), s@[i as int]);
            assert(s@.take(i + 1) =~= s@.take(i as int).push(s@[i as int]));
            assert(out@ =~= old(out)@ + json_escape(s@.take(i + 1)));
        }
        i += 1;
    }
    proof {
        assert(s@.take(s@.len() as int) =~= s@);
    }
}

/// Write the credential blob for an access token.
pub fn access_token_json(t: &AccessToken) -> (r: Vec<u8>)
    ensures
        r@ == token_blob(encode_utf8(t@.0), encode_utf8(t@.1)),
{
    let mut out = blob_head_vec();
    json_escape_push(&mut out, t.token().as_bytes());
    let mut mid = blob_mid_vec();
    out.append(&mut mid);
    json_escape_push(&mut out, t.secret().value().as_bytes());
    out.push(QUOTE);
    out.push(NEWLINE);
    out.push(RBRACE);
    proof {
        assert(out@ =~= token_blob(encode_utf8(t@.0), encode_utf8(t@.1)));
    }
    out
}


/// Undo the escaping from a position up to the closing quote.
#[verifier::loop_isolation(false)]
#[verifier::rlimit(60)]
fn unescape_from(bytes: &[u8], start: usize) -> (r: Option<(Vec<u8>, usize)>)
    requires
        start <= bytes@.len(),
    ensures
        match r {
            Some(ce) => start <= ce.1 < bytes@.len() && unescape_prefix(bytes@.skip(start as int))
                == Some((ce.0@, ce.1 as int - start as int)),
            None => unescape_prefix(bytes@.skip(start as int)) is None,
        },
{
    let mut out: Vec<u8> = Vec::new();
    let mut pos: usize = start;
    loop
        invariant
            start <= pos <= bytes@.len(),
            unescape_prefix(bytes@.skip(start as int)) == (match unescape_prefix(
                bytes@.skip(pos as int),
            ) {
                Option::<(Seq<u8>, int)>::None => Option::<(Seq<u8>, int)>::None,
                Option::<(Seq<u8>, int)>::Some((c, j)) => Some(
                    (out@ + c, (pos - start) + j),
                ),
            }),
        decreases bytes@.len() - pos,
    {
        let ghost sfx = bytes@.skip(pos as int);
        proof {
            if pos < bytes@.len() {
                assert(sfx[0] == bytes@[pos as int]);
                assert(sfx.len() == bytes@.len() - pos);
                if bytes@.len() - pos >= 2 {
                    assert(sfx[1] == bytes@[pos as int + 1]);
                }
                if bytes@.len() - pos >= 6 {
                    assert(sfx[2] == bytes@[pos as int + 2]);
                    assert(sfx[3] == bytes@[pos as int + 3]);
                    assert(sfx[4] == bytes@[pos as int + 4]);
                    assert(sfx[5] == bytes@[pos as int + 5]);
                }
            }
        }
        if pos >= bytes.len() {
            proof {
                assert(sfx.len() == 0);
            }
            return None;
        }
        let b = bytes[pos];
        if b == QUOTE {
            proof {
                assert(unescape_prefix(sfx) == Some((Seq::<u8>::empty(), 0int)));
                assert(out@ + Seq::<u8>::empty() =~= out@);
            }
            return Some((out, pos));
        }
        if b == BACKSLASH {
            if bytes.len() - pos < 2 {
                proof {
                    assert(unescape_prefix(sfx) is None);
                }
                return None;
            }
            let b2 = bytes[pos + 1];
            if b2 == QUOTE {
                out.push(QUOTE);
                proof {
                    assert(sfx.skip(2) =~= bytes@.skip(pos as int + 2));
                }
                pos += 2;
            } else if b2 == BACKSLASH {
                out.push(BACKSLASH);
                proof {
                    assert(sfx.skip(2) =~= bytes@.skip(pos as int + 2));
                }
                pos += 2;
            } else if b2 == LOWER_U && bytes.len() - pos >= 6 {
                let d2 = bytes[pos + 2];
                let d3 = bytes[pos + 3];
                let h = hex_value_byte(bytes[pos + 4]);
                let l = hex_value_byte(bytes[pos + 5]);
                if d2 != DIGIT_0 || d3 != DIGIT_0 {
                    proof {
                        assert(unescape_prefix(sfx) is None);
                    }
                    return None;
                }
                match (h, l) {
                    (Some(hv), Some(lv)) => {
                        let v = hv * 16 + lv;
                        if v >= 0x20 {
                            proof {
                                assert(unescape_prefix(sfx) is None);
                            }
                            return None;
                        }
                        out.push(v);
                        proof {
                            assert(sfx.skip(6) =~= bytes@.skip(pos as int + 6));
                        }
                        pos += 6;
                    },
                    _ => {
                        proof {
                            assert(unescape_prefix(sfx) is None);
                        }
                        return None;
                    },
                }
            } else {
                proof {
                    assert(unescape_prefix(sfx) is None);
                }
                return None;
            }
        } else if b < 0x20 {
            proof {
                assert(unescape_prefix(sfx) is None);
            }
            return None;
        } else {
            out.push(b);
            proof {
                assert(sfx.skip(1) =~= bytes@.skip(pos as int + 1));
            }
            pos += 1;
        }
    }
}

/// Parse a credential blob back into an access token. A text outside
/// the writer's exact format is a JSON error; string contents that are
/// not UTF-8 are an encoding error.
#[verifier::loop_isolation(false)]
#[verifier::rlimit(60)]
pub fn parse_access_token_json(bytes: &[u8]) -> (r: Result<AccessToken, WallflowerError>)
    ensures
        match spec_parse_blob(bytes@) {
            Option::None => r is Err && r->Err_0 is JsonError,
            Option::Some(ts) => {
                if valid_utf8(ts.0) && valid_utf8(ts.1) {
                    r is Ok && encode_utf8(r->Ok_0@.0) == ts.0 && encode_utf8(r->Ok_0@.1)
                        == ts.1
                } else {
                    r is Err && r->Err_0 is ParseError
                }
            },
        },
{
    let head = blob_head_vec();
    let mid = blob_mid_vec();
    if bytes.len() < head.len() {
        return Err(WallflowerError::JsonError("malformed credential file".to_owned()));
    }
    let head_part = vstd::slice::slice_subrange(bytes, 0, head.len());
    if !bytes_eq(head_part, head.as_slice()) {
        proof {
            assert(bytes@.take(blob_head().len() as int) =~= head_part@);
        }
        return Err(WallflowerError::JsonError("malformed credential file".to_owned()));
    }
    proof {
        assert(bytes@.take(blob_head().len() as int) =~= head_part@);
        assert(bytes@.take(blob_head().len() as int) == blob_head());
    }
    let ghost s1 = bytes@.skip(blob_head().len() as int);
    let tok_part = unescape_from(bytes, head.len());
    let (tok_bytes, tok_end) = match tok_part {
        Some(ce) => ce,
        None => {
            proof {
                assert(unescape_prefix(s1) is None);
            }
            return Err(WallflowerError::JsonError("malformed credential file".to_owned()));
        },
    };
    let ghost jtok = tok_end as int - blob_head().len() as int;
    let ghost s2 = s1.skip(jtok);
    proof {
        assert(s2 =~= bytes@.skip(tok_end as int));
    }
    if bytes.len() - tok_end < mid.len() {
        proof {
            assert(s2.len() < blob_mid().len());
        }
        return Err(WallflowerError::JsonError("malformed credential file".to_owned()));
    }
    let mid_part = vstd::slice::slice_subrange(bytes, tok_end, tok_end + mid.len());
    if !bytes_eq(mid_part, mid.as_slice()) {
        proof {
            assert(s2.take(blob_mid().len() as int) =~= mid_part@);
        }
        return Err(WallflowerError::JsonError("malformed credential file".to_owned()));
    }
    proof {
        assert(s2.take(blob_mid().len() as int) =~= mid_part@);
        assert(s2.take(blob_mid().len() as int) == blob_mid());
    }
    let after_mid = tok_end + mid.len();
    let ghost s3 = s2.skip(blob_mid().len() as int);
    proof {
        assert(s3 =~= bytes@.skip(after_mid as int));
    }
    let sec_part = unescape_from(bytes, after_mid);
    let (sec_bytes, sec_end) = match sec_part {
        Some(ce) => ce,
        None => {
            proof {
                assert(unescape_prefix(s3) is None);
            }
            return Err(WallflowerError::JsonError("malformed credential file".to_owned()));
        },
    };
    let ghost jsec = sec_end as int - after_mid as int;
    let ghost s4 = s3.skip(jsec);
    proof {
        assert(s4 =~= bytes@.skip(sec_end as int));
    }
    let remaining = bytes.len() - sec_end;
    if remaining != 3 {
        proof {
            assert(s4.len() != blob_tail().len());
        }
        return Err(WallflowerError::JsonError("malformed credential file".to_owned()));
    }
    if !(bytes[sec_end] == QUOTE && bytes[sec_end + 1] == NEWLINE && bytes[sec_end + 2]
        == RBRACE) {
        proof {
            assert(s4[0] == bytes@[sec_end as int]);
            assert(s4[1] == bytes@[sec_end as int + 1]);
            assert(s4[2] == bytes@[sec_end as int + 2]);
            assert(s4 != blob_tail());
        }
        return Err(WallflowerError::JsonError("malformed credential file".to_owned()));
    }
    proof {
        assert(s4 =~= blob_tail());
        assert(spec_parse_blob(bytes@) == Some((tok_bytes@, sec_bytes@)));
    }
    let tok_text = string_from_utf8(tok_bytes);
    let sec_text = string_from_utf8(sec_bytes);
    match (tok_text, sec_text) {
        (Some(t), Some(sec)) => Ok(AccessToken::new(t, TokenSecret::new(sec))),
        _ => Err(WallflowerError::ParseError("credential file is not UTF-8".to_owned())),
    }
}

} // verus!
