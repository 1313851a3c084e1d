//! The signature engine: the canonical signature base string built from
//! verb, base URL and parameter set, and the HMAC-SHA1 signature over
//! it, base64-encoded.
//!
//! The base string is a pure function of its inputs; the parameter set
//! enters it only through a lexicographic sort of the encoded
//! `key=value` pieces, so any permutation of the same parameters yields
//! the same string.

use vstd::prelude::*;
use vstd::relations::{total_ordering, sorted_by, reflexive, antisymmetric, transitive, strongly_connected};
use vstd::seq_lib::lemma_sorted_unique;
use vstd::multiset::Multiset;
use vstd::slice::slice_to_vec;
use vstd::utf8::{encode_utf8, valid_utf8, valid_utf8_concat, encode_utf8_valid_utf8};
use hmac::{Hmac, Mac, KeyInit};
use sha1::Sha1;
use base64::Engine;
use crate::encoding::{percent_encode, percent_encode_bytes, string_from_utf8, lemma_percent_encode_ascii, lemma_ascii_bytes_valid_utf8};
use crate::flickr::{ConsumerSecret, TokenSecret};

verus! {

/// `&`
pub const AMP: u8 = 38;
/// `=`
pub const EQUALS: u8 = 61;

/// Byte-wise lexicographic order on byte strings; a prefix comes before
/// its extensions.
pub open spec fn lex_le(a: Seq<u8>, b: Seq<u8>) -> bool
    decreases a.len(),
{
    if a.len() == 0 {
        true
    } else if b.len() == 0 {
        false
    } else if a.first() < b.first() {
        true
    } else if a.first() > b.first() {
        false
    } else {
        lex_le(a.drop_first(), b.drop_first())
    }
}

/// The order as a value, for `sort_by`.
pub open spec fn lex_leq_fn() -> spec_fn(Seq<u8>, Seq<u8>) -> bool {
    |a: Seq<u8>, b: Seq<u8>| lex_le(a, b)
}

proof fn lemma_lex_le_refl(a: Seq<u8>)
    ensures
        lex_le(a, a),
    decreases a.len(),
{
    if a.len() > 0 {
        lemma_lex_le_refl(a.drop_first());
    }
}

proof fn lemma_lex_le_total(a: Seq<u8>, b: Seq<u8>)
    ensures
        lex_le(a, b) || lex_le(b, a),
    decreases a.len(),
{
    if a.len() > 0 && b.len() > 0 && a.first() == b.first() {
        lemma_lex_le_total(a.drop_first(), b.drop_first());
    }
}

proof fn lemma_lex_le_antisym(a: Seq<u8>, b: Seq<u8>)
    requires
        lex_le(a, b),
        lex_le(b, a),
    ensures
        a == b,
    decreases a.len(),
{
    if a.len() == 0 {
        assert(b.len() == 0);
        assert(a =~= b);
    } else {
        assert(b.len() > 0);
        assert(a.first() == b.first());
        lemma_lex_le_antisym(a.drop_first(), b.drop_first());
        assert(a.drop_first() == b.drop_first());
        assert(a.drop_first().len() == a.len() - 1);
        assert(b.drop_first().len() == b.len() - 1);
        assert(a.len() == b.len());
        assert forall|i: int| 0 <= i < a.len() implies a[i] == b[i] by {
            if i == 0 {
                assert(a.first() == b.first());
            } else {
                assert(a[i] == a.drop_first()[i - 1]);
                assert(b[i] == b.drop_first()[i - 1]);
            }
        }
        assert(a =~= b);
    }
}

proof fn lemma_lex_le_trans(a: Seq<u8>, b: Seq<u8>, c: Seq<u8>)
    requires
        lex_le(a, b),
        lex_le(b, c),
    ensures
        lex_le(a, c),
    decreases a.len(),
{
    if a.len() == 0 {
    } else {
        assert(b.len() > 0);
        assert(c.len() > 0);
        if a.first() == b.first() && b.first() == c.first() {
            lemma_lex_le_trans(a.drop_first(), b.drop_first(), c.drop_first());
        }
    }
}

/// The lexicographic order is a total order, so sorting by it gives one
/// canonical arrangement of any parameter multiset.
pub proof fn lemma_lex_total_ordering()
    ensures
        total_ordering(lex_leq_fn()),
{
    let r = lex_leq_fn();
    assert forall|x: Seq<u8>| #[trigger] r(x, x) by {
        lemma_lex_le_refl(x);
    }
    assert(reflexive(r));
    assert forall|x: Seq<u8>, y: Seq<u8>| #[trigger] r(x, y) && #[trigger] r(y, x) implies x
        == y by {
        lemma_lex_le_antisym(x, y);
    }
    assert(antisymmetric(r));
    assert forall|x: Seq<u8>, y: Seq<u8>, z: Seq<u8>|
        #[trigger] r(x, y) && #[trigger] r(y, z) implies r(x, z) by {
        lemma_lex_le_trans(x, y, z);
    }
    assert(transitive(r));
    assert forall|x: Seq<u8>, y: Seq<u8>| #[trigger] r(x, y) || #[trigger] r(y, x) by {
        lemma_lex_le_total(x, y);
    }
    assert(strongly_connected(r));
}

/// Compare two byte strings lexicographically.
pub fn lex_le_bytes(a: &[u8], b: &[u8]) -> (r: bool)
    ensures
        r == lex_le(a@, b@),
{
    let mut i: usize = 0;
    proof {
        assert(a@.skip(0) =~= a@);
        assert(b@.skip(0) =~= b@);
    }
    while i < a.len() && i < b.len()
        invariant
            i <= a@.len(),
            i <= b@.len(),
            lex_le(a@, b@) == lex_le(a@.skip(i as int), b@.skip(i as int)),
        decreases a@.len() - i,
    {
        let x = a[i];
        let y = b[i];
        proof {
            assert(a@.skip(i as int).first() == a@[i as int]);
            assert(b@.skip(i as int).first() == b@[i as int]);
        }
        if x < y {
            return true;
        }
        if x > y {
            return false;
        }
        proof {
            assert(a@.skip(i as int).drop_first() =~= a@.skip(i + 1));
            assert(b@.skip(i as int).drop_first() =~= b@.skip(i + 1));
        }
        i += 1;
    }
    if i == a.len() {
        proof {
            assert(a@.skip(i as int) =~= Seq::<u8>::empty());
        }
        true
    } else {
        proof {
            assert(b@.skip(i as int) =~= Seq::<u8>::empty());
            assert(a@.skip(i as int).len() > 0);
        }
        false
    }
}

/// Sort byte strings into the canonical lexicographic order.
pub fn sort_byte_strings(v: Vec<Vec<u8>>) -> (r: Vec<Vec<u8>>)
    ensures
        r.deep_view() == v.deep_view().sort_by(lex_leq_fn()),
{
    broadcast use vstd::seq_lib::group_to_multiset_ensures, vstd::multiset::group_multiset_axioms;

    let ghost orig = v.deep_view();
    let mut rest = v;
    let mut out: Vec<Vec<u8>> = Vec::new();
    while rest.len() > 0
        invariant
            sorted_by(out.deep_view(), lex_leq_fn()),
            out.deep_view().to_multiset().add(rest.deep_view().to_multiset())
                =~= orig.to_multiset(),
        decreases rest@.len(),
    {
        let ghost before_dv = rest.deep_view();
        let popped = rest.pop();
        let x = match popped {
            Some(x) => x,
            None => {
                proof {
                    assert(false);
                }
                Vec::new()
            },
        };
        proof {
            assert(x.deep_view() =~= x@);
            assert(before_dv =~= rest.deep_view().push(x@));
            vstd::seq_lib::to_multiset_build(rest.deep_view(), x@);
            assert(before_dv.to_multiset() =~= rest.deep_view().to_multiset().insert(x@));
        }
        let ghost out_before = out.deep_view();
        let mut j: usize = 0;
        while j < out.len() && lex_le_bytes(out[j].as_slice(), x.as_slice())
            invariant
                j <= out@.len(),
                out.deep_view() == out_before,
                forall|k: int| 0 <= k < j ==> lex_le(out_before[k], x@),
            decreases out@.len() - j,
        {
            proof {
                assert(out_before[j as int] =~= out@[j as int]@);
            }
            j += 1;
        }
        proof {
            if (j as int) < out_before.len() {
                assert(out_before[j as int] =~= out@[j as int]@);
                assert(!lex_le(out_before[j as int], x@));
                lemma_lex_le_total(out_before[j as int], x@);
                assert(lex_le(x@, out_before[j as int]));
            }
        }
        proof {
            assert(x.deep_view() =~= x@);
        }
        out.insert(j, x);
        proof {
            let jj = j as int;
            let now = out.deep_view();
            assert(now =~= out_before.insert(jj, x@));
            assert(now.remove(jj) =~= out_before);
            assert(now[jj] == x@);
            assert(now.contains(x@)) by {
                assert(now[jj] == x@);
            }
            vstd::seq_lib::to_multiset_contains(now, x@);
            assert(now.to_multiset().count(x@) > 0);
            vstd::seq_lib::to_multiset_remove(now, jj);
            assert(now.to_multiset().remove(x@) =~= out_before.to_multiset());
            assert(now.to_multiset() =~= out_before.to_multiset().insert(x@));
            assert(forall|k: int| 0 <= k < jj ==> now[k] == out_before[k]);
            assert(forall|k: int| jj < k < now.len() ==> now[k] == out_before[k - 1]);
            assert forall|p: int, q: int| 0 <= p < q < now.len() implies lex_leq_fn()(
                now[p],
                now[q],
            ) by {
                if q < jj {
                    assert(lex_leq_fn()(out_before[p], out_before[q]));
                } else if p < jj && q == jj {
                    assert(lex_le(out_before[p], x@));
                } else if p < jj && q > jj {
                    assert(lex_leq_fn()(out_before[p], out_before[q - 1]));
                } else if p == jj && q > jj {
                    if q - 1 == jj {
                        assert(lex_le(x@, out_before[jj]));
                    } else {
                        assert(lex_leq_fn()(out_before[jj], out_before[q - 1]));
                        lemma_lex_le_trans(x@, out_before[jj], out_before[q - 1]);
                    }
                } else {
                    assert(lex_leq_fn()(out_before[p - 1], out_before[q - 1]));
                }
            }
            assert(sorted_by(now, lex_leq_fn()));
        }
    }
    proof {
        assert(rest.deep_view().len() == 0);
        assert(rest.deep_view().to_multiset().len() == 0);
        assert(rest.deep_view().to_multiset() =~= Multiset::<Seq<u8>>::empty());
        assert(out.deep_view().to_multiset() =~= orig.to_multiset());
        lemma_lex_total_ordering();
        orig.lemma_sort_by_ensures(lex_leq_fn());
        lemma_sorted_unique(out.deep_view(), orig.sort_by(lex_leq_fn()), lex_leq_fn());
    }
    out
}

/// Join byte strings with `&`.
pub open spec fn join_amp(parts: Seq<Seq<u8>>) -> Seq<u8>
    decreases parts.len(),
{
    if parts.len() == 0 {
        Seq::empty()
    } else if parts.len() == 1 {
        parts[0]
    } else {
        parts[0] + seq![AMP] + join_amp(parts.drop_first())
    }
}

proof fn lemma_join_amp_snoc(parts: Seq<Seq<u8>>, x: Seq<u8>)
    ensures
        join_amp(parts.push(x)) == if parts.len() == 0 {
            x
        } else {
            join_amp(parts) + seq![AMP] + x
        },
    decreases parts.len(),
{
    if parts.len() == 0 {
        assert(parts.push(x).len() == 1);
        assert(join_amp(parts.push(x)) == parts.push(x)[0]);
        assert(parts.push(x)[0] == x);
    } else {
        assert(parts.push(x).first() == parts.first());
        assert(parts.push(x).drop_first() =~= parts.drop_first().push(x));
        lemma_join_amp_snoc(parts.drop_first(), x);
        assert(join_amp(parts.push(x)) =~= join_amp(parts) + seq![AMP] + x);
    }
}

/// One encoded `key=value` piece.
pub open spec fn param_piece(k: Seq<u8>, v: Seq<u8>) -> Seq<u8> {
    percent_encode(k) + seq![EQUALS] + percent_encode(v)
}

/// The piece builder as a value.
pub open spec fn piece_fn() -> spec_fn((Seq<u8>, Seq<u8>)) -> Seq<u8> {
    |p: (Seq<u8>, Seq<u8>)| param_piece(p.0, p.1)
}

/// The encoded pieces of a parameter list.
pub open spec fn pieces_of(params: Seq<(Seq<u8>, Seq<u8>)>) -> Seq<Seq<u8>> {
    params.map_values(piece_fn())
}

proof fn lemma_map_values_multiset<A, B>(s1: Seq<A>, s2: Seq<A>, f: spec_fn(A) -> B)
    requires
        s1.to_multiset() == s2.to_multiset(),
    ensures
        s1.map_values(f).to_multiset() == s2.map_values(f).to_multiset(),
    decreases s1.len(),
{
    broadcast use vstd::seq_lib::group_to_multiset_ensures, vstd::multiset::group_multiset_axioms;

    if s1.len() == 0 {
        assert(s1.to_multiset().len() == 0);
        assert(s2.to_multiset().len() == 0);
        assert(s2.len() == 0);
        assert(s1.map_values(f) =~= s2.map_values(f));
    } else {
        let x = s1.last();
        let s1p = s1.drop_last();
        assert(s1p.push(x) =~= s1);
        vstd::seq_lib::to_multiset_build(s1p, x);
        assert(s1.to_multiset().count(x) > 0);
        assert(s2.to_multiset().count(x) > 0);
        assert(s2.contains(x));
        let i = choose|i: int| 0 <= i < s2.len() && s2[i] == x;
        let s2p = s2.remove(i);
        vstd::seq_lib::to_multiset_remove(s2, i);
        assert(s1p.to_multiset() =~= s1.to_multiset().remove(x));
        assert(s2p.to_multiset() =~= s2.to_multiset().remove(x));
        lemma_map_values_multiset(s1p, s2p, f);
        assert(s1.map_values(f) =~= s1p.map_values(f).push(f(x)));
        vstd::seq_lib::to_multiset_build(s1p.map_values(f), f(x));
        assert(s2p.map_values(f) =~= s2.map_values(f).remove(i));
        vstd::seq_lib::to_multiset_remove(s2.map_values(f), i);
        assert(s2.map_values(f)[i] == f(x));
        assert(s2.map_values(f).contains(f(x))) by {
            assert(s2.map_values(f)[i] == f(x));
        }
        vstd::seq_lib::to_multiset_contains(s2.map_values(f), f(x));
        assert(s2p.map_values(f).to_multiset() =~= s2.map_values(f).to_multiset().remove(
            f(x),
        ));
        assert(s1.map_values(f).to_multiset() =~= s1p.map_values(f).to_multiset().insert(
            f(x),
        ));
        assert(s1.map_values(f).to_multiset() =~= s2.map_values(f).to_multiset());
    }
}

/// The base string is one fixed function of verb, URL and parameter
/// set: two strings built from the same inputs are byte-for-byte equal.
pub proof fn lemma_base_string_deterministic(
    verb: Seq<u8>,
    url: Seq<u8>,
    params: Seq<(Seq<u8>, Seq<u8>)>,
    r1: Seq<u8>,
    r2: Seq<u8>,
)
    requires
        r1 == spec_base_string(verb, url, params),
        r2 == spec_base_string(verb, url, params),
    ensures
        r1 == r2,
{
}

/// Sort stability: any permutation of the same parameter set yields
/// the same base string.
pub proof fn lemma_base_string_permutation(
    verb: Seq<u8>,
    url: Seq<u8>,
    params1: Seq<(Seq<u8>, Seq<u8>)>,
    params2: Seq<(Seq<u8>, Seq<u8>)>,
)
    requires
        params1.to_multiset() == params2.to_multiset(),
    ensures
        spec_base_string(verb, url, params1) == spec_base_string(verb, url, params2),
{
    lemma_map_values_multiset(params1, params2, piece_fn());
    lemma_lex_total_ordering();
    pieces_of(params1).lemma_sort_by_ensures(lex_leq_fn());
    pieces_of(params2).lemma_sort_by_ensures(lex_leq_fn());
    lemma_sorted_unique(
        pieces_of(params1).sort_by(lex_leq_fn()),
        pieces_of(params2).sort_by(lex_leq_fn()),
        lex_leq_fn(),
    );
}

/// The UTF-8 bytes of a parameter list of strings.
pub open spec fn params_bytes(params: Seq<(String, String)>) -> Seq<(Seq<u8>, Seq<u8>)> {
    params.map_values(|p: (String, String)| (encode_utf8(p.0@), encode_utf8(p.1@)))
}

/// The canonical signature base string over byte strings:
/// `VERB & enc(url) & enc(sorted pieces joined with &)`.
pub open spec fn spec_base_string(verb: Seq<u8>, url: Seq<u8>, params: Seq<(Seq<u8>, Seq<u8>)>) -> Seq<u8> {
    verb + seq![AMP] + percent_encode(url) + seq![AMP] + percent_encode(
        join_amp(pieces_of(params).sort_by(lex_leq_fn())),
    )
}

/// Build the canonical signature base string for a request.
///
/// The verb is used as given; the provider's flow always supplies the
/// uppercase HTTP method name.
pub fn signature_base_string(verb: &str, base_url: &str, params: &Vec<(String, String)>) -> (r:
    String)
    ensures
        encode_utf8(r@) == spec_base_string(
            encode_utf8(verb@),
            encode_utf8(base_url@),
            params_bytes(params@),
        ),
{
    broadcast use vstd::seq_lib::lemma_seq_skip_index, vstd::seq_lib::lemma_seq_skip_of_skip, vstd::seq_lib::lemma_seq_take_index;

    let ghost pb = params_bytes(params@);
    let mut pieces: Vec<Vec<u8>> = Vec::new();
    let mut i: usize = 0;
    while i < params.len()
        invariant
            i <= params@.len(),
            pb == params_bytes(params@),
            pieces.deep_view() =~= pieces_of(pb).take(i as int),
        decreases params@.len() - i,
    {
        let k = &params[i].0;
        let v = &params[i].1;
        let mut piece = percent_encode_bytes(k.as_str().as_bytes());
        piece.push(EQUALS);
        let mut ev = percent_encode_bytes(v.as_str().as_bytes());
        piece.append(&mut ev);
        proof {
            assert(piece@ == param_piece(encode_utf8(k@), encode_utf8(v@)));
            assert(pb[i as int] == (encode_utf8(k@), encode_utf8(v@)));
            assert(pieces_of(pb)[i as int] == param_piece(pb[i as int].0, pb[i as int].1));
            assert(piece.deep_view() =~= piece@);
        }
        let ghost pieces_before = pieces.deep_view();
        pieces.push(piece);
        proof {
            assert(pieces.deep_view() =~= pieces_before.push(pieces_of(pb)[i as int]));
            assert(pieces.deep_view() =~= pieces_of(pb).take(i + 1));
        }
        i += 1;
    }
    proof {
        assert(pieces_of(pb).take(params@.len() as int) =~= pieces_of(pb));
    }
    let mut sorted = sort_byte_strings(pieces);
    let ghost sorted_dv = pieces_of(pb).sort_by(lex_leq_fn());

    let mut joined: Vec<u8> = Vec::new();
    let mut first = true;
    let ghost total: int = sorted_dv.len() as int;
    while sorted.len() > 0
        invariant
            total == sorted_dv.len(),
            sorted.deep_view() =~= sorted_dv.skip(total - sorted@.len() as int),
            sorted@.len() <= total,
            first == (sorted@.len() == total),
            joined@ == join_amp(sorted_dv.take(total - sorted@.len() as int)),
        decreases sorted@.len(),
    {
        let ghost k = total - sorted@.len() as int;
        let ghost sdv_before = sorted.deep_view();
        let mut piece = sorted.remove(0);
        proof {
            assert(piece.deep_view() =~= piece@);
            assert(sdv_before[0] == piece.deep_view());
            assert(sdv_before[0] == sorted_dv.skip(k)[0]);
            assert(sorted_dv.skip(k)[0] == sorted_dv[k]);
            assert(piece@ == sorted_dv[k]);
            assert(sorted.deep_view() =~= sdv_before.skip(1));
            assert(sdv_before =~= sorted_dv.skip(k));
            assert(sorted_dv.skip(k).skip(1) =~= sorted_dv.skip(k + 1));
            assert(sdv_before.skip(1) =~= sorted_dv.skip(k + 1));
            lemma_join_amp_snoc(sorted_dv.take(k), sorted_dv[k]);
            assert(sorted_dv.take(k).push(sorted_dv[k]) =~= sorted_dv.take(k + 1));
        }
        if first {
            first = false;
        } else {
            joined.push(AMP);
        }
        joined.append(&mut piece);
    }
    proof {
        assert(sorted_dv.take(total) =~= sorted_dv);
    }

    let mut out: Vec<u8> = slice_to_vec(verb.as_bytes());
    out.push(AMP);
    let mut eu = percent_encode_bytes(base_url.as_bytes());
    out.append(&mut eu);
    out.push(AMP);
    let mut ej = percent_encode_bytes(joined.as_slice());
    out.append(&mut ej);
    proof {
        assert(out@ =~= spec_base_string(encode_utf8(verb@), encode_utf8(base_url@), pb));
        encode_utf8_valid_utf8(verb@);
        lemma_base_string_bytes_valid(encode_utf8(verb@), encode_utf8(base_url@), pb);
    }
    match string_from_utf8(out) {
        Some(s) => s,
        None => {
            proof {
                assert(false);
            }
            String::new()
        },
    }
}

proof fn lemma_base_string_bytes_valid(verb: Seq<u8>, url: Seq<u8>, params: Seq<(Seq<u8>, Seq<u8>)>)
    requires
        valid_utf8(verb),
    ensures
        valid_utf8(spec_base_string(verb, url, params)),
{
    broadcast use valid_utf8_concat;

    let tail = seq![AMP] + percent_encode(url) + seq![AMP] + percent_encode(
        join_amp(pieces_of(params).sort_by(lex_leq_fn())),
    );
    assert forall|i: int| 0 <= i < tail.len() implies tail[i] < 0x80 by {
        lemma_percent_encode_ascii(url);
        lemma_percent_encode_ascii(join_amp(pieces_of(params).sort_by(lex_leq_fn())));
    }
    lemma_ascii_bytes_valid_utf8(tail);
    assert(spec_base_string(verb, url, params) =~= verb + tail);
    assert(valid_utf8(verb + tail));
}

/// What the provider's HMAC-SHA1 returns; a function of key and message
/// alone.
pub uninterp spec fn hmac_sha1_of(key: Seq<u8>, msg: Seq<u8>) -> Seq<u8>;

/// Relies on `Hmac<Sha1>` of the hmac crate (with the sha1 crate's
/// digest): keyed HMAC-SHA1 over the message, a 20-byte digest that
/// depends on key and message alone. HMAC accepts keys of any length,
/// so `new_from_slice` cannot fail here.
#[verifier::external_body]
fn hmac_sha1(key: &[u8], msg: &[u8]) -> (r: Vec<u8>)
    ensures
        r@ == hmac_sha1_of(key@, msg@),
        r@.len() == 20,
{
    let mut mac = <Hmac<Sha1> as KeyInit>::new_from_slice(key).expect(
        "HMAC accepts keys of any length",
    );
    mac.update(msg);
    mac.finalize().into_bytes().to_vec()
}

/// What the base64 crate's standard engine returns for a byte string; a
/// function of the bytes alone.
pub uninterp spec fn base64_of(data: Seq<u8>) -> Seq<char>;

/// Relies on the base64 crate's `STANDARD` engine: the padded standard-
/// alphabet base64 text of the bytes, a function of the bytes alone,
/// four characters for every started group of three bytes.
#[verifier::external_body]
fn base64_encode(data: &[u8]) -> (r: String)
    ensures
        r@ == base64_of(data@),
        r@.len() == 4 * ((data@.len() + 2) / 3),
{
    base64::engine::general_purpose::STANDARD.encode(data)
}

/// The HMAC signing key: `enc(consumer_secret) & enc(token_secret)`.
pub open spec fn spec_signing_key(cs: Seq<u8>, ts: Seq<u8>) -> Seq<u8> {
    percent_encode(cs) + seq![AMP] + percent_encode(ts)
}

/// The signature text for a base string and the two secrets.
pub open spec fn spec_sign(base: Seq<u8>, cs: Seq<u8>, ts: Seq<u8>) -> Seq<char> {
    base64_of(hmac_sha1_of(spec_signing_key(cs, ts), base))
}

/// Sign a base string: HMAC-SHA1 keyed by the encoded secrets, base64-
/// encoded. The result is not percent-encoded here; it is escaped like
/// any other parameter when a request URL is assembled.
pub fn sign(base_string: &str, consumer_secret: &ConsumerSecret, token_secret: &TokenSecret) -> (r:
    String)
    ensures
        r@ == spec_sign(
            encode_utf8(base_string@),
            encode_utf8(consumer_secret.0@),
            encode_utf8(token_secret@),
        ),
        r@.len() == 28,
{
    let mut key = percent_encode_bytes(consumer_secret.0.as_str().as_bytes());
    key.push(AMP);
    let mut ets = percent_encode_bytes(token_secret.value().as_bytes());
    key.append(&mut ets);
    proof {
        assert(key@ =~= spec_signing_key(
            encode_utf8(consumer_secret.0@),
            encode_utf8(token_secret@),
        ));
    }
    let digest = hmac_sha1(key.as_slice(), base_string.as_bytes());
    base64_encode(digest.as_slice())
}

/// The signature of a request: sign the canonical base string of verb,
/// URL and parameters.
pub open spec fn spec_signature(
    verb: Seq<u8>,
    url: Seq<u8>,
    params: Seq<(Seq<u8>, Seq<u8>)>,
    cs: Seq<u8>,
    ts: Seq<u8>,
) -> Seq<char> {
    spec_sign(spec_base_string(verb, url, params), cs, ts)
}

/// Build the base string and sign it.
pub fn signature(
    verb: &str,
    base_url: &str,
    params: &Vec<(String, String)>,
    consumer_secret: &ConsumerSecret,
    token_secret: &TokenSecret,
) -> (r: String)
    ensures
        r@ == spec_signature(
            encode_utf8(verb@),
            encode_utf8(base_url@),
            params_bytes(params@),
            encode_utf8(consumer_secret.0@),
            encode_utf8(token_secret@),
        ),
{
    let base_string = signature_base_string(verb, base_url, params);
    sign(base_string.as_str(), consumer_secret, token_secret)
}

} // verus!
