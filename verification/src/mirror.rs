//! The mirroring pipeline's decisions: listing-page arguments, the
//! destination file name derived from a photo URL, the skip-or-download
//! choice per photo, and the per-page report that records every
//! outcome without aborting a batch.

use vstd::prelude::*;
use vstd::utf8::{encode_utf8, valid_utf8};
use vstd::slice::{slice_to_vec, slice_subrange};
use crate::error::{WallflowerError, FlickrError};
use crate::encoding::{percent_decode, percent_decode_bytes, string_from_utf8, DOT, lemma_ascii_bytes_valid_utf8, lemma_ascii_position_is_boundary};
use crate::flickr::{find_byte, scan_byte, lemma_find_byte_at};
use crate::signature::params_bytes;
use crate::numbers::{dec_bytes, u64_to_string};

verus! {

/// `/`
pub const SLASH: u8 = 47;
/// `:`
pub const COLON: u8 = 58;
/// `?`
pub const QUESTION: u8 = 63;
/// `#`
pub const HASH: u8 = 35;
/// `j`
pub const LOWER_J: u8 = 106;
/// `p`
pub const LOWER_P: u8 = 112;
/// `g`
pub const LOWER_G: u8 = 103;

/// The first position of a `://` scheme separator.
pub open spec fn find_sep(s: Seq<u8>) -> Option<int>
    decreases s.len(),
{
    if s.len() < 3 {
        None
    } else if s[0] == COLON && s[1] == SLASH && s[2] == SLASH {
        Some(0)
    } else {
        match find_sep(s.drop_first()) {
            None => None,
            Some(i) => Some(i + 1),
        }
    }
}

proof fn lemma_find_sep_at(s: Seq<u8>, i: int)
    requires
        0 <= i <= s.len(),
        forall|k: int|
            0 <= k < i ==> !(k + 2 < s.len() && #[trigger] s[k] == COLON && s[k + 1] == SLASH
                && s[k + 2] == SLASH),
        i == s.len() || (i + 2 < s.len() && s[i] == COLON && s[i + 1] == SLASH && s[i + 2]
            == SLASH),
    ensures
        find_sep(s) == if i + 2 < s.len() {
            Option::<int>::Some(i)
        } else {
            Option::<int>::None
        },
    decreases s.len(),
{
    if s.len() < 3 {
    } else if s[0] == COLON && s[1] == SLASH && s[2] == SLASH {
        assert(i == 0);
    } else {
        assert(i >= 1);
        let t = s.drop_first();
        assert(forall|k: int| 0 <= k < t.len() ==> t[k] == s[k + 1]);
        lemma_find_sep_at(t, i - 1);
    }
}

/// The first position of `?` or `#`, or the length when neither
/// occurs.
pub open spec fn find_query_or_fragment(s: Seq<u8>) -> int
    decreases s.len(),
{
    if s.len() == 0 {
        0
    } else if s[0] == QUESTION || s[0] == HASH {
        0
    } else {
        1 + find_query_or_fragment(s.drop_first())
    }
}

proof fn lemma_find_query_or_fragment_at(s: Seq<u8>, i: int)
    requires
        0 <= i <= s.len(),
        forall|k: int| 0 <= k < i ==> s[k] != QUESTION && s[k] != HASH,
        i == s.len() || s[i] == QUESTION || s[i] == HASH,
    ensures
        find_query_or_fragment(s) == i,
    decreases s.len(),
{
    if s.len() == 0 {
    } else if s[0] == QUESTION || s[0] == HASH {
        assert(i == 0);
    } else {
        assert(i >= 1);
        let t = s.drop_first();
        assert(forall|k: int| 0 <= k < t.len() ==> t[k] == s[k + 1]);
        lemma_find_query_or_fragment_at(t, i - 1);
    }
}

/// The path component of an absolute URL: from the first `/` after the
/// `://` separator up to the first `?` or `#`; empty when the URL has
/// no path; `None` when the text has no scheme separator at all.
pub open spec fn url_path_bytes(s: Seq<u8>) -> Option<Seq<u8>> {
    match find_sep(s) {
        None => None,
        Some(i) => {
            let after = s.skip(i + 3);
            match find_byte(after, SLASH) {
                None => Some(Seq::empty()),
                Some(p) => {
                    let rest = after.skip(p);
                    Some(rest.take(find_query_or_fragment(rest)))
                },
            }
        },
    }
}

/// The suffix of a byte string after its last `/` (the whole string
/// when it has none).
pub open spec fn last_segment(s: Seq<u8>) -> Seq<u8>
    decreases s.len(),
{
    if s.len() == 0 {
        Seq::empty()
    } else if s.last() == SLASH {
        Seq::empty()
    } else {
        last_segment(s.drop_last()).push(s.last())
    }
}

proof fn lemma_last_segment_at(s: Seq<u8>, j: int)
    requires
        0 <= j <= s.len(),
        forall|k: int| j <= k < s.len() ==> s[k] != SLASH,
        j == 0 || s[j - 1] == SLASH,
    ensures
        last_segment(s) == s.skip(j),
    decreases s.len(),
{
    if j == s.len() {
        if s.len() > 0 {
            assert(s.last() == SLASH);
        }
        assert(s.skip(j) =~= Seq::<u8>::empty());
    } else {
        assert(s.last() != SLASH);
        let t = s.drop_last();
        assert(forall|k: int| j <= k < t.len() ==> t[k] == s[k]);
        lemma_last_segment_at(t, j);
        assert(t.skip(j).push(s.last()) =~= s.skip(j));
    }
}

/// A file name that the local store treats as unusable: empty, or a
/// relative-directory name.
pub open spec fn unusable_segment(seg: Seq<u8>) -> bool {
    seg.len() == 0 || seg == seq![DOT] || seg == seq![DOT, DOT]
}

/// Scan for the first `://` scheme separator; the text's length when
/// there is none.
fn scan_scheme(bytes: &[u8]) -> (i: usize)
    ensures
        i <= bytes@.len(),
        forall|k: int|
            0 <= k < i ==> !(k + 2 < bytes@.len() && #[trigger] bytes@[k] == COLON && bytes@[k
                + 1] == SLASH && bytes@[k + 2] == SLASH),
        i < bytes@.len() ==> i + 2 < bytes@.len() && bytes@[i as int] == COLON && bytes@[i as int
            + 1] == SLASH && bytes@[i as int + 2] == SLASH,
{
    let n = bytes.len();
    let mut i: usize = 0;
    while i < n && !(n - i > 2 && bytes[i] == COLON && bytes[i + 1] == SLASH && bytes[i + 2]
        == SLASH)
        invariant
            i <= n,
            n == bytes@.len(),
            forall|k: int|
                0 <= k < i ==> !(k + 2 < bytes@.len() && #[trigger] bytes@[k] == COLON
                    && bytes@[k + 1] == SLASH && bytes@[k + 2] == SLASH),
        decreases n - i,
    {
        i += 1;
    }
    i
}

/// Whether the text carries a `://` scheme separator, so that the URL
/// model assigns it a path at all.
pub fn url_has_scheme(url: &str) -> (r: bool)
    ensures
        r == (url_path_bytes(encode_utf8(url@)) is Some),
{
    let bytes = url.as_bytes();
    let ghost u = encode_utf8(url@);
    proof {
        assert(bytes@ == u);
    }
    let i = scan_scheme(bytes);
    proof {
        lemma_find_sep_at(u, i as int);
    }
    i < bytes.len()
}

/// Derive the local file name for a photo URL: the last segment of the
/// percent-decoded path. A URL without a scheme is rejected; a decoded
/// path that is not UTF-8 is an encoding error; a URL whose path ends
/// in no usable name is an I/O-category error, as a file by that name
/// could never be created.
#[verifier::loop_isolation(false)]
#[verifier::rlimit(60)]
pub fn destination_filename(url: &str) -> (r: Result<String, WallflowerError>)
    ensures
        match url_path_bytes(encode_utf8(url@)) {
            Option::None => r is Err && (r->Err_0 matches WallflowerError::FlickrError(
                FlickrError::UrlError(_),
            )),
            Option::Some(path) => {
                let dec = percent_decode(path);
                if !valid_utf8(dec) {
                    r is Err && r->Err_0 is ParseError
                } else if unusable_segment(last_segment(dec)) {
                    r is Err && r->Err_0 is IoError
                } else {
                    r is Ok && encode_utf8(r->Ok_0@) == last_segment(dec)
                }
            },
        },
{
    let bytes = url.as_bytes();
    let ghost u = encode_utf8(url@);
    proof {
        assert(bytes@ == u);
    }
    let n = bytes.len();
    let i = scan_scheme(bytes);
    proof {
        lemma_find_sep_at(u, i as int);
    }
    if i == n {
        proof {
            assert(url_path_bytes(u) is None);
        }
        return Err(
            WallflowerError::FlickrError(FlickrError::UrlError("URL has no scheme".to_owned())),
        );
    }
    proof {
        assert(find_sep(u) == Some(i as int));
    }
    let ghost after = u.skip(i as int + 3);
    let p = scan_byte(bytes, i + 3, n, SLASH);
    proof {
        assert(forall|k: int| 0 <= k < after.len() ==> after[k] == u[k + i + 3]);
        lemma_find_byte_at(after, SLASH, p as int - (i as int + 3));
    }
    if p == n {
        proof {
            assert(find_byte(after, SLASH) is None);
            assert(url_path_bytes(u) == Some(Seq::<u8>::empty()));
            assert(percent_decode(Seq::<u8>::empty()) =~= Seq::<u8>::empty());
            lemma_ascii_bytes_valid_utf8(Seq::<u8>::empty());
            assert(last_segment(Seq::<u8>::empty()).len() == 0);
        }
        return Err(WallflowerError::IoError("URL does not have file name".to_owned()));
    }
    let ghost rest = after.skip(p as int - (i as int + 3));
    let mut q: usize = p;
    while q < n && bytes[q] != QUESTION && bytes[q] != HASH
        invariant
            p <= q <= n,
            forall|k: int| p <= k < q ==> u[k] != QUESTION && u[k] != HASH,
        decreases n - q,
    {
        q += 1;
    }
    proof {
        assert(rest =~= u.skip(p as int));
        assert(forall|k: int| 0 <= k < rest.len() ==> rest[k] == u[k + p]);
        lemma_find_query_or_fragment_at(rest, q as int - p as int);
        assert(rest.take(q as int - p as int) =~= u.subrange(p as int, q as int));
        assert(url_path_bytes(u) == Some(u.subrange(p as int, q as int)));
    }
    let dec = percent_decode_bytes(slice_subrange(bytes, p, q));
    let ghost decs = percent_decode(u.subrange(p as int, q as int));
    let m = dec.len();
    let mut j: usize = m;
    while j > 0 && dec[j - 1] != SLASH
        invariant
            j <= m,
            forall|k: int| j <= k < m ==> dec@[k] != SLASH,
        decreases j,
    {
        j -= 1;
    }
    proof {
        lemma_last_segment_at(decs, j as int);
    }
    let prefix = slice_to_vec(slice_subrange(dec.as_slice(), 0, j));
    let seg = slice_to_vec(slice_subrange(dec.as_slice(), j, m));
    let prefix_text = string_from_utf8(prefix);
    let seg_text = string_from_utf8(seg);
    match (prefix_text, seg_text) {
        (Some(_), Some(name)) => {
            proof {
                vstd::utf8::valid_utf8_concat(
                    decs.subrange(0, j as int),
                    decs.subrange(j as int, m as int),
                );
                assert(decs.subrange(0, j as int) + decs.subrange(j as int, m as int)
                    =~= decs);
                assert(valid_utf8(decs));
                assert(encode_utf8(name@) == last_segment(decs));
            }
            let nb = name.as_str().as_bytes();
            if nb.len() == 0 {
                return Err(WallflowerError::IoError("URL does not have file name".to_owned()));
            }
            if nb.len() == 1 && nb[0] == DOT {
                proof {
                    assert(last_segment(decs) =~= seq![DOT]);
                }
                return Err(WallflowerError::IoError("URL does not have file name".to_owned()));
            }
            if nb.len() == 2 && nb[0] == DOT && nb[1] == DOT {
                proof {
                    assert(last_segment(decs) =~= seq![DOT, DOT]);
                }
                return Err(WallflowerError::IoError("URL does not have file name".to_owned()));
            }
            proof {
                assert(encode_utf8(name@).len() > 0);
                if last_segment(decs) == seq![DOT] {
                    assert(nb@[0] == DOT && nb@.len() == 1);
                    assert(false);
                }
                if last_segment(decs) == seq![DOT, DOT] {
                    assert(nb@[0] == DOT && nb@[1] == DOT && nb@.len() == 2);
                    assert(false);
                }
                assert(!unusable_segment(last_segment(decs)));
            }
            Ok(name)
        },
        _ => {
            proof {
                if valid_utf8(decs) {
                    lemma_ascii_position_is_boundary(decs, j as int);
                    vstd::utf8::valid_utf8_split(decs, j as int);
                    assert(false);
                }
            }
            Err(WallflowerError::ParseError("decoded path is not UTF-8".to_owned()))
        },
    }
}


/// The listing arguments for one page: photos only, a minimum taken
/// date, one hundred items per page, and the large-size URL variant.
pub fn page_arguments(page: u32) -> (r: Vec<(String, String)>)
    ensures
        params_bytes(r@) == seq![
            (encode_utf8("min_taken_date"@), encode_utf8("1388494800"@)),
            (encode_utf8("content_type"@), encode_utf8("1"@)),
            (encode_utf8("per_page"@), encode_utf8("100"@)),
            (encode_utf8("page"@), dec_bytes(page as nat)),
            (encode_utf8("extras"@), encode_utf8("url_k"@)),
        ],
{
    let mut out: Vec<(String, String)> = Vec::new();
    out.push(("min_taken_date".to_owned(), "1388494800".to_owned()));
    out.push(("content_type".to_owned(), "1".to_owned()));
    out.push(("per_page".to_owned(), "100".to_owned()));
    out.push(("page".to_owned(), u64_to_string(page as u64)));
    out.push(("extras".to_owned(), "url_k".to_owned()));
    proof {
        assert(params_bytes(out@) =~= seq![
            (encode_utf8("min_taken_date"@), encode_utf8("1388494800"@)),
            (encode_utf8("content_type"@), encode_utf8("1"@)),
            (encode_utf8("per_page"@), encode_utf8("100"@)),
            (encode_utf8("page"@), dec_bytes(page as nat)),
            (encode_utf8("extras"@), encode_utf8("url_k"@)),
        ]);
    }
    out
}

/// What the pipeline does with one listed photo.
#[derive(Debug, PartialEq, Eq, Structural, Clone, Copy)]
pub enum ItemAction {
    Download,
    Skip,
}

/// The presence of the file decides alone: a photo already on disk is
/// never fetched again.
pub fn item_action(already_present: bool) -> (r: ItemAction)
    ensures
        r == (if already_present {
            ItemAction::Skip
        } else {
            ItemAction::Download
        }),
{
    if already_present {
        ItemAction::Skip
    } else {
        ItemAction::Download
    }
}

/// How many of the actions fetch from the network.
pub open spec fn spec_download_count(actions: Seq<ItemAction>) -> int
    decreases actions.len(),
{
    if actions.len() == 0 {
        0
    } else {
        spec_download_count(actions.drop_last()) + if actions.last() is Download {
            1int
        } else {
            0int
        }
    }
}

/// Plan a page: one action per listed photo, decided by presence.
#[verifier::loop_isolation(false)]
pub fn plan_page(already_present: &Vec<bool>) -> (r: Vec<ItemAction>)
    ensures
        r@.len() == already_present@.len(),
        forall|i: int|
            0 <= i < r@.len() ==> r@[i] == (if already_present@[i] {
                ItemAction::Skip
            } else {
                ItemAction::Download
            }),
{
    let mut out: Vec<ItemAction> = Vec::new();
    let mut i: usize = 0;
    while i < already_present.len()
        invariant
            i <= already_present@.len(),
            out@.len() == i,
            forall|k: int|
                0 <= k < i ==> out@[k] == (if already_present@[k] {
                    ItemAction::Skip
                } else {
                    ItemAction::Download
                }),
        decreases already_present@.len() - i,
    {
        out.push(item_action(already_present[i]));
        i += 1;
    }
    out
}

/// Idempotent mirroring: when every photo of an unchanged listing is
/// already on disk, the planned pass downloads nothing.
pub proof fn lemma_mirror_idempotent(actions: Seq<ItemAction>, already_present: Seq<bool>)
    requires
        actions.len() == already_present.len(),
        forall|i: int|
            0 <= i < actions.len() ==> actions[i] == (if already_present[i] {
                ItemAction::Skip
            } else {
                ItemAction::Download
            }),
        forall|i: int| 0 <= i < already_present.len() ==> already_present[i],
    ensures
        spec_download_count(actions) == 0,
    decreases actions.len(),
{
    if actions.len() > 0 {
        assert(actions.last() is Skip);
        lemma_mirror_idempotent(actions.drop_last(), already_present.drop_last());
    }
}

/// The recorded outcome of one photo in a batch.
#[derive(Debug, PartialEq, Eq, Structural, Clone, Copy)]
pub enum ItemOutcome {
    Downloaded,
    AlreadyPresent,
    Failed,
}

/// The per-page report: every item is counted, failures beside the
/// successes, and the batch itself never turns into an error.
#[derive(Debug, PartialEq, Eq, Structural, Clone, Copy)]
pub struct PageReport {
    pub total: usize,
    pub downloaded: usize,
    pub already_present: usize,
    pub failed: usize,
}

pub open spec fn spec_count_downloaded(outcomes: Seq<ItemOutcome>) -> int
    decreases outcomes.len(),
{
    if outcomes.len() == 0 {
        0
    } else {
        spec_count_downloaded(outcomes.drop_last()) + if outcomes.last() is Downloaded {
            1int
        } else {
            0int
        }
    }
}

pub open spec fn spec_count_already_present(outcomes: Seq<ItemOutcome>) -> int
    decreases outcomes.len(),
{
    if outcomes.len() == 0 {
        0
    } else {
        spec_count_already_present(outcomes.drop_last()) + if outcomes.last() is AlreadyPresent {
            1int
        } else {
            0int
        }
    }
}

pub open spec fn spec_count_failed(outcomes: Seq<ItemOutcome>) -> int
    decreases outcomes.len(),
{
    if outcomes.len() == 0 {
        0
    } else {
        spec_count_failed(outcomes.drop_last()) + if outcomes.last() is Failed {
            1int
        } else {
            0int
        }
    }
}

/// Tally a page's outcomes. The report accounts for every item.
#[verifier::loop_isolation(false)]
pub fn page_report(outcomes: &Vec<ItemOutcome>) -> (r: PageReport)
    ensures
        r.total == outcomes@.len(),
        r.downloaded == spec_count_downloaded(outcomes@),
        r.already_present == spec_count_already_present(outcomes@),
        r.failed == spec_count_failed(outcomes@),
        r.downloaded + r.already_present + r.failed == r.total,
{
    let mut downloaded: usize = 0;
    let mut already_present: usize = 0;
    let mut failed: usize = 0;
    let mut i: usize = 0;
    proof {
        assert(outcomes@.take(0) =~= Seq::<ItemOutcome>::empty());
    }
    while i < outcomes.len()
        invariant
            i <= outcomes@.len(),
            downloaded == spec_count_downloaded(outcomes@.take(i as int)),
            already_present == spec_count_already_present(outcomes@.take(i as int)),
            failed == spec_count_failed(outcomes@.take(i as int)),
            downloaded + already_present + failed == i,
        decreases outcomes@.len() - i,
    {
        proof {
            assert(outcomes@.take(i + 1).drop_last() =~= outcomes@.take(i as int));
            assert(outcomes@.take(i + 1).last() == outcomes@[i as int]);
        }
        match outcomes[i] {
            ItemOutcome::Downloaded => {
                downloaded += 1;
            },
            ItemOutcome::AlreadyPresent => {
                already_present += 1;
            },
            ItemOutcome::Failed => {
                failed += 1;
            },
        }
        i += 1;
    }
    proof {
        assert(outcomes@.take(outcomes@.len() as int) =~= outcomes@);
    }
    PageReport { total: outcomes.len(), downloaded, already_present, failed }
}

proof fn lemma_no_failure_count(outcomes: Seq<ItemOutcome>)
    requires
        forall|k: int| 0 <= k < outcomes.len() ==> !(#[trigger] outcomes[k] is Failed),
    ensures
        spec_count_failed(outcomes) == 0,
    decreases outcomes.len(),
{
    if outcomes.len() > 0 {
        lemma_no_failure_count(outcomes.drop_last());
    }
}

proof fn lemma_counts_sum(outcomes: Seq<ItemOutcome>)
    ensures
        spec_count_downloaded(outcomes) + spec_count_already_present(outcomes)
            + spec_count_failed(outcomes) == outcomes.len(),
    decreases outcomes.len(),
{
    if outcomes.len() > 0 {
        lemma_counts_sum(outcomes.drop_last());
    }
}

/// Partial-failure isolation: one failed download leaves every other
/// item of the batch counted as completed or skipped; the report shows
/// exactly one failure and the rest intact.
pub proof fn lemma_failure_isolation(outcomes: Seq<ItemOutcome>, t: int)
    requires
        0 <= t < outcomes.len(),
        outcomes[t] is Failed,
        forall|k: int| 0 <= k < outcomes.len() && k != t ==> !(#[trigger] outcomes[k] is Failed),
    ensures
        spec_count_failed(outcomes) == 1,
        spec_count_downloaded(outcomes) + spec_count_already_present(outcomes) == outcomes.len()
            - 1,
    decreases outcomes.len(),
{
    lemma_counts_sum(outcomes);
    if t == outcomes.len() - 1 {
        assert(forall|k: int|
            0 <= k < outcomes.drop_last().len() ==> !(#[trigger] outcomes.drop_last()[k]
                is Failed));
        lemma_no_failure_count(outcomes.drop_last());
    } else {
        assert(!(outcomes.last() is Failed));
        assert(forall|k: int|
            0 <= k < outcomes.drop_last().len() && k != t ==> !(
            #[trigger] outcomes.drop_last()[k] is Failed));
        lemma_failure_isolation(outcomes.drop_last(), t);
    }
}

/// Whether a file name is one of the photo store's images: it ends in
/// `.jpg` and has a stem before the dot.
pub open spec fn spec_is_photo_filename(name: Seq<u8>) -> bool {
    name.len() > 4 && name.skip(name.len() - 4) == seq![DOT, LOWER_J, LOWER_P, LOWER_G]
}

/// Test a directory entry's name for membership in the photo store.
pub fn is_photo_filename(name: &str) -> (r: bool)
    ensures
        r == spec_is_photo_filename(encode_utf8(name@)),
{
    let b = name.as_bytes();
    let ghost nb = encode_utf8(name@);
    proof {
        assert(b@ == nb);
    }
    if b.len() <= 4 {
        return false;
    }
    let n = b.len();
    let hit = b[n - 4] == DOT && b[n - 3] == LOWER_J && b[n - 2] == LOWER_P && b[n - 1]
        == LOWER_G;
    proof {
        let tail = nb.skip(nb.len() - 4);
        assert(tail.len() == 4);
        assert(tail[0] == nb[nb.len() - 4]);
        assert(tail[1] == nb[nb.len() - 3]);
        assert(tail[2] == nb[nb.len() - 2]);
        assert(tail[3] == nb[nb.len() - 1]);
        if hit {
            assert(tail =~= seq![DOT, LOWER_J, LOWER_P, LOWER_G]);
        } else {
            assert(tail != seq![DOT, LOWER_J, LOWER_P, LOWER_G]) by {
                assert(seq![DOT, LOWER_J, LOWER_P, LOWER_G][0] == DOT);
                assert(seq![DOT, LOWER_J, LOWER_P, LOWER_G][1] == LOWER_J);
                assert(seq![DOT, LOWER_J, LOWER_P, LOWER_G][2] == LOWER_P);
                assert(seq![DOT, LOWER_J, LOWER_P, LOWER_G][3] == LOWER_G);
            }
        }
    }
    hit
}


} // verus!
