//! Decoding of base64 image payloads, tolerating a data-URL prefix: everything
//! up through the first `"base64,"` marker is stripped before decoding.

use vstd::prelude::*;
use base64::Engine;
use crate::item::InvError;

verus! {

/// The data-URL marker. The payload of an image datum starts right after the
/// first occurrence of this marker; a datum with no marker is all payload.
pub open spec fn marker() -> Seq<char> {
    "base64,"@
}

/// The payload of `s` when the search for the marker has reached position `i`:
/// the remainder after the first marker at or beyond `i`, or all of `s` when
/// none occurs there.
pub open spec fn payload_from(s: Seq<char>, i: int) -> Seq<char>
    decreases s.len() - i,
{
    if i + 7 > s.len() {
        s
    } else if s.subrange(i, i + 7) == marker() {
        s.skip(i + 7)
    } else {
        payload_from(s, i + 1)
    }
}

/// The base64 payload of an image datum: the part after the first data-URL
/// marker, or the whole string when no marker occurs.
pub open spec fn payload_of(s: Seq<char>) -> Seq<char> {
    payload_from(s, 0)
}

/// What the base64 standard-alphabet padded engine decodes a string to:
/// `Some` of the decoded bytes, or `None` when the input is malformed. The
/// result is a function of the input characters alone.
pub uninterp spec fn b64_decoded(s: Seq<char>) -> Option<Seq<u8>>;

/// Relies on base64's `Engine::decode` with the `STANDARD` engine: decoding is
/// deterministic in the input, returns the decoded bytes, and rejects
/// malformed input with an error (converted to `None` here).
#[verifier::external_body]
fn b64_decode(s: &str) -> (r: Option<Vec<u8>>)
    ensures
        match r {
            Some(v) => b64_decoded(s@) == Some(v@),
            None => b64_decoded(s@) is None,
        },
{
    base64::engine::general_purpose::STANDARD.decode(s).ok()
}

fn matches_marker_at(s: &str, i: usize, n: usize) -> (r: bool)
    requires
        n == s@.len(),
        i + 7 <= n,
    ensures
        r == (s@.subrange(i as int, i as int + 7) == marker()),
{
    let m = "base64,";
    proof {
        reveal_strlit("base64,");
    }
    let mut j: usize = 0;
    loop
        invariant
            j <= 7,
            i + 7 <= n,
            n == s@.len(),
            m@ == marker(),
            m@.len() == 7,
            forall|t: int| 0 <= t < j ==> s@[i + t] == marker()[t],
        decreases 7 - j,
    {
        if j == 7 {
            proof {
                assert(s@.subrange(i as int, i as int + 7) =~= marker());
            }
            return true;
        }
        if s.get_char(i + j) != m.get_char(j) {
            proof {
                assert(s@.subrange(i as int, i as int + 7)[j as int] == s@[i + j]);
            }
            return false;
        }
        j = j + 1;
    }
}

fn find_payload(s: &str) -> (r: String)
    ensures
        r@ == payload_of(s@),
{
    let n = s.unicode_len();
    let mut i: usize = 0;
    loop
        invariant
            i <= n,
            n == s@.len(),
            payload_of(s@) == payload_from(s@, i as int),
        decreases n - i,
    {
        if n - i < 7 {
            assert(payload_from(s@, i as int) == s@);
            return String::from_str(s);
        }
        if matches_marker_at(s, i, n) {
            assert(payload_from(s@, i as int) == s@.skip(i as int + 7));
            proof {
                assert(s@.skip(i as int + 7) =~= s@.subrange(i as int + 7, n as int));
            }
            let tail = s.substring_char(i + 7, n);
            return String::from_str(tail);
        }
        assert(payload_from(s@, i as int) == payload_from(s@, i as int + 1));
        i = i + 1;
    }
}

/// Decode a base64 image payload, tolerating a data-URL prefix: the part of
/// `data` after the first `"base64,"` marker (all of `data` when none occurs)
/// is decoded, and malformed base64 is an image-decode error.
pub fn decode_image_payload(data: &str) -> (r: Result<Vec<u8>, InvError>)
    ensures
        match r {
            Ok(v) => b64_decoded(payload_of(data@)) == Some(v@),
            Err(e) => e == InvError::ImageDecode && b64_decoded(payload_of(data@)) is None,
        },
{
    let payload = find_payload(data);
    match b64_decode(payload.as_str()) {
        Some(v) => Ok(v),
        None => Err(InvError::ImageDecode),
    }
}

proof fn lemma_payload_from_step(s: Seq<char>, i: int)
    requires
        0 <= i,
        i + 7 <= s.len(),
        s[i + 6] != ',',
    ensures
        payload_from(s, i) == payload_from(s, i + 1),
{
    reveal_strlit("base64,");
    assert(marker()[6] == ',');
    assert(s.subrange(i, i + 7)[6] == s[i + 6]);
}

proof fn lemma_payload_from_upto(s: Seq<char>, i: int, k: int)
    requires
        0 <= i <= k,
        k + 6 <= s.len(),
        forall|j: int| i + 6 <= j < k + 6 ==> s[j] != ',',
    ensures
        payload_from(s, i) == payload_from(s, k),
    decreases k - i,
{
    if i < k {
        assert(s[i + 6] != ',');
        lemma_payload_from_step(s, i);
        lemma_payload_from_upto(s, i + 1, k);
    }
}

/// The marker holds its only comma at the last position.
proof fn lemma_marker_commas()
    ensures
        marker().len() == 7,
        marker()[6] == ',',
        forall|o: int| 0 <= o < 6 ==> marker()[o] != ',',
{
    reveal_strlit("base64,");
    assert forall|o: int| 0 <= o < 6 implies marker()[o] != ',' by {
        if o == 0 {
            assert(marker()[0] != ',');
        } else if o == 1 {
            assert(marker()[1] != ',');
        } else if o == 2 {
            assert(marker()[2] != ',');
        } else if o == 3 {
            assert(marker()[3] != ',');
        } else if o == 4 {
            assert(marker()[4] != ',');
        } else {
            assert(marker()[5] != ',');
        }
    }
}

/// A datum with no comma at all — in particular, any pure base64 string, whose
/// alphabet holds no comma — is its own payload: nothing is stripped.
pub proof fn lemma_payload_of_plain(s: Seq<char>)
    requires
        forall|j: int| 0 <= j < s.len() ==> s[j] != ',',
    ensures
        payload_of(s) == s,
{
    if s.len() < 7 {
        assert(payload_from(s, 0) == s);
    } else {
        let k = s.len() - 6;
        lemma_payload_from_upto(s, 0, k);
        assert(payload_from(s, k) == s);
    }
}

/// Stripping a data-URL prefix: for any head with no comma (such as
/// `"data:image/png;"`), the payload of `head + marker + rest` is exactly
/// `rest`, whatever `rest` holds.
pub proof fn lemma_payload_of_data_url(head: Seq<char>, rest: Seq<char>)
    requires
        forall|j: int| 0 <= j < head.len() ==> head[j] != ',',
    ensures
        payload_of(head + marker() + rest) == rest,
{
    lemma_marker_commas();
    let s = head + marker() + rest;
    let h = head.len() as int;
    assert forall|j: int| 6 <= j < h + 6 implies s[j] != ',' by {
        if j < h {
            assert(s[j] == head[j]);
        } else {
            let o = j - h;
            assert(0 <= o < 6);
            assert(s[j] == marker()[o]);
        }
    }
    lemma_payload_from_upto(s, 0, h);
    assert(s.subrange(h, h + 7) =~= marker());
    assert(payload_from(s, h) == s.skip(h + 7));
    assert(s.skip(h + 7) =~= rest);
}

/// The common concrete case: the payload of `"data:image/png;base64," + p`
/// is exactly `p`, whatever `p` holds.
pub proof fn lemma_payload_of_png_data_url(p: Seq<char>)
    ensures
        payload_of("data:image/png;base64,"@ + p) == p,
{
    reveal_strlit("data:image/png;base64,");
    reveal_strlit("data:image/png;");
    reveal_strlit("base64,");
    let head = "data:image/png;"@;
    assert(head.len() == 15);
    assert forall|j: int| 0 <= j < head.len() implies head[j] != ',' by {
        if j == 0 {
            assert(head[0] != ',');
        } else if j == 1 {
            assert(head[1] != ',');
        } else if j == 2 {
            assert(head[2] != ',');
        } else if j == 3 {
            assert(head[3] != ',');
        } else if j == 4 {
            assert(head[4] != ',');
        } else if j == 5 {
            assert(head[5] != ',');
        } else if j == 6 {
            assert(head[6] != ',');
        } else if j == 7 {
            assert(head[7] != ',');
        } else if j == 8 {
            assert(head[8] != ',');
        } else if j == 9 {
            assert(head[9] != ',');
        } else if j == 10 {
            assert(head[10] != ',');
        } else if j == 11 {
            assert(head[11] != ',');
        } else if j == 12 {
            assert(head[12] != ',');
        } else if j == 13 {
            assert(head[13] != ',');
        } else {
            assert(head[14] != ',');
        }
    }
    lemma_payload_of_data_url(head, p);
    assert(head + marker() =~= "data:image/png;base64,"@);
    assert(head + marker() + p =~= "data:image/png;base64,"@ + p);
}

} // verus!
