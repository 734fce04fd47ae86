//! Server identity: a cleaned url, a compact alphanumeric ident, and a
//! 64-bit id hashed from the ident. The cleaning is verified over the
//! url's bytes; only the hash itself comes from outside.

use vstd::prelude::*;

use crate::ServerID;
use vstd::string::StringSliceAdditionalSpecFns;

verus! {

/// Relies on `String::from_utf8_lossy`: ascii bytes decode to exactly
/// those characters, one per byte.
#[verifier::external_body]
fn ascii_bytes_to_string(v: &Vec<u8>) -> (r: String)
    requires
        forall|i: int| 0 <= i < v@.len() ==> v@[i] < 128,
    ensures
        r@.len() == v@.len(),
        forall|i: int| 0 <= i < v@.len() ==> r@[i] == v@[i] as char,
{
    String::from_utf8_lossy(v.as_slice()).into_owned()
}

/// Relies on ahash's `AHasher` with its default keys: a 64-bit digest of
/// the bytes. The keys may be drawn anew per process, so nothing is
/// promised of the value.
#[verifier::external_body]
fn hash_ident_bytes(v: &Vec<u8>) -> u64 {
    let mut hasher = ahash::AHasher::default();
    std::hash::Hasher::write(&mut hasher, v.as_slice());
    std::hash::Hasher::finish(&hasher)
}

/// Ascii upper-case letters folded to lower case; all else unchanged.
pub open spec fn ascii_lower(b: u8) -> u8 {
    if 65 <= b <= 90 {
        (b + 32) as u8
    } else {
        b
    }
}

/// Bytes kept in a cleaned url: ascii, and no slashes.
pub open spec fn url_byte_kept(b: u8) -> bool {
    b < 128 && b != 47
}

/// Bytes kept in a server ident: lower-case letters and digits.
pub open spec fn ident_byte_kept(b: u8) -> bool {
    (97 <= b <= 122) || (48 <= b <= 57)
}

/// The leading scheme prefix dropped from a url's bytes, when present.
pub open spec fn strip_scheme(bs: Seq<u8>, scheme: Seq<u8>) -> Seq<u8> {
    if bs.len() >= scheme.len() && bs.take(scheme.len() as int) == scheme {
        bs.skip(scheme.len() as int)
    } else {
        bs
    }
}

/// The byte sequence of `"https:"`.
pub open spec fn https_scheme() -> Seq<u8> {
    seq![104u8, 116u8, 116u8, 112u8, 115u8, 58u8]
}

/// A cleaned url: scheme dropped, folded to lower case, slashes and
/// non-ascii bytes removed.
pub open spec fn url_clean(bs: Seq<u8>) -> Seq<u8> {
    strip_scheme(bs, https_scheme()).map_values(|b: u8| ascii_lower(b)).filter(
        |b: u8| url_byte_kept(b),
    )
}

/// The ident: the cleaned url reduced to letters and digits.
pub open spec fn ident_clean(bs: Seq<u8>) -> Seq<u8> {
    url_clean(bs).filter(|b: u8| ident_byte_kept(b))
}

/// Characters spelled by a sequence of ascii bytes.
pub open spec fn spells(cs: Seq<char>, bs: Seq<u8>) -> bool {
    cs.len() == bs.len() && forall|i: int| 0 <= i < bs.len() ==> cs[i] == (#[trigger] bs[i]) as char
}

/// Identity of one remote server: its cleaned url, its compact ident
/// (the basis of backup file names), and a hashed id.
#[derive(Debug, Clone)]
pub struct ServerIdent {
    pub id: ServerID,
    pub url: String,
    pub ident: String,
}

/// Filters the bytes of `v` by the given exec test, mirroring a spec
/// predicate.
fn filter_bytes(v: &Vec<u8>, keep_ident: bool) -> (r: Vec<u8>)
    ensures
        !keep_ident ==> r@ == v@.filter(|b: u8| url_byte_kept(b)),
        keep_ident ==> r@ == v@.filter(|b: u8| ident_byte_kept(b)),
{
    let mut r: Vec<u8> = Vec::new();
    let mut i: usize = 0;
    while i < v.len()
        invariant
            i <= v@.len(),
            !keep_ident ==> r@ == v@.take(i as int).filter(|b: u8| url_byte_kept(b)),
            keep_ident ==> r@ == v@.take(i as int).filter(|b: u8| ident_byte_kept(b)),
        decreases v@.len() - i,
    {
        let b = v[i];
        proof {
            assert(v@.take(i + 1) =~= v@.take(i as int).push(b));
            v@.take(i as int).lemma_filter_push(b, |b: u8| url_byte_kept(b));
            v@.take(i as int).lemma_filter_push(b, |b: u8| ident_byte_kept(b));
        }
        let keep = if keep_ident {
            (b >= 97 && b <= 122) || (b >= 48 && b <= 57)
        } else {
            b < 128 && b != 47
        };
        if keep {
            r.push(b);
        }
        i = i + 1;
    }
    proof {
        assert(v@.take(v@.len() as int) == v@);
    }
    r
}

impl ServerIdent {
    /// Derives the identity from a server url. The hash of the ident
    /// names the server internally; nothing is assumed of its value.
    pub fn new(url: &str) -> (r: Self)
        ensures
            spells(r.url@, url_clean(url.spec_bytes())),
            spells(r.ident@, ident_clean(url.spec_bytes())),
    {
        let bytes = url.as_bytes();
        let scheme: [u8; 6] = [104, 116, 116, 112, 115, 58];
        let mut has_scheme = bytes.len() >= 6;
        let mut s: usize = 0;
        while s < 6
            invariant
                s <= 6,
                bytes@ == url.spec_bytes(),
                has_scheme == (bytes@.len() >= 6 && forall|j: int|
                    0 <= j < s ==> bytes@[j] == https_scheme()[j]),
                scheme@ == https_scheme(),
            decreases 6 - s,
        {
            if has_scheme && bytes[s] != scheme[s] {
                has_scheme = false;
            }
            s = s + 1;
        }
        let start: usize = if has_scheme {
            6
        } else {
            0
        };
        proof {
            if has_scheme {
                assert(bytes@.take(6) =~= https_scheme());
            } else {
                if bytes@.len() >= 6 && bytes@.take(6) == https_scheme() {
                    assert(forall|j: int| 0 <= j < 6 ==> bytes@[j] == https_scheme()[j]);
                }
            }
            assert(strip_scheme(bytes@, https_scheme()) =~= bytes@.skip(start as int));
        }

        // fold to lower case
        let mut lowered: Vec<u8> = Vec::new();
        let mut i: usize = start;
        while i < bytes.len()
            invariant
                start <= i <= bytes@.len(),
                bytes@ == url.spec_bytes(),
                lowered@ == bytes@.skip(start as int).take(i - start).map_values(
                    |b: u8| ascii_lower(b),
                ),
            decreases bytes@.len() - i,
        {
            let b = bytes[i];
            let lb = if b >= 65 && b <= 90 {
                b + 32
            } else {
                b
            };
            proof {
                let rest = bytes@.skip(start as int);
                assert(rest.take(i - start + 1) =~= rest.take(i - start).push(b));
                rest.take(i - start).lemma_push_map_commute(|b: u8| ascii_lower(b), b);
            }
            lowered.push(lb);
            i = i + 1;
        }
        proof {
            let rest = bytes@.skip(start as int);
            assert(rest.take(rest.len() as int) == rest);
        }

        let url_bytes = filter_bytes(&lowered, false);
        let ident_bytes = filter_bytes(&url_bytes, true);
        proof {
            assert forall|j: int| 0 <= j < url_bytes@.len() implies url_bytes@[j] < 128 by {
                lowered@.lemma_filter_pred(|b: u8| url_byte_kept(b), j);
            }
            assert forall|j: int| 0 <= j < ident_bytes@.len() implies ident_bytes@[j] < 128 by {
                url_bytes@.lemma_filter_pred(|b: u8| ident_byte_kept(b), j);
            }
        }
        let url_string = ascii_bytes_to_string(&url_bytes);
        let ident_string = ascii_bytes_to_string(&ident_bytes);
        let id = ServerID(hash_ident_bytes(&ident_bytes));
        ServerIdent { id, url: url_string, ident: ident_string }
    }
}

/// The byte sequence of `"http:"`.
pub open spec fn http_scheme() -> Seq<u8> {
    seq![104u8, 116u8, 116u8, 112u8, 58u8]
}

/// A url reduced for the short server code: both schemes dropped,
/// slashes and non-ascii bytes removed, case kept.
pub open spec fn code_clean(bs: Seq<u8>) -> Seq<u8> {
    strip_scheme(strip_scheme(bs, https_scheme()), http_scheme()).filter(
        |b: u8| url_byte_kept(b),
    )
}

/// The first position of `target` in `bs` at or after `i`, or the length.
pub open spec fn find_from(bs: Seq<u8>, target: u8, i: int) -> int
    recommends
        0 <= i <= bs.len(),
    decreases bs.len() - i
        when 0 <= i <= bs.len()
{
    if i >= bs.len() {
        bs.len() as int
    } else if bs[i] == target {
        i
    } else {
        find_from(bs, target, i + 1)
    }
}

pub proof fn lemma_find_from_props(bs: Seq<u8>, target: u8, i: int)
    requires
        0 <= i <= bs.len(),
    ensures
        i <= find_from(bs, target, i) <= bs.len(),
        find_from(bs, target, i) < bs.len() ==> bs[find_from(bs, target, i)] == target,
        forall|j: int| i <= j < find_from(bs, target, i) ==> bs[j] != target,
    decreases bs.len() - i,
{
    if i < bs.len() && bs[i] != target {
        lemma_find_from_props(bs, target, i + 1);
    }
}

/// The short code of a server address: its first dot-separated part and
/// its third, joined by a dot; empty when the address has fewer parts.
pub open spec fn server_code_bytes(bs0: Seq<u8>) -> Seq<u8> {
    let bs = code_clean(bs0);
    let d1 = find_from(bs, 46, 0);
    if d1 == bs.len() {
        Seq::empty()
    } else {
        let d2 = find_from(bs, 46, d1 + 1);
        if d2 == bs.len() {
            Seq::empty()
        } else {
            let d3 = find_from(bs, 46, d2 + 1);
            bs.take(d1) + seq![46u8] + bs.subrange(d2 + 1, d3)
        }
    }
}

/// Finds the next dot in a byte list.
fn find_dot(v: &Vec<u8>, from: usize) -> (r: usize)
    requires
        from <= v@.len(),
    ensures
        r as int == find_from(v@, 46, from as int),
        from <= r <= v@.len(),
        r < v@.len() ==> v@[r as int] == 46,
{
    proof {
        lemma_find_from_props(v@, 46, from as int);
    }
    let mut i: usize = from;
    while i < v.len()
        invariant
            from <= i <= v@.len(),
            forall|j: int| from <= j < i ==> v@[j] != 46,
        decreases v@.len() - i,
    {
        if v[i] == 46 {
            proof {
                lemma_find_from_props(v@, 46, from as int);
                let f = find_from(v@, 46, from as int);
                if f < i {
                    assert(v@[f] == 46);
                }
                if f > i {
                    assert(v@[i as int] != 46);
                }
            }
            return i;
        }
        i = i + 1;
    }
    proof {
        lemma_find_from_props(v@, 46, from as int);
        let f = find_from(v@, 46, from as int);
        if f < v@.len() {
            assert(v@[f] == 46);
        }
    }
    v.len()
}

/// The short code of a server address, such as the first and third
/// dot-separated parts joined by a dot; empty when the address has too
/// few parts to name a region and a top level.
pub fn get_server_code(server: &str) -> (r: String)
    ensures
        spells(r@, server_code_bytes(server.spec_bytes())),
{
    let bytes = server.as_bytes();
    // drop the scheme, if any
    let scheme_https: [u8; 6] = [104, 116, 116, 112, 115, 58];
    let scheme_http: [u8; 5] = [104, 116, 116, 112, 58];
    let mut is_https = bytes.len() >= 6;
    let mut s: usize = 0;
    while s < 6
        invariant
            s <= 6,
            bytes@ == server.spec_bytes(),
            is_https == (bytes@.len() >= 6 && forall|j: int|
                0 <= j < s ==> bytes@[j] == https_scheme()[j]),
            scheme_https@ == https_scheme(),
        decreases 6 - s,
    {
        if is_https && bytes[s] != scheme_https[s] {
            is_https = false;
        }
        s = s + 1;
    }
    let mut is_http = !is_https && bytes.len() >= 5;
    let mut t: usize = 0;
    while t < 5
        invariant
            t <= 5,
            bytes@ == server.spec_bytes(),
            !is_https ==> is_http == (bytes@.len() >= 5 && forall|j: int|
                0 <= j < t ==> bytes@[j] == http_scheme()[j]),
            is_https ==> !is_http,
            scheme_http@ == http_scheme(),
        decreases 5 - t,
    {
        if is_http && bytes[t] != scheme_http[t] {
            is_http = false;
        }
        t = t + 1;
    }
    let start1: usize = if is_https {
        6
    } else {
        0
    };
    proof {
        if is_https {
            assert(bytes@.take(6) =~= https_scheme());
        } else {
            if bytes@.len() >= 6 && bytes@.take(6) == https_scheme() {
                assert(forall|j: int| 0 <= j < 6 ==> bytes@[j] == https_scheme()[j]);
            }
        }
        assert(strip_scheme(bytes@, https_scheme()) =~= bytes@.skip(start1 as int));
    }
    let ghost once = strip_scheme(bytes@, https_scheme());
    // drop the plain scheme in turn, when it follows
    let mut is_http = bytes.len() - start1 >= 5;
    let mut t: usize = 0;
    while t < 5
        invariant
            t <= 5,
            bytes@ == server.spec_bytes(),
            start1 <= bytes@.len(),
            once == bytes@.skip(start1 as int),
            start1 <= 6,
            is_http == (bytes@.len() - start1 >= 5 && forall|j: int|
                0 <= j < t ==> bytes@[start1 + j] == http_scheme()[j]),
            scheme_http@ == http_scheme(),
        decreases 5 - t,
    {
        if is_http && bytes[start1 + t] != scheme_http[t] {
            is_http = false;
        }
        t = t + 1;
    }
    let start: usize = if is_http {
        start1 + 5
    } else {
        start1
    };
    proof {
        if is_http {
            assert(once.take(5) =~= http_scheme());
            assert(strip_scheme(once, http_scheme()) =~= bytes@.skip(start as int));
        } else {
            if once.len() >= 5 && once.take(5) == http_scheme() {
                assert(forall|j: int| 0 <= j < 5 ==> once[j] == http_scheme()[j]);
                assert(forall|j: int| 0 <= j < 5 ==> bytes@[start1 + j] == http_scheme()[j]);
            }
            assert(strip_scheme(once, http_scheme()) =~= bytes@.skip(start as int));
        }
    }

    // keep the address bytes, minus slashes and non-ascii bytes
    let mut kept: Vec<u8> = Vec::new();
    let mut i: usize = start;
    while i < bytes.len()
        invariant
            start <= i <= bytes@.len(),
            bytes@ == server.spec_bytes(),
            kept@ == bytes@.skip(start as int).take(i - start).filter(|b: u8| url_byte_kept(b)),
        decreases bytes@.len() - i,
    {
        let b = bytes[i];
        proof {
            let rest = bytes@.skip(start as int);
            assert(rest.take(i - start + 1) =~= rest.take(i - start).push(b));
            rest.take(i - start).lemma_filter_push(b, |b: u8| url_byte_kept(b));
        }
        if b < 128 && b != 47 {
            kept.push(b);
        }
        i = i + 1;
    }
    proof {
        let rest = bytes@.skip(start as int);
        assert(rest.take(rest.len() as int) == rest);
        assert(strip_scheme(strip_scheme(bytes@, https_scheme()), http_scheme()) == rest);
        assert(kept@ == code_clean(bytes@));
        assert forall|j: int| 0 <= j < kept@.len() implies kept@[j] < 128 by {
            rest.lemma_filter_pred(|b: u8| url_byte_kept(b), j);
        }
    }
    let d1 = find_dot(&kept, 0);
    if d1 == kept.len() {
        proof {
            assert(spells(Seq::<char>::empty(), server_code_bytes(server.spec_bytes())));
        }
        return String::new();
    }
    let d2 = find_dot(&kept, d1 + 1);
    if d2 == kept.len() {
        proof {
            assert(spells(Seq::<char>::empty(), server_code_bytes(server.spec_bytes())));
        }
        return String::new();
    }
    let d3 = find_dot(&kept, d2 + 1);
    let mut code: Vec<u8> = Vec::new();
    let mut a: usize = 0;
    while a < d1
        invariant
            a <= d1,
            d1 < kept@.len(),
            code@ == kept@.take(d1 as int).take(a as int),
        decreases d1 - a,
    {
        proof {
            assert(kept@.take(d1 as int).take(a + 1) =~= kept@.take(d1 as int).take(
                a as int,
            ).push(kept@[a as int]));
        }
        code.push(kept[a]);
        a = a + 1;
    }
    proof {
        assert(kept@.take(d1 as int).take(d1 as int) == kept@.take(d1 as int));
    }
    code.push(46);
    let mut c: usize = d2 + 1;
    while c < d3
        invariant
            d2 + 1 <= c <= d3,
            d3 <= kept@.len(),
            d1 < kept@.len(),
            code@ == kept@.take(d1 as int) + seq![46u8] + kept@.subrange(d2 + 1, c as int),
        decreases d3 - c,
    {
        proof {
            assert(kept@.subrange(d2 + 1, c + 1) =~= kept@.subrange(d2 + 1, c as int).push(
                kept@[c as int],
            ));
            assert((kept@.take(d1 as int) + seq![46u8] + kept@.subrange(d2 + 1, c as int)).push(
                kept@[c as int],
            ) =~= kept@.take(d1 as int) + seq![46u8] + kept@.subrange(d2 + 1, c + 1));
        }
        code.push(kept[c]);
        c = c + 1;
    }
    proof {
        lemma_find_from_props(kept@, 46, d2 + 1);
        assert(code@ == server_code_bytes(server.spec_bytes()));
        assert forall|j: int| 0 <= j < code@.len() implies code@[j] < 128 by {
            if j < d1 {
                assert(code@[j] == kept@[j]);
            } else if j > d1 {
                assert(code@[j] == kept@[d2 + 1 + (j - d1 - 1)]);
            }
        }
    }
    let r = ascii_bytes_to_string(&code);
    r
}

} // verus!
