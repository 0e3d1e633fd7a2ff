//! Unwrapping of a `multipart/related` HTTP body around one DICOM payload.
use vstd::prelude::*;

use crate::text::{find_seq, lemma_find_from_facts, occurs_at, slice_vec, starts_with_seq};

verus! {

/// `find_subslice`: the first position of a non-empty `needle` in `hay`.
pub open spec fn find_sub(hay: Seq<u8>, needle: Seq<u8>) -> Option<int> {
    if needle.len() == 0 {
        None
    } else {
        find_seq(hay, needle)
    }
}

pub fn bytes_match_at(hay: &[u8], needle: &[u8], i: usize) -> (r: bool)
    ensures
        r == occurs_at(hay@, needle@, i as int),
{
    let hl = hay.len();
    if i > hl || needle.len() > hl - i {
        return false;
    }
    let mut k: usize = 0;
    while k < needle.len()
        invariant
            i + needle@.len() <= hay@.len(),
            hay@.len() == hl,
            k <= needle@.len(),
            forall|j: int| 0 <= j < k ==> hay@[i + j] == needle@[j],
        decreases needle@.len() - k,
    {
        if hay[i + k] != needle[k] {
            assert(hay@.subrange(i as int, i + needle@.len())[k as int] != needle@[k as int]);
            return false;
        }
        k = k + 1;
    }
    assert(hay@.subrange(i as int, i + needle@.len()) =~= needle@);
    true
}

/// The first position of `needle` in `hay`; `None` for an empty or longer needle.
pub fn find_subslice(hay: &[u8], needle: &[u8]) -> (r: Option<usize>)
    ensures
        match r {
            Some(i) => find_sub(hay@, needle@) == Some(i as int),
            None => find_sub(hay@, needle@) is None,
        },
{
    if needle.len() == 0 || needle.len() > hay.len() {
        proof {
            if needle@.len() > 0 {
                assert(crate::text::find_from(hay@, needle@, 0) is None);
            }
        }
        return None;
    }
    let hl = hay.len();
    let mut i: usize = 0;
    while i <= hl - needle.len()
        invariant
            hl == hay@.len(),
            0 < needle@.len() <= hl,
            crate::text::find_from(hay@, needle@, 0) == crate::text::find_from(hay@, needle@, i as int),
        decreases hl + 1 - i,
    {
        if bytes_match_at(hay, needle, i) {
            return Some(i);
        }
        i = i + 1;
    }
    None
}

pub open spec fn crlf() -> Seq<u8> {
    seq![13u8, 10u8]
}

pub open spec fn lf() -> Seq<u8> {
    seq![10u8]
}

/// End of the first line, and the length of its terminator (CRLF, else LF).
pub open spec fn line_end(b: Seq<u8>) -> Option<(int, int)> {
    match find_sub(b, crlf()) {
        Some(i) => Some((i, 2)),
        None => match find_sub(b, lf()) {
            Some(i) => Some((i, 1)),
            None => None,
        },
    }
}

/// End of the part headers, and the length of the blank line that ends them.
pub open spec fn headers_end(b: Seq<u8>) -> Option<(int, int)> {
    match find_sub(b, crlf() + crlf()) {
        Some(i) => Some((i, 4)),
        None => match find_sub(b, lf() + lf()) {
            Some(i) => Some((i, 2)),
            None => None,
        },
    }
}

pub open spec fn dashes() -> Seq<u8> {
    seq![45u8, 45u8]
}

/// Where the payload that starts at `start` ends: at the next line that
/// begins with `--` and the boundary (CRLF-terminated first, else LF).
pub open spec fn boundary_after(b: Seq<u8>, start: int, boundary: Seq<u8>) -> Option<int> {
    match find_sub(b.skip(start), crlf() + dashes() + boundary) {
        Some(i) => Some(start + i),
        None => match find_sub(b.skip(start), lf() + dashes() + boundary) {
            Some(i) => Some(start + i),
            None => None,
        },
    }
}

/// The payload of a multipart body: the first line is `--` and a boundary,
/// then part headers up to a blank line, then the payload up to the next
/// boundary line. `None` when the body is not laid out so.
pub open spec fn multipart_payload(b: Seq<u8>) -> Option<Seq<u8>> {
    match line_end(b) {
        None => None,
        Some((le, sl)) => {
            let first = b.take(le);
            if !(starts_with_seq(first, dashes()) && first.len() > 2) {
                None
            } else {
                let hs = le + sl;
                match headers_end(b.skip(hs)) {
                    None => None,
                    Some((he, hsl)) => {
                        let ps = hs + he + hsl;
                        match boundary_after(b, ps, first.skip(2)) {
                            None => None,
                            Some(pe) => Some(b.subrange(ps, pe)),
                        }
                    },
                }
            }
        },
    }
}

proof fn lemma_find_sub_bounds(hay: Seq<u8>, needle: Seq<u8>)
    ensures
        find_sub(hay, needle) matches Some(i) ==> 0 <= i && i + needle.len() <= hay.len(),
{
    if needle.len() > 0 {
        lemma_find_from_facts(hay, needle, 0);
    }
}

fn find_line_end(bytes: &[u8]) -> (r: Option<(usize, usize)>)
    ensures
        match r {
            Some((i, n)) => line_end(bytes@) == Some((i as int, n as int)) && i + n <= bytes@.len(),
            None => line_end(bytes@) is None,
        },
{
    let c = [13u8, 10u8];
    assert(c@ =~= crlf());
    proof {
        lemma_find_sub_bounds(bytes@, crlf());
        lemma_find_sub_bounds(bytes@, lf());
    }
    if let Some(i) = find_subslice(bytes, &c) {
        return Some((i, 2));
    }
    let l = [10u8];
    assert(l@ =~= lf());
    match find_subslice(bytes, &l) {
        Some(i) => Some((i, 1)),
        None => None,
    }
}

fn find_headers_end(bytes: &[u8]) -> (r: Option<(usize, usize)>)
    ensures
        match r {
            Some((i, n)) => headers_end(bytes@) == Some((i as int, n as int)) && i + n <= bytes@.len(),
            None => headers_end(bytes@) is None,
        },
{
    let c = [13u8, 10u8, 13u8, 10u8];
    assert(c@ =~= crlf() + crlf());
    proof {
        lemma_find_sub_bounds(bytes@, crlf() + crlf());
        lemma_find_sub_bounds(bytes@, lf() + lf());
    }
    if let Some(i) = find_subslice(bytes, &c) {
        return Some((i, 4));
    }
    let l = [10u8, 10u8];
    assert(l@ =~= lf() + lf());
    match find_subslice(bytes, &l) {
        Some(i) => Some((i, 2)),
        None => None,
    }
}

fn marker(prefix: &[u8], boundary: &[u8]) -> (r: Vec<u8>)
    ensures
        r@ == prefix@ + boundary@,
{
    let mut m = slice_vec(prefix, 0, prefix.len());
    let mut k: usize = 0;
    assert(prefix@.subrange(0, prefix@.len() as int) =~= prefix@);
    while k < boundary.len()
        invariant
            k <= boundary@.len(),
            m@ == prefix@ + boundary@.take(k as int),
        decreases boundary@.len() - k,
    {
        m.push(boundary[k]);
        k = k + 1;
        assert(m@ =~= prefix@ + boundary@.take(k as int));
    }
    assert(boundary@.take(boundary@.len() as int) =~= boundary@);
    m
}

fn find_boundary_after_payload(body: &[u8], payload_start: usize, boundary: &[u8]) -> (r: Option<usize>)
    requires
        payload_start <= body@.len(),
    ensures
        match r {
            Some(e) => boundary_after(body@, payload_start as int, boundary@) == Some(e as int)
                && payload_start <= e <= body@.len(),
            None => boundary_after(body@, payload_start as int, boundary@) is None,
        },
{
    let bl = body.len();
    let rest = slice_vec(body, payload_start, bl);
    assert(rest@ =~= body@.skip(payload_start as int));
    let m1 = marker(&[13u8, 10u8, 45u8, 45u8], boundary);
    assert([13u8, 10u8, 45u8, 45u8]@ =~= crlf() + dashes());
    proof {
        lemma_find_sub_bounds(rest@, m1@);
    }
    if let Some(i) = find_subslice(&rest, &m1) {
        return Some(payload_start + i);
    }
    let m2 = marker(&[10u8, 45u8, 45u8], boundary);
    assert([10u8, 45u8, 45u8]@ =~= lf() + dashes());
    proof {
        lemma_find_sub_bounds(rest@, m2@);
    }
    match find_subslice(&rest, &m2) {
        Some(i) => Some(payload_start + i),
        None => None,
    }
}

/// The DICOM payload of a multipart body (see `multipart_payload`).
pub fn extract_dicom_from_multipart(body: &[u8]) -> (r: Option<Vec<u8>>)
    ensures
        match r {
            Some(p) => multipart_payload(body@) == Some(p@),
            None => multipart_payload(body@) is None,
        },
{
    let (line_end, sep_len) = match find_line_end(body) {
        Some(x) => x,
        None => return None,
    };
    if line_end <= 2 || body[0] != 45u8 || body[1] != 45u8 {
        proof {
            let first = body@.take(line_end as int);
            if starts_with_seq(first, dashes()) && first.len() > 2 {
                assert(first.take(2)[0] == body@[0]);
                assert(first.take(2)[1] == body@[1]);
            }
        }
        return None;
    }
    proof {
        let first = body@.take(line_end as int);
        assert(first.take(2) =~= dashes());
    }
    let boundary = slice_vec(body, 2, line_end);
    assert(boundary@ =~= body@.take(line_end as int).skip(2));
    let headers_start = line_end + sep_len;
    let bl = body.len();
    let tail = slice_vec(body, headers_start, bl);
    assert(tail@ =~= body@.skip(headers_start as int));
    let (he, hsl) = match find_headers_end(&tail) {
        Some(x) => x,
        None => return None,
    };
    let payload_start = headers_start + he + hsl;
    let payload_end = match find_boundary_after_payload(body, payload_start, &boundary) {
        Some(e) => e,
        None => return None,
    };
    Some(slice_vec(body, payload_start, payload_end))
}

/// The body with a multipart envelope removed; a body that is not
/// multipart is already the payload and comes back unchanged.
pub fn unwrap_dicom_multipart(body: Vec<u8>) -> (r: Vec<u8>)
    ensures
        r@ == match multipart_payload(body@) {
            Some(p) => p,
            None => body@,
        },
{
    match extract_dicom_from_multipart(&body) {
        Some(p) => p,
        None => body,
    }
}

/// A body that does not begin with `--` is never taken for a multipart
/// envelope: it is passed through as the payload itself.
pub proof fn lemma_plain_body_passes_through(body: Seq<u8>)
    requires
        !starts_with_seq(body, dashes()),
    ensures
        multipart_payload(body) is None,
{
    lemma_find_sub_bounds(body, crlf());
    lemma_find_sub_bounds(body, lf());
    match line_end(body) {
        None => {},
        Some((le, sl)) => {
            let first = body.take(le);
            if starts_with_seq(first, dashes()) && first.len() > 2 {
                assert(body.take(2) =~= first.take(2));
            }
        },
    }
}

/// A needle whose second byte is a line feed is first found at `p` when it
/// occurs there and no line feed comes before, from position 1 up to `p`.
proof fn lemma_first_at(hay: Seq<u8>, needle: Seq<u8>, p: int)
    requires
        needle.len() >= 2,
        needle[1] == 10u8,
        occurs_at(hay, needle, p),
        forall|k: int| 1 <= k <= p && k < hay.len() ==> hay[k] != 10u8,
    ensures
        find_sub(hay, needle) == Some(p),
{
    lemma_find_from_facts(hay, needle, 0);
    match find_seq(hay, needle) {
        Some(j) => {
            if j < p {
                assert(hay.subrange(j, j + needle.len())[1] == hay[j + 1]);
            }
        },
        None => {},
    }
}

/// `needle` is first found at `p` in `hay` when it ends a prefix `x` of
/// `hay` and occurs nowhere earlier in `x`.
proof fn lemma_first_in_prefix(hay: Seq<u8>, x: Seq<u8>, needle: Seq<u8>, p: int)
    requires
        needle.len() > 0,
        x.len() <= hay.len(),
        hay.take(x.len() as int) == x,
        0 <= p,
        p + needle.len() == x.len(),
        occurs_at(x, needle, p),
        forall|j: int| 0 <= j < p ==> !occurs_at(x, needle, j),
    ensures
        find_sub(hay, needle) == Some(p),
{
    lemma_find_from_facts(hay, needle, 0);
    let hp = hay.subrange(p, p + needle.len());
    let xp = x.subrange(p, p + needle.len());
    assert forall|i: int| 0 <= i < needle.len() implies #[trigger] hp[i] == xp[i] by {
        assert(hay[p + i] == hay.take(x.len() as int)[p + i]);
    }
    assert(hp =~= xp);
    assert(occurs_at(hay, needle, p));
    match find_seq(hay, needle) {
        Some(j) => {
            if j < p {
                let hj = hay.subrange(j, j + needle.len());
                let xj = x.subrange(j, j + needle.len());
                assert forall|i: int| 0 <= i < needle.len() implies #[trigger] hj[i] == xj[i] by {
                    assert(hay[j + i] == hay.take(x.len() as int)[j + i]);
                }
                assert(hj =~= xj);
                assert(occurs_at(x, needle, j));
            }
        },
        None => {},
    }
}

/// A multipart body laid out as `--B CRLF H CRLF CRLF P CRLF --B T` yields
/// exactly `P`, when the boundary `B` holds no CR or LF, the blank line
/// after `H` is the first one there, and `P` does not hold the boundary
/// line `CRLF --B`.
pub proof fn lemma_envelope_yields_payload(
    boundary: Seq<u8>,
    headers: Seq<u8>,
    payload: Seq<u8>,
    trailer: Seq<u8>,
)
    requires
        boundary.len() > 0,
        forall|k: int| 0 <= k < boundary.len() ==> boundary[k] != 10u8 && boundary[k] != 13u8,
        forall|j: int| 0 <= j < headers.len() ==> !occurs_at(headers + (crlf() + crlf()), crlf() + crlf(), j),
        forall|j: int| 0 <= j < payload.len() ==> !occurs_at(payload + (crlf() + dashes() + boundary), crlf() + dashes() + boundary, j),
    ensures
        multipart_payload(
            dashes() + boundary + crlf() + headers + crlf() + crlf() + payload + crlf() + dashes()
                + boundary + trailer,
        ) == Some(payload),
{
    let first = dashes() + boundary;
    let marker = crlf() + dashes() + boundary;
    let tail = payload + marker + trailer;
    let hblock = headers + (crlf() + crlf()) + tail;
    let body = first + crlf() + hblock;
    assert(body =~= dashes() + boundary + crlf() + headers + crlf() + crlf() + payload + crlf()
        + dashes() + boundary + trailer);
    let le = first.len() as int;
    assert(body.subrange(le, le + 2) =~= crlf());
    assert forall|k: int| 1 <= k <= le && k < body.len() implies body[k] != 10u8 by {
        if k < 2 {
            assert(body[k] == dashes()[k]);
        } else if k < le {
            assert(body[k] == boundary[k - 2]);
        } else {
            assert(body[k] == 13u8);
        }
    }
    lemma_first_at(body, crlf(), le);
    assert(line_end(body) == Some((le, 2int)));
    assert(body.take(le) =~= first);
    assert(first.take(2) =~= dashes());
    assert(first.skip(2) =~= boundary);
    let hs = le + 2;
    assert(body.skip(hs) =~= hblock);
    let hl = headers.len() as int;
    let hx = headers + (crlf() + crlf());
    assert(hblock.take(hx.len() as int) =~= hx);
    assert(hx.subrange(hl, hl + 4) =~= crlf() + crlf());
    lemma_first_in_prefix(hblock, hx, crlf() + crlf(), hl);
    assert(headers_end(hblock) == Some((hl, 4int)));
    let ps = hs + hl + 4;
    assert(body.skip(ps) =~= tail);
    let pl = payload.len() as int;
    let px = payload + marker;
    assert(tail.take(px.len() as int) =~= px);
    assert(px.subrange(pl, pl + marker.len()) =~= marker);
    lemma_first_in_prefix(tail, px, marker, pl);
    assert(crlf() + dashes() + first.skip(2) =~= marker);
    assert(boundary_after(body, ps, first.skip(2)) == Some(ps + pl));
    assert(body.subrange(ps, ps + pl) =~= payload);
}

} // verus!
