//! Reading the handover prediction: the text that names the edge router a
//! moving subscriber is predicted to reach, and the router behind each edge
//! address.
//!
//! The prediction is a small JSON object such as
//! `{"imsi":21,"current_cell":13,"predicted_target":15,"target_edge_ip":"10.6.0.2"}`.
//! Only the `target_edge_ip` field is read, as text: the value runs from the
//! first occurrence of `"target_edge_ip":"` to the next double quote, or to
//! the end of the text.
use vstd::prelude::*;

verus! {

/// The byte of a double quote.
pub const QUOTE: u8 = 34;

/// The bytes of `"target_edge_ip":"`, which open the predicted edge address.
pub open spec fn edge_ip_marker() -> Seq<u8> {
    seq![34u8, 116, 97, 114, 103, 101, 116, 95, 101, 100, 103, 101, 95, 105, 112, 34, 58, 34]
}

/// `pat` occurs in `s` at position `i`.
pub open spec fn occurs_at(s: Seq<u8>, pat: Seq<u8>, i: int) -> bool {
    &&& 0 <= i
    &&& i + pat.len() <= s.len()
    &&& s.subrange(i, i + pat.len()) == pat
}

/// The first position at or after `from` where `pat` occurs in `s`.
pub open spec fn first_occurrence_from(s: Seq<u8>, pat: Seq<u8>, from: int) -> Option<int>
    decreases s.len() - from,
{
    if from < 0 || from + pat.len() > s.len() {
        None
    } else if occurs_at(s, pat, from) {
        Some(from)
    } else if from >= s.len() {
        None
    } else {
        first_occurrence_from(s, pat, from + 1)
    }
}

/// Where the text that starts at `from` ends: at the first double quote at or
/// after `from`, or at the end of `s`.
pub open spec fn quote_end(s: Seq<u8>, from: int) -> int
    decreases s.len() - from,
{
    if from >= s.len() {
        s.len() as int
    } else if s[from] == QUOTE {
        from
    } else {
        quote_end(s, from + 1)
    }
}

/// The predicted edge address in a prediction text, as bytes.
pub open spec fn target_edge_ip_spec(content: Seq<u8>) -> Option<Seq<u8>> {
    match first_occurrence_from(content, edge_ip_marker(), 0) {
        Some(p) => {
            let start = p + edge_ip_marker().len();
            Some(content.subrange(start, quote_end(content, start)))
        },
        None => None,
    }
}

/// The text `10.n.0.2` of the `n`-th edge address.
pub open spec fn edge_ip(n: u8) -> Seq<u8> {
    seq![49u8, 48, 46, (48 + n) as u8, 46, 48, 46, 50]
}

/// The identifier, in hexadecimal, of the router at each edge address.
pub open spec fn edge_router_zid_spec(ip: Seq<u8>) -> Option<&'static str> {
    if ip == edge_ip(1) {
        Some("c10274ef26525ccdb47947a9dfdd7f01")
    } else if ip == edge_ip(2) {
        Some("bef96187ff749ce9379ef4257d963e18")
    } else if ip == edge_ip(3) {
        Some("7c3d8f2a1b4e6590a8d2f7c3e9b1405d")
    } else if ip == edge_ip(4) {
        Some("2e9a4c6f8d1b3570c9e2a5d8f0b74631")
    } else if ip == edge_ip(5) {
        Some("5f1c9e3a7d0b8264f6c1a9e3d7b05842")
    } else if ip == edge_ip(6) {
        Some("8a2d6f0c4e9b1753a8d2f6c0e4b91765")
    } else if ip == edge_ip(7) {
        Some("3b7e1a5d9f0c4826b3e7a1d5f9c04837")
    } else {
        None
    }
}

/// The bytes of `"target_edge_ip":"`.
fn edge_ip_marker_bytes() -> (v: Vec<u8>)
    ensures
        v@ == edge_ip_marker(),
{
    let v: Vec<u8> = vec![34u8, 116, 97, 114, 103, 101, 116, 95, 101, 100, 103, 101, 95, 105, 112, 34, 58, 34];
    assert(v@ =~= edge_ip_marker());
    v
}

/// Whether `pat` occurs in `s` at position `i`.
fn occurs_at_exec(s: &[u8], pat: &[u8], i: usize) -> (b: bool)
    ensures
        b == occurs_at(s@, pat@, i as int),
{
    if pat.len() > s.len() || i > s.len() - pat.len() {
        return false;
    }
    let mut k: usize = 0;
    while k < pat.len()
        invariant
            i + pat.len() <= s.len(),
            k <= pat.len(),
            s@.subrange(i as int, i + k) == pat@.subrange(0, k as int),
        decreases pat.len() - k,
    {
        if s[i + k] != pat[k] {
            assert(s@.subrange(i as int, i + pat.len())[k as int] != pat@[k as int]);
            return false;
        }
        assert(s@.subrange(i as int, i + k + 1) =~= s@.subrange(i as int, i + k).push(s@[i + k]));
        assert(pat@.subrange(0, k + 1) =~= pat@.subrange(0, k as int).push(pat@[k as int]));
        k = k + 1;
    }
    assert(pat@.subrange(0, pat.len() as int) =~= pat@);
    true
}

/// The first position where `pat` occurs in `s`.
fn first_occurrence(s: &[u8], pat: &[u8]) -> (r: Option<usize>)
    ensures
        r matches Some(p) ==> first_occurrence_from(s@, pat@, 0) == Some(p as int),
        r is None ==> first_occurrence_from(s@, pat@, 0) is None,
{
    if pat.len() > s.len() {
        return None;
    }
    if pat.len() == 0 {
        assert(s@.subrange(0, 0) =~= pat@);
        return Some(0);
    }
    let last = s.len() - pat.len();
    let mut i: usize = 0;
    while i <= last
        invariant
            last + pat.len() == s.len(),
            pat.len() > 0,
            i <= last + 1,
            first_occurrence_from(s@, pat@, 0) == first_occurrence_from(s@, pat@, i as int),
        decreases last + 1 - i,
    {
        if occurs_at_exec(s, pat, i) {
            return Some(i);
        }
        i = i + 1;
    }
    None
}

/// Where the text that starts at `from` ends: at the next double quote, or
/// at the end of `s`.
fn quote_end_exec(s: &[u8], from: usize) -> (e: usize)
    requires
        from <= s.len(),
    ensures
        e as int == quote_end(s@, from as int),
{
    let mut i: usize = from;
    while i < s.len() && s[i] != QUOTE
        invariant
            from <= i <= s.len(),
            quote_end(s@, from as int) == quote_end(s@, i as int),
        decreases s.len() - i,
    {
        i = i + 1;
    }
    i
}

/// The predicted edge address in a prediction text: the bytes after the first
/// `"target_edge_ip":"` up to the next double quote, or `None` where the
/// text holds no such field.
pub fn target_edge_ip(content: &[u8]) -> (r: Option<Vec<u8>>)
    ensures
        r matches Some(ip) ==> target_edge_ip_spec(content@) == Some(ip@),
        r is None <==> target_edge_ip_spec(content@) is None,
{
    let marker = edge_ip_marker_bytes();
    let pat = marker.as_slice();
    match first_occurrence(content, pat) {
        None => None,
        Some(p) => {
            proof {
                lemma_first_occurrence_least(content@, pat@, 0);
                assert(occurs_at(content@, pat@, p as int));
                assert(p + pat.len() <= content.len());
            }
            let start = p + pat.len();
            proof {
                lemma_quote_end_bounds(content@, start as int);
            }
            let end = quote_end_exec(content, start);
            let mut ip: Vec<u8> = Vec::new();
            let mut i: usize = start;
            while i < end
                invariant
                    start <= i <= end <= content.len(),
                    end as int == quote_end(content@, start as int),
                    ip@ == content@.subrange(start as int, i as int),
                decreases end - i,
            {
                ip.push(content[i]);
                assert(content@.subrange(start as int, i + 1) =~= content@.subrange(
                    start as int,
                    i as int,
                ).push(content@[i as int]));
                i = i + 1;
            }
            Some(ip)
        },
    }
}

/// The identifier, in hexadecimal, of the router at an edge address, or
/// `None` for an address that no known router serves.
pub fn edge_router_zid(ip: &[u8]) -> (r: Option<&'static str>)
    ensures
        r == edge_router_zid_spec(ip@),
{
    if ip.len() != 8 || ip[0] != 49 || ip[1] != 48 || ip[2] != 46 || ip[4] != 46 || ip[5] != 48
        || ip[6] != 46 || ip[7] != 50 {
        proof {
            assert forall|n: u8| ip@ != edge_ip(n) by {
                if ip@ == edge_ip(n) {
                    assert(ip@.len() == edge_ip(n).len());
                    assert(ip@[0] == edge_ip(n)[0]);
                    assert(ip@[1] == edge_ip(n)[1]);
                    assert(ip@[2] == edge_ip(n)[2]);
                    assert(ip@[4] == edge_ip(n)[4]);
                    assert(ip@[5] == edge_ip(n)[5]);
                    assert(ip@[6] == edge_ip(n)[6]);
                    assert(ip@[7] == edge_ip(n)[7]);
                }
            }
        }
        return None;
    }
    let d = ip[3];
    proof {
        assert forall|n: u8| 1 <= n <= 7 implies (ip@ == edge_ip(n) <==> d == 48 + n) by {
            if d == 48 + n {
                assert(ip@ =~= edge_ip(n));
            }
            if ip@ == edge_ip(n) {
                assert(ip@[3] == edge_ip(n)[3]);
            }
        }
    }
    if d == 49 {
        Some("c10274ef26525ccdb47947a9dfdd7f01")
    } else if d == 50 {
        Some("bef96187ff749ce9379ef4257d963e18")
    } else if d == 51 {
        Some("7c3d8f2a1b4e6590a8d2f7c3e9b1405d")
    } else if d == 52 {
        Some("2e9a4c6f8d1b3570c9e2a5d8f0b74631")
    } else if d == 53 {
        Some("5f1c9e3a7d0b8264f6c1a9e3d7b05842")
    } else if d == 54 {
        Some("8a2d6f0c4e9b1753a8d2f6c0e4b91765")
    } else if d == 55 {
        Some("3b7e1a5d9f0c4826b3e7a1d5f9c04837")
    } else {
        None
    }
}

/// The router that a prediction text names: the router at its predicted edge
/// address, or `None` where the text names no address or an unknown one.
pub fn target_router_from_prediction(content: &[u8]) -> (r: Option<&'static str>)
    ensures
        r == (match target_edge_ip_spec(content@) {
            Some(ip) => edge_router_zid_spec(ip),
            None => None,
        }),
{
    match target_edge_ip(content) {
        Some(ip) => edge_router_zid(ip.as_slice()),
        None => None,
    }
}

/// The address read is the text after the first occurrence of the marker:
/// no earlier position holds it, and the address holds no double quote.
pub proof fn lemma_edge_ip_is_first_field(content: Seq<u8>)
    requires
        first_occurrence_from(content, edge_ip_marker(), 0) is Some,
    ensures
        ({
            let p = first_occurrence_from(content, edge_ip_marker(), 0)->0;
            let ip = target_edge_ip_spec(content)->0;
            &&& occurs_at(content, edge_ip_marker(), p)
            &&& forall|j: int| 0 <= j < p ==> !occurs_at(content, edge_ip_marker(), j)
            &&& forall|k: int| 0 <= k < ip.len() ==> ip[k] != QUOTE
        }),
{
    lemma_first_occurrence_least(content, edge_ip_marker(), 0);
    let p = first_occurrence_from(content, edge_ip_marker(), 0)->0;
    let start = p + edge_ip_marker().len();
    lemma_quote_end_bounds(content, start);
}

proof fn lemma_first_occurrence_least(s: Seq<u8>, pat: Seq<u8>, from: int)
    requires
        0 <= from,
        first_occurrence_from(s, pat, from) is Some,
    ensures
        ({
            let p = first_occurrence_from(s, pat, from)->0;
            &&& from <= p
            &&& occurs_at(s, pat, p)
            &&& forall|j: int| from <= j < p ==> !occurs_at(s, pat, j)
        }),
    decreases s.len() - from,
{
    if from + pat.len() <= s.len() && !occurs_at(s, pat, from) && from < s.len() {
        lemma_first_occurrence_least(s, pat, from + 1);
    }
}

proof fn lemma_quote_end_bounds(s: Seq<u8>, from: int)
    requires
        0 <= from <= s.len(),
    ensures
        from <= quote_end(s, from) <= s.len(),
        forall|k: int| from <= k < quote_end(s, from) ==> s[k] != QUOTE,
    decreases s.len() - from,
{
    if from < s.len() && s[from] != QUOTE {
        lemma_quote_end_bounds(s, from + 1);
    }
}

} // verus!
