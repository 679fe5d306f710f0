//! Header rules: which headers are dropped and which are added on the way to
//! the upstream and on the way back to the client, globally and per upstream host.

use vstd::prelude::*;
use vstd::utf8::encode_utf8;
use crate::errors::{MyError, InvalidHeaderNameError, InvalidHeaderValueError};
use crate::bytes::{lower, to_lower, bytes_eq, copy_range};
use crate::codec::header_view;
use crate::record::{is_name, is_name_exec};
use crate::config::{RequestHeaders, ResponseHeaders};

verus! {

/// Header rules with names in lower case, as bytes.
pub struct HeaderRules {
    pub remove: Vec<Vec<u8>>,
    pub add: Vec<(Vec<u8>, Vec<u8>)>,
    pub remove_per_host: Vec<(Vec<u8>, Vec<Vec<u8>>)>,
    pub add_per_host: Vec<(Vec<u8>, Vec<(Vec<u8>, Vec<u8>)>)>,
}

/// Which cache path a response took, for the optional marker header.
#[derive(Debug, Clone, Copy, PartialEq, Eq, Structural)]
pub enum CacheOutcome {
    Hit,
    Miss,
}

pub open spec fn names_view(v: Seq<Vec<u8>>) -> Seq<Seq<u8>> {
    v.map_values(|n: Vec<u8>| n@)
}

pub open spec fn host_names_view(v: Seq<(Vec<u8>, Vec<Vec<u8>>)>) -> Seq<(Seq<u8>, Seq<Seq<u8>>)> {
    v.map_values(|e: (Vec<u8>, Vec<Vec<u8>>)| (e.0@, names_view(e.1@)))
}

pub open spec fn host_pairs_view(v: Seq<(Vec<u8>, Vec<(Vec<u8>, Vec<u8>)>)>) -> Seq<
    (Seq<u8>, Seq<(Seq<u8>, Seq<u8>)>),
> {
    v.map_values(|e: (Vec<u8>, Vec<(Vec<u8>, Vec<u8>)>)| (e.0@, header_view(e.1@)))
}

/// What the first entry for `host` holds, or `empty` when there is none.
pub open spec fn lookup<T>(entries: Seq<(Seq<u8>, T)>, host: Seq<u8>, empty: T) -> T
    decreases entries.len(),
{
    if entries.len() == 0 {
        empty
    } else if entries[0].0 == host {
        entries[0].1
    } else {
        lookup(entries.drop_first(), host, empty)
    }
}

impl HeaderRules {
    pub open spec fn remove_for(&self, host: Seq<u8>) -> Seq<Seq<u8>> {
        lookup(host_names_view(self.remove_per_host@), host, Seq::empty())
    }

    pub open spec fn add_for(&self, host: Seq<u8>) -> Seq<(Seq<u8>, Seq<u8>)> {
        lookup(host_pairs_view(self.add_per_host@), host, Seq::empty())
    }

    /// Whether a header named `n` (lower case) is removed for `host`, by the
    /// global list or by the list for that host.
    pub open spec fn removes(&self, host: Seq<u8>, n: Seq<u8>) -> bool {
        names_view(self.remove@).contains(n) || self.remove_for(host).contains(n)
    }

    /// The headers added for `host`: the global ones, then those for the host.
    pub open spec fn additions(&self, host: Seq<u8>) -> Seq<(Seq<u8>, Seq<u8>)> {
        header_view(self.add@) + self.add_for(host)
    }
}

pub open spec fn host_name() -> Seq<u8> {
    seq![104u8, 111u8, 115u8, 116u8]
}

/// The hop-by-hop headers, which hold for one connection only.
pub open spec fn hop_by_hop() -> Seq<Seq<u8>> {
    seq![
        seq![99u8, 111u8, 110u8, 110u8, 101u8, 99u8, 116u8, 105u8, 111u8, 110u8],
        seq![107u8, 101u8, 101u8, 112u8, 45u8, 97u8, 108u8, 105u8, 118u8, 101u8],
        seq![116u8, 101u8],
        seq![116u8, 114u8, 97u8, 105u8, 108u8, 101u8, 114u8, 115u8],
        seq![116u8, 114u8, 97u8, 110u8, 115u8, 102u8, 101u8, 114u8, 45u8, 101u8, 110u8, 99u8, 111u8, 100u8, 105u8, 110u8, 103u8],
        seq![117u8, 112u8, 103u8, 114u8, 97u8, 100u8, 101u8],
    ]
}

/// `x-joinproxy-response`, the marker header.
pub open spec fn marker_name() -> Seq<u8> {
    seq![120u8, 45u8, 106u8, 111u8, 105u8, 110u8, 112u8, 114u8, 111u8, 120u8, 121u8, 45u8, 114u8, 101u8, 115u8, 112u8, 111u8, 110u8, 115u8, 101u8]
}

/// `x-forwarded-for`.
pub open spec fn forwarded_name() -> Seq<u8> {
    seq![120u8, 45u8, 102u8, 111u8, 114u8, 119u8, 97u8, 114u8, 100u8, 101u8, 100u8, 45u8, 102u8, 111u8, 114u8]
}

pub open spec fn marker_value(o: CacheOutcome) -> Seq<u8> {
    match o {
        CacheOutcome::Hit => seq![72u8, 105u8, 116u8],
        CacheOutcome::Miss => seq![77u8, 105u8, 115u8, 115u8],
    }
}

/// Whether a header named `n` (lower case) is dropped: on the way upstream
/// (`response` false) by the remove lists, except `host`, which the upstream
/// needs; on the way back also when it is hop-by-hop.
pub open spec fn drops(rules: HeaderRules, host: Seq<u8>, n: Seq<u8>, response: bool) -> bool {
    if response {
        hop_by_hop().contains(n) || rules.removes(host, n)
    } else {
        n != host_name() && rules.removes(host, n)
    }
}

pub open spec fn kept(
    rules: HeaderRules,
    host: Seq<u8>,
    hs: Seq<(Seq<u8>, Seq<u8>)>,
    response: bool,
) -> Seq<(Seq<u8>, Seq<u8>)> {
    hs.filter(|h: (Seq<u8>, Seq<u8>)| !drops(rules, host, lower(h.0), response))
}

/// The headers sent upstream: the client's, less the removed ones, then the
/// global and per-host additions.
pub open spec fn upstream_headers(rules: HeaderRules, host: Seq<u8>, hs: Seq<(Seq<u8>, Seq<u8>)>) -> Seq<
    (Seq<u8>, Seq<u8>),
> {
    kept(rules, host, hs, false) + rules.additions(host)
}

/// `hs` without its hop-by-hop headers.
pub open spec fn hop_free(hs: Seq<(Seq<u8>, Seq<u8>)>) -> Seq<(Seq<u8>, Seq<u8>)> {
    hs.filter(|h: (Seq<u8>, Seq<u8>)| !hop_by_hop().contains(lower(h.0)))
}

/// The headers sent to the client: the upstream's, less hop-by-hop and removed
/// ones, then the additions that are not hop-by-hop, then the optional marker
/// and forwarded-for headers.
pub open spec fn client_headers(
    rules: HeaderRules,
    host: Seq<u8>,
    hs: Seq<(Seq<u8>, Seq<u8>)>,
    marker: Option<CacheOutcome>,
    forwarded: Option<Seq<u8>>,
) -> Seq<(Seq<u8>, Seq<u8>)> {
    kept(rules, host, hs, true) + hop_free(header_view(rules.add@)) + hop_free(rules.add_for(host)) + match marker {
        Some(o) => seq![(marker_name(), marker_value(o))],
        None => seq![],
    } + match forwarded {
        Some(a) => seq![(forwarded_name(), a)],
        None => seq![],
    }
}

proof fn lemma_lookup<T>(entries: Seq<(Seq<u8>, T)>, host: Seq<u8>, empty: T, i: int)
    requires
        0 <= i <= entries.len(),
        forall|k: int| 0 <= k < i ==> (#[trigger] entries[k]).0 != host,
        i < entries.len() ==> entries[i].0 == host,
    ensures
        lookup(entries, host, empty) == if i < entries.len() {
            entries[i].1
        } else {
            empty
        },
    decreases entries.len(),
{
    if entries.len() > 0 && entries[0].0 != host {
        assert forall|k: int| 0 <= k < i - 1 implies (#[trigger] entries.drop_first()[k]).0 != host by {
            assert(entries.drop_first()[k] == entries[k + 1]);
        }
        lemma_lookup(entries.drop_first(), host, empty, i - 1);
    }
}

fn contains_name(list: &Vec<Vec<u8>>, n: &[u8]) -> (r: bool)
    ensures
        r == names_view(list@).contains(n@),
{
    let mut i: usize = 0;
    while i < list.len()
        invariant
            i <= list@.len(),
            forall|k: int| 0 <= k < i ==> (#[trigger] list@[k])@ != n@,
        decreases list@.len() - i,
    {
        if bytes_eq(list[i].as_slice(), n) {
            assert(names_view(list@)[i as int] == n@);
            return true;
        }
        i = i + 1;
    }
    proof {
        if names_view(list@).contains(n@) {
            let k = choose|k: int| 0 <= k < names_view(list@).len() && names_view(list@)[k] == n@;
            assert(list@[k]@ == n@);
        }
    }
    false
}

fn remove_list_for<'a>(rules: &'a HeaderRules, host: &[u8]) -> (r: Option<&'a Vec<Vec<u8>>>)
    ensures
        rules.remove_for(host@) == match r {
            Some(l) => names_view(l@),
            None => Seq::empty(),
        },
{
    let ghost ev = host_names_view(rules.remove_per_host@);
    let mut i: usize = 0;
    while i < rules.remove_per_host.len()
        invariant
            i <= rules.remove_per_host@.len(),
            ev == host_names_view(rules.remove_per_host@),
            forall|k: int| 0 <= k < i ==> (#[trigger] ev[k]).0 != host@,
        decreases rules.remove_per_host@.len() - i,
    {
        if bytes_eq(rules.remove_per_host[i].0.as_slice(), host) {
            proof {
                lemma_lookup(ev, host@, Seq::empty(), i as int);
            }
            return Some(&rules.remove_per_host[i].1);
        }
        i = i + 1;
    }
    proof {
        lemma_lookup(ev, host@, Seq::empty(), i as int);
    }
    None
}

fn add_list_for<'a>(rules: &'a HeaderRules, host: &[u8]) -> (r: Option<&'a Vec<(Vec<u8>, Vec<u8>)>>)
    ensures
        rules.add_for(host@) == match r {
            Some(l) => header_view(l@),
            None => Seq::empty(),
        },
{
    let ghost ev = host_pairs_view(rules.add_per_host@);
    let mut i: usize = 0;
    while i < rules.add_per_host.len()
        invariant
            i <= rules.add_per_host@.len(),
            ev == host_pairs_view(rules.add_per_host@),
            forall|k: int| 0 <= k < i ==> (#[trigger] ev[k]).0 != host@,
        decreases rules.add_per_host@.len() - i,
    {
        if bytes_eq(rules.add_per_host[i].0.as_slice(), host) {
            proof {
                lemma_lookup(ev, host@, Seq::empty(), i as int);
            }
            return Some(&rules.add_per_host[i].1);
        }
        i = i + 1;
    }
    proof {
        lemma_lookup(ev, host@, Seq::empty(), i as int);
    }
    None
}

fn const_bytes(b: &[u8]) -> (r: Vec<u8>)
    ensures
        r@ == b@,
{
    let r = copy_range(b, 0, b.len());
    assert(r@ =~= b@);
    r
}

fn is_hop_by_hop(n: &[u8]) -> (r: bool)
    ensures
        r == hop_by_hop().contains(n@),
{
    let names: Vec<Vec<u8>> = vec![
        vec![99u8, 111u8, 110u8, 110u8, 101u8, 99u8, 116u8, 105u8, 111u8, 110u8],
        vec![107u8, 101u8, 101u8, 112u8, 45u8, 97u8, 108u8, 105u8, 118u8, 101u8],
        vec![116u8, 101u8],
        vec![116u8, 114u8, 97u8, 105u8, 108u8, 101u8, 114u8, 115u8],
        vec![116u8, 114u8, 97u8, 110u8, 115u8, 102u8, 101u8, 114u8, 45u8, 101u8, 110u8, 99u8, 111u8, 100u8, 105u8, 110u8, 103u8],
        vec![117u8, 112u8, 103u8, 114u8, 97u8, 100u8, 101u8],
    ];
    assert(names_view(names@) =~= hop_by_hop());
    contains_name(&names, n)
}

fn push_pairs(out: &mut Vec<(Vec<u8>, Vec<u8>)>, pairs: &Vec<(Vec<u8>, Vec<u8>)>)
    ensures
        header_view(final(out)@) == header_view(old(out)@) + header_view(pairs@),
{
    let mut i: usize = 0;
    while i < pairs.len()
        invariant
            i <= pairs@.len(),
            header_view(out@) == header_view(old(out)@) + header_view(pairs@).subrange(0, i as int),
        decreases pairs@.len() - i,
    {
        let n = const_bytes(pairs[i].0.as_slice());
        let v = const_bytes(pairs[i].1.as_slice());
        let ghost before = header_view(out@);
        out.push((n, v));
        assert(header_view(out@) =~= before.push((n@, v@)));
        assert(header_view(pairs@).subrange(0, i + 1) =~= header_view(pairs@).subrange(0, i as int).push((n@, v@)));
        i = i + 1;
    }
    assert(header_view(pairs@).subrange(0, pairs@.len() as int) =~= header_view(pairs@));
}

fn push_pairs_hop_free(out: &mut Vec<(Vec<u8>, Vec<u8>)>, pairs: &Vec<(Vec<u8>, Vec<u8>)>)
    ensures
        header_view(final(out)@) == header_view(old(out)@) + hop_free(header_view(pairs@)),
{
    let ghost pv = header_view(pairs@);
    let ghost pred = |h: (Seq<u8>, Seq<u8>)| !hop_by_hop().contains(lower(h.0));
    let ghost start = header_view(out@);
    proof {
        reveal(Seq::filter);
        assert(pv.subrange(0, 0).filter(pred) =~= Seq::<(Seq<u8>, Seq<u8>)>::empty());
        assert(header_view(out@) =~= start + pv.subrange(0, 0).filter(pred));
    }
    let mut i: usize = 0;
    while i < pairs.len()
        invariant
            i <= pairs@.len(),
            pv == header_view(pairs@),
            pred == (|h: (Seq<u8>, Seq<u8>)| !hop_by_hop().contains(lower(h.0))),
            header_view(out@) == start + pv.subrange(0, i as int).filter(pred),
        decreases pairs@.len() - i,
    {
        let n = to_lower(pairs[i].0.as_slice());
        let hop = is_hop_by_hop(n.as_slice());
        proof {
            assert(pv[i as int] == (pairs@[i as int].0@, pairs@[i as int].1@));
            let sub = pv.subrange(0, i + 1);
            assert(sub.drop_last() =~= pv.subrange(0, i as int));
            assert(sub.last() == pv[i as int]);
            assert(pred(pv[i as int]) == !hop);
            reveal(Seq::filter);
            assert(sub.filter(pred) == if pred(sub.last()) {
                sub.drop_last().filter(pred).push(sub.last())
            } else {
                sub.drop_last().filter(pred)
            });
        }
        if !hop {
            let ghost before = header_view(out@);
            let nm = const_bytes(pairs[i].0.as_slice());
            let v = const_bytes(pairs[i].1.as_slice());
            out.push((nm, v));
            assert(header_view(out@) =~= before.push(pv[i as int]));
        }
        i = i + 1;
    }
    assert(pv.subrange(0, pv.len() as int) =~= pv);
}

fn filter_headers(rules: &HeaderRules, host: &[u8], hs: &Vec<(Vec<u8>, Vec<u8>)>, response: bool) -> (r: Vec<(Vec<u8>, Vec<u8>)>)
    ensures
        header_view(r@) == kept(*rules, host@, header_view(hs@), response),
{
    let ghost hv = header_view(hs@);
    let ghost pred = |h: (Seq<u8>, Seq<u8>)| !drops(*rules, host@, lower(h.0), response);
    let global = &rules.remove;
    let per_host = remove_list_for(rules, host);
    let mut out: Vec<(Vec<u8>, Vec<u8>)> = Vec::new();
    proof {
        reveal(Seq::filter);
        assert(hv.subrange(0, 0).filter(pred) =~= Seq::<(Seq<u8>, Seq<u8>)>::empty());
        assert(header_view(out@) =~= Seq::<(Seq<u8>, Seq<u8>)>::empty());
    }
    let mut i: usize = 0;
    while i < hs.len()
        invariant
            i <= hs@.len(),
            hv == header_view(hs@),
            pred == (|h: (Seq<u8>, Seq<u8>)| !drops(*rules, host@, lower(h.0), response)),
            rules.remove_for(host@) == match per_host {
                Some(l) => names_view(l@),
                None => Seq::empty(),
            },
            global == &rules.remove,
            header_view(out@) == hv.subrange(0, i as int).filter(pred),
        decreases hs@.len() - i,
    {
        let n = to_lower(hs[i].0.as_slice());
        let in_lists = contains_name(global, n.as_slice()) || match per_host {
            Some(l) => contains_name(l, n.as_slice()),
            None => false,
        };
        let dropped = if response {
            is_hop_by_hop(n.as_slice()) || in_lists
        } else {
            in_lists && !bytes_eq(n.as_slice(), &[104u8, 111u8, 115u8, 116u8])
        };
        proof {
            assert(hv[i as int] == (hs@[i as int].0@, hs@[i as int].1@));
            assert(seq![104u8, 111u8, 115u8, 116u8] =~= host_name());
            assert(dropped == drops(*rules, host@, lower(hv[i as int].0), response));
            let s = hv.subrange(0, i + 1);
            assert(s.drop_last() =~= hv.subrange(0, i as int));
            assert(s.last() == hv[i as int]);
            assert(pred(hv[i as int]) == !dropped);
            reveal(Seq::filter);
            assert(s.filter(pred) == if pred(s.last()) {
                s.drop_last().filter(pred).push(s.last())
            } else {
                s.drop_last().filter(pred)
            });
        }
        if !dropped {
            let ghost before = header_view(out@);
            let nm = const_bytes(hs[i].0.as_slice());
            let v = const_bytes(hs[i].1.as_slice());
            out.push((nm, v));
            assert(header_view(out@) =~= before.push(hv[i as int]));
        }
        i = i + 1;
    }
    assert(hv.subrange(0, hv.len() as int) =~= hv);
    out
}

/// The headers to send upstream for a request to `host`.
pub fn request_headers_for(rules: &HeaderRules, host: &[u8], hs: &Vec<(Vec<u8>, Vec<u8>)>) -> (r: Vec<
    (Vec<u8>, Vec<u8>),
>)
    ensures
        header_view(r@) == upstream_headers(*rules, host@, header_view(hs@)),
{
    let mut out = filter_headers(rules, host, hs, false);
    push_pairs(&mut out, &rules.add);
    match add_list_for(rules, host) {
        Some(l) => push_pairs(&mut out, l),
        None => {},
    }
    assert(header_view(out@) =~= upstream_headers(*rules, host@, header_view(hs@)));
    out
}

/// The headers to send to the client for a response from `host`.
pub fn response_headers_for(
    rules: &HeaderRules,
    host: &[u8],
    hs: &Vec<(Vec<u8>, Vec<u8>)>,
    marker: Option<CacheOutcome>,
    forwarded: Option<&[u8]>,
) -> (r: Vec<(Vec<u8>, Vec<u8>)>)
    ensures
        header_view(r@) == client_headers(
            *rules,
            host@,
            header_view(hs@),
            marker,
            match forwarded {
                Some(a) => Some(a@),
                None => None,
            },
        ),
{
    let mut out = filter_headers(rules, host, hs, true);
    push_pairs_hop_free(&mut out, &rules.add);
    let ghost after_add = header_view(out@);
    match add_list_for(rules, host) {
        Some(l) => push_pairs_hop_free(&mut out, l),
        None => {
            proof {
                reveal(Seq::filter);
                assert(hop_free(Seq::<(Seq<u8>, Seq<u8>)>::empty()) =~= Seq::<(Seq<u8>, Seq<u8>)>::empty());
                assert(header_view(out@) =~= after_add + hop_free(rules.add_for(host@)));
            }
        },
    }
    let ghost base = header_view(out@);
    let ghost m_seq = match marker {
        Some(o) => seq![(marker_name(), marker_value(o))],
        None => Seq::<(Seq<u8>, Seq<u8>)>::empty(),
    };
    let ghost f_seq = match forwarded {
        Some(a) => seq![(forwarded_name(), a@)],
        None => Seq::<(Seq<u8>, Seq<u8>)>::empty(),
    };
    match marker {
        Some(o) => {
            let name = const_bytes(&[120u8, 45u8, 106u8, 111u8, 105u8, 110u8, 112u8, 114u8, 111u8, 120u8, 121u8, 45u8, 114u8, 101u8, 115u8, 112u8, 111u8, 110u8, 115u8, 101u8]);
            let value = match o {
                CacheOutcome::Hit => const_bytes(&[72u8, 105u8, 116u8]),
                CacheOutcome::Miss => const_bytes(&[77u8, 105u8, 115u8, 115u8]),
            };
            out.push((name, value));
            assert(name@ =~= marker_name());
            assert(value@ =~= marker_value(o));
            assert(header_view(out@) =~= base + m_seq);
        },
        None => {
            assert(header_view(out@) =~= base + m_seq);
        },
    }
    let ghost marked = header_view(out@);
    match forwarded {
        Some(a) => {
            let name = const_bytes(&[120u8, 45u8, 102u8, 111u8, 114u8, 119u8, 97u8, 114u8, 100u8, 101u8, 100u8, 45u8, 102u8, 111u8, 114u8]);
            let value = const_bytes(a);
            out.push((name, value));
            assert(name@ =~= forwarded_name());
            assert(header_view(out@) =~= marked + f_seq);
        },
        None => {
            assert(header_view(out@) =~= marked + f_seq);
        },
    }
    assert(header_view(out@) =~= client_headers(
        *rules,
        host@,
        header_view(hs@),
        marker,
        match forwarded {
            Some(a) => Some(a@),
            None => None,
        },
    ));
    out
}

/// The bytes of a string.
pub open spec fn text_bytes(s: String) -> Seq<u8> {
    encode_utf8(s@)
}

/// A byte that a header value may hold.
pub open spec fn is_field_value(b: Seq<u8>) -> bool {
    forall|i: int| 0 <= i < b.len() ==> ((#[trigger] b[i] >= 32 && b[i] != 127) || b[i] == 9)
}

pub open spec fn names_ok(v: Seq<String>) -> bool {
    forall|i: int| 0 <= i < v.len() ==> is_name(text_bytes(#[trigger] v[i]))
}

pub open spec fn pair_names_ok(v: Seq<(String, String)>) -> bool {
    forall|i: int| 0 <= i < v.len() ==> is_name(text_bytes((#[trigger] v[i]).0))
}

pub open spec fn pair_values_ok(v: Seq<(String, String)>) -> bool {
    forall|i: int| 0 <= i < v.len() ==> is_field_value(text_bytes((#[trigger] v[i]).1))
}

/// Every configured header name is a valid name.
pub open spec fn config_names_ok(
    remove: Seq<String>,
    add: Seq<(String, String)>,
    remove_per_host: Seq<(String, Vec<String>)>,
    add_per_host: Seq<(String, Vec<(String, String)>)>,
) -> bool {
    &&& names_ok(remove)
    &&& pair_names_ok(add)
    &&& forall|i: int| 0 <= i < remove_per_host.len() ==> names_ok((#[trigger] remove_per_host[i]).1@)
    &&& forall|i: int| 0 <= i < add_per_host.len() ==> pair_names_ok((#[trigger] add_per_host[i]).1@)
}

/// Every configured header value is a valid value.
pub open spec fn config_values_ok(add: Seq<(String, String)>, add_per_host: Seq<(String, Vec<(String, String)>)>) -> bool {
    &&& pair_values_ok(add)
    &&& forall|i: int| 0 <= i < add_per_host.len() ==> pair_values_ok((#[trigger] add_per_host[i]).1@)
}

pub open spec fn names_of(v: Seq<String>) -> Seq<Seq<u8>> {
    v.map_values(|s: String| lower(text_bytes(s)))
}

pub open spec fn pairs_of(v: Seq<(String, String)>) -> Seq<(Seq<u8>, Seq<u8>)> {
    v.map_values(|p: (String, String)| (lower(text_bytes(p.0)), text_bytes(p.1)))
}

/// The rules that a configuration gives: names in lower case, hosts as written.
pub open spec fn rules_match(
    r: HeaderRules,
    remove: Seq<String>,
    add: Seq<(String, String)>,
    remove_per_host: Seq<(String, Vec<String>)>,
    add_per_host: Seq<(String, Vec<(String, String)>)>,
) -> bool {
    &&& names_view(r.remove@) == names_of(remove)
    &&& header_view(r.add@) == pairs_of(add)
    &&& host_names_view(r.remove_per_host@) == remove_per_host.map_values(
        |e: (String, Vec<String>)| (text_bytes(e.0), names_of(e.1@)),
    )
    &&& host_pairs_view(r.add_per_host@) == add_per_host.map_values(
        |e: (String, Vec<(String, String)>)| (text_bytes(e.0), pairs_of(e.1@)),
    )
}

fn str_bytes(s: &String) -> (r: Vec<u8>)
    ensures
        r@ == text_bytes(*s),
{
    const_bytes(s.as_str().as_bytes())
}

fn is_field_value_exec(b: &[u8]) -> (r: bool)
    ensures
        r == is_field_value(b@),
{
    let mut i: usize = 0;
    while i < b.len()
        invariant
            i <= b@.len(),
            forall|k: int| 0 <= k < i ==> ((#[trigger] b@[k] >= 32 && b@[k] != 127) || b@[k] == 9),
        decreases b@.len() - i,
    {
        if !((b[i] >= 32 && b[i] != 127) || b[i] == 9) {
            return false;
        }
        i = i + 1;
    }
    true
}

fn names_ok_exec(v: &Vec<String>) -> (r: bool)
    ensures
        r == names_ok(v@),
{
    let mut i: usize = 0;
    while i < v.len()
        invariant
            i <= v@.len(),
            forall|k: int| 0 <= k < i ==> is_name(text_bytes(#[trigger] v@[k])),
        decreases v@.len() - i,
    {
        let b = str_bytes(&v[i]);
        if !is_name_exec(b.as_slice()) {
            return false;
        }
        i = i + 1;
    }
    true
}

fn pairs_ok_exec(v: &Vec<(String, String)>, values: bool) -> (r: bool)
    ensures
        r == if values {
            pair_values_ok(v@)
        } else {
            pair_names_ok(v@)
        },
{
    let mut i: usize = 0;
    while i < v.len()
        invariant
            i <= v@.len(),
            forall|k: int| 0 <= k < i ==> if values {
                is_field_value(text_bytes((#[trigger] v@[k]).1))
            } else {
                is_name(text_bytes((#[trigger] v@[k]).0))
            },
        decreases v@.len() - i,
    {
        let ok = if values {
            let b = str_bytes(&v[i].1);
            is_field_value_exec(b.as_slice())
        } else {
            let b = str_bytes(&v[i].0);
            is_name_exec(b.as_slice())
        };
        if !ok {
            return false;
        }
        i = i + 1;
    }
    true
}

fn convert_names(v: &Vec<String>) -> (r: Vec<Vec<u8>>)
    ensures
        names_view(r@) == names_of(v@),
{
    let mut out: Vec<Vec<u8>> = Vec::new();
    let mut i: usize = 0;
    while i < v.len()
        invariant
            i <= v@.len(),
            names_view(out@) == names_of(v@.subrange(0, i as int)),
        decreases v@.len() - i,
    {
        let b = str_bytes(&v[i]);
        let l = to_lower(b.as_slice());
        let ghost before = names_view(out@);
        out.push(l);
        assert(names_view(out@) =~= before.push(l@));
        assert(v@.subrange(0, i + 1) =~= v@.subrange(0, i as int).push(v@[i as int]));
        assert(names_of(v@.subrange(0, i + 1)) =~= names_of(v@.subrange(0, i as int)).push(l@));
        i = i + 1;
    }
    assert(v@.subrange(0, v@.len() as int) =~= v@);
    out
}

fn convert_pairs(v: &Vec<(String, String)>) -> (r: Vec<(Vec<u8>, Vec<u8>)>)
    ensures
        header_view(r@) == pairs_of(v@),
{
    let mut out: Vec<(Vec<u8>, Vec<u8>)> = Vec::new();
    let mut i: usize = 0;
    while i < v.len()
        invariant
            i <= v@.len(),
            header_view(out@) == pairs_of(v@.subrange(0, i as int)),
        decreases v@.len() - i,
    {
        let n = str_bytes(&v[i].0);
        let l = to_lower(n.as_slice());
        let val = str_bytes(&v[i].1);
        let ghost before = header_view(out@);
        let ghost h = (l@, val@);
        out.push((l, val));
        assert(header_view(out@) =~= before.push(h));
        assert(v@.subrange(0, i + 1) =~= v@.subrange(0, i as int).push(v@[i as int]));
        assert(pairs_of(v@.subrange(0, i + 1)) =~= pairs_of(v@.subrange(0, i as int)).push(h));
        i = i + 1;
    }
    assert(v@.subrange(0, v@.len() as int) =~= v@);
    out
}

impl HeaderRules {
    /// Rules from configured lists. Fails with `InvalidHeaderName` when a
    /// configured name is not a valid header name, else with
    /// `InvalidHeaderValue` when an added value is not a valid header value.
    pub fn from_lists(
        remove: &Vec<String>,
        add: &Vec<(String, String)>,
        remove_per_host: &Vec<(String, Vec<String>)>,
        add_per_host: &Vec<(String, Vec<(String, String)>)>,
    ) -> (r: Result<HeaderRules, MyError>)
        ensures
            !config_names_ok(remove@, add@, remove_per_host@, add_per_host@) ==> r == Err::<HeaderRules, MyError>(
                MyError::InvalidHeaderName(InvalidHeaderNameError {}),
            ),
            config_names_ok(remove@, add@, remove_per_host@, add_per_host@) && !config_values_ok(add@, add_per_host@)
                ==> r == Err::<HeaderRules, MyError>(MyError::InvalidHeaderValue(InvalidHeaderValueError {})),
            r matches Ok(rules) ==> config_names_ok(remove@, add@, remove_per_host@, add_per_host@)
                && config_values_ok(add@, add_per_host@) && rules_match(rules, remove@, add@, remove_per_host@, add_per_host@),
            config_names_ok(remove@, add@, remove_per_host@, add_per_host@) && config_values_ok(add@, add_per_host@)
                ==> r is Ok,
    {
        if !names_ok_exec(remove) || !pairs_ok_exec(add, false) {
            return Err(MyError::InvalidHeaderName(InvalidHeaderNameError {}));
        }
        let mut i: usize = 0;
        while i < remove_per_host.len()
            invariant
                i <= remove_per_host@.len(),
                forall|k: int| 0 <= k < i ==> names_ok((#[trigger] remove_per_host@[k]).1@),
                names_ok(remove@),
                pair_names_ok(add@),
            decreases remove_per_host@.len() - i,
        {
            if !names_ok_exec(&remove_per_host[i].1) {
                return Err(MyError::InvalidHeaderName(InvalidHeaderNameError {}));
            }
            i = i + 1;
        }
        let mut i: usize = 0;
        while i < add_per_host.len()
            invariant
                i <= add_per_host@.len(),
                forall|k: int| 0 <= k < i ==> pair_names_ok((#[trigger] add_per_host@[k]).1@),
                names_ok(remove@),
                pair_names_ok(add@),
                forall|k: int| 0 <= k < remove_per_host@.len() ==> names_ok((#[trigger] remove_per_host@[k]).1@),
            decreases add_per_host@.len() - i,
        {
            if !pairs_ok_exec(&add_per_host[i].1, false) {
                return Err(MyError::InvalidHeaderName(InvalidHeaderNameError {}));
            }
            i = i + 1;
        }
        if !pairs_ok_exec(add, true) {
            return Err(MyError::InvalidHeaderValue(InvalidHeaderValueError {}));
        }
        let mut i: usize = 0;
        while i < add_per_host.len()
            invariant
                i <= add_per_host@.len(),
                forall|k: int| 0 <= k < i ==> pair_values_ok((#[trigger] add_per_host@[k]).1@),
                config_names_ok(remove@, add@, remove_per_host@, add_per_host@),
                pair_values_ok(add@),
            decreases add_per_host@.len() - i,
        {
            if !pairs_ok_exec(&add_per_host[i].1, true) {
                return Err(MyError::InvalidHeaderValue(InvalidHeaderValueError {}));
            }
            i = i + 1;
        }
        let ghost rph_spec = remove_per_host@.map_values(|e: (String, Vec<String>)| (text_bytes(e.0), names_of(e.1@)));
        let mut rph: Vec<(Vec<u8>, Vec<Vec<u8>>)> = Vec::new();
        let mut i: usize = 0;
        while i < remove_per_host.len()
            invariant
                i <= remove_per_host@.len(),
                rph_spec == remove_per_host@.map_values(|e: (String, Vec<String>)| (text_bytes(e.0), names_of(e.1@))),
                host_names_view(rph@) == rph_spec.subrange(0, i as int),
                config_names_ok(remove@, add@, remove_per_host@, add_per_host@),
                config_values_ok(add@, add_per_host@),
            decreases remove_per_host@.len() - i,
        {
            let h = str_bytes(&remove_per_host[i].0);
            let ns = convert_names(&remove_per_host[i].1);
            let ghost before = host_names_view(rph@);
            let ghost e = (h@, names_view(ns@));
            rph.push((h, ns));
            assert(host_names_view(rph@) =~= before.push(e));
            assert(rph_spec.subrange(0, i + 1) =~= rph_spec.subrange(0, i as int).push(e));
            i = i + 1;
        }
        let ghost aph_spec = add_per_host@.map_values(
            |e: (String, Vec<(String, String)>)| (text_bytes(e.0), pairs_of(e.1@)),
        );
        let mut aph: Vec<(Vec<u8>, Vec<(Vec<u8>, Vec<u8>)>)> = Vec::new();
        let mut i: usize = 0;
        while i < add_per_host.len()
            invariant
                i <= add_per_host@.len(),
                aph_spec == add_per_host@.map_values(
                    |e: (String, Vec<(String, String)>)| (text_bytes(e.0), pairs_of(e.1@)),
                ),
                host_pairs_view(aph@) == aph_spec.subrange(0, i as int),
                config_names_ok(remove@, add@, remove_per_host@, add_per_host@),
                config_values_ok(add@, add_per_host@),
            decreases add_per_host@.len() - i,
        {
            let h = str_bytes(&add_per_host[i].0);
            let ps = convert_pairs(&add_per_host[i].1);
            let ghost before = host_pairs_view(aph@);
            let ghost e = (h@, header_view(ps@));
            aph.push((h, ps));
            assert(host_pairs_view(aph@) =~= before.push(e));
            assert(aph_spec.subrange(0, i + 1) =~= aph_spec.subrange(0, i as int).push(e));
            i = i + 1;
        }
        assert(rph_spec.subrange(0, rph_spec.len() as int) =~= rph_spec);
        assert(aph_spec.subrange(0, aph_spec.len() as int) =~= aph_spec);
        Ok(HeaderRules {
            remove: convert_names(remove),
            add: convert_pairs(add),
            remove_per_host: rph,
            add_per_host: aph,
        })
    }

    /// The rules for requests sent upstream.
    pub fn for_requests(c: &RequestHeaders) -> (r: Result<HeaderRules, MyError>)
        ensures
            !config_names_ok(c.remove@, c.add@, c.remove_per_host@, c.add_per_host@) ==> r == Err::<
                HeaderRules,
                MyError,
            >(MyError::InvalidHeaderName(InvalidHeaderNameError {})),
            config_names_ok(c.remove@, c.add@, c.remove_per_host@, c.add_per_host@) && !config_values_ok(
                c.add@,
                c.add_per_host@,
            ) ==> r == Err::<HeaderRules, MyError>(MyError::InvalidHeaderValue(InvalidHeaderValueError {})),
            r matches Ok(rules) ==> rules_match(rules, c.remove@, c.add@, c.remove_per_host@, c.add_per_host@),
            config_names_ok(c.remove@, c.add@, c.remove_per_host@, c.add_per_host@) && config_values_ok(
                c.add@,
                c.add_per_host@,
            ) ==> r is Ok,
    {
        HeaderRules::from_lists(&c.remove, &c.add, &c.remove_per_host, &c.add_per_host)
    }

    /// The rules for responses sent to clients.
    pub fn for_responses(c: &ResponseHeaders) -> (r: Result<HeaderRules, MyError>)
        ensures
            !config_names_ok(c.remove@, c.add@, c.remove_per_host@, c.add_per_host@) ==> r == Err::<
                HeaderRules,
                MyError,
            >(MyError::InvalidHeaderName(InvalidHeaderNameError {})),
            config_names_ok(c.remove@, c.add@, c.remove_per_host@, c.add_per_host@) && !config_values_ok(
                c.add@,
                c.add_per_host@,
            ) ==> r == Err::<HeaderRules, MyError>(MyError::InvalidHeaderValue(InvalidHeaderValueError {})),
            r matches Ok(rules) ==> rules_match(rules, c.remove@, c.add@, c.remove_per_host@, c.add_per_host@),
            config_names_ok(c.remove@, c.add@, c.remove_per_host@, c.add_per_host@) && config_values_ok(
                c.add@,
                c.add_per_host@,
            ) ==> r is Ok,
    {
        HeaderRules::from_lists(&c.remove, &c.add, &c.remove_per_host, &c.add_per_host)
    }
}

proof fn lemma_hop_free_has_no_hop(hs: Seq<(Seq<u8>, Seq<u8>)>)
    ensures
        forall|i: int| 0 <= i < hop_free(hs).len() ==> !hop_by_hop().contains(lower(#[trigger] hop_free(hs)[i].0)),
{
    let pred = |h: (Seq<u8>, Seq<u8>)| !hop_by_hop().contains(lower(h.0));
    assert forall|i: int| 0 <= i < hop_free(hs).len() implies !hop_by_hop().contains(lower(#[trigger] hop_free(hs)[i].0)) by {
        hs.lemma_filter_pred(pred, i);
    }
}

proof fn lemma_not_hop_by_hop_name(n: Seq<u8>)
    requires
        n.len() == 20 || n.len() == 15,
    ensures
        !hop_by_hop().contains(lower(n)),
{
    let h = hop_by_hop();
    if h.contains(lower(n)) {
        let i = choose|i: int| 0 <= i < h.len() && h[i] == lower(n);
        assert(lower(n).len() == n.len());
        assert(h[i].len() == 10 || h[i].len() == 2 || h[i].len() == 8 || h[i].len() == 17 || h[i].len() == 7);
    }
}

/// No hop-by-hop header reaches the client, whatever the rules add: they are
/// taken from the upstream's headers and from the configured additions alike.
pub proof fn lemma_no_hop_by_hop_to_client(
    rules: HeaderRules,
    host: Seq<u8>,
    hs: Seq<(Seq<u8>, Seq<u8>)>,
    marker: Option<CacheOutcome>,
    forwarded: Option<Seq<u8>>,
)
    ensures
        forall|i: int|
            0 <= i < client_headers(rules, host, hs, marker, forwarded).len() ==> !hop_by_hop().contains(
                lower(#[trigger] client_headers(rules, host, hs, marker, forwarded)[i].0),
            ),
{
    let k = kept(rules, host, hs, true);
    let a1 = hop_free(header_view(rules.add@));
    let a2 = hop_free(rules.add_for(host));
    let m = match marker {
        Some(o) => seq![(marker_name(), marker_value(o))],
        None => Seq::<(Seq<u8>, Seq<u8>)>::empty(),
    };
    let f = match forwarded {
        Some(a) => seq![(forwarded_name(), a)],
        None => Seq::<(Seq<u8>, Seq<u8>)>::empty(),
    };
    let all = client_headers(rules, host, hs, marker, forwarded);
    assert(all =~= k + a1 + a2 + m + f);
    let pred = |h: (Seq<u8>, Seq<u8>)| !drops(rules, host, lower(h.0), true);
    lemma_hop_free_has_no_hop(header_view(rules.add@));
    lemma_hop_free_has_no_hop(rules.add_for(host));
    lemma_not_hop_by_hop_name(marker_name());
    lemma_not_hop_by_hop_name(forwarded_name());
    assert forall|i: int| 0 <= i < all.len() implies !hop_by_hop().contains(lower(#[trigger] all[i].0)) by {
        if i < k.len() {
            hs.lemma_filter_pred(pred, i);
            assert(all[i] == k[i]);
        } else if i < k.len() + a1.len() {
            assert(all[i] == a1[i - k.len()]);
        } else if i < k.len() + a1.len() + a2.len() {
            assert(all[i] == a2[i - k.len() - a1.len()]);
        } else if i < k.len() + a1.len() + a2.len() + m.len() {
            assert(all[i] == m[i - k.len() - a1.len() - a2.len()]);
        } else {
            assert(all[i] == f[i - k.len() - a1.len() - a2.len() - m.len()]);
        }
    }
}

} // verus!
