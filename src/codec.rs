//! The canonical request form that cache keys are computed from, and the
//! record form in which responses are stored.

use vstd::prelude::*;
use crate::errors::MyError;
use crate::bytes::{
    lex_lt, lower, lemma_lex_irreflexive, lemma_lex_transitive, lemma_lex_total,
    lemma_lex_asymmetric, lex_less, to_lower, push_all, bytes_eq, LF, TAB, CR,
};

verus! {

/// A header list as it arrived: (name, value) pairs in arrival order.
pub open spec fn header_view(hs: Seq<(Vec<u8>, Vec<u8>)>) -> Seq<(Seq<u8>, Seq<u8>)> {
    hs.map_values(|h: (Vec<u8>, Vec<u8>)| (h.0@, h.1@))
}

/// Header groups: a name with the values that came under it.
pub open spec fn group_view(gs: Seq<(Vec<u8>, Vec<Vec<u8>>)>) -> Seq<(Seq<u8>, Seq<Seq<u8>>)> {
    gs.map_values(|g: (Vec<u8>, Vec<Vec<u8>>)| (g.0@, g.1@.map_values(|v: Vec<u8>| v@)))
}

/// A byte that a header value may hold when read as text: visible ASCII or a tab.
pub open spec fn is_text_byte(b: u8) -> bool {
    (32 <= b && b < 127) || b == TAB
}

pub open spec fn is_text(s: Seq<u8>) -> bool {
    forall|i: int| 0 <= i < s.len() ==> is_text_byte(#[trigger] s[i])
}

/// Every header value of the list reads as text.
pub open spec fn all_values_text(hs: Seq<(Seq<u8>, Seq<u8>)>) -> bool {
    forall|i: int| 0 <= i < hs.len() ==> is_text(#[trigger] hs[i].1)
}

/// The values, in arrival order, of the headers whose lower-cased name is `n`.
pub open spec fn values_of(hs: Seq<(Seq<u8>, Seq<u8>)>, n: Seq<u8>) -> Seq<Seq<u8>>
    decreases hs.len(),
{
    if hs.len() == 0 {
        seq![]
    } else if lower(hs.last().0) == n {
        values_of(hs.drop_last(), n).push(hs.last().1)
    } else {
        values_of(hs.drop_last(), n)
    }
}

/// `gs` groups the headers `hs`: one group per lower-cased name, names in strictly
/// increasing lexicographic order, each with its values in arrival order.
pub open spec fn well_grouped(hs: Seq<(Seq<u8>, Seq<u8>)>, gs: Seq<(Seq<u8>, Seq<Seq<u8>>)>) -> bool {
    &&& names_increase(gs)
    &&& forall|i: int|
        0 <= i < gs.len() ==> (#[trigger] gs[i]).1 == values_of(hs, gs[i].0) && gs[i].1.len() > 0
    &&& forall|n: Seq<u8>|
        #[trigger] values_of(hs, n).len() > 0 ==> exists|i: int| 0 <= i < gs.len() && gs[i].0 == n
}

/// `gs` groups the values that `vals` gives for each name, as `well_grouped` says.
pub open spec fn groups_values(
    vals: spec_fn(Seq<u8>) -> Seq<Seq<u8>>,
    gs: Seq<(Seq<u8>, Seq<Seq<u8>>)>,
) -> bool {
    &&& names_increase(gs)
    &&& forall|i: int| 0 <= i < gs.len() ==> (#[trigger] gs[i]).1 == vals(gs[i].0) && gs[i].1.len() > 0
    &&& forall|n: Seq<u8>| #[trigger] vals(n).len() > 0 ==> exists|i: int| 0 <= i < gs.len() && gs[i].0 == n
}

/// The header groups of `hs`. They depend on the values under each name alone,
/// and there is exactly one grouping (see `lemma_grouping_unique`).
pub open spec fn header_groups(hs: Seq<(Seq<u8>, Seq<u8>)>) -> Seq<(Seq<u8>, Seq<Seq<u8>>)> {
    let vals = |n: Seq<u8>| values_of(hs, n);
    choose|gs: Seq<(Seq<u8>, Seq<Seq<u8>>)>| groups_values(vals, gs)
}

/// The parts joined with `sep` between consecutive parts.
pub open spec fn join(parts: Seq<Seq<u8>>, sep: u8) -> Seq<u8>
    decreases parts.len(),
{
    if parts.len() == 0 {
        seq![]
    } else if parts.len() == 1 {
        parts[0]
    } else {
        join(parts.drop_last(), sep) + seq![sep] + parts.last()
    }
}

/// One group of the canonical request: the name, then each value after a tab.
pub open spec fn group_line(g: (Seq<u8>, Seq<Seq<u8>>)) -> Seq<u8> {
    g.0 + seq![TAB] + join(g.1, TAB)
}

pub open spec fn groups_text(gs: Seq<(Seq<u8>, Seq<Seq<u8>>)>) -> Seq<u8> {
    join(gs.map_values(|g: (Seq<u8>, Seq<Seq<u8>>)| group_line(g)), CR)
}

/// The canonical form of a request: method, target and header groups on lines
/// of their own, then the body verbatim.
pub open spec fn request_form(
    method: Seq<u8>,
    url: Seq<u8>,
    hs: Seq<(Seq<u8>, Seq<u8>)>,
    body: Seq<u8>,
) -> Seq<u8> {
    method + seq![LF] + url + seq![LF] + groups_text(header_groups(hs)) + seq![LF] + body
}

/// The names of the groups strictly increase.
pub open spec fn names_increase(gs: Seq<(Seq<u8>, Seq<Seq<u8>>)>) -> bool {
    forall|i: int, j: int| 0 <= i < j < gs.len() ==> lex_lt(#[trigger] gs[i].0, #[trigger] gs[j].0)
}

proof fn lemma_sorted_same(g1: Seq<(Seq<u8>, Seq<Seq<u8>>)>, g2: Seq<(Seq<u8>, Seq<Seq<u8>>)>)
    requires
        names_increase(g1),
        names_increase(g2),
        forall|i: int| 0 <= i < g1.len() ==> g2.contains(#[trigger] g1[i]),
        forall|j: int| 0 <= j < g2.len() ==> g1.contains(#[trigger] g2[j]),
    ensures
        g1 == g2,
    decreases g1.len(),
{
    if g1.len() == 0 {
        if g2.len() > 0 {
            assert(g1.contains(g2[0]));
        }
        assert(g1 =~= g2);
    } else {
        assert(g2.contains(g1[0]));
        let j = choose|j: int| 0 <= j < g2.len() && g2[j] == g1[0];
        assert(g1.contains(g2[0]));
        let i = choose|i: int| 0 <= i < g1.len() && g1[i] == g2[0];
        if j > 0 {
            assert(lex_lt(g2[0].0, g2[j].0));
            if i > 0 {
                assert(lex_lt(g1[0].0, g1[i].0));
                lemma_lex_asymmetric(g1[0].0, g1[i].0);
            } else {
                lemma_lex_irreflexive(g1[0].0);
            }
        }
        assert(g1[0] == g2[0]);
        let t1 = g1.drop_first();
        let t2 = g2.drop_first();
        assert forall|a: int| 0 <= a < t1.len() implies t2.contains(#[trigger] t1[a]) by {
            assert(t1[a] == g1[a + 1]);
            assert(g2.contains(g1[a + 1]));
            let b = choose|b: int| 0 <= b < g2.len() && g2[b] == g1[a + 1];
            assert(lex_lt(g1[0].0, g1[a + 1].0));
            if b == 0 {
                lemma_lex_irreflexive(g1[0].0);
            }
            assert(t2[b - 1] == t1[a]);
        }
        assert forall|b: int| 0 <= b < t2.len() implies t1.contains(#[trigger] t2[b]) by {
            assert(t2[b] == g2[b + 1]);
            assert(g1.contains(g2[b + 1]));
            let a = choose|a: int| 0 <= a < g1.len() && g1[a] == g2[b + 1];
            assert(lex_lt(g2[0].0, g2[b + 1].0));
            if a == 0 {
                lemma_lex_irreflexive(g2[0].0);
            }
            assert(t1[a - 1] == t2[b]);
        }
        lemma_sorted_same(t1, t2);
        assert(g1 =~= seq![g1[0]] + t1);
        assert(g2 =~= seq![g2[0]] + t2);
    }
}

/// Two header lists that carry, under every name, the same values in the same
/// order have the same grouping.
pub proof fn lemma_grouping_unique(
    hs1: Seq<(Seq<u8>, Seq<u8>)>,
    hs2: Seq<(Seq<u8>, Seq<u8>)>,
    g1: Seq<(Seq<u8>, Seq<Seq<u8>>)>,
    g2: Seq<(Seq<u8>, Seq<Seq<u8>>)>,
)
    requires
        well_grouped(hs1, g1),
        well_grouped(hs2, g2),
        forall|n: Seq<u8>| values_of(hs1, n) == values_of(hs2, n),
    ensures
        g1 == g2,
{
    assert forall|i: int| 0 <= i < g1.len() implies g2.contains(#[trigger] g1[i]) by {
        let n = g1[i].0;
        assert(values_of(hs1, n) == values_of(hs2, n));
        assert(values_of(hs2, n).len() > 0);
        let j = choose|j: int| 0 <= j < g2.len() && g2[j].0 == n;
        assert(g2[j].1 == values_of(hs2, n));
        assert(g2[j] == g1[i]);
    }
    assert forall|j: int| 0 <= j < g2.len() implies g1.contains(#[trigger] g2[j]) by {
        let n = g2[j].0;
        assert(values_of(hs1, n) == values_of(hs2, n));
        assert(values_of(hs1, n).len() > 0);
        let i = choose|i: int| 0 <= i < g1.len() && g1[i].0 == n;
        assert(g1[i].1 == values_of(hs1, n));
        assert(g1[i] == g2[j]);
    }
    lemma_sorted_same(g1, g2);
}

/// The values under each name after one more header `(n, v)` arrives.
pub open spec fn one_more(pre: Seq<(Seq<u8>, Seq<u8>)>, post: Seq<(Seq<u8>, Seq<u8>)>, n: Seq<u8>, v: Seq<u8>) -> bool {
    forall|m: Seq<u8>| #[trigger] values_of(post, m) == if m == n {
        values_of(pre, m).push(v)
    } else {
        values_of(pre, m)
    }
}

proof fn lemma_group_found(
    pre: Seq<(Seq<u8>, Seq<u8>)>,
    post: Seq<(Seq<u8>, Seq<u8>)>,
    old_gs: Seq<(Seq<u8>, Seq<Seq<u8>>)>,
    n: Seq<u8>,
    v: Seq<u8>,
    j: int,
)
    requires
        well_grouped(pre, old_gs),
        one_more(pre, post, n, v),
        0 <= j < old_gs.len(),
        old_gs[j].0 == n,
    ensures
        well_grouped(post, old_gs.update(j, (n, old_gs[j].1.push(v)))),
{
    let new_gs = old_gs.update(j, (n, old_gs[j].1.push(v)));
    assert(values_of(post, n) == values_of(pre, n).push(v));
    assert forall|k: int| 0 <= k < new_gs.len() && k != j implies #[trigger] new_gs[k].0 != n by {
        if k < j {
            assert(lex_lt(old_gs[k].0, old_gs[j].0));
            lemma_lex_irreflexive(n);
        } else {
            assert(lex_lt(old_gs[j].0, old_gs[k].0));
            lemma_lex_irreflexive(n);
        }
    }
    assert forall|k: int| 0 <= k < new_gs.len() implies (#[trigger] new_gs[k]).1 == values_of(post, new_gs[k].0)
        && new_gs[k].1.len() > 0 by {
        if k != j {
            assert(values_of(post, new_gs[k].0) == values_of(pre, new_gs[k].0));
        }
    }
    assert forall|m: Seq<u8>| #[trigger] values_of(post, m).len() > 0 implies exists|k: int| 0 <= k < new_gs.len() && new_gs[k].0 == m by {
        if m == n {
            assert(new_gs[j].0 == m);
        } else {
            assert(values_of(pre, m).len() > 0);
            let k = choose|k: int| 0 <= k < old_gs.len() && old_gs[k].0 == m;
            assert(new_gs[k].0 == m);
        }
    }
}

proof fn lemma_group_insert(
    pre: Seq<(Seq<u8>, Seq<u8>)>,
    post: Seq<(Seq<u8>, Seq<u8>)>,
    old_gs: Seq<(Seq<u8>, Seq<Seq<u8>>)>,
    n: Seq<u8>,
    v: Seq<u8>,
    j: int,
)
    requires
        well_grouped(pre, old_gs),
        one_more(pre, post, n, v),
        0 <= j <= old_gs.len(),
        forall|k: int| 0 <= k < j ==> lex_lt(#[trigger] old_gs[k].0, n),
        j < old_gs.len() ==> old_gs[j].0 != n && !lex_lt(old_gs[j].0, n),
    ensures
        well_grouped(post, old_gs.insert(j, (n, seq![v]))),
{
    let new_gs = old_gs.insert(j, (n, seq![v]));
    if j < old_gs.len() {
        lemma_lex_total(old_gs[j].0, n);
        assert(lex_lt(n, old_gs[j].0));
    }
    assert forall|k: int| j <= k < old_gs.len() implies lex_lt(n, #[trigger] old_gs[k].0) by {
        if k > j {
            assert(lex_lt(old_gs[j].0, old_gs[k].0));
            lemma_lex_transitive(n, old_gs[j].0, old_gs[k].0);
        }
    }
    assert forall|k: int| 0 <= k < old_gs.len() implies #[trigger] old_gs[k].0 != n by {
        lemma_lex_irreflexive(n);
    }
    if values_of(pre, n).len() > 0 {
        let k = choose|k: int| 0 <= k < old_gs.len() && old_gs[k].0 == n;
        assert(false);
    }
    assert(values_of(post, n) =~= seq![v]);
    assert forall|a: int, b: int| 0 <= a < b < new_gs.len() implies lex_lt(#[trigger] new_gs[a].0, #[trigger] new_gs[b].0) by {
        if b < j {
        } else if b == j {
            assert(new_gs[a] == old_gs[a]);
        } else if a < j {
            assert(new_gs[b] == old_gs[b - 1]);
            assert(lex_lt(old_gs[a].0, n));
            lemma_lex_transitive(old_gs[a].0, n, old_gs[b - 1].0);
        } else if a == j {
            assert(new_gs[b] == old_gs[b - 1]);
        } else {
            assert(new_gs[a] == old_gs[a - 1]);
            assert(new_gs[b] == old_gs[b - 1]);
        }
    }
    assert forall|k: int| 0 <= k < new_gs.len() implies (#[trigger] new_gs[k]).1 == values_of(post, new_gs[k].0)
        && new_gs[k].1.len() > 0 by {
        if k < j {
            assert(new_gs[k] == old_gs[k]);
        } else if k > j {
            assert(new_gs[k] == old_gs[k - 1]);
        }
    }
    assert forall|m: Seq<u8>| #[trigger] values_of(post, m).len() > 0 implies exists|k: int| 0 <= k < new_gs.len() && new_gs[k].0 == m by {
        if m == n {
            assert(new_gs[j].0 == m);
        } else {
            assert(values_of(pre, m).len() > 0);
            let k = choose|k: int| 0 <= k < old_gs.len() && old_gs[k].0 == m;
            if k < j {
                assert(new_gs[k].0 == m);
            } else {
                assert(new_gs[k + 1].0 == m);
            }
        }
    }
}

/// Where a name falls among the group names: the first group whose name is
/// not below it.
pub open spec fn first_not_below(gs: Seq<(Seq<u8>, Seq<Seq<u8>>)>, n: Seq<u8>) -> int
    decreases gs.len(),
{
    if gs.len() == 0 {
        0
    } else if lex_lt(gs[0].0, n) {
        1 + first_not_below(gs.drop_first(), n)
    } else {
        0
    }
}

proof fn lemma_first_not_below(gs: Seq<(Seq<u8>, Seq<Seq<u8>>)>, n: Seq<u8>)
    ensures
        0 <= first_not_below(gs, n) <= gs.len(),
        forall|k: int| 0 <= k < first_not_below(gs, n) ==> lex_lt(#[trigger] gs[k].0, n),
        first_not_below(gs, n) < gs.len() ==> !lex_lt(gs[first_not_below(gs, n)].0, n),
    decreases gs.len(),
{
    if gs.len() > 0 && lex_lt(gs[0].0, n) {
        lemma_first_not_below(gs.drop_first(), n);
        assert forall|k: int| 0 <= k < first_not_below(gs, n) implies lex_lt(#[trigger] gs[k].0, n) by {
            if k > 0 {
                assert(gs[k] == gs.drop_first()[k - 1]);
            }
        }
    }
}

/// Every header list has a grouping.
pub proof fn lemma_grouping_exists(hs: Seq<(Seq<u8>, Seq<u8>)>)
    ensures
        well_grouped(hs, header_groups(hs)),
    decreases hs.len(),
{
    if hs.len() == 0 {
        let e = Seq::<(Seq<u8>, Seq<Seq<u8>>)>::empty();
        assert(well_grouped(hs, e));
        assert(groups_values(|m: Seq<u8>| values_of(hs, m), e));
    } else {
        let pre = hs.drop_last();
        lemma_grouping_exists(pre);
        let g0 = header_groups(pre);
        let n = lower(hs.last().0);
        let v = hs.last().1;
        assert(one_more(pre, hs, n, v));
        lemma_first_not_below(g0, n);
        let j = first_not_below(g0, n);
        let g = if j < g0.len() && g0[j].0 == n {
            lemma_group_found(pre, hs, g0, n, v, j);
            g0.update(j, (n, g0[j].1.push(v)))
        } else {
            lemma_group_insert(pre, hs, g0, n, v, j);
            g0.insert(j, (n, seq![v]))
        };
        assert(groups_values(|m: Seq<u8>| values_of(hs, m), g));
    }
    assert(groups_values(|m: Seq<u8>| values_of(hs, m), header_groups(hs)));
}

/// Groups headers by lower-cased name, names in lexicographic order, values in
/// arrival order.
pub fn group_headers(headers: &Vec<(Vec<u8>, Vec<u8>)>) -> (gs: Vec<(Vec<u8>, Vec<Vec<u8>>)>)
    ensures
        well_grouped(header_view(headers@), group_view(gs@)),
        group_view(gs@) == header_groups(header_view(headers@)),
{
    let ghost hv = header_view(headers@);
    let mut gs: Vec<(Vec<u8>, Vec<Vec<u8>>)> = Vec::new();
    let mut i: usize = 0;
    while i < headers.len()
        invariant
            i <= headers@.len(),
            hv == header_view(headers@),
            well_grouped(hv.subrange(0, i as int), group_view(gs@)),
        decreases headers@.len() - i,
    {
        let ghost old_gs = group_view(gs@);
        let ghost pre = hv.subrange(0, i as int);
        let ghost post = hv.subrange(0, i + 1);
        let name = to_lower(headers[i].0.as_slice());
        let value = crate::bytes::copy_range(headers[i].1.as_slice(), 0, headers[i].1.len());
        let ghost n = name@;
        let ghost v = value@;
        proof {
            assert(post.drop_last() =~= pre);
            assert(post.last() == hv[i as int]);
            assert(hv[i as int] == (headers@[i as int].0@, headers@[i as int].1@));
            assert(headers@[i as int].1@.subrange(0, headers@[i as int].1@.len() as int) =~= headers@[i as int].1@);
            assert(one_more(pre, post, n, v));
        }
        let mut j: usize = 0;
        while j < gs.len() && lex_less(gs[j].0.as_slice(), name.as_slice())
            invariant
                j <= gs@.len(),
                old_gs == group_view(gs@),
                n == name@,
                forall|k: int| 0 <= k < j ==> lex_lt(#[trigger] old_gs[k].0, n),
            decreases gs@.len() - j,
        {
            j = j + 1;
        }
        if j < gs.len() && bytes_eq(gs[j].0.as_slice(), name.as_slice()) {
            let ghost exec_old = gs@;
            let mut g = gs.remove(j);
            g.1.push(value);
            gs.insert(j, g);
            proof {
                assert(gs@ =~= exec_old.update(j as int, g));
                assert(g.1@.map_values(|w: Vec<u8>| w@) =~= exec_old[j as int].1@.map_values(|w: Vec<u8>| w@).push(v));
                assert(group_view(gs@) =~= old_gs.update(j as int, (n, old_gs[j as int].1.push(v))));
                lemma_group_found(pre, post, old_gs, n, v, j as int);
            }
        } else {
            let ghost exec_old = gs@;
            let mut vs: Vec<Vec<u8>> = Vec::new();
            vs.push(value);
            gs.insert(j, (name, vs));
            proof {
                assert(gs@ =~= exec_old.insert(j as int, (name, vs)));
                assert(vs@.map_values(|w: Vec<u8>| w@) =~= seq![v]);
                assert(group_view(gs@) =~= old_gs.insert(j as int, (n, seq![v])));
                lemma_group_insert(pre, post, old_gs, n, v, j as int);
            }
        }
        i = i + 1;
    }
    proof {
        assert(hv.subrange(0, hv.len() as int) =~= hv);
        let gv = group_view(gs@);
        assert(well_grouped(hv, gv));
        let vals = |n: Seq<u8>| values_of(hv, n);
        assert(groups_values(vals, gv));
        let c = header_groups(hv);
        assert(groups_values(vals, c));
        assert(well_grouped(hv, c));
        lemma_grouping_unique(hv, hv, gv, c);
    }
    gs
}

/// The name that the cache key is: SHA-256 of the canonical bytes.
pub uninterp spec fn sha256_of(data: Seq<u8>) -> Seq<u8>;

/// Relies on sha2's `Sha256::digest`: a 32-byte digest that depends on the input alone.
#[verifier::external_body]
pub(crate) fn sha256(data: &[u8]) -> (r: Vec<u8>)
    ensures
        r@ == sha256_of(data@),
        r@.len() == 32,
{
    <sha2::Sha256 as sha2::Digest>::digest(data).to_vec()
}

/// Tells whether every byte of `s` reads as header text.
pub fn is_text_exec(s: &[u8]) -> (r: bool)
    ensures
        r == is_text(s@),
{
    let mut i: usize = 0;
    while i < s.len()
        invariant
            i <= s@.len(),
            forall|j: int| 0 <= j < i ==> is_text_byte(#[trigger] s@[j]),
        decreases s@.len() - i,
    {
        let b = s[i];
        if !((32 <= b && b < 127) || b == TAB) {
            return false;
        }
        i = i + 1;
    }
    true
}

fn all_values_text_exec(headers: &Vec<(Vec<u8>, Vec<u8>)>) -> (r: bool)
    ensures
        r == all_values_text(header_view(headers@)),
{
    let ghost hv = header_view(headers@);
    let mut i: usize = 0;
    while i < headers.len()
        invariant
            i <= headers@.len(),
            hv == header_view(headers@),
            forall|j: int| 0 <= j < i ==> is_text(#[trigger] hv[j].1),
        decreases headers@.len() - i,
    {
        if !is_text_exec(headers[i].1.as_slice()) {
            assert(hv[i as int].1 == headers@[i as int].1@);
            return false;
        }
        i = i + 1;
    }
    true
}

/// Appends `parts` joined with `sep`.
fn push_joined(out: &mut Vec<u8>, parts: &Vec<Vec<u8>>, sep: u8)
    ensures
        final(out)@ == old(out)@ + join(parts@.map_values(|p: Vec<u8>| p@), sep),
{
    let ghost pv = parts@.map_values(|p: Vec<u8>| p@);
    let ghost start = out@;
    let mut k: usize = 0;
    while k < parts.len()
        invariant
            k <= parts@.len(),
            pv == parts@.map_values(|p: Vec<u8>| p@),
            out@ == start + join(pv.subrange(0, k as int), sep),
        decreases parts@.len() - k,
    {
        proof {
            let next = pv.subrange(0, k + 1);
            assert(next.drop_last() =~= pv.subrange(0, k as int));
            assert(next.last() == parts@[k as int]@);
            if k == 0 {
                assert(join(pv.subrange(0, 0), sep) =~= seq![]);
            }
        }
        if k > 0 {
            out.push(sep);
        }
        push_all(out, parts[k].as_slice());
        proof {
            assert(out@ =~= start + join(pv.subrange(0, k + 1), sep));
        }
        k = k + 1;
    }
    assert(pv.subrange(0, pv.len() as int) =~= pv);
}

/// Appends the header groups in canonical form.
fn push_groups(out: &mut Vec<u8>, gs: &Vec<(Vec<u8>, Vec<Vec<u8>>)>)
    ensures
        final(out)@ == old(out)@ + groups_text(group_view(gs@)),
{
    let ghost gv = group_view(gs@);
    let ghost lines = gv.map_values(|g: (Seq<u8>, Seq<Seq<u8>>)| group_line(g));
    let ghost start = out@;
    let mut k: usize = 0;
    while k < gs.len()
        invariant
            k <= gs@.len(),
            gv == group_view(gs@),
            lines == gv.map_values(|g: (Seq<u8>, Seq<Seq<u8>>)| group_line(g)),
            out@ == start + join(lines.subrange(0, k as int), CR),
        decreases gs@.len() - k,
    {
        let ghost before = out@;
        if k > 0 {
            out.push(CR);
        }
        push_all(out, gs[k].0.as_slice());
        out.push(TAB);
        push_joined(out, &gs[k].1, TAB);
        proof {
            let next = lines.subrange(0, k + 1);
            assert(next.drop_last() =~= lines.subrange(0, k as int));
            assert(lines[k as int] == group_line(gv[k as int]));
            assert(gv[k as int].1 == gs@[k as int].1@.map_values(|p: Vec<u8>| p@));
            if k == 0 {
                assert(join(lines.subrange(0, 0), CR) =~= seq![]);
            }
            assert(out@ =~= start + join(next, CR));
        }
        k = k + 1;
    }
    assert(lines.subrange(0, lines.len() as int) =~= lines);
}

/// The canonical bytes of a request: method, target URL, the headers grouped by
/// lower-cased name in lexicographic order (values of a repeated name in arrival
/// order), then the body. Fails when a header value does not read as text.
pub fn serialize_http_request(
    method: &[u8],
    url: &[u8],
    headers: &Vec<(Vec<u8>, Vec<u8>)>,
    body: &[u8],
) -> (r: Result<Vec<u8>, MyError>)
    ensures
        r is Ok <==> all_values_text(header_view(headers@)),
        r matches Ok(b) ==> b@ == request_form(method@, url@, header_view(headers@), body@),
        r matches Err(e) ==> e == MyError::HeaderToStr,
{
    if !all_values_text_exec(headers) {
        return Err(MyError::HeaderToStr);
    }
    let gs = group_headers(headers);
    let mut out: Vec<u8> = Vec::new();
    push_all(&mut out, method);
    out.push(LF);
    push_all(&mut out, url);
    out.push(LF);
    push_groups(&mut out, &gs);
    out.push(LF);
    push_all(&mut out, body);
    assert(out@ =~= request_form(method@, url@, header_view(headers@), body@));
    Ok(out)
}

/// The cache key of a request: the digest of its canonical bytes.
pub fn cache_key(
    method: &[u8],
    url: &[u8],
    headers: &Vec<(Vec<u8>, Vec<u8>)>,
    body: &[u8],
) -> (r: Result<Vec<u8>, MyError>)
    ensures
        r is Ok <==> all_values_text(header_view(headers@)),
        r matches Ok(k) ==> k@ == sha256_of(request_form(method@, url@, header_view(headers@), body@)),
        r matches Err(e) ==> e == MyError::HeaderToStr,
{
    let form = serialize_http_request(method, url, headers, body)?;
    Ok(sha256(form.as_slice()))
}

/// Requests whose headers carry, under every lower-cased name, the same values
/// in the same order have the same canonical form and so the same cache key,
/// however headers of different names were interleaved on arrival.
pub proof fn lemma_key_ignores_header_order(
    method: Seq<u8>,
    url: Seq<u8>,
    hs1: Seq<(Seq<u8>, Seq<u8>)>,
    hs2: Seq<(Seq<u8>, Seq<u8>)>,
    body: Seq<u8>,
)
    requires
        forall|n: Seq<u8>| values_of(hs1, n) == values_of(hs2, n),
    ensures
        request_form(method, url, hs1, body) == request_form(method, url, hs2, body),
        sha256_of(request_form(method, url, hs1, body)) == sha256_of(request_form(method, url, hs2, body)),
{
    let v1 = |n: Seq<u8>| values_of(hs1, n);
    let v2 = |n: Seq<u8>| values_of(hs2, n);
    assert(v1 =~= v2);
    assert(header_groups(hs1) == header_groups(hs2));
}

/// `s` holds none of the separator bytes of the canonical form.
pub open spec fn no_separators(s: Seq<u8>) -> bool {
    forall|i: int| 0 <= i < s.len() ==> #[trigger] s[i] != LF && s[i] != TAB && s[i] != CR
}

pub open spec fn no_line_break(s: Seq<u8>) -> bool {
    forall|i: int| 0 <= i < s.len() ==> #[trigger] s[i] != LF
}

/// Every name and value of the list is free of separators.
pub open spec fn headers_clean(hs: Seq<(Seq<u8>, Seq<u8>)>) -> bool {
    forall|i: int| 0 <= i < hs.len() ==> no_separators((#[trigger] hs[i]).0) && no_separators(hs[i].1)
}

proof fn lemma_values_clean(hs: Seq<(Seq<u8>, Seq<u8>)>, n: Seq<u8>)
    requires
        headers_clean(hs),
    ensures
        forall|i: int| 0 <= i < values_of(hs, n).len() ==> no_separators(#[trigger] values_of(hs, n)[i]),
        values_of(hs, n).len() > 0 ==> no_separators(n),
    decreases hs.len(),
{
    if hs.len() > 0 {
        let pre = hs.drop_last();
        assert forall|i: int| 0 <= i < pre.len() implies no_separators((#[trigger] pre[i]).0) && no_separators(pre[i].1) by {
            assert(pre[i] == hs[i]);
        }
        lemma_values_clean(pre, n);
        let last = hs[hs.len() - 1];
        assert(no_separators(last.0) && no_separators(last.1));
        if lower(last.0) == n {
            assert forall|i: int| 0 <= i < n.len() implies #[trigger] n[i] != LF && n[i] != TAB && n[i] != CR by {
                assert(n[i] == crate::bytes::lower_byte(last.0[i]));
            }
            let vs = values_of(hs, n);
            assert forall|i: int| 0 <= i < vs.len() implies no_separators(#[trigger] vs[i]) by {
                if i < vs.len() - 1 {
                    assert(vs[i] == values_of(pre, n)[i]);
                }
            }
        }
    }
}

proof fn lemma_lines_clean(gs: Seq<(Seq<u8>, Seq<Seq<u8>>)>)
    requires
        forall|k: int| 0 <= k < gs.len() ==> no_separators((#[trigger] gs[k]).0) && gs[k].1.len() > 0
            && forall|i: int| 0 <= i < gs[k].1.len() ==> no_separators(#[trigger] gs[k].1[i]),
    ensures
        forall|k: int, i: int|
            0 <= k < gs.len() && 0 <= i < group_line(gs[k]).len() ==> #[trigger] group_line(gs[k])[i] != CR
                && group_line(gs[k])[i] != LF,
{
    assert forall|k: int, i: int| 0 <= k < gs.len() && 0 <= i < group_line(gs[k]).len() implies #[trigger] group_line(
        gs[k],
    )[i] != CR && group_line(gs[k])[i] != LF by {
        let g = gs[k];
        let j = join(g.1, TAB);
        assert forall|a: int, b: int| 0 <= a < g.1.len() && 0 <= b < g.1[a].len() implies #[trigger] g.1[a][b] != CR by {
            assert(no_separators(g.1[a]));
        }
        assert forall|a: int, b: int| 0 <= a < g.1.len() && 0 <= b < g.1[a].len() implies #[trigger] g.1[a][b] != LF by {
            assert(no_separators(g.1[a]));
        }
        crate::record::lemma_join_no_byte(g.1, TAB, CR);
        crate::record::lemma_join_no_byte(g.1, TAB, LF);
        if i < g.0.len() {
            assert(group_line(g)[i] == g.0[i]);
        } else if i > g.0.len() {
            assert(group_line(g)[i] == j[i - g.0.len() - 1]);
        }
    }
}

proof fn lemma_groups_text_injective(g1: Seq<(Seq<u8>, Seq<Seq<u8>>)>, g2: Seq<(Seq<u8>, Seq<Seq<u8>>)>)
    requires
        forall|k: int| 0 <= k < g1.len() ==> no_separators((#[trigger] g1[k]).0) && g1[k].1.len() > 0
            && forall|i: int| 0 <= i < g1[k].1.len() ==> no_separators(#[trigger] g1[k].1[i]),
        forall|k: int| 0 <= k < g2.len() ==> no_separators((#[trigger] g2[k]).0) && g2[k].1.len() > 0
            && forall|i: int| 0 <= i < g2[k].1.len() ==> no_separators(#[trigger] g2[k].1[i]),
        groups_text(g1) == groups_text(g2),
    ensures
        g1 == g2,
{
    let l1 = g1.map_values(|g: (Seq<u8>, Seq<Seq<u8>>)| group_line(g));
    let l2 = g2.map_values(|g: (Seq<u8>, Seq<Seq<u8>>)| group_line(g));
    lemma_lines_clean(g1);
    lemma_lines_clean(g2);
    if g1.len() > 0 {
        crate::record::lemma_join_len(l1, CR);
        assert(l1[0] == group_line(g1[0]));
    }
    if g2.len() > 0 {
        crate::record::lemma_join_len(l2, CR);
        assert(l2[0] == group_line(g2[0]));
    }
    if g1.len() == 0 || g2.len() == 0 {
        assert(g1 =~= g2);
        return;
    }
    assert forall|k: int, i: int| 0 <= k < l1.len() && 0 <= i < l1[k].len() implies #[trigger] l1[k][i] != CR by {
        assert(l1[k] == group_line(g1[k]));
    }
    assert forall|k: int, i: int| 0 <= k < l2.len() && 0 <= i < l2[k].len() implies #[trigger] l2[k][i] != CR by {
        assert(l2[k] == group_line(g2[k]));
    }
    crate::record::lemma_split_join(l1, CR);
    crate::record::lemma_split_join(l2, CR);
    assert(l1 == l2);
    assert forall|k: int| 0 <= k < g1.len() implies #[trigger] g1[k] == g2[k] by {
        let a = g1[k];
        let b = g2[k];
        assert(l1[k] == group_line(a));
        assert(l2[k] == group_line(b));
        let line = group_line(a);
        assert forall|i: int| 0 <= i < a.0.len() implies line[i] != TAB by {
            assert(line[i] == a.0[i]);
        }
        crate::record::lemma_index_of(line, TAB, a.0.len() as int);
        assert forall|i: int| 0 <= i < b.0.len() implies line[i] != TAB by {
            assert(group_line(b)[i] == b.0[i]);
        }
        crate::record::lemma_index_of(line, TAB, b.0.len() as int);
        assert(line.subrange(0, a.0.len() as int) =~= a.0);
        assert(group_line(b).subrange(0, b.0.len() as int) =~= b.0);
        assert(line.subrange(a.0.len() as int + 1, line.len() as int) =~= join(a.1, TAB));
        assert(group_line(b).subrange(b.0.len() as int + 1, line.len() as int) =~= join(b.1, TAB));
        assert forall|x: int, y: int| 0 <= x < a.1.len() && 0 <= y < a.1[x].len() implies #[trigger] a.1[x][y] != TAB by {
            assert(no_separators(a.1[x]));
        }
        assert forall|x: int, y: int| 0 <= x < b.1.len() && 0 <= y < b.1[x].len() implies #[trigger] b.1[x][y] != TAB by {
            assert(no_separators(b.1[x]));
        }
        crate::record::lemma_split_join(a.1, TAB);
        crate::record::lemma_split_join(b.1, TAB);
    }
    assert(g1 =~= g2);
}

proof fn lemma_form_parts(m: Seq<u8>, rest: Seq<u8>, m2: Seq<u8>, rest2: Seq<u8>)
    requires
        no_line_break(m),
        no_line_break(m2),
        m + seq![LF] + rest == m2 + seq![LF] + rest2,
    ensures
        m == m2,
        rest == rest2,
{
    let f = m + seq![LF] + rest;
    let f2 = m2 + seq![LF] + rest2;
    assert forall|i: int| 0 <= i < m.len() implies f[i] != LF by {
        assert(f[i] == m[i]);
    }
    assert forall|i: int| 0 <= i < m2.len() implies f2[i] != LF by {
        assert(f2[i] == m2[i]);
    }
    crate::record::lemma_index_of(f, LF, m.len() as int);
    crate::record::lemma_index_of(f2, LF, m2.len() as int);
    assert(f.subrange(0, m.len() as int) =~= m);
    assert(f2.subrange(0, m2.len() as int) =~= m2);
    assert(f.subrange(m.len() as int + 1, f.len() as int) =~= rest);
    assert(f2.subrange(m2.len() as int + 1, f2.len() as int) =~= rest2);
}

proof fn lemma_groups_of_clean(hs: Seq<(Seq<u8>, Seq<u8>)>)
    requires
        headers_clean(hs),
    ensures
        well_grouped(hs, header_groups(hs)),
        ({
            let g = header_groups(hs);
            forall|k: int| 0 <= k < g.len() ==> no_separators((#[trigger] g[k]).0) && g[k].1.len() > 0
                && forall|i: int| 0 <= i < g[k].1.len() ==> no_separators(#[trigger] g[k].1[i])
        }),
        no_line_break(groups_text(header_groups(hs))),
{
    lemma_grouping_exists(hs);
    let g = header_groups(hs);
    assert forall|k: int| 0 <= k < g.len() implies no_separators((#[trigger] g[k]).0) && g[k].1.len() > 0
        && forall|i: int| 0 <= i < g[k].1.len() ==> no_separators(#[trigger] g[k].1[i]) by {
        lemma_values_clean(hs, g[k].0);
    }
    lemma_lines_clean(g);
    let l = g.map_values(|x: (Seq<u8>, Seq<Seq<u8>>)| group_line(x));
    assert forall|k: int, i: int| 0 <= k < l.len() && 0 <= i < l[k].len() implies #[trigger] l[k][i] != LF by {
        assert(l[k] == group_line(g[k]));
    }
    crate::record::lemma_join_no_byte(l, CR, LF);
}

/// Requests that differ in method, target, body, or in the values under any
/// header name have different canonical forms, and so different cache keys
/// unless SHA-256 collides, provided that no part holds one of the separator
/// bytes (`\n`, and also tab and `\r` in header names and values).
pub proof fn lemma_key_sees_every_part(
    m1: Seq<u8>,
    u1: Seq<u8>,
    hs1: Seq<(Seq<u8>, Seq<u8>)>,
    b1: Seq<u8>,
    m2: Seq<u8>,
    u2: Seq<u8>,
    hs2: Seq<(Seq<u8>, Seq<u8>)>,
    b2: Seq<u8>,
)
    requires
        no_line_break(m1),
        no_line_break(m2),
        no_line_break(u1),
        no_line_break(u2),
        headers_clean(hs1),
        headers_clean(hs2),
        request_form(m1, u1, hs1, b1) == request_form(m2, u2, hs2, b2),
    ensures
        m1 == m2,
        u1 == u2,
        b1 == b2,
        forall|n: Seq<u8>| values_of(hs1, n) == values_of(hs2, n),
{
    let g1 = header_groups(hs1);
    let g2 = header_groups(hs2);
    let t1 = groups_text(g1);
    let t2 = groups_text(g2);
    lemma_groups_of_clean(hs1);
    lemma_groups_of_clean(hs2);
    assert(request_form(m1, u1, hs1, b1) =~= m1 + seq![LF] + (u1 + seq![LF] + (t1 + seq![LF] + b1)));
    assert(request_form(m2, u2, hs2, b2) =~= m2 + seq![LF] + (u2 + seq![LF] + (t2 + seq![LF] + b2)));
    lemma_form_parts(m1, u1 + seq![LF] + (t1 + seq![LF] + b1), m2, u2 + seq![LF] + (t2 + seq![LF] + b2));
    lemma_form_parts(u1, t1 + seq![LF] + b1, u2, t2 + seq![LF] + b2);
    lemma_form_parts(t1, b1, t2, b2);
    lemma_groups_text_injective(g1, g2);
    assert forall|n: Seq<u8>| values_of(hs1, n) == values_of(hs2, n) by {
        if values_of(hs1, n).len() > 0 {
            let k = choose|k: int| 0 <= k < g1.len() && g1[k].0 == n;
            assert(g2[k] == g1[k]);
        } else if values_of(hs2, n).len() > 0 {
            let k = choose|k: int| 0 <= k < g2.len() && g2[k].0 == n;
            assert(g1[k] == g2[k]);
        } else {
            assert(values_of(hs1, n) =~= values_of(hs2, n));
        }
    }
}

} // verus!
