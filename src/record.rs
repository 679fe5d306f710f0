//! The record form in which responses are stored: the status in decimal, the
//! header lines in arrival order, then the body.

use vstd::prelude::*;
use crate::errors::{MyError, MyCorruptedDBError};
use crate::bytes::{lower, push_all, copy_range, to_lower, LF, TAB, CR};
use crate::codec::{header_view, is_text, is_text_byte, is_text_exec, all_values_text, join};

verus! {

/// A response as the proxy replays it.
pub struct Response {
    pub status: u16,
    pub headers: Vec<(Vec<u8>, Vec<u8>)>,
    pub body: Vec<u8>,
}

/// Decimal digits of `n`, without leading zeros.
pub open spec fn decimal(n: nat) -> Seq<u8>
    decreases n,
{
    if n < 10 {
        seq![(48 + n) as u8]
    } else {
        decimal(n / 10) + seq![(48 + n % 10) as u8]
    }
}

pub open spec fn is_digit(b: u8) -> bool {
    48 <= b && b <= 57
}

/// A non-empty run of decimal digits.
pub open spec fn is_digits(s: Seq<u8>) -> bool {
    s.len() > 0 && forall|i: int| 0 <= i < s.len() ==> is_digit(#[trigger] s[i])
}

/// The number that a run of decimal digits denotes.
pub open spec fn digits_value(s: Seq<u8>) -> nat
    decreases s.len(),
{
    if s.len() == 0 {
        0
    } else {
        digits_value(s.drop_last()) * 10 + (s.last() - 48) as nat
    }
}

/// A byte allowed in a header name (an HTTP token character).
pub open spec fn is_token_byte(b: u8) -> bool {
    ||| 48 <= b && b <= 57
    ||| 65 <= b && b <= 90
    ||| 97 <= b && b <= 122
    ||| b == 33 || b == 35 || b == 36 || b == 37 || b == 38 || b == 39
    ||| b == 42 || b == 43 || b == 45 || b == 46
    ||| b == 94 || b == 95 || b == 96 || b == 124 || b == 126
}

/// A valid header name: a non-empty run of token characters.
pub open spec fn is_name(s: Seq<u8>) -> bool {
    s.len() > 0 && forall|i: int| 0 <= i < s.len() ==> is_token_byte(#[trigger] s[i])
}

/// Headers that a record holds and gives back unchanged: lower-case valid names
/// and values that read as text.
pub open spec fn storable_headers(hs: Seq<(Seq<u8>, Seq<u8>)>) -> bool {
    forall|i: int|
        0 <= i < hs.len() ==> is_name(#[trigger] hs[i].0) && lower(hs[i].0) == hs[i].0 && is_text(hs[i].1)
}

pub open spec fn header_line(h: (Seq<u8>, Seq<u8>)) -> Seq<u8> {
    h.0 + seq![TAB] + h.1
}

pub open spec fn headers_text(hs: Seq<(Seq<u8>, Seq<u8>)>) -> Seq<u8> {
    join(hs.map_values(|h: (Seq<u8>, Seq<u8>)| header_line(h)), CR)
}

/// The stored form of a response.
pub open spec fn record_form(status: nat, hs: Seq<(Seq<u8>, Seq<u8>)>, body: Seq<u8>) -> Seq<u8> {
    decimal(status) + seq![LF] + headers_text(hs) + seq![LF] + body
}

/// Index of the first `sep` in `s`, or the length of `s` when there is none.
pub open spec fn index_of(s: Seq<u8>, sep: u8) -> int
    decreases s.len(),
{
    if s.len() == 0 {
        0
    } else if s[0] == sep {
        0
    } else {
        1 + index_of(s.drop_first(), sep)
    }
}

/// The parts before and after the first `sep`, if there is one.
pub open spec fn split_first(s: Seq<u8>, sep: u8) -> Option<(Seq<u8>, Seq<u8>)> {
    let i = index_of(s, sep);
    if 0 <= i < s.len() {
        Some((s.subrange(0, i), s.subrange(i + 1, s.len() as int)))
    } else {
        None
    }
}

/// The pieces of `s` between the `sep` bytes.
pub open spec fn split_all(s: Seq<u8>, sep: u8) -> Seq<Seq<u8>>
    decreases s.len(),
{
    let i = index_of(s, sep);
    if 0 <= i < s.len() {
        seq![s.subrange(0, i)] + split_all(s.subrange(i + 1, s.len() as int), sep)
    } else {
        seq![s]
    }
}

/// One header line: the name, a tab, the value; the name is lower-cased.
pub open spec fn parse_header_line(line: Seq<u8>) -> Option<(Seq<u8>, Seq<u8>)> {
    match split_first(line, TAB) {
        Some((n, v)) => if is_name(n) && is_text(v) {
            Some((lower(n), v))
        } else {
            None
        },
        None => None,
    }
}

pub open spec fn parse_lines(lines: Seq<Seq<u8>>) -> Option<Seq<(Seq<u8>, Seq<u8>)>>
    decreases lines.len(),
{
    if lines.len() == 0 {
        Some(seq![])
    } else {
        match (parse_header_line(lines[0]), parse_lines(lines.drop_first())) {
            (Some(h), Some(t)) => Some(seq![h] + t),
            _ => None,
        }
    }
}

/// The header section of a record: empty for no headers, else lines split at `\r`.
pub open spec fn parse_headers(s: Seq<u8>) -> Option<Seq<(Seq<u8>, Seq<u8>)>> {
    if s.len() == 0 {
        Some(seq![])
    } else {
        parse_lines(split_all(s, CR))
    }
}

/// Decodes a record: the status line, the header section and the body, split at the
/// first two `\n`. Any other shape is a corrupted record.
pub open spec fn parse_record(data: Seq<u8>) -> Option<(nat, Seq<(Seq<u8>, Seq<u8>)>, Seq<u8>)> {
    match split_first(data, LF) {
        Some((st, rest)) => match split_first(rest, LF) {
            Some((hdr, body)) => if is_digits(st) && 100 <= digits_value(st) <= 999 {
                match parse_headers(hdr) {
                    Some(hs) => Some((digits_value(st), hs, body)),
                    None => None,
                }
            } else {
                None
            },
            None => None,
        },
        None => None,
    }
}

pub(crate) proof fn lemma_index_of(s: Seq<u8>, sep: u8, r: int)
    requires
        0 <= r <= s.len(),
        forall|k: int| 0 <= k < r ==> s[k] != sep,
        r < s.len() ==> s[r] == sep,
    ensures
        index_of(s, sep) == r,
    decreases s.len(),
{
    if s.len() > 0 && s[0] != sep {
        lemma_index_of(s.drop_first(), sep, r - 1);
    }
}

proof fn lemma_digits_value_decimal(n: nat)
    ensures
        is_digits(decimal(n)),
        digits_value(decimal(n)) == n,
    decreases n,
{
    let d = decimal(n);
    if n < 10 {
        assert(d.drop_last() =~= seq![]);
        assert(digits_value(d.drop_last()) == 0);
        assert(d.last() == (48 + n) as u8);
        assert(digits_value(d) == digits_value(d.drop_last()) * 10 + (d.last() - 48) as nat);
    } else {
        lemma_digits_value_decimal(n / 10);
        assert(d.drop_last() =~= decimal(n / 10));
        assert(d.last() == (48 + n % 10) as u8);
        assert(n == (n / 10) * 10 + n % 10);
        assert(digits_value(d) == digits_value(d.drop_last()) * 10 + (d.last() - 48) as nat);
        assert forall|i: int| 0 <= i < d.len() implies is_digit(#[trigger] d[i]) by {
            if i < d.len() - 1 {
                assert(d[i] == decimal(n / 10)[i]);
            }
        }
    }
}

proof fn lemma_join_front(parts: Seq<Seq<u8>>, sep: u8)
    requires
        parts.len() >= 2,
    ensures
        join(parts, sep) == parts[0] + seq![sep] + join(parts.drop_first(), sep),
    decreases parts.len(),
{
    if parts.len() == 2 {
        assert(parts.drop_last() =~= seq![parts[0]]);
        assert(parts.drop_first() =~= seq![parts[1]]);
        assert(join(parts.drop_last(), sep) == parts[0]);
        assert(join(parts.drop_first(), sep) == parts[1]);
        assert(join(parts, sep) == join(parts.drop_last(), sep) + seq![sep] + parts.last());
    } else {
        let init = parts.drop_last();
        let tail = parts.drop_first();
        lemma_join_front(init, sep);
        assert(init.drop_first() =~= tail.drop_last());
        assert(tail.last() == parts.last());
        assert(init[0] == parts[0]);
        assert(join(tail, sep) == join(tail.drop_last(), sep) + seq![sep] + tail.last());
        assert(join(parts, sep) =~= parts[0] + seq![sep] + join(tail, sep));
    }
}

pub(crate) proof fn lemma_split_join(parts: Seq<Seq<u8>>, sep: u8)
    requires
        parts.len() >= 1,
        forall|i: int, k: int| 0 <= i < parts.len() && 0 <= k < parts[i].len() ==> #[trigger] parts[i][k] != sep,
    ensures
        split_all(join(parts, sep), sep) == parts,
    decreases parts.len(),
{
    if parts.len() == 1 {
        let p = parts[0];
        assert forall|k: int| 0 <= k < p.len() implies p[k] != sep by {
            assert(parts[0][k] != sep);
        }
        lemma_index_of(p, sep, p.len() as int);
        assert(parts =~= seq![p]);
    } else {
        lemma_join_front(parts, sep);
        let p = parts[0];
        let t = join(parts.drop_first(), sep);
        let j = p + seq![sep] + t;
        assert forall|k: int| 0 <= k < p.len() implies j[k] != sep by {
            assert(parts[0][k] != sep);
        }
        lemma_index_of(j, sep, p.len() as int);
        assert(j.subrange(0, p.len() as int) =~= p);
        assert(j.subrange(p.len() as int + 1, j.len() as int) =~= t);
        lemma_split_join(parts.drop_first(), sep);
        assert(parts =~= seq![p] + parts.drop_first());
    }
}

proof fn lemma_parse_lines(hs: Seq<(Seq<u8>, Seq<u8>)>)
    requires
        storable_headers(hs),
    ensures
        parse_lines(hs.map_values(|h: (Seq<u8>, Seq<u8>)| header_line(h))) == Some(hs),
    decreases hs.len(),
{
    let lines = hs.map_values(|h: (Seq<u8>, Seq<u8>)| header_line(h));
    if hs.len() > 0 {
        let h = hs[0];
        let l = header_line(h);
        assert(lines[0] == l);
        assert forall|k: int| 0 <= k < h.0.len() implies l[k] != TAB by {
            assert(is_token_byte(h.0[k]));
        }
        lemma_index_of(l, TAB, h.0.len() as int);
        assert(l.subrange(0, h.0.len() as int) =~= h.0);
        assert(l.subrange(h.0.len() as int + 1, l.len() as int) =~= h.1);
        assert(storable_headers(hs.drop_first()));
        lemma_parse_lines(hs.drop_first());
        assert(lines.drop_first() =~= hs.drop_first().map_values(|h: (Seq<u8>, Seq<u8>)| header_line(h)));
        assert(hs =~= seq![h] + hs.drop_first());
    }
}

/// Decoding a stored response gives back the status, the headers in their order
/// (a repeated name included) and the body.
pub proof fn lemma_record_round_trip(status: nat, hs: Seq<(Seq<u8>, Seq<u8>)>, body: Seq<u8>)
    requires
        100 <= status <= 999,
        storable_headers(hs),
    ensures
        parse_record(record_form(status, hs, body)) == Some((status, hs, body)),
{
    let d = decimal(status);
    let ht = headers_text(hs);
    let lines = hs.map_values(|h: (Seq<u8>, Seq<u8>)| header_line(h));
    let data = record_form(status, hs, body);
    lemma_digits_value_decimal(status);
    assert forall|k: int| 0 <= k < d.len() implies data[k] != LF by {
        assert(data[k] == d[k]);
        assert(is_digit(d[k]));
    }
    lemma_index_of(data, LF, d.len() as int);
    let rest = data.subrange(d.len() as int + 1, data.len() as int);
    assert(data.subrange(0, d.len() as int) =~= d);
    assert(rest =~= ht + seq![LF] + body);
    assert forall|i: int, k: int| 0 <= i < lines.len() && 0 <= k < lines[i].len() implies #[trigger] lines[i][k] != CR && lines[i][k] != LF by {
        let h = hs[i];
        assert(lines[i] == h.0 + seq![TAB] + h.1);
        if k < h.0.len() {
            assert(is_token_byte(h.0[k]));
        } else if k > h.0.len() {
            assert(is_text_byte(h.1[k - h.0.len() - 1]));
        }
    }
    lemma_join_no_byte(lines, CR, LF);
    assert forall|k: int| 0 <= k < ht.len() implies rest[k] != LF by {
        assert(rest[k] == ht[k]);
    }
    lemma_index_of(rest, LF, ht.len() as int);
    assert(rest.subrange(0, ht.len() as int) =~= ht);
    assert(rest.subrange(ht.len() as int + 1, rest.len() as int) =~= body);
    if hs.len() == 0 {
        assert(ht =~= seq![]);
    } else {
        assert forall|i: int, k: int| 0 <= i < lines.len() && 0 <= k < lines[i].len() implies #[trigger] lines[i][k] != CR by {
            assert(lines[i][k] != CR && lines[i][k] != LF);
        }
        lemma_split_join(lines, CR);
        lemma_parse_lines(hs);
        assert(ht.len() > 0) by {
            lemma_join_len(lines, CR);
            assert(lines[0].len() > 0);
        }
    }
}

pub(crate) proof fn lemma_join_len(parts: Seq<Seq<u8>>, sep: u8)
    requires
        parts.len() >= 1,
    ensures
        join(parts, sep).len() >= parts[0].len(),
    decreases parts.len(),
{
    if parts.len() > 1 {
        lemma_join_len(parts.drop_last(), sep);
    }
}

pub(crate) proof fn lemma_join_no_byte(parts: Seq<Seq<u8>>, sep: u8, b: u8)
    requires
        sep != b,
        forall|i: int, k: int| 0 <= i < parts.len() && 0 <= k < parts[i].len() ==> #[trigger] parts[i][k] != b,
    ensures
        forall|k: int| 0 <= k < join(parts, sep).len() ==> #[trigger] join(parts, sep)[k] != b,
    decreases parts.len(),
{
    if parts.len() == 1 {
        assert forall|k: int| 0 <= k < join(parts, sep).len() implies #[trigger] join(parts, sep)[k] != b by {
            assert(parts[0][k] != b);
        }
    } else if parts.len() > 1 {
        let init = parts.drop_last();
        assert forall|i: int, k: int| 0 <= i < init.len() && 0 <= k < init[i].len() implies #[trigger] init[i][k] != b by {
            assert(init[i] == parts[i]);
            assert(parts[i][k] != b);
        }
        lemma_join_no_byte(init, sep, b);
        let j = join(parts, sep);
        let ji = join(init, sep);
        assert forall|k: int| 0 <= k < j.len() implies #[trigger] j[k] != b by {
            if k < ji.len() {
                assert(j[k] == ji[k]);
            } else if k > ji.len() {
                assert(j[k] == parts.last()[k - ji.len() - 1]);
                assert(parts[parts.len() - 1][k - ji.len() - 1] != b);
            }
        }
    }
}

fn push_decimal(out: &mut Vec<u8>, n: u16)
    ensures
        final(out)@ == old(out)@ + decimal(n as nat),
    decreases n,
{
    if n >= 10 {
        push_decimal(out, n / 10);
    }
    out.push(48 + (n % 10) as u8);
    assert(final(out)@ =~= old(out)@ + decimal(n as nat));
}

fn push_header_lines(out: &mut Vec<u8>, headers: &Vec<(Vec<u8>, Vec<u8>)>)
    ensures
        final(out)@ == old(out)@ + headers_text(header_view(headers@)),
{
    let ghost hv = header_view(headers@);
    let ghost lines = hv.map_values(|h: (Seq<u8>, Seq<u8>)| header_line(h));
    let ghost start = out@;
    let mut k: usize = 0;
    while k < headers.len()
        invariant
            k <= headers@.len(),
            hv == header_view(headers@),
            lines == hv.map_values(|h: (Seq<u8>, Seq<u8>)| header_line(h)),
            out@ == start + join(lines.subrange(0, k as int), CR),
        decreases headers@.len() - k,
    {
        if k > 0 {
            out.push(CR);
        }
        push_all(out, headers[k].0.as_slice());
        out.push(TAB);
        push_all(out, headers[k].1.as_slice());
        proof {
            let next = lines.subrange(0, k + 1);
            assert(next.drop_last() =~= lines.subrange(0, k as int));
            assert(lines[k as int] == header_line(hv[k as int]));
            if k == 0 {
                assert(join(lines.subrange(0, 0), CR) =~= seq![]);
            }
            assert(out@ =~= start + join(next, CR));
        }
        k = k + 1;
    }
    assert(lines.subrange(0, lines.len() as int) =~= lines);
}

/// The stored form of a response: the status in decimal, the header lines in
/// arrival order, then the body. Fails when a header value does not read as text.
pub fn serialize_http_response(
    status: u16,
    headers: &Vec<(Vec<u8>, Vec<u8>)>,
    body: &[u8],
) -> (r: Result<Vec<u8>, MyError>)
    ensures
        r is Ok <==> all_values_text(header_view(headers@)),
        r matches Ok(b) ==> b@ == record_form(status as nat, header_view(headers@), body@),
        r matches Err(e) ==> e == MyError::HeaderToStr,
{
    let ghost hv = header_view(headers@);
    let mut i: usize = 0;
    while i < headers.len()
        invariant
            i <= headers@.len(),
            hv == header_view(headers@),
            forall|j: int| 0 <= j < i ==> is_text(#[trigger] hv[j].1),
        decreases headers@.len() - i,
    {
        if !is_text_exec(headers[i].1.as_slice()) {
            assert(hv[i as int].1 == headers@[i as int].1@);
            return Err(MyError::HeaderToStr);
        }
        i = i + 1;
    }
    let mut out: Vec<u8> = Vec::new();
    push_decimal(&mut out, status);
    out.push(LF);
    push_header_lines(&mut out, headers);
    out.push(LF);
    push_all(&mut out, body);
    assert(out@ =~= record_form(status as nat, hv, body@));
    Ok(out)
}

/// The first index in `from..to` that holds `b`, or `to`.
fn find_byte(s: &[u8], from: usize, to: usize, b: u8) -> (r: usize)
    requires
        from <= to <= s@.len(),
    ensures
        from <= r <= to,
        forall|k: int| from <= k < r ==> s@[k] != b,
        r < to ==> s@[r as int] == b,
{
    let mut i: usize = from;
    while i < to && s[i] != b
        invariant
            from <= i <= to,
            to <= s@.len(),
            forall|k: int| from <= k < i ==> s@[k] != b,
        decreases to - i,
    {
        i = i + 1;
    }
    i
}

fn is_token_exec(b: u8) -> (r: bool)
    ensures
        r == is_token_byte(b),
{
    (48 <= b && b <= 57) || (65 <= b && b <= 90) || (97 <= b && b <= 122) || b == 33 || b == 35
        || b == 36 || b == 37 || b == 38 || b == 39 || b == 42 || b == 43 || b == 45 || b == 46
        || b == 94 || b == 95 || b == 96 || b == 124 || b == 126
}

/// Tells whether `s` is a valid header name.
pub fn is_name_exec(s: &[u8]) -> (r: bool)
    ensures
        r == is_name(s@),
{
    if s.len() == 0 {
        return false;
    }
    let mut i: usize = 0;
    while i < s.len()
        invariant
            i <= s@.len(),
            forall|j: int| 0 <= j < i ==> is_token_byte(#[trigger] s@[j]),
        decreases s@.len() - i,
    {
        if !is_token_exec(s[i]) {
            return false;
        }
        i = i + 1;
    }
    true
}

fn parse_line(s: &[u8], from: usize, to: usize) -> (r: Option<(Vec<u8>, Vec<u8>)>)
    requires
        from <= to <= s@.len(),
    ensures
        parse_header_line(s@.subrange(from as int, to as int)) == match r {
            Some(h) => Some((h.0@, h.1@)),
            None => None,
        },
{
    let ghost line = s@.subrange(from as int, to as int);
    let t = find_byte(s, from, to, TAB);
    proof {
        lemma_index_of(line, TAB, t - from);
    }
    if t == to {
        return None;
    }
    let name = copy_range(s, from, t);
    let value = copy_range(s, t + 1, to);
    assert(name@ =~= line.subrange(0, t - from));
    assert(value@ =~= line.subrange(t - from + 1, line.len() as int));
    if !is_name_exec(name.as_slice()) || !is_text_exec(value.as_slice()) {
        return None;
    }
    Some((to_lower(name.as_slice()), value))
}

fn parse_header_section(s: &[u8], from: usize, to: usize) -> (r: Option<Vec<(Vec<u8>, Vec<u8>)>>)
    requires
        from <= to <= s@.len(),
    ensures
        parse_headers(s@.subrange(from as int, to as int)) == match r {
            Some(hs) => Some(header_view(hs@)),
            None => None,
        },
{
    let ghost hdr = s@.subrange(from as int, to as int);
    let mut acc: Vec<(Vec<u8>, Vec<u8>)> = Vec::new();
    if from == to {
        assert(header_view(acc@) =~= seq![]);
        return Some(acc);
    }
    let mut pos: usize = from;
    loop
        invariant
            from <= pos <= to,
            to <= s@.len(),
            hdr == s@.subrange(from as int, to as int),
            hdr.len() > 0,
            parse_lines(split_all(hdr, CR)) == match parse_lines(split_all(s@.subrange(pos as int, to as int), CR)) {
                Some(t) => Some(header_view(acc@) + t),
                None => None::<Seq<(Seq<u8>, Seq<u8>)>>,
            },
        decreases to - pos,
    {
        let ghost rest = s@.subrange(pos as int, to as int);
        let e = find_byte(s, pos, to, CR);
        proof {
            lemma_index_of(rest, CR, e - pos);
        }
        let parsed = parse_line(s, pos, e);
        proof {
            assert(rest.subrange(0, e - pos) =~= s@.subrange(pos as int, e as int));
            if e < to {
                assert(rest.subrange(e - pos + 1, rest.len() as int) =~= s@.subrange(e + 1, to as int));
                let segs = split_all(rest, CR);
                let tail = split_all(s@.subrange(e + 1, to as int), CR);
                assert(segs == seq![s@.subrange(pos as int, e as int)] + tail);
                assert(segs[0] == s@.subrange(pos as int, e as int));
                assert(segs.drop_first() =~= tail);
            } else {
                assert(rest.subrange(0, e - pos) =~= rest);
                let segs = split_all(rest, CR);
                assert(segs == seq![rest]);
                assert(segs.drop_first() =~= seq![]);
            }
        }
        match parsed {
            None => {
                return None;
            },
            Some(h) => {
                let ghost before = header_view(acc@);
                acc.push(h);
                proof {
                    assert(header_view(acc@) =~= before.push((h.0@, h.1@)));
                }
                if e == to {
                    proof {
                        assert(header_view(acc@) =~= before + seq![(h.0@, h.1@)]);
                        let segs = split_all(rest, CR);
                        assert(segs[0] == s@.subrange(pos as int, e as int));
                        assert(parse_lines(segs.drop_first()) == Some(Seq::<(Seq<u8>, Seq<u8>)>::empty()));
                        assert(parse_lines(segs) == Some(seq![(h.0@, h.1@)] + Seq::<(Seq<u8>, Seq<u8>)>::empty()));
                        assert(seq![(h.0@, h.1@)] + Seq::<(Seq<u8>, Seq<u8>)>::empty() =~= seq![(h.0@, h.1@)]);
                    }
                    return Some(acc);
                }
                proof {
                    let tail = split_all(s@.subrange(e + 1, to as int), CR);
                    match parse_lines(tail) {
                        Some(t) => {
                            assert(before + (seq![(h.0@, h.1@)] + t) =~= header_view(acc@) + t);
                        },
                        None => {},
                    }
                }
                pos = e + 1;
            },
        }
    }
}

/// Decodes a stored response. A record that does not have the shape of
/// `record_form` (fewer than three sections, a status that is not a three-digit
/// code, a header line without a name, a tab and a text value) is corrupted.
pub fn deserialize_http_response(data: &[u8]) -> (r: Result<Response, MyError>)
    ensures
        match parse_record(data@) {
            Some((st, hs, b)) => r matches Ok(resp) && resp.status as nat == st && header_view(
                resp.headers@,
            ) == hs && resp.body@ == b,
            None => r == Err::<Response, MyError>(MyError::MyCorruptedDB(MyCorruptedDBError {})),
        },
{
    let corrupted = MyError::MyCorruptedDB(MyCorruptedDBError {});
    let n = data.len();
    let i1 = find_byte(data, 0, n, LF);
    proof {
        lemma_index_of(data@, LF, i1 as int);
    }
    if i1 == n {
        return Err(corrupted);
    }
    let i2 = find_byte(data, i1 + 1, n, LF);
    let ghost rest = data@.subrange(i1 + 1, n as int);
    proof {
        lemma_index_of(rest, LF, i2 - i1 - 1);
    }
    if i2 == n {
        return Err(corrupted);
    }
    proof {
        assert(rest.subrange(0, i2 - i1 - 1) =~= data@.subrange(i1 + 1, i2 as int));
        assert(rest.subrange(i2 - i1, rest.len() as int) =~= data@.subrange(i2 + 1, n as int));
    }
    let status = parse_status(data, 0, i1);
    match status {
        None => {
            return Err(corrupted);
        },
        Some(code) => {
            let headers = parse_header_section(data, i1 + 1, i2);
            match headers {
                None => {
                    return Err(corrupted);
                },
                Some(hs) => {
                    let body = copy_range(data, i2 + 1, n);
                    Ok(Response { status: code, headers: hs, body })
                },
            }
        },
    }
}

/// Reads a status code from `s[from..to]`: decimal digits with a value from 100 to 999.
fn parse_status(s: &[u8], from: usize, to: usize) -> (r: Option<u16>)
    requires
        from <= to <= s@.len(),
    ensures
        ({
            let st = s@.subrange(from as int, to as int);
            r == if is_digits(st) && 100 <= digits_value(st) <= 999 {
                Some(digits_value(st) as u16)
            } else {
                None
            }
        }),
{
    let ghost st = s@.subrange(from as int, to as int);
    if from == to {
        return None;
    }
    let mut acc: u32 = 0;
    let mut i: usize = from;
    while i < to
        invariant
            from <= i <= to,
            to <= s@.len(),
            st == s@.subrange(from as int, to as int),
            forall|k: int| 0 <= k < i - from ==> is_digit(#[trigger] st[k]),
            acc as nat == if digits_value(st.subrange(0, i - from)) < 1000 {
                digits_value(st.subrange(0, i - from))
            } else {
                1000
            },
        decreases to - i,
    {
        let b = s[i];
        if !(48 <= b && b <= 57) {
            assert(st[i - from] == b);
            return None;
        }
        proof {
            let p = st.subrange(0, i - from);
            let q = st.subrange(0, i - from + 1);
            assert(q.drop_last() =~= p);
            assert(q.last() == b);
        }
        let next: u32 = acc * 10 + (b - 48) as u32;
        acc = if next > 1000 {
            1000
        } else {
            next
        };
        i = i + 1;
    }
    assert(st.subrange(0, st.len() as int) =~= st);
    if 100 <= acc && acc <= 999 {
        Some(acc as u16)
    } else {
        None
    }
}

} // verus!
