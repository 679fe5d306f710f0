//! The decisions of the request pipeline: admission, where the upstream is,
//! the headers each way, what is stored and what is replayed, and the pacing
//! of the authorization callback.

use vstd::prelude::*;
use crate::errors::MyError;
use crate::cache::{Entry, lock_result, after_eviction, after_release, after_store, after_lock, lemma_single_fetch};
use crate::bytes::{push_all, bytes_eq, copy_range};
use crate::codec::{header_view, is_text, is_text_exec};
use crate::record::{Response, parse_record, record_form, deserialize_http_response, serialize_http_response};
use crate::policy::{HeaderRules, CacheOutcome, upstream_headers, client_headers, request_headers_for, response_headers_for, text_bytes};

verus! {

/// `Bearer `.
pub open spec fn bearer() -> Seq<u8> {
    seq![66u8, 101u8, 97u8, 114u8, 101u8, 114u8, 32u8]
}

/// `https://`.
pub open spec fn https_scheme() -> Seq<u8> {
    seq![104u8, 116u8, 116u8, 112u8, 115u8, 58u8, 47u8, 47u8]
}

/// Whether a request passes the shared-secret check: no secret is set, or the
/// key header holds exactly `Bearer ` and the secret.
pub open spec fn admitted(secret: Option<Seq<u8>>, passed: Option<Seq<u8>>) -> bool {
    match secret {
        None => true,
        Some(s) => passed == Some(bearer() + s),
    }
}

/// The first line of defence: checks the key header against the configured
/// secret. A missing or wrong key is refused alike.
pub fn check_secret(our_secret: &Option<String>, passed_key: Option<&[u8]>) -> (r: bool)
    ensures
        r == admitted(
            match our_secret {
                Some(s) => Some(text_bytes(*s)),
                None => None,
            },
            match passed_key {
                Some(k) => Some(k@),
                None => None,
            },
        ),
{
    match our_secret {
        None => true,
        Some(s) => match passed_key {
            None => false,
            Some(k) => {
                let mut expected: Vec<u8> = vec![66u8, 101u8, 97u8, 114u8, 101u8, 114u8, 32u8];
                assert(expected@ =~= bearer());
                push_all(&mut expected, s.as_str().as_bytes());
                bytes_eq(expected.as_slice(), k)
            },
        },
    }
}

/// The upstream URL for a request: the fixed prefix when one is set, else
/// `https://` and the `Host` header; then the path and query.
pub open spec fn upstream_url_of(
    prefix: Option<Seq<u8>>,
    host: Option<Seq<u8>>,
    path_and_query: Seq<u8>,
) -> Option<Seq<u8>> {
    match prefix {
        Some(p) => Some(p + path_and_query),
        None => match host {
            Some(h) => Some(https_scheme() + h + path_and_query),
            None => None,
        },
    }
}

/// `https://` and the `Host` header. Fails when the header is missing or does
/// not read as text.
pub fn obtain_upstream_base_url(host: Option<&[u8]>) -> (r: Result<Vec<u8>, MyError>)
    ensures
        match host {
            None => r == Err::<Vec<u8>, MyError>(MyError::MissingHost),
            Some(h) => if is_text(h@) {
                r matches Ok(u) && u@ == https_scheme() + h@
            } else {
                r == Err::<Vec<u8>, MyError>(MyError::HeaderToStr)
            },
        },
{
    match host {
        None => Err(MyError::MissingHost),
        Some(h) => {
            if !is_text_exec(h) {
                return Err(MyError::HeaderToStr);
            }
            let mut url: Vec<u8> = vec![104u8, 116u8, 116u8, 112u8, 115u8, 58u8, 47u8, 47u8];
            assert(url@ =~= https_scheme());
            push_all(&mut url, h);
            Ok(url)
        },
    }
}

/// Where a request goes upstream: the fixed prefix, or the one made from the
/// `Host` header, followed by the path and query.
pub fn upstream_url(prefix: Option<&[u8]>, host: Option<&[u8]>, path_and_query: &[u8]) -> (r: Result<Vec<u8>, MyError>)
    ensures
        prefix is None && host is Some && !is_text(host.unwrap()@) ==> r == Err::<Vec<u8>, MyError>(MyError::HeaderToStr),
        !(prefix is None && host is Some && !is_text(host.unwrap()@)) ==> match upstream_url_of(
            match prefix {
                Some(p) => Some(p@),
                None => None,
            },
            match host {
                Some(h) => Some(h@),
                None => None,
            },
            path_and_query@,
        ) {
            Some(u) => r matches Ok(v) && v@ == u,
            None => r == Err::<Vec<u8>, MyError>(MyError::MissingHost),
        },
{
    let mut url = match prefix {
        Some(p) => copy_range(p, 0, p.len()),
        None => obtain_upstream_base_url(host)?,
    };
    proof {
        if let Some(p) = prefix {
            assert(url@ =~= p@);
        }
    }
    push_all(&mut url, path_and_query);
    Ok(url)
}

/// The host part of a URL as http's URI parser reads it.
pub uninterp spec fn uri_host_of(url: Seq<u8>) -> Option<Seq<u8>>;

/// Relies on http's `Uri::try_from` on bytes and `Uri::host`: the host of the
/// URL, or none when it does not parse or has no authority. The result depends
/// on the bytes alone.
#[verifier::external_body]
fn uri_host(url: &[u8]) -> (r: Option<Vec<u8>>)
    ensures
        r matches Some(h) ==> uri_host_of(url@) == Some(h@),
        r is None ==> uri_host_of(url@) is None,
{
    match http::Uri::try_from(url) {
        Ok(u) => u.host().map(|h| h.as_bytes().to_vec()),
        Err(_) => None,
    }
}

/// The upstream host of `url` and the headers to send there. Fails when the
/// URL has no host.
pub fn prepare_request(url: &[u8], headers: &Vec<(Vec<u8>, Vec<u8>)>, rules: &HeaderRules) -> (r: Result<
    (Vec<(Vec<u8>, Vec<u8>)>, Vec<u8>),
    MyError,
>)
    ensures
        match uri_host_of(url@) {
            None => r == Err::<(Vec<(Vec<u8>, Vec<u8>)>, Vec<u8>), MyError>(MyError::NoHost),
            Some(h) => r matches Ok((hs, host)) && host@ == h && header_view(hs@) == upstream_headers(
                *rules,
                h,
                header_view(headers@),
            ),
        },
{
    match uri_host(url) {
        None => Err(MyError::NoHost),
        Some(host) => {
            let hs = request_headers_for(rules, host.as_slice(), headers);
            Ok((hs, host))
        },
    }
}

/// A response as it goes to the client: status and body as they are, headers
/// after the rules for `host` and the optional annotations.
pub fn respond(
    resp: &Response,
    rules: &HeaderRules,
    host: &[u8],
    marker: Option<CacheOutcome>,
    forwarded: Option<&[u8]>,
) -> (r: Response)
    ensures
        r.status == resp.status,
        r.body@ == resp.body@,
        header_view(r.headers@) == client_headers(
            *rules,
            host@,
            header_view(resp.headers@),
            marker,
            match forwarded {
                Some(a) => Some(a@),
                None => None,
            },
        ),
{
    let headers = response_headers_for(rules, host, &resp.headers, marker, forwarded);
    let body = copy_range(resp.body.as_slice(), 0, resp.body.len());
    assert(body@ =~= resp.body@);
    Response { status: resp.status, headers, body }
}

/// A cache hit: the stored record decoded and passed through the response
/// rules, with the `Hit` marker when `show_hit_miss` is set. Fails on a
/// corrupted record.
pub fn replay(record: &[u8], rules: &HeaderRules, host: &[u8], show_hit_miss: bool) -> (r: Result<Response, MyError>)
    ensures
        match parse_record(record@) {
            None => r is Err,
            Some((st, hs, body)) => r matches Ok(resp) && resp.status as nat == st && resp.body@ == body
                && header_view(resp.headers@) == client_headers(
                *rules,
                host@,
                hs,
                if show_hit_miss {
                    Some(CacheOutcome::Hit)
                } else {
                    None
                },
                None,
            ),
        },
{
    let stored = deserialize_http_response(record)?;
    let marker = if show_hit_miss {
        Some(CacheOutcome::Hit)
    } else {
        None
    };
    Ok(respond(&stored, rules, host, marker, None))
}

/// A cache miss: the record to store for the upstream response, and the
/// response for the client with the `Miss` marker when `show_hit_miss` is set
/// and the forwarded-for header when an address is given. Fails when an
/// upstream header value does not read as text.
pub fn fresh(
    upstream: &Response,
    rules: &HeaderRules,
    host: &[u8],
    show_hit_miss: bool,
    forwarded: Option<&[u8]>,
) -> (r: Result<(Vec<u8>, Response), MyError>)
    ensures
        r is Ok <==> crate::codec::all_values_text(header_view(upstream.headers@)),
        r matches Ok((rec, resp)) ==> rec@ == record_form(upstream.status as nat, header_view(upstream.headers@), upstream.body@)
            && resp.status == upstream.status && resp.body@ == upstream.body@ && header_view(resp.headers@)
            == client_headers(
            *rules,
            host@,
            header_view(upstream.headers@),
            if show_hit_miss {
                Some(CacheOutcome::Miss)
            } else {
                None
            },
            match forwarded {
                Some(a) => Some(a@),
                None => None,
            },
        ),
        r matches Err(e) ==> e == MyError::HeaderToStr,
{
    let rec = serialize_http_response(upstream.status, &upstream.headers, upstream.body.as_slice())?;
    let marker = if show_hit_miss {
        Some(CacheOutcome::Miss)
    } else {
        None
    };
    Ok((rec, respond(upstream, rules, host, marker, forwarded)))
}

/// What the authorization callback answered.
#[derive(Debug, Clone, Copy, PartialEq, Eq, Structural)]
pub enum CallbackOutcome {
    /// The oracle authorized the request.
    Authorized,
    /// The oracle ran and refused, or its answer did not decode.
    Refused,
    /// The call did not get through.
    TransportFailure,
}

/// The pacing of the authorization callback, in milliseconds.
#[derive(Debug, Clone, Copy, PartialEq, Eq, Structural)]
pub struct CallbackPacing {
    pub pause_at_start: u64,
    pub pause_between_calls: u64,
    pub timing_out_calls_after: u64,
}

/// What to do after an answer of the callback.
#[derive(Debug, Clone, Copy, PartialEq, Eq, Structural)]
pub enum CallbackStep {
    /// Go on to fetch from the upstream.
    Proceed,
    /// Refuse the request; no retry.
    Refuse,
    /// Wait this many milliseconds, then call again.
    RetryAfter(u64),
    /// Give up with a gateway timeout.
    TimedOut,
}

pub open spec fn callback_step_of(o: CallbackOutcome, elapsed: nat, p: CallbackPacing) -> CallbackStep {
    match o {
        CallbackOutcome::Authorized => CallbackStep::Proceed,
        CallbackOutcome::Refused => CallbackStep::Refuse,
        CallbackOutcome::TransportFailure => if elapsed > p.timing_out_calls_after {
            CallbackStep::TimedOut
        } else {
            CallbackStep::RetryAfter(p.pause_between_calls)
        },
    }
}

/// Decides the next step after the callback answered at `now`, the first call
/// having been made at `started`. Only a failure to get through is retried,
/// and only until the time limit since the first call has passed.
pub fn callback_step(outcome: CallbackOutcome, started: u64, now: u64, pacing: CallbackPacing) -> (r: CallbackStep)
    ensures
        r == callback_step_of(outcome, if now >= started { (now - started) as nat } else { 0 }, pacing),
{
    let elapsed: u64 = if now >= started {
        now - started
    } else {
        0
    };
    match outcome {
        CallbackOutcome::Authorized => CallbackStep::Proceed,
        CallbackOutcome::Refused => CallbackStep::Refuse,
        CallbackOutcome::TransportFailure => if elapsed > pacing.timing_out_calls_after {
            CallbackStep::TimedOut
        } else {
            CallbackStep::RetryAfter(pacing.pause_between_calls)
        },
    }
}

/// Replaying the record that `fresh` stores for an upstream response gives
/// that response's status, headers and body back, and the client then gets
/// the headers it got on the miss, with `Hit` in place of `Miss`.
pub proof fn lemma_hit_replays_miss(
    rules: HeaderRules,
    host: Seq<u8>,
    status: nat,
    hs: Seq<(Seq<u8>, Seq<u8>)>,
    body: Seq<u8>,
)
    requires
        100 <= status <= 999,
        crate::record::storable_headers(hs),
    ensures
        parse_record(record_form(status, hs, body)) == Some((status, hs, body)),
        client_headers(rules, host, hs, Some(CacheOutcome::Hit), None) =~= client_headers(rules, host, hs, None, None)
            + seq![(crate::policy::marker_name(), crate::policy::marker_value(CacheOutcome::Hit))],
        client_headers(rules, host, hs, Some(CacheOutcome::Miss), None) =~= client_headers(rules, host, hs, None, None)
            + seq![(crate::policy::marker_name(), crate::policy::marker_value(CacheOutcome::Miss))],
{
    crate::record::lemma_record_round_trip(status, hs, body);
}

/// What a request does once it holds the slot of its key.
#[derive(Debug, Clone, Copy, PartialEq, Eq, Structural)]
pub enum SlotAction {
    /// A record is stored: give the slot back and replay it.
    Replay,
    /// Nothing is stored and a callback is configured: ask it, holding the
    /// slot, so that duplicate requests never ask twice.
    AskCallback,
    /// Nothing is stored: fetch from the upstream, holding the slot.
    Fetch,
}

pub open spec fn slot_action(has_record: bool, callback_configured: bool) -> SlotAction {
    if has_record {
        SlotAction::Replay
    } else if callback_configured {
        SlotAction::AskCallback
    } else {
        SlotAction::Fetch
    }
}

/// Decides the step after the slot is taken: only a miss reaches the callback
/// and the upstream.
pub fn after_slot(has_record: bool, callback_configured: bool) -> (r: SlotAction)
    ensures
        r == slot_action(has_record, callback_configured),
{
    if has_record {
        SlotAction::Replay
    } else if callback_configured {
        SlotAction::AskCallback
    } else {
        SlotAction::Fetch
    }
}

/// Identical requests for a key that nothing is stored under: the one that
/// takes the slot first finds no record, so it alone asks the callback (when
/// one is configured) and fetches; the others wait while it holds the slot and,
/// once it has stored and released before the record expires, each finds the
/// record and replays it without asking or fetching.
pub proof fn lemma_identical_requests_fetch_once(
    m: Map<Seq<u8>, Entry>,
    k: Seq<u8>,
    v: Seq<u8>,
    started: u64,
    stored_at: u64,
    th: int,
    callback_configured: bool,
)
    requires
        !m.contains_key(k),
        th <= stored_at,
    ensures
        ({
            let first = after_eviction(m, th);
            let held = after_lock(first, k, started);
            let done = after_release(after_store(held, k, v, stored_at), k);
            let second = after_eviction(done, th);
            let third = after_eviction(after_release(after_lock(second, k, stored_at), k), th);
            &&& lock_result(first, k) == Some(None::<Seq<u8>>)
            &&& slot_action(false, callback_configured) != SlotAction::Replay
            &&& lock_result(after_eviction(held, th), k) is None
            &&& lock_result(second, k) == Some(Some(v))
            &&& lock_result(third, k) == Some(Some(v))
            &&& slot_action(true, callback_configured) == SlotAction::Replay
        }),
{
    let first = after_eviction(m, th);
    let held = after_lock(first, k, started);
    lemma_single_fetch(m, held, k, v, stored_at, th);
}

} // verus!
