//! Settings of the proxy and their defaults. Durations are in milliseconds.

use vstd::prelude::*;
use vstd::string::StringSliceAdditionalSpecFns;
use crate::errors::MyError;
use crate::record::{is_digit, digits_value};

verus! {

/// Limits on the calls to the upstream, each in milliseconds.
pub struct UpstreamTimeouts {
    pub connect_timeout: Option<u64>,
    pub read_timeout: Option<u64>,
    pub total_timeout: Option<u64>,
}

/// Header rules for the requests sent upstream.
pub struct RequestHeaders {
    pub remove: Vec<String>,
    pub add: Vec<(String, String)>,
    pub remove_per_host: Vec<(String, Vec<String>)>,
    pub add_per_host: Vec<(String, Vec<(String, String)>)>,
}

/// Header rules for the responses sent to clients, and the optional annotations.
pub struct ResponseHeaders {
    pub remove: Vec<String>,
    pub add: Vec<(String, String)>,
    pub remove_per_host: Vec<(String, Vec<String>)>,
    pub add_per_host: Vec<(String, Vec<(String, String)>)>,
    pub show_hit_miss: bool,
    pub add_forwarded_from_header: bool,
}

/// How long a stored response is served, in milliseconds.
pub struct CacheConfig {
    pub cache_timeout: u64,
}

/// Where the proxy listens.
pub struct Serve {
    pub host: String,
    pub port: u16,
    pub https: bool,
    pub cert_file: Option<String>,
    pub key_file: Option<String>,
}

pub fn default_host() -> (r: String)
    ensures
        r@ == "localhost"@,
{
    "localhost".to_owned()
}

pub fn default_port() -> (r: u16)
    ensures
        r == 8080,
{
    8080
}

pub fn default_https() -> (r: bool)
    ensures
        !r,
{
    false
}

pub fn default_show_hit_miss() -> (r: bool)
    ensures
        !r,
{
    false
}

pub fn default_upstream_connect_timeout() -> (r: Option<u64>)
    ensures
        r == Some(10_000u64),
{
    Some(10_000)
}

/// Long, for slow upstreams such as language-model APIs.
pub fn default_upstream_read_timeout() -> (r: Option<u64>)
    ensures
        r == Some(60_000u64),
{
    Some(60_000)
}

/// Long, for slow upstreams such as language-model APIs.
pub fn default_upstream_total_timeout() -> (r: Option<u64>)
    ensures
        r == Some(120_000u64),
{
    Some(120_000)
}

pub fn default_add_forwarded_from_header() -> (r: bool)
    ensures
        !r,
{
    false
}

pub fn default_ic_local() -> (r: bool)
    ensures
        !r,
{
    false
}

/// The length of the run of ASCII digits that `b` starts with.
pub open spec fn digit_run(b: Seq<u8>) -> nat
    decreases b.len(),
{
    if b.len() > 0 && is_digit(b[0]) {
        1 + digit_run(b.drop_first())
    } else {
        0
    }
}

/// Milliseconds in one of each unit: `d`, `h`, `m`, `s`, `ms`.
pub open spec fn unit_millis(u: Seq<u8>) -> Option<nat> {
    if u.len() == 1 && u[0] == 100 {
        Some(86_400_000)
    } else if u.len() == 1 && u[0] == 104 {
        Some(3_600_000)
    } else if u.len() == 1 && u[0] == 109 {
        Some(60_000)
    } else if u.len() == 1 && u[0] == 115 {
        Some(1000)
    } else if u.len() == 2 && u[0] == 109 && u[1] == 115 {
        Some(1)
    } else {
        None
    }
}

/// The milliseconds that a duration such as `90s` or `5m` denotes: a number,
/// then a unit. `None` when the number is missing or does not fit 64 bits, the
/// unit is unknown, or the result does not fit 64 bits.
pub open spec fn duration_millis(b: Seq<u8>) -> Option<nat> {
    let i = digit_run(b) as int;
    let v = digits_value(b.subrange(0, i));
    match unit_millis(b.subrange(i, b.len() as int)) {
        Some(f) => if i > 0 && v <= u64::MAX && v * f <= u64::MAX {
            Some(v * f)
        } else {
            None
        },
        None => None,
    }
}

proof fn lemma_digit_run(b: Seq<u8>, i: int)
    requires
        0 <= i <= b.len(),
        forall|k: int| 0 <= k < i ==> is_digit(#[trigger] b[k]),
        i < b.len() ==> !is_digit(b[i]),
    ensures
        digit_run(b) == i,
    decreases b.len(),
{
    if b.len() > 0 && is_digit(b[0]) {
        lemma_digit_run(b.drop_first(), i - 1);
    }
}

/// Reads a duration written as a number and a unit (`d`, `h`, `m`, `s` or `ms`)
/// into milliseconds.
pub fn extract_duration(s: &str) -> (r: Result<u64, MyError>)
    ensures
        match duration_millis(s.spec_bytes()) {
            Some(ms) => r == Ok::<u64, MyError>(ms as u64),
            None => r == Err::<u64, MyError>(MyError::InvalidDuration),
        },
{
    let b = s.as_bytes();
    let mut i: usize = 0;
    let mut value: u64 = 0;
    let mut too_big: bool = false;
    while i < b.len() && 48 <= b[i] && b[i] <= 57
        invariant
            i <= b@.len(),
            forall|k: int| 0 <= k < i ==> is_digit(#[trigger] b@[k]),
            too_big <==> digits_value(b@.subrange(0, i as int)) > u64::MAX,
            !too_big ==> value as nat == digits_value(b@.subrange(0, i as int)),
        decreases b@.len() - i,
    {
        proof {
            let q = b@.subrange(0, i + 1);
            assert(q.drop_last() =~= b@.subrange(0, i as int));
            assert(q.last() == b@[i as int]);
        }
        let d = (b[i] - 48) as u64;
        if !too_big {
            match value.checked_mul(10) {
                Some(t) => match t.checked_add(d) {
                    Some(n) => {
                        value = n;
                    },
                    None => {
                        too_big = true;
                    },
                },
                None => {
                    too_big = true;
                },
            }
        }
        i = i + 1;
    }
    proof {
        lemma_digit_run(b@, i as int);
    }
    let ghost unit = b@.subrange(i as int, b@.len() as int);
    let rest = b.len() - i;
    let factor: u64 = if rest == 1 && b[i] == 100 {
        86_400_000
    } else if rest == 1 && b[i] == 104 {
        3_600_000
    } else if rest == 1 && b[i] == 109 {
        60_000
    } else if rest == 1 && b[i] == 115 {
        1000
    } else if rest == 2 && b[i] == 109 && b[i + 1] == 115 {
        1
    } else {
        0
    };
    proof {
        if rest >= 1 {
            assert(unit[0] == b@[i as int]);
        }
        if rest >= 2 {
            assert(unit[1] == b@[i + 1]);
        }
        assert(factor as nat == match unit_millis(unit) {
            Some(f) => f,
            None => 0,
        });
    }
    if factor == 0 || i == 0 || too_big {
        return Err(MyError::InvalidDuration);
    }
    match value.checked_mul(factor) {
        Some(ms) => Ok(ms),
        None => Err(MyError::InvalidDuration),
    }
}

} // verus!
