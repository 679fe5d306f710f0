use joining_proxy::config::{RequestHeaders, ResponseHeaders};
use joining_proxy::errors::{InvalidHeaderNameError, InvalidHeaderValueError, MyError};
use joining_proxy::pipeline::{fresh, prepare_request, replay};
use joining_proxy::policy::{request_headers_for, response_headers_for, CacheOutcome, HeaderRules};
use joining_proxy::record::Response;

fn h(name: &str, value: &str) -> (Vec<u8>, Vec<u8>) {
    (name.as_bytes().to_vec(), value.as_bytes().to_vec())
}

fn s(x: &str) -> String {
    x.to_string()
}

fn response_config() -> ResponseHeaders {
    ResponseHeaders {
        remove: vec![s("X-Debug")],
        add: vec![],
        remove_per_host: vec![],
        add_per_host: vec![(s("example.com"), vec![(s("X-Region"), s("eu"))])],
        show_hit_miss: false,
        add_forwarded_from_header: false,
    }
}

#[test]
fn per_host_addition_and_global_removal() {
    let rules = HeaderRules::for_responses(&response_config()).unwrap();
    let upstream = vec![h("x-debug", "1"), h("content-type", "text/plain"), h("connection", "close")];
    let to_example = response_headers_for(&rules, b"example.com", &upstream, None, None);
    assert_eq!(to_example, vec![h("content-type", "text/plain"), h("x-region", "eu")]);
    let to_other = response_headers_for(&rules, b"other.org", &upstream, None, None);
    assert_eq!(to_other, vec![h("content-type", "text/plain")]);
}

#[test]
fn policy_applies_on_hit_and_miss() {
    let rules = HeaderRules::for_responses(&response_config()).unwrap();
    let upstream = Response {
        status: 201,
        headers: vec![h("x-debug", "1"), h("transfer-encoding", "chunked"), h("etag", "e")],
        body: b"b".to_vec(),
    };
    let (record, miss) = fresh(&upstream, &rules, b"example.com", true, Some(b"10.0.0.1")).unwrap();
    assert_eq!(
        miss.headers,
        vec![h("etag", "e"), h("x-region", "eu"), h("x-joinproxy-response", "Miss"), h("x-forwarded-for", "10.0.0.1")]
    );
    let hit = replay(&record, &rules, b"example.com", true).unwrap();
    assert_eq!(hit.headers, vec![h("etag", "e"), h("x-region", "eu"), h("x-joinproxy-response", "Hit")]);
    assert_eq!(hit.status, 201);
    assert_eq!(hit.body, b"b".to_vec());
}

#[test]
fn request_rules_keep_host() {
    let cfg = RequestHeaders {
        remove: vec![s("Host"), s("Cookie")],
        add: vec![(s("X-Token"), s("t"))],
        remove_per_host: vec![(s("example.com"), vec![s("accept")])],
        add_per_host: vec![(s("example.com"), vec![(s("X-A"), s("1"))]), (s("example.com"), vec![(s("X-B"), s("2"))])],
    };
    let rules = HeaderRules::for_requests(&cfg).unwrap();
    let inbound = vec![h("host", "example.com"), h("cookie", "c"), h("accept", "*/*"), h("x-keep", "k")];
    let out = request_headers_for(&rules, b"example.com", &inbound);
    assert_eq!(out, vec![h("host", "example.com"), h("x-keep", "k"), h("x-token", "t"), h("x-a", "1")]);
    let out = request_headers_for(&rules, b"else.net", &inbound);
    assert_eq!(out, vec![h("host", "example.com"), h("accept", "*/*"), h("x-keep", "k"), h("x-token", "t")]);
}

#[test]
fn prepare_request_reads_host_from_url() {
    let cfg = RequestHeaders {
        remove: vec![],
        add: vec![],
        remove_per_host: vec![],
        add_per_host: vec![(s("example.com"), vec![(s("X-Region"), s("eu"))])],
    };
    let rules = HeaderRules::for_requests(&cfg).unwrap();
    let (hs, host) = prepare_request(b"https://example.com:8443/a?b=c", &vec![h("x", "1")], &rules).unwrap();
    assert_eq!(host, b"example.com".to_vec());
    assert_eq!(hs, vec![h("x", "1"), h("x-region", "eu")]);
    assert_eq!(prepare_request(b"/relative", &vec![], &rules).err(), Some(MyError::NoHost));
}

#[test]
fn invalid_configured_names_and_values() {
    let mut cfg = RequestHeaders { remove: vec![s("bad name")], add: vec![], remove_per_host: vec![], add_per_host: vec![] };
    assert_eq!(
        HeaderRules::for_requests(&cfg).err(),
        Some(MyError::InvalidHeaderName(InvalidHeaderNameError {}))
    );
    cfg.remove = vec![];
    cfg.add = vec![(s("x-ok"), s("line\nbreak"))];
    assert_eq!(
        HeaderRules::for_requests(&cfg).err(),
        Some(MyError::InvalidHeaderValue(InvalidHeaderValueError {}))
    );
    cfg.add = vec![(s("x:bad"), s("line\nbreak"))];
    assert_eq!(
        HeaderRules::for_requests(&cfg).err(),
        Some(MyError::InvalidHeaderName(InvalidHeaderNameError {}))
    );
}

#[test]
fn marker_header_values() {
    let rules = HeaderRules { remove: vec![], add: vec![], remove_per_host: vec![], add_per_host: vec![] };
    let out = response_headers_for(&rules, b"h", &vec![], Some(CacheOutcome::Hit), None);
    assert_eq!(out, vec![h("x-joinproxy-response", "Hit")]);
    let out = response_headers_for(&rules, b"h", &vec![], Some(CacheOutcome::Miss), None);
    assert_eq!(out, vec![h("x-joinproxy-response", "Miss")]);
}

#[test]
fn configured_hop_by_hop_additions_are_dropped() {
    let cfg = ResponseHeaders {
        remove: vec![],
        add: vec![(s("Connection"), s("keep-alive")), (s("X-Keep"), s("1"))],
        remove_per_host: vec![],
        add_per_host: vec![(s("example.com"), vec![(s("TE"), s("trailers")), (s("X-Host"), s("2"))])],
        show_hit_miss: false,
        add_forwarded_from_header: false,
    };
    let rules = HeaderRules::for_responses(&cfg).unwrap();
    let out = response_headers_for(&rules, b"example.com", &vec![h("upgrade", "h2c"), h("a", "b")], None, None);
    assert_eq!(out, vec![h("a", "b"), h("x-keep", "1"), h("x-host", "2")]);
}
