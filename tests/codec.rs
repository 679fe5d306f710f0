use joining_proxy::codec::{cache_key, group_headers, serialize_http_request};
use joining_proxy::errors::MyError;
use joining_proxy::record::{deserialize_http_response, serialize_http_response};

fn h(name: &str, value: &str) -> (Vec<u8>, Vec<u8>) {
    (name.as_bytes().to_vec(), value.as_bytes().to_vec())
}

fn hex(b: &[u8]) -> String {
    b.iter().map(|x| format!("{:02x}", x)).collect()
}

#[test]
fn request_form_groups_and_sorts_headers() {
    let headers = vec![h("x-b", "2"), h("Accept", "a"), h("x-b", "3"), h("host", "example.com")];
    let form = serialize_http_request(b"GET", b"/a?q=1", &headers, b"body").unwrap();
    assert_eq!(form, b"GET\n/a?q=1\naccept\ta\rhost\texample.com\rx-b\t2\t3\nbody".to_vec());
}

#[test]
fn request_form_without_headers() {
    let form = serialize_http_request(b"POST", b"/", &vec![], b"").unwrap();
    assert_eq!(form, b"POST\n/\n\n".to_vec());
}

#[test]
fn request_form_refuses_binary_header_value() {
    let headers = vec![(b"x-bin".to_vec(), vec![0x80u8, 0x01])];
    assert_eq!(serialize_http_request(b"GET", b"/", &headers, b""), Err(MyError::HeaderToStr));
    assert_eq!(cache_key(b"GET", b"/", &headers, b""), Err(MyError::HeaderToStr));
}

#[test]
fn grouping_keeps_arrival_order_of_values() {
    let gs = group_headers(&vec![h("B", "1"), h("a", "2"), h("b", "3")]);
    assert_eq!(gs.len(), 2);
    assert_eq!(gs[0].0, b"a".to_vec());
    assert_eq!(gs[1].0, b"b".to_vec());
    assert_eq!(gs[1].1, vec![b"1".to_vec(), b"3".to_vec()]);
}

#[test]
fn cache_key_is_sha256_of_canonical_form() {
    let k = cache_key(b"", b"", &vec![], b"").unwrap();
    assert_eq!(hex(&k), "6a3cf5192354f71615ac51034b3e97c20eda99643fcaf5bbe6d41ad59bd12167");
    let k = cache_key(b"GET", b"https://example.com/a", &vec![h("X", "b")], b"c").unwrap();
    assert_eq!(hex(&k), "33077b954b8ac3a3ff8488e64e34bd0041fb0d834f18d92106903a9af8e03f0d");
}

#[test]
fn cache_key_ignores_interleaving_of_names() {
    let r1 = vec![h("a", "1"), h("b", "x"), h("a", "2"), h("c", "y")];
    let r2 = vec![h("c", "y"), h("a", "1"), h("a", "2"), h("B", "x")];
    let k1 = cache_key(b"GET", b"/p", &r1, b"body").unwrap();
    let k2 = cache_key(b"GET", b"/p", &r2, b"body").unwrap();
    assert_eq!(k1, k2);
}

#[test]
fn cache_key_changes_with_any_part() {
    let base = vec![h("a", "1"), h("b", "2")];
    let k = cache_key(b"GET", b"/p", &base, b"body").unwrap();
    let others = vec![
        cache_key(b"POST", b"/p", &base, b"body").unwrap(),
        cache_key(b"GET", b"/q", &base, b"body").unwrap(),
        cache_key(b"GET", b"/p", &vec![h("a", "1"), h("b", "3")], b"body").unwrap(),
        cache_key(b"GET", b"/p", &base, b"bodx").unwrap(),
        cache_key(b"GET", b"/p", &base, b"").unwrap(),
        cache_key(b"GET", b"/p", &vec![h("a", "1")], b"body").unwrap(),
        cache_key(b"GET", b"/p", &vec![h("b", "2"), h("a", "1"), h("a", "1")], b"body").unwrap(),
    ];
    for (i, o) in others.iter().enumerate() {
        assert_ne!(&k, o, "variant {}", i);
        for o2 in others.iter().skip(i + 1) {
            assert_ne!(o, o2);
        }
    }
}

#[test]
fn record_round_trip() {
    let headers = vec![h("set-cookie", "a=1"), h("content-type", "text/plain"), h("set-cookie", "b=2")];
    for status in [200u16, 404, 500] {
        for body in [b"".to_vec(), b"line1\nline2\r\t".to_vec()] {
            let rec = serialize_http_response(status, &headers, &body).unwrap();
            let resp = deserialize_http_response(&rec).unwrap();
            assert_eq!(resp.status, status);
            assert_eq!(resp.headers, headers);
            assert_eq!(resp.body, body);
        }
    }
}

#[test]
fn record_round_trip_without_headers() {
    let rec = serialize_http_response(204, &vec![], b"").unwrap();
    assert_eq!(rec, b"204\n\n".to_vec());
    let resp = deserialize_http_response(&rec).unwrap();
    assert_eq!(resp.status, 204);
    assert!(resp.headers.is_empty());
    assert!(resp.body.is_empty());
}

#[test]
fn record_layout() {
    let rec = serialize_http_response(404, &vec![h("a", "1"), h("b", "x\ty")], b"nf").unwrap();
    assert_eq!(rec, b"404\na\t1\rb\tx\ty\nnf".to_vec());
}

#[test]
fn record_refuses_binary_header_value() {
    let headers = vec![(b"x".to_vec(), vec![1u8])];
    assert_eq!(serialize_http_response(200, &headers, b""), Err(MyError::HeaderToStr));
}

#[test]
fn corrupted_records_are_refused() {
    let bad: Vec<&[u8]> = vec![
        b"",
        b"200",
        b"200\na\t1",
        b"abc\n\nbody",
        b"99\n\n",
        b"1000\n\n",
        b"200\nnotab\n",
        b"200\na\t1\r\n",
        b"200\n\tv\n",
        b"200\nbad name\tv\n",
    ];
    for b in bad {
        assert!(
            matches!(deserialize_http_response(b), Err(MyError::MyCorruptedDB(_))),
            "{:?}",
            b
        );
    }
}

#[test]
fn decoding_lower_cases_names() {
    let resp = deserialize_http_response(b"0200\nContent-Type\ttext/html\nx").unwrap();
    assert_eq!(resp.status, 200);
    assert_eq!(resp.headers, vec![h("content-type", "text/html")]);
    assert_eq!(resp.body, b"x".to_vec());
}
