use joining_proxy::cache::{Key, MemCache, Value};
use joining_proxy::codec::cache_key;
use joining_proxy::pipeline::{fresh, replay};
use joining_proxy::policy::HeaderRules;
use joining_proxy::record::Response;

fn no_rules() -> HeaderRules {
    HeaderRules { remove: vec![], add: vec![], remove_per_host: vec![], add_per_host: vec![] }
}

fn marker(resp: &Response) -> Option<Vec<u8>> {
    resp.headers.iter().find(|h| h.0 == b"x-joinproxy-response".to_vec()).map(|h| h.1.clone())
}

#[test]
fn first_lock_is_a_miss_then_a_hit() {
    let mut cache = MemCache::new(1000);
    let mut g = cache.try_lock(Key(b"k"), 10).unwrap();
    assert!(g.peek().is_none());
    cache.store(&mut g, Value(b"rec"), 10);
    assert_eq!(g.peek(), Some(&b"rec"[..]));
    cache.release(g);
    let g2 = cache.try_lock(Key(b"k"), 20).unwrap();
    assert_eq!(g2.peek(), Some(&b"rec"[..]));
    assert_eq!(g2.key(), b"k");
    cache.release(g2);
}

#[test]
fn concurrent_requests_fetch_once() {
    let mut cache = MemCache::new(1000);
    let mut fetches = 0;
    let mut misses = 0;
    let mut hits = 0;
    // Three requests for the same key arrive together; the first takes the slot.
    let mut first = cache.try_lock(Key(b"same"), 0).unwrap();
    assert!(first.peek().is_none());
    misses += 1;
    // The other two find it held and wait.
    assert!(cache.try_lock(Key(b"same"), 1).is_none());
    assert!(cache.try_lock(Key(b"same"), 2).is_none());
    assert!(cache.is_held(Key(b"same")));
    fetches += 1;
    cache.store(&mut first, Value(b"response"), 3);
    cache.release(first);
    for t in [4u64, 5] {
        let g = cache.try_lock(Key(b"same"), t).unwrap();
        match g.peek() {
            Some(r) => {
                assert_eq!(r, b"response");
                hits += 1;
            },
            None => {
                misses += 1;
                fetches += 1;
            },
        }
        cache.release(g);
    }
    assert_eq!((fetches, misses, hits), (1, 1, 2));
}

#[test]
fn other_keys_do_not_wait() {
    let mut cache = MemCache::new(1000);
    let a = cache.try_lock(Key(b"A"), 0).unwrap();
    let b = cache.try_lock(Key(b"B"), 1);
    assert!(b.is_some());
    assert!(cache.try_lock(Key(b"A"), 2).is_none());
    cache.release(b.unwrap());
    cache.release(a);
    assert!(!cache.is_held(Key(b"A")));
}

#[test]
fn released_miss_leaves_key_fetchable() {
    let mut cache = MemCache::new(1000);
    let g = cache.try_lock(Key(b"k"), 0).unwrap();
    cache.release(g);
    assert!(!cache.is_held(Key(b"k")));
    let g = cache.try_lock(Key(b"k"), 1).unwrap();
    assert!(g.peek().is_none());
    cache.release(g);
}

#[test]
fn expired_entry_is_a_miss() {
    let keep = 100u64;
    let mut cache = MemCache::new(keep);
    assert_eq!(cache.keep_duration(), keep);
    let mut g = cache.try_lock(Key(b"k"), 1000).unwrap();
    cache.store(&mut g, Value(b"v"), 1000);
    cache.release(g);
    // At exactly the time to live it is still served.
    let g = cache.try_lock(Key(b"k"), 1000 + keep).unwrap();
    assert_eq!(g.peek(), Some(&b"v"[..]));
    cache.release(g);
    // Past it, it is gone.
    let g = cache.try_lock(Key(b"k"), 1000 + keep + 1).unwrap();
    assert!(g.peek().is_none());
    cache.release(g);
}

#[test]
fn eviction_stops_at_first_live_entry() {
    let mut cache = MemCache::new(10);
    for (k, t) in [(&b"a"[..], 0u64), (&b"b"[..], 5), (&b"c"[..], 20)] {
        let mut g = cache.try_lock(Key(k), t).unwrap();
        cache.store(&mut g, Value(b"x"), t);
        cache.release(g);
    }
    cache.evict_expired(21);
    let a = cache.try_lock(Key(b"a"), 21).unwrap();
    assert!(a.peek().is_none());
    cache.release(a);
    let c = cache.try_lock(Key(b"c"), 21).unwrap();
    assert_eq!(c.peek(), Some(&b"x"[..]));
    cache.release(c);
}

#[test]
fn held_entry_loses_record_on_expiry() {
    let mut cache = MemCache::new(10);
    let mut g = cache.try_lock(Key(b"k"), 0).unwrap();
    cache.store(&mut g, Value(b"x"), 0);
    cache.evict_expired(100);
    assert!(cache.is_held(Key(b"k")));
    cache.release(g);
    assert!(!cache.is_held(Key(b"k")));
    let g = cache.try_lock(Key(b"k"), 100).unwrap();
    assert!(g.peek().is_none());
    cache.release(g);
}

#[test]
fn same_request_twice_is_miss_then_hit() {
    let rules = no_rules();
    let headers = vec![(b"x".to_vec(), b"b".to_vec())];
    let key = cache_key(b"GET", b"https://example.com/a", &headers, b"c").unwrap();
    let upstream = Response {
        status: 200,
        headers: vec![(b"content-type".to_vec(), b"text/plain".to_vec())],
        body: b"path=/a&body=c".to_vec(),
    };
    let mut cache = MemCache::new(60_000);
    let mut fetches = 0;

    let mut g = cache.try_lock(Key(&key), 0).unwrap();
    assert!(g.peek().is_none());
    fetches += 1;
    let (record, first) = fresh(&upstream, &rules, b"example.com", true, None).unwrap();
    cache.store(&mut g, Value(&record), 0);
    cache.release(g);

    let key2 = cache_key(b"GET", b"https://example.com/a", &headers, b"c").unwrap();
    let g = cache.try_lock(Key(&key2), 10).unwrap();
    let stored = g.peek().unwrap().to_vec();
    cache.release(g);
    let second = replay(&stored, &rules, b"example.com", true).unwrap();

    assert_eq!(fetches, 1);
    assert_eq!(marker(&first), Some(b"Miss".to_vec()));
    assert_eq!(marker(&second), Some(b"Hit".to_vec()));
    assert_eq!(first.status, upstream.status);
    assert_eq!(second.status, upstream.status);
    assert_eq!(first.body, upstream.body);
    assert_eq!(second.body, upstream.body);
}
