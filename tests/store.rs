use rustcache::store::{
    wrap_ttl, GetterType, IncrementerType, Response, ServerCommand, SetterType, SingleGetResponse,
    Store, Ttl, MAGIC_DATE,
};

// the clock that the tests give the store
const NOW: Ttl = 1455082881;

fn new_store(capacity: usize) -> Store {
    Store::with_clock(capacity, NOW)
}

fn b(inp: &'static str) -> Vec<u8> {
    let mut s = String::new();
    s.push_str(inp);
    s.into_bytes()
}

fn setter<'a>(setter: SetterType, key: &'a [u8], data: &'a [u8], ttl: Ttl, flags: u32) -> ServerCommand<'a> {
    ServerCommand::Setter { setter: setter, key: key, data: data, ttl: ttl, flags: flags }
}

#[test]
pub fn set() {
    let mut store = new_store(100);
    let res = store.apply(ServerCommand::Setter {
        setter: SetterType::Put,
        key: b"foo",
        data: b"bar",
        flags: 0,
        ttl: 0,
    });
    assert_eq!(Response::StoredResponse, res);
    assert_eq!(Some("bar".to_string()), store.simple_get("foo"));
}

#[test]
pub fn add_not_present() {
    let mut store = new_store(100);
    let res = store.apply(ServerCommand::Setter {
        setter: SetterType::Add,
        key: b"foo",
        data: b"bar",
        flags: 0,
        ttl: 0,
    });
    assert_eq!(Response::StoredResponse, res);
    assert_eq!(Some("bar".to_string()), store.simple_get("foo"));
}

#[test]
pub fn add_present() {
    let mut store = new_store(100);
    store.simple_set("foo", "bar");
    let res = store.apply(ServerCommand::Setter {
        setter: SetterType::Add,
        key: b"foo",
        data: b"baz",
        flags: 0,
        ttl: 0,
    });
    assert_eq!(Response::NotStoredResponse, res);
    assert_eq!(Some("bar".to_string()), store.simple_get("foo"));
}

#[test]
pub fn replace_not_present() {
    let mut store = new_store(100);
    let res = store.apply(ServerCommand::Setter {
        setter: SetterType::Replace,
        key: b"foo",
        data: b"baz",
        flags: 0,
        ttl: 0,
    });
    assert_eq!(Response::NotStoredResponse, res);
    assert_eq!(None, store.simple_get("foo"));
}

#[test]
pub fn replace_present() {
    let mut store = new_store(100);
    store.simple_set("foo", "bar");
    let res = store.apply(ServerCommand::Setter {
        setter: SetterType::Replace,
        key: b"foo",
        data: b"baz",
        flags: 0,
        ttl: 0,
    });
    assert_eq!(Response::StoredResponse, res);
    assert_eq!(Some("baz".to_string()), store.simple_get("foo"));
}

#[test]
pub fn append_not_present() {
    let mut store = new_store(100);
    let res = store.apply(ServerCommand::Setter {
        setter: SetterType::Append,
        key: b"foo",
        data: b"baz",
        flags: 0,
        ttl: 0,
    });
    assert_eq!(Response::NotStoredResponse, res);
    assert_eq!(None, store.simple_get("foo"));
}

#[test]
pub fn append_present() {
    let mut store = new_store(100);
    store.simple_set("foo", "bar");
    let res = store.apply(ServerCommand::Setter {
        setter: SetterType::Append,
        key: b"foo",
        data: b"baz",
        flags: 12,
        ttl: 34,
    });
    assert_eq!(Response::StoredResponse, res);
    assert_eq!(Some("barbaz".to_string()), store.simple_get("foo"));
    // make sure we didn't update the flags or ttl
    assert_eq!(Some(0), store.simple_get_flags("foo"));
    assert_eq!(None, store.simple_get_ttl("bar"));
}

#[test]
pub fn prepend_not_present() {
    let mut store = new_store(100);
    let res = store.apply(ServerCommand::Setter {
        setter: SetterType::Prepend,
        key: b"foo",
        data: b"baz",
        flags: 0,
        ttl: 0,
    });
    assert_eq!(Response::NotStoredResponse, res);
    assert_eq!(None, store.simple_get("foo"));
}

#[test]
pub fn prepend_present() {
    let mut store = new_store(100);
    store.simple_set("foo", "bar");
    let res = store.apply(ServerCommand::Setter {
        setter: SetterType::Prepend,
        key: b"foo",
        data: b"baz",
        flags: 0,
        ttl: 0,
    });
    assert_eq!(Response::StoredResponse, res);
    assert_eq!(Some("bazbar".to_string()), store.simple_get("foo"));
    // make sure we didn't update the flags or ttl
    assert_eq!(Some(0), store.simple_get_flags("foo"));
    assert_eq!(None, store.simple_get_ttl("bar"));
}

#[test]
pub fn cas_not_present() {
    let mut store = new_store(100);
    let res = store.apply(ServerCommand::Setter {
        setter: SetterType::Cas(50),
        key: b"foo",
        data: b"baz",
        flags: 0,
        ttl: 0,
    });
    assert_eq!(Response::NotFoundResponse, res);
    assert_eq!(None, store.simple_get("foo"));
}

#[test]
pub fn cas_wrong() {
    let mut store = new_store(100);
    store.simple_set_cas("foo", "bar", 100);
    let res = store.apply(ServerCommand::Setter {
        setter: SetterType::Cas(200),
        key: b"foo",
        data: b"baz",
        flags: 0,
        ttl: 0,
    });
    assert_eq!(Response::ExistsResponse, res);
    assert_eq!(Some("bar".to_string()), store.simple_get("foo"));
}

#[test]
pub fn cas_right() {
    let mut store = new_store(100);
    store.simple_set_cas("foo", "bar", 100);
    let res = store.apply(ServerCommand::Setter {
        setter: SetterType::Cas(100),
        key: b"foo",
        data: b"baz",
        flags: 0,
        ttl: 0,
    });
    assert_eq!(Response::StoredResponse, res);
    assert_eq!(Some("baz".to_string()), store.simple_get("foo"));
}

#[test]
pub fn cas_refreshes() {
    let mut store = new_store(100);
    store.simple_set_cas("foo", "bar", 100);
    store.simple_set("foo", "quux");
    let res = store.apply(ServerCommand::Setter {
        setter: SetterType::Cas(100),
        key: b"foo",
        data: b"baz",
        flags: 0,
        ttl: 0,
    });
    assert_eq!(Response::ExistsResponse, res);
    assert_eq!(Some("quux".to_string()), store.simple_get("foo"));
}

#[test]
pub fn get() {
    let mut store = new_store(100);
    store.simple_set("foo", "bar");
    let res = store.apply(ServerCommand::Getter {
        getter: GetterType::Get,
        keys: vec!["foo".as_bytes()],
    });
    assert_eq!(
        res,
        Response::DataResponse {
            responses: vec![SingleGetResponse {
                key: "foo".as_bytes(),
                data: b("bar"),
                flags: 0,
                unique: 0,
            }],
        }
    );
}

#[test]
pub fn get_multi() {
    let mut store = new_store(100);
    store.simple_set("foo1", "bar1");
    store.simple_set("foo2", "bar2");
    let res = store.apply(ServerCommand::Getter {
        getter: GetterType::Get,
        keys: vec!["foo1".as_bytes(), "foo2".as_bytes(), "foo3".as_bytes()],
    });
    assert_eq!(
        res,
        Response::DataResponse {
            responses: vec![
                SingleGetResponse { key: "foo1".as_bytes(), data: b("bar1"), flags: 0, unique: 0 },
                SingleGetResponse { key: "foo2".as_bytes(), data: b("bar2"), flags: 0, unique: 0 },
            ],
        }
    );
}

#[test]
pub fn gets() {
    let mut store = new_store(100);
    store.simple_set("foo", "bar");
    let res = store.apply(ServerCommand::Getter {
        getter: GetterType::Get,
        keys: vec!["foo".as_bytes()],
    });
    assert_eq!(
        res,
        Response::DataResponse {
            responses: vec![SingleGetResponse {
                key: "foo".as_bytes(),
                data: b("bar"),
                flags: 0,
                unique: 0,
            }],
        }
    );
}

#[test]
pub fn gets_multi() {
    let mut store = new_store(100);
    store.simple_set_cas("foo1", "bar1", 100);
    store.simple_set_cas("foo2", "bar2", 100);
    let res = store.apply(ServerCommand::Getter {
        getter: GetterType::Gets,
        keys: vec!["foo1".as_bytes(), "foo2".as_bytes(), "foo3".as_bytes()],
    });
    assert_eq!(
        res,
        Response::GetsResponse {
            responses: vec![
                SingleGetResponse { key: "foo1".as_bytes(), data: b("bar1"), flags: 0, unique: 100 },
                SingleGetResponse { key: "foo2".as_bytes(), data: b("bar2"), flags: 0, unique: 100 },
            ],
        }
    );
}

#[test]
pub fn incr_present_and_good() {
    let mut store = new_store(100);
    store.simple_set("foo", "1");
    let res = store.apply(ServerCommand::Incrementer {
        incrementer: IncrementerType::Incr,
        key: b"foo",
        value: 5,
    });
    assert_eq!(res, Response::IncrResponse { value: 6 });
}

#[test]
pub fn incr_present_and_bad() {
    let mut store = new_store(100);
    store.simple_set("foo", "bar");
    let res = store.apply(ServerCommand::Incrementer {
        incrementer: IncrementerType::Incr,
        key: b"foo",
        value: 5,
    });
    assert_eq!(
        res,
        Response::ClientErrorResponse { message: b"cannot increment or decrement non-numeric value" }
    );
}

#[test]
pub fn incr_not_present() {
    let mut store = new_store(100);
    let res = store.apply(ServerCommand::Incrementer {
        incrementer: IncrementerType::Incr,
        key: b"foo",
        value: 5,
    });
    assert_eq!(res, Response::NotFoundResponse);
}

#[test]
pub fn incr_refreshes_cas() {
    let mut store = new_store(100);
    store.simple_set_cas("foo", "20", 100);
    let res = store.apply(ServerCommand::Incrementer {
        incrementer: IncrementerType::Incr,
        key: b"foo",
        value: 5,
    });
    assert_eq!(Response::IncrResponse { value: 25 }, res);
    let res = store.apply(ServerCommand::Setter {
        setter: SetterType::Cas(100),
        key: b"foo",
        data: b"30",
        flags: 0,
        ttl: 0,
    });
    assert_eq!(Response::ExistsResponse, res);
    assert_eq!(Some("25".to_string()), store.simple_get("foo"));
}

#[test]
pub fn decr() {
    let mut store = new_store(100);
    store.simple_set("foo", "20");
    let res = store.apply(ServerCommand::Incrementer {
        incrementer: IncrementerType::Decr,
        key: b"foo",
        value: 5,
    });
    assert_eq!(res, Response::IncrResponse { value: 15 });
}

#[test]
pub fn decr_saturates() {
    let mut store = new_store(100);
    store.simple_set("foo", "20");
    let res = store.apply(ServerCommand::Incrementer {
        incrementer: IncrementerType::Decr,
        key: b"foo",
        value: 100,
    });
    assert_eq!(res, Response::IncrResponse { value: 0 });
}

#[test]
pub fn incr_wraps() {
    let mut store = new_store(100);
    store.simple_set("foo", "18446744073709551615");
    let res = store.apply(ServerCommand::Incrementer {
        incrementer: IncrementerType::Incr,
        key: b"foo",
        value: 2,
    });
    assert_eq!(res, Response::IncrResponse { value: 1 });
}

#[test]
pub fn delete_present() {
    let mut store = new_store(100);
    store.simple_set("foo", "bar");
    let res = store.apply(ServerCommand::Delete { key: b"foo" });
    assert_eq!(res, Response::DeletedResponse);
}

#[test]
pub fn delete_not_present() {
    let mut store = new_store(100);
    let res = store.apply(ServerCommand::Delete { key: b"foo" });
    assert_eq!(res, Response::NotFoundResponse);
}

#[test]
pub fn touch_not_present() {
    let mut store = new_store(100);

    let res = store.apply(ServerCommand::Touch { key: b"foo", ttl: 0 });
    assert_eq!(Response::NotFoundResponse, res);
    assert_eq!(None, store.simple_get("foo"));
}

#[test]
pub fn touch() {
    let mut store = new_store(1000);

    let now: Ttl = NOW;

    store.simple_set("foo", "bar");
    assert_eq!(store.simple_get_ttl("foo"), None);

    let res = store.apply(ServerCommand::Touch { key: b"foo", ttl: 0 });
    assert_eq!(Response::TouchedResponse, res);
    assert_eq!(store.simple_get_ttl("foo"), None);
    assert_eq!(Some("bar".to_string()), store.simple_get("foo"));

    let res = store.apply(ServerCommand::Touch { key: b"foo", ttl: 100 });
    assert_eq!(Response::TouchedResponse, res);
    assert_eq!(Some("bar".to_string()), store.simple_get("foo"));
    assert_eq!(store.simple_get_ttl("foo"), Some(now + 100));

    // make sure we can set it back to 0
    let res = store.apply(ServerCommand::Touch { key: b"foo", ttl: 0 });
    assert_eq!(Response::TouchedResponse, res);
    assert_eq!(store.simple_get_ttl("foo"), None);
}

#[test]
pub fn wrapping_ttl() {
    // memcached accepts timestamps in seconds-in-the-future or in absolute
    // epoch seconds, told apart by MAGIC_DATE
    let mut store = new_store(100);

    let now: Ttl = NOW;

    assert_eq!(wrap_ttl(0, now), None);
    assert_eq!(wrap_ttl(1, now), Some(now + 1));
    assert_eq!(wrap_ttl(2, now), Some(now + 2));
    assert_eq!(wrap_ttl(now, now), Some(now));
    assert_eq!(wrap_ttl(now + 1, now), Some(now + 1));

    store.simple_set("foo", "bar");

    let res = store.apply(ServerCommand::Touch { key: b"foo", ttl: 100 });
    assert_eq!(Response::TouchedResponse, res);
    assert_eq!(Some("bar".to_string()), store.simple_get("foo"));
    assert_eq!(store.simple_get_ttl("foo"), Some(now + 100));

    let res = store.apply(ServerCommand::Touch { key: b"foo", ttl: now + 200 });
    assert_eq!(Response::TouchedResponse, res);
    assert_eq!(Some("bar".to_string()), store.simple_get("foo"));
    assert_eq!(store.simple_get_ttl("foo"), Some(now + 200));

    let res = store.apply(ServerCommand::Setter {
        setter: SetterType::Put,
        key: b"foo",
        data: b"bar",
        ttl: now + 300,
        flags: 0,
    });
    assert_eq!(Response::StoredResponse, res);
    assert_eq!(Some("bar".to_string()), store.simple_get("foo"));
    assert_eq!(store.simple_get_ttl("foo"), Some(now + 300));
}

#[test]
pub fn flushall() {
    let mut store = new_store(100);
    store.simple_set("foo", "bar");
    assert_eq!(Some("bar".to_string()), store.simple_get("foo"));

    let res = store.apply(ServerCommand::FlushAll);
    assert_eq!(res, Response::OkResponse);

    assert_eq!(None, store.simple_get("foo"));
}

#[test]
fn wrap_ttl_boundaries() {
    assert_eq!(wrap_ttl(MAGIC_DATE - 1, 1000), Some(1000 + MAGIC_DATE - 1));
    assert_eq!(wrap_ttl(MAGIC_DATE, 1000), Some(MAGIC_DATE));
    assert_eq!(wrap_ttl(MAGIC_DATE + 1, 1000), Some(MAGIC_DATE + 1));
    assert_eq!(MAGIC_DATE, 2_592_000);
    // relative TTLs saturate at the end of the 32-bit clock
    assert_eq!(wrap_ttl(10, u32::MAX - 5), Some(u32::MAX));
    assert!(wrap_ttl(5, 1000) <= wrap_ttl(6, 1000));
}

#[test]
fn scenario_set_get() {
    let mut store = new_store(1000);
    assert_eq!(store.apply(setter(SetterType::Put, b"foo", b"bar", 0, 0)), Response::StoredResponse);
    let res = store.apply(ServerCommand::Getter { getter: GetterType::Get, keys: vec![b"foo"] });
    assert_eq!(
        res,
        Response::DataResponse {
            responses: vec![SingleGetResponse { key: b"foo", data: b("bar"), flags: 0, unique: 1 }],
        }
    );
}

#[test]
fn scenario_add_replace() {
    let mut store = new_store(1000);
    assert_eq!(store.apply(setter(SetterType::Replace, b"x", b"a", 0, 0)), Response::NotStoredResponse);
    assert_eq!(store.apply(setter(SetterType::Add, b"x", b"a", 0, 0)), Response::StoredResponse);
    assert_eq!(store.apply(setter(SetterType::Add, b"x", b"b", 0, 0)), Response::NotStoredResponse);
    assert_eq!(Some("a".to_string()), store.simple_get("x"));
}

#[test]
fn scenario_expired_first_eviction() {
    // a weighs 110 and never expires; b weighs 80 and expires at NOW - 1
    let a_data = vec![b'a'; 110 - 3 - 12 - 20];
    let b_data = vec![b'b'; 80 - 3 - 12 - 20];
    let c_data = vec![b'c'; 80 - 3 - 12 - 20];
    let mut early = Store::with_clock(200, NOW - 100);
    assert_eq!(early.apply(setter(SetterType::Put, b"a", &a_data, 0, 0)), Response::StoredResponse);
    assert_eq!(early.apply(setter(SetterType::Put, b"b", &b_data, 99, 0)), Response::StoredResponse);
    // moving on to NOW, b has expired
    assert_eq!(early.apply_at(setter(SetterType::Put, b"c", &c_data, 0, 0), NOW), Response::StoredResponse);
    let res = early.apply_at(ServerCommand::Getter { getter: GetterType::Get, keys: vec![b"a", b"b"] }, NOW);
    match res {
        Response::DataResponse { responses } => {
            assert_eq!(responses.len(), 1);
            assert_eq!(responses[0].key, b"a");
        }
        other => panic!("unexpected {:?}", other),
    }
}

#[test]
fn scenario_incr_wrap_decr_saturate() {
    let mut store = new_store(1000);
    store.apply(setter(SetterType::Put, b"n", b"18446744073709551615", 0, 0));
    let res = store.apply(ServerCommand::Incrementer { incrementer: IncrementerType::Incr, key: b"n", value: 2 });
    assert_eq!(res, Response::IncrResponse { value: 1 });
    assert_eq!(Some("1".to_string()), store.simple_get("n"));
    store.apply(setter(SetterType::Put, b"n", b"20", 0, 0));
    let res = store.apply(ServerCommand::Incrementer { incrementer: IncrementerType::Decr, key: b"n", value: 100 });
    assert_eq!(res, Response::IncrResponse { value: 0 });
    assert_eq!(Some("0".to_string()), store.simple_get("n"));
}

#[test]
fn scenario_cas() {
    let mut store = new_store(1000);
    store.apply(setter(SetterType::Put, b"k", b"a", 0, 0));
    let res = store.apply(ServerCommand::Getter { getter: GetterType::Gets, keys: vec![b"k"] });
    let u = match res {
        Response::GetsResponse { responses } => responses[0].unique,
        other => panic!("unexpected {:?}", other),
    };
    assert_eq!(store.apply(setter(SetterType::Cas(u), b"k", b"b", 0, 0)), Response::StoredResponse);
    assert_eq!(store.apply(setter(SetterType::Cas(u), b"k", b"c", 0, 0)), Response::ExistsResponse);
    assert_eq!(Some("b".to_string()), store.simple_get("k"));
}

#[test]
fn scenario_touch_ttl_heuristic() {
    let mut store = new_store(1000);
    store.apply(setter(SetterType::Put, b"k", b"a", 0, 0));
    assert_eq!(store.apply(ServerCommand::Touch { key: b"k", ttl: 100 }), Response::TouchedResponse);
    assert_eq!(store.simple_get_ttl("k"), Some(NOW + 100));
    assert_eq!(store.apply(ServerCommand::Touch { key: b"k", ttl: NOW + 300 }), Response::TouchedResponse);
    assert_eq!(store.simple_get_ttl("k"), Some(NOW + 300));
    assert_eq!(store.apply(ServerCommand::Touch { key: b"k", ttl: 0 }), Response::TouchedResponse);
    assert_eq!(store.simple_get_ttl("k"), None);
}

#[test]
fn size_gate() {
    let mut store = new_store(10_000_000);
    let long_key = vec![b'k'; 256];
    let big_data = vec![0u8; 1024 * 1024 + 1];
    assert_eq!(store.apply(setter(SetterType::Put, &long_key, b"a", 0, 0)), Response::TooBig);
    assert_eq!(store.apply(setter(SetterType::Put, b"k", &big_data, 0, 0)), Response::TooBig);
    let max_key = vec![b'k'; 255];
    let max_data = vec![0u8; 1024 * 1024];
    assert_eq!(store.apply(setter(SetterType::Put, &max_key, &max_data, 0, 0)), Response::StoredResponse);
}

#[test]
fn item_heavier_than_capacity() {
    let mut store = new_store(50);
    assert_eq!(store.apply(setter(SetterType::Put, b"foo", b"0123456789", 0, 0)), Response::TooBig);
    assert_eq!(None, store.simple_get("foo"));
}

#[test]
fn append_keeps_flags_and_expiry() {
    let mut store = new_store(1000);
    store.apply(setter(SetterType::Put, b"k", b"ab", 60, 7));
    assert_eq!(store.apply(setter(SetterType::Append, b"k", b"cd", 0, 9)), Response::StoredResponse);
    assert_eq!(store.simple_get_flags("k"), Some(7));
    assert_eq!(store.simple_get_ttl("k"), Some(NOW + 60));
    assert_eq!(Some("abcd".to_string()), store.simple_get("k"));
}

#[test]
fn incr_rejects_sign_and_overflow() {
    let mut store = new_store(1000);
    for data in [&b"+5"[..], &b""[..], &b"18446744073709551616"[..], &b"1 "[..]] {
        store.apply(setter(SetterType::Put, b"n", data, 0, 0));
        let res = store.apply(ServerCommand::Incrementer { incrementer: IncrementerType::Incr, key: b"n", value: 1 });
        assert_eq!(
            res,
            Response::ClientErrorResponse { message: b"cannot increment or decrement non-numeric value" }
        );
    }
}

#[test]
fn delete_twice_store() {
    let mut store = new_store(1000);
    store.simple_set("foo", "bar");
    assert_eq!(store.apply(ServerCommand::Delete { key: b"foo" }), Response::DeletedResponse);
    assert_eq!(store.apply(ServerCommand::Delete { key: b"foo" }), Response::NotFoundResponse);
}

#[test]
fn other_commands() {
    let mut store = new_store(1000);
    assert_eq!(store.apply(ServerCommand::Bad(b"foo bar")), Response::ErrorResponse);
    assert_eq!(store.apply(ServerCommand::Version), Response::VersionResponse);
    assert_eq!(store.apply(ServerCommand::Verbosity), Response::OkResponse);
}

#[test]
fn invalid_utf8_reads_lossily() {
    let mut store = new_store(1000);
    store.apply(setter(SetterType::Put, b"k", &[0x61, 0xff, 0x62], 0, 0));
    assert_eq!(Some("a\u{FFFD}b".to_string()), store.simple_get("k"));
}

#[test]
fn wall_clock_store() {
    let mut store = Store::new(1000);
    assert!(store.now() > 1_600_000_000);
    assert_eq!(store.apply(setter(SetterType::Put, b"k", b"v", 100, 0)), Response::StoredResponse);
    assert_eq!(Some("v".to_string()), store.simple_get("k"));
}

#[test]
fn incr_reads_back_what_it_wrote() {
    let mut store = new_store(1000);
    store.apply(setter(SetterType::Put, b"n", b"7", 0, 3));
    let step = ServerCommand::Incrementer { incrementer: IncrementerType::Incr, key: b"n", value: 5 };
    assert_eq!(store.apply(step), Response::IncrResponse { value: 12 });
    let step = ServerCommand::Incrementer { incrementer: IncrementerType::Incr, key: b"n", value: 5 };
    assert_eq!(store.apply(step), Response::IncrResponse { value: 17 });
    assert_eq!(Some("17".to_string()), store.simple_get("n"));
    assert_eq!(store.simple_get_flags("n"), Some(3));
}

#[test]
fn tokens_advance_on_each_store() {
    let mut store = new_store(1000);
    store.apply(setter(SetterType::Put, b"a", b"1", 0, 0));
    store.apply(setter(SetterType::Add, b"a", b"2", 0, 0));
    store.apply(setter(SetterType::Put, b"b", b"1", 0, 0));
    let res = store.apply(ServerCommand::Getter { getter: GetterType::Gets, keys: vec![b"a", b"b"] });
    assert_eq!(
        res,
        Response::GetsResponse {
            responses: vec![
                SingleGetResponse { key: b"a", data: b("1"), flags: 0, unique: 1 },
                SingleGetResponse { key: b"b", data: b("1"), flags: 0, unique: 2 },
            ],
        }
    );
}
