use http_serde_ext::header_map::{deserialize, serialize, DecodeError, EncodeError, HeaderEntry, HeaderMap};
use http_serde_ext::wire::{Group, WireEntry};

fn b(s: &str) -> Vec<u8> {
    s.as_bytes().to_vec()
}

fn map_of(pairs: &[(&str, &str)]) -> HeaderMap {
    let mut m = HeaderMap::new();
    for (n, v) in pairs {
        m.try_append(n.as_bytes(), v.as_bytes()).unwrap();
    }
    m
}

fn entry(name: &str, group: Group) -> WireEntry {
    WireEntry { name: b(name), group }
}

#[test]
fn round_trip_single_value_human_readable() {
    let m = map_of(&[("x-foo", "bar")]);
    let w = serialize(&m, true).unwrap();
    assert_eq!(w, vec![entry("x-foo", Group::One(b("bar")))]);
    assert_eq!(deserialize(&w, true).unwrap(), m);
}

#[test]
fn round_trip_single_value_compact() {
    let m = map_of(&[("x-foo", "bar")]);
    let w = serialize(&m, false).unwrap();
    assert_eq!(deserialize(&w, false).unwrap(), m);
}

#[test]
fn round_trip_multi_value_keeps_order() {
    let m = map_of(&[("x-foo", "a"), ("x-foo", "b"), ("x-foo", "c")]);
    for hr in [true, false] {
        let w = serialize(&m, hr).unwrap();
        assert_eq!(w, vec![entry("x-foo", Group::Many(vec![b("a"), b("b"), b("c")]))]);
        let back = deserialize(&w, hr).unwrap();
        assert_eq!(back, m);
        assert_eq!(back.get_all(&b("x-foo")), vec![b("a"), b("b"), b("c")]);
    }
}

#[test]
fn scalar_and_array_decode_alike() {
    let scalar = deserialize(&vec![entry("X-Foo", Group::One(b("bar")))], true).unwrap();
    let array = deserialize(&vec![entry("X-Foo", Group::Many(vec![b("bar")]))], true).unwrap();
    assert_eq!(scalar, array);
    assert_eq!(scalar.entries, vec![HeaderEntry { name: b("x-foo"), values: vec![b("bar")] }]);
}

#[test]
fn compact_single_value_is_array() {
    let m = map_of(&[("x-foo", "bar"), ("accept", "a"), ("accept", "b")]);
    let w = serialize(&m, false).unwrap();
    assert_eq!(
        w,
        vec![
            entry("x-foo", Group::Many(vec![b("bar")])),
            entry("accept", Group::Many(vec![b("a"), b("b")])),
        ]
    );
}

#[test]
fn empty_value_list_fails_to_encode() {
    let m = HeaderMap { entries: vec![HeaderEntry { name: b("x-foo"), values: vec![] }] };
    assert_eq!(serialize(&m, true), Err(EncodeError::NoValues));
    assert_eq!(serialize(&m, false), Err(EncodeError::NoValues));
}

#[test]
fn repeated_name_appends() {
    let w = vec![
        entry("set-cookie", Group::One(b("a=1"))),
        entry("x-other", Group::One(b("z"))),
        entry("Set-Cookie", Group::Many(vec![b("b=2"), b("c=3")])),
    ];
    let m = deserialize(&w, true).unwrap();
    assert_eq!(m.len(), 2);
    assert_eq!(m.get_all(&b("set-cookie")), vec![b("a=1"), b("b=2"), b("c=3")]);
    assert_eq!(m.entries[1].name, b("x-other"));
}

#[test]
fn compact_scalar_is_rejected() {
    let w = vec![entry("x-foo", Group::One(b("bar")))];
    assert_eq!(deserialize(&w, false), Err(DecodeError::ExpectedArray));
}

#[test]
fn invalid_name_is_rejected() {
    let w = vec![entry("bad name", Group::One(b("bar")))];
    assert_eq!(deserialize(&w, true), Err(DecodeError::InvalidName));
}

#[test]
fn invalid_value_is_rejected() {
    let w = vec![entry("x-foo", Group::Many(vec![b("ok"), b("bad\nvalue")]))];
    assert_eq!(deserialize(&w, true), Err(DecodeError::InvalidValue));
    let w = vec![entry("x-foo", Group::One(vec![0x7f]))];
    assert_eq!(deserialize(&w, true), Err(DecodeError::InvalidValue));
}

#[test]
fn non_ascii_value_is_accepted() {
    let w = vec![entry("x-foo", Group::One(vec![b'h', 0xfa, b'\t']))];
    let m = deserialize(&w, true).unwrap();
    assert_eq!(m.get_all(&b("x-foo")), vec![vec![b'h', 0xfa, b'\t']]);
}

#[test]
fn first_error_wins() {
    let w = vec![
        entry("x-foo", Group::Many(vec![b("bad\n")])),
        entry("bad name", Group::One(b("v"))),
    ];
    assert_eq!(deserialize(&w, true), Err(DecodeError::InvalidValue));
}

#[test]
fn empty_map_round_trips() {
    let m = HeaderMap::new();
    let w = serialize(&m, true).unwrap();
    assert!(w.is_empty());
    assert_eq!(deserialize(&w, false).unwrap(), m);
}

#[test]
fn try_append_normalises_and_checks() {
    let mut m = HeaderMap::new();
    assert_eq!(m.try_append(b"Content-Type", b"text/plain"), Ok(()));
    assert_eq!(m.entries[0].name, b("content-type"));
    assert_eq!(m.try_append(b"", b"x"), Err(DecodeError::InvalidName));
    assert_eq!(m.try_append(b"x-a", b"\r"), Err(DecodeError::InvalidValue));
    assert_eq!(m.len(), 1);
    assert!(m.get_all(&b("x-a")).is_empty());
}
