use std::collections::{BTreeMap, HashMap, VecDeque};

use http_serde_ext::containers::{
    deserialize_option, deserialize_vec, deserialize_vec_deque, serialize_option, serialize_vec,
    serialize_vec_deque,
};
use http_serde_ext::header_map::{serialize, DecodeError, EncodeError, HeaderEntry, HeaderMap};
use http_serde_ext::keyed::{deserialize_btree_map, deserialize_hash_map, serialize_map};
use http_serde_ext::wire::{Group, WireEntry};

fn one(name: &str, value: &str) -> HeaderMap {
    let mut m = HeaderMap::new();
    m.try_append(name.as_bytes(), value.as_bytes()).unwrap();
    m
}

fn three() -> Vec<HeaderMap> {
    vec![one("a", "1"), one("b", "2"), one("c", "3")]
}

#[test]
fn option_none_is_absent() {
    assert_eq!(serialize_option(&None, true), Ok(None));
    assert_eq!(deserialize_option(&None, true), Ok(None));
}

#[test]
fn option_some_encodes_as_inner() {
    let m = one("x-foo", "bar");
    for hr in [true, false] {
        let w = serialize_option(&Some(m.clone()), hr).unwrap();
        assert_eq!(w, Some(serialize(&m, hr).unwrap()));
        assert_eq!(deserialize_option(&w, hr).unwrap(), Some(m.clone()));
    }
}

#[test]
fn option_some_with_empty_values_fails() {
    let m = HeaderMap { entries: vec![HeaderEntry { name: b"x".to_vec(), values: vec![] }] };
    assert_eq!(serialize_option(&Some(m), true), Err(EncodeError::NoValues));
}

#[test]
fn vec_round_trip() {
    let v = three();
    let w = serialize_vec(&v, true).unwrap();
    assert_eq!(w.len(), 3);
    assert_eq!(w[1], vec![WireEntry { name: b"b".to_vec(), group: Group::One(b"2".to_vec()) }]);
    assert_eq!(deserialize_vec(&w, true).unwrap(), v);
}

#[test]
fn vec_deque_round_trip() {
    let v: VecDeque<HeaderMap> = three().into_iter().collect();
    let w = serialize_vec_deque(&v, false).unwrap();
    assert_eq!(w.len(), 3);
    assert_eq!(deserialize_vec_deque(&w, false).unwrap(), v);
}

#[test]
fn sequence_decode_stops_at_bad_element() {
    let mut w = serialize_vec(&three(), false).unwrap();
    w[2][0].group = Group::One(b"3".to_vec());
    assert_eq!(deserialize_vec(&w, false), Err(DecodeError::ExpectedArray));
}

#[test]
fn btree_map_round_trip() {
    let mut m: BTreeMap<u32, HeaderMap> = BTreeMap::new();
    for (k, h) in three().into_iter().enumerate() {
        m.insert(k as u32, h);
    }
    let w = serialize_map(m.clone().into_iter().collect(), true).unwrap();
    assert_eq!(w.len(), 3);
    assert_eq!(deserialize_btree_map(w, true).unwrap(), m);
}

#[test]
fn hash_map_round_trip() {
    let mut m: HashMap<String, HeaderMap> = HashMap::new();
    for (k, h) in ["k1", "k2", "k3"].into_iter().zip(three()) {
        m.insert(k.to_string(), h);
    }
    let w = serialize_map(m.clone().into_iter().collect(), false).unwrap();
    assert_eq!(deserialize_hash_map(w, false).unwrap(), m);
}

#[test]
fn duplicate_key_last_write_wins() {
    let w = vec![
        (7u32, serialize(&one("x", "first"), true).unwrap()),
        (7u32, serialize(&one("x", "second"), true).unwrap()),
    ];
    let m = deserialize_btree_map(w, true).unwrap();
    assert_eq!(m.len(), 1);
    assert_eq!(m[&7], one("x", "second"));
}
