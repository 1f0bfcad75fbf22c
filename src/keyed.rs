//! The header-map codec lifted to maps keyed by another type: keys travel
//! through their own codec untouched, values are encoded as header maps, and
//! decoding inserts entry by entry so that a later duplicate key wins.
use vstd::prelude::*;
use std::collections::{BTreeMap, HashMap};
use crate::header_map::{HeaderMap, HeadersV, WireV, EncodeError, DecodeError, decoded, encoded, has_empty_entry, well_formed, serialize, deserialize, lemma_round_trip};
use crate::wire::{WireEntry, wire_view};

verus! {

pub open spec fn keyed_maps_view<K>(v: Seq<(K, HeaderMap)>) -> Seq<(K, HeadersV)> {
    v.map_values(|e: (K, HeaderMap)| (e.0, e.1@))
}

pub open spec fn keyed_wires_view<K>(v: Seq<(K, Vec<WireEntry>)>) -> Seq<(K, WireV)> {
    v.map_values(|e: (K, Vec<WireEntry>)| (e.0, wire_view(e.1@)))
}

/// The abstract value of a map whose values are header maps.
pub open spec fn values_of<K>(m: Map<K, HeaderMap>) -> Map<K, HeadersV> {
    Map::new(|k: K| m.contains_key(k), |k: K| m[k]@)
}

/// Each key kept, each value encoded on its own.
pub open spec fn encode_each_keyed<K>(es: Seq<(K, HeadersV)>, human_readable: bool) -> Seq<(K, WireV)> {
    es.map_values(|e: (K, HeadersV)| (e.0, encoded(e.1, human_readable)))
}

/// Encoding the entries of a keyed map in the order given: each key kept, each
/// value encoded on its own; the first value that cannot be encoded fails the
/// whole.
pub open spec fn encode_keyed<K>(es: Seq<(K, HeadersV)>, human_readable: bool) -> Result<Seq<(K, WireV)>, EncodeError> {
    if exists|i: int| 0 <= i < es.len() && has_empty_entry(#[trigger] es[i].1) {
        Err(EncodeError::NoValues)
    } else {
        Ok(encode_each_keyed(es, human_readable))
    }
}

/// Decoding encoded entries in order into a map, each inserted in turn, so
/// that of two equal keys the later one's value stays; the first value that
/// fails to decode fails the whole.
pub open spec fn decode_keyed<K>(ws: Seq<(K, WireV)>, human_readable: bool) -> Result<Map<K, HeadersV>, DecodeError>
    decreases ws.len(),
{
    if ws.len() == 0 {
        Ok(Map::empty())
    } else {
        match decode_keyed(ws.drop_last(), human_readable) {
            Ok(m) => match decoded(ws.last().1, human_readable) {
                Ok(h) => Ok(m.insert(ws.last().0, h)),
                Err(e) => Err(e),
            },
            Err(e) => Err(e),
        }
    }
}

proof fn lemma_decode_keyed_step<K>(ws: Seq<(K, WireV)>, i: int, hr: bool)
    requires
        0 <= i < ws.len(),
    ensures
        decode_keyed(ws.take(i + 1), hr) == match decode_keyed(ws.take(i), hr) {
            Ok(m) => match decoded(ws[i].1, hr) {
                Ok(h) => Ok(m.insert(ws[i].0, h)),
                Err(e) => Err(e),
            },
            Err(e) => Err(e),
        },
{
    assert(ws.take(i + 1).drop_last() =~= ws.take(i));
}

proof fn lemma_decode_keyed_error_persists<K>(ws: Seq<(K, WireV)>, k: int, hr: bool)
    requires
        0 <= k <= ws.len(),
        decode_keyed(ws.take(k), hr) is Err,
    ensures
        decode_keyed(ws, hr) == decode_keyed(ws.take(k), hr),
    decreases ws.len() - k,
{
    if k < ws.len() {
        lemma_decode_keyed_step(ws, k, hr);
        lemma_decode_keyed_error_persists(ws, k + 1, hr);
    } else {
        assert(ws.take(k) =~= ws);
    }
}

/// Encodes the entries of a keyed map, in the order given, keeping each key
/// as it is and encoding each value as a lone header map would be.
pub fn serialize_map<K>(entries: Vec<(K, HeaderMap)>, human_readable: bool) -> (r: Result<Vec<(K, Vec<WireEntry>)>, EncodeError>)
    ensures
        match r {
            Ok(w) => encode_keyed(keyed_maps_view(entries@), human_readable) == Ok::<Seq<(K, WireV)>, EncodeError>(keyed_wires_view(w@)),
            Err(e) => encode_keyed(keyed_maps_view(entries@), human_readable) == Err::<Seq<(K, WireV)>, EncodeError>(e),
        },
{
    let ghost es = keyed_maps_view(entries@);
    let n = entries.len();
    let mut rest = entries;
    let mut out: Vec<(K, Vec<WireEntry>)> = Vec::with_capacity(n);
    let mut i: usize = 0;
    while i < n
        invariant
            es.len() == n,
            es == keyed_maps_view(entries@),
            0 <= i <= n,
            keyed_maps_view(rest@) == es.skip(i as int),
            rest@.len() == n - i,
            out@.len() == i,
            forall|j: int| 0 <= j < i ==> !has_empty_entry(#[trigger] es[j].1),
            forall|j: int| 0 <= j < i ==> (#[trigger] out@[j]).0 == es[j].0 && wire_view(out@[j].1@) == encoded(es[j].1, human_readable),
        decreases n - i,
    {
        assert(es.skip(i as int)[0] == es[i as int]);
        let ghost before = rest@;
        let (k, h) = rest.remove(0);
        assert(keyed_maps_view(rest@) =~= es.skip(i + 1)) by {
            assert forall|j: int| 0 <= j < rest@.len() implies keyed_maps_view(rest@)[j] == es.skip(i + 1)[j] by {
                assert(rest@[j] == before[j + 1]);
                assert(keyed_maps_view(before)[j + 1] == es.skip(i as int)[j + 1]);
            }
        }
        match serialize(&h, human_readable) {
            Ok(w) => {
                out.push((k, w));
            },
            Err(e) => {
                assert(has_empty_entry(es[i as int].1));
                return Err(e);
            },
        }
        i = i + 1;
    }
    assert(keyed_wires_view(out@) =~= encode_each_keyed(es, human_readable));
    Ok(out)
}

/// Decodes encoded entries into a `BTreeMap`, inserting each in turn: of two
/// equal keys the later one's value stays.
pub fn deserialize_btree_map<K: Ord>(wire: Vec<(K, Vec<WireEntry>)>, human_readable: bool) -> (r: Result<BTreeMap<K, HeaderMap>, DecodeError>)
    ensures
        match r {
            Ok(m) => decode_keyed(keyed_wires_view(wire@), human_readable) is Ok && (vstd::laws_cmp::obeys_cmp::<K>()
                ==> decode_keyed(keyed_wires_view(wire@), human_readable)
                == Ok::<Map<K, HeadersV>, DecodeError>(values_of(m@))),
            Err(e) => decode_keyed(keyed_wires_view(wire@), human_readable) == Err::<Map<K, HeadersV>, DecodeError>(e),
        },
{
    let ghost ws = keyed_wires_view(wire@);
    let n = wire.len();
    let mut rest = wire;
    let mut out: BTreeMap<K, HeaderMap> = BTreeMap::new();
    let mut i: usize = 0;
    assert(ws.take(0) =~= Seq::<(K, WireV)>::empty());
    assert(values_of(out@) =~= Map::<K, HeadersV>::empty());
    while i < n
        invariant
            ws.len() == n,
            ws == keyed_wires_view(wire@),
            0 <= i <= n,
            keyed_wires_view(rest@) == ws.skip(i as int),
            rest@.len() == n - i,
            decode_keyed(ws.take(i as int), human_readable) is Ok,
            vstd::laws_cmp::obeys_cmp::<K>() ==> decode_keyed(ws.take(i as int), human_readable) == Ok::<Map<K, HeadersV>, DecodeError>(values_of(out@)),
        decreases n - i,
    {
        assert(ws.skip(i as int)[0] == ws[i as int]);
        proof {
            lemma_decode_keyed_step(ws, i as int, human_readable);
        }
        let ghost before = rest@;
        let (k, w) = rest.remove(0);
        assert(keyed_wires_view(rest@) =~= ws.skip(i + 1)) by {
            assert forall|j: int| 0 <= j < rest@.len() implies keyed_wires_view(rest@)[j] == ws.skip(i + 1)[j] by {
                assert(rest@[j] == before[j + 1]);
                assert(keyed_wires_view(before)[j + 1] == ws.skip(i as int)[j + 1]);
            }
        }
        match deserialize(&w, human_readable) {
            Ok(h) => {
                let ghost old_out = out@;
                out.insert(k, h);
                proof {
                    if vstd::laws_cmp::obeys_cmp::<K>() {
                        assert(values_of(out@) =~= values_of(old_out).insert(k, h@));
                    }
                }
            },
            Err(e) => {
                proof {
                    lemma_decode_keyed_error_persists(ws, i + 1, human_readable);
                }
                return Err(e);
            },
        }
        i = i + 1;
    }
    assert(ws.take(n as int) =~= ws);
    Ok(out)
}

/// Decodes encoded entries into a `HashMap`, inserting each in turn: of two
/// equal keys the later one's value stays.
pub fn deserialize_hash_map<K: Eq + std::hash::Hash>(wire: Vec<(K, Vec<WireEntry>)>, human_readable: bool) -> (r: Result<HashMap<K, HeaderMap>, DecodeError>)
    ensures
        match r {
            Ok(m) => decode_keyed(keyed_wires_view(wire@), human_readable) is Ok && (vstd::std_specs::hash::obeys_key_model::<K>()
                ==> decode_keyed(keyed_wires_view(wire@), human_readable)
                == Ok::<Map<K, HeadersV>, DecodeError>(values_of(m@))),
            Err(e) => decode_keyed(keyed_wires_view(wire@), human_readable) == Err::<Map<K, HeadersV>, DecodeError>(e),
        },
{
    broadcast use vstd::std_specs::hash::axiom_random_state_builds_valid_hashers;

    let ghost ws = keyed_wires_view(wire@);
    let n = wire.len();
    let mut rest = wire;
    let mut out: HashMap<K, HeaderMap> = HashMap::with_capacity(n);
    let mut i: usize = 0;
    assert(ws.take(0) =~= Seq::<(K, WireV)>::empty());
    assert(values_of(out@) =~= Map::<K, HeadersV>::empty());
    while i < n
        invariant
            ws.len() == n,
            ws == keyed_wires_view(wire@),
            0 <= i <= n,
            keyed_wires_view(rest@) == ws.skip(i as int),
            rest@.len() == n - i,
            decode_keyed(ws.take(i as int), human_readable) is Ok,
            vstd::std_specs::hash::obeys_key_model::<K>() ==> decode_keyed(ws.take(i as int), human_readable) == Ok::<Map<K, HeadersV>, DecodeError>(values_of(out@)),
        decreases n - i,
    {
        assert(ws.skip(i as int)[0] == ws[i as int]);
        proof {
            lemma_decode_keyed_step(ws, i as int, human_readable);
        }
        let ghost before = rest@;
        let (k, w) = rest.remove(0);
        assert(keyed_wires_view(rest@) =~= ws.skip(i + 1)) by {
            assert forall|j: int| 0 <= j < rest@.len() implies keyed_wires_view(rest@)[j] == ws.skip(i + 1)[j] by {
                assert(rest@[j] == before[j + 1]);
                assert(keyed_wires_view(before)[j + 1] == ws.skip(i as int)[j + 1]);
            }
        }
        match deserialize(&w, human_readable) {
            Ok(h) => {
                let ghost old_out = out@;
                out.insert(k, h);
                proof {
                    if vstd::std_specs::hash::obeys_key_model::<K>() {
                        assert(values_of(out@) =~= values_of(old_out).insert(k, h@));
                    }
                }
            },
            Err(e) => {
                proof {
                    lemma_decode_keyed_error_persists(ws, i + 1, human_readable);
                }
                return Err(e);
            },
        }
        i = i + 1;
    }
    assert(ws.take(n as int) =~= ws);
    Ok(out)
}

/// The map that inserting the entries in order builds: of two equal keys the
/// later one's value stays.
pub open spec fn inserted<K>(es: Seq<(K, HeadersV)>) -> Map<K, HeadersV>
    decreases es.len(),
{
    if es.len() == 0 {
        Map::empty()
    } else {
        inserted(es.drop_last()).insert(es.last().0, es.last().1)
    }
}

/// Entries whose values are well-formed header maps, encoded and decoded in
/// the same format, give the map that inserting them in order builds: the same
/// key/value pairs, a later duplicate key winning.
pub proof fn lemma_keyed_round_trip<K>(es: Seq<(K, HeadersV)>, human_readable: bool)
    requires
        forall|i: int| 0 <= i < es.len() ==> well_formed(#[trigger] es[i].1),
    ensures
        encode_keyed(es, human_readable) == Ok::<Seq<(K, WireV)>, EncodeError>(encode_each_keyed(es, human_readable)),
        decode_keyed(encode_each_keyed(es, human_readable), human_readable) == Ok::<Map<K, HeadersV>, DecodeError>(inserted(es)),
    decreases es.len(),
{
    assert forall|i: int| 0 <= i < es.len() implies !has_empty_entry(#[trigger] es[i].1) by {
        lemma_round_trip(es[i].1, human_readable);
    }
    let ws = encode_each_keyed(es, human_readable);
    if es.len() > 0 {
        let init = es.drop_last();
        lemma_keyed_round_trip(init, human_readable);
        assert(ws.drop_last() =~= encode_each_keyed(init, human_readable));
        lemma_round_trip(es.last().1, human_readable);
        assert(ws.last() == (es.last().0, encoded(es.last().1, human_readable)));
    }
}

} // verus!
