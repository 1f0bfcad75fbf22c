//! The header-map codec lifted to containers: an optional map, and sequences
//! of maps held in a `Vec` or a `VecDeque`. Each element is encoded and
//! decoded exactly as a lone header map would be.
use vstd::prelude::*;
use std::collections::VecDeque;
use crate::header_map::{
    HeaderMap, HeadersV, WireV, EncodeError, DecodeError, decoded, encoded, has_empty_entry,
    well_formed, serialize, deserialize, lemma_round_trip,
};
use crate::wire::{WireEntry, wire_view};

verus! {

/// What encoding one header map gives: the error, or the encoded entries.
pub open spec fn encode_result(m: HeadersV, human_readable: bool) -> Result<WireV, EncodeError> {
    if has_empty_entry(m) {
        Err(EncodeError::NoValues)
    } else {
        Ok(encoded(m, human_readable))
    }
}

pub open spec fn maps_view(v: Seq<HeaderMap>) -> Seq<HeadersV> {
    v.map_values(|h: HeaderMap| h@)
}

pub open spec fn wires_view(v: Seq<Vec<WireEntry>>) -> Seq<WireV> {
    v.map_values(|w: Vec<WireEntry>| wire_view(w@))
}

/// Each map of a sequence encoded on its own.
pub open spec fn encode_each(ms: Seq<HeadersV>, human_readable: bool) -> Seq<WireV> {
    ms.map_values(|m: HeadersV| encoded(m, human_readable))
}

/// Encoding a sequence of maps: an array as long as the sequence, each element
/// encoded on its own; the first map that cannot be encoded fails the whole.
pub open spec fn encode_all(ms: Seq<HeadersV>, human_readable: bool) -> Result<Seq<WireV>, EncodeError> {
    if exists|i: int| 0 <= i < ms.len() && has_empty_entry(#[trigger] ms[i]) {
        Err(EncodeError::NoValues)
    } else {
        Ok(encode_each(ms, human_readable))
    }
}

/// Decoding an array of encoded maps in order, up to the first failure.
pub open spec fn decode_all(ws: Seq<WireV>, human_readable: bool) -> Result<Seq<HeadersV>, DecodeError>
    decreases ws.len(),
{
    if ws.len() == 0 {
        Ok(Seq::empty())
    } else {
        match decode_all(ws.drop_last(), human_readable) {
            Ok(ms) => match decoded(ws.last(), human_readable) {
                Ok(m) => Ok(ms.push(m)),
                Err(e) => Err(e),
            },
            Err(e) => Err(e),
        }
    }
}

/// Encodes an optional header map: `None` gives the absent signal, and
/// `Some(h)` gives exactly what encoding `h` alone gives.
pub fn serialize_option(v: &Option<HeaderMap>, human_readable: bool) -> (r: Result<Option<Vec<WireEntry>>, EncodeError>)
    ensures
        match v {
            None => r == Ok::<Option<Vec<WireEntry>>, EncodeError>(None),
            Some(h) => match r {
                Ok(Some(w)) => encode_result(h@, human_readable) == Ok::<WireV, EncodeError>(wire_view(w@)),
                Ok(None) => false,
                Err(e) => encode_result(h@, human_readable) == Err::<WireV, EncodeError>(e),
            },
        },
{
    match v {
        None => Ok(None),
        Some(h) => match serialize(h, human_readable) {
            Ok(w) => Ok(Some(w)),
            Err(e) => Err(e),
        },
    }
}

/// Decodes an optional header map: the absent signal gives `None`, anything
/// else is decoded as a lone header map.
pub fn deserialize_option(w: &Option<Vec<WireEntry>>, human_readable: bool) -> (r: Result<Option<HeaderMap>, DecodeError>)
    ensures
        match w {
            None => r matches Ok(None),
            Some(w) => match r {
                Ok(Some(m)) => decoded(wire_view(w@), human_readable) == Ok::<HeadersV, DecodeError>(m@),
                Ok(None) => false,
                Err(e) => decoded(wire_view(w@), human_readable) == Err::<HeadersV, DecodeError>(e),
            },
        },
{
    match w {
        None => Ok(None),
        Some(w) => match deserialize(w, human_readable) {
            Ok(m) => Ok(Some(m)),
            Err(e) => Err(e),
        },
    }
}

proof fn lemma_decode_all_step(ws: Seq<WireV>, i: int, hr: bool)
    requires
        0 <= i < ws.len(),
    ensures
        decode_all(ws.take(i + 1), hr) == match decode_all(ws.take(i), hr) {
            Ok(ms) => match decoded(ws[i], hr) {
                Ok(m) => Ok(ms.push(m)),
                Err(e) => Err(e),
            },
            Err(e) => Err(e),
        },
{
    assert(ws.take(i + 1).drop_last() =~= ws.take(i));
}

proof fn lemma_decode_all_error_persists(ws: Seq<WireV>, k: int, hr: bool)
    requires
        0 <= k <= ws.len(),
        decode_all(ws.take(k), hr) is Err,
    ensures
        decode_all(ws, hr) == decode_all(ws.take(k), hr),
    decreases ws.len() - k,
{
    if k < ws.len() {
        lemma_decode_all_step(ws, k, hr);
        lemma_decode_all_error_persists(ws, k + 1, hr);
    } else {
        assert(ws.take(k) =~= ws);
    }
}

/// Encodes a `Vec` of header maps as an array of the same length, element by
/// element in order.
pub fn serialize_vec(v: &Vec<HeaderMap>, human_readable: bool) -> (r: Result<Vec<Vec<WireEntry>>, EncodeError>)
    ensures
        match r {
            Ok(w) => encode_all(maps_view(v@), human_readable) == Ok::<Seq<WireV>, EncodeError>(wires_view(w@)),
            Err(e) => encode_all(maps_view(v@), human_readable) == Err::<Seq<WireV>, EncodeError>(e),
        },
{
    let ghost ms = maps_view(v@);
    let mut out: Vec<Vec<WireEntry>> = Vec::with_capacity(v.len());
    let mut i: usize = 0;
    while i < v.len()
        invariant
            ms == maps_view(v@),
            0 <= i <= v.len(),
            out@.len() == i,
            forall|j: int| 0 <= j < i ==> !has_empty_entry(#[trigger] ms[j]),
            forall|j: int| 0 <= j < i ==> wire_view(#[trigger] out@[j]@) == encoded(ms[j], human_readable),
        decreases v.len() - i,
    {
        assert(ms[i as int] == v@[i as int]@);
        match serialize(&v[i], human_readable) {
            Ok(w) => {
                out.push(w);
            },
            Err(e) => {
                assert(has_empty_entry(ms[i as int]));
                return Err(e);
            },
        }
        i = i + 1;
    }
    assert(wires_view(out@) =~= encode_each(ms, human_readable));
    Ok(out)
}

/// Decodes an array of encoded header maps into a `Vec`, element by element
/// in order; the first element that fails to decode fails the whole.
pub fn deserialize_vec(w: &Vec<Vec<WireEntry>>, human_readable: bool) -> (r: Result<Vec<HeaderMap>, DecodeError>)
    ensures
        match r {
            Ok(v) => decode_all(wires_view(w@), human_readable) == Ok::<Seq<HeadersV>, DecodeError>(maps_view(v@)),
            Err(e) => decode_all(wires_view(w@), human_readable) == Err::<Seq<HeadersV>, DecodeError>(e),
        },
{
    let ghost ws = wires_view(w@);
    let mut out: Vec<HeaderMap> = Vec::with_capacity(w.len());
    let mut i: usize = 0;
    assert(ws.take(0) =~= Seq::<WireV>::empty());
    assert(maps_view(out@) =~= Seq::<HeadersV>::empty());
    while i < w.len()
        invariant
            ws == wires_view(w@),
            0 <= i <= w.len(),
            decode_all(ws.take(i as int), human_readable) == Ok::<Seq<HeadersV>, DecodeError>(maps_view(out@)),
        decreases w.len() - i,
    {
        proof {
            lemma_decode_all_step(ws, i as int, human_readable);
        }
        assert(ws[i as int] == wire_view(w@[i as int]@));
        match deserialize(&w[i], human_readable) {
            Ok(m) => {
                let ghost before = out@;
                out.push(m);
                assert(maps_view(out@) =~= maps_view(before).push(m@));
            },
            Err(e) => {
                proof {
                    lemma_decode_all_error_persists(ws, i + 1, human_readable);
                }
                return Err(e);
            },
        }
        i = i + 1;
    }
    assert(ws.take(w.len() as int) =~= ws);
    Ok(out)
}

/// Encodes a `VecDeque` of header maps as an array of the same length, front
/// to back.
pub fn serialize_vec_deque(v: &VecDeque<HeaderMap>, human_readable: bool) -> (r: Result<Vec<Vec<WireEntry>>, EncodeError>)
    ensures
        match r {
            Ok(w) => encode_all(maps_view(v@), human_readable) == Ok::<Seq<WireV>, EncodeError>(wires_view(w@)),
            Err(e) => encode_all(maps_view(v@), human_readable) == Err::<Seq<WireV>, EncodeError>(e),
        },
{
    let ghost ms = maps_view(v@);
    let mut out: Vec<Vec<WireEntry>> = Vec::with_capacity(v.len());
    let mut i: usize = 0;
    while i < v.len()
        invariant
            ms == maps_view(v@),
            0 <= i <= v.len(),
            out@.len() == i,
            forall|j: int| 0 <= j < i ==> !has_empty_entry(#[trigger] ms[j]),
            forall|j: int| 0 <= j < i ==> wire_view(#[trigger] out@[j]@) == encoded(ms[j], human_readable),
        decreases v.len() - i,
    {
        assert(ms[i as int] == v@[i as int]@);
        match serialize(&v[i], human_readable) {
            Ok(w) => {
                out.push(w);
            },
            Err(e) => {
                assert(has_empty_entry(ms[i as int]));
                return Err(e);
            },
        }
        i = i + 1;
    }
    assert(wires_view(out@) =~= encode_each(ms, human_readable));
    Ok(out)
}

/// Decodes an array of encoded header maps into a `VecDeque`, each element
/// pushed at the back in order.
pub fn deserialize_vec_deque(w: &Vec<Vec<WireEntry>>, human_readable: bool) -> (r: Result<VecDeque<HeaderMap>, DecodeError>)
    ensures
        match r {
            Ok(v) => decode_all(wires_view(w@), human_readable) == Ok::<Seq<HeadersV>, DecodeError>(maps_view(v@)),
            Err(e) => decode_all(wires_view(w@), human_readable) == Err::<Seq<HeadersV>, DecodeError>(e),
        },
{
    let ghost ws = wires_view(w@);
    let mut out: VecDeque<HeaderMap> = VecDeque::with_capacity(w.len());
    let mut i: usize = 0;
    assert(ws.take(0) =~= Seq::<WireV>::empty());
    assert(maps_view(out@) =~= Seq::<HeadersV>::empty());
    while i < w.len()
        invariant
            ws == wires_view(w@),
            0 <= i <= w.len(),
            decode_all(ws.take(i as int), human_readable) == Ok::<Seq<HeadersV>, DecodeError>(maps_view(out@)),
        decreases w.len() - i,
    {
        proof {
            lemma_decode_all_step(ws, i as int, human_readable);
        }
        assert(ws[i as int] == wire_view(w@[i as int]@));
        match deserialize(&w[i], human_readable) {
            Ok(m) => {
                let ghost before = out@;
                out.push_back(m);
                assert(maps_view(out@) =~= maps_view(before).push(m@));
            },
            Err(e) => {
                proof {
                    lemma_decode_all_error_persists(ws, i + 1, human_readable);
                }
                return Err(e);
            },
        }
        i = i + 1;
    }
    assert(ws.take(w.len() as int) =~= ws);
    Ok(out)
}

/// A sequence of well-formed header maps, encoded and decoded in the same
/// format, comes back with the same maps in the same order.
pub proof fn lemma_sequence_round_trip(ms: Seq<HeadersV>, human_readable: bool)
    requires
        forall|i: int| 0 <= i < ms.len() ==> well_formed(#[trigger] ms[i]),
    ensures
        encode_all(ms, human_readable) == Ok::<Seq<WireV>, EncodeError>(
            encode_each(ms, human_readable),
        ),
        decode_all(encode_each(ms, human_readable), human_readable)
            == Ok::<Seq<HeadersV>, DecodeError>(ms),
    decreases ms.len(),
{
    assert forall|i: int| 0 <= i < ms.len() implies !has_empty_entry(#[trigger] ms[i]) by {
        lemma_round_trip(ms[i], human_readable);
    }
    let ws = encode_each(ms, human_readable);
    if ms.len() > 0 {
        let init = ms.drop_last();
        lemma_sequence_round_trip(init, human_readable);
        assert(ws.drop_last() =~= encode_each(init, human_readable));
        lemma_round_trip(ms.last(), human_readable);
        assert(ws.last() == encoded(ms.last(), human_readable));
        assert(init.push(ms.last()) =~= ms);
    } else {
        assert(ms =~= Seq::<HeadersV>::empty());
    }
}

/// An optional well-formed header map, encoded and decoded in the same format,
/// comes back unchanged; the absent signal stands for `None` both ways.
pub proof fn lemma_option_round_trip(m: Option<HeadersV>, human_readable: bool)
    requires
        m matches Some(h) ==> well_formed(h),
    ensures
        match m {
            None => true,
            Some(h) => encode_result(h, human_readable) == Ok::<WireV, EncodeError>(encoded(h, human_readable))
                && decoded(encoded(h, human_readable), human_readable) == Ok::<HeadersV, DecodeError>(h),
        },
{
    if let Some(h) = m {
        lemma_round_trip(h, human_readable);
    }
}

} // verus!
