//! A multi-valued header map and its codec: each name owns one or more values,
//! and the encoding collapses a lone value to a scalar in human-readable formats.
use vstd::prelude::*;
use crate::header_text::{parsed_header_name, valid_name, valid_value, parse_name, check_value};
use crate::wire::{Group, GroupV, WireEntry, values_view, wire_view};

verus! {

/// The abstract value of a header map: its entries in order, each a name with
/// its values in order.
pub type HeadersV = Seq<(Seq<u8>, Seq<Seq<u8>>)>;

/// The abstract value of an encoded header map.
pub type WireV = Seq<(Seq<u8>, GroupV)>;

/// One name of a header map with the values bound to it.
#[derive(Debug, Clone, PartialEq, Eq)]
pub struct HeaderEntry {
    pub name: Vec<u8>,
    pub values: Vec<Vec<u8>>,
}

impl View for HeaderEntry {
    type V = (Seq<u8>, Seq<Seq<u8>>);

    open spec fn view(&self) -> (Seq<u8>, Seq<Seq<u8>>) {
        (self.name@, values_view(self.values@))
    }
}

/// An ordered multi-map from header names to non-empty lists of header values.
/// Its fields are open so that a caller can hold a map that breaks the
/// invariant; the encoder still defends against an empty value list.
#[derive(Debug, Clone, PartialEq, Eq)]
pub struct HeaderMap {
    pub entries: Vec<HeaderEntry>,
}

impl View for HeaderMap {
    type V = HeadersV;

    open spec fn view(&self) -> HeadersV {
        self.entries@.map_values(|e: HeaderEntry| e@)
    }
}

#[derive(Debug, Clone, Copy, PartialEq, Eq, Structural)]
pub enum EncodeError {
    /// A name of the map is bound to no value.
    NoValues,
}

#[derive(Debug, Clone, Copy, PartialEq, Eq, Structural)]
pub enum DecodeError {
    /// A name on the wire is no header name.
    InvalidName,
    /// A value on the wire holds a byte that no header value may hold.
    InvalidValue,
    /// A compact format gave a lone scalar where an array of values belongs.
    ExpectedArray,
}

pub open spec fn names_unique(m: HeadersV) -> bool {
    forall|i: int, j: int| 0 <= i < m.len() && 0 <= j < m.len() && i != j ==> m[i].0 != m[j].0
}

pub open spec fn all_valid(vs: Seq<Seq<u8>>) -> bool {
    forall|j: int| 0 <= j < vs.len() ==> valid_value(#[trigger] vs[j])
}

/// Names are normalised and distinct; each is bound to at least one value and
/// every value is valid.
pub open spec fn well_formed(m: HeadersV) -> bool {
    &&& names_unique(m)
    &&& forall|i: int| 0 <= i < m.len() ==> {
        &&& valid_name(#[trigger] m[i].0)
        &&& m[i].1.len() > 0
        &&& all_valid(m[i].1)
    }
}

pub open spec fn has_name(m: HeadersV, n: Seq<u8>) -> bool {
    exists|i: int| 0 <= i < m.len() && m[i].0 == n
}

pub open spec fn name_index(m: HeadersV, n: Seq<u8>) -> int {
    choose|i: int| 0 <= i < m.len() && m[i].0 == n
}

/// The first value for a name creates its entry at the end; a later one is
/// added after the values the name already has.
pub open spec fn append_value(m: HeadersV, n: Seq<u8>, v: Seq<u8>) -> HeadersV {
    if has_name(m, n) {
        let i = name_index(m, n);
        m.update(i, (n, m[i].1.push(v)))
    } else {
        m.push((n, seq![v]))
    }
}

/// Appends the values one after another, in order.
pub open spec fn append_values(m: HeadersV, n: Seq<u8>, vs: Seq<Seq<u8>>) -> HeadersV
    decreases vs.len(),
{
    if vs.len() == 0 {
        m
    } else {
        append_value(append_values(m, n, vs.drop_last()), n, vs.last())
    }
}

/// How the values of one name are encoded: a lone value as a bare scalar in a
/// human-readable format, and otherwise as an array of all values in order.
pub open spec fn encode_group(vs: Seq<Seq<u8>>, human_readable: bool) -> GroupV {
    if human_readable && vs.len() == 1 {
        GroupV::One(vs[0])
    } else {
        GroupV::Many(vs)
    }
}

pub open spec fn has_empty_entry(m: HeadersV) -> bool {
    exists|i: int| 0 <= i < m.len() && m[i].1.len() == 0
}

/// The encoding of a map none of whose names is bound to no value: its names
/// in order, each with its encoded values.
pub open spec fn encoded(m: HeadersV, human_readable: bool) -> WireV {
    m.map_values(|e: (Seq<u8>, Seq<Seq<u8>>)| (e.0, encode_group(e.1, human_readable)))
}

/// Decoding one entry of the wire onto the map built so far. The name is
/// validated first, then the values; every value is then appended in order.
pub open spec fn decode_entry(m: HeadersV, e: (Seq<u8>, GroupV), human_readable: bool) -> Result<
    HeadersV,
    DecodeError,
> {
    match parsed_header_name(e.0) {
        None => Err(DecodeError::InvalidName),
        Some(n) => match e.1 {
            GroupV::One(v) => if !human_readable {
                Err(DecodeError::ExpectedArray)
            } else if !valid_value(v) {
                Err(DecodeError::InvalidValue)
            } else {
                Ok(append_value(m, n, v))
            },
            GroupV::Many(vs) => if !all_valid(vs) {
                Err(DecodeError::InvalidValue)
            } else {
                Ok(append_values(m, n, vs))
            },
        },
    }
}

/// Decoding a whole wire map: its entries in order, from an empty map, up to
/// the first failure.
pub open spec fn decoded(w: WireV, human_readable: bool) -> Result<HeadersV, DecodeError>
    decreases w.len(),
{
    if w.len() == 0 {
        Ok(Seq::empty())
    } else {
        match decoded(w.drop_last(), human_readable) {
            Ok(m) => decode_entry(m, w.last(), human_readable),
            Err(e) => Err(e),
        }
    }
}

/// Encodes a header map entry by entry, in map order. A name with one value
/// becomes a bare scalar in a human-readable format and a one-element array in
/// a compact one; a name with more becomes an array. A name bound to no value
/// fails the whole encoding.
pub fn serialize(headers: &HeaderMap, human_readable: bool) -> (r: Result<Vec<WireEntry>, EncodeError>)
    ensures
        match r {
            Ok(w) => !has_empty_entry(headers@) && wire_view(w@) == encoded(headers@, human_readable),
            Err(e) => has_empty_entry(headers@) && e == EncodeError::NoValues,
        },
{
    let mut out: Vec<WireEntry> = Vec::new();
    let mut i: usize = 0;
    while i < headers.entries.len()
        invariant
            0 <= i <= headers.entries.len(),
            forall|j: int| 0 <= j < i ==> headers@[j].1.len() > 0,
            out@.len() == i,
            forall|j: int| 0 <= j < i ==> out@[j]@ == (headers@[j].0, encode_group(headers@[j].1, human_readable)),
        decreases headers.entries.len() - i,
    {
        let e = &headers.entries[i];
        assert(headers@[i as int] == e@);
        if e.values.len() == 0 {
            assert(headers@[i as int].1.len() == 0);
            return Err(EncodeError::NoValues);
        }
        let group = if human_readable && e.values.len() == 1 {
            Group::One(copy_bytes(&e.values[0]))
        } else {
            Group::Many(copy_values(&e.values))
        };
        proof {
            if human_readable && e.values.len() == 1 {
                assert(e@.1[0] == e.values@[0]@);
            }
        }
        out.push(WireEntry { name: copy_bytes(&e.name), group });
        i = i + 1;
    }
    assert(wire_view(out@) =~= encoded(headers@, human_readable));
    Ok(out)
}

/// Once a prefix of the wire fails to decode, the whole wire fails the same way.
proof fn lemma_decoded_error_persists(w: WireV, k: int, hr: bool)
    requires
        0 <= k <= w.len(),
        decoded(w.take(k), hr) is Err,
    ensures
        decoded(w, hr) == decoded(w.take(k), hr),
    decreases w.len() - k,
{
    if k < w.len() {
        assert(w.take(k + 1).drop_last() =~= w.take(k));
        lemma_decoded_error_persists(w, k + 1, hr);
    } else {
        assert(w.take(k) =~= w);
    }
}

/// One step of decoding: the prefix of `i + 1` entries decodes as the prefix
/// of `i` entries followed by entry `i`.
proof fn lemma_decoded_step(w: WireV, i: int, hr: bool)
    requires
        0 <= i < w.len(),
    ensures
        decoded(w.take(i + 1), hr) == match decoded(w.take(i), hr) {
            Ok(m) => decode_entry(m, w[i], hr),
            Err(e) => Err(e),
        },
{
    assert(w.take(i + 1).drop_last() =~= w.take(i));
}

/// Decodes a wire map into a header map. The human-readable flag is fixed for
/// the whole call: there a name may carry a bare scalar or an array, while a
/// compact format must give an array. Every value is appended to its name, so
/// a name met twice keeps the values of both entries, in the order met. The
/// first invalid name or value, or a scalar where an array belongs, fails the
/// whole call.
pub fn deserialize(wire: &Vec<WireEntry>, human_readable: bool) -> (r: Result<HeaderMap, DecodeError>)
    ensures
        match r {
            Ok(m) => decoded(wire_view(wire@), human_readable) == Ok::<HeadersV, DecodeError>(m@)
                && well_formed(m@),
            Err(e) => decoded(wire_view(wire@), human_readable) == Err::<HeadersV, DecodeError>(e),
        },
{
    let ghost w = wire_view(wire@);
    let mut map = HeaderMap { entries: Vec::with_capacity(wire.len()) };
    assert(map@ =~= Seq::<(Seq<u8>, Seq<Seq<u8>>)>::empty());
    assert(w.take(0) =~= Seq::<(Seq<u8>, GroupV)>::empty());
    let mut i: usize = 0;
    while i < wire.len()
        invariant
            w == wire_view(wire@),
            0 <= i <= wire.len(),
            decoded(w.take(i as int), human_readable) == Ok::<HeadersV, DecodeError>(map@),
            well_formed(map@),
        decreases wire.len() - i,
    {
        let e = &wire[i];
        assert(w[i as int] == e@);
        proof {
            lemma_decoded_step(w, i as int, human_readable);
        }
        let name = match parse_name(&e.name) {
            Some(n) => n,
            None => {
                proof {
                    lemma_decoded_error_persists(w, i + 1, human_readable);
                }
                return Err(DecodeError::InvalidName);
            },
        };
        match &e.group {
            Group::One(v) => {
                if !human_readable {
                    proof {
                        lemma_decoded_error_persists(w, i + 1, human_readable);
                    }
                    return Err(DecodeError::ExpectedArray);
                }
                if !check_value(v) {
                    proof {
                        lemma_decoded_error_persists(w, i + 1, human_readable);
                    }
                    return Err(DecodeError::InvalidValue);
                }
                map.append(name, copy_bytes(v));
            },
            Group::Many(vs) => {
                let ghost s = values_view(vs@);
                let mut j: usize = 0;
                while j < vs.len()
                    invariant
                        s == values_view(vs@),
                        w == wire_view(wire@),
                        0 <= i < wire.len(),
                        w[i as int] == e@,
                        e.group == Group::Many(*vs),
                        decoded(w.take(i as int), human_readable) == Ok::<HeadersV, DecodeError>(map@),
                        parsed_header_name(e.name@) == Some(name@),
                        0 <= j <= vs.len(),
                        forall|k: int| 0 <= k < j ==> valid_value(#[trigger] s[k]),
                    decreases vs.len() - j,
                {
                    if !check_value(&vs[j]) {
                        assert(!valid_value(s[j as int]));
                        assert(!all_valid(s));
                        proof {
                            lemma_decoded_step(w, i as int, human_readable);
                            lemma_decoded_error_persists(w, i + 1, human_readable);
                        }
                        return Err(DecodeError::InvalidValue);
                    }
                    j = j + 1;
                }
                let ghost m0 = map@;
                let mut j: usize = 0;
                assert(s.take(0) =~= Seq::<Seq<u8>>::empty());
                while j < vs.len()
                    invariant
                        s == values_view(vs@),
                        all_valid(s),
                        valid_name(name@),
                        0 <= j <= vs.len(),
                        map@ == append_values(m0, name@, s.take(j as int)),
                        well_formed(map@),
                    decreases vs.len() - j,
                {
                    assert(s.take(j + 1).drop_last() =~= s.take(j as int));
                    assert(valid_value(s[j as int]));
                    map.append(name.clone(), copy_bytes(&vs[j]));
                    j = j + 1;
                }
                assert(s.take(vs.len() as int) =~= s);
            },
        }
        i = i + 1;
    }
    assert(w.take(wire.len() as int) =~= w);
    Ok(map)
}

/// Values appended under a name the map does not hold form one new entry at
/// the end.
proof fn lemma_append_values_fresh(m: HeadersV, n: Seq<u8>, vs: Seq<Seq<u8>>)
    requires
        !has_name(m, n),
        vs.len() > 0,
    ensures
        append_values(m, n, vs) == m.push((n, vs)),
    decreases vs.len(),
{
    if vs.len() == 1 {
        assert(vs.drop_last() =~= Seq::<Seq<u8>>::empty());
        assert(append_values(m, n, vs.drop_last()) == m);
        assert(seq![vs.last()] =~= vs);
    } else {
        lemma_append_values_fresh(m, n, vs.drop_last());
        let p = m.push((n, vs.drop_last()));
        assert(p[m.len() as int].0 == n);
        assert(has_name(p, n));
        let i = name_index(p, n);
        assert(i == m.len()) by {
            if i != m.len() {
                assert(m[i].0 == n);
            }
        }
        assert(vs.drop_last().push(vs.last()) =~= vs);
        assert(p.update(i, (n, vs)) =~= m.push((n, vs)));
    }
}

/// Appending two runs of values under one name is appending their
/// concatenation.
pub proof fn lemma_append_values_concat(m: HeadersV, n: Seq<u8>, a: Seq<Seq<u8>>, b: Seq<Seq<u8>>)
    ensures
        append_values(append_values(m, n, a), n, b) == append_values(m, n, a + b),
    decreases b.len(),
{
    if b.len() == 0 {
        assert(a + b =~= a);
    } else {
        lemma_append_values_concat(m, n, a, b.drop_last());
        assert((a + b).drop_last() =~= a + b.drop_last());
        assert((a + b).last() == b.last());
    }
}

/// The first `k` encoded entries of a well-formed map decode to its first `k`
/// entries.
proof fn lemma_round_trip_prefix(m: HeadersV, human_readable: bool, k: int)
    requires
        well_formed(m),
        0 <= k <= m.len(),
    ensures
        decoded(encoded(m, human_readable).take(k), human_readable) == Ok::<HeadersV, DecodeError>(m.take(k)),
    decreases k,
{
    let w = encoded(m, human_readable);
    if k == 0 {
        assert(w.take(0) =~= Seq::<(Seq<u8>, GroupV)>::empty());
        assert(m.take(0) =~= Seq::<(Seq<u8>, Seq<Seq<u8>>)>::empty());
    } else {
        let i = k - 1;
        lemma_round_trip_prefix(m, human_readable, i);
        lemma_decoded_step(w, i, human_readable);
        let n = m[i].0;
        let vs = m[i].1;
        let p = m.take(i);
        assert(valid_name(n));
        assert(!has_name(p, n)) by {
            if has_name(p, n) {
                let j = choose|j: int| 0 <= j < p.len() && p[j].0 == n;
                assert(m[j].0 == m[i].0);
            }
        }
        assert(all_valid(vs));
        assert(m.take(k) =~= p.push((n, vs)));
        if human_readable && vs.len() == 1 {
            assert(seq![vs[0]] =~= vs);
            assert(valid_value(vs[0]));
        } else {
            lemma_append_values_fresh(p, n, vs);
        }
    }
}

/// Encoding a well-formed header map and decoding the result in the same
/// format gives back the same map: the same names in the same order, each with
/// the same values in the same order.
pub proof fn lemma_round_trip(m: HeadersV, human_readable: bool)
    requires
        well_formed(m),
    ensures
        !has_empty_entry(m),
        decoded(encoded(m, human_readable), human_readable) == Ok::<HeadersV, DecodeError>(m),
{
    let w = encoded(m, human_readable);
    lemma_round_trip_prefix(m, human_readable, m.len() as int);
    assert(w.take(m.len() as int) =~= w);
    assert(m.take(m.len() as int) =~= m);
    assert(!has_empty_entry(m)) by {
        if has_empty_entry(m) {
            let i = choose|i: int| 0 <= i < m.len() && m[i].1.len() == 0;
            assert(m[i].1.len() > 0);
        }
    }
}

/// In a human-readable format a bare scalar and a one-element array holding it
/// decode alike, wherever the entry stands.
pub proof fn lemma_scalar_array_duality(prefix: WireV, n: Seq<u8>, v: Seq<u8>)
    ensures
        decoded(prefix.push((n, GroupV::One(v))), true) == decoded(prefix.push((n, GroupV::Many(seq![v]))), true),
{
    let a = prefix.push((n, GroupV::One(v)));
    let b = prefix.push((n, GroupV::Many(seq![v])));
    assert(a.drop_last() =~= prefix);
    assert(b.drop_last() =~= prefix);
    assert(seq![v].drop_last() =~= Seq::<Seq<u8>>::empty());
    assert(all_valid(seq![v]) == valid_value(v)) by {
        if valid_value(v) {
            assert(forall|j: int| 0 <= j < 1 ==> seq![v][j] == v);
        } else {
            assert(seq![v][0] == v);
        }
    }
    assert(decoded(a, true) == match decoded(prefix, true) {
        Ok(m) => decode_entry(m, (n, GroupV::One(v)), true),
        Err(e) => Err(e),
    });
    assert(decoded(b, true) == match decoded(prefix, true) {
        Ok(m) => decode_entry(m, (n, GroupV::Many(seq![v])), true),
        Err(e) => Err(e),
    });
    match decoded(prefix, true) {
        Ok(m) => {
            if let Some(nn) = parsed_header_name(n) {
                assert(append_values(m, nn, seq![v].drop_last()) == m);
                assert(seq![v].last() == v);
                assert(append_values(m, nn, seq![v]) == append_value(m, nn, v));
            }
        },
        Err(_) => {},
    }
}

/// A compact encoding never holds a bare scalar: every name carries an array
/// of all its values.
pub proof fn lemma_compact_always_arrays(m: HeadersV)
    ensures
        forall|i: int| 0 <= i < m.len() ==> #[trigger] encoded(m, false)[i] == (m[i].0, GroupV::Many(m[i].1)),
{
}

/// Two consecutive entries with the same name decode as one entry whose array
/// holds the values of both, in the order met.
pub proof fn lemma_repeated_name_appends(
    prefix: WireV,
    n: Seq<u8>,
    a: Seq<Seq<u8>>,
    b: Seq<Seq<u8>>,
    human_readable: bool,
)
    ensures
        decoded(prefix.push((n, GroupV::Many(a))).push((n, GroupV::Many(b))), human_readable)
            == decoded(prefix.push((n, GroupV::Many(a + b))), human_readable),
{
    let two = prefix.push((n, GroupV::Many(a))).push((n, GroupV::Many(b)));
    let one = prefix.push((n, GroupV::Many(a + b)));
    assert(two.drop_last().drop_last() =~= prefix);
    assert(one.drop_last() =~= prefix);
    assert(all_valid(a + b) == (all_valid(a) && all_valid(b))) by {
        if all_valid(a) && all_valid(b) {
            assert forall|j: int| 0 <= j < (a + b).len() implies valid_value(#[trigger] (a + b)[j]) by {
                if j < a.len() {
                    assert((a + b)[j] == a[j]);
                } else {
                    assert((a + b)[j] == b[j - a.len()]);
                }
            }
        }
        if all_valid(a + b) {
            assert forall|j: int| 0 <= j < a.len() implies valid_value(#[trigger] a[j]) by {
                assert((a + b)[j] == a[j]);
            }
            assert forall|j: int| 0 <= j < b.len() implies valid_value(#[trigger] b[j]) by {
                assert((a + b)[a.len() + j] == b[j]);
            }
        }
    }
    let mid = prefix.push((n, GroupV::Many(a)));
    assert(two.drop_last() =~= mid);
    assert(mid.drop_last() =~= prefix);
    assert(decoded(two, human_readable) == match decoded(mid, human_readable) {
        Ok(m) => decode_entry(m, (n, GroupV::Many(b)), human_readable),
        Err(e) => Err(e),
    });
    assert(decoded(mid, human_readable) == match decoded(prefix, human_readable) {
        Ok(m) => decode_entry(m, (n, GroupV::Many(a)), human_readable),
        Err(e) => Err(e),
    });
    assert(decoded(one, human_readable) == match decoded(prefix, human_readable) {
        Ok(m) => decode_entry(m, (n, GroupV::Many(a + b)), human_readable),
        Err(e) => Err(e),
    });
    match decoded(prefix, human_readable) {
        Ok(m) => {
            match parsed_header_name(n) {
                Some(nn) => {
                    lemma_append_values_concat(m, nn, a, b);
                },
                None => {},
            }
        },
        Err(_) => {},
    }
}

impl HeaderMap {
    /// An empty map.
    pub fn new() -> (r: HeaderMap)
        ensures
            r@ == Seq::<(Seq<u8>, Seq<Seq<u8>>)>::empty(),
            well_formed(r@),
    {
        HeaderMap { entries: Vec::new() }
    }

    /// Binds one more value to a name given as raw bytes: the name is
    /// normalised first; an invalid name or value leaves the map unchanged and
    /// is reported.
    pub fn try_append(&mut self, name: &[u8], value: &[u8]) -> (r: Result<(), DecodeError>)
        requires
            well_formed(old(self)@),
        ensures
            well_formed(final(self)@),
            match parsed_header_name(name@) {
                None => r == Err::<(), DecodeError>(DecodeError::InvalidName) && final(self)@ == old(self)@,
                Some(n) => if valid_value(value@) {
                    r is Ok && final(self)@ == append_value(old(self)@, n, value@)
                } else {
                    r == Err::<(), DecodeError>(DecodeError::InvalidValue) && final(self)@ == old(self)@
                },
            },
    {
        let n = match parse_name(name) {
            Some(n) => n,
            None => return Err(DecodeError::InvalidName),
        };
        if !check_value(value) {
            return Err(DecodeError::InvalidValue);
        }
        let mut v: Vec<u8> = Vec::new();
        let mut i: usize = 0;
        while i < value.len()
            invariant
                0 <= i <= value.len(),
                v@ == value@.take(i as int),
            decreases value.len() - i,
        {
            v.push(value[i]);
            i = i + 1;
            assert(v@ =~= value@.take(i as int));
        }
        assert(value@.take(value.len() as int) =~= value@);
        self.append(n, v);
        Ok(())
    }

    /// The values bound to a name, in order; none for a name the map lacks.
    pub fn get_all(&self, name: &Vec<u8>) -> (r: Vec<Vec<u8>>)
        requires
            names_unique(self@),
        ensures
            if has_name(self@, name@) {
                values_view(r@) == self@[name_index(self@, name@)].1
            } else {
                r@.len() == 0
            },
    {
        let mut i: usize = 0;
        while i < self.entries.len()
            invariant
                names_unique(self@),
                0 <= i <= self.entries.len(),
                forall|j: int| 0 <= j < i ==> self@[j].0 != name@,
            decreases self.entries.len() - i,
        {
            if vec_eq(&self.entries[i].name, name) {
                assert(self@[i as int].0 == name@);
                assert(has_name(self@, name@));
                assert(name_index(self@, name@) == i as int);
                return copy_values(&self.entries[i].values);
            }
            i = i + 1;
        }
        Vec::new()
    }

    /// The number of distinct names.
    pub fn len(&self) -> (r: usize)
        ensures
            r == self@.len(),
    {
        self.entries.len()
    }

    /// Binds one more value to a name: a new name gets an entry of its own at
    /// the end, a known one keeps its place and gets the value after its others.
    pub fn append(&mut self, name: Vec<u8>, value: Vec<u8>)
        requires
            well_formed(old(self)@),
            valid_name(name@),
            valid_value(value@),
        ensures
            final(self)@ == append_value(old(self)@, name@, value@),
            well_formed(final(self)@),
    {
        let ghost m = self@;
        let mut i: usize = 0;
        while i < self.entries.len()
            invariant
                self@ == m,
                m == old(self)@,
                well_formed(m),
                valid_name(name@),
                valid_value(value@),
                0 <= i <= self.entries.len(),
                forall|j: int| 0 <= j < i ==> m[j].0 != name@,
            decreases self.entries.len() - i,
        {
            if vec_eq(&self.entries[i].name, &name) {
                assert(m[i as int].0 == name@);
                assert(has_name(m, name@));
                let ghost k = name_index(m, name@);
                assert(k == i as int);
                let mut e = self.entries.remove(i);
                e.values.push(value);
                self.entries.insert(i, e);
                assert(self@ =~= append_value(m, name@, value@)) by {
                    assert(e@.1 =~= m[i as int].1.push(value@));
                }
                assert(all_valid(self@[i as int].1));
                return;
            }
            i = i + 1;
        }
        assert(!has_name(m, name@));
        let mut values: Vec<Vec<u8>> = Vec::new();
        values.push(value);
        self.entries.push(HeaderEntry { name, values });
        assert(self@ =~= append_value(m, name@, value@)) by {
            assert(self.entries@.last()@.1 =~= seq![value@]);
        }
    }
}

/// A copy of a byte string.
pub fn copy_bytes(v: &Vec<u8>) -> (r: Vec<u8>)
    ensures
        r@ == v@,
{
    let mut r: Vec<u8> = Vec::new();
    let mut i: usize = 0;
    while i < v.len()
        invariant
            0 <= i <= v.len(),
            r@ == v@.take(i as int),
        decreases v.len() - i,
    {
        r.push(v[i]);
        i = i + 1;
        assert(r@ =~= v@.take(i as int));
    }
    assert(v@.take(v.len() as int) =~= v@);
    r
}

/// A copy of a list of byte strings.
pub fn copy_values(vs: &Vec<Vec<u8>>) -> (r: Vec<Vec<u8>>)
    ensures
        values_view(r@) == values_view(vs@),
{
    let mut r: Vec<Vec<u8>> = Vec::new();
    let mut i: usize = 0;
    while i < vs.len()
        invariant
            0 <= i <= vs.len(),
            r@.len() == i,
            forall|j: int| 0 <= j < i ==> r@[j]@ == vs@[j]@,
        decreases vs.len() - i,
    {
        r.push(copy_bytes(&vs[i]));
        i = i + 1;
    }
    assert(values_view(r@) =~= values_view(vs@));
    r
}

/// Equality of two byte strings.
pub fn vec_eq(a: &Vec<u8>, b: &Vec<u8>) -> (r: bool)
    ensures
        r == (a@ == b@),
{
    if a.len() != b.len() {
        return false;
    }
    let mut i: usize = 0;
    while i < a.len()
        invariant
            a.len() == b.len(),
            0 <= i <= a.len(),
            forall|j: int| 0 <= j < i ==> a@[j] == b@[j],
        decreases a.len() - i,
    {
        if a[i] != b[i] {
            return false;
        }
        i = i + 1;
    }
    assert(a@ =~= b@);
    true
}

} // verus!
