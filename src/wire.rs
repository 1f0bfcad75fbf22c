//! The format-level shape of an encoded header map: a sequence of entries,
//! each pairing a name with one value or with an array of values.
use vstd::prelude::*;

verus! {

/// The value side of one encoded entry: a lone scalar or an array of scalars.
#[derive(Debug, Clone, PartialEq, Eq)]
pub enum Group {
    One(Vec<u8>),
    Many(Vec<Vec<u8>>),
}

/// The abstract value of a [`Group`].
pub enum GroupV {
    One(Seq<u8>),
    Many(Seq<Seq<u8>>),
}


/// The abstract value of a list of byte strings.
pub open spec fn values_view(vs: Seq<Vec<u8>>) -> Seq<Seq<u8>> {
    vs.map_values(|v: Vec<u8>| v@)
}

impl View for Group {
    type V = GroupV;

    open spec fn view(&self) -> GroupV {
        match self {
            Group::One(v) => GroupV::One(v@),
            Group::Many(vs) => GroupV::Many(values_view(vs@)),
        }
    }
}

/// One entry of an encoded header map.
#[derive(Debug, Clone, PartialEq, Eq)]
pub struct WireEntry {
    pub name: Vec<u8>,
    pub group: Group,
}

impl View for WireEntry {
    type V = (Seq<u8>, GroupV);

    open spec fn view(&self) -> (Seq<u8>, GroupV) {
        (self.name@, self.group@)
    }
}

/// The abstract value of an encoded header map.
pub open spec fn wire_view(w: Seq<WireEntry>) -> Seq<(Seq<u8>, GroupV)> {
    w.map_values(|e: WireEntry| e@)
}

} // verus!
