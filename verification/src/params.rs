//! The configured process variables and the values decoded for them.

use vstd::prelude::*;
use crate::codec::Float32;
use crate::codec::bits_of;
use crate::codec::join_halves;

verus! {

/// How the register pair of a parameter is read.
#[derive(Clone, Copy, Debug, PartialEq, Eq, Structural)]
pub enum Kind {
    /// A 32-bit integer shown as 32 flags.
    Bitfield,
    /// An IEEE-754 single-precision float.
    Float,
}

impl Kind {
    /// The kind that a configuration record's numeric code stands for:
    /// 0 for a bitfield, 1 for a float, nothing for any other code.
    pub fn from_code(code: i32) -> (kind: Option<Kind>)
        ensures
            kind == Kind::from_code_spec(code as int),
    {
        if code == 0 {
            Some(Kind::Bitfield)
        } else if code == 1 {
            Some(Kind::Float)
        } else {
            None
        }
    }

    /// The numeric code of the kind.
    pub fn code(self) -> (code: i32)
        ensures
            Kind::from_code_spec(code as int) == Some(self),
    {
        match self {
            Kind::Bitfield => 0,
            Kind::Float => 1,
        }
    }

    /// The kind behind a numeric code, if there is one.
    pub open spec fn from_code_spec(code: int) -> Option<Kind> {
        if code == 0 {
            Some(Kind::Bitfield)
        } else if code == 1 {
            Some(Kind::Float)
        } else {
            None
        }
    }
}

/// One configured process variable. `id` is the controller's index of the
/// parameter, counted from 1.
#[derive(Debug)]
pub struct ParameterSpec {
    pub id: u16,
    pub name: String,
    pub kind: Kind,
}

/// The largest parameter id whose register pair still has a 16-bit address.
pub const MAX_ID: u16 = 32768;

/// Whether the register pair of parameter `id` can be addressed.
pub open spec fn addressable(id: u16) -> bool {
    1 <= id <= MAX_ID
}

/// The address of the first of the two registers of parameter `id`.
pub open spec fn register_address(id: u16) -> int {
    (id - 1) * 2
}

/// Whether `id` is the id of one of `specs`.
pub open spec fn has_id(specs: Seq<ParameterSpec>, id: u16) -> bool {
    exists|k: int| 0 <= k < specs.len() && #[trigger] specs[k].id == id
}

/// The ids of `specs`, as a set.
pub open spec fn id_set(specs: Seq<ParameterSpec>) -> Set<u16> {
    Set::new(|id: u16| has_id(specs, id))
}

/// Tells whether the register pair of parameter `id` can be addressed.
pub fn is_addressable(id: u16) -> (ok: bool)
    ensures
        ok == addressable(id),
{
    1 <= id && id <= MAX_ID
}

/// The address of the first register of parameter `id`.
pub fn address_of(id: u16) -> (address: u16)
    requires
        addressable(id),
    ensures
        address == register_address(id),
{
    (id - 1) * 2
}

/// What a register pair decodes to.
#[derive(Clone, Copy, Debug)]
pub enum DecodedValue {
    Bits([bool; 32]),
    Number(Float32),
}

/// The 32-bit content of one parameter, as read from its register pair,
/// with the kind under which it is to be understood.
#[derive(Clone, Copy, Debug, PartialEq, Eq, Structural)]
pub struct Reading {
    pub id: u16,
    pub kind: Kind,
    pub pattern: u32,
}

impl DecodedValue {
    /// Whether the value is what the 32-bit `pattern` decodes to under
    /// `kind`: the 32 bits of the pattern, or the float with that pattern.
    pub open spec fn decodes(self, kind: Kind, pattern: u32) -> bool {
        match self {
            DecodedValue::Bits(flags) => kind == Kind::Bitfield && flags@ == bits_of(pattern),
            DecodedValue::Number(number) => kind == Kind::Float && number.bits == pattern,
        }
    }

    /// Decodes the register pair `lo`, `hi` as `kind` asks.
    pub fn decode(kind: Kind, lo: u16, hi: u16) -> (value: DecodedValue)
        ensures
            value.decodes(kind, join_halves(lo, hi)),
    {
        match kind {
            Kind::Bitfield => DecodedValue::Bits(crate::codec::expand_bits(crate::codec::to_int(lo, hi))),
            Kind::Float => DecodedValue::Number(crate::codec::to_float(lo, hi)),
        }
    }

    /// The kind under which the value was decoded.
    pub open spec fn kind(self) -> Kind {
        match self {
            DecodedValue::Bits(_) => Kind::Bitfield,
            DecodedValue::Number(_) => Kind::Float,
        }
    }

    /// The register pair that carries the value, the less-significant
    /// half first: the pair that decodes to the value.
    pub fn encode(&self) -> (regs: [u16; 2])
        ensures
            self.decodes(self.kind(), join_halves(regs[0], regs[1])),
    {
        match self {
            DecodedValue::Bits(flags) => {
                let val = crate::codec::pack_bits(flags);
                proof {
                    crate::codec::lemma_int_round_trip(val);
                }
                crate::codec::from_int(val)
            },
            DecodedValue::Number(number) => {
                proof {
                    crate::codec::lemma_int_round_trip(number.bits);
                }
                crate::codec::from_float(*number)
            },
        }
    }
}

impl Reading {
    /// The decoded value of the reading.
    pub fn value(&self) -> (value: DecodedValue)
        ensures
            value.decodes(self.kind, self.pattern),
    {
        proof {
            crate::codec::lemma_int_round_trip(self.pattern);
        }
        let regs = crate::codec::from_int(self.pattern);
        DecodedValue::decode(self.kind, regs[0], regs[1])
    }
}

} // verus!
