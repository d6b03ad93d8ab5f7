//! Record TYPE and CLASS: sum types with explicit known variants and a
//! catch-all carrying the raw numeric value, so that unknown values pass
//! through the codec losslessly.

use vstd::prelude::*;

verus! {

/// The type of a record. `A` and `AAAA` are handled by the pipeline; every
/// other value is carried through unchanged.
#[derive(Clone, Copy, Debug, PartialEq, Eq, Structural)]
#[allow(non_camel_case_types)]
pub enum TYPE {
    /// IPv4 host address.
    A,
    /// IPv6 host address.
    AAAA,
    /// Any other value, carried as-is.
    NotImplemented(u16),
}

/// The numeric value of a TYPE.
pub open spec fn spec_type_to_u16(t: TYPE) -> u16 {
    match t {
        TYPE::A => 1,
        TYPE::AAAA => 28,
        TYPE::NotImplemented(v) => v,
    }
}

/// The TYPE a numeric value decodes to.
pub open spec fn spec_type_from_u16(value: u16) -> TYPE {
    if value == 1 {
        TYPE::A
    } else if value == 28 {
        TYPE::AAAA
    } else {
        TYPE::NotImplemented(value)
    }
}

/// A TYPE is canonical when its catch-all variant holds no known value.
pub open spec fn type_wf(t: TYPE) -> bool {
    match t {
        TYPE::NotImplemented(v) => v != 1 && v != 28,
        _ => true,
    }
}

impl TYPE {
    /// Decodes a numeric TYPE value.
    pub fn from_u16(value: u16) -> (r: TYPE)
        ensures
            r == spec_type_from_u16(value),
            type_wf(r),
    {
        if value == 1 {
            TYPE::A
        } else if value == 28 {
            TYPE::AAAA
        } else {
            TYPE::NotImplemented(value)
        }
    }

    /// Encodes this TYPE as its numeric value.
    pub fn to_u16(&self) -> (r: u16)
        ensures
            r == spec_type_to_u16(*self),
    {
        match self {
            TYPE::A => 1,
            TYPE::AAAA => 28,
            TYPE::NotImplemented(v) => *v,
        }
    }
}

/// Every numeric TYPE value survives a decode-encode round trip, and every
/// canonical TYPE survives an encode-decode round trip.
pub proof fn lemma_type_round_trip(value: u16, t: TYPE)
    requires
        type_wf(t),
    ensures
        spec_type_to_u16(spec_type_from_u16(value)) == value,
        spec_type_from_u16(spec_type_to_u16(t)) == t,
{
}

/// The class of a record. Only `IN` is known; every other value is carried
/// through unchanged.
#[derive(Clone, Copy, Debug, PartialEq, Eq, Structural)]
#[allow(non_camel_case_types)]
pub enum CLASS {
    /// The Internet class.
    IN,
    /// Any other value, carried as-is.
    NotImplemented(u16),
}

/// The numeric value of a CLASS.
pub open spec fn spec_class_to_u16(c: CLASS) -> u16 {
    match c {
        CLASS::IN => 1,
        CLASS::NotImplemented(v) => v,
    }
}

/// The CLASS a numeric value decodes to.
pub open spec fn spec_class_from_u16(value: u16) -> CLASS {
    if value == 1 {
        CLASS::IN
    } else {
        CLASS::NotImplemented(value)
    }
}

/// A CLASS is canonical when its catch-all variant holds no known value.
pub open spec fn class_wf(c: CLASS) -> bool {
    match c {
        CLASS::NotImplemented(v) => v != 1,
        _ => true,
    }
}

impl CLASS {
    /// Decodes a numeric CLASS value.
    pub fn from_u16(value: u16) -> (r: CLASS)
        ensures
            r == spec_class_from_u16(value),
            class_wf(r),
    {
        if value == 1 {
            CLASS::IN
        } else {
            CLASS::NotImplemented(value)
        }
    }

    /// Encodes this CLASS as its numeric value.
    pub fn to_u16(&self) -> (r: u16)
        ensures
            r == spec_class_to_u16(*self),
    {
        match self {
            CLASS::IN => 1,
            CLASS::NotImplemented(v) => *v,
        }
    }
}

/// Every numeric CLASS value survives a decode-encode round trip, and every
/// canonical CLASS survives an encode-decode round trip.
pub proof fn lemma_class_round_trip(value: u16, c: CLASS)
    requires
        class_wf(c),
    ensures
        spec_class_to_u16(spec_class_from_u16(value)) == value,
        spec_class_from_u16(spec_class_to_u16(c)) == c,
{
}

} // verus!
