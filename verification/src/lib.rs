//! A typed attribute-value representation bridging an untyped query-language
//! value with strongly-typed attribute values, together with an entity
//! abstraction (an attribute-name-to-value mapping) that merges partial
//! updates, where a `Null` value in the update deletes the attribute.
use vstd::prelude::*;

pub mod bigint;
pub mod entity;
pub mod text;
pub mod value;

pub use bigint::BigInt;
pub use entity::Attribute;
pub use entity::Entity;
pub use value::SchemaType;
pub use value::UntypedValue;
pub use value::Value;

verus! {

/// The conditions under which a conversion between an untyped value and a
/// typed value is rejected.
#[derive(Clone, Copy, Debug, PartialEq, Eq, Structural)]
pub enum ValueError {
    /// A string declared as `Bytes` is not valid hexadecimal after an
    /// optional `0x` prefix is removed.
    InvalidHex,
    /// A string declared as `BigInt` is not a valid decimal integer.
    InvalidNumber,
    /// An integer literal does not fit in the 32-bit signed range.
    IntOverflow,
    /// The untyped shape and the declared type have no defined conversion,
    /// such as a list literal against a scalar type.
    UnsupportedValueTypeCombination,
}

} // verus!
