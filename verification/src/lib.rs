//! Codec for the smart-contract calling-convention description language:
//! type strings and method-signature strings are parsed into a structured,
//! range-checked type model and serialized back, and a method's canonical
//! signature yields its 4-byte dispatch selector.
//!
//! The parser and serializer are verified inverses: `AbiType::from_string`
//! accepts exactly the canonical string of each well-formed type and returns
//! that type, and `AbiType::string` reproduces the canonical string.
use vstd::prelude::*;

pub mod abi_type;
pub mod error;
pub mod grammar;
pub mod interactions;

use crate::abi_type::AbiType;
use crate::error::AbiError;

verus! {

/// Makes a tuple ABI type by taking an array of tuple element types as
/// argument. A tuple may hold zero or more elements; only an element count
/// that does not fit the 16-bit length tag is a range error.
pub fn make_tuple_type(argument_types: Vec<AbiType>) -> (r: Result<AbiType, AbiError>)
    ensures
        argument_types@.len() < 65535 ==> (r matches Ok(t) && t == (AbiType::Tuple {
            children: argument_types,
        })),
        argument_types@.len() >= 65535 ==> r is Err,
{
    crate::abi_type::make_tuple_type(argument_types)
}

} // verus!
