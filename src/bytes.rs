//! Bytes to and from base 4 catspeak, four cat sounds per byte.
use vstd::prelude::*;
use crate::anybase::ANYBASE_TOKENS;
use crate::base4;
use crate::error::CatError;
use crate::model::{bytes_result, catspeak, decode_bytes, encode_bytes};

verus! {

/// Encodes bytes into base 4 catspeak.
pub fn from_bytes(bytes: Vec<u8>) -> (r: String)
    ensures
        encode_bytes(catspeak().take(ANYBASE_TOKENS as int), bytes@, 4, 4) == Ok::<_, CatError>(r@),
{
    base4::bytes::encode(bytes.as_slice())
}

/// Decodes base 4 catspeak into bytes.
pub fn to_bytes(text: String) -> (r: Result<Vec<u8>, CatError>)
    ensures
        bytes_result(r) == decode_bytes(catspeak().take(ANYBASE_TOKENS as int), text@, 4, 4),
{
    base4::bytes::decode(text)
}

} // verus!
