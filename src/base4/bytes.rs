//! Encoding and decoding bytes in base 4 catspeak, four cat sounds per byte.
use vstd::prelude::*;
use vstd::arithmetic::power::pow;
use crate::anybase;
use crate::anybase::ANYBASE_TOKENS;
use crate::error::CatError;
use crate::model::{bytes_result, catspeak, decode_bytes, encode_bytes};
use crate::numeral;
use super::BASE;

verus! {

/// Encodes bytes into base 4 catspeak; every byte fits in four cat sounds.
pub fn encode(bytes: &[u8]) -> (r: String)
    ensures
        encode_bytes(catspeak().take(ANYBASE_TOKENS as int), bytes@, BASE as nat, 4) == Ok::<_, CatError>(r@),
{
    proof {
        numeral::lemma_base4_widths();
        reveal(pow);
        assert(pow(4, 0) == 1);
        assert(pow(4, 1) == 4);
        assert(pow(4, 2) == 16);
        assert(pow(4, 3) == 64);
        assert(pow(4, 4) == 256);
    }
    match anybase::bytes::encode(bytes, BASE, numeral::bytes::char_length(BASE)) {
        Ok(s) => s,
        Err(_) => {
            assert(false);
            String::new()
        },
    }
}

/// Decodes base 4 catspeak, four cat sounds per byte, into bytes.
pub fn decode(text: String) -> (r: Result<Vec<u8>, CatError>)
    ensures
        bytes_result(r) == decode_bytes(catspeak().take(ANYBASE_TOKENS as int), text@, BASE as nat, 4),
{
    proof {
        numeral::lemma_base4_widths();
    }
    anybase::bytes::decode(text, BASE, numeral::bytes::char_length(BASE))
}

} // verus!
