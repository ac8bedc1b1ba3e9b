//! Base 4 presets: English text a-z, three cat sounds per letter, or bytes (see [`bytes`]).
use vstd::prelude::*;
use crate::anybase;
use crate::anybase::ANYBASE_TOKENS;
use crate::error::CatError;
use crate::model::{catspeak, decode_text, encode_text, str_result};
use crate::numeral;

pub mod bytes;

verus! {

/// The base of this module.
pub const BASE: u32 = 4;

/// Returns the four cat sounds of base 4.
pub fn alphabet() -> (r: Vec<String>)
    ensures
        r.deep_view() == catspeak().take(BASE as int),
{
    let mut r = numeral::alphabet();
    r.truncate(BASE as usize);
    assert(r.deep_view() =~= catspeak().take(BASE as int));
    r
}

/// Encodes English text into base 4 catspeak, three cat sounds per letter.
pub fn encode(text: String) -> (r: Result<String, CatError>)
    ensures
        str_result(r) == encode_text(catspeak().take(ANYBASE_TOKENS as int), text@, BASE as nat, 3),
{
    proof {
        numeral::lemma_base4_widths();
    }
    anybase::encode(text, BASE, numeral::char_length(BASE))
}

/// Decodes base 4 catspeak, three cat sounds per letter, into English text.
pub fn decode(text: String) -> (r: Result<String, CatError>)
    ensures
        str_result(r) == decode_text(catspeak().take(ANYBASE_TOKENS as int), text@, BASE as nat, 3),
{
    proof {
        numeral::lemma_base4_widths();
    }
    anybase::decode(text, BASE, numeral::char_length(BASE))
}

} // verus!
