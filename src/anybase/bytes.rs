//! Encoding of bytes in any base up to [`super::max_base()`].
use vstd::prelude::*;
use vstd::arithmetic::power::pow;
use vstd::string::StringExecFns;
use crate::error::CatError;
use crate::model::{
    active, bytes_result, catspeak, decode_byte_groups, decode_bytes, encode_bytes, group_of, join,
    lemma_byte_groups_prefix_err, segment, space, str_result,
};
use crate::numeral::{cat_to_num, num_to_cat, split_every_x, NO_WIDTH};
use crate::strings::clone_tokens;
use super::{active_alphabet, ANYBASE_TOKENS};

verus! {

/// Encodes bytes into catspeak: `char_length` cat sounds per byte, all
/// separated by single spaces.
pub fn encode(bytes: &[u8], base: u32, char_length: u32) -> (r: Result<String, CatError>)
    ensures
        str_result(r) == encode_bytes(catspeak().take(ANYBASE_TOKENS as int), bytes@, base as nat, char_length as nat),
{
    let ghost full = catspeak().take(ANYBASE_TOKENS as int);
    assert(full.len() == ANYBASE_TOKENS);
    if base == 0 || base > ANYBASE_TOKENS {
        return Err(CatError::BaseOutOfRange);
    }
    if char_length == NO_WIDTH {
        return Err(CatError::WidthOverflow);
    }
    let alph = active_alphabet(base);
    let ghost a = active(full, base as nat);
    let ghost w = char_length as nat;
    let ghost gs = bytes@.map_values(|x: u8| join(group_of(a, x as int, w), space()));
    let mut out = String::new();
    let mut i: usize = 0;
    while i < bytes.len()
        invariant
            full == catspeak().take(ANYBASE_TOKENS as int),
            full.len() == ANYBASE_TOKENS,
            base <= ANYBASE_TOKENS,
            char_length != NO_WIDTH,
            a == active(full, base as nat),
            alph.deep_view() == a,
            a.len() == base,
            base > 0,
            w == char_length as nat,
            gs == bytes@.map_values(|x: u8| join(group_of(a, x as int, w), space())),
            i <= bytes.len(),
            out@ == join(gs.take(i as int), space()),
            forall|k: int| 0 <= k < i ==> bytes@[k] < pow(base as int, w),
        decreases bytes.len() - i,
    {
        match num_to_cat(bytes[i] as u32, clone_tokens(&alph), char_length) {
            Ok(g) => {
                assert(gs.take(i as int + 1).drop_last() =~= gs.take(i as int));
                if i > 0 {
                    proof {
                        reveal_strlit(" ");
                    }
                    out.append(" ");
                }
                out.append(g.as_str());
            },
            Err(e) => {
                assert(bytes@[i as int] >= pow(base as int, w));
                assert(e == CatError::ValueOutOfRange);
                assert(exists|k: int| 0 <= k < bytes@.len() && bytes@[k] >= pow(base as int, w));
                return Err(e);
            },
        }
        i = i + 1;
    }
    assert(gs.take(i as int) =~= gs);
    Ok(out)
}

/// Decodes catspeak into bytes: every `char_length` cat sounds make one byte.
pub fn decode(text: String, base: u32, char_length: u32) -> (r: Result<Vec<u8>, CatError>)
    ensures
        bytes_result(r) == decode_bytes(catspeak().take(ANYBASE_TOKENS as int), text@, base as nat, char_length as nat),
{
    let ghost full = catspeak().take(ANYBASE_TOKENS as int);
    assert(full.len() == ANYBASE_TOKENS);
    if base == 0 || base > ANYBASE_TOKENS {
        return Err(CatError::BaseOutOfRange);
    }
    if char_length == NO_WIDTH {
        return Err(CatError::WidthOverflow);
    }
    let groups = match split_every_x(text.as_str(), char_length) {
        Ok(g) => g,
        Err(e) => {
            return Err(e);
        },
    };
    let ghost gs = groups.deep_view();
    let alph = active_alphabet(base);
    let ghost a = active(full, base as nat);
    let ghost w = char_length as nat;
    let mut out: Vec<u8> = Vec::new();
    let mut i: usize = 0;
    assert(gs.take(0) =~= Seq::<Seq<Seq<char>>>::empty());
    while i < groups.len()
        invariant
            gs == groups.deep_view(),
            segment(text@, w) == Ok::<_, CatError>(gs),
            full == catspeak().take(ANYBASE_TOKENS as int),
            full.len() == ANYBASE_TOKENS,
            0 < base <= ANYBASE_TOKENS,
            char_length != NO_WIDTH,
            w == char_length as nat,
            a == active(full, base as nat),
            alph.deep_view() == a,
            i <= groups.len(),
            decode_byte_groups(a, gs.take(i as int), w) == Ok::<_, CatError>(out@),
        decreases groups.len() - i,
    {
        assert(gs.take(i as int + 1).drop_last() =~= gs.take(i as int));
        assert(gs.take(i as int + 1).last() == gs[i as int]);
        let g = clone_tokens(&groups[i]);
        match cat_to_num(g, clone_tokens(&alph), char_length) {
            Ok(v) => {
                if v > 255 {
                    proof {
                        lemma_byte_groups_prefix_err(a, gs, w, i as int + 1);
                    }
                    return Err(CatError::ValueOutOfRange);
                }
                out.push(v as u8);
            },
            Err(e) => {
                proof {
                    lemma_byte_groups_prefix_err(a, gs, w, i as int + 1);
                }
                return Err(e);
            },
        }
        i = i + 1;
    }
    assert(gs.take(i as int) =~= gs);
    Ok(out)
}

} // verus!
