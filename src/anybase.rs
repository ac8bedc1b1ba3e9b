//! Encoding of English text in any base up to [`max_base()`].
use vstd::prelude::*;
use vstd::arithmetic::power::pow;
use vstd::string::StringExecFns;
use crate::error::CatError;
use crate::model::{
    active, catspeak, encode_text, encode_word, is_letter, join, lemma_split_pieces,
    letter_group, letter_value, space, split_on, str_result, word_sep, decode_text, decode_words,
    decode_letters, letter_of, segment,
    lemma_letters_prefix_err, lemma_words_prefix_err, };
use crate::numeral;
use crate::numeral::{cat_to_num, fits, num_to_cat, split_every_x, NO_WIDTH};
use crate::strings::{chars_of, clone_tokens, push_char, split_text, trim_end_spaces};

pub mod bytes;

verus! {

/// The number of cat sounds this module draws from.
pub const ANYBASE_TOKENS: u32 = 12;

/// Returns the cat sounds available to this module, in digit order.
pub fn alphabet() -> (r: Vec<String>)
    ensures
        r.deep_view() == catspeak().take(ANYBASE_TOKENS as int),
{
    let mut r = numeral::alphabet();
    r.truncate(ANYBASE_TOKENS as usize);
    assert(r.deep_view() =~= catspeak().take(ANYBASE_TOKENS as int));
    r
}

/// Returns the largest base that can be used.
pub fn max_base() -> (r: u32)
    ensures
        r == catspeak().take(ANYBASE_TOKENS as int).len(),
{
    ANYBASE_TOKENS
}

/// Returns the fewest cat sounds per letter for this base.
pub fn char_length(base: u32) -> (r: u32)
    ensures
        base >= 2 ==> crate::model::is_min_width(base as int, numeral::LETTER_MAX as int, r as int),
        base < 2 ==> r == numeral::NO_WIDTH,
{
    numeral::char_length(base)
}

/// The first `base` cat sounds of this module's alphabet.
pub(crate) fn active_alphabet(base: u32) -> (r: Vec<String>)
    requires
        base <= ANYBASE_TOKENS,
    ensures
        r.deep_view() == active(catspeak().take(ANYBASE_TOKENS as int), base as nat),
        r.len() == base,
{
    let mut r = alphabet();
    r.truncate(base as usize);
    assert(r.deep_view() =~= active(catspeak().take(ANYBASE_TOKENS as int), base as nat));
    r
}

/// The value of a letter once lowercased: `'a'` is 1, `'z'` is 26.
fn letter_value_of(c: char) -> (r: u32)
    requires
        is_letter(c),
    ensures
        r == letter_value(c),
        1 <= r <= 26,
{
    if 'a' <= c && c <= 'z' {
        (c as u32) - 96
    } else {
        (c as u32) - 64
    }
}

/// Encodes English text into catspeak using any base up to [`max_base()`].
///
/// Letters are lowercased and stand for 1 (`a`) to 26 (`z`); each becomes
/// `char_length` cat sounds. Within a word the sounds are separated by single
/// spaces, and words (cut at single spaces) by `"; "`.
pub fn encode(text: String, base: u32, char_length: u32) -> (r: Result<String, CatError>)
    ensures
        str_result(r) == encode_text(catspeak().take(ANYBASE_TOKENS as int), text@, base as nat, char_length as nat),
{
    let ghost full = catspeak().take(ANYBASE_TOKENS as int);
    assert(full.len() == ANYBASE_TOKENS);
    if base == 0 || base > ANYBASE_TOKENS {
        return Err(CatError::BaseOutOfRange);
    }
    if char_length == NO_WIDTH {
        return Err(CatError::WidthOverflow);
    }
    let ghost w = char_length as nat;
    let cs = chars_of(text.as_str());
    let mut i: usize = 0;
    while i < cs.len()
        invariant
            cs@ == text@,
            i <= cs.len(),
            full == catspeak().take(ANYBASE_TOKENS as int),
            full.len() == ANYBASE_TOKENS,
            0 < base <= ANYBASE_TOKENS,
            char_length != NO_WIDTH,
            forall|k: int| 0 <= k < i ==> cs@[k] == ' ' || is_letter(cs@[k]),
        decreases cs.len() - i,
    {
        let c = cs[i];
        if !(c == ' ' || ('a' <= c && c <= 'z') || ('A' <= c && c <= 'Z')) {
            assert(!(text@[i as int] == ' ' || is_letter(text@[i as int])));
            return Err(CatError::InvalidCharacter);
        }
        i = i + 1;
    }
    let mut i: usize = 0;
    while i < cs.len()
        invariant
            cs@ == text@,
            full == catspeak().take(ANYBASE_TOKENS as int),
            full.len() == ANYBASE_TOKENS,
            0 < base <= ANYBASE_TOKENS,
            char_length != NO_WIDTH,
            w == char_length as nat,
            i <= cs.len(),
            forall|k: int| 0 <= k < cs.len() ==> cs@[k] == ' ' || is_letter(cs@[k]),
            forall|k: int|
                0 <= k < i ==> cs@[k] == ' ' || letter_value(cs@[k]) < pow(base as int, w),
        decreases cs.len() - i,
    {
        let c = cs[i];
        if c != ' ' && !fits(letter_value_of(c), base, char_length) {
            assert(is_letter(text@[i as int]) && letter_value(text@[i as int]) >= pow(base as int, w));
            assert(forall|k: int| 0 <= k < text@.len() ==> text@[k] == ' ' || is_letter(text@[k]));
            return Err(CatError::ValueOutOfRange);
        }
        i = i + 1;
    }
    let ghost a = active(full, base as nat);
    let ghost fine = |c: char| is_letter(c) && letter_value(c) < pow(base as int, w);
    proof {
        reveal_strlit(" ");
        reveal_strlit("; ");
        lemma_split_pieces(text@, space(), fine);
    }
    assert(" "@ =~= space());
    let words = split_text(text.as_str(), " ");
    let ghost ws = words.deep_view();
    let ghost ews = ws.map_values(|word: Seq<char>| encode_word(a, word, w));
    let alph = active_alphabet(base);
    let mut out = String::new();
    let mut wi: usize = 0;
    while wi < words.len()
        invariant
            ws == words.deep_view(),
            ws == split_on(text@, space()),
            ews == ws.map_values(|word: Seq<char>| encode_word(a, word, w)),
            forall|p: int, j: int|
                0 <= p < ws.len() && 0 <= j < ws[p].len() ==> fine(#[trigger] ws[p][j]),
            fine == (|c: char| is_letter(c) && letter_value(c) < pow(base as int, w)),
            0 < base <= ANYBASE_TOKENS,
            w == char_length as nat,
            a == active(full, base as nat),
            alph.deep_view() == a,
            a.len() == base,
            wi <= words.len(),
            out@ == join(ews.take(wi as int), word_sep()),
        decreases words.len() - wi,
    {
        let wc = chars_of(words[wi].as_str());
        let ghost word = ws[wi as int];
        let ghost lgs = word.map_values(|c: char| letter_group(a, c, w));
        let mut wout = String::new();
        let mut ci: usize = 0;
        while ci < wc.len()
            invariant
                wc@ == word,
                lgs == word.map_values(|c: char| letter_group(a, c, w)),
                forall|j: int| 0 <= j < word.len() ==> fine(#[trigger] word[j]),
                fine == (|c: char| is_letter(c) && letter_value(c) < pow(base as int, w)),
                0 < base,
                w == char_length as nat,
                alph.deep_view() == a,
                a.len() == base,
                ci <= wc.len(),
                wout@ == join(lgs.take(ci as int), space()),
            decreases wc.len() - ci,
        {
            let c = wc[ci];
            assert(fine(word[ci as int]));
            proof {
                reveal_strlit(" ");
            }
            assert(" "@ =~= space());
            let v = letter_value_of(c);
            match num_to_cat(v, clone_tokens(&alph), char_length) {
                Ok(g) => {
                    assert(lgs.take(ci as int + 1).drop_last() =~= lgs.take(ci as int));
                    if ci > 0 {
                        wout.append(" ");
                    }
                    wout.append(g.as_str());
                },
                Err(e) => {
                    assert(false);
                    return Err(e);
                },
            }
            ci = ci + 1;
        }
        assert(lgs.take(ci as int) =~= lgs);
        assert(ews.take(wi as int + 1).drop_last() =~= ews.take(wi as int));
        proof {
            reveal_strlit("; ");
        }
        assert("; "@ =~= word_sep());
        if wi > 0 {
            out.append("; ");
        }
        out.append(wout.as_str());
        wi = wi + 1;
    }
    assert(ews.take(wi as int) =~= ews);
    proof {
        assert forall|k: int| 0 <= k < text@.len() && !(text@[k] == ' ' || is_letter(text@[k])) implies false by {
            assert(cs@[k] == ' ' || is_letter(cs@[k]));
        }
    }
    Ok(out)
}

/// Decodes catspeak into English text using any base up to [`max_base()`].
///
/// Words are separated by `"; "`; each word's cat sounds are cut into groups
/// of `char_length`, and each group names a letter from 1 (`a`) to 26 (`z`).
/// Words are joined by single spaces, and trailing spaces are trimmed.
pub fn decode(text: String, base: u32, char_length: u32) -> (r: Result<String, CatError>)
    ensures
        str_result(r) == decode_text(catspeak().take(ANYBASE_TOKENS as int), text@, base as nat, char_length as nat),
{
    let ghost full = catspeak().take(ANYBASE_TOKENS as int);
    assert(full.len() == ANYBASE_TOKENS);
    if base == 0 || base > ANYBASE_TOKENS {
        return Err(CatError::BaseOutOfRange);
    }
    if char_length == NO_WIDTH {
        return Err(CatError::WidthOverflow);
    }
    let ghost w = char_length as nat;
    let ghost a = active(full, base as nat);
    proof {
        reveal_strlit("; ");
    }
    assert("; "@ =~= word_sep());
    let words = split_text(text.as_str(), "; ");
    let ghost ws = words.deep_view();
    let alph = active_alphabet(base);
    let ghost mut done: Seq<Seq<char>> = seq![];
    let mut out = String::new();
    let mut wi: usize = 0;
    assert(ws.take(0) =~= Seq::<Seq<char>>::empty());
    while wi < words.len()
        invariant
            ws == words.deep_view(),
            ws == split_on(text@, word_sep()),
            full == catspeak().take(ANYBASE_TOKENS as int),
            full.len() == ANYBASE_TOKENS,
            0 < base <= ANYBASE_TOKENS,
            char_length != NO_WIDTH,
            w == char_length as nat,
            a == active(full, base as nat),
            alph.deep_view() == a,
            wi <= words.len(),
            decode_words(a, ws.take(wi as int), w) == Ok::<_, CatError>(done),
            out@ == join(done, space()),
        decreases words.len() - wi,
    {
        assert(ws.take(wi as int + 1).drop_last() =~= ws.take(wi as int));
        assert(ws.take(wi as int + 1).last() == ws[wi as int]);
        let groups = match split_every_x(words[wi].as_str(), char_length) {
            Ok(g) => g,
            Err(e) => {
                proof {
                    lemma_words_prefix_err(a, ws, w, wi as int + 1);
                }
                return Err(e);
            },
        };
        let ghost gs = groups.deep_view();
        let mut word = String::new();
        let mut gi: usize = 0;
        assert(gs.take(0) =~= Seq::<Seq<Seq<char>>>::empty());
        while gi < groups.len()
            invariant
                gs == groups.deep_view(),
                segment(ws[wi as int], w) == Ok::<_, CatError>(gs),
                ws == words.deep_view(),
                ws == split_on(text@, word_sep()),
                full == catspeak().take(ANYBASE_TOKENS as int),
                full.len() == ANYBASE_TOKENS,
                0 < base <= ANYBASE_TOKENS,
                a == active(full, base as nat),
                wi < words.len(),
                decode_words(a, ws.take(wi as int), w) == Ok::<_, CatError>(done),
                ws.take(wi as int + 1).drop_last() == ws.take(wi as int),
                ws.take(wi as int + 1).last() == ws[wi as int],
                char_length != NO_WIDTH,
                w == char_length as nat,
                alph.deep_view() == a,
                gi <= groups.len(),
                decode_letters(a, gs.take(gi as int), w) == Ok::<_, CatError>(word@),
            decreases groups.len() - gi,
        {
            assert(gs.take(gi as int + 1).drop_last() =~= gs.take(gi as int));
            assert(gs.take(gi as int + 1).last() == gs[gi as int]);
            let g = clone_tokens(&groups[gi]);
            match cat_to_num(g, clone_tokens(&alph), char_length) {
                Ok(v) => {
                    if v < 1 || v > 26 {
                        proof {
                            lemma_letters_prefix_err(a, gs, w, gi as int + 1);
                            lemma_words_prefix_err(a, ws, w, wi as int + 1);
                        }
                        return Err(CatError::InvalidCharacter);
                    }
                    let c = ((v + 96) as u8) as char;
                    assert(c == letter_of(v as int));
                    push_char(&mut word, c);
                },
                Err(e) => {
                    proof {
                        lemma_letters_prefix_err(a, gs, w, gi as int + 1);
                        lemma_words_prefix_err(a, ws, w, wi as int + 1);
                    }
                    return Err(e);
                },
            }
            gi = gi + 1;
        }
        assert(gs.take(gi as int) =~= gs);
        let ghost prev = done;
        proof {
            done = done.push(word@);
            reveal_strlit(" ");
        }
        assert(" "@ =~= space());
        if wi > 0 {
            out.append(" ");
        }
        out.append(word.as_str());
        assert(done.drop_last() =~= prev);
        wi = wi + 1;
    }
    assert(ws.take(wi as int) =~= ws);
    Ok(trim_end_spaces(&out))
}

} // verus!
