//! What holds of the codec across calls: round trips and the alphabet's prefixes.
use vstd::prelude::*;
use vstd::arithmetic::power::pow;
use crate::anybase::ANYBASE_TOKENS;
use crate::error::CatError;
use crate::lemmas::{
    lemma_catspeak_tokens, lemma_chunks_flatten, lemma_decode_byte_groups, lemma_decode_group,
    lemma_decode_letters, lemma_digits, lemma_flatten_all, lemma_join_avoids, lemma_join_flatten,
    lemma_join_len_last, lemma_join_split, lemma_min_width_small, lemma_split_join,
};
use crate::model::{
    active, catspeak, decode_bytes, decode_num, decode_text, decode_word, decode_words, encode_bytes,
    encode_text, encode_word, group_of, is_letter, is_min_width, join, letter_group, letter_value,
    segment, space, split_on, tokens_of, trim_end, word_sep,
};

verus! {

/// The active alphabet of base `k` is a prefix of the active alphabet of base `k + 1`.
pub proof fn law_active_prefix(full: Seq<Seq<char>>, k: nat)
    requires
        k + 1 <= full.len(),
    ensures
        active(full, k) == active(full, k + 1).take(k as int),
        active(full, k).len() == k,
{
    assert(active(full, k) =~= active(full, k + 1).take(k as int));
}

/// Decoding the token group that encodes `v` gives `v` back, for every `v`
/// below `base^w`, over any alphabet without duplicates.
pub proof fn law_digit_round_trip(alph: Seq<Seq<char>>, v: u32, w: nat)
    requires
        alph.len() >= 1,
        alph.no_duplicates(),
        (v as int) < pow(alph.len() as int, w),
    ensures
        decode_num(alph, group_of(alph, v as int, w), w) == Ok::<int, CatError>(v as int),
{
    lemma_decode_group(alph, v as int, w);
}

/// The first `base` cat sounds are distinct, not empty, and hold neither a
/// space nor a semicolon.
proof fn lemma_active_tokens(base: nat)
    requires
        1 <= base <= ANYBASE_TOKENS,
    ensures
        active(catspeak().take(ANYBASE_TOKENS as int), base).len() == base,
        active(catspeak().take(ANYBASE_TOKENS as int), base).no_duplicates(),
        forall|i: int, j: int|
            0 <= i < base && 0 <= j < active(catspeak().take(ANYBASE_TOKENS as int), base)[i].len()
                ==> #[trigger] active(catspeak().take(ANYBASE_TOKENS as int), base)[i][j] != ' '
                && active(catspeak().take(ANYBASE_TOKENS as int), base)[i][j] != ';',
        forall|i: int|
            0 <= i < base ==> #[trigger] active(catspeak().take(ANYBASE_TOKENS as int), base)[i].len()
                > 0,
{
    lemma_catspeak_tokens();
    let a = active(catspeak().take(ANYBASE_TOKENS as int), base);
    assert(a =~= catspeak().take(base as int));
    assert forall|i: int| 0 <= i < base implies #[trigger] a[i] == catspeak()[i] by {}
}

/// The groups `gs` are `w` tokens each, the tokens not empty and free of
/// spaces and semicolons; the stream that joins them cuts back into them.
proof fn lemma_stream(gs: Seq<Seq<Seq<char>>>, w: nat, s: Seq<char>)
    requires
        s == join(gs.map_values(|g: Seq<Seq<char>>| join(g, space())), space()),
        w >= 1,
        forall|i: int| 0 <= i < gs.len() ==> #[trigger] gs[i].len() == w,
        forall|i: int, j: int|
            0 <= i < gs.len() && 0 <= j < gs[i].len() ==> (#[trigger] gs[i][j]).len() > 0
                && (forall|k: int| 0 <= k < gs[i][j].len() ==> gs[i][j][k] != ' ' && gs[i][j][k] != ';'),
    ensures
        segment(s, w) == Ok::<_, CatError>(gs),
        forall|k: int| 0 <= k < s.len() ==> s[k] != ';',
{
    lemma_join_flatten(gs, space());
    let fl = gs.flatten();
    let ok = |t: Seq<char>| t.len() > 0 && (forall|k: int| 0 <= k < t.len() ==> t[k] != ' ' && t[k] != ';');
    assert forall|i: int, j: int| 0 <= i < gs.len() && 0 <= j < gs[i].len() implies ok(#[trigger] gs[i][j]) by {}
    lemma_flatten_all(gs, ok);
    lemma_chunks_flatten(gs, w);
    assert(forall|k: int| 0 <= k < fl.len() ==> ok(#[trigger] fl[k]));
    assert forall|i: int, j: int| 0 <= i < fl.len() && 0 <= j < fl[i].len() implies #[trigger] fl[i][j] != ';' by {
        assert(ok(fl[i]));
    }
    lemma_join_avoids(fl, space(), ';');
    if gs.len() == 0 {
        assert(fl =~= Seq::<Seq<char>>::empty());
        assert(tokens_of(s) =~= fl);
    } else {
        assert(fl == gs[0] + gs.drop_first().flatten());
        assert(fl.len() >= 1);
        assert(ok(fl[fl.len() - 1]));
        lemma_join_len_last(fl, space());
        assert forall|i: int, j: int| 0 <= i < fl.len() && 0 <= j < fl[i].len() implies #[trigger] fl[i][j] != space()[0] by {
            assert(ok(fl[i]));
        }
        lemma_split_join(fl, space());
        assert(tokens_of(s) == fl);
    }
}

/// Encoding bytes and decoding the result gives the bytes back, in every base
/// from 2 up to the largest, at the smallest width that holds a byte.
pub proof fn law_bytes_round_trip(bytes: Seq<u8>, base: nat, w: nat)
    requires
        2 <= base <= ANYBASE_TOKENS,
        is_min_width(base as int, 255, w as int),
    ensures
        encode_bytes(catspeak().take(ANYBASE_TOKENS as int), bytes, base, w) is Ok,
        decode_bytes(
            catspeak().take(ANYBASE_TOKENS as int),
            encode_bytes(catspeak().take(ANYBASE_TOKENS as int), bytes, base, w)->Ok_0,
            base,
            w,
        ) == Ok::<Seq<u8>, CatError>(bytes),
{
    let full = catspeak().take(ANYBASE_TOKENS as int);
    lemma_catspeak_tokens();
    lemma_active_tokens(base);
    lemma_min_width_small(base as int, 255, w as int);
    let a = active(full, base);
    assert forall|i: int| 0 <= i < bytes.len() implies (#[trigger] bytes[i] as int) < pow(base as int, w) by {}
    let gs = bytes.map_values(|x: u8| group_of(a, x as int, w));
    assert forall|i: int| 0 <= i < gs.len() implies #[trigger] gs[i].len() == w by {
        lemma_digits(bytes[i] as int, base as int, w);
    }
    assert forall|i: int, j: int| 0 <= i < gs.len() && 0 <= j < gs[i].len() implies (#[trigger] gs[i][j]).len() > 0
        && (forall|k: int| 0 <= k < gs[i][j].len() ==> gs[i][j][k] != ' ' && gs[i][j][k] != ';') by {
        lemma_digits(bytes[i] as int, base as int, w);
        let d = crate::model::digits(bytes[i] as int, base as int, w)[j];
        assert(gs[i][j] == a[d]);
    }
    assert(bytes.map_values(|x: u8| join(group_of(a, x as int, w), space())) =~= gs.map_values(
        |g: Seq<Seq<char>>| join(g, space()),
    ));
    lemma_stream(gs, w, encode_bytes(full, bytes, base, w)->Ok_0);
    lemma_decode_byte_groups(a, bytes, w);
}

/// Encoding a word of lowercase letters that fit, then decoding, gives the
/// word back; its encoding holds no semicolon.
proof fn lemma_word_round_trip(word: Seq<char>, base: nat, w: nat)
    requires
        2 <= base <= ANYBASE_TOKENS,
        w >= 1,
        forall|i: int| 0 <= i < word.len() ==> 'a' <= #[trigger] word[i] <= 'z',
        forall|i: int| 0 <= i < word.len() ==> letter_value(#[trigger] word[i]) < pow(base as int, w),
    ensures
        decode_word(active(catspeak().take(ANYBASE_TOKENS as int), base), encode_word(active(catspeak().take(ANYBASE_TOKENS as int), base), word, w), w)
            == Ok::<Seq<char>, CatError>(word),
        forall|k: int|
            0 <= k < encode_word(active(catspeak().take(ANYBASE_TOKENS as int), base), word, w).len()
                ==> encode_word(active(catspeak().take(ANYBASE_TOKENS as int), base), word, w)[k] != ';',
{
    lemma_active_tokens(base);
    let a = active(catspeak().take(ANYBASE_TOKENS as int), base);
    let e = encode_word(a, word, w);
    let gs = word.map_values(|c: char| group_of(a, letter_value(c), w));
    assert forall|i: int| 0 <= i < gs.len() implies #[trigger] gs[i].len() == w by {
        lemma_digits(letter_value(word[i]), base as int, w);
    }
    assert forall|i: int, j: int| 0 <= i < gs.len() && 0 <= j < gs[i].len() implies (#[trigger] gs[i][j]).len() > 0
        && (forall|k: int| 0 <= k < gs[i][j].len() ==> gs[i][j][k] != ' ' && gs[i][j][k] != ';') by {
        lemma_digits(letter_value(word[i]), base as int, w);
        let d = crate::model::digits(letter_value(word[i]), base as int, w)[j];
        assert(gs[i][j] == a[d]);
    }
    assert(word.map_values(|c: char| letter_group(a, c, w)) =~= gs.map_values(
        |g: Seq<Seq<char>>| join(g, space()),
    ));
    lemma_stream(gs, w, e);
    lemma_decode_letters(a, word, w);
}

/// Decoding the encodings of words of lowercase letters that fit gives the words back.
proof fn lemma_words_round_trip(ws: Seq<Seq<char>>, base: nat, w: nat)
    requires
        2 <= base <= ANYBASE_TOKENS,
        w >= 1,
        forall|i: int, j: int| 0 <= i < ws.len() && 0 <= j < ws[i].len() ==> 'a' <= #[trigger] ws[i][j] <= 'z',
        forall|i: int, j: int|
            0 <= i < ws.len() && 0 <= j < ws[i].len() ==> letter_value(#[trigger] ws[i][j]) < pow(base as int, w),
    ensures
        decode_words(
            active(catspeak().take(ANYBASE_TOKENS as int), base),
            ws.map_values(|word: Seq<char>| encode_word(active(catspeak().take(ANYBASE_TOKENS as int), base), word, w)),
            w,
        ) == Ok::<Seq<Seq<char>>, CatError>(ws),
    decreases ws.len(),
{
    let a = active(catspeak().take(ANYBASE_TOKENS as int), base);
    let es = ws.map_values(|word: Seq<char>| encode_word(a, word, w));
    if ws.len() == 0 {
        assert(ws =~= Seq::<Seq<char>>::empty());
    } else {
        let p = ws.drop_last();
        assert forall|i: int, j: int| 0 <= i < p.len() && 0 <= j < p[i].len() implies 'a' <= #[trigger] p[i][j] <= 'z'
            && letter_value(p[i][j]) < pow(base as int, w) by {
            assert(p[i] == ws[i]);
            assert('a' <= ws[i][j] <= 'z');
            assert(letter_value(ws[i][j]) < pow(base as int, w));
        }
        lemma_words_round_trip(p, base, w);
        assert(es.drop_last() =~= p.map_values(|word: Seq<char>| encode_word(a, word, w)));
        let l = ws.last();
        assert forall|j: int| 0 <= j < l.len() implies 'a' <= #[trigger] l[j] <= 'z' && letter_value(l[j]) < pow(base as int, w) by {
            assert(l[j] == ws[ws.len() - 1][j]);
            assert('a' <= ws[ws.len() - 1][j] <= 'z');
            assert(letter_value(ws[ws.len() - 1][j]) < pow(base as int, w));
        }
        lemma_word_round_trip(l, base, w);
        assert(es.last() == encode_word(a, l, w));
        assert(p.push(l) =~= ws);
    }
}

/// Encoding a text of lowercase words separated by spaces, then decoding,
/// gives the text back, in every base from 2 up to the largest, at the
/// smallest width that holds a letter. The text must not end in a space:
/// decoding trims trailing spaces.
pub proof fn law_text_round_trip(text: Seq<char>, base: nat, w: nat)
    requires
        2 <= base <= ANYBASE_TOKENS,
        is_min_width(base as int, 26, w as int),
        forall|i: int| 0 <= i < text.len() ==> #[trigger] text[i] == ' ' || 'a' <= text[i] <= 'z',
        text.len() == 0 || text.last() != ' ',
    ensures
        encode_text(catspeak().take(ANYBASE_TOKENS as int), text, base, w) is Ok,
        decode_text(
            catspeak().take(ANYBASE_TOKENS as int),
            encode_text(catspeak().take(ANYBASE_TOKENS as int), text, base, w)->Ok_0,
            base,
            w,
        ) == Ok::<Seq<char>, CatError>(text),
{
    let full = catspeak().take(ANYBASE_TOKENS as int);
    lemma_min_width_small(base as int, 26, w as int);
    let a = active(full, base);
    assert forall|i: int| 0 <= i < text.len() && text[i] != ' ' implies is_letter(#[trigger] text[i]) && letter_value(text[i]) < pow(base as int, w) by {
        assert('a' <= text[i] <= 'z');
    }
    assert(!exists|i: int| 0 <= i < text.len() && !(text[i] == ' ' || is_letter(text[i])));
    let fine = |c: char| 'a' <= c <= 'z' && letter_value(c) < pow(base as int, w);
    assert forall|i: int| 0 <= i < text.len() implies #[trigger] text[i] == space()[0] || fine(text[i]) by {
        if text[i] != ' ' {
            assert('a' <= text[i] <= 'z');
        }
    }
    crate::model::lemma_split_pieces(text, space(), fine);
    let ws = split_on(text, space());
    let es = ws.map_values(|word: Seq<char>| encode_word(a, word, w));
    assert(encode_text(full, text, base, w) == Ok::<Seq<char>, CatError>(join(es, word_sep())));
    assert forall|i: int, j: int| 0 <= i < ws.len() && 0 <= j < ws[i].len() implies 'a' <= #[trigger] ws[i][j] <= 'z'
        && letter_value(ws[i][j]) < pow(base as int, w) by {
        assert(fine(ws[i][j]));
    }
    lemma_words_round_trip(ws, base, w);
    assert forall|i: int, j: int| 0 <= i < es.len() && 0 <= j < es[i].len() implies #[trigger] es[i][j] != word_sep()[0] by {
        assert forall|k: int| 0 <= k < ws[i].len() implies 'a' <= #[trigger] ws[i][k] <= 'z' && letter_value(ws[i][k]) < pow(base as int, w) by {
            assert(fine(ws[i][k]));
        }
        lemma_word_round_trip(ws[i], base, w);
    }
    crate::model::lemma_split_nonempty(text, space());
    lemma_split_join(es, word_sep());
    lemma_join_split(text, space());
    if text.len() > 0 {
        assert(text.last() != ' ');
    }
    assert(trim_end(text) == text);
}

} // verus!
