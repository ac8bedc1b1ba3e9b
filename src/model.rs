//! The meaning of every result, as sequences: digits, tokens, joins and
//! splits, and what each encoding and decoding gives, failures included.
use vstd::prelude::*;
use vstd::arithmetic::power::pow;
use crate::error::CatError;

verus! {

/// The `w` digits of `v` in base `b`, most significant first. Digits above
/// the `w` lowest are dropped.
pub open spec fn digits(v: int, b: int, w: nat) -> Seq<int>
    decreases w,
{
    if w == 0 {
        seq![]
    } else {
        digits(v / b, b, (w - 1) as nat).push(v % b)
    }
}

/// The number that digits `ds` (most significant first) stand for in base `b`.
pub open spec fn value_of(ds: Seq<int>, b: int) -> int
    decreases ds.len(),
{
    if ds.len() == 0 {
        0
    } else {
        value_of(ds.drop_last(), b) * b + ds.last()
    }
}

/// Position of the first occurrence of `t` in `alph`, or -1 where it does not occur.
pub open spec fn token_index(alph: Seq<Seq<char>>, t: Seq<char>) -> int
    decreases alph.len(),
{
    if alph.len() == 0 {
        -1
    } else {
        let r = token_index(alph.drop_last(), t);
        if r >= 0 {
            r
        } else if alph.last() == t {
            alph.len() - 1
        } else {
            -1
        }
    }
}

/// The pieces of `ws` placed one after the other, with `sep` between two neighbours.
pub open spec fn join(ws: Seq<Seq<char>>, sep: Seq<char>) -> Seq<char>
    decreases ws.len(),
{
    if ws.len() == 0 {
        seq![]
    } else if ws.len() == 1 {
        ws[0]
    } else {
        join(ws.drop_last(), sep) + sep + ws.last()
    }
}

/// `s` cut at each occurrence of `sep`, leftmost first; always at least one piece.
pub open spec fn split_on(s: Seq<char>, sep: Seq<char>) -> Seq<Seq<char>>
    decreases s.len(),
{
    if s.len() == 0 {
        seq![seq![]]
    } else if 0 < sep.len() <= s.len() && s.take(sep.len() as int) == sep {
        seq![seq![]] + split_on(s.skip(sep.len() as int), sep)
    } else {
        let r = split_on(s.drop_first(), sep);
        r.update(0, seq![s[0]] + r[0])
    }
}

/// The single space that separates tokens and groups.
pub open spec fn space() -> Seq<char> {
    seq![' ']
}

/// The tokens of a space-separated stream; the empty stream has none.
pub open spec fn tokens_of(s: Seq<char>) -> Seq<Seq<char>> {
    if s.len() == 0 {
        seq![]
    } else {
        split_on(s, space())
    }
}

/// `ts` cut into consecutive groups of `x`; a remainder shorter than `x` is left out.
pub open spec fn chunks(ts: Seq<Seq<char>>, x: nat) -> Seq<Seq<Seq<char>>> {
    Seq::new(ts.len() / x, |i: int| ts.subrange(i * x, i * x + x))
}

/// The tokens that stand for `v` in a group of width `w` over `alph`.
pub open spec fn group_of(alph: Seq<Seq<char>>, v: int, w: nat) -> Seq<Seq<char>> {
    digits(v, alph.len() as int, w).map_values(|d: int| alph[d])
}

/// What encoding `v` in `w` tokens of `alph` gives.
pub open spec fn encode_num(alph: Seq<Seq<char>>, v: int, w: nat) -> Result<Seq<char>, CatError> {
    if alph.len() == 0 {
        Err(CatError::BaseOutOfRange)
    } else if v >= pow(alph.len() as int, w) {
        Err(CatError::ValueOutOfRange)
    } else {
        Ok(join(group_of(alph, v, w), space()))
    }
}

/// The digit that each token of `toks` stands for in `alph`.
pub open spec fn indices_of(alph: Seq<Seq<char>>, toks: Seq<Seq<char>>) -> Seq<int> {
    toks.map_values(|t: Seq<char>| token_index(alph, t))
}

/// What decoding the token group `toks` of width `w` over `alph` gives.
pub open spec fn decode_num(alph: Seq<Seq<char>>, toks: Seq<Seq<char>>, w: nat) -> Result<int, CatError> {
    if alph.len() == 0 {
        Err(CatError::BaseOutOfRange)
    } else if toks.len() != w {
        Err(CatError::MalformedGroupLength)
    } else if exists|i: int| 0 <= i < toks.len() && token_index(alph, toks[i]) < 0 {
        Err(CatError::UnknownToken)
    } else if value_of(indices_of(alph, toks), alph.len() as int) > u32::MAX {
        Err(CatError::ValueOutOfRange)
    } else {
        Ok(value_of(indices_of(alph, toks), alph.len() as int))
    }
}

/// A `Result` of a `String` seen as a `Result` of its characters.
pub open spec fn str_result(r: Result<String, CatError>) -> Result<Seq<char>, CatError> {
    match r {
        Ok(s) => Ok(s@),
        Err(e) => Err(e),
    }
}

} // verus!

verus! {

/// A `Result` of a `u32` seen as a `Result` of an integer.
pub open spec fn num_result(r: Result<u32, CatError>) -> Result<int, CatError> {
    match r {
        Ok(v) => Ok(v as int),
        Err(e) => Err(e),
    }
}

/// Once `t` is found in a prefix of `alph`, its position there is its position in `alph`.
pub proof fn lemma_token_index_prefix(alph: Seq<Seq<char>>, t: Seq<char>, k: int)
    requires
        0 <= k <= alph.len(),
        token_index(alph.take(k), t) >= 0,
    ensures
        token_index(alph, t) == token_index(alph.take(k), t),
    decreases alph.len() - k,
{
    if k < alph.len() {
        assert(alph.take(k + 1).drop_last() =~= alph.take(k));
        lemma_token_index_prefix(alph, t, k + 1);
    } else {
        assert(alph.take(k) =~= alph);
    }
}

/// Digits that are not negative stand for a value that is not negative.
pub proof fn lemma_value_nonneg(ds: Seq<int>, b: int)
    requires
        b >= 1,
        forall|i: int| 0 <= i < ds.len() ==> ds[i] >= 0,
    ensures
        value_of(ds, b) >= 0,
    decreases ds.len(),
{
    if ds.len() > 0 {
        lemma_value_nonneg(ds.drop_last(), b);
        assert(value_of(ds.drop_last(), b) * b >= 0) by (nonlinear_arith)
            requires
                value_of(ds.drop_last(), b) >= 0,
                b >= 1,
        ;
    }
}

/// The value of a prefix of the digits is at most the value of all of them.
pub proof fn lemma_value_prefix_le(ds: Seq<int>, b: int, i: int)
    requires
        b >= 1,
        0 <= i <= ds.len(),
        forall|j: int| 0 <= j < ds.len() ==> ds[j] >= 0,
    ensures
        value_of(ds.take(i), b) <= value_of(ds, b),
    decreases ds.len(),
{
    if i == ds.len() {
        assert(ds.take(i) =~= ds);
    } else {
        let p = ds.drop_last();
        lemma_value_prefix_le(p, b, i);
        assert(p.take(i) =~= ds.take(i));
        lemma_value_nonneg(p, b);
        assert(value_of(p, b) * b >= value_of(p, b)) by (nonlinear_arith)
            requires
                value_of(p, b) >= 0,
                b >= 1,
        ;
    }
}

} // verus!

verus! {

/// Every cat sound, in digit order.
pub open spec fn catspeak() -> Seq<Seq<char>> {
    seq![
        "meow"@, "mrrp"@, "mreow"@, "mrow"@, "nya~"@, "nyaaaa~"@, "mraow"@, "mew"@, "prrp"@,
        "mewo"@, "purrrr"@, "nya"@, "miao"@, "miau"@, "miauw"@, "mrow~"@,
    ]
}

/// `w` is the fewest tokens in base `b` that can hold every value up to `m`.
pub open spec fn is_min_width(b: int, m: int, w: int) -> bool {
    &&& w >= 1
    &&& pow(b, w as nat) > m
    &&& forall|k: nat| 1 <= k < w ==> #[trigger] pow(b, k) <= m
}

} // verus!

verus! {

/// Splitting always gives at least one piece.
pub proof fn lemma_split_nonempty(s: Seq<char>, sep: Seq<char>)
    ensures
        split_on(s, sep).len() >= 1,
    decreases s.len(),
{
    if s.len() == 0 {
    } else if 0 < sep.len() <= s.len() && s.take(sep.len() as int) == sep {
        lemma_split_nonempty(s.skip(sep.len() as int), sep);
    } else {
        lemma_split_nonempty(s.drop_first(), sep);
    }
}

} // verus!

verus! {

/// What cutting the token stream `s` into groups of `x` tokens gives; a
/// stream whose length is not a multiple of `x` is refused.
pub open spec fn segment(s: Seq<char>, x: nat) -> Result<Seq<Seq<Seq<char>>>, CatError> {
    if x == 0 || tokens_of(s).len() % x != 0 {
        Err(CatError::MalformedGroupLength)
    } else {
        Ok(chunks(tokens_of(s), x))
    }
}

} // verus!

verus! {

/// The tokens active for `base`: the first `base` of the full alphabet.
pub open spec fn active(full: Seq<Seq<char>>, base: nat) -> Seq<Seq<char>> {
    full.take(base as int)
}

/// A letter of the English alphabet, in either case.
pub open spec fn is_letter(c: char) -> bool {
    ('a' <= c && c <= 'z') || ('A' <= c && c <= 'Z')
}

/// The value of a letter once lowercased: `'a'` is 1, `'z'` is 26.
pub open spec fn letter_value(c: char) -> int {
    if 'a' <= c && c <= 'z' {
        c as int - 96
    } else {
        c as int - 64
    }
}

/// The lowercase letter whose value is `v`.
pub open spec fn letter_of(v: int) -> char {
    (v + 96) as u8 as char
}

} // verus!

verus! {

/// The separator between two encoded words.
pub open spec fn word_sep() -> Seq<char> {
    seq![';', ' ']
}

/// The width that stands for "no width exists".
pub open spec fn no_width() -> nat {
    crate::numeral::NO_WIDTH as nat
}

/// The tokens of one letter, joined by spaces.
pub open spec fn letter_group(alph: Seq<Seq<char>>, c: char, w: nat) -> Seq<char> {
    join(group_of(alph, letter_value(c), w), space())
}

/// The letter groups of one word, joined by spaces.
pub open spec fn encode_word(alph: Seq<Seq<char>>, word: Seq<char>, w: nat) -> Seq<char> {
    join(word.map_values(|c: char| letter_group(alph, c, w)), space())
}

/// What encoding `text` in base `base` with width `w` over the full alphabet `full` gives.
pub open spec fn encode_text(full: Seq<Seq<char>>, text: Seq<char>, base: nat, w: nat) -> Result<Seq<char>, CatError> {
    if base == 0 || base > full.len() {
        Err(CatError::BaseOutOfRange)
    } else if w == no_width() {
        Err(CatError::WidthOverflow)
    } else if exists|i: int| 0 <= i < text.len() && !(text[i] == ' ' || is_letter(text[i])) {
        Err(CatError::InvalidCharacter)
    } else if exists|i: int|
        0 <= i < text.len() && is_letter(text[i]) && letter_value(text[i]) >= pow(base as int, w)
    {
        Err(CatError::ValueOutOfRange)
    } else {
        Ok(join(split_on(text, space()).map_values(|word: Seq<char>| encode_word(active(full, base), word, w)), word_sep()))
    }
}

/// What decoding one token group into a letter gives.
pub open spec fn decode_letter(alph: Seq<Seq<char>>, g: Seq<Seq<char>>, w: nat) -> Result<char, CatError> {
    match decode_num(alph, g, w) {
        Err(e) => Err(e),
        Ok(v) => if 1 <= v <= 26 {
            Ok(letter_of(v))
        } else {
            Err(CatError::InvalidCharacter)
        },
    }
}

/// What decoding token groups into letters gives: the first failure, or all letters.
pub open spec fn decode_letters(alph: Seq<Seq<char>>, gs: Seq<Seq<Seq<char>>>, w: nat) -> Result<Seq<char>, CatError>
    decreases gs.len(),
{
    if gs.len() == 0 {
        Ok(seq![])
    } else {
        match decode_letters(alph, gs.drop_last(), w) {
            Err(e) => Err(e),
            Ok(p) => match decode_letter(alph, gs.last(), w) {
                Err(e) => Err(e),
                Ok(c) => Ok(p.push(c)),
            },
        }
    }
}

/// What decoding one encoded word gives.
pub open spec fn decode_word(alph: Seq<Seq<char>>, word: Seq<char>, w: nat) -> Result<Seq<char>, CatError> {
    match segment(word, w) {
        Err(e) => Err(e),
        Ok(gs) => decode_letters(alph, gs, w),
    }
}

/// What decoding encoded words gives: the first failure, or all words.
pub open spec fn decode_words(alph: Seq<Seq<char>>, ws: Seq<Seq<char>>, w: nat) -> Result<Seq<Seq<char>>, CatError>
    decreases ws.len(),
{
    if ws.len() == 0 {
        Ok(seq![])
    } else {
        match decode_words(alph, ws.drop_last(), w) {
            Err(e) => Err(e),
            Ok(p) => match decode_word(alph, ws.last(), w) {
                Err(e) => Err(e),
                Ok(d) => Ok(p.push(d)),
            },
        }
    }
}

/// `s` without its trailing spaces.
pub open spec fn trim_end(s: Seq<char>) -> Seq<char>
    decreases s.len(),
{
    if s.len() > 0 && s.last() == ' ' {
        trim_end(s.drop_last())
    } else {
        s
    }
}

/// What decoding the catspeak `text` in base `base` with width `w` over `full` gives.
pub open spec fn decode_text(full: Seq<Seq<char>>, text: Seq<char>, base: nat, w: nat) -> Result<Seq<char>, CatError> {
    if base == 0 || base > full.len() {
        Err(CatError::BaseOutOfRange)
    } else if w == no_width() {
        Err(CatError::WidthOverflow)
    } else {
        match decode_words(active(full, base), split_on(text, word_sep()), w) {
            Err(e) => Err(e),
            Ok(ws) => Ok(trim_end(join(ws, space()))),
        }
    }
}

/// What encoding `bytes` in base `base` with width `w` over `full` gives.
pub open spec fn encode_bytes(full: Seq<Seq<char>>, bytes: Seq<u8>, base: nat, w: nat) -> Result<Seq<char>, CatError> {
    if base == 0 || base > full.len() {
        Err(CatError::BaseOutOfRange)
    } else if w == no_width() {
        Err(CatError::WidthOverflow)
    } else if exists|i: int| 0 <= i < bytes.len() && bytes[i] >= pow(base as int, w) {
        Err(CatError::ValueOutOfRange)
    } else {
        Ok(join(bytes.map_values(|x: u8| join(group_of(active(full, base), x as int, w), space())), space()))
    }
}

/// What decoding token groups into bytes gives: the first failure, or all bytes.
pub open spec fn decode_byte_groups(alph: Seq<Seq<char>>, gs: Seq<Seq<Seq<char>>>, w: nat) -> Result<Seq<u8>, CatError>
    decreases gs.len(),
{
    if gs.len() == 0 {
        Ok(seq![])
    } else {
        match decode_byte_groups(alph, gs.drop_last(), w) {
            Err(e) => Err(e),
            Ok(p) => match decode_num(alph, gs.last(), w) {
                Err(e) => Err(e),
                Ok(v) => if v <= 255 {
                    Ok(p.push(v as u8))
                } else {
                    Err(CatError::ValueOutOfRange)
                },
            },
        }
    }
}

/// What decoding the catspeak `text` into bytes in base `base` with width `w` over `full` gives.
pub open spec fn decode_bytes(full: Seq<Seq<char>>, text: Seq<char>, base: nat, w: nat) -> Result<Seq<u8>, CatError> {
    if base == 0 || base > full.len() {
        Err(CatError::BaseOutOfRange)
    } else if w == no_width() {
        Err(CatError::WidthOverflow)
    } else {
        match segment(text, w) {
            Err(e) => Err(e),
            Ok(gs) => decode_byte_groups(active(full, base), gs, w),
        }
    }
}

/// A `Result` of a byte vector seen as a `Result` of its bytes.
pub open spec fn bytes_result(r: Result<Vec<u8>, CatError>) -> Result<Seq<u8>, CatError> {
    match r {
        Ok(v) => Ok(v@),
        Err(e) => Err(e),
    }
}

} // verus!

verus! {

/// A failure on a prefix of the groups is the failure on all of them.
pub proof fn lemma_byte_groups_prefix_err(alph: Seq<Seq<char>>, gs: Seq<Seq<Seq<char>>>, w: nat, k: int)
    requires
        0 <= k <= gs.len(),
        decode_byte_groups(alph, gs.take(k), w) is Err,
    ensures
        decode_byte_groups(alph, gs, w) == decode_byte_groups(alph, gs.take(k), w),
    decreases gs.len() - k,
{
    if k < gs.len() {
        assert(gs.take(k + 1).drop_last() =~= gs.take(k));
        lemma_byte_groups_prefix_err(alph, gs, w, k + 1);
    } else {
        assert(gs.take(k) =~= gs);
    }
}

/// A failure on a prefix of the groups is the failure on all of them.
pub proof fn lemma_letters_prefix_err(alph: Seq<Seq<char>>, gs: Seq<Seq<Seq<char>>>, w: nat, k: int)
    requires
        0 <= k <= gs.len(),
        decode_letters(alph, gs.take(k), w) is Err,
    ensures
        decode_letters(alph, gs, w) == decode_letters(alph, gs.take(k), w),
    decreases gs.len() - k,
{
    if k < gs.len() {
        assert(gs.take(k + 1).drop_last() =~= gs.take(k));
        lemma_letters_prefix_err(alph, gs, w, k + 1);
    } else {
        assert(gs.take(k) =~= gs);
    }
}

/// A failure on a prefix of the words is the failure on all of them.
pub proof fn lemma_words_prefix_err(alph: Seq<Seq<char>>, ws: Seq<Seq<char>>, w: nat, k: int)
    requires
        0 <= k <= ws.len(),
        decode_words(alph, ws.take(k), w) is Err,
    ensures
        decode_words(alph, ws, w) == decode_words(alph, ws.take(k), w),
    decreases ws.len() - k,
{
    if k < ws.len() {
        assert(ws.take(k + 1).drop_last() =~= ws.take(k));
        lemma_words_prefix_err(alph, ws, w, k + 1);
    } else {
        assert(ws.take(k) =~= ws);
    }
}

} // verus!

verus! {

/// Where every character of `s` is `sep` or meets `f`, every character of
/// every piece of a split at the one-character `sep` meets `f` and is not `sep`.
pub proof fn lemma_split_pieces(s: Seq<char>, sep: Seq<char>, f: spec_fn(char) -> bool)
    requires
        sep.len() == 1,
        forall|i: int| 0 <= i < s.len() ==> s[i] == sep[0] || f(s[i]),
    ensures
        forall|p: int, j: int|
            0 <= p < split_on(s, sep).len() && 0 <= j < split_on(s, sep)[p].len() ==> f(
                #[trigger] split_on(s, sep)[p][j],
            ) && split_on(s, sep)[p][j] != sep[0],
    decreases s.len(),
{
    if s.len() == 0 {
    } else if 0 < sep.len() <= s.len() && s.take(sep.len() as int) == sep {
        lemma_split_pieces(s.skip(1), sep, f);
        assert(split_on(s, sep) == seq![Seq::<char>::empty()] + split_on(s.skip(1), sep));
        assert forall|p: int, j: int|
            0 <= p < split_on(s, sep).len() && 0 <= j < split_on(s, sep)[p].len() implies f(
                #[trigger] split_on(s, sep)[p][j],
            ) && split_on(s, sep)[p][j] != sep[0] by {
            if p > 0 {
                assert(split_on(s, sep)[p] == split_on(s.skip(1), sep)[p - 1]);
            }
        }
    } else {
        let r = split_on(s.drop_first(), sep);
        lemma_split_nonempty(s.drop_first(), sep);
        lemma_split_pieces(s.drop_first(), sep, f);
        assert(s.take(1) == seq![s[0]] ==> s.take(1) != sep);
        assert(s.take(1) =~= seq![s[0]]);
        assert(s[0] != sep[0]) by {
            if s[0] == sep[0] {
                assert(sep =~= seq![s[0]]);
            }
        }
        assert forall|p: int, j: int|
            0 <= p < split_on(s, sep).len() && 0 <= j < split_on(s, sep)[p].len() implies f(
                #[trigger] split_on(s, sep)[p][j],
            ) && split_on(s, sep)[p][j] != sep[0] by {
            if p == 0 {
                assert(split_on(s, sep)[0] == seq![s[0]] + r[0]);
                if j > 0 {
                    assert(split_on(s, sep)[0][j] == r[0][j - 1]);
                }
            } else {
                assert(split_on(s, sep)[p] == r[p]);
            }
        }
    }
}

} // verus!
