//! Facts about the model's sequences that the laws rest on.
use vstd::prelude::*;
use vstd::arithmetic::power::{pow, lemma_pow_positive};
use vstd::arithmetic::div_mod::{
    lemma_fundamental_div_mod, lemma_hoist_over_denominator, lemma_mod_add_multiples_vanish,
};
use crate::model::{
    catspeak, chunks, decode_byte_groups, decode_letter, decode_letters, decode_num, digits,
    group_of, indices_of, is_min_width, join, letter_of, letter_value, split_on, token_index,
    value_of,
};

verus! {

/// A token that is found sits at the position given.
pub proof fn lemma_token_index_found(alph: Seq<Seq<char>>, t: Seq<char>)
    ensures
        -1 <= token_index(alph, t) < alph.len(),
        token_index(alph, t) >= 0 ==> alph[token_index(alph, t)] == t,
    decreases alph.len(),
{
    if alph.len() > 0 {
        lemma_token_index_found(alph.drop_last(), t);
    }
}

/// In an alphabet without duplicates, the token at `d` is found at `d`.
pub proof fn lemma_token_index_distinct(alph: Seq<Seq<char>>, d: int)
    requires
        alph.no_duplicates(),
        0 <= d < alph.len(),
    ensures
        token_index(alph, alph[d]) == d,
    decreases alph.len(),
{
    let p = alph.drop_last();
    lemma_token_index_found(p, alph[d]);
    if d == alph.len() - 1 {
        if token_index(p, alph[d]) >= 0 {
            let r = token_index(p, alph[d]);
            assert(alph[r] == p[r]);
        }
    } else {
        assert(p[d] == alph[d]);
        lemma_token_index_distinct(p, d);
    }
}

/// A value below `b^w` has `w` digits, each below `b`, that stand for it.
pub proof fn lemma_digits(v: int, b: int, w: nat)
    requires
        b >= 1,
        0 <= v < pow(b, w),
    ensures
        digits(v, b, w).len() == w,
        forall|i: int| 0 <= i < w ==> 0 <= #[trigger] digits(v, b, w)[i] < b,
        value_of(digits(v, b, w), b) == v,
    decreases w,
{
    reveal(pow);
    if w > 0 {
        let q = v / b;
        let pw = pow(b, (w - 1) as nat);
        lemma_pow_positive(b, (w - 1) as nat);
        lemma_fundamental_div_mod(v, b);
        assert(0 <= v % b < b);
        assert(0 <= q < pw) by (nonlinear_arith)
            requires
                v == b * q + v % b,
                0 <= v % b < b,
                0 <= v < b * pw,
                b >= 1,
        ;
        lemma_digits(q, b, (w - 1) as nat);
        let ds = digits(v, b, w);
        assert(ds.drop_last() =~= digits(q, b, (w - 1) as nat));
        assert(q * b == b * q) by (nonlinear_arith);
    }
}

/// Joining two non-empty runs of pieces puts one separator between them.
pub proof fn lemma_join_concat(a: Seq<Seq<char>>, b: Seq<Seq<char>>, sep: Seq<char>)
    requires
        a.len() >= 1,
        b.len() >= 1,
    ensures
        join(a + b, sep) == join(a, sep) + sep + join(b, sep),
    decreases b.len(),
{
    assert((a + b).drop_last() =~= a + b.drop_last());
    assert((a + b).last() == b.last());
    if b.len() == 1 {
        assert(a + b.drop_last() =~= a);
    } else {
        lemma_join_concat(a, b.drop_last(), sep);
        assert(join(a, sep) + sep + join(b.drop_last(), sep) + sep + b.last() =~= join(a, sep) + sep
            + (join(b.drop_last(), sep) + sep + b.last()));
    }
}

/// A piece without the separator's first character is not cut.
pub proof fn lemma_split_single(p: Seq<char>, sep: Seq<char>)
    requires
        sep.len() >= 1,
        forall|j: int| 0 <= j < p.len() ==> p[j] != sep[0],
    ensures
        split_on(p, sep) == seq![p],
    decreases p.len(),
{
    if p.len() == 0 {
        assert(p =~= Seq::<char>::empty());
    } else {
        if sep.len() <= p.len() {
            assert(p.take(sep.len() as int)[0] == p[0]);
        }
        lemma_split_single(p.drop_first(), sep);
        assert(seq![p[0]] + p.drop_first() =~= p);
        assert(seq![p.drop_first()].update(0, seq![p[0]] + p.drop_first()) =~= seq![p]);
    }
}

/// A piece without the separator's first character, followed by the
/// separator, is cut off as the first piece.
pub proof fn lemma_split_cons(p: Seq<char>, rest: Seq<char>, sep: Seq<char>)
    requires
        sep.len() >= 1,
        forall|j: int| 0 <= j < p.len() ==> p[j] != sep[0],
    ensures
        split_on(p + sep + rest, sep) == seq![p] + split_on(rest, sep),
    decreases p.len(),
{
    let s = p + sep + rest;
    if p.len() == 0 {
        assert(s.take(sep.len() as int) =~= sep);
        assert(s.skip(sep.len() as int) =~= rest);
        assert(p =~= Seq::<char>::empty());
    } else {
        assert(s.take(sep.len() as int)[0] == p[0]);
        assert(s.drop_first() =~= p.drop_first() + sep + rest);
        lemma_split_cons(p.drop_first(), rest, sep);
        assert(seq![p[0]] + p.drop_first() =~= p);
        assert((seq![p.drop_first()] + split_on(rest, sep)).update(0, seq![p[0]] + p.drop_first())
            =~= seq![p] + split_on(rest, sep));
    }
}

/// Cutting joined pieces at the separator gives the pieces back, where no
/// piece holds the separator's first character.
pub proof fn lemma_split_join(ws: Seq<Seq<char>>, sep: Seq<char>)
    requires
        ws.len() >= 1,
        sep.len() >= 1,
        forall|i: int, j: int| 0 <= i < ws.len() && 0 <= j < ws[i].len() ==> #[trigger] ws[i][j] != sep[0],
    ensures
        split_on(join(ws, sep), sep) == ws,
    decreases ws.len(),
{
    if ws.len() == 1 {
        lemma_split_single(ws[0], sep);
        assert(seq![ws[0]] =~= ws);
    } else {
        let rest = ws.drop_first();
        lemma_join_concat(seq![ws[0]], rest, sep);
        assert(seq![ws[0]] + rest =~= ws);
        assert forall|i: int, j: int| 0 <= i < rest.len() && 0 <= j < rest[i].len() implies #[trigger] rest[i][j] != sep[0] by {
            assert(rest[i] == ws[i + 1]);
        }
        lemma_split_join(rest, sep);
        assert(forall|j: int| 0 <= j < ws[0].len() ==> ws[0][j] != sep[0]);
        lemma_split_cons(ws[0], join(rest, sep), sep);
        assert(seq![ws[0]] + rest =~= ws);
    }
}

/// Joining groups, then joining the results, is joining all their pieces.
pub proof fn lemma_join_flatten(gs: Seq<Seq<Seq<char>>>, sep: Seq<char>)
    requires
        forall|i: int| 0 <= i < gs.len() ==> #[trigger] gs[i].len() >= 1,
    ensures
        join(gs.map_values(|g: Seq<Seq<char>>| join(g, sep)), sep) == join(gs.flatten(), sep),
    decreases gs.len(),
{
    let m = gs.map_values(|g: Seq<Seq<char>>| join(g, sep));
    if gs.len() == 0 {
    } else if gs.len() == 1 {
        assert(gs.drop_first() =~= Seq::<Seq<Seq<char>>>::empty());
        assert(gs.flatten() == gs.first() + gs.drop_first().flatten());
        assert(gs.drop_first().flatten() =~= Seq::<Seq<char>>::empty());
        assert(gs.flatten() =~= gs[0]);
    } else {
        let rest = gs.drop_first();
        assert(rest[0] == gs[1]);
        lemma_join_flatten(rest, sep);
        assert(m.drop_first() =~= rest.map_values(|g: Seq<Seq<char>>| join(g, sep)));
        assert(seq![m[0]] + m.drop_first() =~= m);
        lemma_join_concat(seq![m[0]], m.drop_first(), sep);
        assert(rest.flatten() == rest[0] + rest.drop_first().flatten());
        lemma_join_concat(gs[0], rest.flatten(), sep);
    }
}

/// A group of `w` in front adds one chunk in front.
pub proof fn lemma_chunks_cons(g: Seq<Seq<char>>, rest: Seq<Seq<char>>, w: nat)
    requires
        w >= 1,
        g.len() == w,
    ensures
        chunks(g + rest, w) == seq![g] + chunks(rest, w),
{
    let s = g + rest;
    lemma_hoist_over_denominator(rest.len() as int, 1, w);
    assert(s.len() / w == rest.len() / w + 1);
    let l = chunks(s, w);
    let r = seq![g] + chunks(rest, w);
    assert(l.len() == r.len());
    assert forall|i: int| 0 <= i < l.len() implies l[i] == r[i] by {
        assert(l[i] == s.subrange(i * w, i * w + w));
        if i == 0 {
            assert(0 * w == 0) by (nonlinear_arith);
            assert(s.subrange(0, w as int) =~= g);
        } else {
            assert(r[i] == chunks(rest, w)[i - 1]);
            assert(chunks(rest, w)[i - 1] == rest.subrange((i - 1) * w, (i - 1) * w + w));
            assert(i * w == (i - 1) * w + w) by (nonlinear_arith);
            let n = s.len() as int;
            let ww = w as int;
            lemma_fundamental_div_mod(n, ww);
            assert(i * ww + ww <= n) by (nonlinear_arith)
                requires
                    0 <= i < n / ww,
                    n == ww * (n / ww) + n % ww,
                    n % ww >= 0,
                    ww >= 1,
            ;
            assert((i - 1) * w >= 0) by (nonlinear_arith)
                requires
                    i >= 1,
            ;
            assert(s.subrange(i * w, i * w + w) =~= rest.subrange((i - 1) * w, (i - 1) * w + w));
        }
    }
    assert(l =~= r);
}

/// Cutting the pieces of groups of `w` into chunks of `w` gives the groups back.
pub proof fn lemma_chunks_flatten(gs: Seq<Seq<Seq<char>>>, w: nat)
    requires
        w >= 1,
        forall|i: int| 0 <= i < gs.len() ==> #[trigger] gs[i].len() == w,
    ensures
        gs.flatten().len() % w == 0,
        chunks(gs.flatten(), w) == gs,
    decreases gs.len(),
{
    if gs.len() == 0 {
        assert(chunks(gs.flatten(), w) =~= gs);
    } else {
        let rest = gs.drop_first();
        assert forall|i: int| 0 <= i < rest.len() implies #[trigger] rest[i].len() == w by {
            assert(rest[i] == gs[i + 1]);
        }
        lemma_chunks_flatten(rest, w);
        lemma_chunks_cons(gs[0], rest.flatten(), w);
        lemma_mod_add_multiples_vanish(rest.flatten().len() as int, w as int);
        assert(seq![gs[0]] + rest =~= gs);
    }
}

/// A character that is in no piece and not in the separator is not in the join.
pub proof fn lemma_join_avoids(ws: Seq<Seq<char>>, sep: Seq<char>, c: char)
    requires
        forall|i: int, j: int| 0 <= i < ws.len() && 0 <= j < ws[i].len() ==> #[trigger] ws[i][j] != c,
        forall|j: int| 0 <= j < sep.len() ==> sep[j] != c,
    ensures
        forall|j: int| 0 <= j < join(ws, sep).len() ==> join(ws, sep)[j] != c,
    decreases ws.len(),
{
    if ws.len() == 0 {
    } else if ws.len() == 1 {
        assert(forall|j: int| 0 <= j < ws[0].len() ==> ws[0][j] != c);
    } else {
        let p = ws.drop_last();
        assert forall|i: int, j: int| 0 <= i < p.len() && 0 <= j < p[i].len() implies #[trigger] p[i][j] != c by {
            assert(p[i] == ws[i]);
        }
        lemma_join_avoids(p, sep, c);
        let l = ws.last();
        assert(forall|j: int| 0 <= j < l.len() ==> l[j] != c);
        let jn = join(ws, sep);
        assert(jn == join(p, sep) + sep + l);
        assert forall|j: int| 0 <= j < jn.len() implies jn[j] != c by {
            let a = join(p, sep).len();
            if j < a {
                assert(jn[j] == join(p, sep)[j]);
            } else if j < a + sep.len() {
                assert(jn[j] == sep[j - a]);
            } else {
                assert(jn[j] == l[j - a - sep.len()]);
            }
        }
    }
}

/// A join is at least as long as its last piece.
pub proof fn lemma_join_len_last(ws: Seq<Seq<char>>, sep: Seq<char>)
    requires
        ws.len() >= 1,
    ensures
        join(ws, sep).len() >= ws.last().len(),
{
}

/// What holds of every piece of every group holds of every piece of the flattening.
pub proof fn lemma_flatten_all(gs: Seq<Seq<Seq<char>>>, f: spec_fn(Seq<char>) -> bool)
    requires
        forall|i: int, j: int| 0 <= i < gs.len() && 0 <= j < gs[i].len() ==> f(#[trigger] gs[i][j]),
    ensures
        forall|k: int| 0 <= k < gs.flatten().len() ==> f(#[trigger] gs.flatten()[k]),
    decreases gs.len(),
{
    if gs.len() > 0 {
        let rest = gs.drop_first();
        assert forall|i: int, j: int| 0 <= i < rest.len() && 0 <= j < rest[i].len() implies f(#[trigger] rest[i][j]) by {
            assert(rest[i] == gs[i + 1]);
        }
        lemma_flatten_all(rest, f);
        let fl = gs.flatten();
        assert(fl == gs[0] + rest.flatten());
        assert forall|k: int| 0 <= k < fl.len() implies f(#[trigger] fl[k]) by {
            if k < gs[0].len() {
                assert(fl[k] == gs[0][k]);
            } else {
                assert(fl[k] == rest.flatten()[k - gs[0].len()]);
            }
        }
    }
}

/// A power of a base of two or more exceeds its exponent.
pub proof fn lemma_pow_exceeds(b: int, e: nat)
    requires
        b >= 2,
    ensures
        pow(b, e) > e,
    decreases e,
{
    reveal(pow);
    if e > 0 {
        lemma_pow_exceeds(b, (e - 1) as nat);
        assert(b * pow(b, (e - 1) as nat) >= 2 * pow(b, (e - 1) as nat)) by (nonlinear_arith)
            requires
                b >= 2,
                pow(b, (e - 1) as nat) >= 0,
        ;
    }
}

/// The smallest width for a base of two or more is small.
pub proof fn lemma_min_width_small(b: int, m: int, w: int)
    requires
        b >= 2,
        m >= 0,
        is_min_width(b, m, w),
    ensures
        1 <= w <= m + 1,
{
    if w > m + 1 {
        lemma_pow_exceeds(b, (m + 1) as nat);
        assert(pow(b, (m + 1) as nat) <= m);
    }
}

/// The cat sounds are distinct, not empty, and hold neither a space nor a semicolon.
pub proof fn lemma_catspeak_tokens()
    ensures
        catspeak().no_duplicates(),
        catspeak().len() == 16,
        forall|i: int, j: int|
            0 <= i < catspeak().len() && 0 <= j < catspeak()[i].len() ==> #[trigger] catspeak()[i][j]
                != ' ' && catspeak()[i][j] != ';',
        forall|i: int| 0 <= i < catspeak().len() ==> #[trigger] catspeak()[i].len() > 0,
{
    reveal_strlit("meow");
    reveal_strlit("mrrp");
    reveal_strlit("mreow");
    reveal_strlit("mrow");
    reveal_strlit("nya~");
    reveal_strlit("nyaaaa~");
    reveal_strlit("mraow");
    reveal_strlit("mew");
    reveal_strlit("prrp");
    reveal_strlit("mewo");
    reveal_strlit("purrrr");
    reveal_strlit("nya");
    reveal_strlit("miao");
    reveal_strlit("miau");
    reveal_strlit("miauw");
    reveal_strlit("mrow~");
    let s = catspeak();
    assert forall|i: int, j: int| 0 <= i < s.len() && 0 <= j < s.len() && i != j implies s[i] != s[j] by {
        if s[i] == s[j] {
            assert(s[i].len() == s[j].len());
            assert(s[i][0] == s[j][0]);
            assert(s[i][1] == s[j][1]);
            assert(s[i][2] == s[j][2]);
            if s[i].len() > 3 {
                assert(s[i][3] == s[j][3]);
            }
            if s[i].len() > 4 {
                assert(s[i][4] == s[j][4]);
            }
        }
    }
}

/// Decoding the group of a value below `b^w` (and within `u32`) gives the value.
pub proof fn lemma_decode_group(alph: Seq<Seq<char>>, v: int, w: nat)
    requires
        alph.len() >= 1,
        alph.no_duplicates(),
        0 <= v < pow(alph.len() as int, w),
        v <= u32::MAX,
    ensures
        decode_num(alph, group_of(alph, v, w), w) == Ok::<int, crate::error::CatError>(v),
        group_of(alph, v, w).len() == w,
{
    let b = alph.len() as int;
    lemma_digits(v, b, w);
    let ds = digits(v, b, w);
    let g = group_of(alph, v, w);
    assert forall|i: int| 0 <= i < g.len() implies token_index(alph, #[trigger] g[i]) == ds[i] by {
        assert(0 <= ds[i] < b);
        lemma_token_index_distinct(alph, ds[i]);
    }
    assert(indices_of(alph, g) =~= ds);
}

/// Decoding the groups of lowercase letters that fit gives the letters back.
pub proof fn lemma_decode_letters(alph: Seq<Seq<char>>, word: Seq<char>, w: nat)
    requires
        alph.len() >= 1,
        alph.no_duplicates(),
        forall|i: int| 0 <= i < word.len() ==> 'a' <= #[trigger] word[i] <= 'z',
        forall|i: int| 0 <= i < word.len() ==> letter_value(#[trigger] word[i]) < pow(alph.len() as int, w),
    ensures
        decode_letters(alph, word.map_values(|c: char| group_of(alph, letter_value(c), w)), w)
            == Ok::<Seq<char>, crate::error::CatError>(word),
    decreases word.len(),
{
    let gs = word.map_values(|c: char| group_of(alph, letter_value(c), w));
    if word.len() > 0 {
        let p = word.drop_last();
        lemma_decode_letters(alph, p, w);
        assert(gs.drop_last() =~= p.map_values(|c: char| group_of(alph, letter_value(c), w)));
        let c = word.last();
        assert('a' <= word[word.len() - 1] <= 'z');
        lemma_decode_group(alph, letter_value(c), w);
        assert(letter_of(letter_value(c)) == c);
        assert(decode_letter(alph, gs.last(), w) == Ok::<char, crate::error::CatError>(c));
        assert(gs.last() == group_of(alph, letter_value(c), w));
        assert(p.push(c) =~= word);
    } else {
        assert(word =~= Seq::<char>::empty());
    }
}

/// Decoding the groups of bytes that fit gives the bytes back.
pub proof fn lemma_decode_byte_groups(alph: Seq<Seq<char>>, bytes: Seq<u8>, w: nat)
    requires
        alph.len() >= 1,
        alph.no_duplicates(),
        forall|i: int| 0 <= i < bytes.len() ==> (#[trigger] bytes[i] as int) < pow(alph.len() as int, w),
    ensures
        decode_byte_groups(alph, bytes.map_values(|x: u8| group_of(alph, x as int, w)), w)
            == Ok::<Seq<u8>, crate::error::CatError>(bytes),
    decreases bytes.len(),
{
    let gs = bytes.map_values(|x: u8| group_of(alph, x as int, w));
    if bytes.len() > 0 {
        let p = bytes.drop_last();
        lemma_decode_byte_groups(alph, p, w);
        assert(gs.drop_last() =~= p.map_values(|x: u8| group_of(alph, x as int, w)));
        let x = bytes.last();
        assert((bytes[bytes.len() - 1] as int) < pow(alph.len() as int, w));
        lemma_decode_group(alph, x as int, w);
        assert(gs.last() == group_of(alph, x as int, w));
        assert(p.push(x) =~= bytes);
    } else {
        assert(bytes =~= Seq::<u8>::empty());
    }
}

/// Joining the pieces of a split at the separator gives the text back.
pub proof fn lemma_join_split(s: Seq<char>, sep: Seq<char>)
    ensures
        join(split_on(s, sep), sep) == s,
    decreases s.len(),
{
    if s.len() == 0 {
    } else if 0 < sep.len() <= s.len() && s.take(sep.len() as int) == sep {
        let t = s.skip(sep.len() as int);
        lemma_join_split(t, sep);
        crate::model::lemma_split_nonempty(t, sep);
        lemma_join_concat(seq![Seq::<char>::empty()], split_on(t, sep), sep);
        assert(Seq::<char>::empty() + sep + t =~= s);
    } else {
        let t = s.drop_first();
        let r = split_on(t, sep);
        lemma_join_split(t, sep);
        crate::model::lemma_split_nonempty(t, sep);
        let u = r.update(0, seq![s[0]] + r[0]);
        if r.len() == 1 {
            assert(seq![s[0]] + t =~= s);
        } else {
            lemma_join_concat(seq![r[0]], r.drop_first(), sep);
            assert(seq![r[0]] + r.drop_first() =~= r);
            lemma_join_concat(seq![u[0]], u.drop_first(), sep);
            assert(seq![u[0]] + u.drop_first() =~= u);
            assert(u.drop_first() =~= r.drop_first());
            assert(seq![s[0]] + r[0] + sep + join(r.drop_first(), sep) =~= seq![s[0]] + (r[0] + sep
                + join(r.drop_first(), sep)));
            assert(seq![s[0]] + t =~= s);
        }
    }
}

} // verus!
