//! Conversion of one value at a time, for any alphabet.
use vstd::prelude::*;
use vstd::arithmetic::power::{pow, lemma_pow_positive};
use vstd::arithmetic::div_mod::lemma_div_denominator;
use vstd::string::StringExecFns;
use crate::error::CatError;
use crate::model::{
    decode_num, digits, encode_num, group_of, indices_of, join, lemma_token_index_prefix,
    lemma_value_prefix_le, num_result, space, str_result, token_index, value_of, catspeak,
    is_min_width, segment, chunks,
};
use crate::strings::tokens;

pub mod bytes;

verus! {

/// The largest value a letter takes: `'z'` stands for 26.
pub const LETTER_MAX: u32 = 26;

/// The value that marks a base for which no width exists.
pub const NO_WIDTH: u32 = 0xffff_ffff;

/// Returns all cat sounds in the catspeak alphabet, in digit order.
pub fn alphabet() -> (r: Vec<String>)
    ensures
        r.deep_view() == catspeak(),
{
    proof {
        reveal_strlit("meow");
        reveal_strlit("mrrp");
        reveal_strlit("mreow");
        reveal_strlit("mrow");
        reveal_strlit("nya~");
        reveal_strlit("nyaaaa~");
        reveal_strlit("mraow");
        reveal_strlit("mew");
        reveal_strlit("prrp");
        reveal_strlit("mewo");
        reveal_strlit("purrrr");
        reveal_strlit("nya");
        reveal_strlit("miao");
        reveal_strlit("miau");
        reveal_strlit("miauw");
        reveal_strlit("mrow~");
    }
    let r = vec![
        "meow".to_owned(), "mrrp".to_owned(), "mreow".to_owned(), "mrow".to_owned(),
        "nya~".to_owned(), "nyaaaa~".to_owned(), "mraow".to_owned(), "mew".to_owned(),
        "prrp".to_owned(), "mewo".to_owned(), "purrrr".to_owned(), "nya".to_owned(),
        "miao".to_owned(), "miau".to_owned(), "miauw".to_owned(), "mrow~".to_owned(),
    ];
    assert(r.deep_view() =~= catspeak());
    r
}

/// Returns the largest base that can be used: the number of cat sounds.
pub fn max_base() -> (r: u32)
    ensures
        r == catspeak().len(),
{
    16
}

/// The fewest tokens of base `base` that can hold every value up to
/// `max_value`; [`NO_WIDTH`] where the base is below two and no width exists.
pub fn width_for(base: u32, max_value: u32) -> (r: u32)
    ensures
        base >= 2 ==> is_min_width(base as int, max_value as int, r as int),
        base < 2 ==> r == NO_WIDTH,
{
    if base < 2 {
        return NO_WIDTH;
    }
    proof {
        vstd::arithmetic::power::lemma_pow1(base as int);
    }
    let mut w: u32 = 1;
    let mut p: u64 = base as u64;
    while p <= max_value as u64
        invariant
            base >= 2,
            w >= 1,
            p == pow(base as int, w as nat),
            (w as u64) < p,
            forall|k: nat| 1 <= k < w ==> #[trigger] pow(base as int, k) <= max_value,
        decreases u64::MAX - p,
    {
        proof {
            reveal(pow);
        }
        assert(p * (base as u64) >= 2 * p) by (nonlinear_arith)
            requires
                base >= 2,
        ;
        assert(p * (base as u64) <= u64::MAX) by (nonlinear_arith)
            requires
                p <= u32::MAX,
                base <= u32::MAX,
        ;
        let ghost prev = p;
        assert(pow(base as int, (w + 1) as nat) == base * pow(base as int, w as nat));
        p = p * (base as u64);
        w = w + 1;
        assert(p == base * prev) by (nonlinear_arith)
            requires
                p == prev * base,
        ;
    }
    w
}

/// Returns the fewest cat sounds per letter for this base.
pub fn char_length(base: u32) -> (r: u32)
    ensures
        base >= 2 ==> is_min_width(base as int, LETTER_MAX as int, r as int),
        base < 2 ==> r == NO_WIDTH,
{
    width_for(base, LETTER_MAX)
}

/// Writes `num` as `char_length` tokens of `alphabet`, most significant
/// first, separated by single spaces. The base is the alphabet's length.
/// A value of `base^char_length` or more does not fit and is refused.
pub fn num_to_cat(num: u32, alphabet: Vec<String>, char_length: u32) -> (r: Result<String, CatError>)
    ensures
        str_result(r) == encode_num(alphabet.deep_view(), num as int, char_length as nat),
{
    let base: usize = alphabet.len();
    if base == 0 {
        return Err(CatError::BaseOutOfRange);
    }
    let ghost b = base as int;
    let ghost w = char_length as nat;
    let mut n: usize = num as usize;
    let mut ds: Vec<usize> = Vec::new();
    let mut i: u32 = 0;
    proof {
        reveal(pow);
    }
    while i < char_length
        invariant
            b == base as int,
            b > 0,
            w == char_length as nat,
            i <= char_length,
            n as int == (num as int) / pow(b, i as nat),
            ds.len() == i,
            forall|k: int| 0 <= k < ds.len() ==> ds@[k] < base,
            digits(num as int, b, w) == digits(n as int, b, (w - i) as nat)
                + ds@.map_values(|d: usize| d as int),
        decreases char_length - i,
    {
        let d: usize = n % base;
        proof {
            reveal(pow);
            lemma_pow_positive(b, i as nat);
            lemma_div_denominator(num as int, pow(b, i as nat), b);
            assert(pow(b, (i + 1) as nat) == b * pow(b, i as nat));
            let rest = (w - i) as nat;
            assert(digits(n as int, b, rest) == digits(n as int / b, b, (rest - 1) as nat).push(
                n as int % b,
            ));
            assert(seq![d as int] + ds@.map_values(|x: usize| x as int) =~= ds@.insert(
                0,
                d,
            ).map_values(|x: usize| x as int));
            assert(digits(num as int, b, w) =~= digits(n as int / b, b, (rest - 1) as nat)
                + ds@.insert(0, d).map_values(|x: usize| x as int));
        }
        ds.insert(0, d);
        n = n / base;
        i = i + 1;
    }
    proof {
        lemma_pow_positive(b, w);
    }
    if n != 0 {
        assert(num as int >= pow(b, w)) by {
            if (num as int) < pow(b, w) {
                vstd::arithmetic::div_mod::lemma_basic_div(num as int, pow(b, w));
            }
        }
        return Err(CatError::ValueOutOfRange);
    }
    assert(num as int / pow(b, w) == 0);
    assert((num as int) < pow(b, w)) by {
        vstd::arithmetic::div_mod::lemma_fundamental_div_mod(num as int, pow(b, w));
        vstd::arithmetic::div_mod::lemma_mod_bound(num as int, pow(b, w));
    }
    let ghost alph = alphabet.deep_view();
    let ghost toks = group_of(alph, num as int, w);
    assert(ds@.map_values(|d: usize| d as int) =~= digits(num as int, b, w));
    let mut out = String::new();
    let mut k: usize = 0;
    while k < ds.len()
        invariant
            alph == alphabet.deep_view(),
            b == alph.len(),
            ds.len() == w,
            forall|j: int| 0 <= j < ds.len() ==> ds@[j] < b,
            toks == group_of(alph, num as int, w),
            ds@.map_values(|d: usize| d as int) == digits(num as int, b, w),
            k <= ds.len(),
            out@ == join(toks.take(k as int), space()),
        decreases ds.len() - k,
    {
        assert(toks[k as int] == alphabet[ds[k as int] as int]@);
        assert(toks.take(k as int + 1).drop_last() =~= toks.take(k as int));
        if k > 0 {
            proof {
                reveal_strlit(" ");
            }
            out.append(" ");
        }
        out.append(alphabet[ds[k]].as_str());
        k = k + 1;
    }
    assert(toks.take(k as int) =~= toks);
    Ok(out)
}

/// Position of `t` in `alphabet` (first match), if it is there.
fn index_in(alphabet: &Vec<String>, t: &String) -> (r: Option<usize>)
    ensures
        match r {
            Some(i) => token_index(alphabet.deep_view(), t@) == i as int && i < alphabet.len(),
            None => token_index(alphabet.deep_view(), t@) == -1,
        },
        token_index(alphabet.deep_view(), t@) < alphabet.len(),
{
    let ghost alph = alphabet.deep_view();
    let mut j: usize = 0;
    while j < alphabet.len()
        invariant
            alph == alphabet.deep_view(),
            j <= alphabet.len(),
            token_index(alph.take(j as int), t@) == -1,
        decreases alphabet.len() - j,
    {
        assert(alph.take(j as int + 1).drop_last() =~= alph.take(j as int));
        if *t == alphabet[j] {
            proof {
                lemma_token_index_prefix(alph, t@, j as int + 1);
            }
            return Some(j);
        }
        j = j + 1;
    }
    assert(alph.take(j as int) =~= alph);
    None
}

/// Reads the number that the token group `text` of `char_length` tokens of
/// `alphabet` stands for; the base is the alphabet's length.
pub fn cat_to_num(text: Vec<String>, alphabet: Vec<String>, char_length: u32) -> (r: Result<u32, CatError>)
    ensures
        num_result(r) == decode_num(alphabet.deep_view(), text.deep_view(), char_length as nat),
{
    let ghost alph = alphabet.deep_view();
    let ghost toks = text.deep_view();
    let base: usize = alphabet.len();
    if base == 0 {
        return Err(CatError::BaseOutOfRange);
    }
    if text.len() != char_length as usize {
        return Err(CatError::MalformedGroupLength);
    }
    let mut nums: Vec<usize> = Vec::new();
    let mut i: usize = 0;
    while i < text.len()
        invariant
            alph == alphabet.deep_view(),
            toks == text.deep_view(),
            i <= text.len(),
            nums.len() == i,
            forall|k: int| 0 <= k < i ==> token_index(alph, toks[k]) >= 0,
            forall|k: int| 0 <= k < i ==> nums@[k] as int == token_index(alph, toks[k]),
            forall|k: int| 0 <= k < i ==> nums@[k] < base,
            base == alphabet.len(),
            base > 0,
            text.len() == char_length as usize,
        decreases text.len() - i,
    {
        assert(toks[i as int] == text[i as int]@);
        match index_in(&alphabet, &text[i]) {
            Some(d) => {
                nums.push(d);
            },
            None => {
                assert(token_index(alph, toks[i as int]) < 0);
                assert(toks.len() == char_length as nat);
                assert(alph.len() > 0);
                return Err(CatError::UnknownToken);
            },
        }
        i = i + 1;
    }
    let ghost ds = indices_of(alph, toks);
    assert(nums@.map_values(|d: usize| d as int) =~= ds);
    let mut acc: u128 = 0;
    let mut k: usize = 0;
    while k < nums.len()
        invariant
            ds == indices_of(alph, toks),
            nums@.map_values(|d: usize| d as int) == ds,
            base as int == alph.len(),
            base > 0,
            k <= nums.len(),
            forall|j: int| 0 <= j < ds.len() ==> ds[j] >= 0 && ds[j] < base,
            acc as int == value_of(ds.take(k as int), base as int),
            acc <= u32::MAX,
            alph == alphabet.deep_view(),
            toks == text.deep_view(),
            toks.len() == char_length as nat,
            forall|j: int| 0 <= j < toks.len() ==> token_index(alph, toks[j]) >= 0,
        decreases nums.len() - k,
    {
        assert(ds.take(k as int + 1).drop_last() =~= ds.take(k as int));
        let d: usize = nums[k];
        assert(ds[k as int] == d as int);
        assert(acc * (base as u128) + (d as u128) <= u128::MAX) by (nonlinear_arith)
            requires
                acc <= u32::MAX,
                base <= u64::MAX,
                d < base,
        ;
        let next: u128 = acc * (base as u128) + (d as u128);
        assert(value_of(ds.take(k as int + 1), base as int) == next as int);
        if next > u32::MAX as u128 {
            assert(!exists|j: int| 0 <= j < toks.len() && token_index(alph, toks[j]) < 0);
            proof {
                lemma_value_prefix_le(ds, base as int, k as int + 1);
            }
            return Err(CatError::ValueOutOfRange);
        }
        acc = next;
        k = k + 1;
    }
    assert(ds.take(k as int) =~= ds);
    Ok(acc as u32)
}

/// Cuts a stream of space-separated tokens into consecutive groups of `x`
/// tokens, in order. A stream whose token count is not a multiple of `x`
/// (or `x == 0`) is malformed; the empty stream has no groups.
pub fn split_every_x(text: &str, x: u32) -> (r: Result<Vec<Vec<String>>, CatError>)
    ensures
        match r {
            Ok(gs) => segment(text@, x as nat) == Ok::<_, CatError>(gs.deep_view()),
            Err(e) => segment(text@, x as nat) == Err::<Seq<Seq<Seq<char>>>, _>(e),
        },
{
    let toks = tokens(text);
    let ghost ts = toks.deep_view();
    let x: usize = x as usize;
    if x == 0 || toks.len() % x != 0 {
        return Err(CatError::MalformedGroupLength);
    }
    let n: usize = toks.len() / x;
    let ghost cs = chunks(ts, x as nat);
    let mut out: Vec<Vec<String>> = Vec::new();
    let mut g: usize = 0;
    let mut pos: usize = 0;
    while g < n
        invariant
            ts == toks.deep_view(),
            cs == chunks(ts, x as nat),
            x > 0,
            n == toks.len() / x,
            toks.len() % x == 0,
            g <= n,
            pos == g * x,
            out.deep_view() == cs.take(g as int),
        decreases n - g,
    {
        assert(pos + x <= toks.len()) by (nonlinear_arith)
            requires
                pos == g * x,
                g < n,
                n == toks.len() / x,
                x > 0,
        {
            vstd::arithmetic::div_mod::lemma_fundamental_div_mod(toks.len() as int, x as int);
            assert(g + 1 <= n);
            assert((g + 1) * x <= n * x);
        }
        let mut group: Vec<String> = Vec::new();
        let mut j: usize = 0;
        while j < x
            invariant
                ts == toks.deep_view(),
                pos + x <= toks.len(),
                j <= x,
                group.deep_view() == ts.subrange(pos as int, pos + j),
            decreases x - j,
        {
            let ghost prev = group.deep_view();
            let t = toks[pos + j].clone();
            assert(t@ == ts[pos + j]);
            group.push(t);
            assert(group.deep_view() =~= prev.push(ts[pos + j]));
            assert(group.deep_view() =~= ts.subrange(pos as int, pos + j + 1));
            j = j + 1;
        }
        assert(cs[g as int] == ts.subrange(pos as int, pos + x));
        let ghost prev = out.deep_view();
        let ghost gv = group.deep_view();
        out.push(group);
        assert(out.deep_view() =~= prev.push(gv));
        assert(out.deep_view() =~= cs.take(g as int + 1));
        assert((g + 1) * x == g * x + x) by (nonlinear_arith);
        g = g + 1;
        pos = pos + x;
    }
    assert(cs.len() == n);
    assert(out.deep_view() =~= cs);
    Ok(out)
}

/// Whether `v` can be written with `w` digits of base `base`.
pub(crate) fn fits(v: u32, base: u32, w: u32) -> (r: bool)
    requires
        base >= 1,
    ensures
        r == ((v as int) < pow(base as int, w as nat)),
{
    proof {
        reveal(pow);
    }
    if v == 0 {
        proof {
            lemma_pow_positive(base as int, w as nat);
        }
        return true;
    }
    let mut p: u64 = 1;
    let mut i: u32 = 0;
    while i < w
        invariant
            base >= 1,
            i <= w,
            p == pow(base as int, i as nat),
            p <= v,
        decreases w - i,
    {
        proof {
            reveal(pow);
        }
        assert(p * (base as u64) <= u64::MAX) by (nonlinear_arith)
            requires
                p <= u32::MAX,
                base <= u32::MAX,
        ;
        let ghost prev = p;
        p = p * (base as u64);
        i = i + 1;
        assert(p == base * prev) by (nonlinear_arith)
            requires
                p == prev * base,
        ;
        if p > v as u64 {
            proof {
                vstd::arithmetic::power::lemma_pow_increases(base as nat, i as nat, w as nat);
            }
            return true;
        }
    }
    false
}

/// In base 4 a letter takes three cat sounds and a byte four.
pub proof fn lemma_base4_widths()
    ensures
        forall|r: int| is_min_width(4, LETTER_MAX as int, r) ==> r == 3,
        forall|r: int| is_min_width(4, 255, r) ==> r == 4,
{
    reveal(pow);
    assert(pow(4, 0) == 1);
    assert(pow(4, 1) == 4);
    assert(pow(4, 2) == 16);
    assert(pow(4, 3) == 64);
    assert(pow(4, 4) == 256);
    assert forall|r: int| is_min_width(4, LETTER_MAX as int, r) implies r == 3 by {
        if r > 3 {
            assert(pow(4, 3nat) <= LETTER_MAX);
        }
        if r < 3 {
            vstd::arithmetic::power::lemma_pow_increases(4, r as nat, 2);
        }
    }
    assert forall|r: int| is_min_width(4, 255, r) implies r == 4 by {
        if r > 4 {
            assert(pow(4, 4nat) <= 255);
        }
        if r < 4 {
            vstd::arithmetic::power::lemma_pow_increases(4, r as nat, 3);
        }
    }
}

} // verus!
