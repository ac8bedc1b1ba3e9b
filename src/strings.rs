use vstd::prelude::*;
use vstd::std_specs::iter::IteratorSpec;
use crate::model::{lemma_split_nonempty, space, split_on, tokens_of, trim_end};

verus! {

/// Relies on `String::push`: appends one character at the end.
#[verifier::external_body]
pub(crate) fn push_char(s: &mut String, c: char)
    ensures
        final(s)@ == old(s)@.push(c),
{
    s.push(c)
}

/// The characters of `s`, in order.
pub(crate) fn chars_of(s: &str) -> (r: Vec<char>)
    ensures
        r@ == s@,
{
    let mut r: Vec<char> = Vec::new();
    for c in it: s.chars()
        invariant
            r@ == it.seq().take(it.index() as int),
    {
        r.push(c);
    }
    r
}

/// Whether `sep` occurs in `cs` at position `i`.
fn occurs_at(cs: &Vec<char>, i: usize, sep: &Vec<char>) -> (r: bool)
    requires
        i <= cs.len(),
    ensures
        r == (sep.len() <= cs.len() - i && cs@.subrange(i as int, i + sep.len()) == sep@),
{
    if sep.len() > cs.len() - i {
        return false;
    }
    let mut k: usize = 0;
    while k < sep.len()
        invariant
            i + sep.len() <= cs.len(),
            k <= sep.len(),
            cs@.subrange(i as int, i + k) == sep@.take(k as int),
        decreases sep.len() - k,
    {
        if cs[i + k] != sep[k] {
            assert(cs@.subrange(i as int, i + sep.len())[k as int] != sep@[k as int]);
            return false;
        }
        assert(cs@.subrange(i as int, i + k + 1) =~= sep@.take(k + 1));
        k = k + 1;
    }
    assert(sep@.take(k as int) =~= sep@);
    true
}

/// The pieces of a split, given those already cut off (`done`), the piece
/// being read (`cur`), and the split of what is left (`rest`).
spec fn resume(done: Seq<Seq<char>>, cur: Seq<char>, rest: Seq<Seq<char>>) -> Seq<Seq<char>> {
    done + rest.update(0, cur + rest[0])
}

/// `s` cut at each occurrence of `sep`.
pub(crate) fn split_text(s: &str, sep: &str) -> (r: Vec<String>)
    requires
        sep@.len() > 0,
    ensures
        r.deep_view() == split_on(s@, sep@),
{
    let cs = chars_of(s);
    let sp = chars_of(sep);
    let mut r: Vec<String> = Vec::new();
    let mut cur = String::new();
    let mut i: usize = 0;
    assert(s@.skip(0) =~= s@);
    proof {
        let r0 = split_on(s@, sep@);
        lemma_split_nonempty(s@, sep@);
        assert(Seq::<char>::empty() + r0[0] =~= r0[0]);
        assert(resume(seq![], seq![], r0) =~= r0);
    }
    while i < cs.len()
        invariant
            cs@ == s@,
            sp@ == sep@,
            sp.len() > 0,
            i <= cs.len(),
            split_on(s@, sep@) == resume(r.deep_view(), cur@, split_on(s@.skip(i as int), sep@)),
        decreases cs.len() - i,
    {
        let ghost t = s@.skip(i as int);
        proof {
            lemma_split_nonempty(t, sep@);
        }
        if occurs_at(&cs, i, &sp) {
            assert(t.take(sep@.len() as int) =~= cs@.subrange(i as int, i + sp.len()));
            assert(t.skip(sep@.len() as int) =~= s@.skip(i + sp.len()));
            let ghost rest = split_on(s@.skip(i + sp.len()), sep@);
            proof {
                lemma_split_nonempty(s@.skip(i + sp.len()), sep@);
            }
            let ghost prev = r.deep_view();
            let ghost cur_view = cur@;
            r.push(cur);
            cur = String::new();
            i = i + sp.len();
            assert(r.deep_view() =~= prev.push(cur_view));
            assert(split_on(t, sep@) == seq![seq![]] + rest);
            assert(cur_view + Seq::<char>::empty() =~= cur_view);
            assert(Seq::<char>::empty() + rest[0] =~= rest[0]);
            assert(resume(prev, cur_view, seq![seq![]] + rest) =~= resume(r.deep_view(), cur@, rest));
        } else {
            proof {
                if sep@.len() <= t.len() {
                    assert(t.take(sep@.len() as int) =~= cs@.subrange(i as int, i + sp.len()));
                }
            }
            assert(t.drop_first() =~= s@.skip(i + 1));
            let ghost rest = split_on(s@.skip(i + 1), sep@);
            proof {
                lemma_split_nonempty(s@.skip(i + 1), sep@);
            }
            let ghost prev_cur = cur@;
            assert(t[0] == cs@[i as int]);
            push_char(&mut cur, cs[i]);
            i = i + 1;
            assert(prev_cur + (seq![t[0]] + rest[0]) =~= cur@ + rest[0]);
            assert(resume(r.deep_view(), prev_cur, rest.update(0, seq![t[0]] + rest[0])) =~= resume(r.deep_view(), cur@, rest));
        }
    }
    assert(s@.skip(i as int) =~= Seq::<char>::empty());
    let ghost prev = r.deep_view();
    let ghost cur_view = cur@;
    r.push(cur);
    assert(r.deep_view() =~= resume(prev, cur_view, seq![seq![]]));
    r
}

/// The tokens of a space-separated stream.
pub(crate) fn tokens(s: &str) -> (r: Vec<String>)
    ensures
        r.deep_view() == tokens_of(s@),
{
    if s.is_empty() {
        let r: Vec<String> = Vec::new();
        assert(r.deep_view() =~= Seq::<Seq<char>>::empty());
        return r;
    }
    proof {
        reveal_strlit(" ");
    }
    assert(" "@ =~= space());
    split_text(s, " ")
}

/// A copy of a list of tokens.
pub(crate) fn clone_tokens(v: &Vec<String>) -> (r: Vec<String>)
    ensures
        r.deep_view() == v.deep_view(),
{
    let mut r: Vec<String> = Vec::new();
    for i in 0..v.len()
        invariant
            r.deep_view() == v.deep_view().take(i as int),
    {
        let ghost prev = r.deep_view();
        r.push(v[i].clone());
        assert(r.deep_view() =~= prev.push(v.deep_view()[i as int]));
        assert(v.deep_view().take(i as int + 1) =~= prev.push(v.deep_view()[i as int]));
    }
    assert(v.deep_view().take(v.len() as int) =~= v.deep_view());
    r
}

/// `s` without its trailing spaces.
pub(crate) fn trim_end_spaces(s: &String) -> (r: String)
    ensures
        r@ == trim_end(s@),
{
    let cs = chars_of(s.as_str());
    let mut e: usize = cs.len();
    assert(s@.take(e as int) =~= s@);
    while e > 0 && cs[e - 1] == ' '
        invariant
            cs@ == s@,
            e <= cs.len(),
            trim_end(s@) == trim_end(s@.take(e as int)),
        decreases e,
    {
        assert(s@.take(e as int).drop_last() =~= s@.take(e - 1));
        e = e - 1;
    }
    let mut r = String::new();
    let mut i: usize = 0;
    while i < e
        invariant
            cs@ == s@,
            e <= cs.len(),
            i <= e,
            r@ == s@.take(i as int),
        decreases e - i,
    {
        push_char(&mut r, cs[i]);
        assert(s@.take(i as int + 1) =~= s@.take(i as int).push(cs@[i as int]));
        i = i + 1;
    }
    r
}

} // verus!
