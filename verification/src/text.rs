//! Character sequences: conversion from and to strings, decimal numbers, and the
//! lexicographic order on texts.
use vstd::prelude::*;
use vstd::string::StrSliceExecFns;
use vstd::relations::{total_ordering, sorted_by};
use vstd::seq_lib::lemma_sorted_unique;

verus! {

/// `String::push`: appends one character to the string.
#[verifier::external_body]
pub fn string_push(s: &mut String, c: char)
    ensures
        final(s)@ == old(s)@.push(c),
{
    s.push(c);
}

/// The characters of a string slice.
pub fn chars_of(s: &str) -> (r: Vec<char>)
    ensures
        r@ == s@,
{
    let n = s.unicode_len();
    let mut r: Vec<char> = Vec::new();
    let mut i: usize = 0;
    while i < n
        invariant
            n == s@.len(),
            i <= n,
            r@ == s@.subrange(0, i as int),
        decreases n - i,
    {
        let c = s.get_char(i);
        r.push(c);
        assert(r@ =~= s@.subrange(0, i + 1));
        i = i + 1;
    }
    assert(r@ =~= s@);
    r
}

/// The string made of the characters.
pub fn string_of(v: &Vec<char>) -> (r: String)
    ensures
        r@ == v@,
{
    let mut r = String::new();
    let mut i: usize = 0;
    while i < v.len()
        invariant
            i <= v.len(),
            r@ == v@.subrange(0, i as int),
        decreases v.len() - i,
    {
        string_push(&mut r, v[i]);
        assert(r@ =~= v@.subrange(0, i + 1));
        i = i + 1;
    }
    assert(r@ =~= v@);
    r
}

/// Appends the characters of `t` to `v`.
pub fn push_all(v: &mut Vec<char>, t: &Vec<char>)
    ensures
        final(v)@ == old(v)@ + t@,
{
    let mut i: usize = 0;
    let ghost v0 = v@;
    while i < t.len()
        invariant
            i <= t.len(),
            v@ == v0 + t@.subrange(0, i as int),
        decreases t.len() - i,
    {
        v.push(t[i]);
        assert(v@ =~= v0 + t@.subrange(0, i + 1));
        i = i + 1;
    }
    assert(t@.subrange(0, t.len() as int) =~= t@);
}

/// The decimal digit for `d < 10`.
pub open spec fn digit_char(d: nat) -> char {
    if d == 0 { '0' } else if d == 1 { '1' } else if d == 2 { '2' } else if d == 3 { '3' } else if d == 4 { '4' }
    else if d == 5 { '5' } else if d == 6 { '6' } else if d == 7 { '7' } else if d == 8 { '8' } else { '9' }
}

/// The decimal notation of `n`, without leading zeros.
pub open spec fn decimal(n: nat) -> Seq<char>
    decreases n,
{
    if n < 10 {
        seq![digit_char(n)]
    } else {
        decimal(n / 10).push(digit_char(n % 10))
    }
}

fn digit_char_exec(d: usize) -> (c: char)
    requires
        d < 10,
    ensures
        c == digit_char(d as nat),
{
    if d == 0 { '0' } else if d == 1 { '1' } else if d == 2 { '2' } else if d == 3 { '3' } else if d == 4 { '4' }
    else if d == 5 { '5' } else if d == 6 { '6' } else if d == 7 { '7' } else if d == 8 { '8' } else { '9' }
}

/// The decimal notation of `n`.
pub fn decimal_exec(n: usize) -> (r: Vec<char>)
    ensures
        r@ == decimal(n as nat),
    decreases n,
{
    if n < 10 {
        let mut r = Vec::new();
        r.push(digit_char_exec(n));
        assert(r@ =~= decimal(n as nat));
        r
    } else {
        let mut r = decimal_exec(n / 10);
        r.push(digit_char_exec(n % 10));
        r
    }
}

/// Lexicographic order on texts, character by character: `a` comes strictly before `b`.
pub open spec fn text_lt(a: Seq<char>, b: Seq<char>) -> bool
    decreases a.len(),
{
    if a.len() == 0 {
        b.len() > 0
    } else if b.len() == 0 {
        false
    } else if a[0] < b[0] {
        true
    } else if a[0] > b[0] {
        false
    } else {
        text_lt(a.drop_first(), b.drop_first())
    }
}

/// Lexicographic order on texts, equality allowed.
pub open spec fn text_le(a: Seq<char>, b: Seq<char>) -> bool {
    a == b || text_lt(a, b)
}

/// The order on texts is total and irreflexive.
pub proof fn lemma_text_total(a: Seq<char>, b: Seq<char>)
    ensures
        a != b ==> (text_lt(a, b) || text_lt(b, a)),
        !(text_lt(a, b) && text_lt(b, a)),
        !text_lt(a, a),
    decreases a.len(),
{
    if a.len() > 0 && b.len() > 0 && a[0] == b[0] {
        assert(a[0] == b[0]);
        lemma_text_total(a.drop_first(), b.drop_first());
        if a != b {
            assert(a.drop_first() != b.drop_first()) by {
                if a.drop_first() == b.drop_first() {
                    assert(a =~= b) by {
                        assert forall|k: int| 0 <= k < a.len() implies a[k] == b[k] by {
                            if k > 0 {
                                assert(a[k] == a.drop_first()[k - 1]);
                            }
                        }
                    }
                }
            }
        }
    } else if a.len() == 0 && b.len() == 0 {
        assert(a =~= b);
    }
    if a.len() > 0 {
        lemma_text_total(a.drop_first(), a.drop_first());
    }
}

/// The order on texts is transitive.
pub proof fn lemma_text_trans(a: Seq<char>, b: Seq<char>, c: Seq<char>)
    requires
        text_lt(a, b),
        text_lt(b, c),
    ensures
        text_lt(a, c),
    decreases a.len(),
{
    if a.len() > 0 && b.len() > 0 && c.len() > 0 && a[0] == b[0] && b[0] == c[0] {
        lemma_text_trans(a.drop_first(), b.drop_first(), c.drop_first());
    }
}

/// Whether the text `a` comes strictly before the text `b`.
pub fn text_less(a: &Vec<char>, b: &Vec<char>) -> (r: bool)
    ensures
        r == text_lt(a@, b@),
{
    let mut i: usize = 0;
    assert(a@.skip(0) =~= a@);
    assert(b@.skip(0) =~= b@);
    while i < a.len() && i < b.len() && a[i] == b[i]
        invariant
            i <= a.len(),
            i <= b.len(),
            text_lt(a@, b@) == text_lt(a@.skip(i as int), b@.skip(i as int)),
        decreases a.len() - i,
    {
        proof {
            assert(a@.skip(i as int).drop_first() =~= a@.skip(i + 1));
            assert(b@.skip(i as int).drop_first() =~= b@.skip(i + 1));
        }
        i = i + 1;
    }
    if i == a.len() {
        i < b.len()
    } else if i == b.len() {
        false
    } else {
        a[i] < b[i]
    }
}

/// Whether two texts are equal.
pub fn text_eq(a: &Vec<char>, b: &Vec<char>) -> (r: bool)
    ensures
        r == (a@ == b@),
{
    if a.len() != b.len() {
        return false;
    }
    let mut i: usize = 0;
    while i < a.len()
        invariant
            a.len() == b.len(),
            i <= a.len(),
            forall|k: int| 0 <= k < i ==> a@[k] == b@[k],
        decreases a.len() - i,
    {
        if a[i] != b[i] {
            return false;
        }
        i = i + 1;
    }
    assert(a@ =~= b@);
    true
}

/// The texts are in lexicographic order.
pub open spec fn sorted_texts(s: Seq<Seq<char>>) -> bool {
    forall|i: int, j: int| 0 <= i < j < s.len() ==> text_le(s[i], s[j])
}

/// The views of a list of texts.
pub open spec fn text_views(v: Seq<Vec<char>>) -> Seq<Seq<char>> {
    v.map_values(|x: Vec<char>| x@)
}

/// Sorts texts lexicographically (a selection sort); the result holds the same texts,
/// each as often as before.
pub fn sort_texts(v: Vec<Vec<char>>) -> (r: Vec<Vec<char>>)
    ensures
        sorted_texts(text_views(r@)),
        text_views(r@).to_multiset() == text_views(v@).to_multiset(),
{
    let mut rest = v;
    let mut out: Vec<Vec<char>> = Vec::new();
    let ghost orig = text_views(rest@);
    proof {
        let e = text_views(out@);
        vstd::seq_lib::to_multiset_len(e);
        vstd::multiset::lemma_multiset_empty_len(e.to_multiset());
        assert(e.to_multiset().add(orig.to_multiset()) =~= orig.to_multiset());
    }
    while rest.len() > 0
        invariant
            sorted_texts(text_views(out@)),
            forall|i: int, j: int|
                0 <= i < out@.len() && 0 <= j < rest@.len() ==> text_le(#[trigger] out@[i]@, #[trigger] rest@[j]@),
            text_views(out@).to_multiset().add(text_views(rest@).to_multiset()) == orig.to_multiset(),
        decreases rest.len(),
    {
        let mut m: usize = 0;
        let mut j: usize = 1;
        while j < rest.len()
            invariant
                0 <= m < rest.len(),
                1 <= j <= rest.len(),
                m < j,
                forall|k: int| 0 <= k < j ==> text_le(rest@[m as int]@, #[trigger] rest@[k]@),
            decreases rest.len() - j,
        {
            if text_less(&rest[j], &rest[m]) {
                proof {
                    assert forall|k: int| 0 <= k < j + 1 implies text_le(rest@[j as int]@, #[trigger] rest@[k]@) by {
                        if k < j && rest@[m as int]@ != rest@[k]@ {
                            lemma_text_trans(rest@[j as int]@, rest@[m as int]@, rest@[k]@);
                        }
                    }
                }
                m = j;
            } else {
                proof {
                    lemma_text_total(rest@[j as int]@, rest@[m as int]@);
                }
            }
            j = j + 1;
        }
        let ghost rest0 = rest@;
        let ghost out0 = out@;
        let x = rest.remove(m);
        out.push(x);
        proof {
            let om0 = text_views(out0);
            let om = text_views(out@);
            assert(om =~= om0.push(x@));
            assert forall|a: int, b: int| 0 <= a < b < om.len() implies text_le(om[a], om[b]) by {
                if b == om.len() - 1 {
                    assert(om[a] == out0[a]@);
                    assert(text_le(out0[a]@, rest0[m as int]@));
                }
            }
            assert forall|a: int, b: int| 0 <= a < out@.len() && 0 <= b < rest@.len() implies text_le(#[trigger] out@[a]@, #[trigger] rest@[b]@) by {
                let bb = if b < m { b } else { b + 1 };
                assert(rest@[b] == rest0[bb]);
                if a == out@.len() - 1 {
                } else {
                    assert(out@[a] == out0[a]);
                }
            }
            let rm0 = text_views(rest0);
            vstd::seq_lib::to_multiset_remove(rm0, m as int);
            rm0.to_multiset_ensures();
            assert(rm0[m as int] == x@);
            assert(rm0.contains(x@));
            vstd::seq_lib::to_multiset_build(om0, x@);
            let rm = text_views(rest@);
            assert(rm =~= rm0.remove(m as int));
            assert(om.to_multiset().add(rm.to_multiset()) =~= om0.to_multiset().add(rm0.to_multiset()));
        }
    }
    proof {
        let e = text_views(rest@);
        vstd::seq_lib::to_multiset_len(e);
        vstd::multiset::lemma_multiset_empty_len(e.to_multiset());
        assert(text_views(out@).to_multiset().add(e.to_multiset()) =~= text_views(out@).to_multiset());
    }
    out
}

/// The texts separated by `sep`.
pub open spec fn join(ts: Seq<Seq<char>>, sep: Seq<char>) -> Seq<char>
    decreases ts.len(),
{
    if ts.len() == 0 {
        Seq::empty()
    } else if ts.len() == 1 {
        ts[0]
    } else {
        join(ts.drop_last(), sep) + sep + ts.last()
    }
}

/// The lexicographic order on texts, equality allowed, as a relation.
pub open spec fn text_order() -> spec_fn(Seq<char>, Seq<char>) -> bool {
    |a: Seq<char>, b: Seq<char>| text_le(a, b)
}

/// The texts, sorted lexicographically.
pub open spec fn sorted_text_seq(ts: Seq<Seq<char>>) -> Seq<Seq<char>> {
    ts.sort_by(text_order())
}

/// The order on texts is a total order.
pub proof fn lemma_text_order_total()
    ensures
        total_ordering(text_order()),
{
    let r = text_order();
    assert forall|a: Seq<char>| #[trigger] r(a, a) by {}
    assert forall|a: Seq<char>, b: Seq<char>| #[trigger] r(a, b) && #[trigger] r(b, a) implies a == b by {
        lemma_text_total(a, b);
    }
    assert forall|a: Seq<char>, b: Seq<char>, c: Seq<char>| #[trigger] r(a, b) && #[trigger] r(b, c) implies r(a, c) by {
        if a != b && b != c {
            lemma_text_trans(a, b, c);
        }
    }
    assert forall|a: Seq<char>, b: Seq<char>| #[trigger] r(a, b) || #[trigger] r(b, a) by {
        lemma_text_total(a, b);
    }
}

/// Sorts texts lexicographically.
pub fn sort_texts_exact(v: Vec<Vec<char>>) -> (r: Vec<Vec<char>>)
    ensures
        text_views(r@) == sorted_text_seq(text_views(v@)),
{
    let ghost vv = text_views(v@);
    let r = sort_texts(v);
    proof {
        lemma_text_order_total();
        vv.lemma_sort_by_ensures(text_order());
        assert(sorted_by(text_views(r@), text_order())) by {
            assert forall|i: int, j: int| 0 <= i < j < text_views(r@).len() implies #[trigger] text_order()(text_views(r@)[i], text_views(r@)[j]) by {
                assert(text_le(text_views(r@)[i], text_views(r@)[j]));
            }
        }
        lemma_sorted_unique(text_views(r@), vv.sort_by(text_order()), text_order());
    }
    r
}

/// The texts separated by `sep`.
pub fn join_exec(ts: &Vec<Vec<char>>, sep: &Vec<char>) -> (r: Vec<char>)
    ensures
        r@ == join(text_views(ts@), sep@),
{
    let ghost tv = text_views(ts@);
    let mut r: Vec<char> = Vec::new();
    let mut i: usize = 0;
    while i < ts.len()
        invariant
            i <= ts.len(),
            tv == text_views(ts@),
            r@ == join(tv.take(i as int), sep@),
        decreases ts.len() - i,
    {
        let ghost r0 = r@;
        if i > 0 {
            push_all(&mut r, sep);
        }
        push_all(&mut r, &ts[i]);
        proof {
            let t1 = tv.take(i + 1);
            assert(t1.drop_last() =~= tv.take(i as int));
            assert(t1.last() == ts@[i as int]@);
            if i == 0 {
                assert(t1[0] == ts@[0]@);
                assert(r@ =~= join(t1, sep@));
            } else {
                assert(r@ =~= join(t1, sep@));
            }
        }
        i = i + 1;
    }
    assert(tv.take(ts.len() as int) =~= tv);
    r
}

/// The text without its parentheses.
pub open spec fn strip_parens(t: Seq<char>) -> Seq<char>
    decreases t.len(),
{
    if t.len() == 0 {
        t
    } else if t.last() == '(' || t.last() == ')' {
        strip_parens(t.drop_last())
    } else {
        strip_parens(t.drop_last()).push(t.last())
    }
}

/// The text without its parentheses.
pub fn strip_parens_exec(t: &Vec<char>) -> (r: Vec<char>)
    ensures
        r@ == strip_parens(t@),
{
    let mut r: Vec<char> = Vec::new();
    let mut i: usize = 0;
    while i < t.len()
        invariant
            i <= t.len(),
            r@ == strip_parens(t@.take(i as int)),
        decreases t.len() - i,
    {
        let c = t[i];
        if c != '(' && c != ')' {
            r.push(c);
        }
        proof {
            let t1 = t@.take(i + 1);
            assert(t1.drop_last() =~= t@.take(i as int));
            assert(t1.last() == c);
        }
        i = i + 1;
    }
    assert(t@.take(t.len() as int) =~= t@);
    r
}

} // verus!
