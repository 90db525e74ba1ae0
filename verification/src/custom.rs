//! Diagrams given as text: lines `x = y` rename an original label text into a diagram label
//! text, lines `a b -> c d` (or `c d <- a b`) give edges, and lines starting with `#` are
//! comments.
use vstd::prelude::*;
use crate::text::{text_views, text_eq, join, join_exec};
use crate::labels::Label;
use crate::text::{chars_of, string_of};
use crate::problem::{Problem, mapping_labels};
use crate::constraint::{lines_view, labels_in};
use crate::fixpoint::label_range;
use crate::lattice::{lattice_ok, closure_seq};
use crate::onestep::{onestep_result, renames_into, has_key, new_label_of, lemma_new_label_entry};
use crate::constraint::Constraint;

verus! {

/// Whitespace, as Unicode defines it.
pub open spec fn is_ws(c: char) -> bool {
    ||| '\t' <= c <= '\r'
    ||| c == ' '
    ||| c == '\u{85}'
    ||| c == '\u{a0}'
    ||| c == '\u{1680}'
    ||| '\u{2000}' <= c <= '\u{200a}'
    ||| c == '\u{2028}'
    ||| c == '\u{2029}'
    ||| c == '\u{202f}'
    ||| c == '\u{205f}'
    ||| c == '\u{3000}'
}

fn is_ws_exec(c: char) -> (r: bool)
    ensures
        r == is_ws(c),
{
    ('\t' <= c && c <= '\r') || c == ' ' || c == '\u{85}' || c == '\u{a0}' || c == '\u{1680}'
        || ('\u{2000}' <= c && c <= '\u{200a}') || c == '\u{2028}' || c == '\u{2029}' || c == '\u{202f}'
        || c == '\u{205f}' || c == '\u{3000}'
}

/// The pieces of `t` between the occurrences of `c`.
pub open spec fn split_char(t: Seq<char>, c: char) -> Seq<Seq<char>>
    decreases t.len(),
{
    if t.len() == 0 {
        seq![Seq::empty()]
    } else {
        let r = split_char(t.drop_last(), c);
        if t.last() == c {
            r.push(Seq::empty())
        } else {
            r.update(r.len() - 1, r.last().push(t.last()))
        }
    }
}

/// Splitting always gives at least one piece.
pub proof fn lemma_split_char_len(t: Seq<char>, c: char)
    ensures
        split_char(t, c).len() >= 1,
    decreases t.len(),
{
    if t.len() > 0 {
        lemma_split_char_len(t.drop_last(), c);
    }
}

/// The pieces of `t` between the occurrences of `c`.
pub fn split_char_exec(t: &Vec<char>, c: char) -> (r: Vec<Vec<char>>)
    ensures
        r@.map_values(|v: Vec<char>| v@) == split_char(t@, c),
{
    let mut pieces: Vec<Vec<char>> = Vec::new();
    let mut cur: Vec<char> = Vec::new();
    let mut i: usize = 0;
    while i < t.len()
        invariant
            i <= t.len(),
            pieces@.map_values(|v: Vec<char>| v@).push(cur@) == split_char(t@.subrange(0, i as int), c),
        decreases t.len() - i,
    {
        let ghost pv = pieces@.map_values(|v: Vec<char>| v@);
        let ghost cur0 = cur@;
        proof {
            assert(t@.subrange(0, i + 1).drop_last() =~= t@.subrange(0, i as int));
            lemma_split_char_len(t@.subrange(0, i as int), c);
        }
        if t[i] == c {
            let done = cur;
            pieces.push(done);
            cur = Vec::new();
            assert(pieces@.map_values(|v: Vec<char>| v@) =~= pv.push(cur0));
            assert(pieces@.map_values(|v: Vec<char>| v@).push(cur@) =~= pv.push(cur0).push(Seq::empty()));
        } else {
            cur.push(t[i]);
            assert(pieces@.map_values(|v: Vec<char>| v@).push(cur@) =~= pv.push(cur0).update(pv.len() as int, cur0.push(t@[i as int])));
        }
        i = i + 1;
    }
    assert(t@.subrange(0, t.len() as int) =~= t@);
    let ghost pv = pieces@.map_values(|v: Vec<char>| v@);
    pieces.push(cur);
    assert(pieces@.map_values(|v: Vec<char>| v@) =~= pv.push(cur@));
    pieces
}

/// The pieces of `t` between the occurrences of the two characters `a` `b` (which differ),
/// found from the left.
pub open spec fn split_pair(t: Seq<char>, a: char, b: char) -> Seq<Seq<char>>
    decreases t.len(),
{
    if t.len() == 0 {
        seq![Seq::empty()]
    } else {
        let r = split_pair(t.drop_last(), a, b);
        if t.len() >= 2 && t[t.len() - 2] == a && t.last() == b && r.last().len() > 0 {
            r.update(r.len() - 1, r.last().drop_last()).push(Seq::empty())
        } else {
            r.update(r.len() - 1, r.last().push(t.last()))
        }
    }
}

/// Splitting always gives at least one piece, and the last piece ends the text.
pub proof fn lemma_split_pair(t: Seq<char>, a: char, b: char)
    ensures
        split_pair(t, a, b).len() >= 1,
        split_pair(t, a, b).last().len() <= t.len(),
        split_pair(t, a, b).last().len() > 0 ==> split_pair(t, a, b).last().last() == t.last(),
        t.len() > 0 && t.last() != b ==> split_pair(t, a, b).last().len() > 0,
        t.len() > 0 ==> split_pair(t.drop_last(), a, b).len() <= split_pair(t, a, b).len(),
    decreases t.len(),
{
    if t.len() > 0 {
        lemma_split_pair(t.drop_last(), a, b);
    }
}

/// When `a` `b` (which differ) occur in `t`, splitting there gives at least two pieces.
pub proof fn lemma_split_pair_two(t: Seq<char>, a: char, b: char)
    requires
        a != b,
        has_pair(t, a, b),
    ensures
        split_pair(t, a, b).len() >= 2,
    decreases t.len(),
{
    let s = t.drop_last();
    lemma_split_pair(t, a, b);
    if has_pair(s, a, b) {
        lemma_split_pair_two(s, a, b);
    } else {
        let k = choose|k: int| 0 <= k < t.len() - 1 && #[trigger] t[k] == a && t[k + 1] == b;
        if k < t.len() - 2 {
            assert(s[k] == a && s[k + 1] == b);
        }
        assert(s.last() == a);
        lemma_split_pair(s, a, b);
        lemma_split_pair(s.drop_last(), a, b);
    }
}

/// The pieces of `t` between the occurrences of `a` `b` (see `split_pair`).
pub fn split_pair_exec(t: &Vec<char>, a: char, b: char) -> (r: Vec<Vec<char>>)
    ensures
        r@.map_values(|v: Vec<char>| v@) == split_pair(t@, a, b),
{
    let mut pieces: Vec<Vec<char>> = Vec::new();
    let mut cur: Vec<char> = Vec::new();
    let mut i: usize = 0;
    while i < t.len()
        invariant
            i <= t.len(),
            pieces@.map_values(|v: Vec<char>| v@).push(cur@) == split_pair(t@.subrange(0, i as int), a, b),
        decreases t.len() - i,
    {
        let ghost pv = pieces@.map_values(|v: Vec<char>| v@);
        let ghost cur0 = cur@;
        let ghost s1 = t@.subrange(0, i + 1);
        proof {
            assert(s1.drop_last() =~= t@.subrange(0, i as int));
            lemma_split_pair(t@.subrange(0, i as int), a, b);
        }
        if i >= 1 && t[i - 1] == a && t[i] == b && cur.len() > 0 {
            cur.pop();
            let done = cur;
            pieces.push(done);
            cur = Vec::new();
            assert(pieces@.map_values(|v: Vec<char>| v@).push(cur@) =~= pv.push(cur0).update(pv.len() as int, cur0.drop_last()).push(Seq::empty()));
        } else {
            cur.push(t[i]);
            assert(pieces@.map_values(|v: Vec<char>| v@).push(cur@) =~= pv.push(cur0).update(pv.len() as int, cur0.push(t@[i as int])));
        }
        i = i + 1;
    }
    assert(t@.subrange(0, t.len() as int) =~= t@);
    let ghost pv = pieces@.map_values(|v: Vec<char>| v@);
    pieces.push(cur);
    assert(pieces@.map_values(|v: Vec<char>| v@) =~= pv.push(cur@));
    pieces
}

/// `t` holds the characters `a` `b` next to each other.
pub open spec fn has_pair(t: Seq<char>, a: char, b: char) -> bool {
    exists|k: int| 0 <= k < t.len() - 1 && #[trigger] t[k] == a && t[k + 1] == b
}

/// Whether `t` holds `a` `b` next to each other.
pub fn has_pair_exec(t: &Vec<char>, a: char, b: char) -> (r: bool)
    ensures
        r == has_pair(t@, a, b),
{
    let mut k: usize = 0;
    while k < t.len()
        invariant
            k <= t.len(),
            forall|j: int| 0 <= j < k && j < t@.len() - 1 ==> !(#[trigger] t@[j] == a && t@[j + 1] == b),
        decreases t.len() - k,
    {
        if k + 1 < t.len() && t[k] == a && t[k + 1] == b {
            return true;
        }
        k = k + 1;
    }
    false
}

/// The words of `t`: its longest runs of characters that are not whitespace.
pub open spec fn words(t: Seq<char>) -> Seq<Seq<char>>
    decreases t.len(),
{
    if t.len() == 0 {
        Seq::empty()
    } else {
        let r = words(t.drop_last());
        if is_ws(t.last()) {
            r
        } else if t.len() >= 2 && !is_ws(t[t.len() - 2]) {
            r.update(r.len() - 1, r.last().push(t.last()))
        } else {
            r.push(seq![t.last()])
        }
    }
}

/// After a character that is not whitespace there is a word.
pub proof fn lemma_words_nonempty(t: Seq<char>)
    requires
        t.len() > 0,
        !is_ws(t.last()),
    ensures
        words(t).len() > 0,
    decreases t.len(),
{
    if t.len() >= 2 && !is_ws(t[t.len() - 2]) {
        assert(t.drop_last().last() == t[t.len() - 2]);
        lemma_words_nonempty(t.drop_last());
    }
}

/// The words of `t` (see `words`).
pub fn words_exec(t: &Vec<char>) -> (r: Vec<Vec<char>>)
    ensures
        r@.map_values(|v: Vec<char>| v@) == words(t@),
{
    let mut r: Vec<Vec<char>> = Vec::new();
    let mut cur: Vec<char> = Vec::new();
    let mut i: usize = 0;
    while i < t.len()
        invariant
            i <= t.len(),
            cur@.len() > 0 ==> i > 0 && !is_ws(t@[i - 1]),
            i > 0 && !is_ws(t@[i - 1]) ==> cur@.len() > 0,
            (if cur@.len() > 0 { r@.map_values(|v: Vec<char>| v@).push(cur@) } else { r@.map_values(|v: Vec<char>| v@) })
                == words(t@.subrange(0, i as int)),
        decreases t.len() - i,
    {
        let ghost rv = r@.map_values(|v: Vec<char>| v@);
        let ghost cur0 = cur@;
        let ghost s1 = t@.subrange(0, i + 1);
        proof {
            assert(s1.drop_last() =~= t@.subrange(0, i as int));
            assert(s1.last() == t@[i as int]);
            if i >= 1 {
                assert(s1[s1.len() - 2] == t@[i - 1]);
            }
        }
        if is_ws_exec(t[i]) {
            if cur.len() > 0 {
                let done = cur;
                r.push(done);
                cur = Vec::new();
                assert(r@.map_values(|v: Vec<char>| v@) =~= rv.push(cur0));
            }
        } else {
            cur.push(t[i]);
            proof {
                if cur0.len() > 0 {
                    assert(rv.push(cur@) =~= rv.push(cur0).update(rv.len() as int, cur0.push(t@[i as int])));
                } else {
                    assert(cur@ =~= seq![t@[i as int]]);
                }
            }
        }
        i = i + 1;
    }
    assert(t@.subrange(0, t.len() as int) =~= t@);
    if cur.len() > 0 {
        let ghost rv = r@.map_values(|v: Vec<char>| v@);
        r.push(cur);
        assert(r@.map_values(|v: Vec<char>| v@) =~= rv.push(cur@));
    }
    r
}

/// `t` without the whitespace at its end.
pub open spec fn trim_end(t: Seq<char>) -> Seq<char>
    decreases t.len(),
{
    if t.len() > 0 && is_ws(t.last()) {
        trim_end(t.drop_last())
    } else {
        t
    }
}

/// `t` without the whitespace at its start.
pub open spec fn trim_start(t: Seq<char>) -> Seq<char>
    decreases t.len(),
{
    if t.len() > 0 && is_ws(t[0]) {
        trim_start(t.drop_first())
    } else {
        t
    }
}

/// `t` without the whitespace at both ends.
pub open spec fn trim(t: Seq<char>) -> Seq<char> {
    trim_start(trim_end(t))
}

/// `t` without the whitespace at both ends.
pub fn trim_exec(t: &Vec<char>) -> (r: Vec<char>)
    ensures
        r@ == trim(t@),
{
    let mut e: usize = t.len();
    assert(t@.subrange(0, t.len() as int) =~= t@);
    while e > 0 && is_ws_exec(t[e - 1])
        invariant
            e <= t.len(),
            trim_end(t@) == trim_end(t@.subrange(0, e as int)),
        decreases e,
    {
        assert(t@.subrange(0, e as int).drop_last() =~= t@.subrange(0, e - 1));
        e = e - 1;
    }
    assert(t@.subrange(0, t.len() as int) =~= t@);
    let ghost te = t@.subrange(0, e as int);
    assert(trim_end(t@) == te);
    let mut b: usize = 0;
    assert(te.subrange(0, e as int) =~= te);
    while b < e && is_ws_exec(t[b])
        invariant
            b <= e <= t.len(),
            te == t@.subrange(0, e as int),
            trim_start(te) == trim_start(te.subrange(b as int, e as int)),
        decreases e - b,
    {
        assert(te.subrange(b as int, e as int).drop_first() =~= te.subrange(b + 1, e as int));
        b = b + 1;
    }
    assert(te.subrange(0, e as int) =~= te);
    let mut r: Vec<char> = Vec::new();
    let mut k: usize = b;
    while k < e
        invariant
            b <= k <= e <= t.len(),
            r@ == t@.subrange(b as int, k as int),
        decreases e - k,
    {
        r.push(t[k]);
        assert(r@ =~= t@.subrange(b as int, k + 1));
        k = k + 1;
    }
    assert(te.subrange(b as int, e as int) =~= t@.subrange(b as int, e as int));
    r
}

/// `l` without a carriage return at its end.
pub open spec fn strip_cr(l: Seq<char>) -> Seq<char> {
    if l.len() > 0 && l.last() == '\r' {
        l.drop_last()
    } else {
        l
    }
}

/// The lines of `t`: the pieces between line feeds, each ended line without a carriage
/// return at its end, and no last line when the text ends with a line feed.
pub open spec fn lines_of(t: Seq<char>) -> Seq<Seq<char>> {
    let p = split_char(t, '\n');
    let body = p.drop_last().map_values(|l: Seq<char>| strip_cr(l));
    if p.last().len() == 0 {
        body
    } else {
        body.push(p.last())
    }
}

/// The lines of `t` (see `lines_of`).
pub fn lines_exec(t: &Vec<char>) -> (r: Vec<Vec<char>>)
    ensures
        text_views(r@) == lines_of(t@),
{
    let ps = split_char_exec(t, '\n');
    let ghost pv = ps@.map_values(|v: Vec<char>| v@);
    proof {
        lemma_split_char_len(t@, '\n');
    }
    let mut r: Vec<Vec<char>> = Vec::new();
    let mut i: usize = 0;
    assert(ps@.len() >= 1);
    while i < ps.len() - 1
        invariant
            pv == ps@.map_values(|v: Vec<char>| v@),
            pv == split_char(t@, '\n'),
            ps@.len() >= 1,
            i + 1 <= ps@.len(),
            text_views(r@) == pv.drop_last().subrange(0, i as int).map_values(|l: Seq<char>| strip_cr(l)),
        decreases ps.len() - i,
    {
        let mut l = ps[i].clone();
        assert(l@ == pv[i as int]);
        if l.len() > 0 && l[l.len() - 1] == '\r' {
            l.pop();
        }
        let ghost r0 = text_views(r@);
        r.push(l);
        assert(text_views(r@) =~= r0.push(l@));
        assert(pv.drop_last().subrange(0, i + 1).map_values(|l: Seq<char>| strip_cr(l))
            =~= pv.drop_last().subrange(0, i as int).map_values(|l: Seq<char>| strip_cr(l)).push(strip_cr(pv[i as int])));
        i = i + 1;
    }
    assert(pv.drop_last().subrange(0, i as int) =~= pv.drop_last());
    let last = ps[ps.len() - 1].clone();
    assert(last@ == pv.last());
    if last.len() > 0 {
        let ghost r0 = text_views(r@);
        r.push(last);
        assert(text_views(r@) =~= r0.push(pv.last()));
    }
    r
}

/// The line is a comment: it starts with `#`.
pub open spec fn is_comment(l: Seq<char>) -> bool {
    l.len() > 0 && l[0] == '#'
}

/// A line that renames a label: no comment, and it holds `=`.
pub open spec fn is_mapping_line(l: Seq<char>) -> bool {
    !is_comment(l) && l.contains('=')
}

/// A line that gives edges: no comment, and it holds `->` or `<-`.
pub open spec fn is_diagram_line(l: Seq<char>) -> bool {
    !is_comment(l) && (has_pair(l, '-', '>') || has_pair(l, '<', '-'))
}

/// Whether the line renames a label (see `is_mapping_line`).
fn is_mapping_line_exec(l: &Vec<char>) -> (r: bool)
    ensures
        r == is_mapping_line(l@),
{
    if l.len() > 0 && l[0] == '#' {
        return false;
    }
    let mut k: usize = 0;
    while k < l.len()
        invariant
            k <= l.len(),
            !is_comment(l@),
            forall|j: int| 0 <= j < k ==> l@[j] != '=',
        decreases l.len() - k,
    {
        if l[k] == '=' {
            assert(l@[k as int] == '=');
            assert(l@.contains('='));
            return true;
        }
        k = k + 1;
    }
    false
}

/// Whether the line gives edges (see `is_diagram_line`).
fn is_diagram_line_exec(l: &Vec<char>) -> (r: bool)
    ensures
        r == is_diagram_line(l@),
{
    if l.len() > 0 && l[0] == '#' {
        return false;
    }
    has_pair_exec(l, '-', '>') || has_pair_exec(l, '<', '-')
}

/// The lines that rename labels.
pub open spec fn mapping_lines(t: Seq<char>) -> Seq<Seq<char>> {
    lines_of(t).filter(|l: Seq<char>| is_mapping_line(l))
}

/// The lines that give edges.
pub open spec fn diagram_lines(t: Seq<char>) -> Seq<Seq<char>> {
    lines_of(t).filter(|l: Seq<char>| is_diagram_line(l))
}

/// The lines that rename labels, and those that give edges.
fn select_lines(ls: &Vec<Vec<char>>) -> (r: (Vec<Vec<char>>, Vec<Vec<char>>))
    ensures
        text_views(r.0@) == text_views(ls@).filter(|l: Seq<char>| is_mapping_line(l)),
        text_views(r.1@) == text_views(ls@).filter(|l: Seq<char>| is_diagram_line(l)),
{
    let ghost lv = text_views(ls@);
    let ghost pm = |l: Seq<char>| is_mapping_line(l);
    let ghost pd = |l: Seq<char>| is_diagram_line(l);
    let mut m: Vec<Vec<char>> = Vec::new();
    let mut d: Vec<Vec<char>> = Vec::new();
    let mut i: usize = 0;
    while i < ls.len()
        invariant
            i <= ls.len(),
            lv == text_views(ls@),
            pm == |l: Seq<char>| is_mapping_line(l),
            pd == |l: Seq<char>| is_diagram_line(l),
            text_views(m@) == lv.subrange(0, i as int).filter(pm),
            text_views(d@) == lv.subrange(0, i as int).filter(pd),
        decreases ls.len() - i,
    {
        let ghost m0 = text_views(m@);
        let ghost d0 = text_views(d@);
        proof {
            reveal(Seq::filter);
            assert(lv.subrange(0, i + 1).drop_last() =~= lv.subrange(0, i as int));
            assert(lv.subrange(0, i + 1).last() == ls@[i as int]@);
        }
        if is_mapping_line_exec(&ls[i]) {
            m.push(ls[i].clone());
            assert(text_views(m@) =~= m0.push(ls@[i as int]@));
        }
        if is_diagram_line_exec(&ls[i]) {
            d.push(ls[i].clone());
            assert(text_views(d@) =~= d0.push(ls@[i as int]@));
        }
        i = i + 1;
    }
    assert(lv.subrange(0, ls.len() as int) =~= lv);
    (m, d)
}

/// The lines that give edges, as one text, separated by line feeds.
pub open spec fn diagram_text(t: Seq<char>) -> Seq<char> {
    join(diagram_lines(t), seq!['\n'])
}

/// The sequences of `s`, one after the other.
pub open spec fn concat<A>(s: Seq<Seq<A>>) -> Seq<A>
    decreases s.len(),
{
    if s.len() == 0 {
        Seq::empty()
    } else {
        concat(s.drop_last()) + s.last()
    }
}

/// A piece that names a label: not empty, and no arrow.
pub open spec fn is_label_piece(p: Seq<char>) -> bool {
    p.len() > 0 && p != seq!['-', '>'] && p != seq!['<', '-']
}

/// The pieces of the word `w` between its arrows (`<-`, then `->`) that name labels.
pub open spec fn word_pieces(w: Seq<char>) -> Seq<Seq<char>> {
    concat(split_pair(w, '<', '-').map_values(|p: Seq<char>| split_pair(p, '-', '>'))).filter(|p: Seq<char>| is_label_piece(p))
}

/// The pieces that name labels, word after word, in the lines that give edges.
pub open spec fn label_pieces(t: Seq<char>) -> Seq<Seq<char>> {
    concat(words(diagram_text(t)).map_values(|w: Seq<char>| word_pieces(w)))
}

/// The texts of `s`, each at its first occurrence.
pub open spec fn uniq(s: Seq<Seq<char>>) -> Seq<Seq<char>>
    decreases s.len(),
{
    if s.len() == 0 {
        Seq::empty()
    } else {
        let r = uniq(s.drop_last());
        if r.contains(s.last()) {
            r
        } else {
            r.push(s.last())
        }
    }
}

/// The texts of the diagram labels, in order of first occurrence: label `i` has text `[i]`.
pub open spec fn diagram_texts(t: Seq<char>) -> Seq<Seq<char>> {
    uniq(label_pieces(t))
}

/// Whether some text of `v` is `x`.
fn contains_text(v: &Vec<Vec<char>>, x: &Vec<char>) -> (r: bool)
    ensures
        r == text_views(v@).contains(x@),
{
    let mut i: usize = 0;
    while i < v.len()
        invariant
            i <= v.len(),
            forall|j: int| 0 <= j < i ==> v@[j]@ != x@,
        decreases v.len() - i,
    {
        if text_eq(&v[i], x) {
            assert(text_views(v@)[i as int] == x@);
            return true;
        }
        i = i + 1;
    }
    assert forall|j: int| 0 <= j < text_views(v@).len() implies text_views(v@)[j] != x@ by {
        assert(text_views(v@)[j] == v@[j]@);
    }
    false
}

/// Appends to `out` each piece of `w` that names a label (see `word_pieces`).
fn push_word_pieces(w: &Vec<char>, out: &mut Vec<Vec<char>>)
    ensures
        text_views(final(out)@) == text_views(old(out)@) + word_pieces(w@),
{
    let ghost pred = |p: Seq<char>| is_label_piece(p);
    let ghost o0 = text_views(out@);
    let ps = split_pair_exec(w, '<', '-');
    let ghost pv = ps@.map_values(|v: Vec<char>| v@);
    let ghost sub = pv.map_values(|p: Seq<char>| split_pair(p, '-', '>'));
    let mut i: usize = 0;
    while i < ps.len()
        invariant
            i <= ps.len(),
            pv == ps@.map_values(|v: Vec<char>| v@),
            sub == pv.map_values(|p: Seq<char>| split_pair(p, '-', '>')),
            pred == |p: Seq<char>| is_label_piece(p),
            text_views(out@) == o0 + concat(sub.subrange(0, i as int)).filter(pred),
        decreases ps.len() - i,
    {
        let qs = split_pair_exec(&ps[i], '-', '>');
        let ghost qv = qs@.map_values(|v: Vec<char>| v@);
        assert(qv == sub[i as int]);
        let ghost before = text_views(out@);
        let mut j: usize = 0;
        while j < qs.len()
            invariant
                j <= qs.len(),
                qv == qs@.map_values(|v: Vec<char>| v@),
                pred == |p: Seq<char>| is_label_piece(p),
                text_views(out@) == before + qv.subrange(0, j as int).filter(pred),
            decreases qs.len() - j,
        {
            let q = &qs[j];
            let ghost o1 = text_views(out@);
            proof {
                reveal(Seq::filter);
                assert(qv.subrange(0, j + 1).drop_last() =~= qv.subrange(0, j as int));
                assert(qv.subrange(0, j + 1).last() == q@);
            }
            let arrow1: Vec<char> = vec!['-', '>'];
            let arrow2: Vec<char> = vec!['<', '-'];
            proof {
                assert(arrow1@ =~= seq!['-', '>']);
                assert(arrow2@ =~= seq!['<', '-']);
            }
            if q.len() > 0 && !text_eq(q, &arrow1) && !text_eq(q, &arrow2) {
                out.push(q.clone());
                assert(text_views(out@) =~= o1.push(q@));
            }
            j = j + 1;
        }
        proof {
            assert(qv.subrange(0, qs.len() as int) =~= qv);
            let c0 = concat(sub.subrange(0, i as int));
            assert(sub.subrange(0, i + 1).drop_last() =~= sub.subrange(0, i as int));
            assert(concat(sub.subrange(0, i + 1)) == c0 + qv);
            Seq::filter_distributes_over_add(c0, qv, pred);
            assert(text_views(out@) =~= o0 + concat(sub.subrange(0, i + 1)).filter(pred));
        }
        i = i + 1;
    }
    assert(sub.subrange(0, ps.len() as int) =~= sub);
}

/// The pieces that name labels, word after word, in the text `dt` (see `label_pieces`).
fn label_pieces_exec(dt: &Vec<char>) -> (r: Vec<Vec<char>>)
    ensures
        text_views(r@) == concat(words(dt@).map_values(|w: Seq<char>| word_pieces(w))),
{
    let ws = words_exec(dt);
    let ghost wv = ws@.map_values(|v: Vec<char>| v@);
    let ghost all = wv.map_values(|w: Seq<char>| word_pieces(w));
    let mut r: Vec<Vec<char>> = Vec::new();
    let mut i: usize = 0;
    while i < ws.len()
        invariant
            i <= ws.len(),
            wv == ws@.map_values(|v: Vec<char>| v@),
            all == wv.map_values(|w: Seq<char>| word_pieces(w)),
            text_views(r@) == concat(all.subrange(0, i as int)),
        decreases ws.len() - i,
    {
        push_word_pieces(&ws[i], &mut r);
        assert(all.subrange(0, i + 1).drop_last() =~= all.subrange(0, i as int));
        i = i + 1;
    }
    assert(all.subrange(0, ws.len() as int) =~= all);
    r
}

/// The texts of `s`, each at its first occurrence (see `uniq`).
fn uniq_exec(s: &Vec<Vec<char>>) -> (r: Vec<Vec<char>>)
    ensures
        text_views(r@) == uniq(text_views(s@)),
{
    let ghost sv = text_views(s@);
    let mut r: Vec<Vec<char>> = Vec::new();
    let mut i: usize = 0;
    while i < s.len()
        invariant
            i <= s.len(),
            sv == text_views(s@),
            text_views(r@) == uniq(sv.subrange(0, i as int)),
        decreases s.len() - i,
    {
        let ghost r0 = text_views(r@);
        assert(sv.subrange(0, i + 1).drop_last() =~= sv.subrange(0, i as int));
        assert(sv.subrange(0, i + 1).last() == s@[i as int]@);
        if !contains_text(&r, &s[i]) {
            r.push(s[i].clone());
            assert(text_views(r@) =~= r0.push(s@[i as int]@));
        }
        i = i + 1;
    }
    assert(sv.subrange(0, s.len() as int) =~= sv);
    r
}

/// The position of the first occurrence of `x` in `u`.
pub open spec fn position_of(u: Seq<Seq<char>>, x: Seq<char>) -> int {
    choose|i: int| 0 <= i < u.len() && u[i] == x && forall|j: int| 0 <= j < i ==> u[j] != x
}

/// The position of the first occurrence of `x` in `u`, which holds it.
fn position_exec(u: &Vec<Vec<char>>, x: &Vec<char>) -> (r: usize)
    requires
        text_views(u@).contains(x@),
    ensures
        r == position_of(text_views(u@), x@),
        r < u@.len(),
{
    let ghost uv = text_views(u@);
    let mut i: usize = 0;
    while i < u.len()
        invariant
            i <= u.len(),
            uv == text_views(u@),
            uv.contains(x@),
            forall|j: int| 0 <= j < i ==> uv[j] != x@,
        decreases u.len() - i,
    {
        if text_eq(&u[i], x) {
            proof {
                assert(uv[i as int] == x@);
                let c = position_of(uv, x@);
                assert(exists|k: int| 0 <= k < uv.len() && uv[k] == x@ && forall|j: int| 0 <= j < k ==> uv[j] != x@);
                if c < i {
                    assert(uv[c] != x@);
                }
                if c > i {
                    assert(uv[i as int] != x@);
                }
            }
            return i;
        }
        assert(uv[i as int] == u@[i as int]@);
        i = i + 1;
    }
    proof {
        let k = choose|k: int| 0 <= k < uv.len() && uv[k] == x@;
    }
    0
}

/// When `c` occurs in `t`, splitting there gives at least two pieces.
pub proof fn lemma_split_char_two(t: Seq<char>, c: char)
    requires
        t.contains(c),
    ensures
        split_char(t, c).len() >= 2,
    decreases t.len(),
{
    lemma_split_char_len(t, c);
    if t.last() != c {
        let k = choose|k: int| 0 <= k < t.len() && t[k] == c;
        assert(t.drop_last()[k] == c);
        lemma_split_char_two(t.drop_last(), c);
    } else {
        lemma_split_char_len(t.drop_last(), c);
    }
}

/// The renaming that a line `x = y` gives: the text before the first `=` and the text after
/// it, up to the next `=`, both without whitespace at their ends.
pub open spec fn rename_pair(l: Seq<char>) -> (Seq<char>, Seq<char>) {
    let p = split_char(l, '=');
    (trim(p[0]), trim(p[1]))
}

/// The renamings of the text, line after line.
pub open spec fn renamings(t: Seq<char>) -> Seq<(Seq<char>, Seq<char>)> {
    mapping_lines(t).map_values(|l: Seq<char>| rename_pair(l))
}

/// The text that `s` is renamed into: that of the last renaming of `s`, or `s` itself.
pub open spec fn renamed_text(on: Seq<(Seq<char>, Seq<char>)>, s: Seq<char>) -> Seq<char>
    decreases on.len(),
{
    if on.len() == 0 {
        s
    } else if on.last().0 == s {
        on.last().1
    } else {
        renamed_text(on.drop_last(), s)
    }
}

/// The views of a list of pairs of texts.
pub open spec fn pairs_view(v: Seq<(Vec<char>, Vec<char>)>) -> Seq<(Seq<char>, Seq<char>)> {
    v.map_values(|p: (Vec<char>, Vec<char>)| (p.0@, p.1@))
}

/// The renamings given by the lines `ls`, which all hold `=`.
fn renamings_exec(ls: &Vec<Vec<char>>) -> (r: Vec<(Vec<char>, Vec<char>)>)
    requires
        forall|i: int| 0 <= i < ls@.len() ==> (#[trigger] ls@[i])@.contains('='),
    ensures
        pairs_view(r@) == text_views(ls@).map_values(|l: Seq<char>| rename_pair(l)),
{
    let mut r: Vec<(Vec<char>, Vec<char>)> = Vec::new();
    let mut i: usize = 0;
    while i < ls.len()
        invariant
            i <= ls.len(),
            forall|i2: int| 0 <= i2 < ls@.len() ==> (#[trigger] ls@[i2])@.contains('='),
            pairs_view(r@) == text_views(ls@).subrange(0, i as int).map_values(|l: Seq<char>| rename_pair(l)),
        decreases ls.len() - i,
    {
        let p = split_char_exec(&ls[i], '=');
        proof {
            lemma_split_char_two(ls@[i as int]@, '=');
        }
        let a = trim_exec(&p[0]);
        let b = trim_exec(&p[1]);
        let ghost r0 = pairs_view(r@);
        r.push((a, b));
        proof {
            assert(pairs_view(r@) =~= r0.push((a@, b@)));
            assert(text_views(ls@).subrange(0, i + 1) =~= text_views(ls@).subrange(0, i as int).push(ls@[i as int]@));
            assert(rename_pair(ls@[i as int]@) == (a@, b@));
            assert(text_views(ls@).subrange(0, i + 1).map_values(|l: Seq<char>| rename_pair(l))
                =~= text_views(ls@).subrange(0, i as int).map_values(|l: Seq<char>| rename_pair(l)).push((a@, b@)));
        }
        i = i + 1;
    }
    assert(text_views(ls@).subrange(0, ls.len() as int) =~= text_views(ls@));
    r
}

/// The text that `s` is renamed into (see `renamed_text`).
fn renamed_text_exec(on: &Vec<(Vec<char>, Vec<char>)>, s: &Vec<char>) -> (r: Vec<char>)
    ensures
        r@ == renamed_text(pairs_view(on@), s@),
{
    let ghost ov = pairs_view(on@);
    let mut i: usize = on.len();
    assert(ov.subrange(0, on.len() as int) =~= ov);
    while i > 0
        invariant
            i <= on.len(),
            ov == pairs_view(on@),
            renamed_text(ov, s@) == renamed_text(ov.subrange(0, i as int), s@),
        decreases i,
    {
        let ghost sub = ov.subrange(0, i as int);
        assert(sub.last() == (on@[i - 1].0@, on@[i - 1].1@));
        if text_eq(&on[i - 1].0, s) {
            return on[i - 1].1.clone();
        }
        assert(sub.drop_last() =~= ov.subrange(0, i - 1));
        i = i - 1;
    }
    s.clone()
}

/// The texts on the two sides of the arrow of a line that gives edges: the words before and
/// after `->` (up to a second arrow), or after and before `<-`.
pub open spec fn line_words(l: Seq<char>) -> (Seq<Seq<char>>, Seq<Seq<char>>) {
    if has_pair(l, '-', '>') {
        let p = split_pair(l, '-', '>');
        (words(p[0]), words(p[1]))
    } else if has_pair(l, '<', '-') {
        let p = split_pair(l, '<', '-');
        (words(p[1]), words(p[0]))
    } else {
        (Seq::empty(), Seq::empty())
    }
}

/// The edges of a line: from each label on the source side to each label on the target side,
/// the labels numbered by their position in `u`.
pub open spec fn line_edges(u: Seq<Seq<char>>, l: Seq<char>) -> Seq<(Label, Label)> {
    let (a, b) = line_words(l);
    concat(a.map_values(|x: Seq<char>| b.map_values(|y: Seq<char>| (position_of(u, x) as Label, position_of(u, y) as Label))))
}

/// Every word of the line's two sides is one of the texts `u`.
pub open spec fn words_known(u: Seq<Seq<char>>, l: Seq<char>) -> bool {
    &&& forall|w: Seq<char>| #[trigger] line_words(l).0.contains(w) ==> u.contains(w)
    &&& forall|w: Seq<char>| #[trigger] line_words(l).1.contains(w) ==> u.contains(w)
}

/// The two sides of a line that gives edges (see `line_words`).
fn line_words_exec(l: &Vec<char>) -> (r: (Vec<Vec<char>>, Vec<Vec<char>>))
    ensures
        text_views(r.0@) == line_words(l@).0,
        text_views(r.1@) == line_words(l@).1,
{
    if has_pair_exec(l, '-', '>') {
        let p = split_pair_exec(l, '-', '>');
        proof {
            lemma_split_pair_two(l@, '-', '>');
        }
        (words_exec(&p[0]), words_exec(&p[1]))
    } else if has_pair_exec(l, '<', '-') {
        let p = split_pair_exec(l, '<', '-');
        proof {
            lemma_split_pair_two(l@, '<', '-');
        }
        (words_exec(&p[1]), words_exec(&p[0]))
    } else {
        (Vec::new(), Vec::new())
    }
}

/// Appends the edges of the line `l` to `out` (see `line_edges`).
fn push_line_edges(u: &Vec<Vec<char>>, l: &Vec<char>, out: &mut Vec<(Label, Label)>)
    requires
        words_known(text_views(u@), l@),
        u@.len() <= 0x1_0000_0000,
    ensures
        final(out)@ == old(out)@ + line_edges(text_views(u@), l@),
{
    let ghost uv = text_views(u@);
    let (a, b) = line_words_exec(l);
    let ghost av = text_views(a@);
    let ghost bv = text_views(b@);
    let ghost rows = av.map_values(|x: Seq<char>| bv.map_values(|y: Seq<char>| (position_of(uv, x) as Label, position_of(uv, y) as Label)));
    let ghost o0 = out@;
    let mut i: usize = 0;
    while i < a.len()
        invariant
            i <= a.len(),
            uv == text_views(u@),
            u@.len() <= 0x1_0000_0000,
            av == text_views(a@),
            bv == text_views(b@),
            forall|w: Seq<char>| #[trigger] av.contains(w) ==> uv.contains(w),
            forall|w: Seq<char>| #[trigger] bv.contains(w) ==> uv.contains(w),
            rows == av.map_values(|x: Seq<char>| bv.map_values(|y: Seq<char>| (position_of(uv, x) as Label, position_of(uv, y) as Label))),
            out@ == o0 + concat(rows.subrange(0, i as int)),
        decreases a.len() - i,
    {
        assert(av[i as int] == a@[i as int]@);
        assert(av.contains(av[i as int]));
        let x = position_exec(u, &a[i]);
        let ghost before = out@;
        let mut j: usize = 0;
        while j < b.len()
            invariant
                i < a.len(),
                j <= b.len(),
                uv == text_views(u@),
                u@.len() <= 0x1_0000_0000,
                bv == text_views(b@),
                forall|w: Seq<char>| #[trigger] bv.contains(w) ==> uv.contains(w),
                x == position_of(uv, av[i as int]),
                x < u@.len(),
                out@ == before + bv.subrange(0, j as int).map_values(|y: Seq<char>| (position_of(uv, av[i as int]) as Label, position_of(uv, y) as Label)),
            decreases b.len() - j,
        {
            assert(bv[j as int] == b@[j as int]@);
            assert(bv.contains(bv[j as int]));
            let y = position_exec(u, &b[j]);
            let ghost o1 = out@;
            out.push((x as Label, y as Label));
            assert(bv.subrange(0, j + 1).map_values(|y: Seq<char>| (position_of(uv, av[i as int]) as Label, position_of(uv, y) as Label))
                =~= bv.subrange(0, j as int).map_values(|y: Seq<char>| (position_of(uv, av[i as int]) as Label, position_of(uv, y) as Label)).push((x as Label, y as Label)));
            assert(out@ =~= before + bv.subrange(0, j + 1).map_values(|y: Seq<char>| (position_of(uv, av[i as int]) as Label, position_of(uv, y) as Label)));
            j = j + 1;
        }
        proof {
            assert(bv.subrange(0, b.len() as int) =~= bv);
            assert(rows[i as int] == bv.map_values(|y: Seq<char>| (position_of(uv, av[i as int]) as Label, position_of(uv, y) as Label)));
            assert(rows.subrange(0, i + 1).drop_last() =~= rows.subrange(0, i as int));
            assert(out@ =~= o0 + concat(rows.subrange(0, i + 1)));
        }
        i = i + 1;
    }
    assert(rows.subrange(0, a.len() as int) =~= rows);
}

/// The lines that give edges, as the pieces between line feeds of their joined text.
pub open spec fn edge_lines(t: Seq<char>) -> Seq<Seq<char>> {
    split_char(diagram_text(t), '\n')
}

/// The edges that the text gives, line after line (see `line_edges`).
pub open spec fn custom_edges(t: Seq<char>) -> Seq<(Label, Label)> {
    concat(edge_lines(t).map_values(|l: Seq<char>| line_edges(diagram_texts(t), l)))
}

/// An element of one of the sequences of `s` is in their concatenation.
proof fn lemma_concat_contains<A>(s: Seq<Seq<A>>, i: int, j: int)
    requires
        0 <= i < s.len(),
        0 <= j < s[i].len(),
    ensures
        concat(s).contains(s[i][j]),
    decreases s.len(),
{
    let init = s.drop_last();
    if i == s.len() - 1 {
        assert(concat(s)[concat(init).len() + j] == s[i][j]);
    } else {
        lemma_concat_contains(init, i, j);
        assert(init[i] == s[i]);
        let k = choose|k: int| 0 <= k < concat(init).len() && concat(init)[k] == s[i][j];
        assert(concat(s)[k] == s[i][j]);
    }
}

/// An element of the concatenation is in one of the sequences of `s`.
proof fn lemma_concat_contains_rev<A>(s: Seq<Seq<A>>, x: A)
    requires
        concat(s).contains(x),
    ensures
        exists|i: int, j: int| 0 <= i < s.len() && 0 <= j < s[i].len() && s[i][j] == x,
    decreases s.len(),
{
    let init = s.drop_last();
    let k = choose|k: int| 0 <= k < concat(s).len() && concat(s)[k] == x;
    if k < concat(init).len() {
        assert(concat(init)[k] == x);
        lemma_concat_contains_rev(init, x);
        let (i, j) = choose|i: int, j: int| 0 <= i < init.len() && 0 <= j < init[i].len() && init[i][j] == x;
        assert(s[i] == init[i]);
    } else {
        assert(s.last()[k - concat(init).len()] == x);
        assert(s[s.len() - 1] == s.last());
    }
}

/// The line `l` of the diagram part of a text relates the word `w1` to the word `w2`: `l`
/// has `->` with `w1` among the words before it and `w2` among the words after it, or `l`
/// has only `<-` with `w1` among the words after it and `w2` among the words before it.
pub open spec fn arrow_relates(l: Seq<char>, w1: Seq<char>, w2: Seq<char>) -> bool {
    ||| has_pair(l, '-', '>') && words(split_pair(l, '-', '>')[0]).contains(w1)
        && words(split_pair(l, '-', '>')[1]).contains(w2)
    ||| !has_pair(l, '-', '>') && has_pair(l, '<', '-') && words(split_pair(l, '<', '-')[1]).contains(w1)
        && words(split_pair(l, '<', '-')[0]).contains(w2)
}

/// Every pair of words that a diagram line relates (see `arrow_relates`) gives an edge of the
/// diagram of the text (see `custom_edges`), from the label of the first word to the label
/// of the second: a line `a b -> c d` gives all four edges.
pub proof fn lemma_custom_edges_complete(t: Seq<char>, k: int, w1: Seq<char>, w2: Seq<char>)
    requires
        0 <= k < edge_lines(t).len(),
        arrow_relates(edge_lines(t)[k], w1, w2),
    ensures
        custom_edges(t).contains((position_of(diagram_texts(t), w1) as Label, position_of(diagram_texts(t), w2) as Label)),
{
    let u = diagram_texts(t);
    let l = edge_lines(t)[k];
    let (a, b) = line_words(l);
    let p = choose|p: int| 0 <= p < a.len() && a[p] == w1;
    let q = choose|q: int| 0 <= q < b.len() && b[q] == w2;
    let rows = a.map_values(|x: Seq<char>| b.map_values(|y: Seq<char>| (position_of(u, x) as Label, position_of(u, y) as Label)));
    assert(rows[p][q] == (position_of(u, w1) as Label, position_of(u, w2) as Label));
    lemma_concat_contains(rows, p, q);
    let all = edge_lines(t).map_values(|l2: Seq<char>| line_edges(u, l2));
    assert(all[k] == line_edges(u, l));
    let e = (position_of(u, w1) as Label, position_of(u, w2) as Label);
    let j = choose|j: int| 0 <= j < line_edges(u, l).len() && line_edges(u, l)[j] == e;
    lemma_concat_contains(all, k, j);
}

/// Every edge of the diagram of the text comes from a pair of words that a diagram line
/// relates (see `arrow_relates`).
pub proof fn lemma_custom_edges_sound(t: Seq<char>, e: (Label, Label))
    requires
        custom_edges(t).contains(e),
    ensures
        exists|k: int, w1: Seq<char>, w2: Seq<char>| 0 <= k < edge_lines(t).len() && arrow_relates(edge_lines(t)[k], w1, w2)
            && e == (position_of(diagram_texts(t), w1) as Label, position_of(diagram_texts(t), w2) as Label),
{
    let u = diagram_texts(t);
    let all = edge_lines(t).map_values(|l2: Seq<char>| line_edges(u, l2));
    lemma_concat_contains_rev(all, e);
    let (k, j) = choose|k: int, j: int| 0 <= k < all.len() && 0 <= j < all[k].len() && all[k][j] == e;
    let l = edge_lines(t)[k];
    let (a, b) = line_words(l);
    let rows = a.map_values(|x: Seq<char>| b.map_values(|y: Seq<char>| (position_of(u, x) as Label, position_of(u, y) as Label)));
    assert(all[k] == concat(rows));
    lemma_concat_contains_rev(rows, e);
    let (p, q) = choose|p: int, q: int| 0 <= p < rows.len() && 0 <= q < rows[p].len() && rows[p][q] == e;
    assert(a.contains(a[p]));
    assert(b.contains(b[q]));
    assert(arrow_relates(l, a[p], b[q]));
}

/// Each original label of `m` with the diagram label of its text, after renaming.
pub open spec fn custom_renaming(t: Seq<char>, m: Seq<(Label, String)>) -> Seq<(Label, Label)> {
    m.map_values(|e: (Label, String)| (e.0, position_of(diagram_texts(t), renamed_text(renamings(t), e.1@)) as Label))
}

/// The text names every label that its edges use, and renames every original text of `m`
/// into the text of a diagram label.
pub open spec fn custom_known(t: Seq<char>, m: Seq<(Label, String)>) -> bool {
    &&& forall|k: int| 0 <= k < edge_lines(t).len() ==> #[trigger] words_known(diagram_texts(t), edge_lines(t)[k])
    &&& forall|k: int| 0 <= k < m.len() ==> diagram_texts(t).contains(renamed_text(renamings(t), (#[trigger] m[k]).1@))
}

/// The text names more diagram labels than the label type can.
pub open spec fn too_many_labels(t: Seq<char>) -> bool {
    diagram_texts(t).len() > 0x1_0000_0000
}

/// Label `i` has the text `u[i]`.
pub open spec fn labeled(texts: Seq<(Label, String)>, u: Seq<Seq<char>>) -> bool {
    &&& texts.len() == u.len()
    &&& forall|i: int| 0 <= i < u.len() ==> (#[trigger] texts[i]).0 == i && texts[i].1@ == u[i]
}

/// `p` is what one step of the fixpoint computation gives from `orig` with the renaming `m`
/// on the transitive closure of the edges `d` (see `onestep_result`).
pub open spec fn stepped_on(p: Problem, d: Seq<(Label, Label)>, m: Seq<(Label, Label)>, orig: Problem) -> bool {
    exists|b: Constraint| #[trigger] onestep_result(p, b, orig, m, p.mapping_label_text@, closure_seq(d))
}

/// The diagram labels `0..` with the texts `u`.
fn labeled_texts(u: &Vec<Vec<char>>) -> (texts: Vec<(Label, String)>)
    requires
        u@.len() <= 0x1_0000_0000,
    ensures
        labeled(texts@, text_views(u@)),
        mapping_labels(texts@) == label_range(u@.len()),
{
    let ghost uv = text_views(u@);
    let mut texts: Vec<(Label, String)> = Vec::new();
    let mut i: usize = 0;
    while i < u.len()
        invariant
            i <= u.len(),
            u@.len() <= 0x1_0000_0000,
            uv == text_views(u@),
            texts@.len() == i,
            forall|k: int| 0 <= k < i ==> (#[trigger] texts@[k]).0 == k && texts@[k].1@ == uv[k],
        decreases u.len() - i,
    {
        let s = string_of(&u[i]);
        texts.push((i as Label, s));
        i = i + 1;
    }
    assert(mapping_labels(texts@) =~= label_range(u@.len()));
    texts
}

/// Each original label of `m` with the diagram label of its text after the renamings `on`.
#[verifier::spinoff_prover]
fn renaming_exec(m: &Vec<(Label, String)>, on: &Vec<(Vec<char>, Vec<char>)>, u: &Vec<Vec<char>>, Ghost(t): Ghost<Seq<char>>) -> (r: Vec<(Label, Label)>)
    requires
        u@.len() <= 0x1_0000_0000,
        text_views(u@) == diagram_texts(t),
        pairs_view(on@) == renamings(t),
        custom_known(t, m@),
    ensures
        r@ == custom_renaming(t, m@),
{
    let ghost uv = text_views(u@);
    assert(forall|k: int| 0 <= k < m@.len() ==> uv.contains(renamed_text(renamings(t), (#[trigger] m@[k]).1@)));
    let mut mapping: Vec<(Label, Label)> = Vec::new();
    let mut j: usize = 0;
    while j < m.len()
        invariant
            j <= m.len(),
            u@.len() <= 0x1_0000_0000,
            uv == text_views(u@),
            uv == diagram_texts(t),
            pairs_view(on@) == renamings(t),
            forall|k: int| 0 <= k < m@.len() ==> uv.contains(renamed_text(renamings(t), (#[trigger] m@[k]).1@)),
            mapping@ == custom_renaming(t, m@).subrange(0, j as int),
        decreases m.len() - j,
    {
        let sv = chars_of(m[j].1.as_str());
        let nt = renamed_text_exec(on, &sv);
        let ghost want = renamed_text(renamings(t), m@[j as int].1@);
        assert(nt@ == want);
        assert(uv.contains(want));
        let idx = position_exec(u, &nt);
        let ghost m0 = mapping@;
        let entry = (m[j].0, idx as Label);
        mapping.push(entry);
        proof {
            let cr = custom_renaming(t, m@);
            assert(cr[j as int] == (m@[j as int].0, position_of(diagram_texts(t), want) as Label));
            assert(entry == cr[j as int]);
            assert(cr.subrange(0, j + 1) =~= cr.subrange(0, j as int).push(cr[j as int]));
            assert(mapping@ =~= m0.push(entry));
        }
        j = j + 1;
    }
    assert(mapping@ =~= custom_renaming(t, m@));
    mapping
}

/// The edges of the text whose lines that give edges are joined into `dt` (see `custom_edges`).
fn edges_exec(dt: &Vec<char>, u: &Vec<Vec<char>>, Ghost(t): Ghost<Seq<char>>, Ghost(m): Ghost<Seq<(Label, String)>>) -> (r: Vec<(Label, Label)>)
    requires
        u@.len() <= 0x1_0000_0000,
        text_views(u@) == diagram_texts(t),
        dt@ == diagram_text(t),
        custom_known(t, m),
    ensures
        r@ == custom_edges(t),
{
    let ghost uv = text_views(u@);
    let el = split_char_exec(dt, '\n');
    let ghost elv = el@.map_values(|v: Vec<char>| v@);
    let ghost rows = elv.map_values(|l: Seq<char>| line_edges(uv, l));
    let mut edges: Vec<(Label, Label)> = Vec::new();
    let mut k: usize = 0;
    while k < el.len()
        invariant
            k <= el.len(),
            u@.len() <= 0x1_0000_0000,
            uv == text_views(u@),
            uv == diagram_texts(t),
            elv == el@.map_values(|v: Vec<char>| v@),
            elv == edge_lines(t),
            custom_known(t, m),
            rows == elv.map_values(|l: Seq<char>| line_edges(uv, l)),
            edges@ == concat(rows.subrange(0, k as int)),
        decreases el.len() - k,
    {
        assert(elv[k as int] == el@[k as int]@);
        assert(words_known(diagram_texts(t), edge_lines(t)[k as int]));
        push_line_edges(u, &el[k], &mut edges);
        assert(rows.subrange(0, k + 1).drop_last() =~= rows.subrange(0, k as int));
        k = k + 1;
    }
    assert(rows.subrange(0, el.len() as int) =~= rows);
    edges
}

/// The renaming of a problem whose labels all have texts renames them into the diagram labels.
proof fn lemma_custom_renames(p: Problem, t: Seq<char>, m: Seq<(Label, Label)>, texts: Seq<(Label, String)>)
    requires
        p.texts_cover(),
        custom_known(t, p.mapping_label_text@),
        m == custom_renaming(t, p.mapping_label_text@),
        mapping_labels(texts) == label_range(diagram_texts(t).len()),
    ensures
        renames_into(p, m, mapping_labels(texts)),
{
    let uv = diagram_texts(t);
    let nl = mapping_labels(texts);
    let ml = mapping_labels(p.mapping_label_text@);
    assert forall|x: Label| ml.contains(x) implies has_key(m, x) && nl.contains(new_label_of(m, x)) by {
        let q = choose|q: int| 0 <= q < ml.len() && ml[q] == x;
        assert(m[q].0 == x);
        lemma_new_label_entry(m, x);
        let w = choose|w: int| 0 <= w < m.len() && m[w] == (x, new_label_of(m, x));
        let e = p.mapping_label_text@[w];
        assert(uv.contains(renamed_text(renamings(t), e.1@)));
        let pos = position_of(uv, renamed_text(renamings(t), e.1@));
        assert(exists|k: int| 0 <= k < uv.len() && uv[k] == renamed_text(renamings(t), e.1@)
            && forall|j: int| 0 <= j < k ==> uv[j] != renamed_text(renamings(t), e.1@)) by {
            let k0 = choose|k0: int| 0 <= k0 < uv.len() && uv[k0] == renamed_text(renamings(t), e.1@);
            lemma_first_occurrence(uv, renamed_text(renamings(t), e.1@), k0);
        }
        assert(0 <= pos < uv.len());
        assert(nl[pos] == pos as Label);
    }
    assert forall|x: Label| #[trigger] labels_in(lines_view(p.active.lines@)).contains(x) implies has_key(m, x) && nl.contains(new_label_of(m, x)) by {
        assert(ml.to_set().contains(x));
    }
    assert forall|x: Label| #[trigger] labels_in(lines_view(p.passive.lines@)).contains(x) implies has_key(m, x) && nl.contains(new_label_of(m, x)) by {
        assert(ml.to_set().contains(x));
    }
}

/// A text that occurs has a first occurrence.
proof fn lemma_first_occurrence(u: Seq<Seq<char>>, x: Seq<char>, k: int)
    requires
        0 <= k < u.len(),
        u[k] == x,
    ensures
        exists|i: int| 0 <= i < u.len() && u[i] == x && forall|j: int| 0 <= j < i ==> u[j] != x,
    decreases k,
{
    if exists|j: int| 0 <= j < k && u[j] == x {
        let j = choose|j: int| 0 <= j < k && u[j] == x;
        lemma_first_occurrence(u, x, j);
    } else {
        assert(forall|j: int| 0 <= j < k ==> u[j] != x);
    }
}

impl Problem {
    /// The fixpoint computation with a diagram given as text: lines `x = y` rename the label
    /// with text `x` into the diagram label with text `y` (a label not renamed keeps its
    /// text), lines with `->` or `<-` give edges between the words on their two sides, and
    /// lines starting with `#` are ignored. The diagram labels are the texts between arrows in
    /// those lines, numbered in order of first occurrence. Then one step (see
    /// `fixpoint_onestep`) on that diagram; returns the new problem, the edges and the
    /// renaming.
    pub fn fixpoint_custom(&self, text_diag: String) -> (r: Result<(Problem, Vec<(Label, Label)>, Vec<(Label, Label)>), &'static str>)
        requires
            self.wf(),
            self.texts_cover(),
            custom_known(text_diag@, self.mapping_label_text@),
        ensures
            r is Err <==> too_many_labels(text_diag@) || !lattice_ok(
                closure_seq(custom_edges(text_diag@)),
                label_range(diagram_texts(text_diag@).len()),
            ),
            r matches Ok((p, d, m)) ==> d@ == custom_edges(text_diag@),
            r matches Ok((p, d, m)) ==> m@ == custom_renaming(text_diag@, self.mapping_label_text@),
            r matches Ok((p, d, m)) ==> labeled(p.mapping_label_text@, diagram_texts(text_diag@)),
            r matches Ok((p, d, m)) ==> stepped_on(p, d@, m@, *self),
    {
        let ghost t = text_diag@;
        let chars = chars_of(text_diag.as_str());
        let ls = lines_exec(&chars);
        let (ml, dl) = select_lines(&ls);
        let mut sep: Vec<char> = Vec::new();
        sep.push('\n');
        assert(sep@ =~= seq!['\n']);
        let dt = join_exec(&dl, &sep);
        assert(dt@ == diagram_text(t));
        let pieces = label_pieces_exec(&dt);
        let u = uniq_exec(&pieces);
        assert(text_views(u@) == diagram_texts(t));
        if u.len() as u64 > 0x1_0000_0000u64 {
            return Err("The diagram has too many labels");
        }
        let texts = labeled_texts(&u);
        proof {
            broadcast use vstd::seq_lib::group_filter_ensures;
            assert forall|k: int| 0 <= k < ml@.len() implies (#[trigger] ml@[k])@.contains('=') by {
                let f = lines_of(t).filter(|l: Seq<char>| is_mapping_line(l));
                assert(text_views(ml@)[k] == ml@[k]@);
                assert(is_mapping_line(f[k]));
            }
        }
        let on = renamings_exec(&ml);
        let mapping = renaming_exec(&self.mapping_label_text, &on, &u, Ghost(t));
        let edges = edges_exec(&dt, &u, Ghost(t), Ghost(self.mapping_label_text@));
        proof {
            lemma_custom_renames(*self, t, mapping@, texts@);
        }
        match self.fixpoint_onestep(&mapping, &texts, &edges) {
            Ok((p, b)) => {
                proof {
                    assert(onestep_result(p, b, *self, mapping@, p.mapping_label_text@, closure_seq(edges@)));
                    assert(p.mapping_label_text@ == texts@);
                    assert(labeled(p.mapping_label_text@, diagram_texts(t)));
                    assert(edges@ == custom_edges(text_diag@));
                    assert(mapping@ == custom_renaming(text_diag@, self.mapping_label_text@));
                    assert(stepped_on(p, edges@, mapping@, *self));
                }
                Ok((p, edges, mapping))
            },
            Err(e) => Err(e),
        }
    }
}

} // verus!
