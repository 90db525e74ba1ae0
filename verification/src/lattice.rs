//! The transitive closure of a diagram, and the least common successor and predecessor of
//! two labels in it, which the fixpoint procedure uses as union and intersection.
use vstd::prelude::*;
use crate::labels::{Label, contains_label};
use crate::line::{reaches, reaches_exec, included, group_le};
use crate::constraint::diagram_transitive;
use crate::labels::{sorted_strict, insert_sorted, lemma_sorted_set_eq};

verus! {

/// The relation `r` holds every edge of `e` and is transitive.
pub open spec fn closed_over(r: Set<(Label, Label)>, e: Seq<(Label, Label)>) -> bool {
    &&& forall|j: int| 0 <= j < e.len() ==> r.contains(#[trigger] e[j])
    &&& forall|x: Label, y: Label, z: Label|
        #[trigger] r.contains((x, y)) && #[trigger] r.contains((y, z)) ==> r.contains((x, z))
}

/// `(a, b)` is in the transitive closure of the edges `e`: every transitive relation that
/// holds the edges holds it.
pub open spec fn in_closure(e: Seq<(Label, Label)>, a: Label, b: Label) -> bool {
    forall|r: Set<(Label, Label)>| #[trigger] closed_over(r, e) ==> r.contains((a, b))
}

/// The targets of the edges of `e`.
pub open spec fn targets(e: Seq<(Label, Label)>) -> Set<Label> {
    e.map_values(|p: (Label, Label)| p.1).to_set()
}

/// The transitive closure is transitive.
pub proof fn lemma_closure_transitive(e: Seq<(Label, Label)>, a: Label, b: Label, c: Label)
    requires
        in_closure(e, a, b),
        in_closure(e, b, c),
    ensures
        in_closure(e, a, c),
{
    assert forall|r: Set<(Label, Label)>| #[trigger] closed_over(r, e) implies r.contains((a, c)) by {
        assert(r.contains((a, b)));
        assert(r.contains((b, c)));
    }
}

/// Every edge is in the closure.
pub proof fn lemma_edge_in_closure(e: Seq<(Label, Label)>, j: int)
    requires
        0 <= j < e.len(),
    ensures
        in_closure(e, e[j].0, e[j].1),
{
    assert forall|r: Set<(Label, Label)>| #[trigger] closed_over(r, e) implies r.contains((e[j].0, e[j].1)) by {
        assert(r.contains(e[j]));
    }
}

/// The labels that `a` reaches in the closure of `e`, each once, when `e` has an edge from `a`.
fn reached_from(e: &Vec<(Label, Label)>, a: Label) -> (w: Vec<Label>)
    ensures
        forall|b: Label| w@.contains(b) <==> in_closure(e@, a, b),
{
    let ghost t = targets(e@);
    let mut w: Vec<Label> = Vec::new();
    let mut j: usize = 0;
    while j < e.len()
        invariant
            j <= e.len(),
            t == targets(e@),
            w@.no_duplicates(),
            forall|k: int| 0 <= k < w@.len() ==> t.contains(#[trigger] w@[k]),
            forall|b: Label| w@.contains(b) ==> in_closure(e@, a, b),
            forall|k: int| 0 <= k < j && (#[trigger] e@[k]).0 == a ==> w@.contains(e@[k].1),
        decreases e.len() - j,
    {
        let (x, y) = e[j];
        if x == a && !contains_label(&w, y) {
            let ghost w0 = w@;
            proof {
                lemma_edge_in_closure(e@, j as int);
                assert(e@.map_values(|p: (Label, Label)| p.1)[j as int] == y);
            }
            w.push(y);
            proof {
                assert(w@ == w0.push(y));
                lemma_push_facts(w0, y);
            }
        }
        j = j + 1;
    }
    proof {
        assert(w@.len() <= e@.len()) by {
            lemma_targets_bound(e@, w@);
        }
    }
    let mut idx: usize = 0;
    while idx < w.len()
        invariant
            idx <= w@.len() <= e@.len(),
            t == targets(e@),
            w@.no_duplicates(),
            forall|k: int| 0 <= k < w@.len() ==> t.contains(#[trigger] w@[k]),
            forall|b: Label| w@.contains(b) ==> in_closure(e@, a, b),
            forall|k: int| 0 <= k < e@.len() && (#[trigger] e@[k]).0 == a ==> w@.contains(e@[k].1),
            forall|i: int, k: int| 0 <= i < idx && 0 <= k < e@.len() && #[trigger] e@[k].0 == #[trigger] w@[i] ==> w@.contains(e@[k].1),
        decreases e@.len() - idx,
    {
        let x = w[idx];
        let mut j: usize = 0;
        while j < e.len()
            invariant
                idx < w@.len() <= e@.len(),
                j <= e.len(),
                x == w@[idx as int],
                t == targets(e@),
                w@.no_duplicates(),
                forall|k: int| 0 <= k < w@.len() ==> t.contains(#[trigger] w@[k]),
                forall|b: Label| w@.contains(b) ==> in_closure(e@, a, b),
                forall|k: int| 0 <= k < e@.len() && (#[trigger] e@[k]).0 == a ==> w@.contains(e@[k].1),
                forall|i: int, k: int| 0 <= i < idx && 0 <= k < e@.len() && #[trigger] e@[k].0 == #[trigger] w@[i] ==> w@.contains(e@[k].1),
                forall|k: int| 0 <= k < j && (#[trigger] e@[k]).0 == x ==> w@.contains(e@[k].1),
            decreases e.len() - j,
        {
            let (p, y) = e[j];
            if p == x && !contains_label(&w, y) {
                let ghost w0 = w@;
                proof {
                    assert(w0.contains(x));
                    lemma_edge_in_closure(e@, j as int);
                    lemma_closure_transitive(e@, a, x, y);
                    assert(e@.map_values(|q: (Label, Label)| q.1)[j as int] == y);
                }
                w.push(y);
                proof {
                    assert(w@ == w0.push(y));
                    lemma_push_facts(w0, y);
                    assert forall|b: Label| w@.contains(b) implies in_closure(e@, a, b) by {
                        if b != y {
                            let k = choose|k: int| 0 <= k < w@.len() && w@[k] == b;
                            assert(w0[k] == b);
                        }
                    }
                    assert forall|k: int| 0 <= k < w@.len() implies t.contains(#[trigger] w@[k]) by {
                        if k < w0.len() {
                            assert(w@[k] == w0[k]);
                        }
                    }
                    assert(w@.no_duplicates()) by {
                        assert forall|i: int, k: int| 0 <= i < k < w@.len() implies w@[i] != w@[k] by {
                            if k == w0.len() {
                                assert(w0.contains(w@[i]));
                            }
                        }
                    }
                    lemma_targets_bound(e@, w@);
                    assert forall|c: Label| w0.contains(c) implies w@.contains(c) by {
                        let k = choose|k: int| 0 <= k < w0.len() && w0[k] == c;
                        assert(w@[k] == c);
                    }
                }
            }
            j = j + 1;
        }
        idx = idx + 1;
    }
    proof {
        let wset = w@.to_set();
        let r = Set::new(|p: (Label, Label)| (p.0 == a || wset.contains(p.0)) ==> wset.contains(p.1));
        assert(closed_over(r, e@)) by {
            assert forall|k: int| 0 <= k < e@.len() implies r.contains(#[trigger] e@[k]) by {
                if wset.contains(e@[k].0) {
                    let i = choose|i: int| 0 <= i < w@.len() && w@[i] == e@[k].0;
                    assert(w@.contains(e@[k].1));
                }
                if e@[k].0 == a {
                    assert(w@.contains(e@[k].1));
                }
            }
        }
        assert forall|b: Label| in_closure(e@, a, b) implies w@.contains(b) by {
            assert(r.contains((a, b)));
            assert(wset.contains(b));
        }
    }
    w
}

/// What a list holds after a push: what it held, and the new element.
proof fn lemma_push_facts<A>(w: Seq<A>, y: A)
    ensures
        forall|b: A| #[trigger] w.push(y).contains(b) <==> w.contains(b) || b == y,
{
    assert forall|b: A| #[trigger] w.push(y).contains(b) <==> w.contains(b) || b == y by {
        if w.contains(b) {
            let k = choose|k: int| 0 <= k < w.len() && w[k] == b;
            assert(w.push(y)[k] == b);
        }
        if b == y {
            assert(w.push(y)[w.len() as int] == y);
        }
        if w.push(y).contains(b) {
            let k = choose|k: int| 0 <= k < w.push(y).len() && w.push(y)[k] == b;
            if k < w.len() {
                assert(w[k] == b);
            }
        }
    }
}

/// A list of distinct targets of `e` is no longer than `e`.
proof fn lemma_targets_bound(e: Seq<(Label, Label)>, w: Seq<Label>)
    requires
        w.no_duplicates(),
        forall|k: int| 0 <= k < w.len() ==> targets(e).contains(#[trigger] w[k]),
    ensures
        w.len() <= e.len(),
{
    let s = e.map_values(|p: (Label, Label)| p.1);
    s.lemma_cardinality_of_set();
    w.unique_seq_to_set();
    assert(w.to_set().subset_of(s.to_set())) by {
        assert forall|x: Label| w.to_set().contains(x) implies s.to_set().contains(x) by {
            let k = choose|k: int| 0 <= k < w.len() && w[k] == x;
        }
    }
    vstd::set_lib::lemma_len_subset(w.to_set(), s.to_set());
}

/// The transitive closure of the edges `e`.
pub fn closure(e: &Vec<(Label, Label)>) -> (r: Vec<(Label, Label)>)
    ensures
        forall|a: Label, b: Label| #[trigger] r@.contains((a, b)) <==> in_closure(e@, a, b),
{
    let mut r: Vec<(Label, Label)> = Vec::new();
    let mut done: Vec<Label> = Vec::new();
    let mut j: usize = 0;
    while j < e.len()
        invariant
            j <= e.len(),
            forall|a: Label, b: Label| #[trigger] r@.contains((a, b)) ==> done@.contains(a) && in_closure(e@, a, b),
            forall|a: Label, b: Label| done@.contains(a) && in_closure(e@, a, b) ==> #[trigger] r@.contains((a, b)),
            forall|k: int| 0 <= k < j ==> done@.contains(#[trigger] e@[k].0),
        decreases e.len() - j,
    {
        let a = e[j].0;
        if !contains_label(&done, a) {
            let w = reached_from(e, a);
            let ghost r0 = r@;
            let ghost d0 = done@;
            let mut i: usize = 0;
            while i < w.len()
                invariant
                    i <= w.len(),
                    forall|b: Label| w@.contains(b) <==> in_closure(e@, a, b),
                    forall|p: (Label, Label)| #[trigger] r@.contains(p) <==> r0.contains(p) || exists|k: int| 0 <= k < i && p == (a, w@[k]),
                decreases w.len() - i,
            {
                let ghost rp = r@;
                r.push((a, w[i]));
                proof {
                    assert(r@ == rp.push((a, w@[i as int])));
                    lemma_push_facts(rp, (a, w@[i as int]));
                    assert forall|p: (Label, Label)| #[trigger] r@.contains(p) <==> r0.contains(p) || exists|k: int| 0 <= k < i + 1 && p == (a, w@[k]) by {
                        if exists|k: int| 0 <= k < i + 1 && p == (a, w@[k]) {
                            let k = choose|k: int| 0 <= k < i + 1 && p == (a, w@[k]);
                            if k < i {
                                assert(rp.contains(p));
                            }
                        }
                        if rp.contains(p) && !r0.contains(p) {
                            let k = choose|k: int| 0 <= k < i && p == (a, w@[k]);
                            assert(0 <= k < i + 1 && p == (a, w@[k]));
                        }
                        if p == (a, w@[i as int]) {
                            assert(0 <= i < i + 1 && p == (a, w@[i as int]));
                        }
                    }
                }
                i = i + 1;
            }
            done.push(a);
            proof {
                assert(done@ == d0.push(a));
                lemma_push_facts(d0, a);
                assert forall|x: Label, b: Label| #[trigger] r@.contains((x, b)) implies done@.contains(x) && in_closure(e@, x, b) by {
                    if r0.contains((x, b)) {
                        assert(d0.contains(x));
                    } else {
                        let k = choose|k: int| 0 <= k < w@.len() && (x, b) == (a, w@[k]);
                        assert(w@[k] == b);
                        assert(w@.contains(b));
                    }
                }
                assert forall|x: Label, b: Label| done@.contains(x) && in_closure(e@, x, b) implies #[trigger] r@.contains((x, b)) by {
                    if x == a {
                        assert(w@.contains(b));
                        let k = choose|k: int| 0 <= k < w@.len() && w@[k] == b;
                        assert((x, b) == (a, w@[k]));
                    } else {
                        let m = choose|m: int| 0 <= m < done@.len() && done@[m] == x;
                        assert(d0[m] == x);
                        assert(r0.contains((x, b)));
                    }
                }
                assert forall|k: int| 0 <= k < j + 1 implies done@.contains(#[trigger] e@[k].0) by {
                    if k < j {
                        let m = choose|m: int| 0 <= m < d0.len() && d0[m] == e@[k].0;
                        assert(done@[m] == e@[k].0);
                    } else {
                        assert(done@[done@.len() - 1] == a);
                    }
                }
            }
        }
        j = j + 1;
    }
    proof {
        assert forall|a: Label, b: Label| in_closure(e@, a, b) implies #[trigger] r@.contains((a, b)) by {
            if !done@.contains(a) {
                let rr = Set::new(|p: (Label, Label)| p.0 != a);
                assert(closed_over(rr, e@)) by {
                    assert forall|k: int| 0 <= k < e@.len() implies rr.contains(#[trigger] e@[k]) by {
                        assert(done@.contains(e@[k].0));
                    }
                }
                assert(rr.contains((a, b)));
            }
        }
    }
    r
}

/// The edges of `d`, each turned around.
pub open spec fn reversed(d: Seq<(Label, Label)>) -> Seq<(Label, Label)> {
    d.map_values(|p: (Label, Label)| (p.1, p.0))
}

/// The turned-around diagram has the edge `(x, y)` exactly when `d` has `(y, x)`.
pub proof fn lemma_reversed_contains(d: Seq<(Label, Label)>)
    ensures
        forall|x: Label, y: Label| #[trigger] reversed(d).contains((x, y)) == d.contains((y, x)),
{
    assert forall|x: Label, y: Label| #[trigger] reversed(d).contains((x, y)) == d.contains((y, x)) by {
        if reversed(d).contains((x, y)) {
            let k = choose|k: int| 0 <= k < reversed(d).len() && reversed(d)[k] == (x, y);
            assert(d[k] == (y, x));
        }
        if d.contains((y, x)) {
            let k = choose|k: int| 0 <= k < d.len() && d[k] == (y, x);
            assert(reversed(d)[k] == (x, y));
        }
    }
}

/// In the turned-around diagram `x` reaches `y` exactly when `y` reaches `x` in `d`.
pub proof fn lemma_reversed_reaches(d: Seq<(Label, Label)>)
    ensures
        forall|x: Label, y: Label| #[trigger] reaches(reversed(d), x, y) == reaches(d, y, x),
{
    lemma_reversed_contains(d);
    assert forall|x: Label, y: Label| #[trigger] reaches(reversed(d), x, y) == reaches(d, y, x) by {
        assert(reversed(d).contains((x, y)) == d.contains((y, x)));
    }
}

/// The edges of `d`, each turned around.
pub fn reverse_edges(d: &Vec<(Label, Label)>) -> (r: Vec<(Label, Label)>)
    ensures
        r@ == reversed(d@),
{
    let mut r: Vec<(Label, Label)> = Vec::new();
    let mut i: usize = 0;
    while i < d.len()
        invariant
            i <= d.len(),
            r@ == reversed(d@).subrange(0, i as int),
        decreases d.len() - i,
    {
        let (a, b) = d[i];
        r.push((b, a));
        assert(r@ =~= reversed(d@).subrange(0, i + 1));
        i = i + 1;
    }
    assert(r@ =~= reversed(d@));
    r
}

/// The labels of `labels` that both `a` and `b` reach.
pub open spec fn common_above(d: Seq<(Label, Label)>, labels: Seq<Label>, a: Label, b: Label) -> Set<Label> {
    Set::new(|c: Label| labels.contains(c) && reaches(d, a, c) && reaches(d, b, c))
}

/// The elements of `s` that no other element of `s` reaches.
pub open spec fn lowest(d: Seq<(Label, Label)>, s: Set<Label>) -> Set<Label> {
    Set::new(|c: Label| s.contains(c) && forall|l: Label| #[trigger] s.contains(l) && l != c ==> !reaches(d, l, c))
}

/// The label that, among the labels that both `a` and `b` reach, no other reaches, when
/// there is exactly one: the least common successor of `a` and `b`, which the fixpoint
/// procedure takes as their union.
pub open spec fn least_above(d: Seq<(Label, Label)>, labels: Seq<Label>, a: Label, b: Label) -> Label {
    choose|c: Label| lowest(d, common_above(d, labels, a, b)) == set![c]
}

/// Among the labels that both `a` and `b` reach, exactly one is reached by no other.
pub open spec fn has_least_above(d: Seq<(Label, Label)>, labels: Seq<Label>, a: Label, b: Label) -> bool {
    lowest(d, common_above(d, labels, a, b)) == set![least_above(d, labels, a, b)]
}

/// Every two labels have a least common successor and a least common predecessor (a least
/// common successor in the turned-around diagram).
pub open spec fn lattice_ok(d: Seq<(Label, Label)>, labels: Seq<Label>) -> bool {
    &&& forall|a: Label, b: Label| labels.contains(a) && labels.contains(b) ==> #[trigger] has_least_above(d, labels, a, b)
    &&& forall|a: Label, b: Label| labels.contains(a) && labels.contains(b) ==> #[trigger] has_least_above(reversed(d), labels, a, b)
}

/// Which label reaches which: entry `[i][j]` tells whether `labels[i]` reaches `labels[j]`.
pub open spec fn is_reach_matrix(m: Seq<Vec<bool>>, d: Seq<(Label, Label)>, labels: Seq<Label>) -> bool {
    &&& m.len() == labels.len()
    &&& forall|i: int| 0 <= i < m.len() ==> (#[trigger] m[i])@.len() == labels.len()
    &&& forall|i: int, j: int| 0 <= i < labels.len() && 0 <= j < labels.len() ==> (#[trigger] m[i]@[j]) == reaches(d, labels[i], labels[j])
}

/// The reachability matrix of `labels` in `d`.
pub fn reach_matrix(labels: &Vec<Label>, d: &Vec<(Label, Label)>) -> (m: Vec<Vec<bool>>)
    ensures
        is_reach_matrix(m@, d@, labels@),
{
    let mut m: Vec<Vec<bool>> = Vec::new();
    let mut i: usize = 0;
    while i < labels.len()
        invariant
            i <= labels.len(),
            m@.len() == i,
            forall|k: int| 0 <= k < i ==> (#[trigger] m@[k])@.len() == labels.len(),
            forall|k: int, j: int| 0 <= k < i && 0 <= j < labels.len() ==> (#[trigger] m@[k]@[j]) == reaches(d@, labels@[k], labels@[j]),
        decreases labels.len() - i,
    {
        let mut row: Vec<bool> = Vec::new();
        let mut j: usize = 0;
        while j < labels.len()
            invariant
                i < labels.len(),
                j <= labels.len(),
                row@.len() == j,
                forall|k: int| 0 <= k < j ==> row@[k] == reaches(d@, labels@[i as int], labels@[k]),
            decreases labels.len() - j,
        {
            row.push(reaches_exec(d, labels[i], labels[j]));
            j = j + 1;
        }
        m.push(row);
        i = i + 1;
    }
    m
}

/// The positions of the labels that both `labels[i]` and `labels[j]` reach: each label of
/// `common_above` stands at one of them.
fn common_indices(labels: &Vec<Label>, d: &Vec<(Label, Label)>, m: &Vec<Vec<bool>>, i: usize, j: usize) -> (common: Vec<usize>)
    requires
        is_reach_matrix(m@, d@, labels@),
        i < labels.len(),
        j < labels.len(),
    ensures
        forall|t: int| 0 <= t < common@.len() ==> (#[trigger] common@[t]) < labels.len()
            && common_above(d@, labels@, labels@[i as int], labels@[j as int]).contains(labels@[common@[t] as int]),
        forall|c: Label| #[trigger] common_above(d@, labels@, labels@[i as int], labels@[j as int]).contains(c)
            ==> exists|t: int| 0 <= t < common@.len() && labels@[common@[t] as int] == c,
{
    let ghost ls = labels@;
    let ghost s = common_above(d@, ls, ls[i as int], ls[j as int]);
    let n = labels.len();
    let mut common: Vec<usize> = Vec::new();
    let mut k: usize = 0;
    while k < n
        invariant
            n == labels.len(),
            ls == labels@,
            s == common_above(d@, ls, ls[i as int], ls[j as int]),
            is_reach_matrix(m@, d@, labels@),
            i < n,
            j < n,
            k <= n,
            forall|t: int| 0 <= t < common@.len() ==> (#[trigger] common@[t]) < n && s.contains(ls[common@[t] as int]),
            forall|k2: int| 0 <= k2 < k && #[trigger] s.contains(ls[k2]) ==> exists|t: int| 0 <= t < common@.len() && ls[common@[t] as int] == ls[k2],
        decreases n - k,
    {
        let ghost c = ls[k as int];
        assert(m@[i as int]@[k as int] == reaches(d@, ls[i as int], c));
        assert(m@[j as int]@[k as int] == reaches(d@, ls[j as int], c));
        if m[i][k] && m[j][k] {
            let ghost c0 = common@;
            common.push(k);
            proof {
                assert(ls.contains(c));
                assert(s.contains(c));
                assert(common@[c0.len() as int] == k);
                assert forall|k2: int| 0 <= k2 < k + 1 && #[trigger] s.contains(ls[k2]) implies exists|t: int| 0 <= t < common@.len() && ls[common@[t] as int] == ls[k2] by {
                    if k2 < k {
                        let t = choose|t: int| 0 <= t < c0.len() && ls[c0[t] as int] == ls[k2];
                        assert(common@[t] == c0[t]);
                    } else {
                        assert(ls[common@[c0.len() as int] as int] == ls[k2]);
                    }
                }
            }
        }
        k = k + 1;
    }
    proof {
        assert forall|c: Label| #[trigger] s.contains(c) implies exists|t: int| 0 <= t < common@.len() && ls[common@[t] as int] == c by {
            let k2 = choose|k2: int| 0 <= k2 < ls.len() && ls[k2] == c;
            assert(s.contains(ls[k2]));
        }
    }
    common
}

/// Whether no label at the positions `common` other than `labels[kk]` reaches it.
fn reached_by_none(labels: &Vec<Label>, d: &Vec<(Label, Label)>, m: &Vec<Vec<bool>>, common: &Vec<usize>, kk: usize) -> (ok: bool)
    requires
        is_reach_matrix(m@, d@, labels@),
        kk < labels.len(),
        forall|t: int| 0 <= t < common@.len() ==> (#[trigger] common@[t]) < labels.len(),
    ensures
        ok <==> forall|u2: int| 0 <= u2 < common@.len() ==> labels@[#[trigger] common@[u2] as int] != labels@[kk as int]
            ==> !reaches(d@, labels@[common@[u2] as int], labels@[kk as int]),
{
    let mut u: usize = 0;
    while u < common.len()
        invariant
            is_reach_matrix(m@, d@, labels@),
            kk < labels.len(),
            forall|t: int| 0 <= t < common@.len() ==> (#[trigger] common@[t]) < labels.len(),
            u <= common@.len(),
            forall|u2: int| 0 <= u2 < u ==> labels@[#[trigger] common@[u2] as int] != labels@[kk as int]
                ==> !reaches(d@, labels@[common@[u2] as int], labels@[kk as int]),
        decreases common.len() - u,
    {
        let l = common[u];
        assert(m@[l as int]@[kk as int] == reaches(d@, labels@[l as int], labels@[kk as int]));
        if labels[l] != labels[kk] && m[l][kk] {
            return false;
        }
        u = u + 1;
    }
    true
}

/// The least common successor of `labels[i]` and `labels[j]` in `d`, if there is one (see
/// `has_least_above`), found with the reachability matrix `m`.
pub fn least_above_exec(labels: &Vec<Label>, d: &Vec<(Label, Label)>, m: &Vec<Vec<bool>>, i: usize, j: usize) -> (r: Option<Label>)
    requires
        is_reach_matrix(m@, d@, labels@),
        i < labels.len(),
        j < labels.len(),
    ensures
        r == (if has_least_above(d@, labels@, labels@[i as int], labels@[j as int]) {
            Some(least_above(d@, labels@, labels@[i as int], labels@[j as int]))
        } else {
            None
        }),
{
    let ghost ls = labels@;
    let ghost a = ls[i as int];
    let ghost b = ls[j as int];
    let ghost s = common_above(d@, ls, a, b);
    let n = labels.len();
    let common = common_indices(labels, d, m, i, j);
    let ghost low_set = lowest(d@, s);
    let mut low: Vec<usize> = Vec::new();
    let mut t: usize = 0;
    while t < common.len()
        invariant
            n == labels.len(),
            ls == labels@,
            s == common_above(d@, ls, a, b),
            low_set == lowest(d@, s),
            is_reach_matrix(m@, d@, labels@),
            t <= common@.len(),
            forall|t2: int| 0 <= t2 < common@.len() ==> (#[trigger] common@[t2]) < n && s.contains(ls[common@[t2] as int]),
            forall|c: Label| #[trigger] s.contains(c) ==> exists|t2: int| 0 <= t2 < common@.len() && ls[common@[t2] as int] == c,
            forall|v: int| 0 <= v < low@.len() ==> (#[trigger] low@[v]) < n && low_set.contains(ls[low@[v] as int]),
            forall|t2: int| 0 <= t2 < t && #[trigger] low_set.contains(ls[common@[t2] as int]) ==> exists|v: int| 0 <= v < low@.len() && ls[low@[v] as int] == ls[common@[t2] as int],
        decreases common.len() - t,
    {
        let kk = common[t];
        let ghost c = ls[kk as int];
        let ok = reached_by_none(labels, d, m, &common, kk);
        proof {
            if ok {
                assert forall|l: Label| #[trigger] s.contains(l) && l != c implies !reaches(d@, l, c) by {
                    let u2 = choose|u2: int| 0 <= u2 < common@.len() && ls[common@[u2] as int] == l;
                    assert(ls[common@[u2] as int] != c);
                }
                assert(low_set.contains(c));
            } else {
                let u2 = choose|u2: int| 0 <= u2 < common@.len() && !(ls[#[trigger] common@[u2] as int] != c ==> !reaches(d@, ls[common@[u2] as int], c));
                assert(s.contains(ls[common@[u2] as int]));
                assert(!low_set.contains(c));
            }
        }
        if ok {
            let ghost l0 = low@;
            low.push(kk);
            proof {
                assert(low@[l0.len() as int] == kk);
                assert forall|t2: int| 0 <= t2 < t + 1 && #[trigger] low_set.contains(ls[common@[t2] as int]) implies exists|v: int| 0 <= v < low@.len() && ls[low@[v] as int] == ls[common@[t2] as int] by {
                    if t2 < t {
                        let v = choose|v: int| 0 <= v < l0.len() && ls[l0[v] as int] == ls[common@[t2] as int];
                        assert(low@[v] == l0[v]);
                    } else {
                        assert(ls[low@[l0.len() as int] as int] == ls[common@[t2] as int]);
                    }
                }
            }
        }
        t = t + 1;
    }
    proof {
        assert forall|c: Label| #[trigger] low_set.contains(c) implies exists|v: int| 0 <= v < low@.len() && ls[low@[v] as int] == c by {
            assert(s.contains(c));
            let t2 = choose|t2: int| 0 <= t2 < common@.len() && ls[common@[t2] as int] == c;
            assert(low_set.contains(ls[common@[t2] as int]));
        }
    }
    if low.len() == 0 {
        proof {
            if has_least_above(d@, ls, a, b) {
                let c = least_above(d@, ls, a, b);
                assert(set![c].contains(c));
                assert(low_set.contains(c));
            }
        }
        return None;
    }
    let c = labels[low[0]];
    let mut v: usize = 1;
    while v < low.len()
        invariant
            n == labels.len(),
            ls == labels@,
            1 <= v <= low@.len(),
            i < n,
            j < n,
            a == ls[i as int],
            b == ls[j as int],
            s == common_above(d@, ls, a, b),
            low_set == lowest(d@, s),
            c == ls[low@[0] as int],
            forall|v2: int| 0 <= v2 < low@.len() ==> (#[trigger] low@[v2]) < n && low_set.contains(ls[low@[v2] as int]),
            forall|v2: int| 0 <= v2 < v ==> ls[#[trigger] low@[v2] as int] == c,
        decreases low.len() - v,
    {
        if labels[low[v]] != c {
            proof {
                let c2 = ls[low@[v as int] as int];
                assert(low_set.contains(c));
                assert(low_set.contains(c2));
                if has_least_above(d@, ls, a, b) {
                    let c3 = least_above(d@, ls, a, b);
                    assert(low_set == set![c3]);
                    assert(set![c3].contains(c));
                    assert(set![c3].contains(c2));
                }
            }
            return None;
        }
        v = v + 1;
    }
    proof {
        assert(low_set =~= set![c]) by {
            assert forall|x: Label| low_set.contains(x) implies x == c by {
                let v2 = choose|v2: int| 0 <= v2 < low@.len() && ls[low@[v2] as int] == x;
            }
            assert(low_set.contains(c));
        }
        assert(exists|c4: Label| lowest(d@, common_above(d@, ls, a, b)) == set![c4]);
        let c3 = least_above(d@, ls, a, b);
        assert(lowest(d@, common_above(d@, ls, a, b)) == set![c3]);
        assert(set![c3].contains(c));
        assert(has_least_above(d@, ls, a, b));
    }
    Some(c)
}

/// `t` lists, for every two positions `i`, `j` of `labels`, the least common successor of
/// `labels[i]` and `labels[j]` in `d`.
pub open spec fn is_join_table(t: Seq<Vec<Label>>, d: Seq<(Label, Label)>, labels: Seq<Label>) -> bool {
    &&& t.len() == labels.len()
    &&& forall|i: int| 0 <= i < t.len() ==> (#[trigger] t[i])@.len() == labels.len()
    &&& forall|i: int, j: int| 0 <= i < labels.len() && 0 <= j < labels.len() ==> #[trigger] has_least_above(d, labels, labels[i], labels[j])
    &&& forall|i: int, j: int| 0 <= i < labels.len() && 0 <= j < labels.len() ==> #[trigger] t[i]@[j] == least_above(d, labels, labels[i], labels[j])
}

/// The table of least common successors of the labels in `d`, or `None` when two labels
/// have none (see `has_least_above`).
pub fn join_table(labels: &Vec<Label>, d: &Vec<(Label, Label)>) -> (r: Option<Vec<Vec<Label>>>)
    ensures
        match r {
            Some(t) => is_join_table(t@, d@, labels@),
            None => exists|i: int, j: int| 0 <= i < labels@.len() && 0 <= j < labels@.len()
                && !#[trigger] has_least_above(d@, labels@, labels@[i], labels@[j]),
        },
{
    let m = reach_matrix(labels, d);
    let mut t: Vec<Vec<Label>> = Vec::new();
    let mut i: usize = 0;
    while i < labels.len()
        invariant
            i <= labels.len(),
            is_reach_matrix(m@, d@, labels@),
            t@.len() == i,
            forall|k: int| 0 <= k < i ==> (#[trigger] t@[k])@.len() == labels.len(),
            forall|k: int, j: int| 0 <= k < i && 0 <= j < labels.len() ==> #[trigger] has_least_above(d@, labels@, labels@[k], labels@[j]),
            forall|k: int, j: int| 0 <= k < i && 0 <= j < labels.len() ==> #[trigger] t@[k]@[j] == least_above(d@, labels@, labels@[k], labels@[j]),
        decreases labels.len() - i,
    {
        let mut row: Vec<Label> = Vec::new();
        let mut j: usize = 0;
        while j < labels.len()
            invariant
                i < labels.len(),
                j <= labels.len(),
                is_reach_matrix(m@, d@, labels@),
                row@.len() == j,
                forall|k: int| 0 <= k < j ==> #[trigger] has_least_above(d@, labels@, labels@[i as int], labels@[k]),
                forall|k: int| 0 <= k < j ==> #[trigger] row@[k] == least_above(d@, labels@, labels@[i as int], labels@[k]),
            decreases labels.len() - j,
        {
            let r = least_above_exec(labels, d, &m, i, j);
            if r.is_none() {
                assert(!has_least_above(d@, labels@, labels@[i as int], labels@[j as int]));
                return None;
            }
            let c = r.unwrap();
            let ghost r0 = row@;
            row.push(c);
            proof {
                assert forall|k: int| 0 <= k < j + 1 implies #[trigger] row@[k] == least_above(d@, labels@, labels@[i as int], labels@[k]) by {
                    if k < j {
                        assert(row@[k] == r0[k]);
                    }
                }
            }
            j = j + 1;
        }
        let ghost t0 = t@;
        t.push(row);
        proof {
            assert forall|k: int, j: int| 0 <= k < i + 1 && 0 <= j < labels.len() implies #[trigger] t@[k]@[j] == least_above(d@, labels@, labels@[k], labels@[j]) by {
                if k < i {
                    assert(t@[k] == t0[k]);
                } else {
                    assert(t@[k] == row);
                }
            }
        }
        i = i + 1;
    }
    Some(t)
}

/// The first position of `x` in `labels`.
pub fn index_of(labels: &Vec<Label>, x: Label) -> (k: usize)
    requires
        labels@.contains(x),
    ensures
        k < labels.len(),
        labels@[k as int] == x,
{
    let mut k: usize = 0;
    while k < labels.len()
        invariant
            k <= labels.len(),
            labels@.contains(x),
            forall|k2: int| 0 <= k2 < k ==> labels@[k2] != x,
        decreases labels.len() - k,
    {
        if labels[k] == x {
            return k;
        }
        k = k + 1;
    }
    proof {
        let k2 = choose|k2: int| 0 <= k2 < labels@.len() && labels@[k2] == x;
    }
    0
}

/// The diagram gives two labels a least common successor and a least common predecessor
/// when the tables of both exist.
pub proof fn lemma_tables_lattice_ok(d: Seq<(Label, Label)>, labels: Seq<Label>, t: Seq<Vec<Label>>, u: Seq<Vec<Label>>)
    requires
        is_join_table(t, d, labels),
        is_join_table(u, reversed(d), labels),
    ensures
        lattice_ok(d, labels),
{
    assert forall|a: Label, b: Label| labels.contains(a) && labels.contains(b) implies #[trigger] has_least_above(d, labels, a, b) by {
        let i = choose|i: int| 0 <= i < labels.len() && labels[i] == a;
        let j = choose|j: int| 0 <= j < labels.len() && labels[j] == b;
        assert(has_least_above(d, labels, labels[i], labels[j]));
    }
    assert forall|a: Label, b: Label| labels.contains(a) && labels.contains(b) implies #[trigger] has_least_above(reversed(d), labels, a, b) by {
        let i = choose|i: int| 0 <= i < labels.len() && labels[i] == a;
        let j = choose|j: int| 0 <= j < labels.len() && labels[j] == b;
        assert(has_least_above(reversed(d), labels, labels[i], labels[j]));
    }
}

/// Two diagrams with the same edges.
pub open spec fn same_edges(d1: Seq<(Label, Label)>, d2: Seq<(Label, Label)>) -> bool {
    forall|a: Label, b: Label| #[trigger] d1.contains((a, b)) == d2.contains((a, b))
}

/// The edges of `s` are those of the transitive closure of `e`.
pub open spec fn is_closure_of(s: Seq<(Label, Label)>, e: Seq<(Label, Label)>) -> bool {
    forall|a: Label, b: Label| #[trigger] s.contains((a, b)) == in_closure(e, a, b)
}

/// A sequence of the edges of the transitive closure of `e`.
pub open spec fn closure_seq(e: Seq<(Label, Label)>) -> Seq<(Label, Label)> {
    choose|s: Seq<(Label, Label)>| #[trigger] is_closure_of(s, e)
}

/// The closure computed by `closure` has the edges of `closure_seq`, and is transitive.
pub proof fn lemma_closure_seq(e: Seq<(Label, Label)>, r: Seq<(Label, Label)>)
    requires
        forall|a: Label, b: Label| #[trigger] r.contains((a, b)) <==> in_closure(e, a, b),
    ensures
        same_edges(r, closure_seq(e)),
        diagram_transitive(r),
        diagram_transitive(closure_seq(e)),
{
    assert(is_closure_of(r, e)) by {
        assert forall|a: Label, b: Label| #[trigger] r.contains((a, b)) == in_closure(e, a, b) by {}
    }
    let c = closure_seq(e);
    assert(is_closure_of(c, e));
    assert forall|x: Label, y: Label, z: Label| #[trigger] r.contains((x, y)) && #[trigger] r.contains((y, z)) && x != z implies r.contains((x, z)) by {
        lemma_closure_transitive(e, x, y, z);
    }
    assert forall|x: Label, y: Label, z: Label| #[trigger] c.contains((x, y)) && #[trigger] c.contains((y, z)) && x != z implies c.contains((x, z)) by {
        lemma_closure_transitive(e, x, y, z);
    }
}

/// The turned-around edges of a transitive diagram are transitive.
pub proof fn lemma_reversed_transitive(d: Seq<(Label, Label)>)
    requires
        diagram_transitive(d),
    ensures
        diagram_transitive(reversed(d)),
{
    lemma_reversed_reaches(d);
    assert forall|x: Label, y: Label, z: Label| #[trigger] reversed(d).contains((x, y)) && #[trigger] reversed(d).contains((y, z)) && x != z
        implies reversed(d).contains((x, z)) by {
        assert(reaches(reversed(d), x, y) && reaches(reversed(d), y, z));
        assert(reaches(d, y, x) && reaches(d, z, y));
        if x != y && y != z {
            assert(d.contains((z, y)) && d.contains((y, x)));
        }
        assert(reaches(d, z, x));
        assert(reaches(reversed(d), x, z));
    }
}

/// Diagrams with the same edges reach alike, turned around too.
pub proof fn lemma_same_edges_reaches(d1: Seq<(Label, Label)>, d2: Seq<(Label, Label)>)
    requires
        same_edges(d1, d2),
    ensures
        forall|x: Label, y: Label| #[trigger] reaches(d1, x, y) == reaches(d2, x, y),
        same_edges(reversed(d1), reversed(d2)),
        same_edges(d2, d1),
{
    assert forall|x: Label, y: Label| #[trigger] reaches(d1, x, y) == reaches(d2, x, y) by {
        assert(d1.contains((x, y)) == d2.contains((x, y)));
    }
    lemma_reversed_contains(d1);
    lemma_reversed_contains(d2);
    assert forall|a: Label, b: Label| #[trigger] reversed(d1).contains((a, b)) == reversed(d2).contains((a, b)) by {
        assert(d1.contains((b, a)) == d2.contains((b, a)));
    }
}

/// Diagrams with the same edges include lines alike.
pub proof fn lemma_same_edges_included(d1: Seq<(Label, Label)>, d2: Seq<(Label, Label)>)
    requires
        same_edges(d1, d2),
    ensures
        forall|a: Seq<Seq<Label>>, b: Seq<Seq<Label>>| #[trigger] included(Some(d1), a, b) == included(Some(d2), a, b),
{
    lemma_same_edges_reaches(d1, d2);
    assert forall|s: Seq<Label>, t: Seq<Label>| #[trigger] group_le(Some(d1), s, t) == group_le(Some(d2), s, t) by {
        if group_le(Some(d1), s, t) {
            assert forall|x: Label| s.contains(x) implies exists|y: Label| t.contains(y) && reaches(d2, x, y) by {
                let y = choose|y: Label| t.contains(y) && reaches(d1, x, y);
                assert(reaches(d2, x, y));
            }
        }
        if group_le(Some(d2), s, t) {
            assert forall|x: Label| s.contains(x) implies exists|y: Label| t.contains(y) && reaches(d1, x, y) by {
                let y = choose|y: Label| t.contains(y) && reaches(d2, x, y);
                assert(reaches(d1, x, y));
            }
        }
    }
    assert forall|a: Seq<Seq<Label>>, b: Seq<Seq<Label>>| #[trigger] included(Some(d1), a, b) == included(Some(d2), a, b) by {
        if included(Some(d1), a, b) {
            let p = choose|p: Seq<int>| crate::labels::is_injection(p, a.len() as int) && forall|k: int|
                0 <= k < a.len() ==> group_le(Some(d1), #[trigger] a[k], b[p[k]]);
            assert forall|k: int| 0 <= k < a.len() implies group_le(Some(d2), #[trigger] a[k], b[p[k]]) by {
                assert(group_le(Some(d1), a[k], b[p[k]]));
            }
        }
        if included(Some(d2), a, b) {
            let p = choose|p: Seq<int>| crate::labels::is_injection(p, a.len() as int) && forall|k: int|
                0 <= k < a.len() ==> group_le(Some(d2), #[trigger] a[k], b[p[k]]);
            assert forall|k: int| 0 <= k < a.len() implies group_le(Some(d1), #[trigger] a[k], b[p[k]]) by {
                assert(group_le(Some(d2), a[k], b[p[k]]));
            }
        }
    }
}

/// Diagrams with the same edges have the same least common successors.
pub proof fn lemma_same_edges_least_above(d1: Seq<(Label, Label)>, d2: Seq<(Label, Label)>, labels: Seq<Label>)
    requires
        same_edges(d1, d2),
    ensures
        forall|a: Label, b: Label| #[trigger] has_least_above(d1, labels, a, b) == has_least_above(d2, labels, a, b),
        forall|a: Label, b: Label| #[trigger] least_above(d1, labels, a, b) == least_above(d2, labels, a, b),
{
    lemma_same_edges_reaches(d1, d2);
    assert forall|a: Label, b: Label| #[trigger] least_above(d1, labels, a, b) == least_above(d2, labels, a, b) by {
        assert(common_above(d1, labels, a, b) =~= common_above(d2, labels, a, b));
        let s = common_above(d1, labels, a, b);
        assert(lowest(d1, s) =~= lowest(d2, s));
    }
    assert forall|a: Label, b: Label| #[trigger] has_least_above(d1, labels, a, b) == has_least_above(d2, labels, a, b) by {
        assert(common_above(d1, labels, a, b) =~= common_above(d2, labels, a, b));
        let s = common_above(d1, labels, a, b);
        assert(lowest(d1, s) =~= lowest(d2, s));
        assert(least_above(d1, labels, a, b) == least_above(d2, labels, a, b));
    }
}

/// Diagrams with the same edges are lattices alike.
pub proof fn lemma_same_edges_lattice_ok(d1: Seq<(Label, Label)>, d2: Seq<(Label, Label)>, labels: Seq<Label>)
    requires
        same_edges(d1, d2),
    ensures
        lattice_ok(d1, labels) == lattice_ok(d2, labels),
        lattice_ok(reversed(d1), labels) == lattice_ok(d1, labels),
{
    lemma_same_edges_reaches(d1, d2);
    lemma_same_edges_least_above(d1, d2, labels);
    lemma_same_edges_least_above(reversed(d1), reversed(d2), labels);
    // turning around twice gives the same edges back
    let rr = reversed(reversed(d1));
    lemma_reversed_contains(d1);
    lemma_reversed_contains(reversed(d1));
    assert(same_edges(rr, d1)) by {
        assert forall|a: Label, b: Label| #[trigger] rr.contains((a, b)) == d1.contains((a, b)) by {
            assert(rr.contains((a, b)) == reversed(d1).contains((b, a)));
        }
    }
    lemma_same_edges_least_above(rr, d1, labels);
    if lattice_ok(d1, labels) {
        assert forall|a: Label, b: Label| labels.contains(a) && labels.contains(b) implies #[trigger] has_least_above(d2, labels, a, b) by {
            assert(has_least_above(d1, labels, a, b));
        }
        assert forall|a: Label, b: Label| labels.contains(a) && labels.contains(b) implies #[trigger] has_least_above(reversed(d2), labels, a, b) by {
            assert(has_least_above(reversed(d1), labels, a, b));
        }
        assert forall|a: Label, b: Label| labels.contains(a) && labels.contains(b) implies #[trigger] has_least_above(rr, labels, a, b) by {
            assert(has_least_above(d1, labels, a, b));
        }
        assert(lattice_ok(reversed(d1), labels));
    }
    if lattice_ok(d2, labels) {
        assert forall|a: Label, b: Label| labels.contains(a) && labels.contains(b) implies #[trigger] has_least_above(d1, labels, a, b) by {
            assert(has_least_above(d2, labels, a, b));
        }
        assert forall|a: Label, b: Label| labels.contains(a) && labels.contains(b) implies #[trigger] has_least_above(reversed(d1), labels, a, b) by {
            assert(has_least_above(reversed(d2), labels, a, b));
        }
    }
    if lattice_ok(reversed(d1), labels) {
        assert forall|a: Label, b: Label| labels.contains(a) && labels.contains(b) implies #[trigger] has_least_above(d1, labels, a, b) by {
            assert(has_least_above(rr, labels, a, b));
        }
    }
}

/// The labels of `labels` that `l` reaches in `d`.
pub open spec fn upset(d: Seq<(Label, Label)>, labels: Seq<Label>, l: Label) -> Set<Label> {
    Set::new(|x: Label| labels.contains(x) && reaches(d, l, x))
}

/// Those labels in increasing order.
pub open spec fn upset_group(d: Seq<(Label, Label)>, labels: Seq<Label>, l: Label) -> Seq<Label> {
    choose|s: Seq<Label>| sorted_strict(s) && s.to_set() == upset(d, labels, l)
}

/// The labels of `labels` that `l` reaches in `d`, in increasing order.
pub fn upset_exec(labels: &Vec<Label>, d: &Vec<(Label, Label)>, l: Label) -> (r: Vec<Label>)
    ensures
        r@ == upset_group(d@, labels@, l),
        sorted_strict(r@),
{
    let mut r: Vec<Label> = Vec::new();
    let mut i: usize = 0;
    while i < labels.len()
        invariant
            i <= labels.len(),
            sorted_strict(r@),
            r@.to_set() == upset(d@, labels@.subrange(0, i as int), l),
        decreases labels.len() - i,
    {
        let ghost r0 = r@.to_set();
        if reaches_exec(d, l, labels[i]) {
            insert_sorted(&mut r, labels[i]);
        }
        proof {
            let s0 = labels@.subrange(0, i as int);
            let s1 = labels@.subrange(0, i + 1);
            assert(s1 == s0.push(labels@[i as int]));
            assert forall|x: Label| s1.contains(x) <==> s0.contains(x) || x == labels@[i as int] by {
                if s1.contains(x) {
                    let k = choose|k: int| 0 <= k < s1.len() && s1[k] == x;
                    if k < i {
                        assert(s0[k] == x);
                    }
                }
                if s0.contains(x) {
                    let k = choose|k: int| 0 <= k < s0.len() && s0[k] == x;
                    assert(s1[k] == x);
                }
                if x == labels@[i as int] {
                    assert(s1[i as int] == x);
                }
            }
            assert(r@.to_set() =~= upset(d@, s1, l));
        }
        i = i + 1;
    }
    proof {
        assert(labels@.subrange(0, labels.len() as int) =~= labels@);
        let g = upset_group(d@, labels@, l);
        assert(exists|s: Seq<Label>| sorted_strict(s) && s.to_set() == upset(d@, labels@, l));
        lemma_sorted_set_eq(r@, g);
    }
    r
}

} // verus!
