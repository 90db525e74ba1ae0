//! Labels and sets of labels kept as strictly increasing vectors.
use vstd::prelude::*;

verus! {

/// A label of a problem.
pub type Label = u32;

/// The sequence is strictly increasing: it lists a set of labels in order.
pub open spec fn sorted_strict(s: Seq<Label>) -> bool {
    forall|i: int, j: int| 0 <= i < j < s.len() ==> s[i] < s[j]
}

/// Whether `v` holds `x`.
pub fn contains_label(v: &Vec<Label>, x: Label) -> (r: bool)
    ensures
        r == v@.contains(x),
{
    let mut i: usize = 0;
    while i < v.len()
        invariant
            i <= v.len(),
            forall|k: int| 0 <= k < i ==> v@[k] != x,
        decreases v.len() - i,
    {
        if v[i] == x {
            return true;
        }
        i = i + 1;
    }
    false
}

/// Inserts `x` into the strictly increasing vector `v`, keeping it strictly increasing.
pub fn insert_sorted(v: &mut Vec<Label>, x: Label)
    requires
        sorted_strict(old(v)@),
    ensures
        sorted_strict(final(v)@),
        final(v)@.to_set() == old(v)@.to_set().insert(x),
{
    let ghost s0 = v@;
    let mut i: usize = 0;
    while i < v.len() && v[i] < x
        invariant
            v@ == s0,
            i <= v.len(),
            sorted_strict(s0),
            forall|k: int| 0 <= k < i ==> s0[k] < x,
        decreases v.len() - i,
    {
        i = i + 1;
    }
    if i < v.len() && v[i] == x {
        assert(v@.to_set() =~= s0.to_set().insert(x)) by {
            assert(s0[i as int] == x);
            assert(s0.contains(x));
        }
        return;
    }
    v.insert(i, x);
    proof {
        let s1 = v@;
        assert(s1 == s0.insert(i as int, x));
        assert forall|a: int, b: int| 0 <= a < b < s1.len() implies s1[a] < s1[b] by {
            if b < i {
            } else if b == i {
            } else if a < i {
                assert(s1[b] == s0[b - 1]);
            } else if a == i {
                assert(s1[b] == s0[b - 1]);
                assert(i < s0.len());
                assert(s0[i as int] > x);
                assert(s0[i as int] <= s0[b - 1]);
            } else {
            }
        }
        assert forall|y: Label| s1.to_set().contains(y) <==> s0.to_set().insert(x).contains(y) by {
            if s1.contains(y) {
                let k = choose|k: int| 0 <= k < s1.len() && s1[k] == y;
                if k < i {
                    assert(s0[k] == y);
                } else if k > i {
                    assert(s0[k - 1] == y);
                }
            }
            if s0.contains(y) {
                let k = choose|k: int| 0 <= k < s0.len() && s0[k] == y;
                if k < i {
                    assert(s1[k] == y);
                } else {
                    assert(s1[k + 1] == y);
                }
            }
            if y == x {
                assert(s1[i as int] == x);
            }
        }
        assert(s1.to_set() =~= s0.to_set().insert(x));
    }
}

/// The strictly increasing vector that holds the same labels as `v`.
pub fn sorted_set(v: &Vec<Label>) -> (r: Vec<Label>)
    ensures
        sorted_strict(r@),
        r@.to_set() == v@.to_set(),
{
    let mut r: Vec<Label> = Vec::new();
    let mut i: usize = 0;
    while i < v.len()
        invariant
            i <= v.len(),
            sorted_strict(r@),
            r@.to_set() == v@.subrange(0, i as int).to_set(),
        decreases v.len() - i,
    {
        insert_sorted(&mut r, v[i]);
        proof {
            assert(v@.subrange(0, i + 1) == v@.subrange(0, i as int).push(v@[i as int]));
            v@.subrange(0, i as int).lemma_push_to_set_commute(v@[i as int]);
        }
        i = i + 1;
    }
    assert(v@.subrange(0, v.len() as int) == v@);
    r
}

/// Two strictly increasing sequences that hold the same labels are equal.
pub proof fn lemma_sorted_set_eq(a: Seq<Label>, b: Seq<Label>)
    requires
        sorted_strict(a),
        sorted_strict(b),
        a.to_set() == b.to_set(),
    ensures
        a == b,
    decreases a.len() + b.len(),
{
    if a.len() == 0 {
        if b.len() > 0 {
            assert(b.to_set().contains(b[0]));
        }
        assert(a =~= b);
    } else if b.len() == 0 {
        assert(a.to_set().contains(a[0]));
    } else {
        // the first elements are both the minimum
        assert(a.to_set().contains(a[0]));
        assert(b.to_set().contains(b[0]));
        let ka = choose|k: int| 0 <= k < a.len() && a[k] == b[0];
        let kb = choose|k: int| 0 <= k < b.len() && b[k] == a[0];
        assert(a[0] == b[0]) by {
            if a[0] < b[0] {
                assert(b[kb] == a[0]);
                if kb > 0 {
                    assert(b[0] < b[kb]);
                }
            } else if a[0] > b[0] {
                if ka > 0 {
                    assert(a[0] < a[ka]);
                }
            }
        }
        let a1 = a.drop_first();
        let b1 = b.drop_first();
        assert forall|y: Label| a1.to_set().contains(y) <==> b1.to_set().contains(y) by {
            if a1.contains(y) {
                let k = choose|k: int| 0 <= k < a1.len() && a1[k] == y;
                assert(a[k + 1] == y);
                assert(a.contains(y));
                assert(a.to_set().contains(y));
                assert(b.to_set().contains(y));
                assert(b.contains(y));
                let m = choose|m: int| 0 <= m < b.len() && b[m] == y;
                if m == 0 {
                    assert(a[0] < a[k + 1]);
                }
                assert(b1[m - 1] == y);
            }
            if b1.contains(y) {
                let k = choose|k: int| 0 <= k < b1.len() && b1[k] == y;
                assert(b[k + 1] == y);
                assert(b.contains(y));
                assert(b.to_set().contains(y));
                assert(a.to_set().contains(y));
                assert(a.contains(y));
                let m = choose|m: int| 0 <= m < a.len() && a[m] == y;
                if m == 0 {
                    assert(b[0] < b[k + 1]);
                }
                assert(a1[m - 1] == y);
            }
        }
        assert(a1.to_set() =~= b1.to_set());
        lemma_sorted_set_eq(a1, b1);
        assert(a =~= b) by {
            assert forall|k: int| 0 <= k < a.len() implies a[k] == b[k] by {
                if k > 0 {
                    assert(a[k] == a1[k - 1]);
                }
            }
        }
    }
}

/// Whether every label of `a` is in `b`.
pub fn is_subset(a: &Vec<Label>, b: &Vec<Label>) -> (r: bool)
    ensures
        r == a@.to_set().subset_of(b@.to_set()),
{
    let mut i: usize = 0;
    while i < a.len()
        invariant
            i <= a.len(),
            forall|k: int| 0 <= k < i ==> b@.contains(#[trigger] a@[k]),
        decreases a.len() - i,
    {
        if !contains_label(b, a[i]) {
            assert(a@.to_set().contains(a@[i as int]));
            return false;
        }
        i = i + 1;
    }
    assert forall|x: Label| a@.to_set().contains(x) implies b@.to_set().contains(x) by {
        let k = choose|k: int| 0 <= k < a@.len() && a@[k] == x;
    }
    true
}

/// The labels of `a` that are also in `b`, in the order of `a`.
pub fn intersect(a: &Vec<Label>, b: &Vec<Label>) -> (r: Vec<Label>)
    requires
        sorted_strict(a@),
    ensures
        sorted_strict(r@),
        r@.to_set() == a@.to_set().intersect(b@.to_set()),
{
    let mut r: Vec<Label> = Vec::new();
    let mut i: usize = 0;
    while i < a.len()
        invariant
            i <= a.len(),
            sorted_strict(a@),
            sorted_strict(r@),
            forall|k: int| 0 <= k < r@.len() ==> exists|m: int| 0 <= m < i && a@[m] == #[trigger] r@[k],
            r@.to_set() == a@.subrange(0, i as int).to_set().intersect(b@.to_set()),
        decreases a.len() - i,
    {
        let ghost r0 = r@;
        if contains_label(b, a[i]) {
            r.push(a[i]);
            proof {
                assert forall|x: int, y: int| 0 <= x < y < r@.len() implies r@[x] < r@[y] by {
                    if y == r@.len() - 1 {
                        let m = choose|m: int| 0 <= m < i && a@[m] == r@[x];
                    }
                }
            }
        }
        proof {
            let s0 = a@.subrange(0, i as int);
            assert(a@.subrange(0, i + 1) == s0.push(a@[i as int]));
            s0.lemma_push_to_set_commute(a@[i as int]);
            r0.lemma_push_to_set_commute(a@[i as int]);
            assert(r@.to_set() =~= a@.subrange(0, i + 1).to_set().intersect(b@.to_set()));
        }
        i = i + 1;
    }
    assert(a@.subrange(0, a.len() as int) == a@);
    r
}

/// The union of the label sets `a` and `b`, strictly increasing.
pub fn union(a: &Vec<Label>, b: &Vec<Label>) -> (r: Vec<Label>)
    requires
        sorted_strict(a@),
    ensures
        sorted_strict(r@),
        r@.to_set() == a@.to_set().union(b@.to_set()),
{
    let mut r = a.clone();
    assert(r@ == a@);
    let mut i: usize = 0;
    while i < b.len()
        invariant
            i <= b.len(),
            sorted_strict(r@),
            r@.to_set() == a@.to_set().union(b@.subrange(0, i as int).to_set()),
        decreases b.len() - i,
    {
        insert_sorted(&mut r, b[i]);
        proof {
            let s0 = b@.subrange(0, i as int);
            assert(b@.subrange(0, i + 1) == s0.push(b@[i as int]));
            s0.lemma_push_to_set_commute(b@[i as int]);
            assert(r@.to_set() =~= a@.to_set().union(b@.subrange(0, i + 1).to_set()));
        }
        i = i + 1;
    }
    assert(b@.subrange(0, b.len() as int) == b@);
    r
}

/// Lexicographic order on label sequences: `a` comes strictly before `b`.
pub open spec fn lex_lt(a: Seq<Label>, b: Seq<Label>) -> bool
    decreases a.len(),
{
    if a.len() == 0 {
        b.len() > 0
    } else if b.len() == 0 {
        false
    } else if a[0] < b[0] {
        true
    } else if a[0] > b[0] {
        false
    } else {
        lex_lt(a.drop_first(), b.drop_first())
    }
}

/// Lexicographic order on label sequences, equality allowed.
pub open spec fn lex_le(a: Seq<Label>, b: Seq<Label>) -> bool {
    a == b || lex_lt(a, b)
}

/// The lexicographic order is total and irreflexive.
pub proof fn lemma_lex_total(a: Seq<Label>, b: Seq<Label>)
    ensures
        a != b ==> (lex_lt(a, b) || lex_lt(b, a)),
        !(lex_lt(a, b) && lex_lt(b, a)),
        !lex_lt(a, a),
    decreases a.len(),
{
    if a.len() > 0 && b.len() > 0 && a[0] == b[0] {
        lemma_lex_total(a.drop_first(), b.drop_first());
        if a != b {
            assert(a.drop_first() != b.drop_first()) by {
                if a.drop_first() == b.drop_first() {
                    assert(a =~= b) by {
                        assert forall|k: int| 0 <= k < a.len() implies a[k] == b[k] by {
                            if k > 0 {
                                assert(a[k] == a.drop_first()[k - 1]);
                            }
                        }
                    }
                }
            }
        }
    } else if a.len() == 0 && b.len() == 0 {
        assert(a =~= b);
    }
    if a.len() > 0 {
        lemma_lex_total(a.drop_first(), a.drop_first());
    }
}

/// The lexicographic order is transitive.
pub proof fn lemma_lex_trans(a: Seq<Label>, b: Seq<Label>, c: Seq<Label>)
    requires
        lex_lt(a, b),
        lex_lt(b, c),
    ensures
        lex_lt(a, c),
    decreases a.len(),
{
    if a.len() > 0 && b.len() > 0 && c.len() > 0 && a[0] == b[0] && b[0] == c[0] {
        lemma_lex_trans(a.drop_first(), b.drop_first(), c.drop_first());
    }
}

/// Compares two label sequences lexicographically: returns whether `a` comes strictly before `b`.
pub fn lex_less(a: &Vec<Label>, b: &Vec<Label>) -> (r: bool)
    ensures
        r == lex_lt(a@, b@),
{
    let mut i: usize = 0;
    assert(a@.skip(0) =~= a@);
    assert(b@.skip(0) =~= b@);
    while i < a.len() && i < b.len() && a[i] == b[i]
        invariant
            i <= a.len(),
            i <= b.len(),
            lex_lt(a@, b@) == lex_lt(a@.skip(i as int), b@.skip(i as int)),
        decreases a.len() - i,
    {
        proof {
            let sa = a@.skip(i as int);
            let sb = b@.skip(i as int);
            assert(sa.drop_first() =~= a@.skip(i + 1));
            assert(sb.drop_first() =~= b@.skip(i + 1));
        }
        i = i + 1;
    }
    if i == a.len() {
        i < b.len()
    } else if i == b.len() {
        false
    } else {
        a[i] < b[i]
    }
}

/// The sequence of label sequences is in lexicographic order.
pub open spec fn sorted_lex(s: Seq<Seq<Label>>) -> bool {
    forall|i: int, j: int| 0 <= i < j < s.len() ==> lex_le(s[i], s[j])
}

/// The views of a list of label vectors.
pub open spec fn views(v: Seq<Vec<Label>>) -> Seq<Seq<Label>> {
    v.map_values(|x: Vec<Label>| x@)
}

/// `p` maps the positions `0..n` injectively into `0..n`.
pub open spec fn is_injection(p: Seq<int>, n: int) -> bool {
    &&& p.len() == n
    &&& forall|i: int| 0 <= i < n ==> 0 <= #[trigger] p[i] < n
    &&& forall|i: int, j: int| 0 <= i < j < n ==> p[i] != p[j]
}

/// `r` is a reordering of `v`: element `j` of `v` stands at position `inv[j]` of `r`.
pub open spec fn reorders<A>(r: Seq<A>, v: Seq<A>, inv: Seq<int>) -> bool {
    &&& r.len() == v.len()
    &&& is_injection(inv, v.len() as int)
    &&& forall|j: int| 0 <= j < v.len() ==> r[#[trigger] inv[j]] == v[j]
}

/// `a` lists the elements of `b` in some order.
pub open spec fn is_reordering<A>(a: Seq<A>, b: Seq<A>) -> bool {
    exists|inv: Seq<int>| #[trigger] reorders(a, b, inv)
}

/// Some position `j < n` is sent to `t` by `inv`.
pub open spec fn is_hit(inv: Seq<int>, n: int, t: int) -> bool {
    exists|j: int| 0 <= j < n && #[trigger] inv[j] == t
}

/// Sorts a list of label sequences lexicographically (a selection sort).
pub fn sort_lex(v: Vec<Vec<Label>>) -> (r: Vec<Vec<Label>>)
    ensures
        sorted_lex(views(r@)),
        exists|inv: Seq<int>|
            #[trigger] reorders(views(r@), views(v@), inv) && forall|t: int| 0 <= t < v@.len() ==> #[trigger] is_hit(inv, v@.len() as int, t),
        forall|k: int| 0 <= k < r@.len() ==> views(v@).contains(#[trigger] views(r@)[k]),
        views(r@).to_multiset() == views(v@).to_multiset(),
{
    let ghost vv = views(v@);
    let ghost n = v@.len() as int;
    let mut rest = v;
    let mut out: Vec<Vec<Label>> = Vec::new();
    // idx[k]: the original position of rest[k]; inv[j]: where element j went, or -1
    let ghost mut idx: Seq<int> = Seq::new(n as nat, |i: int| i);
    let ghost mut inv: Seq<int> = Seq::new(n as nat, |i: int| -1);
    assert forall|j: int| 0 <= j < n implies (inv[j] == -1 <==> exists|k: int| 0 <= k < idx.len() && #[trigger] idx[k] == j) by {
        assert(idx[j] == j);
    }
    proof {
        let e = views(out@);
        vstd::seq_lib::to_multiset_len(e);
        vstd::multiset::lemma_multiset_empty_len(e.to_multiset());
        assert(views(rest@) == vv);
        assert(e.to_multiset().add(vv.to_multiset()) =~= vv.to_multiset());
    }
    while rest.len() > 0
        invariant
            vv.len() == n,
            views(out@).to_multiset().add(views(rest@).to_multiset()) == vv.to_multiset(),
            sorted_lex(views(out@)),
            forall|i: int, j: int|
                0 <= i < out@.len() && 0 <= j < rest@.len() ==> lex_le(#[trigger] out@[i]@, #[trigger] rest@[j]@),
            idx.len() == rest@.len(),
            inv.len() == n,
            out@.len() + rest@.len() == n,
            forall|k: int| 0 <= k < idx.len() ==> 0 <= #[trigger] idx[k] < n && rest@[k]@ == vv[idx[k]] && inv[idx[k]] == -1,
            forall|k1: int, k2: int| 0 <= k1 < k2 < idx.len() ==> idx[k1] != idx[k2],
            forall|j: int| 0 <= j < n && inv[j] != -1 ==> 0 <= #[trigger] inv[j] < out@.len() && out@[inv[j]]@ == vv[j],
            forall|j: int| 0 <= j < n ==> (inv[j] == -1 <==> exists|k: int| 0 <= k < idx.len() && #[trigger] idx[k] == j),
            forall|j1: int, j2: int| 0 <= j1 < j2 < n && inv[j1] != -1 ==> inv[j1] != inv[j2],
            forall|t: int| 0 <= t < out@.len() ==> #[trigger] is_hit(inv, n, t),
        decreases rest.len(),
    {
        let mut m: usize = 0;
        let mut j: usize = 1;
        while j < rest.len()
            invariant
                0 <= m < rest.len(),
                1 <= j <= rest.len(),
                m < j,
                forall|k: int| 0 <= k < j ==> lex_le(rest@[m as int]@, #[trigger] rest@[k]@),
            decreases rest.len() - j,
        {
            if lex_less(&rest[j], &rest[m]) {
                proof {
                    assert forall|k: int| 0 <= k < j + 1 implies lex_le(rest@[j as int]@, #[trigger] rest@[k]@) by {
                        if k < j && rest@[m as int]@ != rest@[k]@ {
                            lemma_lex_trans(rest@[j as int]@, rest@[m as int]@, rest@[k]@);
                        }
                    }
                }
                m = j;
            } else {
                proof {
                    lemma_lex_total(rest@[j as int]@, rest@[m as int]@);
                }
            }
            j = j + 1;
        }
        let ghost rest0 = rest@;
        let ghost out0 = out@;
        let ghost idx0 = idx;
        let ghost inv0 = inv;
        let ghost t = out@.len() as int;
        let x = rest.remove(m);
        out.push(x);
        proof {
            let om0 = views(out0);
            let om = views(out@);
            assert(om =~= om0.push(x@));
            let rm0 = views(rest0);
            vstd::seq_lib::to_multiset_remove(rm0, m as int);
            assert(rm0[m as int] == x@);
            vstd::seq_lib::to_multiset_contains(rm0, x@);
            vstd::seq_lib::to_multiset_build(om0, x@);
            let rm = views(rest@);
            assert(rm =~= rm0.remove(m as int));
            assert(om.to_multiset().add(rm.to_multiset()) =~= om0.to_multiset().add(rm0.to_multiset()));
            assert forall|a: int, b: int| 0 <= a < b < om.len() implies lex_le(om[a], om[b]) by {
                if b == om.len() - 1 {
                    assert(om[a] == out0[a]@);
                    assert(lex_le(out0[a]@, rest0[m as int]@));
                }
            }
            assert forall|a: int, b: int| 0 <= a < out@.len() && 0 <= b < rest@.len() implies lex_le(#[trigger] out@[a]@, #[trigger] rest@[b]@) by {
                let bb = if b < m { b } else { b + 1 };
                assert(rest@[b] == rest0[bb]);
                if a == out@.len() - 1 {
                } else {
                    assert(out@[a] == out0[a]);
                }
            }
            let jm = idx0[m as int];
            idx = idx0.remove(m as int);
            inv = inv0.update(jm, t);
            assert forall|k: int| 0 <= k < idx.len() implies 0 <= #[trigger] idx[k] < n && rest@[k]@ == vv[idx[k]] && inv[idx[k]] == -1 by {
                let kk = if k < m { k } else { k + 1 };
                assert(idx[k] == idx0[kk]);
                assert(rest@[k] == rest0[kk]);
                assert(idx0[kk] != jm);
            }
            assert forall|k1: int, k2: int| 0 <= k1 < k2 < idx.len() implies idx[k1] != idx[k2] by {
                let kk1 = if k1 < m { k1 } else { k1 + 1 };
                let kk2 = if k2 < m { k2 } else { k2 + 1 };
                assert(idx[k1] == idx0[kk1]);
                assert(idx[k2] == idx0[kk2]);
            }
            assert forall|jj: int| 0 <= jj < n && inv[jj] != -1 implies 0 <= #[trigger] inv[jj] < out@.len() && out@[inv[jj]]@ == vv[jj] by {
                if jj == jm {
                } else {
                    assert(inv[jj] == inv0[jj]);
                    assert(out@[inv0[jj]] == out0[inv0[jj]]);
                }
            }
            assert forall|jj: int| 0 <= jj < n implies (inv[jj] == -1 <==> exists|k: int| 0 <= k < idx.len() && #[trigger] idx[k] == jj) by {
                if jj == jm {
                    if exists|k: int| 0 <= k < idx.len() && #[trigger] idx[k] == jj {
                        let k = choose|k: int| 0 <= k < idx.len() && #[trigger] idx[k] == jj;
                        let kk = if k < m { k } else { k + 1 };
                        assert(idx[k] == idx0[kk]);
                    }
                } else {
                    assert(inv[jj] == inv0[jj]);
                    if inv0[jj] == -1 {
                        let k0 = choose|k: int| 0 <= k < idx0.len() && #[trigger] idx0[k] == jj;
                        assert(k0 != m);
                        let k = if k0 < m { k0 } else { k0 - 1 };
                        assert(idx[k] == jj);
                    }
                    if exists|k: int| 0 <= k < idx.len() && #[trigger] idx[k] == jj {
                        let k = choose|k: int| 0 <= k < idx.len() && #[trigger] idx[k] == jj;
                        let kk = if k < m { k } else { k + 1 };
                        assert(idx[k] == idx0[kk]);
                    }
                }
            }
            assert forall|tt: int| 0 <= tt < out@.len() implies #[trigger] is_hit(inv, n, tt) by {
                if tt == t {
                    assert(inv[jm] == t);
                } else {
                    assert(is_hit(inv0, n, tt));
                    let j0 = choose|j: int| 0 <= j < n && #[trigger] inv0[j] == tt;
                    assert(j0 != jm);
                    assert(inv[j0] == tt);
                }
            }
            assert forall|j1: int, j2: int| 0 <= j1 < j2 < n && inv[j1] != -1 implies inv[j1] != inv[j2] by {
                if j1 == jm {
                    if inv0[j2] != -1 {
                        assert(inv0[j2] < t);
                    }
                } else if j2 == jm {
                    assert(inv0[j1] < t);
                } else {
                }
            }
        }
    }
    proof {
        let rr = views(out@);
        let e = views(rest@);
        vstd::seq_lib::to_multiset_len(e);
        vstd::multiset::lemma_multiset_empty_len(e.to_multiset());
        assert(rr.to_multiset().add(e.to_multiset()) =~= rr.to_multiset());
        assert forall|j: int| 0 <= j < n implies inv[j] != -1 by {
            if inv[j] == -1 {
                let k = choose|k: int| 0 <= k < idx.len() && #[trigger] idx[k] == j;
            }
        }
        assert forall|j: int| 0 <= j < vv.len() implies rr[#[trigger] inv[j]] == vv[j] by {
            assert(out@[inv[j]]@ == vv[j]);
        }
        assert forall|j1: int, j2: int| 0 <= j1 < j2 < n implies inv[j1] != inv[j2] by {}
        assert(reorders(rr, vv, inv));
        assert forall|t: int| 0 <= t < v@.len() implies #[trigger] is_hit(inv, v@.len() as int, t) by {
            assert(is_hit(inv, n, t));
        }
        assert forall|k: int| 0 <= k < out@.len() implies views(v@).contains(#[trigger] views(out@)[k]) by {
            assert(is_hit(inv, n, k));
            let j = choose|j: int| 0 <= j < n && #[trigger] inv[j] == k;
            assert(out@[inv[j]]@ == vv[j]);
            assert(vv[j] == v@[j]@);
            assert(0 <= j < v@.len());
            assert(views(v@)[j] == views(out@)[k]);
        }
    }
    out
}

/// The lexicographic order on label sequences, equality allowed, as a relation.
pub open spec fn lex_order() -> spec_fn(Seq<Label>, Seq<Label>) -> bool {
    |a: Seq<Label>, b: Seq<Label>| lex_le(a, b)
}

/// The lexicographic order is a total order.
pub proof fn lemma_lex_order_total()
    ensures
        vstd::relations::total_ordering(lex_order()),
{
    let r = lex_order();
    assert forall|a: Seq<Label>| #[trigger] r(a, a) by {}
    assert forall|a: Seq<Label>, b: Seq<Label>| #[trigger] r(a, b) && #[trigger] r(b, a) implies a == b by {
        lemma_lex_total(a, b);
    }
    assert forall|a: Seq<Label>, b: Seq<Label>, c: Seq<Label>| #[trigger] r(a, b) && #[trigger] r(b, c) implies r(a, c) by {
        if a != b && b != c {
            lemma_lex_trans(a, b, c);
        }
    }
    assert forall|a: Seq<Label>, b: Seq<Label>| #[trigger] r(a, b) || #[trigger] r(b, a) by {
        lemma_lex_total(a, b);
    }
}

/// A lexicographically sorted rearrangement of `v` is `v` sorted.
pub proof fn lemma_sorted_lex_is_sort(r: Seq<Seq<Label>>, v: Seq<Seq<Label>>)
    requires
        sorted_lex(r),
        r.to_multiset() == v.to_multiset(),
    ensures
        r == v.sort_by(lex_order()),
{
    lemma_lex_order_total();
    v.lemma_sort_by_ensures(lex_order());
    assert(vstd::relations::sorted_by(r, lex_order())) by {
        assert forall|i: int, j: int| 0 <= i < j < r.len() implies #[trigger] lex_order()(r[i], r[j]) by {
            assert(lex_le(r[i], r[j]));
        }
    }
    vstd::seq_lib::lemma_sorted_unique(r, v.sort_by(lex_order()), lex_order());
}

/// An injection of `0..n` into itself reaches every position.
pub proof fn lemma_injection_onto(p: Seq<int>, n: int, t: int)
    requires
        is_injection(p, n),
        0 <= t < n,
    ensures
        is_hit(p, n, t),
{
    assert(p.no_duplicates()) by {
        assert forall|i: int, j: int| 0 <= i < p.len() && 0 <= j < p.len() && i != j implies p[i] != p[j] by {
            if i < j {
            } else {
            }
        }
    }
    p.unique_seq_to_set();
    vstd::set_lib::lemma_int_range(0, n);
    let r = vstd::set_lib::set_int_range(0, n);
    assert(p.to_set().subset_of(r)) by {
        assert forall|x: int| p.to_set().contains(x) implies r.contains(x) by {
            let k = choose|k: int| 0 <= k < p.len() && p[k] == x;
        }
    }
    vstd::set_lib::lemma_len_subset(p.to_set(), r);
    vstd::set_lib::lemma_subset_equality(p.to_set(), r);
    assert(r.contains(t));
    assert(p.to_set().contains(t));
    let k = choose|k: int| 0 <= k < p.len() && p[k] == t;
    assert(0 <= k < n && p[k] == t);
}

} // verus!
