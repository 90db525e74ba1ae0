//! The procedure at the heart of the fixpoint computation: a constraint whose groups are
//! single labels of a diagram is maximized with the least common successor as union and the
//! least common predecessor as intersection.
use vstd::prelude::*;
use crate::labels::{Label, views, sorted_lex, sort_lex, reorders, is_reordering, lex_order, lemma_sorted_lex_is_sort};
use crate::line::{Line, PartV, positions, positions_wf, line_wf, included, lemma_included_trans, lemma_included_reorder_big, lemma_included_reorder_small};
use crate::constraint::{
    Constraint, Degree, lines_view, is_antichain, covers, normal_line, diagram_transitive, all_nonempty,
    add_line_discarding, add_discard, lemma_add_discard, lemma_included_refl, lemma_add_discard_elements, remove_at, permutations,
    expand_all, listed, lemma_listed_push,
};
use crate::lattice::{least_above, has_least_above, is_join_table, reversed, index_of, join_table, lattice_ok, lemma_tables_lattice_ok, reverse_edges};

verus! {

/// Every position is a single label of `labels`.
pub open spec fn singletons_over(p: Seq<Seq<Label>>, labels: Seq<Label>) -> bool {
    forall|k: int| 0 <= k < p.len() ==> (#[trigger] p[k]).len() == 1 && labels.contains(p[k][0])
}

/// Single labels are strictly increasing groups, and not empty.
pub proof fn lemma_singletons_wf(p: Seq<Seq<Label>>, labels: Seq<Label>)
    requires
        singletons_over(p, labels),
    ensures
        positions_wf(p),
        all_nonempty(p),
{
    assert forall|k: int| 0 <= k < p.len() implies crate::labels::sorted_strict(#[trigger] p[k]) by {
        assert(p[k].len() == 1);
    }
    assert forall|k: int| 0 <= k < p.len() implies (#[trigger] p[k]).len() > 0 by {
        assert(p[k].len() == 1);
    }
}

/// The entry of the table `t` for the labels `x` and `y`: their least common successor.
fn table_entry(labels: &Vec<Label>, t: &Vec<Vec<Label>>, Ghost(d): Ghost<Seq<(Label, Label)>>, x: Label, y: Label) -> (r: Label)
    requires
        is_join_table(t@, d, labels@),
        labels@.contains(x),
        labels@.contains(y),
    ensures
        r == least_above(d, labels@, x, y),
        has_least_above(d, labels@, x, y),
        labels@.contains(r),
{
    let i = index_of(labels, x);
    let j = index_of(labels, y);
    proof {
        assert(t@[i as int]@[j as int] == least_above(d, labels@, labels@[i as int], labels@[j as int]));
        assert(has_least_above(d, labels@, labels@[i as int], labels@[j as int]));
        lemma_least_above_in(d, labels@, x, y);
    }
    t[i][j]
}

/// The least common successor of two labels is one of the labels.
pub proof fn lemma_least_above_in(d: Seq<(Label, Label)>, labels: Seq<Label>, x: Label, y: Label)
    requires
        has_least_above(d, labels, x, y),
    ensures
        labels.contains(least_above(d, labels, x, y)),
{
    let c = least_above(d, labels, x, y);
    assert(set![c].contains(c));
}

/// The line that combining the single-label lines `a` and `b` gives when position `i` of
/// `a` and position `j` of `b` are united (their least common successor in `d`) and the
/// other positions of `a` are intersected (least common predecessor) with those of `b` in
/// the order `q`; its positions sorted.
pub open spec fn combo_line(
    a: Seq<Seq<Label>>,
    b: Seq<Seq<Label>>,
    i: int,
    j: int,
    q: Seq<Seq<Label>>,
    labels: Seq<Label>,
    d: Seq<(Label, Label)>,
) -> Seq<Seq<Label>> {
    let rest = a.remove(i);
    (seq![seq![least_above(d, labels, a[i][0], b[j][0])]]
        + Seq::new(rest.len(), |k: int| seq![least_above(reversed(d), labels, rest[k][0], q[k][0])])).sort_by(lex_order())
}

/// `x` is a combination of the single-label lines `a` and `b` (see `combo_line`).
pub open spec fn is_combination(
    x: Seq<Seq<Label>>,
    a: Seq<Seq<Label>>,
    b: Seq<Seq<Label>>,
    labels: Seq<Label>,
    d: Seq<(Label, Label)>,
) -> bool {
    exists|i: int, j: int, q: Seq<Seq<Label>>|
        #![trigger combo_line(a, b, i, j, q, labels, d)]
        0 <= i < a.len() && 0 <= j < b.len() && is_reordering(q, b.remove(j)) && x == combo_line(a, b, i, j, q, labels, d)
}

/// `x` is in `base`, or is obtained from lines of `base` by at most `n` rounds of
/// combination (see `is_combination`).
pub open spec fn derived_in(
    base: Set<Seq<Seq<Label>>>,
    n: nat,
    x: Seq<Seq<Label>>,
    labels: Seq<Label>,
    d: Seq<(Label, Label)>,
) -> bool
    decreases n,
{
    if n == 0 {
        base.contains(x)
    } else {
        ||| derived_in(base, (n - 1) as nat, x, labels, d)
        ||| exists|a: Seq<Seq<Label>>, b: Seq<Seq<Label>>|
            #![trigger is_combination(x, a, b, labels, d)]
            derived_in(base, (n - 1) as nat, a, labels, d) && derived_in(base, (n - 1) as nat, b, labels, d)
                && is_combination(x, a, b, labels, d)
    }
}

/// `x` is obtained from lines of `base` by repeated combination.
pub open spec fn derivable(base: Set<Seq<Seq<Label>>>, x: Seq<Seq<Label>>, labels: Seq<Label>, d: Seq<(Label, Label)>) -> bool {
    exists|n: nat| #[trigger] derived_in(base, n, x, labels, d)
}

/// The positions of every line of `lines` are derivable from `base`.
pub open spec fn all_derivable(base: Set<Seq<Seq<Label>>>, lines: Seq<Seq<PartV>>, labels: Seq<Label>, d: Seq<(Label, Label)>) -> bool {
    forall|t: int| 0 <= t < lines.len() ==> derivable(base, positions(#[trigger] lines[t]), labels, d)
}

/// The positions of the lines of `lines`.
pub open spec fn line_set(lines: Seq<Line>) -> Set<Seq<Seq<Label>>> {
    Set::new(|x: Seq<Seq<Label>>| exists|k: int| 0 <= k < lines.len() && positions(#[trigger] lines[k]@) == x)
}

/// The reorderings of the positions of the lines of `lines`.
pub open spec fn reordered_set(lines: Seq<Line>) -> Set<Seq<Seq<Label>>> {
    Set::new(|x: Seq<Seq<Label>>| exists|k: int| 0 <= k < lines.len() && is_reordering(x, positions(#[trigger] lines[k]@)))
}

/// More rounds derive no less.
pub proof fn lemma_derived_more(base: Set<Seq<Seq<Label>>>, n: nat, m: nat, x: Seq<Seq<Label>>, labels: Seq<Label>, d: Seq<(Label, Label)>)
    requires
        n <= m,
        derived_in(base, n, x, labels, d),
    ensures
        derived_in(base, m, x, labels, d),
    decreases m,
{
    if m > n {
        lemma_derived_more(base, n, (m - 1) as nat, x, labels, d);
    }
}

/// A larger base derives no less.
pub proof fn lemma_derived_base(b1: Set<Seq<Seq<Label>>>, b2: Set<Seq<Seq<Label>>>, n: nat, x: Seq<Seq<Label>>, labels: Seq<Label>, d: Seq<(Label, Label)>)
    requires
        b1.subset_of(b2),
        derived_in(b1, n, x, labels, d),
    ensures
        derived_in(b2, n, x, labels, d),
    decreases n,
{
    if n > 0 {
        if derived_in(b1, (n - 1) as nat, x, labels, d) {
            lemma_derived_base(b1, b2, (n - 1) as nat, x, labels, d);
        } else {
            let (a, b) = choose|a: Seq<Seq<Label>>, b: Seq<Seq<Label>>|
                derived_in(b1, (n - 1) as nat, a, labels, d) && derived_in(b1, (n - 1) as nat, b, labels, d)
                    && #[trigger] is_combination(x, a, b, labels, d);
            lemma_derived_base(b1, b2, (n - 1) as nat, a, labels, d);
            lemma_derived_base(b1, b2, (n - 1) as nat, b, labels, d);
        }
    }
}

/// What a base derives, a larger base derives.
pub proof fn lemma_derivable_base(b1: Set<Seq<Seq<Label>>>, b2: Set<Seq<Seq<Label>>>, x: Seq<Seq<Label>>, labels: Seq<Label>, d: Seq<(Label, Label)>)
    requires
        b1.subset_of(b2),
        derivable(b1, x, labels, d),
    ensures
        derivable(b2, x, labels, d),
{
    let n = choose|n: nat| #[trigger] derived_in(b1, n, x, labels, d);
    lemma_derived_base(b1, b2, n, x, labels, d);
}

/// A combination of two derivable lines is derivable.
pub proof fn lemma_derivable_combination(
    base: Set<Seq<Seq<Label>>>,
    a: Seq<Seq<Label>>,
    b: Seq<Seq<Label>>,
    x: Seq<Seq<Label>>,
    labels: Seq<Label>,
    d: Seq<(Label, Label)>,
)
    requires
        derivable(base, a, labels, d),
        derivable(base, b, labels, d),
        is_combination(x, a, b, labels, d),
    ensures
        derivable(base, x, labels, d),
{
    let na = choose|n: nat| #[trigger] derived_in(base, n, a, labels, d);
    let nb = choose|n: nat| #[trigger] derived_in(base, n, b, labels, d);
    let n: nat = if na < nb { nb } else { na };
    lemma_derived_more(base, na, n, a, labels, d);
    lemma_derived_more(base, nb, n, b, labels, d);
    assert(derived_in(base, n + 1, x, labels, d));
}

/// A line of the base is derivable.
pub proof fn lemma_derivable_in_base(base: Set<Seq<Seq<Label>>>, x: Seq<Seq<Label>>, labels: Seq<Label>, d: Seq<(Label, Label)>)
    requires
        base.contains(x),
    ensures
        derivable(base, x, labels, d),
{
    assert(derived_in(base, 0, x, labels, d));
}

/// The lines obtained by combining the single-label lines `a` and `b`: one position takes
/// the least common successor (`up`) of a label of `a` and a label of `b`, and the other
/// positions take the least common predecessors (`down`) of the remaining labels of `a` with
/// the remaining labels of `b` in every order (see `combo_line`).
fn combine_on(
    a: &Vec<Vec<Label>>,
    b: &Vec<Vec<Label>>,
    labels: &Vec<Label>,
    up: &Vec<Vec<Label>>,
    down: &Vec<Vec<Label>>,
    Ghost(d): Ghost<Seq<(Label, Label)>>,
) -> (r: Vec<Vec<Vec<Label>>>)
    requires
        a.len() == b.len(),
        a.len() >= 1,
        singletons_over(views(a@), labels@),
        singletons_over(views(b@), labels@),
        is_join_table(up@, d, labels@),
        is_join_table(down@, reversed(d), labels@),
    ensures
        forall|t: int|
            0 <= t < r@.len() ==> (#[trigger] r@[t])@.len() == a@.len() && singletons_over(views(r@[t]@), labels@)
                && sorted_lex(views(r@[t]@)),
        forall|i: int, j: int, q: Seq<Seq<Label>>|
            0 <= i < a@.len() && 0 <= j < b@.len() && is_reordering(q, views(b@).remove(j))
                ==> #[trigger] listed(r@, combo_line(views(a@), views(b@), i, j, q, labels@, d)),
        forall|t: int| 0 <= t < r@.len() ==> is_combination(views((#[trigger] r@[t])@), views(a@), views(b@), labels@, d),
{
    let n = a.len();
    let ghost av = views(a@);
    let ghost bv = views(b@);
    let mut r: Vec<Vec<Vec<Label>>> = Vec::new();
    let mut i: usize = 0;
    while i < n
        invariant
            n == a.len(),
            n == b.len(),
            i <= n,
            av == views(a@),
            bv == views(b@),
            singletons_over(views(a@), labels@),
            singletons_over(views(b@), labels@),
            is_join_table(up@, d, labels@),
            is_join_table(down@, reversed(d), labels@),
            forall|t: int|
                0 <= t < r@.len() ==> (#[trigger] r@[t])@.len() == a@.len() && singletons_over(views(r@[t]@), labels@)
                    && sorted_lex(views(r@[t]@)),
            forall|t: int| 0 <= t < r@.len() ==> is_combination(views((#[trigger] r@[t])@), av, bv, labels@, d),
            forall|i2: int, j2: int, q: Seq<Seq<Label>>|
                0 <= i2 < i && 0 <= j2 < n && is_reordering(q, bv.remove(j2))
                    ==> #[trigger] listed(r@, combo_line(av, bv, i2, j2, q, labels@, d)),
        decreases n - i,
    {
        let a_rest = remove_at(a, i);
        let mut j: usize = 0;
        while j < n
            invariant
                n == a.len(),
                n == b.len(),
                i < n,
                j <= n,
                av == views(a@),
                bv == views(b@),
                singletons_over(views(a@), labels@),
                singletons_over(views(b@), labels@),
                is_join_table(up@, d, labels@),
                is_join_table(down@, reversed(d), labels@),
                views(a_rest@) == views(a@).remove(i as int),
                a_rest@.len() == n - 1,
                forall|t: int|
                    0 <= t < r@.len() ==> (#[trigger] r@[t])@.len() == a@.len() && singletons_over(views(r@[t]@), labels@)
                        && sorted_lex(views(r@[t]@)),
                forall|t: int| 0 <= t < r@.len() ==> is_combination(views((#[trigger] r@[t])@), av, bv, labels@, d),
                forall|i2: int, j2: int, q: Seq<Seq<Label>>|
                    0 <= i2 < i && 0 <= j2 < n && is_reordering(q, bv.remove(j2))
                        ==> #[trigger] listed(r@, combo_line(av, bv, i2, j2, q, labels@, d)),
                forall|j2: int, q: Seq<Seq<Label>>|
                    0 <= j2 < j && is_reordering(q, bv.remove(j2))
                        ==> #[trigger] listed(r@, combo_line(av, bv, i as int, j2, q, labels@, d)),
            decreases n - j,
        {
            let b_rest = remove_at(b, j);
            let perms = permutations(&b_rest);
            let mut t: usize = 0;
            proof {
                assert(views(a@)[i as int] == a@[i as int]@);
                assert(views(b@)[j as int] == b@[j as int]@);
                assert(views(a@)[i as int].len() == 1);
                assert(views(b@)[j as int].len() == 1);
            }
            let x = a[i][0];
            let y = b[j][0];
            let u = table_entry(labels, up, Ghost(d), x, y);
            while t < perms.len()
                invariant
                    n == a.len(),
                    n == b.len(),
                    i < n,
                    j < n,
                    av == views(a@),
                    bv == views(b@),
                    u == least_above(d, labels@, av[i as int][0], bv[j as int][0]),
                    labels@.contains(u),
                    singletons_over(views(a@), labels@),
                    singletons_over(views(b@), labels@),
                    is_join_table(up@, d, labels@),
                    is_join_table(down@, reversed(d), labels@),
                    views(a_rest@) == views(a@).remove(i as int),
                    a_rest@.len() == n - 1,
                    views(b_rest@) == views(b@).remove(j as int),
                    b_rest@.len() == n - 1,
                    forall|t2: int| 0 <= t2 < perms@.len() ==> (#[trigger] perms@[t2])@.len() == b_rest@.len(),
                    forall|t2: int, k: int|
                        0 <= t2 < perms@.len() && 0 <= k < b_rest@.len() ==> views(b_rest@).contains(#[trigger] views(perms@[t2]@)[k]),
                    forall|t2: int|
                        0 <= t2 < r@.len() ==> (#[trigger] r@[t2])@.len() == a@.len() && singletons_over(views(r@[t2]@), labels@)
                            && sorted_lex(views(r@[t2]@)),
                    forall|t2: int| 0 <= t2 < r@.len() ==> is_combination(views((#[trigger] r@[t2])@), av, bv, labels@, d),
                    forall|t2: int| 0 <= t2 < perms@.len() ==> is_reordering(views((#[trigger] perms@[t2])@), views(b_rest@)),
                    forall|i2: int, j2: int, q: Seq<Seq<Label>>|
                        0 <= i2 < i && 0 <= j2 < n && is_reordering(q, bv.remove(j2))
                            ==> #[trigger] listed(r@, combo_line(av, bv, i2, j2, q, labels@, d)),
                    forall|j2: int, q: Seq<Seq<Label>>|
                        0 <= j2 < j && is_reordering(q, bv.remove(j2))
                            ==> #[trigger] listed(r@, combo_line(av, bv, i as int, j2, q, labels@, d)),
                    forall|t2: int| 0 <= t2 < t ==> #[trigger] listed(r@, combo_line(av, bv, i as int, j as int, views(perms@[t2]@), labels@, d)),
                decreases perms.len() - t,
            {
                let p = &perms[t];
                let ghost pv = views(p@);
                let ghost arv = views(a_rest@);
                let mut line: Vec<Vec<Label>> = Vec::new();
                let mut uv: Vec<Label> = Vec::new();
                uv.push(u);
                line.push(uv);
                assert(views(line@) =~= seq![seq![u]] + Seq::new(0, |k2: int| seq![least_above(reversed(d), labels@, arv[k2][0], pv[k2][0])]));
                let mut k: usize = 0;
                while k < n - 1
                    invariant
                        n == a.len(),
                        n == b.len(),
                        i < n,
                        k <= n - 1,
                        a_rest@.len() == n - 1,
                        p@.len() == n - 1,
                        b_rest@.len() == n - 1,
                        pv == views(p@),
                        arv == views(a_rest@),
                        labels@.contains(u),
                        singletons_over(views(a@), labels@),
                        singletons_over(views(b@), labels@),
                        views(a_rest@) == views(a@).remove(i as int),
                        forall|k2: int| 0 <= k2 < n - 1 ==> views(b_rest@).contains(#[trigger] views(p@)[k2]),
                        views(b_rest@) == views(b@).remove(j as int),
                        j < n,
                        is_join_table(down@, reversed(d), labels@),
                        views(line@) == seq![seq![u]] + Seq::new(k as nat, |k2: int| seq![least_above(reversed(d), labels@, arv[k2][0], pv[k2][0])]),
                    decreases n - 1 - k,
                {
                    proof {
                        let m = if k < i { k as int } else { k + 1 };
                        assert(views(a_rest@)[k as int] == views(a@)[m]);
                        assert(views(a_rest@)[k as int] == a_rest@[k as int]@);
                        assert(views(a@)[m].len() == 1);
                        assert(views(p@)[k as int] == p@[k as int]@);
                        assert(views(b_rest@).contains(views(p@)[k as int]));
                        let q = choose|q: int| 0 <= q < views(b_rest@).len() && views(b_rest@)[q] == views(p@)[k as int];
                        let m2 = if q < j { q } else { q + 1 };
                        assert(views(b@).remove(j as int)[q] == views(b@)[m2]);
                        assert(views(b@)[m2] == views(b_rest@)[q]);
                        assert(views(b@)[m2].len() == 1);
                    }
                    let g = table_entry(labels, down, Ghost(reversed(d)), a_rest[k][0], p[k][0]);
                    let ghost l0 = line@;
                    let mut gv: Vec<Label> = Vec::new();
                    gv.push(g);
                    line.push(gv);
                    proof {
                        assert(gv@ =~= seq![g]);
                        assert(views(line@) =~= views(l0).push(seq![g]));
                        assert(views(line@) =~= seq![seq![u]] + Seq::new((k + 1) as nat, |k2: int| seq![least_above(reversed(d), labels@, arv[k2][0], pv[k2][0])]));
                    }
                    k = k + 1;
                }
                let ghost lv = views(line@);
                proof {
                    assert forall|k2: int| 0 <= k2 < lv.len() implies (#[trigger] lv[k2]).len() == 1 && labels@.contains(lv[k2][0]) by {
                        if k2 > 0 {
                            let kk = k2 - 1;
                            let m = if kk < i { kk } else { kk + 1 };
                            assert(views(a_rest@)[kk] == views(a@)[m]);
                            assert(views(a@)[m].len() == 1);
                            assert(views(b_rest@).contains(views(p@)[kk]));
                            let q = choose|q: int| 0 <= q < views(b_rest@).len() && views(b_rest@)[q] == views(p@)[kk];
                            let m2 = if q < j { q } else { q + 1 };
                            assert(views(b@).remove(j as int)[q] == views(b@)[m2]);
                            assert(views(b@)[m2].len() == 1);
                            crate::procedure::lemma_least_above_in(reversed(d), labels@, arv[kk][0], pv[kk][0]);
                        }
                    }
                }
                let sorted = sort_lex(line);
                proof {
                    assert forall|k2: int| 0 <= k2 < sorted@.len() implies (#[trigger] views(sorted@)[k2]).len() == 1
                        && labels@.contains(views(sorted@)[k2][0]) by {
                        assert(lv.contains(views(sorted@)[k2]));
                    }
                    lemma_sorted_lex_is_sort(views(sorted@), lv);
                    assert(arv == av.remove(i as int));
                    assert(views(sorted@) == combo_line(av, bv, i as int, j as int, pv, labels@, d));
                }
                let ghost r0 = r@;
                r.push(sorted);
                proof {
                    assert(views(r@[r0.len() as int]@) == combo_line(av, bv, i as int, j as int, pv, labels@, d));
                    assert(is_reordering(pv, bv.remove(j as int)));
                    assert(is_combination(views(r@[r0.len() as int]@), av, bv, labels@, d));
                    assert forall|t2: int| 0 <= t2 < r@.len() implies is_combination(views((#[trigger] r@[t2])@), av, bv, labels@, d) by {
                        if t2 < r0.len() {
                            assert(r@[t2] == r0[t2]);
                        }
                    }
                    assert forall|i2: int, j2: int, q: Seq<Seq<Label>>|
                        0 <= i2 < i && 0 <= j2 < n && is_reordering(q, bv.remove(j2))
                            implies #[trigger] listed(r@, combo_line(av, bv, i2, j2, q, labels@, d)) by {
                        lemma_listed_push(r0, sorted, combo_line(av, bv, i2, j2, q, labels@, d));
                    }
                    assert forall|j2: int, q: Seq<Seq<Label>>|
                        0 <= j2 < j && is_reordering(q, bv.remove(j2))
                            implies #[trigger] listed(r@, combo_line(av, bv, i as int, j2, q, labels@, d)) by {
                        lemma_listed_push(r0, sorted, combo_line(av, bv, i as int, j2, q, labels@, d));
                    }
                    assert forall|t2: int| 0 <= t2 < t + 1 implies #[trigger] listed(r@, combo_line(av, bv, i as int, j as int, views(perms@[t2]@), labels@, d)) by {
                        if t2 < t {
                            lemma_listed_push(r0, sorted, combo_line(av, bv, i as int, j as int, views(perms@[t2]@), labels@, d));
                        }
                    }
                }
                t = t + 1;
            }
            proof {
                assert forall|j2: int, q: Seq<Seq<Label>>|
                    0 <= j2 < j + 1 && is_reordering(q, bv.remove(j2))
                        implies #[trigger] listed(r@, combo_line(av, bv, i as int, j2, q, labels@, d)) by {
                    if j2 == j {
                        assert(is_reordering(q, views(b_rest@)));
                        assert(listed(perms@, q));
                        let t2 = choose|t2: int| 0 <= t2 < perms@.len() && views(perms@[t2]@) == q;
                        assert(listed(r@, combo_line(av, bv, i as int, j as int, views(perms@[t2]@), labels@, d)));
                    }
                }
            }
            j = j + 1;
        }
        i = i + 1;
    }
    r
}

/// Each line is in normal form of degree `dd` and its positions are single labels of `labels`.
pub open spec fn single_label_lines(lines: Seq<Line>, dd: int, labels: Seq<Label>) -> bool {
    forall|i: int| 0 <= i < lines.len() ==> #[trigger] normal_line(lines[i]@, dd) && singletons_over(positions(lines[i]@), labels)
}

/// Adds `nl` to `cur` as `add_line_discarding` does, keeping the lines in normal form and
/// over `labels`, keeping an antichain, and keeping covered what was covered.
fn add_on(cur: &mut Vec<Line>, nl: Line, dd: usize, labels: &Vec<Label>, diagram: &Vec<(Label, Label)>) -> (added: bool)
    requires
        diagram_transitive(diagram@),
        single_label_lines(old(cur)@, dd as int, labels@),
        normal_line(nl@, dd as int),
        singletons_over(positions(nl@), labels@),
        is_antichain(Some(diagram@), lines_view(old(cur)@)),
    ensures
        single_label_lines(final(cur)@, dd as int, labels@),
        is_antichain(Some(diagram@), lines_view(final(cur)@)),
        covers(Some(diagram@), lines_view(final(cur)@), positions(nl@)),
        forall|x: Seq<Seq<Label>>| covers(Some(diagram@), lines_view(old(cur)@), x) ==> #[trigger] covers(Some(diagram@), lines_view(final(cur)@), x),
        !added ==> lines_view(final(cur)@) == lines_view(old(cur)@),
        added ==> !covers(Some(diagram@), lines_view(old(cur)@), positions(nl@)),
        forall|t: int| 0 <= t < final(cur)@.len() ==> (#[trigger] final(cur)@[t])@ == nl@ || lines_view(old(cur)@).contains(final(cur)@[t]@),
{
    let ghost dg = Some(diagram@);
    let ghost c0 = lines_view(cur@);
    let ghost nv = nl@;
    let added = add_line_discarding(cur, nl, Some(diagram));
    proof {
        lemma_add_discard(dg, c0, nv);
        lemma_add_discard_elements(dg, c0, nv);
        assert forall|i: int| 0 <= i < cur@.len() implies #[trigger] normal_line(cur@[i]@, dd as int) && singletons_over(positions(cur@[i]@), labels@) by {
            assert(lines_view(cur@)[i] == cur@[i]@);
            if lines_view(cur@)[i] != nv {
                let j = choose|j: int| 0 <= j < c0.len() && c0[j] == lines_view(cur@)[i];
                assert(c0[j] == old(cur)@[j]@);
            }
        }
        assert forall|t: int| 0 <= t < cur@.len() implies (#[trigger] cur@[t])@ == nl@ || c0.contains(cur@[t]@) by {
            assert(lines_view(cur@)[t] == cur@[t]@);
        }
        if added {
            assert forall|i: int| 0 <= i < c0.len() implies !#[trigger] included(dg, positions(nv), positions(c0[i])) by {
                assert(c0[i] == old(cur)@[i]@);
            }
        } else {
            let i = choose|i: int| 0 <= i < old(cur)@.len() && #[trigger] included(dg, positions(nv), positions(old(cur)@[i]@));
            assert(c0[i] == old(cur)@[i]@);
            assert(included(dg, positions(nv), positions(c0[i])));
            assert(add_discard(dg, c0, nv) == c0);
        }
    }
    added
}

/// The single-label lines of length `k` over `labels`.
pub open spec fn single_lines(labels: Seq<Label>, k: nat) -> Set<Seq<Seq<Label>>> {
    Set::new(|x: Seq<Seq<Label>>| x.len() == k && singletons_over(x, labels))
}

/// There are finitely many single-label lines of a given length.
pub proof fn lemma_single_lines_finite(labels: Seq<Label>, k: nat)
    ensures
        single_lines(labels, k).finite(),
    decreases k,
{
    if k == 0 {
        assert(single_lines(labels, 0).contains(Seq::<Seq<Label>>::empty()));
        assert forall|x: Seq<Seq<Label>>| single_lines(labels, 0).contains(x) implies x == Seq::<Seq<Label>>::empty() by {
            assert(x =~= Seq::<Seq<Label>>::empty());
        }
        assert(single_lines(labels, 0) =~= set![Seq::<Seq<Label>>::empty()]);
    } else {
        lemma_single_lines_finite(labels, (k - 1) as nat);
        let prev = single_lines(labels, (k - 1) as nat);
        let e = labels.to_set().map(|l: Label| seq![l]);
        labels.to_set().lemma_map_finite(|l: Label| seq![l]);
        let f = |x: Seq<Seq<Label>>| e.map(|g: Seq<Label>| x.push(g));
        prev.lemma_map_finite(f);
        assert forall|s2: Set<Seq<Seq<Label>>>| prev.map(f).contains(s2) implies #[trigger] s2.finite() by {
            let x = choose|x: Seq<Seq<Label>>| prev.contains(x) && f(x) == s2;
            e.lemma_map_finite(|g: Seq<Label>| x.push(g));
        }
        prev.map(f).lemma_flatten_finite();
        assert(single_lines(labels, k).subset_of(prev.map(f).flatten())) by {
            assert forall|x: Seq<Seq<Label>>| single_lines(labels, k).contains(x) implies prev.map(f).flatten().contains(x) by {
                let x0 = x.drop_last();
                assert(prev.contains(x0)) by {
                    assert forall|q: int| 0 <= q < x0.len() implies (#[trigger] x0[q]).len() == 1 && labels.contains(x0[q][0]) by {
                        assert(x0[q] == x[q]);
                    }
                }
                let l = x.last()[0];
                assert(x.last().len() == 1);
                assert(labels.contains(l));
                assert(labels.to_set().contains(l));
                assert(x.last() =~= seq![l]);
                assert(e.contains(x.last()));
                assert(x0.push(x.last()) =~= x);
                assert(f(x0).contains(x));
                assert(prev.map(f).contains(f(x0)));
            }
        }
        vstd::set_lib::lemma_set_subset_finite(prev.map(f).flatten(), single_lines(labels, k));
    }
}

/// The single-label lines of the universe `univ` that no line of `lines` includes.
pub open spec fn uncovered(univ: Set<Seq<Seq<Label>>>, d: Seq<(Label, Label)>, lines: Seq<Seq<PartV>>) -> Set<Seq<Seq<Label>>> {
    univ.filter(|x: Seq<Seq<Label>>| !covers(Some(d), lines, x))
}

/// Every combination of two lines of `lines` (see `combo_line`) is included in one of them.
pub open spec fn closed_on(lines: Seq<Line>, labels: Seq<Label>, d: Seq<(Label, Label)>, dd: int) -> bool {
    forall|i: int, j: int, ii: int, jj: int, q: Seq<Seq<Label>>|
        0 <= i < lines.len() && 0 <= j < lines.len() && 0 <= ii < dd && 0 <= jj < dd
            && is_reordering(q, positions(lines[j]@).remove(jj))
            ==> #[trigger] covers(Some(d), lines_view(lines), combo_line(positions(lines[i]@), positions(lines[j]@), ii, jj, q, labels, d))
}

/// Maximizes the single-label lines `lines` of degree `dd` on the diagram: pairs of lines are
/// combined (see `combine_on`) and lines that another line includes are discarded, until no
/// combination adds a line. The lines left form an antichain, each in normal form over
/// `labels`, every line given is included in one of them, and every combination of two of
/// them is included in one of them.
fn maximize_on(
    lines: &Vec<Line>,
    dd: usize,
    labels: &Vec<Label>,
    diagram: &Vec<(Label, Label)>,
    up: &Vec<Vec<Label>>,
    down: &Vec<Vec<Label>>,
) -> (r: Vec<Line>)
    requires
        dd >= 1,
        diagram_transitive(diagram@),
        is_join_table(up@, diagram@, labels@),
        is_join_table(down@, reversed(diagram@), labels@),
        single_label_lines(lines@, dd as int, labels@),
    ensures
        is_antichain(Some(diagram@), lines_view(r@)),
        single_label_lines(r@, dd as int, labels@),
        forall|k: int| 0 <= k < lines@.len() ==> covers(Some(diagram@), lines_view(r@), #[trigger] positions(lines@[k]@)),
        closed_on(r@, labels@, diagram@, dd as int),
        all_derivable(line_set(lines@), lines_view(r@), labels@, diagram@),
{
    let ghost dg = Some(diagram@);
    let ghost d = diagram@;
    let ghost univ = single_lines(labels@, dd as nat);
    proof {
        lemma_single_lines_finite(labels@, dd as nat);
    }
    let mut cur: Vec<Line> = Vec::new();
    let mut k: usize = 0;
    while k < lines.len()
        invariant
            k <= lines.len(),
            diagram_transitive(diagram@),
            dg == Some(diagram@),
            single_label_lines(lines@, dd as int, labels@),
            single_label_lines(cur@, dd as int, labels@),
            is_antichain(dg, lines_view(cur@)),
            all_derivable(line_set(lines@), lines_view(cur@), labels@, diagram@),
            forall|k2: int| 0 <= k2 < k ==> covers(dg, lines_view(cur@), #[trigger] positions(lines@[k2]@)),
        decreases lines.len() - k,
    {
        let nl = lines[k].copy();
        assert(normal_line(lines@[k as int]@, dd as int));
        let ghost cb = lines_view(cur@);
        add_on(&mut cur, nl, dd, labels, diagram);
        proof {
            assert(line_set(lines@).contains(positions(lines@[k as int]@)));
            lemma_derivable_in_base(line_set(lines@), positions(lines@[k as int]@), labels@, diagram@);
            assert forall|t: int| 0 <= t < lines_view(cur@).len()
                implies derivable(line_set(lines@), positions(#[trigger] lines_view(cur@)[t]), labels@, diagram@) by {
                assert(lines_view(cur@)[t] == cur@[t]@);
                if cur@[t]@ != nl@ {
                    let u = choose|u: int| 0 <= u < cb.len() && cb[u] == cur@[t]@;
                }
            }
            assert forall|k2: int| 0 <= k2 < k + 1 implies covers(dg, lines_view(cur@), #[trigger] positions(lines@[k2]@)) by {}
        }
        k = k + 1;
    }
    let mut changed = true;
    while changed
        invariant
            dd >= 1,
            diagram_transitive(diagram@),
            dg == Some(diagram@),
            d == diagram@,
            univ == single_lines(labels@, dd as nat),
            univ.finite(),
            is_join_table(up@, diagram@, labels@),
            is_join_table(down@, reversed(diagram@), labels@),
            single_label_lines(cur@, dd as int, labels@),
            is_antichain(dg, lines_view(cur@)),
            all_derivable(line_set(lines@), lines_view(cur@), labels@, diagram@),
            forall|k2: int| 0 <= k2 < lines@.len() ==> covers(dg, lines_view(cur@), #[trigger] positions(lines@[k2]@)),
            !changed ==> closed_on(cur@, labels@, d, dd as int),
        decreases (if changed { 1int } else { 0int }) + uncovered(univ, d, lines_view(cur@)).len(),
    {
        let ghost c0 = lines_view(cur@);
        let ghost u0 = uncovered(univ, d, c0);
        proof {
            vstd::set_lib::lemma_set_subset_finite(univ, u0);
        }
        changed = false;
        let snap = expand_all(&cur);
        let ghost sv = snap@;
        proof {
            assert forall|t: int| 0 <= t < sv.len() implies derivable(line_set(lines@), views((#[trigger] sv[t])@), labels@, diagram@) by {
                assert(lines_view(cur@)[t] == cur@[t]@);
            }
            assert forall|t: int| 0 <= t < snap@.len() implies (#[trigger] snap@[t])@.len() == dd && singletons_over(views(snap@[t]@), labels@) by {
                assert(normal_line(cur@[t]@, dd as int));
                assert(views(snap@[t]@).len() == snap@[t]@.len());
            }
        }
        let mut i: usize = 0;
        while i < snap.len()
            invariant
                dd >= 1,
                diagram_transitive(diagram@),
                dg == Some(diagram@),
                d == diagram@,
                univ == single_lines(labels@, dd as nat),
                univ.finite(),
                u0 == uncovered(univ, d, c0),
                u0.finite(),
                sv == snap@,
                forall|t: int| 0 <= t < sv.len() ==> derivable(line_set(lines@), views((#[trigger] sv[t])@), labels@, diagram@),
                is_join_table(up@, diagram@, labels@),
                is_join_table(down@, reversed(diagram@), labels@),
                forall|t: int| 0 <= t < snap@.len() ==> (#[trigger] snap@[t])@.len() == dd && singletons_over(views(snap@[t]@), labels@),
                i <= snap.len(),
                single_label_lines(cur@, dd as int, labels@),
                is_antichain(dg, lines_view(cur@)),
                all_derivable(line_set(lines@), lines_view(cur@), labels@, diagram@),
                forall|k2: int| 0 <= k2 < lines@.len() ==> covers(dg, lines_view(cur@), #[trigger] positions(lines@[k2]@)),
                !changed ==> lines_view(cur@) == c0,
                changed ==> uncovered(univ, d, lines_view(cur@)).len() < u0.len(),
                uncovered(univ, d, lines_view(cur@)).subset_of(u0),
                !changed ==> forall|i2: int, j2: int, ii: int, jj: int, q: Seq<Seq<Label>>|
                    0 <= i2 < i && 0 <= j2 < sv.len() && 0 <= ii < dd && 0 <= jj < dd && is_reordering(q, views(sv[j2]@).remove(jj))
                    ==> #[trigger] covers(dg, c0, combo_line(views(sv[i2]@), views(sv[j2]@), ii, jj, q, labels@, d)),
            decreases snap.len() - i,
        {
            let mut j: usize = 0;
            while j < snap.len()
                invariant
                    dd >= 1,
                    diagram_transitive(diagram@),
                    dg == Some(diagram@),
                    d == diagram@,
                    univ == single_lines(labels@, dd as nat),
                    univ.finite(),
                    u0 == uncovered(univ, d, c0),
                    u0.finite(),
                    sv == snap@,
                    forall|t: int| 0 <= t < sv.len() ==> derivable(line_set(lines@), views((#[trigger] sv[t])@), labels@, diagram@),
                    is_join_table(up@, diagram@, labels@),
                    is_join_table(down@, reversed(diagram@), labels@),
                    forall|t: int| 0 <= t < snap@.len() ==> (#[trigger] snap@[t])@.len() == dd && singletons_over(views(snap@[t]@), labels@),
                    i < snap.len(),
                    j <= snap.len(),
                    single_label_lines(cur@, dd as int, labels@),
                    is_antichain(dg, lines_view(cur@)),
                    all_derivable(line_set(lines@), lines_view(cur@), labels@, diagram@),
                    forall|k2: int| 0 <= k2 < lines@.len() ==> covers(dg, lines_view(cur@), #[trigger] positions(lines@[k2]@)),
                    !changed ==> lines_view(cur@) == c0,
                    changed ==> uncovered(univ, d, lines_view(cur@)).len() < u0.len(),
                    uncovered(univ, d, lines_view(cur@)).subset_of(u0),
                    !changed ==> forall|i2: int, j2: int, ii: int, jj: int, q: Seq<Seq<Label>>|
                        0 <= i2 < i && 0 <= j2 < sv.len() && 0 <= ii < dd && 0 <= jj < dd && is_reordering(q, views(sv[j2]@).remove(jj))
                        ==> #[trigger] covers(dg, c0, combo_line(views(sv[i2]@), views(sv[j2]@), ii, jj, q, labels@, d)),
                    !changed ==> forall|j2: int, ii: int, jj: int, q: Seq<Seq<Label>>|
                        0 <= j2 < j && 0 <= ii < dd && 0 <= jj < dd && is_reordering(q, views(sv[j2]@).remove(jj))
                        ==> #[trigger] covers(dg, c0, combo_line(views(sv[i as int]@), views(sv[j2]@), ii, jj, q, labels@, d)),
                decreases snap.len() - j,
            {
                let news = combine_on(&snap[i], &snap[j], labels, up, down, Ghost(diagram@));
                let ghost ai = views(snap@[i as int]@);
                let ghost bj = views(snap@[j as int]@);
                proof {
                    assert(derivable(line_set(lines@), views(sv[i as int]@), labels@, diagram@));
                    assert(derivable(line_set(lines@), views(sv[j as int]@), labels@, diagram@));
                }
                let mut t: usize = 0;
                while t < news.len()
                    invariant
                        dd >= 1,
                        diagram_transitive(diagram@),
                        dg == Some(diagram@),
                        d == diagram@,
                        univ == single_lines(labels@, dd as nat),
                        u0 == uncovered(univ, d, c0),
                        u0.finite(),
                        t <= news.len(),
                        derivable(line_set(lines@), ai, labels@, diagram@),
                        derivable(line_set(lines@), bj, labels@, diagram@),
                        forall|t2: int| 0 <= t2 < news@.len() ==> is_combination(views((#[trigger] news@[t2])@), ai, bj, labels@, diagram@),
                        forall|t2: int|
                            0 <= t2 < news@.len() ==> (#[trigger] news@[t2])@.len() == dd && singletons_over(views(news@[t2]@), labels@)
                                && sorted_lex(views(news@[t2]@)),
                        single_label_lines(cur@, dd as int, labels@),
                        is_antichain(dg, lines_view(cur@)),
                        all_derivable(line_set(lines@), lines_view(cur@), labels@, diagram@),
                        forall|k2: int| 0 <= k2 < lines@.len() ==> covers(dg, lines_view(cur@), #[trigger] positions(lines@[k2]@)),
                        !changed ==> lines_view(cur@) == c0,
                        changed ==> uncovered(univ, d, lines_view(cur@)).len() < u0.len(),
                        uncovered(univ, d, lines_view(cur@)).subset_of(u0),
                        !changed ==> forall|t2: int| 0 <= t2 < t ==> #[trigger] covers(dg, c0, views(news@[t2]@)),
                        !changed ==> forall|i2: int, j2: int, ii: int, jj: int, q: Seq<Seq<Label>>|
                            0 <= i2 < i && 0 <= j2 < sv.len() && 0 <= ii < dd && 0 <= jj < dd && is_reordering(q, views(sv[j2]@).remove(jj))
                            ==> #[trigger] covers(dg, c0, combo_line(views(sv[i2]@), views(sv[j2]@), ii, jj, q, labels@, d)),
                        !changed ==> forall|j2: int, ii: int, jj: int, q: Seq<Seq<Label>>|
                            0 <= j2 < j && 0 <= ii < dd && 0 <= jj < dd && is_reordering(q, views(sv[j2]@).remove(jj))
                            ==> #[trigger] covers(dg, c0, combo_line(views(sv[i as int]@), views(sv[j2]@), ii, jj, q, labels@, d)),
                    decreases news.len() - t,
                {
                    proof {
                        lemma_singletons_wf(views(news@[t as int]@), labels@);
                    }
                    let nl = Line::from_sorted_positions(&news[t]);
                    let ghost cb = lines_view(cur@);
                    let ghost ub = uncovered(univ, d, cb);
                    let added = add_on(&mut cur, nl, dd, labels, diagram);
                    proof {
                        assert(is_combination(views(news@[t as int]@), ai, bj, labels@, diagram@));
                        lemma_derivable_combination(line_set(lines@), ai, bj, views(news@[t as int]@), labels@, diagram@);
                        assert forall|t2: int| 0 <= t2 < lines_view(cur@).len()
                            implies derivable(line_set(lines@), positions(#[trigger] lines_view(cur@)[t2]), labels@, diagram@) by {
                            assert(lines_view(cur@)[t2] == cur@[t2]@);
                            if cur@[t2]@ != nl@ {
                                let u = choose|u: int| 0 <= u < cb.len() && cb[u] == cur@[t2]@;
                            }
                        }
                        let ca = lines_view(cur@);
                        let ua = uncovered(univ, d, ca);
                        assert(ua.subset_of(ub)) by {
                            assert forall|x: Seq<Seq<Label>>| ua.contains(x) implies ub.contains(x) by {
                                if covers(dg, cb, x) {
                                    assert(covers(dg, ca, x));
                                }
                            }
                        }
                        if added {
                            let px = positions(nl@);
                            assert(univ.contains(px));
                            assert(ub.contains(px));
                            assert(!ua.contains(px));
                            assert(ua.subset_of(ub.remove(px)));
                            vstd::set_lib::lemma_set_subset_finite(u0, ub);
                            vstd::set_lib::lemma_len_subset(ua, ub.remove(px));
                            vstd::set_lib::lemma_len_subset(ub, u0);
                        }
                        assert forall|k2: int| 0 <= k2 < lines@.len() implies covers(dg, lines_view(cur@), #[trigger] positions(lines@[k2]@)) by {
                            assert(covers(dg, cb, positions(lines@[k2]@)));
                        }
                        if !added && !changed {
                            assert forall|t2: int| 0 <= t2 < t + 1 implies #[trigger] covers(dg, c0, views(news@[t2]@)) by {
                                if t2 == t {
                                    assert(positions(nl@) == views(news@[t2]@));
                                    assert(ca == c0);
                                }
                            }
                        }
                    }
                    if added {
                        changed = true;
                    }
                    t = t + 1;
                }
                proof {
                    if !changed {
                        assert forall|j2: int, ii: int, jj: int, q: Seq<Seq<Label>>|
                            0 <= j2 < j + 1 && 0 <= ii < dd && 0 <= jj < dd && is_reordering(q, views(sv[j2]@).remove(jj))
                            implies #[trigger] covers(dg, c0, combo_line(views(sv[i as int]@), views(sv[j2]@), ii, jj, q, labels@, d)) by {
                            if j2 == j {
                                assert(listed(news@, combo_line(views(sv[i as int]@), views(sv[j2]@), ii, jj, q, labels@, d)));
                                let t2 = choose|t2: int| 0 <= t2 < news@.len() && views(news@[t2]@) == combo_line(views(sv[i as int]@), views(sv[j2]@), ii, jj, q, labels@, d);
                                assert(covers(dg, c0, views(news@[t2]@)));
                            }
                        }
                    }
                }
                j = j + 1;
            }
            i = i + 1;
        }
        proof {
            if !changed {
                assert(closed_on(cur@, labels@, d, dd as int)) by {
                    assert forall|i2: int, j2: int, ii: int, jj: int, q: Seq<Seq<Label>>|
                        0 <= i2 < cur@.len() && 0 <= j2 < cur@.len() && 0 <= ii < dd && 0 <= jj < dd
                            && is_reordering(q, positions(cur@[j2]@).remove(jj))
                        implies #[trigger] covers(Some(d), lines_view(cur@), combo_line(positions(cur@[i2]@), positions(cur@[j2]@), ii, jj, q, labels@, d)) by {
                        assert(lines_view(cur@) == c0);
                        assert(cur@.len() == sv.len());
                        assert(c0[i2] == cur@[i2]@);
                        assert(c0[j2] == cur@[j2]@);
                        assert(views(sv[i2]@) == positions(c0[i2]));
                        assert(views(sv[j2]@) == positions(c0[j2]));
                        assert(covers(dg, c0, combo_line(views(sv[i2]@), views(sv[j2]@), ii, jj, q, labels@, d)));
                    }
                }
            }
        }
    }
    cur
}

/// The line with the positions of `l` in sorted order.
fn sorted_line(l: &Line, Ghost(labels): Ghost<Seq<Label>>) -> (r: Line)
    requires
        singletons_over(positions(l@), labels),
    ensures
        line_wf(r@),
        sorted_lex(positions(r@)),
        singletons_over(positions(r@), labels),
        is_reordering(positions(r@), positions(l@)),
{
    let pos = l.expand();
    let ghost pv = views(pos@);
    let sorted = sort_lex(pos);
    proof {
        assert forall|k: int| 0 <= k < sorted@.len() implies (#[trigger] views(sorted@)[k]).len() == 1
            && labels.contains(views(sorted@)[k][0]) by {
            assert(pv.contains(views(sorted@)[k]));
        }
        lemma_singletons_wf(views(sorted@), labels);
    }
    Line::from_sorted_positions(&sorted)
}

/// Maximizes a constraint whose groups are single labels of `labels` on the diagram
/// `diagram_indirect` (transitive): the union of two labels is their least common successor,
/// their intersection their least common predecessor (see `combine_on`). Fails when two labels
/// lack one of them. The lines of the result form an antichain in the order of the diagram,
/// each in normal form with single labels of `labels`, every line of `constraint` is
/// included in one of them, and so is every combination of two of them (see `closed_on`);
/// each of them comes from reorderings of lines of `constraint` by repeated combination
/// (see `derivable`).
pub fn procedure(constraint: &Constraint, labels: &Vec<Label>, diagram_indirect: &Vec<(Label, Label)>) -> (r: Result<Constraint, &'static str>)
    requires
        constraint.wf(),
        diagram_transitive(diagram_indirect@),
        forall|i: int| 0 <= i < constraint.lines@.len() ==> singletons_over(positions(#[trigger] constraint.lines@[i]@), labels@),
    ensures
        r is Err <==> !lattice_ok(diagram_indirect@, labels@),
        r matches Ok(c) ==> {
            &&& c.wf()
            &&& c.degree == constraint.degree
            &&& c.is_maximized
            &&& is_antichain(Some(diagram_indirect@), lines_view(c.lines@))
            &&& single_label_lines(c.lines@, constraint.degree->Finite_0 as int, labels@)
            &&& forall|k: int| 0 <= k < constraint.lines@.len()
                ==> covers(Some(diagram_indirect@), lines_view(c.lines@), #[trigger] positions(constraint.lines@[k]@))
            &&& closed_on(c.lines@, labels@, diagram_indirect@, constraint.degree->Finite_0 as int)
            &&& all_derivable(reordered_set(constraint.lines@), lines_view(c.lines@), labels@, diagram_indirect@)
        },
{
    let up = join_table(labels, diagram_indirect);
    let rev = reverse_edges(diagram_indirect);
    let down = join_table(labels, &rev);
    if up.is_none() || down.is_none() {
        proof {
            let ls = labels@;
            if up.is_none() {
                let (i, j) = choose|i: int, j: int| 0 <= i < ls.len() && 0 <= j < ls.len()
                    && !#[trigger] has_least_above(diagram_indirect@, ls, ls[i], ls[j]);
                assert(ls.contains(ls[i]) && ls.contains(ls[j]));
            } else {
                let (i, j) = choose|i: int, j: int| 0 <= i < ls.len() && 0 <= j < ls.len()
                    && !#[trigger] has_least_above(rev@, ls, ls[i], ls[j]);
                assert(ls.contains(ls[i]) && ls.contains(ls[j]));
            }
        }
        return Err("The diagram does not satisfy the requirements");
    }
    let up = up.unwrap();
    let down = down.unwrap();
    proof {
        lemma_tables_lattice_ok(diagram_indirect@, labels@, up@, down@);
    }
    let dd: usize = match constraint.degree {
        Degree::Finite(x) => x,
        Degree::Star => 0,
    };
    let ghost d = diagram_indirect@;
    let mut norm: Vec<Line> = Vec::new();
    let mut i: usize = 0;
    while i < constraint.lines.len()
        invariant
            i <= constraint.lines.len(),
            constraint.wf(),
            constraint.degree == Degree::Finite(dd),
            forall|i2: int| 0 <= i2 < constraint.lines@.len() ==> singletons_over(positions(#[trigger] constraint.lines@[i2]@), labels@),
            norm@.len() == i,
            single_label_lines(norm@, dd as int, labels@),
            forall|k: int| 0 <= k < i ==> #[trigger] is_reordering(positions(norm@[k]@), positions(constraint.lines@[k]@)),
        decreases constraint.lines.len() - i,
    {
        let nl = sorted_line(&constraint.lines[i], Ghost(labels@));
        proof {
            lemma_singletons_wf(positions(nl@), labels@);
            let inv = choose|inv: Seq<int>| #[trigger] reorders(positions(nl@), positions(constraint.lines@[i as int]@), inv);
            assert(positions(constraint.lines@[i as int]@).len() == dd);
        }
        let ghost n0 = norm@;
        norm.push(nl);
        proof {
            assert(normal_line(nl@, dd as int));
            assert forall|k: int| 0 <= k < norm@.len() implies #[trigger] normal_line(norm@[k]@, dd as int) && singletons_over(positions(norm@[k]@), labels@) by {
                if k < n0.len() {
                    assert(norm@[k] == n0[k]);
                }
            }
        }
        i = i + 1;
    }
    let lines = maximize_on(&norm, dd, labels, diagram_indirect, &up, &down);
    proof {
        assert forall|k: int| 0 <= k < constraint.lines@.len()
            implies covers(Some(d), lines_view(lines@), #[trigger] positions(constraint.lines@[k]@)) by {
            assert(covers(Some(d), lines_view(lines@), positions(norm@[k]@)));
            let j = choose|j: int| 0 <= j < lines_view(lines@).len() && #[trigger] included(Some(d), positions(norm@[k]@), positions(lines_view(lines@)[j]));
            assert(is_reordering(positions(norm@[k]@), positions(constraint.lines@[k]@)));
            let inv = choose|inv: Seq<int>| #[trigger] reorders(positions(norm@[k]@), positions(constraint.lines@[k]@), inv);
            lemma_included_reorder_small(Some(d), positions(constraint.lines@[k]@), positions(norm@[k]@), inv, positions(lines_view(lines@)[j]));
        }
        assert(line_set(norm@).subset_of(reordered_set(constraint.lines@))) by {
            assert forall|x: Seq<Seq<Label>>| line_set(norm@).contains(x) implies reordered_set(constraint.lines@).contains(x) by {
                let k = choose|k: int| 0 <= k < norm@.len() && positions(#[trigger] norm@[k]@) == x;
                assert(is_reordering(positions(norm@[k]@), positions(constraint.lines@[k]@)));
            }
        }
        assert forall|t: int| 0 <= t < lines_view(lines@).len()
            implies derivable(reordered_set(constraint.lines@), positions(#[trigger] lines_view(lines@)[t]), labels@, d) by {
            lemma_derivable_base(line_set(norm@), reordered_set(constraint.lines@), positions(lines_view(lines@)[t]), labels@, d);
        }
        assert forall|i2: int| 0 <= i2 < lines@.len() implies line_wf(#[trigger] lines@[i2]@) && positions(lines@[i2]@).len() == dd by {
            assert(normal_line(lines@[i2]@, dd as int));
        }
    }
    Ok(Constraint { lines, is_maximized: true, degree: constraint.degree })
}

} // verus!
