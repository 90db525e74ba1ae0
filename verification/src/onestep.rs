//! One step of the fixpoint computation: every line is split into its choices of single
//! labels, the labels are renamed into the labels of a diagram, and both constraints are
//! maximized on that diagram (see `procedure`).
use vstd::prelude::*;
use crate::labels::{Label, views, sorted_strict, sorted_lex, sort_lex, insert_sorted, lemma_sorted_set_eq, lex_order, lemma_sorted_lex_is_sort, reorders};
use crate::line::{Line, Part, Group, GroupType, PartV, positions, part_positions, positions_wf, line_wf, part_wf, included, reaches, lemma_positions_prefix, copy_labels};
use crate::constraint::{Constraint, Degree, lines_view, labels_in, pos_has, is_antichain, covers, normal_line};
use crate::procedure::{singletons_over, single_label_lines, procedure, lemma_singletons_wf, closed_on, combo_line};
use crate::procedure::{all_derivable, derivable, derived_in, is_combination, reordered_set, lemma_derivable_base};
use crate::labels::is_reordering;
use crate::lattice::lemma_same_edges_least_above;
use crate::lattice::{closure, closure_seq, lemma_closure_seq, same_edges, lemma_same_edges_included, lemma_same_edges_lattice_ok,
    lemma_same_edges_reaches, lemma_reversed_transitive, reversed, reverse_edges, lattice_ok, upset, upset_group, upset_exec};
use crate::problem::{Problem, mapping_labels};
use crate::fixpoint::{FixpointDiagram, too_many_sets, dup_all, set_views, group_sets, max_label, fits_labels, doubling, lemma_dup_all_len, max_label_exec};
use crate::triviality::family;
use crate::lattice::{in_closure, closed_over, is_closure_of, least_above, has_least_above, lowest, common_above, lemma_reversed_contains};
use crate::fixpoint::{diagram_closures, right_closed, lemma_default_sets_are_right_closed, superset_edge};

verus! {

/// `c` picks one label of each position of `p`.
pub open spec fn is_choice(c: Seq<Label>, p: Seq<Seq<Label>>) -> bool {
    &&& c.len() == p.len()
    &&& forall|k: int| 0 <= k < p.len() ==> p[k].contains(#[trigger] c[k])
}

/// Some vector of `v` holds `s`.
pub open spec fn appears(v: Seq<Vec<Label>>, s: Seq<Label>) -> bool {
    exists|u: int| 0 <= u < v.len() && v[u]@ == s
}

/// Every way of picking one label of each position of `p`.
pub fn choices_of(p: &Vec<Vec<Label>>) -> (r: Vec<Vec<Label>>)
    ensures
        forall|t: int| 0 <= t < r@.len() ==> is_choice(#[trigger] r@[t]@, views(p@)),
        forall|c: Seq<Label>| #[trigger] is_choice(c, views(p@)) ==> exists|t: int| 0 <= t < r@.len() && r@[t]@ == c,
{
    let ghost pv = views(p@);
    let mut cur: Vec<Vec<Label>> = Vec::new();
    cur.push(Vec::new());
    proof {
        assert forall|c: Seq<Label>| #[trigger] is_choice(c, pv.subrange(0, 0)) implies exists|t: int| 0 <= t < cur@.len() && cur@[t]@ == c by {
            assert(c =~= cur@[0]@);
        }
    }
    let mut k: usize = 0;
    while k < p.len()
        invariant
            k <= p.len(),
            pv == views(p@),
            forall|t: int| 0 <= t < cur@.len() ==> is_choice(#[trigger] cur@[t]@, pv.subrange(0, k as int)),
            forall|c: Seq<Label>| #[trigger] is_choice(c, pv.subrange(0, k as int)) ==> exists|t: int| 0 <= t < cur@.len() && cur@[t]@ == c,
        decreases p.len() - k,
    {
        let ghost sub = pv.subrange(0, k as int);
        let ghost sub1 = pv.subrange(0, k + 1);
        assert(pv[k as int] == p@[k as int]@);
        let mut next: Vec<Vec<Label>> = Vec::new();
        let mut t: usize = 0;
        while t < cur.len()
            invariant
                k < p.len(),
                pv == views(p@),
                sub == pv.subrange(0, k as int),
                sub1 == pv.subrange(0, k + 1),
                pv[k as int] == p@[k as int]@,
                t <= cur.len(),
                forall|t2: int| 0 <= t2 < cur@.len() ==> is_choice(#[trigger] cur@[t2]@, sub),
                forall|t2: int| 0 <= t2 < next@.len() ==> is_choice(#[trigger] next@[t2]@, sub1),
                forall|t2: int, m: int| 0 <= t2 < t && 0 <= m < pv[k as int].len() ==> #[trigger] appears(next@, cur@[t2]@.push(pv[k as int][m])),
            decreases cur.len() - t,
        {
            let mut m: usize = 0;
            while m < p[k].len()
                invariant
                    k < p.len(),
                    pv == views(p@),
                    sub == pv.subrange(0, k as int),
                    sub1 == pv.subrange(0, k + 1),
                    pv[k as int] == p@[k as int]@,
                    t < cur.len(),
                    m <= p@[k as int]@.len(),
                    forall|t2: int| 0 <= t2 < cur@.len() ==> is_choice(#[trigger] cur@[t2]@, sub),
                    forall|t2: int| 0 <= t2 < next@.len() ==> is_choice(#[trigger] next@[t2]@, sub1),
                    forall|t2: int, m2: int| 0 <= t2 < t && 0 <= m2 < pv[k as int].len() ==> #[trigger] appears(next@, cur@[t2]@.push(pv[k as int][m2])),
                    forall|m2: int| 0 <= m2 < m ==> #[trigger] appears(next@, cur@[t as int]@.push(pv[k as int][m2])),
                decreases p@[k as int]@.len() - m,
            {
                let mut c = cur[t].clone();
                c.push(p[k][m]);
                let ghost n0 = next@;
                proof {
                    let old_c = cur@[t as int]@;
                    assert(c@ == old_c.push(pv[k as int][m as int]));
                    assert(is_choice(old_c, sub));
                    assert(is_choice(c@, sub1)) by {
                        assert forall|q: int| 0 <= q < sub1.len() implies sub1[q].contains(#[trigger] c@[q]) by {
                            if q < k {
                                assert(sub1[q] == sub[q]);
                                assert(c@[q] == old_c[q]);
                            } else {
                                assert(sub1[q] == pv[k as int]);
                                assert(pv[k as int].contains(pv[k as int][m as int]));
                            }
                        }
                    }
                }
                next.push(c);
                proof {
                    assert(next@[n0.len() as int] == c);
                    assert forall|t2: int| 0 <= t2 < next@.len() implies is_choice(#[trigger] next@[t2]@, sub1) by {
                        if t2 < n0.len() {
                            assert(next@[t2] == n0[t2]);
                        }
                    }
                    assert forall|t2: int, m2: int| 0 <= t2 < t && 0 <= m2 < pv[k as int].len() implies #[trigger] appears(next@, cur@[t2]@.push(pv[k as int][m2])) by {
                        assert(appears(n0, cur@[t2]@.push(pv[k as int][m2])));
                        let u = choose|u: int| 0 <= u < n0.len() && n0[u]@ == cur@[t2]@.push(pv[k as int][m2]);
                        assert(next@[u] == n0[u]);
                    }
                    assert forall|m2: int| 0 <= m2 < m + 1 implies #[trigger] appears(next@, cur@[t as int]@.push(pv[k as int][m2])) by {
                        if m2 < m {
                            assert(appears(n0, cur@[t as int]@.push(pv[k as int][m2])));
                            let u = choose|u: int| 0 <= u < n0.len() && n0[u]@ == cur@[t as int]@.push(pv[k as int][m2]);
                            assert(next@[u] == n0[u]);
                        } else {
                            assert(next@[n0.len() as int]@ == cur@[t as int]@.push(pv[k as int][m2]));
                        }
                    }
                }
                m = m + 1;
            }
            t = t + 1;
        }
        proof {
            assert forall|c: Seq<Label>| #[trigger] is_choice(c, sub1) implies exists|u: int| 0 <= u < next@.len() && next@[u]@ == c by {
                let c0 = c.drop_last();
                assert(is_choice(c0, sub)) by {
                    assert forall|q: int| 0 <= q < sub.len() implies sub[q].contains(#[trigger] c0[q]) by {
                        assert(sub[q] == sub1[q]);
                        assert(c0[q] == c[q]);
                    }
                }
                let t2 = choose|t2: int| 0 <= t2 < cur@.len() && cur@[t2]@ == c0;
                assert(sub1[k as int] == pv[k as int]);
                assert(pv[k as int].contains(c[k as int]));
                let m2 = choose|m2: int| 0 <= m2 < pv[k as int].len() && pv[k as int][m2] == c[k as int];
                assert(c0.push(c[k as int]) =~= c);
                assert(cur@[t2]@.push(pv[k as int][m2]) == c);
                assert(appears(next@, cur@[t2]@.push(pv[k as int][m2])));
            }
        }
        cur = next;
        k = k + 1;
    }
    proof {
        assert(pv.subrange(0, p.len() as int) =~= pv);
    }
    cur
}

/// The new label of `x`: the value of the last entry of `m` for `x`.
pub open spec fn new_label_of(m: Seq<(Label, Label)>, x: Label) -> Label
    decreases m.len(),
{
    if m.len() == 0 {
        0
    } else if m.last().0 == x {
        m.last().1
    } else {
        new_label_of(m.drop_last(), x)
    }
}

/// Some entry of `m` is for `x`.
pub open spec fn has_key(m: Seq<(Label, Label)>, x: Label) -> bool {
    exists|i: int| 0 <= i < m.len() && m[i].0 == x
}

/// The new label of `x` (see `new_label_of`).
pub fn new_label_exec(m: &Vec<(Label, Label)>, x: Label) -> (r: Label)
    requires
        has_key(m@, x),
    ensures
        r == new_label_of(m@, x),
{
    let mut i: usize = m.len();
    assert(m@.subrange(0, m.len() as int) =~= m@);
    while i > 0
        invariant
            i <= m.len(),
            new_label_of(m@, x) == new_label_of(m@.subrange(0, i as int), x),
            has_key(m@.subrange(0, i as int), x),
        decreases i,
    {
        let ghost s = m@.subrange(0, i as int);
        assert(s.last() == m@[i - 1]);
        if m[i - 1].0 == x {
            return m[i - 1].1;
        }
        assert(s.drop_last() =~= m@.subrange(0, i - 1));
        proof {
            let k = choose|k: int| 0 <= k < s.len() && s[k].0 == x;
            assert(k < i - 1);
            assert(m@.subrange(0, i - 1)[k] == s[k]);
        }
        i = i - 1;
    }
    proof {
        let k = choose|k: int| 0 <= k < m@.subrange(0, 0).len() && m@.subrange(0, 0)[k].0 == x;
    }
    0
}

/// The choice `c`, each label renamed into its new label as its own position.
pub open spec fn renamed(m: Seq<(Label, Label)>, c: Seq<Label>) -> Seq<Seq<Label>> {
    c.map_values(|x: Label| seq![new_label_of(m, x)])
}

/// The line with one part of multiplicity one for each of the positions `pos`.
fn line_of_positions(pos: &Vec<Vec<Label>>) -> (r: Line)
    requires
        positions_wf(views(pos@)),
    ensures
        line_wf(r@),
        positions(r@) == views(pos@),
{
    let mut parts: Vec<Part> = Vec::new();
    let mut i: usize = 0;
    while i < pos.len()
        invariant
            i <= pos.len(),
            positions_wf(views(pos@)),
            parts@.len() == i,
            line_wf(parts@.map_values(|p: Part| p@)),
            positions(parts@.map_values(|p: Part| p@)) == views(pos@).subrange(0, i as int),
        decreases pos.len() - i,
    {
        let ghost pv0 = parts@.map_values(|p: Part| p@);
        let g = copy_labels(&pos[i]);
        let part = Part { gtype: GroupType::Many(1), group: Group(g) };
        parts.push(part);
        proof {
            let pv = parts@.map_values(|p: Part| p@);
            assert(pv =~= pv0.push(part@));
            assert(pv.drop_last() =~= pv0);
            assert(views(pos@)[i as int] == pos@[i as int]@);
            assert(part_positions(part@) =~= seq![g@]);
            assert(positions(pv) =~= positions(pv0) + seq![g@]);
            assert(views(pos@).subrange(0, i + 1) =~= views(pos@).subrange(0, i as int).push(views(pos@)[i as int]));
            assert forall|k: int| 0 <= k < pv.len() implies part_wf(#[trigger] pv[k]) by {
                if k < i {
                    assert(pv[k] == pv0[k]);
                } else {
                    assert(crate::labels::sorted_strict(views(pos@)[i as int]));
                }
            }
        }
        i = i + 1;
    }
    let r = Line { parts };
    assert(views(pos@).subrange(0, pos.len() as int) =~= views(pos@));
    r
}

/// Some line of `lines` has the positions `p`.
pub open spec fn has_line_with(lines: Seq<Line>, p: Seq<Seq<Label>>) -> bool {
    exists|t: int| 0 <= t < lines.len() && positions(lines[t]@) == p
}

/// The lines of every choice of every line of `c`, renamed by `m` (see `renamed`).
fn renamed_choice_lines(c: &Constraint, m: &Vec<(Label, Label)>, Ghost(nl): Ghost<Seq<Label>>) -> (r: Vec<Line>)
    requires
        c.wf(),
        forall|x: Label| #[trigger] labels_in(lines_view(c.lines@)).contains(x) ==> has_key(m@, x) && nl.contains(new_label_of(m@, x)),
    ensures
        forall|t: int| 0 <= t < r@.len() ==> line_wf(#[trigger] r@[t]@) && positions(r@[t]@).len() == c.degree->Finite_0
            && singletons_over(positions(r@[t]@), nl),
        forall|k: int, ch: Seq<Label>| 0 <= k < c.lines@.len() && #[trigger] is_choice(ch, positions(c.lines@[k]@))
            ==> has_line_with(r@, renamed(m@, ch)),
        forall|t: int| 0 <= t < r@.len() ==> renamed_choices(c.lines@, m@).contains(positions((#[trigger] r@[t])@)),
{
    let mut r: Vec<Line> = Vec::new();
    let mut i: usize = 0;
    while i < c.lines.len()
        invariant
            i <= c.lines.len(),
            c.wf(),
            forall|x: Label| #[trigger] labels_in(lines_view(c.lines@)).contains(x) ==> has_key(m@, x) && nl.contains(new_label_of(m@, x)),
            forall|t: int| 0 <= t < r@.len() ==> line_wf(#[trigger] r@[t]@) && positions(r@[t]@).len() == c.degree->Finite_0
                && singletons_over(positions(r@[t]@), nl),
            forall|k: int, ch: Seq<Label>| 0 <= k < i && #[trigger] is_choice(ch, positions(c.lines@[k]@))
                ==> has_line_with(r@, renamed(m@, ch)),
            forall|t: int| 0 <= t < r@.len() ==> renamed_choices(c.lines@, m@).contains(positions((#[trigger] r@[t])@)),
        decreases c.lines.len() - i,
    {
        let pos = c.lines[i].expand();
        let cs = choices_of(&pos);
        let ghost pv = positions(c.lines@[i as int]@);
        let ghost r_start = r@;
        let mut t: usize = 0;
        while t < cs.len()
            invariant
                i < c.lines.len(),
                t <= cs.len(),
                c.wf(),
                pv == positions(c.lines@[i as int]@),
                views(pos@) == pv,
                forall|x: Label| #[trigger] labels_in(lines_view(c.lines@)).contains(x) ==> has_key(m@, x) && nl.contains(new_label_of(m@, x)),
                forall|t2: int| 0 <= t2 < cs@.len() ==> is_choice(#[trigger] cs@[t2]@, pv),
                forall|t2: int| 0 <= t2 < r@.len() ==> line_wf(#[trigger] r@[t2]@) && positions(r@[t2]@).len() == c.degree->Finite_0
                    && singletons_over(positions(r@[t2]@), nl),
                r_start.len() <= r@.len(),
                forall|t2: int| 0 <= t2 < r_start.len() ==> r@[t2] == r_start[t2],
                forall|t2: int| 0 <= t2 < t ==> has_line_with(r@, #[trigger] renamed(m@, cs@[t2]@)),
                forall|t2: int| 0 <= t2 < r@.len() ==> renamed_choices(c.lines@, m@).contains(positions((#[trigger] r@[t2])@)),
            decreases cs.len() - t,
        {
            let ch = &cs[t];
            let mut mapped: Vec<Vec<Label>> = Vec::new();
            let mut k: usize = 0;
            proof {
                assert(is_choice(ch@, pv));
                assert(pv.len() == c.degree->Finite_0);
            }
            while k < ch.len()
                invariant
                    i < c.lines.len(),
                    k <= ch@.len(),
                    is_choice(ch@, pv),
                    pv == positions(c.lines@[i as int]@),
                    forall|x: Label| #[trigger] labels_in(lines_view(c.lines@)).contains(x) ==> has_key(m@, x) && nl.contains(new_label_of(m@, x)),
                    views(mapped@) == renamed(m@, ch@.subrange(0, k as int)),
                decreases ch.len() - k,
            {
                proof {
                    assert(pv[k as int].contains(ch@[k as int]));
                    assert(lines_view(c.lines@)[i as int] == c.lines@[i as int]@);
                    assert(pos_has(positions(lines_view(c.lines@)[i as int]), ch@[k as int]));
                    assert(labels_in(lines_view(c.lines@)).contains(ch@[k as int]));
                }
                let x = new_label_exec(m, ch[k]);
                let mut g: Vec<Label> = Vec::new();
                g.push(x);
                let ghost m0 = views(mapped@);
                mapped.push(g);
                proof {
                    assert(g@ =~= seq![x]);
                    assert(views(mapped@) =~= m0.push(seq![x]));
                    assert(renamed(m@, ch@.subrange(0, k + 1)) =~= renamed(m@, ch@.subrange(0, k as int)).push(seq![x]));
                }
                k = k + 1;
            }
            proof {
                assert(ch@.subrange(0, ch@.len() as int) =~= ch@);
                let rn = renamed(m@, ch@);
                assert forall|q: int| 0 <= q < rn.len() implies (#[trigger] rn[q]).len() == 1 && nl.contains(rn[q][0]) by {
                    assert(pv[q].contains(ch@[q]));
                    assert(lines_view(c.lines@)[i as int] == c.lines@[i as int]@);
                    assert(pos_has(positions(lines_view(c.lines@)[i as int]), ch@[q]));
                    assert(labels_in(lines_view(c.lines@)).contains(ch@[q]));
                    assert(rn[q] == seq![new_label_of(m@, ch@[q])]);
                }
                lemma_singletons_wf(rn, nl);
            }
            let line = line_of_positions(&mapped);
            let ghost r0 = r@;
            r.push(line);
            proof {
                assert(positions(r@[r0.len() as int]@) == renamed(m@, cs@[t as int]@));
                assert(is_choice(cs@[t as int]@, positions(c.lines@[i as int]@)));
                assert(renamed_choices(c.lines@, m@).contains(positions(r@[r0.len() as int]@)));
                assert forall|t2: int| 0 <= t2 < r@.len() implies renamed_choices(c.lines@, m@).contains(positions((#[trigger] r@[t2])@)) by {
                    if t2 < r0.len() {
                        assert(r@[t2] == r0[t2]);
                    }
                }
                assert forall|t2: int| 0 <= t2 < t + 1 implies has_line_with(r@, #[trigger] renamed(m@, cs@[t2]@)) by {
                    if t2 < t {
                        let u = choose|u: int| 0 <= u < r0.len() && positions(r0[u]@) == renamed(m@, cs@[t2]@);
                        assert(r@[u] == r0[u]);
                    }
                }
                assert forall|t2: int| 0 <= t2 < r@.len() implies line_wf(#[trigger] r@[t2]@) && positions(r@[t2]@).len() == c.degree->Finite_0
                    && singletons_over(positions(r@[t2]@), nl) by {
                    if t2 < r0.len() {
                        assert(r@[t2] == r0[t2]);
                    }
                }
            }
            t = t + 1;
        }
        proof {
            assert forall|k: int, ch: Seq<Label>| 0 <= k < i + 1 && #[trigger] is_choice(ch, positions(c.lines@[k]@))
                implies has_line_with(r@, renamed(m@, ch)) by {
                if k < i {
                    assert(has_line_with(r_start, renamed(m@, ch)));
                    let u = choose|u: int| 0 <= u < r_start.len() && positions(r_start[u]@) == renamed(m@, ch);
                    assert(r@[u] == r_start[u]);
                } else {
                    let t2 = choose|t2: int| 0 <= t2 < cs@.len() && cs@[t2]@ == ch;
                    assert(has_line_with(r@, renamed(m@, cs@[t2]@)));
                }
            }
        }
        i = i + 1;
    }
    r
}

/// The positions `p`, each single label replaced by the labels it reaches in `d`, in sorted
/// order.
pub open spec fn upset_line(d: Seq<(Label, Label)>, labels: Seq<Label>, p: Seq<Seq<Label>>) -> Seq<Seq<Label>> {
    p.map_values(|g: Seq<Label>| upset_group(d, labels, g[0])).sort_by(lex_order())
}

/// Each line with every single label replaced by the labels it reaches in `d` (see
/// `upset_line`).
fn upset_lines(lines: &Vec<Line>, labels: &Vec<Label>, d: &Vec<(Label, Label)>, dd: usize) -> (r: Vec<Line>)
    requires
        single_label_lines(lines@, dd as int, labels@),
    ensures
        r@.len() == lines@.len(),
        forall|i: int| 0 <= i < r@.len() ==> #[trigger] positions(r@[i]@) == upset_line(d@, labels@, positions(lines@[i]@))
            && line_wf(r@[i]@) && positions(r@[i]@).len() == dd,
{
    let mut r: Vec<Line> = Vec::new();
    let mut i: usize = 0;
    while i < lines.len()
        invariant
            i <= lines.len(),
            single_label_lines(lines@, dd as int, labels@),
            r@.len() == i,
            forall|i2: int| 0 <= i2 < r@.len() ==> #[trigger] positions(r@[i2]@) == upset_line(d@, labels@, positions(lines@[i2]@))
                && line_wf(r@[i2]@) && positions(r@[i2]@).len() == dd,
        decreases lines.len() - i,
    {
        let pos = lines[i].expand();
        let ghost pv = views(pos@);
        proof {
            assert(normal_line(lines@[i as int]@, dd as int));
            assert(singletons_over(positions(lines@[i as int]@), labels@));
        }
        let mut up: Vec<Vec<Label>> = Vec::new();
        let mut k: usize = 0;
        while k < pos.len()
            invariant
                k <= pos.len(),
                pv == views(pos@),
                singletons_over(pv, labels@),
                views(up@) == pv.subrange(0, k as int).map_values(|g: Seq<Label>| upset_group(d@, labels@, g[0])),
                positions_wf(views(up@)),
            decreases pos.len() - k,
        {
            assert(pv[k as int] == pos@[k as int]@);
            assert(pv[k as int].len() == 1);
            let g = upset_exec(labels, d, pos[k][0]);
            let ghost u0 = views(up@);
            up.push(g);
            proof {
                assert(views(up@) =~= u0.push(g@));
                assert(pv.subrange(0, k + 1).map_values(|g: Seq<Label>| upset_group(d@, labels@, g[0]))
                    =~= pv.subrange(0, k as int).map_values(|g: Seq<Label>| upset_group(d@, labels@, g[0])).push(upset_group(d@, labels@, pv[k as int][0])));
                assert forall|q: int| 0 <= q < views(up@).len() implies crate::labels::sorted_strict(#[trigger] views(up@)[q]) by {
                    if q < k {
                        assert(views(up@)[q] == u0[q]);
                    }
                }
            }
            k = k + 1;
        }
        let ghost uv = views(up@);
        assert(pv.subrange(0, pos.len() as int) =~= pv);
        let sorted = sort_lex(up);
        proof {
            lemma_sorted_lex_is_sort(views(sorted@), uv);
            assert forall|q: int| 0 <= q < views(sorted@).len() implies crate::labels::sorted_strict(#[trigger] views(sorted@)[q]) by {
                assert(uv.contains(views(sorted@)[q]));
            }
            let inv = choose|inv: Seq<int>| #[trigger] reorders(views(sorted@), uv, inv) && forall|t: int| 0 <= t < uv.len() ==> #[trigger] crate::labels::is_hit(inv, uv.len() as int, t);
            assert(views(sorted@).len() == uv.len());
        }
        let line = Line::from_sorted_positions(&sorted);
        let ghost r0 = r@;
        r.push(line);
        proof {
            assert forall|i2: int| 0 <= i2 < r@.len() implies #[trigger] positions(r@[i2]@) == upset_line(d@, labels@, positions(lines@[i2]@))
                && line_wf(r@[i2]@) && positions(r@[i2]@).len() == dd by {
                if i2 < r0.len() {
                    assert(r@[i2] == r0[i2]);
                }
            }
        }
        i = i + 1;
    }
    r
}

/// The renamed choices of the lines `orig`: `renamed(m, c)` for each choice `c` of a line.
pub open spec fn renamed_choices(orig: Seq<Line>, m: Seq<(Label, Label)>) -> Set<Seq<Seq<Label>>> {
    Set::new(|x: Seq<Seq<Label>>| exists|k: int, c: Seq<Label>|
        0 <= k < orig.len() && #[trigger] is_choice(c, positions(orig[k]@)) && x == renamed(m, c))
}

/// The reorderings of the lines of `s`.
pub open spec fn reorderings(s: Set<Seq<Seq<Label>>>) -> Set<Seq<Seq<Label>>> {
    Set::new(|x: Seq<Seq<Label>>| exists|y: Seq<Seq<Label>>| #[trigger] s.contains(y) && is_reordering(x, y))
}

/// `lines` is what maximizing the renamed choices of the lines `orig` on the diagram `d`
/// gives: an antichain of single-label lines of degree `deg` over `labels` in which every
/// renamed choice of every line of `orig` is included, and every combination of two of its
/// lines (see `closed_on`); each of its lines comes from reorderings of renamed choices by
/// repeated combination (see `derivable`).
pub open spec fn maximized_choices(
    lines: Seq<Line>,
    orig: Seq<Line>,
    m: Seq<(Label, Label)>,
    d: Seq<(Label, Label)>,
    labels: Seq<Label>,
    deg: int,
) -> bool {
    &&& is_antichain(Some(d), lines_view(lines))
    &&& single_label_lines(lines, deg, labels)
    &&& forall|k: int, c: Seq<Label>| 0 <= k < orig.len() && #[trigger] is_choice(c, positions(orig[k]@))
        ==> covers(Some(d), lines_view(lines), renamed(m, c))
    &&& closed_on(lines, labels, d, deg)
    &&& all_derivable(reorderings(renamed_choices(orig, m)), lines_view(lines), labels, d)
}

/// What one step of the fixpoint computation gives from the problem `orig`, with the
/// renaming `m`, the new labels and texts `texts`, and the transitive diagram `d` on them:
/// the active side maximized on `d`, the passive side maximized on the turned-around
/// diagram (`before`) and then each label replaced by the labels it reaches in `d`.
pub open spec fn onestep_result(
    p: Problem,
    before: Constraint,
    orig: Problem,
    m: Seq<(Label, Label)>,
    texts: Seq<(Label, String)>,
    d: Seq<(Label, Label)>,
) -> bool {
    let labels = mapping_labels(texts);
    &&& p.mapping_label_text@ == texts
    &&& p.active.wf()
    &&& p.active.degree == orig.active.degree
    &&& p.active.is_maximized
    &&& maximized_choices(p.active.lines@, orig.active.lines@, m, d, labels, orig.active.degree->Finite_0 as int)
    &&& before.wf()
    &&& before.degree == orig.passive.degree
    &&& before.is_maximized
    &&& maximized_choices(before.lines@, orig.passive.lines@, m, reversed(d), labels, orig.passive.degree->Finite_0 as int)
    &&& p.passive.wf()
    &&& p.passive.degree == orig.passive.degree
    &&& !p.passive.is_maximized
    &&& p.passive.lines@.len() == before.lines@.len()
    &&& forall|i: int| 0 <= i < before.lines@.len() ==> #[trigger] positions(p.passive.lines@[i]@) == upset_line(d, labels, positions(before.lines@[i]@))
    &&& p.mapping_label_oldlabels is None
    &&& p.trivial_sets is None
    &&& p.diagram_indirect is None
    &&& p.diagram_direct is None
    &&& p.fixpoint_diagram is None
}

/// Every label of the problem's lines has a new label in `m` that is one of `labels`.
pub open spec fn renames_into(p: Problem, m: Seq<(Label, Label)>, labels: Seq<Label>) -> bool {
    &&& forall|x: Label| #[trigger] labels_in(lines_view(p.active.lines@)).contains(x) ==> has_key(m, x) && labels.contains(new_label_of(m, x))
    &&& forall|x: Label| #[trigger] labels_in(lines_view(p.passive.lines@)).contains(x) ==> has_key(m, x) && labels.contains(new_label_of(m, x))
}

/// Combinations on diagrams with the same edges are alike.
proof fn lemma_combo_same_edges(a: Seq<Seq<Label>>, b: Seq<Seq<Label>>, i: int, j: int, q: Seq<Seq<Label>>, labels: Seq<Label>, d1: Seq<(Label, Label)>, d2: Seq<(Label, Label)>)
    requires
        same_edges(d1, d2),
    ensures
        combo_line(a, b, i, j, q, labels, d1) == combo_line(a, b, i, j, q, labels, d2),
{
    lemma_same_edges_reaches(d1, d2);
    lemma_same_edges_least_above(d1, d2, labels);
    lemma_same_edges_least_above(reversed(d1), reversed(d2), labels);
    let rest = a.remove(i);
    assert(least_above(d1, labels, a[i][0], b[j][0]) == least_above(d2, labels, a[i][0], b[j][0]));
    assert(Seq::new(rest.len(), |k: int| seq![least_above(reversed(d1), labels, rest[k][0], q[k][0])])
        =~= Seq::new(rest.len(), |k: int| seq![least_above(reversed(d2), labels, rest[k][0], q[k][0])])) by {
        assert forall|k: int| 0 <= k < rest.len() implies #[trigger] least_above(reversed(d1), labels, rest[k][0], q[k][0])
            == least_above(reversed(d2), labels, rest[k][0], q[k][0]) by {}
    }
}

/// Derivations on diagrams with the same edges are alike.
proof fn lemma_derived_same_edges(
    base: Set<Seq<Seq<Label>>>,
    n: nat,
    x: Seq<Seq<Label>>,
    labels: Seq<Label>,
    d1: Seq<(Label, Label)>,
    d2: Seq<(Label, Label)>,
)
    requires
        same_edges(d1, d2),
        derived_in(base, n, x, labels, d1),
    ensures
        derived_in(base, n, x, labels, d2),
    decreases n,
{
    if n > 0 {
        if derived_in(base, (n - 1) as nat, x, labels, d1) {
            lemma_derived_same_edges(base, (n - 1) as nat, x, labels, d1, d2);
        } else {
            let (a, b) = choose|a: Seq<Seq<Label>>, b: Seq<Seq<Label>>|
                derived_in(base, (n - 1) as nat, a, labels, d1) && derived_in(base, (n - 1) as nat, b, labels, d1)
                    && #[trigger] is_combination(x, a, b, labels, d1);
            lemma_derived_same_edges(base, (n - 1) as nat, a, labels, d1, d2);
            lemma_derived_same_edges(base, (n - 1) as nat, b, labels, d1, d2);
            let (i, j, q) = choose|i: int, j: int, q: Seq<Seq<Label>>|
                #![trigger combo_line(a, b, i, j, q, labels, d1)]
                0 <= i < a.len() && 0 <= j < b.len() && is_reordering(q, b.remove(j)) && x == combo_line(a, b, i, j, q, labels, d1);
            lemma_combo_same_edges(a, b, i, j, q, labels, d1, d2);
            assert(is_combination(x, a, b, labels, d2));
        }
    }
}

/// Results of `procedure` on diagrams with the same edges are alike.
proof fn lemma_maximized_same_edges(lines: Seq<Line>, orig: Seq<Line>, m: Seq<(Label, Label)>, d1: Seq<(Label, Label)>, d2: Seq<(Label, Label)>, labels: Seq<Label>, deg: int)
    requires
        same_edges(d1, d2),
        is_antichain(Some(d1), lines_view(lines)),
        single_label_lines(lines, deg, labels),
        forall|k: int, c: Seq<Label>| 0 <= k < orig.len() && #[trigger] is_choice(c, positions(orig[k]@))
            ==> covers(Some(d1), lines_view(lines), renamed(m, c)),
        closed_on(lines, labels, d1, deg),
        all_derivable(reorderings(renamed_choices(orig, m)), lines_view(lines), labels, d1),
    ensures
        maximized_choices(lines, orig, m, d2, labels, deg),
{
    lemma_same_edges_included(d1, d2);
    let base = reorderings(renamed_choices(orig, m));
    assert forall|t: int| 0 <= t < lines_view(lines).len()
        implies derivable(base, positions(#[trigger] lines_view(lines)[t]), labels, d2) by {
        let x = positions(lines_view(lines)[t]);
        let n = choose|n: nat| #[trigger] derived_in(base, n, x, labels, d1);
        lemma_derived_same_edges(base, n, x, labels, d1, d2);
    }
    assert forall|i: int, j: int, ii: int, jj: int, q: Seq<Seq<Label>>|
        0 <= i < lines.len() && 0 <= j < lines.len() && 0 <= ii < deg && 0 <= jj < deg
            && is_reordering(q, positions(lines[j]@).remove(jj))
        implies #[trigger] covers(Some(d2), lines_view(lines), combo_line(positions(lines[i]@), positions(lines[j]@), ii, jj, q, labels, d2)) by {
        let a = positions(lines[i]@);
        let b = positions(lines[j]@);
        lemma_combo_same_edges(a, b, ii, jj, q, labels, d1, d2);
        let x = combo_line(a, b, ii, jj, q, labels, d1);
        assert(covers(Some(d1), lines_view(lines), x));
        let w = choose|w: int| 0 <= w < lines_view(lines).len() && #[trigger] included(Some(d1), x, positions(lines_view(lines)[w]));
        assert(included(Some(d2), x, positions(lines_view(lines)[w])));
    }
    let lv = lines_view(lines);
    assert forall|i: int, j: int| 0 <= i < lv.len() && 0 <= j < lv.len() && i != j implies !#[trigger] included(Some(d2), positions(lv[i]), positions(lv[j])) by {
        assert(!included(Some(d1), positions(lv[i]), positions(lv[j])));
    }
    assert forall|k: int, c: Seq<Label>| 0 <= k < orig.len() && #[trigger] is_choice(c, positions(orig[k]@))
        implies covers(Some(d2), lv, renamed(m, c)) by {
        assert(covers(Some(d1), lv, renamed(m, c)));
        let i = choose|i: int| 0 <= i < lv.len() && #[trigger] included(Some(d1), renamed(m, c), positions(lv[i]));
        assert(included(Some(d2), renamed(m, c), positions(lv[i])));
    }
}

impl Problem {
    /// One step of the fixpoint computation. Every line is split into its choices of single
    /// labels, renamed by `mapping_label_newlabel` into the labels of `mapping_newlabel_text`;
    /// the active side is maximized (see `procedure`) on the transitive closure of `diagram`,
    /// the passive side on the turned-around closure, and then every label of the passive
    /// side is replaced by the labels it reaches. Returns the new problem, whose texts are
    /// `mapping_newlabel_text`, and the passive side before that replacement; fails when two
    /// new labels lack a least common successor or predecessor in the closure.
    pub fn fixpoint_onestep(
        &self,
        mapping_label_newlabel: &Vec<(Label, Label)>,
        mapping_newlabel_text: &Vec<(Label, String)>,
        diagram: &Vec<(Label, Label)>,
    ) -> (r: Result<(Problem, Constraint), &'static str>)
        requires
            self.wf(),
            renames_into(*self, mapping_label_newlabel@, mapping_labels(mapping_newlabel_text@)),
        ensures
            r is Err <==> !lattice_ok(closure_seq(diagram@), mapping_labels(mapping_newlabel_text@)),
            r matches Ok((p, before)) ==> onestep_result(p, before, *self, mapping_label_newlabel@, mapping_newlabel_text@, closure_seq(diagram@)),
    {
        let ghost nl = mapping_labels(mapping_newlabel_text@);
        let ghost m = mapping_label_newlabel@;
        let ghost c = closure_seq(diagram@);
        let mut newlabels: Vec<Label> = Vec::new();
        let mut i: usize = 0;
        while i < mapping_newlabel_text.len()
            invariant
                i <= mapping_newlabel_text.len(),
                nl == mapping_labels(mapping_newlabel_text@),
                newlabels@ == nl.subrange(0, i as int),
            decreases mapping_newlabel_text.len() - i,
        {
            newlabels.push(mapping_newlabel_text[i].0);
            assert(newlabels@ =~= nl.subrange(0, i + 1));
            i = i + 1;
        }
        assert(newlabels@ =~= nl);
        let d = closure(diagram);
        proof {
            lemma_closure_seq(diagram@, d@);
            lemma_reversed_transitive(d@);
            lemma_same_edges_lattice_ok(d@, c, nl);
            lemma_same_edges_reaches(d@, c);
        }
        let active_choices = renamed_choice_lines(&self.active, mapping_label_newlabel, Ghost(nl));
        let active_c = Constraint { lines: active_choices, is_maximized: false, degree: self.active.degree };
        let active = match procedure(&active_c, &newlabels, &d) {
            Ok(a) => a,
            Err(e) => {
                return Err(e);
            },
        };
        let rev = reverse_edges(&d);
        let passive_choices = renamed_choice_lines(&self.passive, mapping_label_newlabel, Ghost(nl));
        let passive_c = Constraint { lines: passive_choices, is_maximized: false, degree: self.passive.degree };
        let before = match procedure(&passive_c, &newlabels, &rev) {
            Ok(b) => b,
            Err(e) => {
                proof {
                    lemma_same_edges_lattice_ok(d@, c, nl);
                }
                return Err(e);
            },
        };
        let dd: usize = match self.passive.degree {
            Degree::Finite(x) => x,
            Degree::Star => 0,
        };
        let plines = upset_lines(&before.lines, &newlabels, &d, dd);
        let passive_copy = Constraint { lines: plines, is_maximized: false, degree: self.passive.degree };
        let before_copy = before;
        proof {
            // the results on the computed closure are those on any sequence of its edges
            assert forall|k: int, ch: Seq<Label>| 0 <= k < self.active.lines@.len() && #[trigger] is_choice(ch, positions(self.active.lines@[k]@))
                implies covers(Some(d@), lines_view(active.lines@), renamed(m, ch)) by {
                let t = choose|t: int| 0 <= t < active_c.lines@.len() && positions(active_c.lines@[t]@) == renamed(m, ch);
                assert(covers(Some(d@), lines_view(active.lines@), positions(active_c.lines@[t]@)));
            }
            assert(reordered_set(active_c.lines@).subset_of(reorderings(renamed_choices(self.active.lines@, m)))) by {
                assert forall|x: Seq<Seq<Label>>| reordered_set(active_c.lines@).contains(x)
                    implies reorderings(renamed_choices(self.active.lines@, m)).contains(x) by {
                    let k = choose|k: int| 0 <= k < active_c.lines@.len() && is_reordering(x, positions(#[trigger] active_c.lines@[k]@));
                    assert(renamed_choices(self.active.lines@, m).contains(positions(active_c.lines@[k]@)));
                }
            }
            assert forall|t: int| 0 <= t < lines_view(active.lines@).len()
                implies derivable(reorderings(renamed_choices(self.active.lines@, m)), positions(#[trigger] lines_view(active.lines@)[t]), nl, d@) by {
                lemma_derivable_base(reordered_set(active_c.lines@), reorderings(renamed_choices(self.active.lines@, m)),
                    positions(lines_view(active.lines@)[t]), nl, d@);
            }
            lemma_maximized_same_edges(active.lines@, self.active.lines@, m, d@, c, nl, self.active.degree->Finite_0 as int);
            assert forall|k: int, ch: Seq<Label>| 0 <= k < self.passive.lines@.len() && #[trigger] is_choice(ch, positions(self.passive.lines@[k]@))
                implies covers(Some(rev@), lines_view(before_copy.lines@), renamed(m, ch)) by {
                let t = choose|t: int| 0 <= t < passive_c.lines@.len() && positions(passive_c.lines@[t]@) == renamed(m, ch);
                assert(covers(Some(rev@), lines_view(before_copy.lines@), positions(passive_c.lines@[t]@)));
            }
            assert(reordered_set(passive_c.lines@).subset_of(reorderings(renamed_choices(self.passive.lines@, m)))) by {
                assert forall|x: Seq<Seq<Label>>| reordered_set(passive_c.lines@).contains(x)
                    implies reorderings(renamed_choices(self.passive.lines@, m)).contains(x) by {
                    let k = choose|k: int| 0 <= k < passive_c.lines@.len() && is_reordering(x, positions(#[trigger] passive_c.lines@[k]@));
                    assert(renamed_choices(self.passive.lines@, m).contains(positions(passive_c.lines@[k]@)));
                }
            }
            assert forall|t: int| 0 <= t < lines_view(before_copy.lines@).len()
                implies derivable(reorderings(renamed_choices(self.passive.lines@, m)), positions(#[trigger] lines_view(before_copy.lines@)[t]), nl, rev@) by {
                lemma_derivable_base(reordered_set(passive_c.lines@), reorderings(renamed_choices(self.passive.lines@, m)),
                    positions(lines_view(before_copy.lines@)[t]), nl, rev@);
            }
            lemma_maximized_same_edges(before_copy.lines@, self.passive.lines@, m, rev@, reversed(c), nl, self.passive.degree->Finite_0 as int);
            assert forall|i2: int| 0 <= i2 < before_copy.lines@.len() implies #[trigger] positions(passive_copy.lines@[i2]@) == upset_line(c, nl, positions(before_copy.lines@[i2]@)) by {
                let pv = positions(before_copy.lines@[i2]@);
                assert(pv.map_values(|g: Seq<Label>| upset_group(d@, nl, g[0])) =~= pv.map_values(|g: Seq<Label>| upset_group(c, nl, g[0]))) by {
                    assert forall|q: int| 0 <= q < pv.len() implies upset_group(d@, nl, #[trigger] pv[q][0]) == upset_group(c, nl, pv[q][0]) by {
                        assert(upset(d@, nl, pv[q][0]) =~= upset(c, nl, pv[q][0]));
                    }
                }
            }
            assert forall|i2: int| 0 <= i2 < passive_copy.lines@.len() implies line_wf(#[trigger] passive_copy.lines@[i2]@)
                && positions(passive_copy.lines@[i2]@).len() == passive_copy.degree->Finite_0 by {
                assert(positions(passive_copy.lines@[i2]@) == upset_line(d@, nl, positions(before_copy.lines@[i2]@)));
                assert(self.passive.degree == Degree::Finite(dd));
            }
        }
        let p = Problem {
            active,
            passive: passive_copy,
            mapping_label_text: crate::fixpoint::copy_texts(mapping_newlabel_text),
            mapping_label_oldlabels: None,
            trivial_sets: None,
            diagram_indirect: None,
            diagram_direct: None,
            fixpoint_diagram: None,
        };
        Ok((p, before_copy))
    }
}

/// The entry of `m` that gives `x` its new label.
pub proof fn lemma_new_label_entry(m: Seq<(Label, Label)>, x: Label)
    requires
        has_key(m, x),
    ensures
        exists|j: int| 0 <= j < m.len() && m[j] == (x, new_label_of(m, x)),
    decreases m.len(),
{
    if m.last().0 == x {
        assert(m[m.len() - 1] == (x, new_label_of(m, x)));
    } else {
        let k = choose|k: int| 0 <= k < m.len() && m[k].0 == x;
        assert(m.drop_last()[k].0 == x);
        lemma_new_label_entry(m.drop_last(), x);
        let j = choose|j: int| 0 <= j < m.drop_last().len() && m.drop_last()[j] == (x, new_label_of(m.drop_last(), x));
        assert(m[j] == m.drop_last()[j]);
    }
}

/// A fixpoint diagram renames every label of a problem whose labels are its original labels.
pub proof fn lemma_derived_renames(fd: FixpointDiagram, p: Problem)
    requires
        fd.wf(),
        fd.mapping_label_newlabel@.len() == fd.orig_labels@.len(),
        forall|i: int| 0 <= i < fd.orig_labels@.len() ==> (#[trigger] fd.mapping_label_newlabel@[i]).0 == fd.orig_labels@[i],
        forall|x: Label| #[trigger] labels_in(lines_view(p.active.lines@)).contains(x) ==> fd.orig_labels@.contains(x),
        forall|x: Label| #[trigger] labels_in(lines_view(p.passive.lines@)).contains(x) ==> fd.orig_labels@.contains(x),
    ensures
        renames_into(p, fd.mapping_label_newlabel@, mapping_labels(fd.mapping_newlabel_text@)),
{
    let m = fd.mapping_label_newlabel@;
    let nl = mapping_labels(fd.mapping_newlabel_text@);
    assert forall|x: Label| fd.orig_labels@.contains(x) implies has_key(m, x) && nl.contains(new_label_of(m, x)) by {
        let i = choose|i: int| 0 <= i < fd.orig_labels@.len() && fd.orig_labels@[i] == x;
        assert(m[i].0 == x);
        lemma_new_label_entry(m, x);
        let j = choose|j: int| 0 <= j < m.len() && m[j] == (x, new_label_of(m, x));
        let v = m[j].1;
        assert(v < fd.mapping_newlabel_text@.len());
        assert(fd.mapping_newlabel_text@[v as int].0 == v);
        assert(nl[v as int] == v);
    }
}

/// The transitive closure of a transitive diagram with no two opposite edges has its edges.
pub proof fn lemma_closure_of_order(e: Seq<(Label, Label)>)
    requires
        crate::constraint::diagram_transitive(e),
        forall|a: Label, b: Label| #[trigger] e.contains((a, b)) ==> !e.contains((b, a)),
    ensures
        same_edges(closure_seq(e), e),
{
    let r = Set::new(|p: (Label, Label)| e.contains(p));
    assert(closed_over(r, e)) by {
        assert forall|x: Label, y: Label, z: Label| #[trigger] r.contains((x, y)) && #[trigger] r.contains((y, z)) implies r.contains((x, z)) by {
            if x == z {
                assert(!e.contains((y, x)));
            }
        }
    }
    let c = closure_seq(e);
    assert(exists|s: Seq<(Label, Label)>| #[trigger] is_closure_of(s, e)) by {
        assert forall|a: Label, b: Label| #[trigger] e.contains((a, b)) == in_closure(e, a, b) by {
            if e.contains((a, b)) {
                let j = choose|j: int| 0 <= j < e.len() && e[j] == (a, b);
                crate::lattice::lemma_edge_in_closure(e, j);
            }
            if in_closure(e, a, b) {
                assert(r.contains((a, b)));
            }
        }
        assert(is_closure_of(e, e));
    }
    assert(is_closure_of(c, e));
    assert forall|a: Label, b: Label| #[trigger] c.contains((a, b)) == e.contains((a, b)) by {
        if e.contains((a, b)) {
            let j = choose|j: int| 0 <= j < e.len() && e[j] == (a, b);
            crate::lattice::lemma_edge_in_closure(e, j);
        }
        if in_closure(e, a, b) {
            assert(r.contains((a, b)));
        }
    }
}

/// What one step gives on diagrams with the same edges is alike.
pub proof fn lemma_onestep_same_edges(
    p: Problem,
    b: Constraint,
    orig: Problem,
    m: Seq<(Label, Label)>,
    texts: Seq<(Label, String)>,
    d1: Seq<(Label, Label)>,
    d2: Seq<(Label, Label)>,
)
    requires
        same_edges(d1, d2),
        onestep_result(p, b, orig, m, texts, d1),
    ensures
        onestep_result(p, b, orig, m, texts, d2),
{
    let labels = mapping_labels(texts);
    lemma_same_edges_reaches(d1, d2);
    lemma_maximized_same_edges(p.active.lines@, orig.active.lines@, m, d1, d2, labels, orig.active.degree->Finite_0 as int);
    lemma_maximized_same_edges(b.lines@, orig.passive.lines@, m, reversed(d1), reversed(d2), labels, orig.passive.degree->Finite_0 as int);
    assert forall|i: int| 0 <= i < b.lines@.len() implies #[trigger] positions(p.passive.lines@[i]@) == upset_line(d2, labels, positions(b.lines@[i]@)) by {
        let pv = positions(b.lines@[i]@);
        assert(pv.map_values(|g: Seq<Label>| upset_group(d1, labels, g[0])) =~= pv.map_values(|g: Seq<Label>| upset_group(d2, labels, g[0]))) by {
            assert forall|q: int| 0 <= q < pv.len() implies upset_group(d1, labels, #[trigger] pv[q][0]) == upset_group(d2, labels, pv[q][0]) by {
                assert(upset(d1, labels, pv[q][0]) =~= upset(d2, labels, pv[q][0]));
            }
        }
    }
}

/// In a default fixpoint diagram (see `is_default_for`), a label reaches another exactly
/// when the set of the first includes the set of the second, and distinct labels have
/// distinct sets.
proof fn lemma_default_order(fd: FixpointDiagram, labels: Seq<Label>, d: Seq<(Label, Label)>, m: Seq<(Label, String)>)
    requires
        fd.is_default_for(labels, d, m),
    ensures
        forall|x: Label| #[trigger] mapping_labels(fd.mapping_newlabel_text@).contains(x) <==> (x as int) < fd.rightclosed@.len(),
        forall|a: Label, c: Label| (a as int) < fd.rightclosed@.len() && (c as int) < fd.rightclosed@.len() ==>
            (#[trigger] reaches(fd.diagram@, a, c) <==> views(fd.rightclosed@)[c as int].to_set().subset_of(views(fd.rightclosed@)[a as int].to_set())),
        forall|a: Label, c: Label| (a as int) < fd.rightclosed@.len() && (c as int) < fd.rightclosed@.len()
            && #[trigger] views(fd.rightclosed@)[a as int].to_set() == #[trigger] views(fd.rightclosed@)[c as int].to_set() ==> a == c,
{
    let rc = views(fd.rightclosed@);
    let nl = mapping_labels(fd.mapping_newlabel_text@);
    assert forall|x: Label| #[trigger] nl.contains(x) <==> (x as int) < rc.len() by {
        if nl.contains(x) {
            let i = choose|i: int| 0 <= i < nl.len() && nl[i] == x;
            assert(fd.mapping_newlabel_text@[i].0 == i);
        }
        if (x as int) < rc.len() {
            assert(fd.mapping_newlabel_text@[x as int].0 == x);
            assert(nl[x as int] == x);
        }
    }
    assert forall|a: Label, c: Label| (a as int) < rc.len() && (c as int) < rc.len() && #[trigger] rc[a as int].to_set() == #[trigger] rc[c as int].to_set()
        implies a == c by {
        crate::labels::lemma_sorted_set_eq(rc[a as int], rc[c as int]);
        crate::labels::lemma_lex_total(rc[a as int], rc[a as int]);
        if a < c {
            assert(crate::labels::lex_lt(rc[a as int], rc[c as int]));
        } else if c < a {
            assert(crate::labels::lex_lt(rc[c as int], rc[a as int]));
        }
    }
    assert forall|a: Label, c: Label| (a as int) < rc.len() && (c as int) < rc.len() implies
        (#[trigger] reaches(fd.diagram@, a, c) <==> rc[c as int].to_set().subset_of(rc[a as int].to_set())) by {
        if a != c && rc[c as int].to_set().subset_of(rc[a as int].to_set()) {
            assert(superset_edge(rc, a, c));
        }
        if fd.diagram@.contains((a, c)) {
            assert(superset_edge(rc, a, c));
        }
    }
}

/// The default fixpoint diagram always has least common successors and predecessors: its
/// labels stand for the right-closed sets, a label reaching the labels of its subsets, and
/// the intersection and the union of two right-closed sets are right-closed.
pub proof fn lemma_default_lattice(fd: FixpointDiagram, labels: Seq<Label>, d: Seq<(Label, Label)>, m: Seq<(Label, String)>)
    requires
        fd.is_default_for(labels, d, m),
        crate::constraint::diagram_transitive(d),
        forall|a: Label, b: Label| #[trigger] d.contains((a, b)) ==> labels.contains(b),
    ensures
        lattice_ok(fd.diagram@, mapping_labels(fd.mapping_newlabel_text@)),
{
    let rc = views(fd.rightclosed@);
    let nl = mapping_labels(fd.mapping_newlabel_text@);
    let e = fd.diagram@;
    let cls = diagram_closures(labels, d);
    let n = rc.len();
    lemma_default_order(fd, labels, d, m);
    lemma_reversed_contains(e);
    assert forall|a: Label| (a as int) < n implies #[trigger] rc[a as int].to_set().subset_of(labels.to_set())
        && right_closed(rc[a as int].to_set(), labels, cls) by {
        assert(family(rc).contains(rc[a as int].to_set()));
        lemma_default_sets_are_right_closed(fd, labels, d, m, rc[a as int].to_set());
    }
    assert forall|a: Label, b: Label| nl.contains(a) && nl.contains(b) implies #[trigger] has_least_above(e, nl, a, b) by {
        let sa = rc[a as int].to_set();
        let sb = rc[b as int].to_set();
        let i = sa.intersect(sb);
        assert((a as int) < n && (b as int) < n);
        assert(family(rc).contains(sa));
        assert(family(rc).contains(sb));
        lemma_default_sets_are_right_closed(fd, labels, d, m, sa);
        lemma_default_sets_are_right_closed(fd, labels, d, m, sb);
        assert(i.subset_of(labels.to_set()));
        assert(right_closed(i, labels, cls));
        lemma_default_sets_are_right_closed(fd, labels, d, m, i);
        let k = choose|k: int| 0 <= k < rc.len() && (#[trigger] rc[k]).to_set() == i;
        let c0 = k as Label;
        assert(nl.contains(c0));
        let ca = common_above(e, nl, a, b);
        assert(reaches(e, a, c0) && reaches(e, b, c0));
        assert(ca.contains(c0));
        assert(lowest(e, ca) =~= set![c0]) by {
            assert forall|c: Label| lowest(e, ca).contains(c) implies c == c0 by {
                assert(reaches(e, a, c) && reaches(e, b, c));
                assert(rc[c as int].to_set().subset_of(i));
                assert(reaches(e, c0, c));
            }
            assert forall|l: Label| #[trigger] ca.contains(l) && l != c0 implies !reaches(e, l, c0) by {
                assert(reaches(e, a, l) && reaches(e, b, l));
                if reaches(e, l, c0) {
                    assert(rc[l as int].to_set() =~= rc[c0 as int].to_set());
                }
            }
        }
    }
    assert forall|a: Label, b: Label| nl.contains(a) && nl.contains(b) implies #[trigger] has_least_above(reversed(e), nl, a, b) by {
        let sa = rc[a as int].to_set();
        let sb = rc[b as int].to_set();
        let u = sa.union(sb);
        assert((a as int) < n && (b as int) < n);
        assert(family(rc).contains(sa));
        assert(family(rc).contains(sb));
        lemma_default_sets_are_right_closed(fd, labels, d, m, sa);
        lemma_default_sets_are_right_closed(fd, labels, d, m, sb);
        assert(u.subset_of(labels.to_set()));
        assert(right_closed(u, labels, cls));
        lemma_default_sets_are_right_closed(fd, labels, d, m, u);
        let k = choose|k: int| 0 <= k < rc.len() && (#[trigger] rc[k]).to_set() == u;
        let c0 = k as Label;
        assert(nl.contains(c0));
        let r = reversed(e);
        assert forall|x: Label, y: Label| (x as int) < n && (y as int) < n implies
            (#[trigger] reaches(r, x, y) <==> rc[x as int].to_set().subset_of(rc[y as int].to_set())) by {
            assert(reaches(r, x, y) == reaches(e, y, x));
        }
        let ca = common_above(r, nl, a, b);
        assert(reaches(r, a, c0) && reaches(r, b, c0));
        assert(ca.contains(c0));
        assert(lowest(r, ca) =~= set![c0]) by {
            assert forall|c: Label| lowest(r, ca).contains(c) implies c == c0 by {
                assert(reaches(r, a, c) && reaches(r, b, c));
                assert(u.subset_of(rc[c as int].to_set()));
                assert(reaches(r, c0, c));
            }
            assert forall|l: Label| #[trigger] ca.contains(l) && l != c0 implies !reaches(r, l, c0) by {
                assert(reaches(r, a, l) && reaches(r, b, l));
                if reaches(r, l, c0) {
                    assert(rc[l as int].to_set() =~= rc[c0 as int].to_set());
                }
            }
        }
    }
}

/// Keeping the default fixpoint diagram in the problem (as
/// `compute_default_fixpoint_diagram` with no labels does) changes nothing: whatever the
/// fixpoint computation gives with the kept diagram, it may give without it.
pub proof fn lemma_kept_default_diagram(p: Problem, p2: Problem, q: Problem, d: Seq<(Label, Label)>, m: Seq<(Label, Label)>)
    requires
        p.fixpoint_diagram is None,
        p2.active == p.active,
        p2.passive == p.passive,
        p2.mapping_label_text == p.mapping_label_text,
        p2.diagram_indirect == p.diagram_indirect,
        p2.fixpoint_diagram matches Some((l, fd)) && l is None && fd.is_default_for(
            mapping_labels(p.mapping_label_text@),
            p.diagram_indirect->Some_0@,
            p.mapping_label_text@,
        ),
        fixpoint_result(q, d, m, p2, None),
    ensures
        fixpoint_result(q, d, m, p, None),
{
    let (b, fd) = choose|b: FixpointDiagram, fd: FixpointDiagram|
        #[trigger] is_base_diagram(b, p2) && #[trigger] fixpoint_by(q, d, m, fd, p2) && fd == b;
    let bb = choose|bb: Constraint| #[trigger] onestep_result(q, bb, p2, fd.mapping_label_newlabel@, fd.mapping_newlabel_text@, fd.diagram@);
    assert(onestep_result(q, bb, p, fd.mapping_label_newlabel@, fd.mapping_newlabel_text@, fd.diagram@));
    assert(fixpoint_by(q, d, m, fd, p));
    assert(is_base_diagram(b, p));
}

/// The labels of the problem's lines are original labels of the fixpoint diagram.
pub open spec fn labels_within(p: Problem, fd: FixpointDiagram) -> bool {
    &&& forall|x: Label| #[trigger] labels_in(lines_view(p.active.lines@)).contains(x) ==> fd.orig_labels@.contains(x)
    &&& forall|x: Label| #[trigger] labels_in(lines_view(p.passive.lines@)).contains(x) ==> fd.orig_labels@.contains(x)
}

/// The result `(p, d, m)` of the fixpoint computation with the fixpoint diagram `fd`: its
/// diagram and renaming, and one step on them (see `onestep_result`).
pub open spec fn fixpoint_by(p: Problem, d: Seq<(Label, Label)>, m: Seq<(Label, Label)>, fd: FixpointDiagram, orig: Problem) -> bool {
    &&& d == fd.diagram@
    &&& m == fd.mapping_label_newlabel@
    &&& exists|b: Constraint| #[trigger] onestep_result(p, b, orig, fd.mapping_label_newlabel@, fd.mapping_newlabel_text@, fd.diagram@)
}

impl Problem {
    /// One step of the fixpoint computation with the fixpoint diagram `fd`; fails when two of
    /// its labels lack a least common successor or predecessor.
    fn fixpoint_with(&self, fd: &FixpointDiagram) -> (r: Result<(Problem, Vec<(Label, Label)>, Vec<(Label, Label)>), &'static str>)
        requires
            self.wf(),
            fd.is_derived(),
            labels_within(*self, *fd),
        ensures
            r is Err <==> !lattice_ok(fd.diagram@, mapping_labels(fd.mapping_newlabel_text@)),
            r matches Ok((p, d, m)) ==> fixpoint_by(p, d@, m@, *fd, *self),
    {
        proof {
            lemma_derived_renames(*fd, *self);
            lemma_closure_of_order(fd.diagram@);
            lemma_same_edges_lattice_ok(closure_seq(fd.diagram@), fd.diagram@, mapping_labels(fd.mapping_newlabel_text@));
        }
        match self.fixpoint_onestep(&fd.mapping_label_newlabel, &fd.mapping_newlabel_text, &fd.diagram) {
            Ok((p, b)) => {
                proof {
                    lemma_onestep_same_edges(p, b, *self, fd.mapping_label_newlabel@, fd.mapping_newlabel_text@, closure_seq(fd.diagram@), fd.diagram@);
                }
                Ok((p, crate::line::copy_pairs(&fd.diagram), crate::line::copy_pairs(&fd.mapping_label_newlabel)))
            },
            Err(e) => Err(e),
        }
    }
}

/// Doubling more often gives more.
proof fn lemma_doubling_grows(n: nat, i: nat, k: nat)
    requires
        i <= k,
    ensures
        doubling(n, i) <= doubling(n, k),
    decreases k,
{
    if i < k {
        lemma_doubling_grows(n, i, (k - 1) as nat);
    }
}

/// The groups `g` of diagram labels can be duplicated in `base`: it has an original label,
/// the fresh labels fit the label type, every label of a group is a label of the diagram, and
/// the number of sets, doubled once per group, stays within what the label type can name.
pub open spec fn dup_allowed(base: FixpointDiagram, g: Seq<Seq<Label>>) -> bool {
    &&& base.mapping_oldlabel_text@.len() > 0
    &&& max_label(base.mapping_oldlabel_text@) + g.len() < u32::MAX
    &&& forall|k: int, j: int| 0 <= k < g.len() && 0 <= j < g[k].len() ==> #[trigger] g[k][j] < base.rightclosed@.len()
    &&& doubling(base.rightclosed@.len() as nat, g.len()) <= u32::MAX + 1
}

/// The views of a list of groups.
pub open spec fn groups_view(g: Seq<Vec<Label>>) -> Seq<Seq<Label>> {
    g.map_values(|v: Vec<Label>| v@)
}

/// Whether the groups can be duplicated in `base` (see `dup_allowed`).
fn dup_allowed_exec(base: &FixpointDiagram, groups: &Vec<Vec<Label>>) -> (r: bool)
    ensures
        r == dup_allowed(*base, groups_view(groups@)),
{
    let ghost g = groups_view(groups@);
    if base.mapping_oldlabel_text.len() == 0 {
        return false;
    }
    let mx = max_label_exec(&base.mapping_oldlabel_text);
    if groups.len() as u64 >= 0xFFFF_FFFFu64 || mx as u64 + groups.len() as u64 >= 0xFFFF_FFFFu64 {
        return false;
    }
    let n = base.rightclosed.len();
    let mut k: usize = 0;
    while k < groups.len()
        invariant
            k <= groups.len(),
            g == groups_view(groups@),
            n == base.rightclosed@.len(),
            forall|k2: int, j: int| 0 <= k2 < k && 0 <= j < g[k2].len() ==> #[trigger] g[k2][j] < n,
        decreases groups.len() - k,
    {
        let mut j: usize = 0;
        while j < groups[k].len()
            invariant
                k < groups.len(),
                j <= groups@[k as int]@.len(),
                g == groups_view(groups@),
                n == base.rightclosed@.len(),
                forall|k2: int, j2: int| 0 <= k2 < k && 0 <= j2 < g[k2].len() ==> #[trigger] g[k2][j2] < n,
                forall|j2: int| 0 <= j2 < j ==> #[trigger] g[k as int][j2] < n,
            decreases groups@[k as int]@.len() - j,
        {
            if groups[k][j] as usize >= n {
                assert(g[k as int][j as int] == groups@[k as int]@[j as int]);
                return false;
            }
            assert(g[k as int][j as int] == groups@[k as int]@[j as int]);
            j = j + 1;
        }
        k = k + 1;
    }
    if n as u64 > 0x1_0000_0000u64 {
        proof {
            lemma_doubling_grows(n as nat, 0, g.len());
            assert(doubling(n as nat, 0) == n);
        }
        return false;
    }
    let mut b: u64 = n as u64;
    let mut i: usize = 0;
    while i < groups.len()
        invariant
            i <= groups.len(),
            g.len() == groups.len(),
            g == groups_view(groups@),
            n == base.rightclosed@.len(),
            b == doubling(n as nat, i as nat),
            b <= 0x1_0000_0000u64,
        decreases groups.len() - i,
    {
        b = b * 2;
        assert(doubling(n as nat, (i + 1) as nat) == 2 * doubling(n as nat, i as nat));
        if b > 0x1_0000_0000u64 {
            proof {
                lemma_doubling_grows(n as nat, (i + 1) as nat, g.len());
                assert(doubling(n as nat, (i + 1) as nat) == 2 * doubling(n as nat, i as nat));
            }
            return false;
        }
        i = i + 1;
    }
    true
}

/// `fd` is `base` with the groups `g` duplicated (see `FixpointDiagram::duplicate_labels`).
pub open spec fn dup_of(fd: FixpointDiagram, base: FixpointDiagram, g: Seq<Seq<Label>>) -> bool {
    &&& fd.is_derived()
    &&& fd.orig_labels@ == base.orig_labels@
    &&& fd.mapping_oldlabel_text@ == base.mapping_oldlabel_text@
    &&& fd.additional_orig@ == Seq::new(g.len(), |k: int| (max_label(base.mapping_oldlabel_text@) + 1 + k) as Label)
    &&& family(crate::labels::views(fd.rightclosed@)) == dup_all(
        set_views(base.rightclosed@),
        group_sets(g, crate::labels::views(base.rightclosed@)),
        (max_label(base.mapping_oldlabel_text@) + 1) as nat,
        0,
    ).to_set()
}

/// The fixpoint diagram `base` fits the problem: it is derived from its right-closed sets,
/// which hold only original labels, it duplicates no label, and the problem's labels are its
/// original labels.
pub open spec fn base_fits(base: FixpointDiagram, p: Problem) -> bool {
    &&& base.is_derived()
    &&& base.additional_orig@.len() == 0
    &&& forall|i: int, x: Label| 0 <= i < base.rightclosed@.len() && #[trigger] base.rightclosed@[i]@.contains(x)
        ==> mapping_labels(base.mapping_oldlabel_text@).contains(x)
    &&& labels_within(p, base)
}

impl Problem {
    /// The fixpoint computation with the fixpoint diagram `base`, its groups `dup` duplicated
    /// first when given.
    fn fixpoint_from_base(&self, base: &FixpointDiagram, dup: Option<Vec<Vec<Label>>>)
        -> (r: Result<(Problem, Vec<(Label, Label)>, Vec<(Label, Label)>), &'static str>)
        requires
            self.wf(),
            base_fits(*base, *self),
        ensures
            dup is None ==> (r is Err <==> !lattice_ok(base.diagram@, mapping_labels(base.mapping_newlabel_text@))),
            r matches Ok((p, d, m)) ==> exists|fd: FixpointDiagram| #[trigger] fixpoint_by(p, d@, m@, fd, *self) && match dup {
                None => fd == *base,
                Some(g) => dup_of(fd, *base, groups_view(g@)),
            },
            r is Err ==> match dup {
                None => !lattice_ok(base.diagram@, mapping_labels(base.mapping_newlabel_text@)),
                Some(g) => !dup_allowed(*base, groups_view(g@)) || exists|fd: FixpointDiagram| #[trigger] dup_of(fd, *base, groups_view(g@))
                    && !lattice_ok(fd.diagram@, mapping_labels(fd.mapping_newlabel_text@)),
            },
    {
        match dup {
            None => {
                let r = self.fixpoint_with(base);
                proof {
                    if r is Ok {
                        let (p, d, m) = r->Ok_0;
                        assert(fixpoint_by(p, d@, m@, *base, *self));
                    }
                }
                r
            },
            Some(g) => {
                if !dup_allowed_exec(base, &g) {
                    return Err("The labels to duplicate do not fit the diagram");
                }
                let mut fd = base.copy();
                proof {
                    let gv = groups_view(g@);
                    assert(g@.map_values(|v: Vec<Label>| v@) == gv);
                    assert(set_views(fd.rightclosed@) =~= set_views(base.rightclosed@)) by {
                        assert forall|i: int| 0 <= i < fd.rightclosed@.len() implies #[trigger] set_views(fd.rightclosed@)[i] == set_views(base.rightclosed@)[i] by {
                            assert(crate::labels::views(fd.rightclosed@)[i] == fd.rightclosed@[i]@);
                            assert(crate::labels::views(base.rightclosed@)[i] == base.rightclosed@[i]@);
                        }
                    }
                    lemma_dup_all_len(set_views(fd.rightclosed@), group_sets(gv, crate::labels::views(fd.rightclosed@)),
                        (max_label(fd.mapping_oldlabel_text@) + 1) as nat, 0);
                    assert forall|i: int, x: Label| 0 <= i < fd.rightclosed@.len() && #[trigger] fd.rightclosed@[i]@.contains(x)
                        implies mapping_labels(fd.mapping_oldlabel_text@).contains(x) by {
                        assert(base.rightclosed@[i]@.contains(x));
                    }
                    assert(crate::labels::views(fd.rightclosed@).len() == crate::labels::views(base.rightclosed@).len());
                    assert forall|k: int, j: int| 0 <= k < g@.len() && 0 <= j < g@[k]@.len() implies #[trigger] g@[k]@[j] < fd.rightclosed@.len() by {
                        assert(gv[k] == g@[k]@);
                        assert(gv[k][j] < base.rightclosed@.len());
                    }
                }
                fd.duplicate_labels(&g);
                proof {
                    assert(dup_of(fd, *base, groups_view(g@)));
                    assert(labels_within(*self, fd));
                }
                let r = self.fixpoint_with(&fd);
                proof {
                    if r is Ok {
                        let (p, d, m) = r->Ok_0;
                        assert(fixpoint_by(p, d@, m@, fd, *self));
                    } else {
                        assert(dup_of(fd, *base, groups_view(g@)) && !lattice_ok(fd.diagram@, mapping_labels(fd.mapping_newlabel_text@)));
                    }
                }
                r
            },
        }
    }
}

/// `b` is the fixpoint diagram that the fixpoint computation on `p` starts from: the one kept
/// in the problem, or else the default one of the problem.
pub open spec fn is_base_diagram(b: FixpointDiagram, p: Problem) -> bool {
    match p.fixpoint_diagram {
        Some((_, s)) => b == s,
        None => b.is_default_for(mapping_labels(p.mapping_label_text@), p.diagram_indirect->Some_0@, p.mapping_label_text@),
    }
}

/// The fixpoint computation can run on `p`: it is well formed, and either it keeps a
/// fixpoint diagram that fits it, or its labels all have texts and it has a diagram whose
/// edges lead to labels with texts.
pub open spec fn fixpoint_ready(p: Problem) -> bool {
    &&& p.wf()
    &&& match p.fixpoint_diagram {
        Some((_, s)) => base_fits(s, p),
        None => {
            &&& p.texts_cover()
            &&& p.diagram_indirect is Some
            &&& forall|a: Label, b: Label| #[trigger] p.diagram_indirect->Some_0@.contains((a, b))
                ==> mapping_labels(p.mapping_label_text@).contains(b)
        },
    }
}

/// What the fixpoint computation on `orig` gives, with the groups `dup` duplicated when given:
/// the result `(p, d, m)` comes from the base diagram (see `is_base_diagram`), or from it with
/// the groups duplicated (see `dup_of`), as `fixpoint_by` says.
pub open spec fn fixpoint_result(p: Problem, d: Seq<(Label, Label)>, m: Seq<(Label, Label)>, orig: Problem, dup: Option<Seq<Seq<Label>>>) -> bool {
    exists|b: FixpointDiagram, fd: FixpointDiagram|
        #[trigger] is_base_diagram(b, orig) && #[trigger] fixpoint_by(p, d, m, fd, orig) && match dup {
            None => fd == b,
            Some(g) => dup_of(fd, b, g),
        }
}

/// Why the fixpoint computation on `orig` fails: there are more right-closed sets than labels
/// (only when the problem keeps no fixpoint diagram); or the groups to duplicate do not fit
/// the base diagram; or the diagram used lacks a least common successor or predecessor of
/// two of its labels.
pub open spec fn fixpoint_fails(orig: Problem, dup: Option<Seq<Seq<Label>>>) -> bool {
    ||| orig.fixpoint_diagram is None && too_many_sets(mapping_labels(orig.mapping_label_text@), orig.diagram_indirect->Some_0@)
    ||| exists|b: FixpointDiagram| #[trigger] is_base_diagram(b, orig) && match dup {
        None => !lattice_ok(b.diagram@, mapping_labels(b.mapping_newlabel_text@)),
        Some(g) => !dup_allowed(b, g) || exists|fd: FixpointDiagram| #[trigger] dup_of(fd, b, g)
            && !lattice_ok(fd.diagram@, mapping_labels(fd.mapping_newlabel_text@)),
    }
}

/// The groups to duplicate, as label sequences.
pub open spec fn dup_view(dup: Option<Vec<Vec<Label>>>) -> Option<Seq<Seq<Label>>> {
    match dup {
        Some(g) => Some(groups_view(g@)),
        None => None,
    }
}

impl Problem {
    /// The fixpoint computation with the kept fixpoint diagram, or else the default one (see
    /// `FixpointDiagram::is_default_for`), the groups `dup` of its labels duplicated first
    /// when given (see `FixpointDiagram::duplicate_labels`): one step (see
    /// `fixpoint_onestep`) on that diagram. Returns the new problem, the diagram and the
    /// renaming of the labels into its labels.
    pub fn fixpoint_dup(&self, dup: Option<Vec<Vec<Label>>>) -> (r: Result<(Problem, Vec<(Label, Label)>, Vec<(Label, Label)>), &'static str>)
        requires
            fixpoint_ready(*self),
        ensures
            r matches Ok((p, d, m)) ==> fixpoint_result(p, d@, m@, *self, dup_view(dup)),
            r is Err ==> fixpoint_fails(*self, dup_view(dup)),
            dup is None && self.fixpoint_diagram is None && crate::constraint::diagram_transitive(self.diagram_indirect->Some_0@)
                ==> (r is Err ==> r == Err::<(Problem, Vec<(Label, Label)>, Vec<(Label, Label)>), &'static str>("There are too many right-closed sets")
                    && too_many_sets(mapping_labels(self.mapping_label_text@), self.diagram_indirect->Some_0@)),
    {
        match &self.fixpoint_diagram {
            Some((_, s)) => {
                let r = self.fixpoint_from_base(s, dup);
                proof {
                    assert(is_base_diagram(*s, *self));
                    if r is Ok {
                        let (p, d, m) = r->Ok_0;
                        let fd = choose|fd: FixpointDiagram| #[trigger] fixpoint_by(p, d@, m@, fd, *self) && match dup {
                            None => fd == *s,
                            Some(g) => dup_of(fd, *s, groups_view(g@)),
                        };
                        assert(fixpoint_by(p, d@, m@, fd, *self));
                    }
                }
                r
            },
            None => {
                let fd = FixpointDiagram::new(self);
                match fd {
                    None => Err("There are too many right-closed sets"),
                    Some(fd) => {
                        proof {
                            assert(base_fits(fd, *self)) by {
                                assert forall|x: Label| #[trigger] labels_in(lines_view(self.active.lines@)).contains(x) implies fd.orig_labels@.contains(x) by {
                                    assert(mapping_labels(self.mapping_label_text@).to_set().contains(x));
                                }
                                assert forall|x: Label| #[trigger] labels_in(lines_view(self.passive.lines@)).contains(x) implies fd.orig_labels@.contains(x) by {
                                    assert(mapping_labels(self.mapping_label_text@).to_set().contains(x));
                                }
                            }
                            assert(is_base_diagram(fd, *self));
                        }
                        let r = self.fixpoint_from_base(&fd, dup);
                        proof {
                            if dup is None && crate::constraint::diagram_transitive(self.diagram_indirect->Some_0@) {
                                lemma_default_lattice(fd, mapping_labels(self.mapping_label_text@), self.diagram_indirect->Some_0@, self.mapping_label_text@);
                            }
                            if r is Ok {
                                let (p, d, m) = r->Ok_0;
                                let fd2 = choose|fd2: FixpointDiagram| #[trigger] fixpoint_by(p, d@, m@, fd2, *self) && match dup {
                                    None => fd2 == fd,
                                    Some(g) => dup_of(fd2, fd, groups_view(g@)),
                                };
                                assert(fixpoint_by(p, d@, m@, fd2, *self));
                            }
                        }
                        r
                    },
                }
            },
        }
    }

    /// The fixpoint computation with no label duplicated (see `fixpoint_dup`).
    pub fn fixpoint(&self) -> (r: Result<(Problem, Vec<(Label, Label)>, Vec<(Label, Label)>), &'static str>)
        requires
            fixpoint_ready(*self),
        ensures
            r matches Ok((p, d, m)) ==> fixpoint_result(p, d@, m@, *self, None),
            r is Err ==> fixpoint_fails(*self, None),
            self.fixpoint_diagram is None && crate::constraint::diagram_transitive(self.diagram_indirect->Some_0@)
                ==> (r is Err ==> r == Err::<(Problem, Vec<(Label, Label)>, Vec<(Label, Label)>), &'static str>("There are too many right-closed sets")
                    && too_many_sets(mapping_labels(self.mapping_label_text@), self.diagram_indirect->Some_0@)),
    {
        self.fixpoint_dup(None)
    }
}

} // verus!
