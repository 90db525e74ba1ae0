//! Constraints (sets of lines of a common degree), the discarding of lines that other
//! lines include, and the maximization of a constraint.
use vstd::prelude::*;
use crate::labels::{Label, sorted_strict, views, sorted_lex, reorders, sort_lex, is_injection, union, intersect, is_reordering, lex_lt};
use crate::line::lemma_included_reorder_small;
use crate::line::{
    GroupType, Group, Part, Line, PartV, positions, line_wf, positions_wf, included, group_le,
    diagram_view, positions_included, copy_labels, lemma_included_trans, lemma_included_reorder_big,
    lemma_positions_wf,
};

verus! {

/// The degree of a constraint: how many positions each line has.
#[derive(Clone, Copy, Debug, PartialEq, Eq, Hash, Structural)]
pub enum Degree {
    Finite(usize),
    Star,
}

/// A constraint: the lines it allows, all of the same degree.
#[derive(Clone, Debug, PartialEq, Eq)]
pub struct Constraint {
    pub lines: Vec<Line>,
    pub is_maximized: bool,
    pub degree: Degree,
}

/// The views of a list of lines.
pub open spec fn lines_view(v: Seq<Line>) -> Seq<Seq<PartV>> {
    v.map_values(|l: Line| l@)
}

/// Some position holds the label `x`.
pub open spec fn pos_has(pos: Seq<Seq<Label>>, x: Label) -> bool {
    exists|m: int| 0 <= m < pos.len() && (#[trigger] pos[m]).contains(x)
}

/// The labels that occur in the positions of the lines.
pub open spec fn labels_in(lines: Seq<Seq<PartV>>) -> Set<Label> {
    Set::new(|x: Label| exists|i: int| 0 <= i < lines.len() && #[trigger] pos_has(positions(lines[i]), x))
}

/// The diagram order relation on groups is transitive: the diagram's edges are closed under
/// composition.
pub open spec fn diagram_transitive(d: Seq<(Label, Label)>) -> bool {
    forall|x: Label, y: Label, z: Label|
        #[trigger] d.contains((x, y)) && #[trigger] d.contains((y, z)) && x != z ==> d.contains((x, z))
}

/// The group order is transitive: always for subsets, and for a transitive diagram.
pub open spec fn order_transitive(dg: Option<Seq<(Label, Label)>>) -> bool {
    match dg {
        None => true,
        Some(d) => diagram_transitive(d),
    }
}

/// Adds the line `n` to the list `cur`, unless some line of `cur` includes it; when it is
/// added, the lines that it includes leave the list.
pub open spec fn add_discard(dg: Option<Seq<(Label, Label)>>, cur: Seq<Seq<PartV>>, n: Seq<PartV>) -> Seq<Seq<PartV>> {
    if exists|i: int| 0 <= i < cur.len() && #[trigger] included(dg, positions(n), positions(cur[i])) {
        cur
    } else {
        cur.filter(|l: Seq<PartV>| !included(dg, positions(l), positions(n))).push(n)
    }
}

/// The lines that remain when `lines` are added one after the other by `add_discard`.
pub open spec fn discard_non_maximal(dg: Option<Seq<(Label, Label)>>, lines: Seq<Seq<PartV>>) -> Seq<Seq<PartV>>
    decreases lines.len(),
{
    if lines.len() == 0 {
        lines
    } else {
        add_discard(dg, discard_non_maximal(dg, lines.drop_last()), lines.last())
    }
}

/// No line of the list includes another one.
pub open spec fn is_antichain(dg: Option<Seq<(Label, Label)>>, lines: Seq<Seq<PartV>>) -> bool {
    forall|i: int, j: int|
        0 <= i < lines.len() && 0 <= j < lines.len() && i != j ==> !#[trigger] included(
            dg,
            positions(lines[i]),
            positions(lines[j]),
        )
}

/// Some line of the list includes the positions `x`.
pub open spec fn covers(dg: Option<Seq<(Label, Label)>>, lines: Seq<Seq<PartV>>, x: Seq<Seq<Label>>) -> bool {
    exists|i: int| 0 <= i < lines.len() && #[trigger] included(dg, x, positions(lines[i]))
}

/// Every group is below itself.
pub proof fn lemma_group_le_refl(dg: Option<Seq<(Label, Label)>>, g: Seq<Label>)
    ensures
        group_le(dg, g, g),
{
    match dg {
        None => {},
        Some(d) => {
            assert forall|x: Label| g.contains(x) implies exists|y: Label| g.contains(y) && crate::line::reaches(d, x, y) by {
                assert(crate::line::reaches(d, x, x));
            }
        },
    }
}

/// Every line includes itself.
pub proof fn lemma_included_refl(dg: Option<Seq<(Label, Label)>>, a: Seq<Seq<Label>>)
    ensures
        included(dg, a, a),
{
    let p = Seq::new(a.len(), |k: int| k);
    assert forall|k: int| 0 <= k < a.len() implies group_le(dg, #[trigger] a[k], a[p[k]]) by {
        lemma_group_le_refl(dg, a[k]);
    }
    assert(is_injection(p, a.len() as int));
}

/// Group order of a transitive diagram (or of subsets) is transitive.
pub proof fn lemma_group_le_trans(dg: Option<Seq<(Label, Label)>>)
    requires
        order_transitive(dg),
    ensures
        forall|x: Seq<Label>, y: Seq<Label>, z: Seq<Label>|
            #[trigger] group_le(dg, x, y) && #[trigger] group_le(dg, y, z) ==> group_le(dg, x, z),
{
    match dg {
        None => {},
        Some(d) => {
            assert forall|x: Seq<Label>, y: Seq<Label>, z: Seq<Label>|
                #[trigger] group_le(dg, x, y) && #[trigger] group_le(dg, y, z) implies group_le(dg, x, z) by {
                assert forall|a: Label| x.contains(a) implies exists|c: Label| z.contains(c) && crate::line::reaches(d, a, c) by {
                    let b = choose|b: Label| y.contains(b) && crate::line::reaches(d, a, b);
                    let c = choose|c: Label| z.contains(c) && crate::line::reaches(d, b, c);
                    if a != c && a != b && b != c {
                        assert(d.contains((a, b)) && d.contains((b, c)));
                    }
                    assert(crate::line::reaches(d, a, c));
                }
            }
        },
    }
}

/// Adding a line keeps covered what was covered, covers the new line, and keeps an antichain.
pub proof fn lemma_add_discard(dg: Option<Seq<(Label, Label)>>, cur: Seq<Seq<PartV>>, n: Seq<PartV>)
    requires
        order_transitive(dg),
    ensures
        forall|x: Seq<Seq<Label>>| covers(dg, cur, x) ==> #[trigger] covers(dg, add_discard(dg, cur, n), x),
        covers(dg, add_discard(dg, cur, n), positions(n)),
        is_antichain(dg, cur) ==> is_antichain(dg, add_discard(dg, cur, n)),
{
    reveal(Seq::filter);
    lemma_group_le_trans(dg);
    let pred = |l: Seq<PartV>| !included(dg, positions(l), positions(n));
    let res = add_discard(dg, cur, n);
    if exists|i: int| 0 <= i < cur.len() && #[trigger] included(dg, positions(n), positions(cur[i])) {
        let i = choose|i: int| 0 <= i < cur.len() && #[trigger] included(dg, positions(n), positions(cur[i]));
        assert(covers(dg, res, positions(n)));
    } else {
        let f = cur.filter(pred);
        assert(res == f.push(n));
        lemma_included_refl(dg, positions(n));
        assert(included(dg, positions(n), positions(res[res.len() - 1])));
        assert(covers(dg, res, positions(n)));
        assert forall|x: Seq<Seq<Label>>| covers(dg, cur, x) implies #[trigger] covers(dg, res, x) by {
            let i = choose|i: int| 0 <= i < cur.len() && #[trigger] included(dg, x, positions(cur[i]));
            if pred(cur[i]) {
                cur.lemma_filter_contains(pred, i);
                let k = choose|k: int| 0 <= k < f.len() && f[k] == cur[i];
                assert(res[k] == cur[i]);
            } else {
                lemma_included_trans(dg, x, positions(cur[i]), positions(n));
                assert(included(dg, x, positions(res[res.len() - 1])));
            }
        }
        if is_antichain(dg, cur) {
            assert forall|i: int, j: int|
                0 <= i < res.len() && 0 <= j < res.len() && i != j implies !#[trigger] included(
                dg,
                positions(res[i]),
                positions(res[j]),
            ) by {
                if i < f.len() {
                    cur.lemma_filter_pred(pred, i);
                }
                if j < f.len() {
                    cur.lemma_filter_pred(pred, j);
                }
                if i < f.len() && j < f.len() {
                    assert(f.contains(f[i]));
                    assert(f.contains(f[j]));
                    cur.lemma_filter_contains_rev(pred, f[i]);
                    cur.lemma_filter_contains_rev(pred, f[j]);
                    let a = choose|a: int| 0 <= a < cur.len() && cur[a] == f[i];
                    let b = choose|b: int| 0 <= b < cur.len() && cur[b] == f[j];
                    if a == b {
                        // two copies of one line cannot both stay in an antichain
                        assert forall|a1: int, b1: int| 0 <= a1 < cur.len() && 0 <= b1 < cur.len() && a1 != b1 implies cur[a1] != cur[b1] by {
                            lemma_included_refl(dg, positions(cur[a1]));
                            if cur[a1] == cur[b1] {
                                assert(included(dg, positions(cur[a1]), positions(cur[b1])));
                            }
                        }
                        lemma_filter_distinct(cur, pred, i, j);
                    }
                    assert(res[i] == cur[a]);
                    assert(res[j] == cur[b]);
                } else if i < f.len() {
                    assert(res[i] == f[i]);
                    assert(res[j] == n);
                } else {
                    assert(res[i] == n);
                    assert(res[j] == f[j]);
                    assert(f.contains(f[j]));
                    cur.lemma_filter_contains_rev(pred, f[j]);
                    let b = choose|b: int| 0 <= b < cur.len() && cur[b] == f[j];
                }
            }
        }
    }
}

/// In an antichain no line occurs twice, so a filter of it keeps distinct positions distinct.
proof fn lemma_filter_distinct(cur: Seq<Seq<PartV>>, pred: spec_fn(Seq<PartV>) -> bool, i: int, j: int)
    requires
        0 <= i < cur.filter(pred).len(),
        0 <= j < cur.filter(pred).len(),
        i != j,
        forall|a: int, b: int| 0 <= a < cur.len() && 0 <= b < cur.len() && a != b ==> cur[a] != cur[b],
    ensures
        cur.filter(pred)[i] != cur.filter(pred)[j],
    decreases cur.len(),
{
    reveal(Seq::filter);
    let rest = cur.drop_last();
    let fr = rest.filter(pred);
    assert forall|a: int, b: int| 0 <= a < rest.len() && 0 <= b < rest.len() && a != b implies rest[a] != rest[b] by {
        assert(rest[a] == cur[a]);
        assert(rest[b] == cur[b]);
    }
    if pred(cur.last()) {
        if i < fr.len() && j < fr.len() {
            lemma_filter_distinct(rest, pred, i, j);
        } else {
            let k = if i < fr.len() { i } else { j };
            assert(fr.contains(fr[k]));
            rest.lemma_filter_contains_rev(pred, fr[k]);
            let a = choose|a: int| 0 <= a < rest.len() && rest[a] == fr[k];
            assert(cur[a] == fr[k]);
            assert(cur[cur.len() - 1] == cur.last());
        }
    } else {
        lemma_filter_distinct(rest, pred, i, j);
    }
}

/// The lines that remain after discarding form an antichain that covers every line given.
pub proof fn lemma_discard_non_maximal(dg: Option<Seq<(Label, Label)>>, lines: Seq<Seq<PartV>>)
    requires
        order_transitive(dg),
    ensures
        is_antichain(dg, discard_non_maximal(dg, lines)),
        forall|k: int| 0 <= k < lines.len() ==> covers(dg, discard_non_maximal(dg, lines), #[trigger] positions(lines[k])),
    decreases lines.len(),
{
    if lines.len() > 0 {
        let prev = discard_non_maximal(dg, lines.drop_last());
        lemma_discard_non_maximal(dg, lines.drop_last());
        lemma_add_discard(dg, prev, lines.last());
        assert forall|k: int| 0 <= k < lines.len() implies covers(dg, discard_non_maximal(dg, lines), #[trigger] positions(lines[k])) by {
            if k < lines.len() - 1 {
                assert(lines.drop_last()[k] == lines[k]);
                assert(covers(dg, prev, positions(lines[k])));
            }
        }
    }
}

/// Every line left by discarding is one of the lines given.
pub proof fn lemma_discard_elements(dg: Option<Seq<(Label, Label)>>, lines: Seq<Seq<PartV>>)
    ensures
        forall|k: int| 0 <= k < discard_non_maximal(dg, lines).len() ==> lines.contains(#[trigger] discard_non_maximal(dg, lines)[k]),
    decreases lines.len(),
{
    if lines.len() > 0 {
        let prev = discard_non_maximal(dg, lines.drop_last());
        lemma_discard_elements(dg, lines.drop_last());
        lemma_add_discard_elements(dg, prev, lines.last());
        let res = discard_non_maximal(dg, lines);
        assert forall|k: int| 0 <= k < res.len() implies lines.contains(#[trigger] res[k]) by {
            if res[k] == lines.last() {
                assert(lines[lines.len() - 1] == res[k]);
            } else {
                let j = choose|j: int| 0 <= j < prev.len() && prev[j] == res[k];
                assert(lines.drop_last().contains(prev[j]));
                let m = choose|m: int| 0 <= m < lines.drop_last().len() && lines.drop_last()[m] == prev[j];
                assert(lines[m] == prev[j]);
            }
        }
    }
}

/// Adds the line `n` to `lines` as `add_discard` says; returns whether it was added.
pub fn add_line_discarding(lines: &mut Vec<Line>, n: Line, diagram: Option<&Vec<(Label, Label)>>) -> (added: bool)
    ensures
        lines_view(final(lines)@) == add_discard(diagram_view(diagram), lines_view(old(lines)@), n@),
        added == !exists|i: int|
            0 <= i < old(lines)@.len() && #[trigger] included(
                diagram_view(diagram),
                positions(n@),
                positions(old(lines)@[i]@),
            ),
{
    let ghost dg = diagram_view(diagram);
    let ghost cur = lines_view(lines@);
    let pn = n.expand();
    let mut i: usize = 0;
    while i < lines.len()
        invariant
            i <= lines.len(),
            cur == lines_view(lines@),
            dg == diagram_view(diagram),
            views(pn@) == positions(n@),
            forall|k: int| 0 <= k < i ==> !#[trigger] included(dg, positions(n@), positions(cur[k])),
        decreases lines.len() - i,
    {
        let pl = lines[i].expand();
        if positions_included(diagram, &pn, &pl) {
            assert(cur[i as int] == lines@[i as int]@);
            return false;
        }
        assert(cur[i as int] == lines@[i as int]@);
        i = i + 1;
    }
    assert forall|k: int| 0 <= k < lines@.len() implies !#[trigger] included(dg, positions(n@), positions(lines@[k]@)) by {
        assert(cur[k] == lines@[k]@);
    }
    let ghost pred = |l: Seq<PartV>| !included(dg, positions(l), positions(n@));
    let mut kept: Vec<Line> = Vec::new();
    let mut j: usize = 0;
    while j < lines.len()
        invariant
            j <= lines.len(),
            cur == lines_view(lines@),
            dg == diagram_view(diagram),
            views(pn@) == positions(n@),
            pred == |l: Seq<PartV>| !included(dg, positions(l), positions(n@)),
            lines_view(kept@) == cur.subrange(0, j as int).filter(pred),
        decreases lines.len() - j,
    {
        let pl = lines[j].expand();
        let ghost k0 = lines_view(kept@);
        assert(cur[j as int] == lines@[j as int]@);
        if !positions_included(diagram, &pl, &pn) {
            kept.push(lines[j].copy());
            assert(lines_view(kept@) =~= k0.push(cur[j as int]));
        }
        proof {
            reveal(Seq::filter);
            assert(cur.subrange(0, j + 1).drop_last() =~= cur.subrange(0, j as int));
            assert(cur.subrange(0, j + 1).last() == cur[j as int]);
        }
        j = j + 1;
    }
    assert(cur.subrange(0, lines.len() as int) =~= cur);
    let ghost k1 = lines_view(kept@);
    kept.push(n);
    assert(lines_view(kept@) =~= k1.push(n@));
    *lines = kept;
    true
}

/// The lines that remain when `lines` are added one after the other by `add_line_discarding`.
pub fn discard_lines(lines: &Vec<Line>, diagram: Option<&Vec<(Label, Label)>>) -> (r: Vec<Line>)
    ensures
        lines_view(r@) == discard_non_maximal(diagram_view(diagram), lines_view(lines@)),
{
    let ghost dg = diagram_view(diagram);
    let ghost lv = lines_view(lines@);
    let mut r: Vec<Line> = Vec::new();
    let mut i: usize = 0;
    while i < lines.len()
        invariant
            i <= lines.len(),
            lv == lines_view(lines@),
            dg == diagram_view(diagram),
            lines_view(r@) == discard_non_maximal(dg, lv.subrange(0, i as int)),
        decreases lines.len() - i,
    {
        add_line_discarding(&mut r, lines[i].copy(), diagram);
        proof {
            assert(lv.subrange(0, i + 1).drop_last() =~= lv.subrange(0, i as int));
            assert(lv.subrange(0, i + 1).last() == lines@[i as int]@);
        }
        i = i + 1;
    }
    assert(lv.subrange(0, lines.len() as int) =~= lv);
    r
}

impl Constraint {
    /// Every line has the constraint's finite degree, no star, and strictly increasing groups.
    pub open spec fn wf(&self) -> bool {
        &&& self.degree matches Degree::Finite(d) && d >= 1
        &&& forall|i: int|
            0 <= i < self.lines@.len() ==> line_wf(#[trigger] self.lines@[i]@) && positions(
                self.lines@[i]@,
            ).len() == self.degree->Finite_0
    }

    /// A copy of the constraint.
    pub fn copy(&self) -> (r: Constraint)
        ensures
            lines_view(r.lines@) == lines_view(self.lines@),
            r.is_maximized == self.is_maximized,
            r.degree == self.degree,
    {
        let mut lines: Vec<Line> = Vec::new();
        let mut i: usize = 0;
        while i < self.lines.len()
            invariant
                i <= self.lines.len(),
                lines_view(lines@) == lines_view(self.lines@).subrange(0, i as int),
            decreases self.lines.len() - i,
        {
            let ghost l0 = lines_view(lines@);
            lines.push(self.lines[i].copy());
            assert(lines_view(lines@) =~= l0.push(self.lines@[i as int]@));
            assert(lines_view(self.lines@).subrange(0, i + 1) =~= lines_view(self.lines@).subrange(0, i as int).push(self.lines@[i as int]@));
            i = i + 1;
        }
        assert(lines_view(self.lines@).subrange(0, self.lines.len() as int) =~= lines_view(self.lines@));
        Constraint { lines, is_maximized: self.is_maximized, degree: self.degree }
    }

    /// Removes every line that another line includes (for groups, inclusion of label sets).
    /// The lines left form an antichain that includes every line there was.
    pub fn discard_non_maximal_lines(&mut self)
        ensures
            lines_view(final(self).lines@) == discard_non_maximal(None, lines_view(old(self).lines@)),
            is_antichain(None, lines_view(final(self).lines@)),
            forall|k: int|
                0 <= k < old(self).lines@.len() ==> covers(None, lines_view(final(self).lines@), #[trigger] positions(old(self).lines@[k]@)),
            final(self).degree == old(self).degree,
            final(self).is_maximized == old(self).is_maximized,
    {
        let r = discard_lines(&self.lines, None);
        proof {
            lemma_discard_non_maximal(None, lines_view(self.lines@));
            assert forall|k: int| 0 <= k < self.lines@.len() implies #[trigger] positions(self.lines@[k]@) == positions(lines_view(self.lines@)[k]) by {}
        }
        self.lines = r;
    }

    /// Removes every line that another line includes, where a group is below another when
    /// each of its labels reaches a label of the other in `diagram`. When the diagram is
    /// transitive, the lines left form an antichain that includes every line there was.
    pub fn discard_non_maximal_lines_with_custom_supersets(&mut self, diagram: &Vec<(Label, Label)>)
        ensures
            lines_view(final(self).lines@) == discard_non_maximal(Some(diagram@), lines_view(old(self).lines@)),
            diagram_transitive(diagram@) ==> is_antichain(Some(diagram@), lines_view(final(self).lines@)),
            diagram_transitive(diagram@) ==> forall|k: int|
                0 <= k < old(self).lines@.len() ==> covers(Some(diagram@), lines_view(final(self).lines@), #[trigger] positions(old(self).lines@[k]@)),
            final(self).degree == old(self).degree,
            final(self).is_maximized == old(self).is_maximized,
    {
        let r = discard_lines(&self.lines, Some(diagram));
        proof {
            if diagram_transitive(diagram@) {
                lemma_discard_non_maximal(Some(diagram@), lines_view(self.lines@));
                assert forall|k: int| 0 <= k < self.lines@.len() implies #[trigger] positions(self.lines@[k]@) == positions(lines_view(self.lines@)[k]) by {}
            }
        }
        self.lines = r;
    }
}

/// Every position of the line has at least one label.
pub open spec fn all_nonempty(s: Seq<Seq<Label>>) -> bool {
    forall|k: int| 0 <= k < s.len() ==> (#[trigger] s[k]).len() > 0
}

/// A copy of `v` without its element at `i`.
pub(crate) fn remove_at(v: &Vec<Vec<Label>>, i: usize) -> (r: Vec<Vec<Label>>)
    requires
        i < v.len(),
    ensures
        views(r@) == views(v@).remove(i as int),
        r@.len() == v@.len() - 1,
{
    let mut r: Vec<Vec<Label>> = Vec::new();
    let mut k: usize = 0;
    while k < v.len()
        invariant
            k <= v.len(),
            i < v.len(),
            views(r@) == (if k <= i { views(v@).subrange(0, k as int) } else { views(v@).remove(i as int).subrange(0, k - 1) }),
        decreases v.len() - k,
    {
        if k != i {
            let ghost r0 = views(r@);
            let x = copy_labels(&v[k]);
            r.push(x);
            assert(views(r@) =~= r0.push(x@));
        }
        proof {
            let vv = views(v@);
            if k < i {
                assert(vv.subrange(0, k + 1) =~= vv.subrange(0, k as int).push(vv[k as int]));
            } else if k == i {
                assert(vv.remove(i as int).subrange(0, k as int) =~= vv.subrange(0, k as int));
            } else {
                assert(vv.remove(i as int).subrange(0, k as int) =~= vv.remove(i as int).subrange(0, k - 1).push(vv[k as int]));
            }
        }
        k = k + 1;
    }
    proof {
        let vv = views(v@);
        assert(vv.remove(i as int).subrange(0, v.len() - 1) =~= vv.remove(i as int));
    }
    r
}

/// Some vector of `r` lists the groups `q`.
pub open spec fn listed(r: Seq<Vec<Vec<Label>>>, q: Seq<Seq<Label>>) -> bool {
    exists|t: int| 0 <= t < r.len() && views(r[t]@) == q
}

/// Adding to a list keeps what it listed.
pub proof fn lemma_listed_push(r: Seq<Vec<Vec<Label>>>, x: Vec<Vec<Label>>, q: Seq<Seq<Label>>)
    requires
        listed(r, q),
    ensures
        listed(r.push(x), q),
{
    let t = choose|t: int| 0 <= t < r.len() && views(r[t]@) == q;
    assert(r.push(x)[t] == r[t]);
}

/// Removing from a reordering its first group, which stands at position `i` of `v`, leaves
/// a reordering of the rest of `v`.
proof fn lemma_reorders_drop_first(q: Seq<Seq<Label>>, v: Seq<Seq<Label>>, inv: Seq<int>, i: int)
    requires
        reorders(q, v, inv),
        0 <= i < v.len(),
        inv[i] == 0,
    ensures
        is_reordering(q.drop_first(), v.remove(i)),
{
    let n = v.len() as int;
    let inv2 = Seq::new((n - 1) as nat, |j: int| if j < i { inv[j] - 1 } else { inv[j + 1] - 1 });
    assert forall|j: int| 0 <= j < n - 1 implies 0 <= #[trigger] inv2[j] < n - 1 by {
        let k = if j < i { j } else { j + 1 };
        assert(inv[k] != inv[i]);
    }
    assert forall|j1: int, j2: int| 0 <= j1 < j2 < n - 1 implies inv2[j1] != inv2[j2] by {
        let k1 = if j1 < i { j1 } else { j1 + 1 };
        let k2 = if j2 < i { j2 } else { j2 + 1 };
        assert(inv[k1] != inv[k2]);
    }
    assert forall|j: int| 0 <= j < n - 1 implies q.drop_first()[#[trigger] inv2[j]] == v.remove(i)[j] by {
        let k = if j < i { j } else { j + 1 };
        assert(q[inv[k]] == v[k]);
    }
    assert(reorders(q.drop_first(), v.remove(i), inv2));
}

/// Putting `v[i]` before a reordering of the rest of `v` gives a reordering of `v`.
proof fn lemma_reordering_cons(p: Seq<Seq<Label>>, v: Seq<Seq<Label>>, i: int)
    requires
        0 <= i < v.len(),
        is_reordering(p, v.remove(i)),
    ensures
        is_reordering(seq![v[i]] + p, v),
{
    let rest = v.remove(i);
    let inv0 = choose|inv0: Seq<int>| #[trigger] reorders(p, rest, inv0);
    let n = v.len() as int;
    let inv = Seq::new(v.len(), |j: int| if j == i { 0 } else if j < i { inv0[j] + 1 } else { inv0[j - 1] + 1 });
    let r = seq![v[i]] + p;
    assert forall|j: int| 0 <= j < n implies 0 <= #[trigger] inv[j] < n by {
        if j < i {
            assert(0 <= inv0[j] < n - 1);
        } else if j > i {
            assert(0 <= inv0[j - 1] < n - 1);
        }
    }
    assert forall|j: int, k: int| 0 <= j < k < n implies inv[j] != inv[k] by {
        let j2 = if j < i { j } else { j - 1 };
        let k2 = if k < i { k } else { k - 1 };
        if j != i && k != i {
            assert(j2 < k2);
            assert(inv0[j2] != inv0[k2]);
        } else if j == i {
            assert(0 <= inv0[k2] < n - 1);
        } else {
            assert(0 <= inv0[j2] < n - 1);
        }
    }
    assert forall|j: int| 0 <= j < n implies r[#[trigger] inv[j]] == v[j] by {
        if j < i {
            assert(p[inv0[j]] == rest[j]);
        } else if j > i {
            assert(p[inv0[j - 1]] == rest[j - 1]);
        }
    }
    assert(reorders(r, v, inv));
}

/// All the orders in which the groups of `v` can be listed.
pub(crate) fn permutations(v: &Vec<Vec<Label>>) -> (r: Vec<Vec<Vec<Label>>>)
    ensures
        forall|t: int| 0 <= t < r@.len() ==> (#[trigger] r@[t])@.len() == v@.len(),
        forall|t: int, k: int|
            0 <= t < r@.len() && 0 <= k < v@.len() ==> views(v@).contains(#[trigger] views(r@[t]@)[k]),
        forall|q: Seq<Seq<Label>>| #[trigger] is_reordering(q, views(v@)) ==> listed(r@, q),
        forall|t: int| 0 <= t < r@.len() ==> is_reordering(views((#[trigger] r@[t])@), views(v@)),
    decreases v.len(),
{
    let mut r: Vec<Vec<Vec<Label>>> = Vec::new();
    if v.len() == 0 {
        r.push(Vec::new());
        proof {
            assert(views(r@[0]@) =~= views(v@));
            assert(reorders(views(r@[0]@), views(v@), Seq::<int>::empty()));
            assert forall|q: Seq<Seq<Label>>| #[trigger] is_reordering(q, views(v@)) implies listed(r@, q) by {
                let inv = choose|inv: Seq<int>| #[trigger] reorders(q, views(v@), inv);
                assert(q =~= views(r@[0]@));
            }
        }
        return r;
    }
    let ghost vv = views(v@);
    let mut i: usize = 0;
    while i < v.len()
        invariant
            i <= v.len(),
            v.len() > 0,
            vv == views(v@),
            forall|t: int| 0 <= t < r@.len() ==> (#[trigger] r@[t])@.len() == v@.len(),
            forall|t: int, k: int|
                0 <= t < r@.len() && 0 <= k < v@.len() ==> views(v@).contains(#[trigger] views(r@[t]@)[k]),
            forall|q: Seq<Seq<Label>>, inv: Seq<int>, i2: int|
                #![trigger reorders(q, vv, inv), inv[i2]]
                0 <= i2 < i && reorders(q, vv, inv) && inv[i2] == 0 ==> listed(r@, q),
            forall|t: int| 0 <= t < r@.len() ==> is_reordering(views((#[trigger] r@[t])@), vv),
        decreases v.len() - i,
    {
        let rest = remove_at(v, i);
        let ps = permutations(&rest);
        let ghost r_start = r@;
        let mut t: usize = 0;
        while t < ps.len()
            invariant
                t <= ps.len(),
                i < v.len(),
                vv == views(v@),
                views(rest@) == views(v@).remove(i as int),
                rest@.len() == v@.len() - 1,
                forall|t2: int| 0 <= t2 < ps@.len() ==> (#[trigger] ps@[t2])@.len() == rest@.len(),
                forall|t2: int, k: int|
                    0 <= t2 < ps@.len() && 0 <= k < rest@.len() ==> views(rest@).contains(#[trigger] views(ps@[t2]@)[k]),
                forall|t2: int| 0 <= t2 < r@.len() ==> (#[trigger] r@[t2])@.len() == v@.len(),
                forall|t2: int, k: int|
                    0 <= t2 < r@.len() && 0 <= k < v@.len() ==> views(v@).contains(#[trigger] views(r@[t2]@)[k]),
                r_start.len() <= r@.len(),
                forall|t2: int| 0 <= t2 < r_start.len() ==> r@[t2] == r_start[t2],
                forall|t2: int| 0 <= t2 < t ==> listed(r@, #[trigger] seq![vv[i as int]] + views(ps@[t2]@)),
                forall|t2: int| 0 <= t2 < ps@.len() ==> is_reordering(views((#[trigger] ps@[t2])@), views(rest@)),
                forall|t2: int| 0 <= t2 < r@.len() ==> is_reordering(views((#[trigger] r@[t2])@), vv),
            decreases ps.len() - t,
        {
            let mut q: Vec<Vec<Label>> = Vec::new();
            let x0 = copy_labels(&v[i]);
            q.push(x0);
            let mut k: usize = 0;
            let p = &ps[t];
            proof {
                assert(views(q@)[0] == x0@);
                assert(views(v@)[i as int] == x0@);
                assert(views(v@).contains(views(q@)[0]));
                assert(views(q@) =~= seq![vv[i as int]] + views(p@).subrange(0, 0));
            }
            while k < p.len()
                invariant
                    k <= p.len(),
                    i < v.len(),
                    vv == views(v@),
                    p@.len() == rest@.len(),
                    views(rest@) == views(v@).remove(i as int),
                    rest@.len() == v@.len() - 1,
                    forall|k2: int| 0 <= k2 < p@.len() ==> views(rest@).contains(#[trigger] views(p@)[k2]),
                    q@.len() == k + 1,
                    forall|k2: int| 0 <= k2 < q@.len() ==> views(v@).contains(#[trigger] views(q@)[k2]),
                    views(q@) == seq![vv[i as int]] + views(p@).subrange(0, k as int),
                decreases p.len() - k,
            {
                let ghost q0 = q@;
                let x = copy_labels(&p[k]);
                q.push(x);
                proof {
                    assert(views(p@)[k as int] == p@[k as int]@);
                    assert(views(rest@).contains(x@));
                    let m = choose|m: int| 0 <= m < views(rest@).len() && views(rest@)[m] == x@;
                    let mm = if m < i { m } else { m + 1 };
                    assert(views(v@)[mm] == x@);
                    assert forall|k2: int| 0 <= k2 < q@.len() implies views(v@).contains(#[trigger] views(q@)[k2]) by {
                        if k2 < q@.len() - 1 {
                            assert(views(q@)[k2] == views(q0)[k2]);
                        }
                    }
                    assert(views(q@) =~= views(q0).push(x@));
                    assert(views(p@).subrange(0, k + 1) =~= views(p@).subrange(0, k as int).push(x@));
                    assert(views(q@) =~= seq![vv[i as int]] + views(p@).subrange(0, k + 1));
                }
                k = k + 1;
            }
            proof {
                assert(views(v@)[i as int] == v@[i as int]@);
                assert(views(p@).subrange(0, p@.len() as int) =~= views(p@));
            }
            let ghost r0 = r@;
            let ghost qv = views(q@);
            r.push(q);
            proof {
                assert(views(r@[r0.len() as int]@) == qv);
                assert(is_reordering(views(p@), views(rest@)));
                lemma_reordering_cons(views(p@), vv, i as int);
                assert forall|t2: int| 0 <= t2 < r@.len() implies is_reordering(views((#[trigger] r@[t2])@), vv) by {
                    if t2 < r0.len() {
                        assert(r@[t2] == r0[t2]);
                    }
                }
                assert forall|t2: int| 0 <= t2 < t + 1 implies listed(r@, #[trigger] seq![vv[i as int]] + views(ps@[t2]@)) by {
                    if t2 < t {
                        let u = choose|u: int| 0 <= u < r0.len() && views(r0[u]@) == seq![vv[i as int]] + views(ps@[t2]@);
                        assert(r@[u] == r0[u]);
                    } else {
                        assert(views(r@[r0.len() as int]@) == seq![vv[i as int]] + views(ps@[t2]@));
                    }
                }
            }
            t = t + 1;
        }
        proof {
            assert forall|q: Seq<Seq<Label>>, inv: Seq<int>, i2: int|
                #![trigger reorders(q, vv, inv), inv[i2]]
                0 <= i2 < i + 1 && reorders(q, vv, inv) && inv[i2] == 0 implies listed(r@, q) by {
                if i2 < i {
                    assert(listed(r_start, q));
                    let u = choose|u: int| 0 <= u < r_start.len() && views(r_start[u]@) == q;
                    assert(r@[u] == r_start[u]);
                } else {
                    lemma_reorders_drop_first(q, vv, inv, i as int);
                    assert(is_reordering(q.drop_first(), views(rest@)));
                    let t2 = choose|t2: int| 0 <= t2 < ps@.len() && views(ps@[t2]@) == q.drop_first();
                    assert(q[0] == vv[i as int]);
                    assert(q =~= seq![vv[i as int]] + views(ps@[t2]@));
                    assert(listed(r@, seq![vv[i as int]] + views(ps@[t2]@)));
                }
            }
        }
        i = i + 1;
    }
    proof {
        assert forall|q: Seq<Seq<Label>>| #[trigger] is_reordering(q, views(v@)) implies listed(r@, q) by {
            let inv = choose|inv: Seq<int>| #[trigger] reorders(q, views(v@), inv);
            crate::labels::lemma_injection_onto(inv, vv.len() as int, 0);
            let i0 = choose|j: int| 0 <= j < vv.len() && #[trigger] inv[j] == 0;
            assert(reorders(q, vv, inv));
        }
    }
    r
}

/// The strictly increasing sequence of the labels of `s`.
pub open spec fn set_group(s: Set<Label>) -> Seq<Label> {
    choose|g: Seq<Label>| sorted_strict(g) && g.to_set() == s
}

/// A strictly increasing sequence is the `set_group` of its labels.
pub proof fn lemma_set_group(g: Seq<Label>)
    requires
        sorted_strict(g),
    ensures
        set_group(g.to_set()) == g,
{
    let c = set_group(g.to_set());
    assert(sorted_strict(c) && c.to_set() == g.to_set());
    crate::labels::lemma_sorted_set_eq(c, g);
}

/// The groups of the line that combining `a` and `b` gives when group `i` of `a` and group
/// `j` of `b` are united and the other groups of `a` are intersected with those of `b` in
/// the order `q`, before sorting.
pub open spec fn combo_groups(a: Seq<Seq<Label>>, b: Seq<Seq<Label>>, i: int, j: int, q: Seq<Seq<Label>>) -> Seq<Seq<Label>> {
    let rest = a.remove(i);
    seq![set_group(a[i].to_set().union(b[j].to_set()))]
        + Seq::new(rest.len(), |k: int| set_group(rest[k].to_set().intersect(q[k].to_set())))
}

/// The line `combo_groups(a, b, i, j, q)` with its positions sorted.
pub open spec fn group_combo(a: Seq<Seq<Label>>, b: Seq<Seq<Label>>, i: int, j: int, q: Seq<Seq<Label>>) -> Seq<Seq<Label>> {
    combo_groups(a, b, i, j, q).sort_by(crate::labels::lex_order())
}

/// `x` is a line with nonempty groups that combining `a` and `b` gives (see `group_combo`),
/// the remaining groups of `b` taken in some order.
pub open spec fn is_group_combination(x: Seq<Seq<Label>>, a: Seq<Seq<Label>>, b: Seq<Seq<Label>>) -> bool {
    exists|i: int, j: int, q: Seq<Seq<Label>>|
        #![trigger group_combo(a, b, i, j, q)]
        0 <= i < a.len() && 0 <= j < b.len() && is_reordering(q, b.remove(j)) && all_nonempty(combo_groups(a, b, i, j, q))
            && x == group_combo(a, b, i, j, q)
}

/// The lines obtained by combining `a` and `b`: one position takes the union of a group of
/// `a` and a group of `b`, and the other positions take the intersections of the remaining
/// groups of `a` with the remaining groups of `b` in some order (see `group_combo`). Exactly
/// the lines whose groups are all nonempty are listed, each with its positions sorted.
fn combine(a: &Vec<Vec<Label>>, b: &Vec<Vec<Label>>) -> (r: Vec<Vec<Vec<Label>>>)
    requires
        a.len() == b.len(),
        a.len() >= 1,
        positions_wf(views(a@)),
        positions_wf(views(b@)),
    ensures
        forall|t: int|
            0 <= t < r@.len() ==> (#[trigger] r@[t])@.len() == a@.len() && positions_wf(views(r@[t]@))
                && all_nonempty(views(r@[t]@)) && sorted_lex(views(r@[t]@)),
        forall|t: int, x: Label|
            0 <= t < r@.len() && #[trigger] pos_has(views(r@[t]@), x) ==> pos_has(views(a@), x) || pos_has(views(b@), x),
        forall|t: int| 0 <= t < r@.len() ==> is_group_combination(views((#[trigger] r@[t])@), views(a@), views(b@)),
        forall|i: int, j: int, q: Seq<Seq<Label>>|
            0 <= i < a@.len() && 0 <= j < b@.len() && is_reordering(q, views(b@).remove(j))
                && all_nonempty(combo_groups(views(a@), views(b@), i, j, q))
                ==> #[trigger] listed(r@, group_combo(views(a@), views(b@), i, j, q)),
{
    let d = a.len();
    let ghost av = views(a@);
    let ghost bv = views(b@);
    let mut r: Vec<Vec<Vec<Label>>> = Vec::new();
    let mut i: usize = 0;
    while i < d
        invariant
            d == a.len(),
            d == b.len(),
            i <= d,
            av == views(a@),
            bv == views(b@),
            positions_wf(views(a@)),
            positions_wf(views(b@)),
            forall|t: int|
                0 <= t < r@.len() ==> (#[trigger] r@[t])@.len() == a@.len() && positions_wf(views(r@[t]@))
                    && all_nonempty(views(r@[t]@)) && sorted_lex(views(r@[t]@)),
            forall|t: int, x: Label|
                0 <= t < r@.len() && #[trigger] pos_has(views(r@[t]@), x) ==> pos_has(views(a@), x) || pos_has(views(b@), x),
            forall|t: int| 0 <= t < r@.len() ==> is_group_combination(views((#[trigger] r@[t])@), av, bv),
            forall|i2: int, j2: int, q: Seq<Seq<Label>>|
                0 <= i2 < i && 0 <= j2 < d && is_reordering(q, bv.remove(j2)) && all_nonempty(combo_groups(av, bv, i2, j2, q))
                    ==> #[trigger] listed(r@, group_combo(av, bv, i2, j2, q)),
        decreases d - i,
    {
        let a_rest = remove_at(a, i);
        let mut j: usize = 0;
        while j < d
            invariant
                d == a.len(),
                d == b.len(),
                i < d,
                j <= d,
                av == views(a@),
                bv == views(b@),
                positions_wf(views(a@)),
                positions_wf(views(b@)),
                views(a_rest@) == views(a@).remove(i as int),
                a_rest@.len() == d - 1,
                forall|t: int|
                    0 <= t < r@.len() ==> (#[trigger] r@[t])@.len() == a@.len() && positions_wf(views(r@[t]@))
                        && all_nonempty(views(r@[t]@)) && sorted_lex(views(r@[t]@)),
                forall|t: int, x: Label|
                    0 <= t < r@.len() && #[trigger] pos_has(views(r@[t]@), x) ==> pos_has(views(a@), x) || pos_has(views(b@), x),
                forall|t: int| 0 <= t < r@.len() ==> is_group_combination(views((#[trigger] r@[t])@), av, bv),
                forall|i2: int, j2: int, q: Seq<Seq<Label>>|
                    0 <= i2 < i && 0 <= j2 < d && is_reordering(q, bv.remove(j2)) && all_nonempty(combo_groups(av, bv, i2, j2, q))
                        ==> #[trigger] listed(r@, group_combo(av, bv, i2, j2, q)),
                forall|j2: int, q: Seq<Seq<Label>>|
                    0 <= j2 < j && is_reordering(q, bv.remove(j2)) && all_nonempty(combo_groups(av, bv, i as int, j2, q))
                        ==> #[trigger] listed(r@, group_combo(av, bv, i as int, j2, q)),
            decreases d - j,
        {
            let b_rest = remove_at(b, j);
            let perms = permutations(&b_rest);
            let mut t: usize = 0;
            while t < perms.len()
                invariant
                    d == a.len(),
                    d == b.len(),
                    i < d,
                    j < d,
                    av == views(a@),
                    bv == views(b@),
                    positions_wf(views(a@)),
                    positions_wf(views(b@)),
                    views(a_rest@) == views(a@).remove(i as int),
                    a_rest@.len() == d - 1,
                    forall|t2: int| 0 <= t2 < perms@.len() ==> (#[trigger] perms@[t2])@.len() == b_rest@.len(),
                    forall|t2: int| 0 <= t2 < perms@.len() ==> is_reordering(views((#[trigger] perms@[t2])@), views(b_rest@)),
                    b_rest@.len() == d - 1,
                    forall|t2: int|
                        0 <= t2 < r@.len() ==> (#[trigger] r@[t2])@.len() == a@.len() && positions_wf(views(r@[t2]@))
                            && all_nonempty(views(r@[t2]@)) && sorted_lex(views(r@[t2]@)),
                    forall|t2: int, x: Label|
                        0 <= t2 < r@.len() && #[trigger] pos_has(views(r@[t2]@), x) ==> pos_has(views(a@), x) || pos_has(views(b@), x),
                    forall|t2: int, k: int|
                        0 <= t2 < perms@.len() && 0 <= k < b_rest@.len() ==> views(b_rest@).contains(#[trigger] views(perms@[t2]@)[k]),
                    views(b_rest@) == views(b@).remove(j as int),
                    forall|t2: int| 0 <= t2 < r@.len() ==> is_group_combination(views((#[trigger] r@[t2])@), av, bv),
                    forall|i2: int, j2: int, q: Seq<Seq<Label>>|
                        0 <= i2 < i && 0 <= j2 < d && is_reordering(q, bv.remove(j2)) && all_nonempty(combo_groups(av, bv, i2, j2, q))
                            ==> #[trigger] listed(r@, group_combo(av, bv, i2, j2, q)),
                    forall|j2: int, q: Seq<Seq<Label>>|
                        0 <= j2 < j && is_reordering(q, bv.remove(j2)) && all_nonempty(combo_groups(av, bv, i as int, j2, q))
                            ==> #[trigger] listed(r@, group_combo(av, bv, i as int, j2, q)),
                    forall|t2: int| 0 <= t2 < t && all_nonempty(combo_groups(av, bv, i as int, j as int, views(perms@[t2]@)))
                        ==> #[trigger] listed(r@, group_combo(av, bv, i as int, j as int, views(perms@[t2]@))),
                decreases perms.len() - t,
            {
                let p = &perms[t];
                let ghost pv = views(p@);
                let ghost arv = views(a_rest@);
                let ghost full = combo_groups(av, bv, i as int, j as int, pv);
                let mut line: Vec<Vec<Label>> = Vec::new();
                proof {
                    assert(views(a@)[i as int] == a@[i as int]@);
                    assert(views(b@)[j as int] == b@[j as int]@);
                }
                let u = union(&a[i], &b[j]);
                let mut ok = u.len() > 0;
                line.push(u);
                proof {
                    lemma_set_group(u@);
                    assert(full.len() == d);
                    assert(full[0] == u@);
                    if !ok {
                        assert(full[0].len() == 0);
                    }
                    assert(views(line@) =~= full.subrange(0, 1));
                    assert forall|x: Label| #[trigger] pos_has(views(line@), x) implies pos_has(views(a@), x) || pos_has(views(b@), x) by {
                        assert(views(line@)[0] == u@);
                        assert(u@.to_set().contains(x));
                        if a@[i as int]@.to_set().contains(x) {
                            assert(views(a@)[i as int].contains(x));
                        } else {
                            assert(views(b@)[j as int].contains(x));
                        }
                    }
                }
                let mut k: usize = 0;
                while k < d - 1 && ok
                    invariant
                        d == a.len(),
                        i < d,
                        k <= d - 1,
                        a_rest@.len() == d - 1,
                        p@.len() == d - 1,
                        pv == views(p@),
                        arv == views(a_rest@),
                        av == views(a@),
                        full == combo_groups(av, bv, i as int, j as int, pv),
                        full.len() == d,
                        positions_wf(views(a@)),
                        views(a_rest@) == views(a@).remove(i as int),
                        line@.len() == k + 1,
                        views(line@) == full.subrange(0, k + 1),
                        ok ==> positions_wf(views(line@)) && all_nonempty(views(line@)),
                        !ok ==> !all_nonempty(full),
                        forall|x: Label| #[trigger] pos_has(views(line@), x) ==> pos_has(views(a@), x) || pos_has(views(b@), x),
                    decreases d - 1 - k,
                {
                    proof {
                        let m = if k < i { k as int } else { k + 1 };
                        assert(views(a_rest@)[k as int] == views(a@)[m]);
                        assert(views(a_rest@)[k as int] == a_rest@[k as int]@);
                        assert(views(p@)[k as int] == p@[k as int]@);
                        assert(sorted_strict(views(a@)[m]));
                    }
                    let g = intersect(&a_rest[k], &p[k]);
                    if g.len() == 0 {
                        ok = false;
                    }
                    let ghost l0 = line@;
                    line.push(g);
                    proof {
                        lemma_set_group(g@);
                        assert(full[k + 1] == set_group(arv[k as int].to_set().intersect(pv[k as int].to_set())));
                        assert(views(line@) =~= views(l0).push(g@));
                        assert(views(line@) =~= full.subrange(0, k + 2));
                        if !ok {
                            assert(full[k + 1].len() == 0);
                        }
                        assert forall|x: Label| #[trigger] pos_has(views(line@), x) implies pos_has(views(a@), x) || pos_has(views(b@), x) by {
                            let mm = choose|mm: int| 0 <= mm < views(line@).len() && (#[trigger] views(line@)[mm]).contains(x);
                            if mm == views(line@).len() - 1 {
                                assert(g@.to_set().contains(x));
                                let m = if k < i { k as int } else { k + 1 };
                                assert(views(a@)[m].contains(x));
                            } else {
                                assert(views(l0)[mm] == views(line@)[mm]);
                                assert(pos_has(views(l0), x));
                            }
                        }
                    }
                    k = k + 1;
                }
                if ok {
                    let ghost lv = views(line@);
                    proof {
                        assert(lv =~= full);
                    }
                    let sorted = sort_lex(line);
                    proof {
                        assert forall|k2: int| 0 <= k2 < sorted@.len() implies sorted_strict(#[trigger] views(sorted@)[k2]) by {
                            assert(lv.contains(views(sorted@)[k2]));
                        }
                        assert forall|k2: int| 0 <= k2 < sorted@.len() implies (#[trigger] views(sorted@)[k2]).len() > 0 by {
                            assert(lv.contains(views(sorted@)[k2]));
                        }
                        let inv = choose|inv: Seq<int>| #[trigger] reorders(views(sorted@), lv, inv);
                        assert forall|x: Label| #[trigger] pos_has(views(sorted@), x) implies pos_has(views(a@), x) || pos_has(views(b@), x) by {
                            let mm = choose|mm: int| 0 <= mm < views(sorted@).len() && (#[trigger] views(sorted@)[mm]).contains(x);
                            assert(lv.contains(views(sorted@)[mm]));
                            let q = choose|q: int| 0 <= q < lv.len() && lv[q] == views(sorted@)[mm];
                            assert(pos_has(lv, x));
                        }
                        crate::labels::lemma_sorted_lex_is_sort(views(sorted@), lv);
                        assert(views(sorted@) == group_combo(av, bv, i as int, j as int, pv));
                        assert(is_reordering(pv, bv.remove(j as int)));
                    }
                    let ghost r0 = r@;
                    r.push(sorted);
                    proof {
                        assert(views(r@[r0.len() as int]@) == group_combo(av, bv, i as int, j as int, pv));
                        assert(is_group_combination(views(r@[r0.len() as int]@), av, bv));
                        assert forall|t2: int, x: Label| 0 <= t2 < r@.len() && #[trigger] pos_has(views(r@[t2]@), x) implies pos_has(views(a@), x) || pos_has(views(b@), x) by {
                            if t2 < r0.len() {
                                assert(r@[t2] == r0[t2]);
                            }
                        }
                        assert forall|t2: int| 0 <= t2 < r@.len() implies is_group_combination(views((#[trigger] r@[t2])@), av, bv) by {
                            if t2 < r0.len() {
                                assert(r@[t2] == r0[t2]);
                            }
                        }
                        assert forall|i2: int, j2: int, q: Seq<Seq<Label>>|
                            0 <= i2 < i && 0 <= j2 < d && is_reordering(q, bv.remove(j2)) && all_nonempty(combo_groups(av, bv, i2, j2, q))
                                implies #[trigger] listed(r@, group_combo(av, bv, i2, j2, q)) by {
                            lemma_listed_push(r0, sorted, group_combo(av, bv, i2, j2, q));
                        }
                        assert forall|j2: int, q: Seq<Seq<Label>>|
                            0 <= j2 < j && is_reordering(q, bv.remove(j2)) && all_nonempty(combo_groups(av, bv, i as int, j2, q))
                                implies #[trigger] listed(r@, group_combo(av, bv, i as int, j2, q)) by {
                            lemma_listed_push(r0, sorted, group_combo(av, bv, i as int, j2, q));
                        }
                        assert forall|t2: int| 0 <= t2 < t + 1 && all_nonempty(combo_groups(av, bv, i as int, j as int, views(perms@[t2]@)))
                            implies #[trigger] listed(r@, group_combo(av, bv, i as int, j as int, views(perms@[t2]@))) by {
                            if t2 < t {
                                lemma_listed_push(r0, sorted, group_combo(av, bv, i as int, j as int, views(perms@[t2]@)));
                            }
                        }
                    }
                }
                t = t + 1;
            }
            proof {
                assert forall|j2: int, q: Seq<Seq<Label>>|
                    0 <= j2 < j + 1 && is_reordering(q, bv.remove(j2)) && all_nonempty(combo_groups(av, bv, i as int, j2, q))
                        implies #[trigger] listed(r@, group_combo(av, bv, i as int, j2, q)) by {
                    if j2 == j {
                        assert(is_reordering(q, views(b_rest@)));
                        assert(listed(perms@, q));
                        let t2 = choose|t2: int| 0 <= t2 < perms@.len() && views(perms@[t2]@) == q;
                        assert(listed(r@, group_combo(av, bv, i as int, j as int, views(perms@[t2]@))));
                    }
                }
            }
            j = j + 1;
        }
        i = i + 1;
    }
    r
}

/// Every line that `add_discard` leaves is the new line or was there before.
pub proof fn lemma_add_discard_elements(dg: Option<Seq<(Label, Label)>>, cur: Seq<Seq<PartV>>, n: Seq<PartV>)
    ensures
        forall|i: int|
            0 <= i < add_discard(dg, cur, n).len() ==> #[trigger] add_discard(dg, cur, n)[i] == n
                || cur.contains(add_discard(dg, cur, n)[i]),
{
    let pred = |l: Seq<PartV>| !included(dg, positions(l), positions(n));
    let res = add_discard(dg, cur, n);
    if !exists|i: int| 0 <= i < cur.len() && #[trigger] included(dg, positions(n), positions(cur[i])) {
        let f = cur.filter(pred);
        assert forall|i: int| 0 <= i < res.len() implies #[trigger] res[i] == n || cur.contains(res[i]) by {
            if i < f.len() {
                assert(res[i] == f[i]);
                assert(f.contains(f[i]));
                cur.lemma_filter_contains_rev(pred, f[i]);
            }
        }
    }
}

/// A line in normal form: well formed, of degree `d`, with sorted positions that are all nonempty.
pub open spec fn normal_line(l: Seq<PartV>, d: int) -> bool {
    &&& line_wf(l)
    &&& positions(l).len() == d
    &&& sorted_lex(positions(l))
    &&& all_nonempty(positions(l))
}

/// The expanded positions of every line of the list.
pub(crate) fn expand_all(lines: &Vec<Line>) -> (r: Vec<Vec<Vec<Label>>>)
    ensures
        r@.len() == lines@.len(),
        forall|i: int| 0 <= i < r@.len() ==> views((#[trigger] r@[i])@) == positions(lines@[i]@),
{
    let mut r: Vec<Vec<Vec<Label>>> = Vec::new();
    let mut i: usize = 0;
    while i < lines.len()
        invariant
            i <= lines.len(),
            r@.len() == i,
            forall|k: int| 0 <= k < r@.len() ==> views((#[trigger] r@[k])@) == positions(lines@[k]@),
        decreases lines.len() - i,
    {
        r.push(lines[i].expand());
        i = i + 1;
    }
    r
}

/// Whether every group of the positions has a label.
fn all_nonempty_exec(p: &Vec<Vec<Label>>) -> (r: bool)
    ensures
        r == all_nonempty(views(p@)),
{
    let mut i: usize = 0;
    while i < p.len()
        invariant
            i <= p.len(),
            forall|k: int| 0 <= k < i ==> (#[trigger] views(p@)[k]).len() > 0,
        decreases p.len() - i,
    {
        if p[i].len() == 0 {
            assert(views(p@)[i as int] == p@[i as int]@);
            return false;
        }
        assert(views(p@)[i as int] == p@[i as int]@);
        i = i + 1;
    }
    true
}

/// The labels that occur in the positions `pos`.
pub open spec fn pos_labels(pos: Seq<Seq<Label>>) -> Set<Label> {
    Set::new(|x: Label| pos_has(pos, x))
}

/// Finitely many labels occur in a list of positions.
pub proof fn lemma_pos_labels_finite(pos: Seq<Seq<Label>>)
    ensures
        pos_labels(pos).finite(),
    decreases pos.len(),
{
    if pos.len() == 0 {
        assert(pos_labels(pos) =~= Set::<Label>::empty());
    } else {
        let init = pos.drop_last();
        lemma_pos_labels_finite(init);
        assert(pos_labels(pos).subset_of(pos_labels(init).union(pos.last().to_set()))) by {
            assert forall|x: Label| pos_labels(pos).contains(x) implies pos_labels(init).union(pos.last().to_set()).contains(x) by {
                let m = choose|m: int| 0 <= m < pos.len() && (#[trigger] pos[m]).contains(x);
                if m < pos.len() - 1 {
                    assert(init[m] == pos[m]);
                    assert(pos_has(init, x));
                }
            }
        }
        vstd::set_lib::lemma_set_subset_finite(pos_labels(init).union(pos.last().to_set()), pos_labels(pos));
    }
}

/// Finitely many labels occur in a list of lines.
pub proof fn lemma_labels_in_finite(lines: Seq<Seq<PartV>>)
    ensures
        labels_in(lines).finite(),
    decreases lines.len(),
{
    if lines.len() == 0 {
        assert(labels_in(lines) =~= Set::<Label>::empty());
    } else {
        let init = lines.drop_last();
        lemma_labels_in_finite(init);
        lemma_pos_labels_finite(positions(lines.last()));
        let u = labels_in(init).union(pos_labels(positions(lines.last())));
        assert(labels_in(lines).subset_of(u)) by {
            assert forall|x: Label| labels_in(lines).contains(x) implies u.contains(x) by {
                let i = choose|i: int| 0 <= i < lines.len() && #[trigger] pos_has(positions(lines[i]), x);
                if i < lines.len() - 1 {
                    assert(init[i] == lines[i]);
                    assert(pos_has(positions(init[i]), x));
                }
            }
        }
        vstd::set_lib::lemma_set_subset_finite(u, labels_in(lines));
    }
}

/// The sequences of at most `n` elements of `alpha`.
pub open spec fn seqs_upto<A>(alpha: Set<A>, n: nat) -> Set<Seq<A>> {
    Set::new(|s: Seq<A>| s.len() <= n && forall|k: int| 0 <= k < s.len() ==> alpha.contains(#[trigger] s[k]))
}

/// Over a finite set there are finitely many sequences of bounded length.
pub proof fn lemma_seqs_upto_finite<A>(alpha: Set<A>, n: nat)
    requires
        alpha.finite(),
    ensures
        seqs_upto(alpha, n).finite(),
    decreases n,
{
    if n == 0 {
        assert(seqs_upto(alpha, 0) =~= set![Seq::<A>::empty()]) by {
            assert forall|s: Seq<A>| seqs_upto(alpha, 0).contains(s) implies s == Seq::<A>::empty() by {
                assert(s =~= Seq::<A>::empty());
            }
        }
    } else {
        lemma_seqs_upto_finite(alpha, (n - 1) as nat);
        let prev = seqs_upto(alpha, (n - 1) as nat);
        let f = |s: Seq<A>| alpha.map(|x: A| s.push(x));
        prev.lemma_map_finite(f);
        assert forall|s2: Set<Seq<A>>| prev.map(f).contains(s2) implies #[trigger] s2.finite() by {
            let s = choose|s: Seq<A>| prev.contains(s) && f(s) == s2;
            alpha.lemma_map_finite(|x: A| s.push(x));
        }
        prev.map(f).lemma_flatten_finite();
        let u = prev.union(prev.map(f).flatten());
        assert(seqs_upto(alpha, n).subset_of(u)) by {
            assert forall|s: Seq<A>| seqs_upto(alpha, n).contains(s) implies u.contains(s) by {
                if s.len() < n {
                    assert(prev.contains(s));
                } else {
                    let s0 = s.drop_last();
                    assert forall|k: int| 0 <= k < s0.len() implies alpha.contains(#[trigger] s0[k]) by {
                        assert(s0[k] == s[k]);
                    }
                    assert(prev.contains(s0));
                    assert(alpha.contains(s[s.len() - 1]));
                    assert(s0.push(s.last()) =~= s);
                    assert(f(s0).contains(s));
                    assert(prev.map(f).contains(f(s0)));
                }
            }
        }
        vstd::set_lib::lemma_set_subset_finite(u, seqs_upto(alpha, n));
    }
}

/// The strictly increasing sequences of labels of `ls`.
pub open spec fn groups_over(ls: Set<Label>) -> Set<Seq<Label>> {
    Set::new(|g: Seq<Label>| sorted_strict(g) && forall|k: int| 0 <= k < g.len() ==> ls.contains(#[trigger] g[k]))
}

/// The lists of `d` groups over `ls`.
pub open spec fn lines_over(ls: Set<Label>, d: nat) -> Set<Seq<Seq<Label>>> {
    Set::new(|x: Seq<Seq<Label>>| x.len() == d && forall|k: int| 0 <= k < x.len() ==> groups_over(ls).contains(#[trigger] x[k]))
}

/// Over a finite set of labels there are finitely many lists of `d` groups.
pub proof fn lemma_lines_over_finite(ls: Set<Label>, d: nat)
    requires
        ls.finite(),
    ensures
        lines_over(ls, d).finite(),
{
    lemma_seqs_upto_finite(ls, ls.len());
    assert(groups_over(ls).subset_of(seqs_upto(ls, ls.len()))) by {
        assert forall|g: Seq<Label>| groups_over(ls).contains(g) implies seqs_upto(ls, ls.len()).contains(g) by {
            assert(g.no_duplicates()) by {
                assert forall|i: int, j: int| 0 <= i < g.len() && 0 <= j < g.len() && i != j implies g[i] != g[j] by {
                    if i < j {
                        assert(g[i] < g[j]);
                    } else {
                        assert(g[j] < g[i]);
                    }
                }
            }
            g.unique_seq_to_set();
            assert(g.to_set().subset_of(ls)) by {
                assert forall|x: Label| g.to_set().contains(x) implies ls.contains(x) by {
                    let k = choose|k: int| 0 <= k < g.len() && g[k] == x;
                }
            }
            vstd::set_lib::lemma_len_subset(g.to_set(), ls);
        }
    }
    vstd::set_lib::lemma_set_subset_finite(seqs_upto(ls, ls.len()), groups_over(ls));
    lemma_seqs_upto_finite(groups_over(ls), d);
    assert(lines_over(ls, d).subset_of(seqs_upto(groups_over(ls), d)));
    vstd::set_lib::lemma_set_subset_finite(seqs_upto(groups_over(ls), d), lines_over(ls, d));
}

/// The lists of `d` groups over `ls` that no line of `lines` includes.
pub open spec fn uncovered_over(ls: Set<Label>, d: nat, lines: Seq<Seq<PartV>>) -> Set<Seq<Seq<Label>>> {
    lines_over(ls, d).filter(|x: Seq<Seq<Label>>| !covers(None, lines, x))
}

/// Every combination of two lines of `lines` whose groups are all nonempty (see
/// `group_combo`) is included in one of them.
pub open spec fn closed_groups(lines: Seq<Seq<PartV>>, dd: int) -> bool {
    forall|i: int, j: int, ii: int, jj: int, q: Seq<Seq<Label>>|
        0 <= i < lines.len() && 0 <= j < lines.len() && 0 <= ii < dd && 0 <= jj < dd
            && is_reordering(q, positions(lines[j]).remove(jj))
            && all_nonempty(combo_groups(positions(lines[i]), positions(lines[j]), ii, jj, q))
            ==> #[trigger] covers(None, lines, group_combo(positions(lines[i]), positions(lines[j]), ii, jj, q))
}

/// `x` is in `base`, or is obtained from lines of `base` by at most `n` rounds of
/// combination (see `is_group_combination`).
pub open spec fn group_derived_in(base: Set<Seq<Seq<Label>>>, n: nat, x: Seq<Seq<Label>>) -> bool
    decreases n,
{
    if n == 0 {
        base.contains(x)
    } else {
        ||| group_derived_in(base, (n - 1) as nat, x)
        ||| exists|a: Seq<Seq<Label>>, b: Seq<Seq<Label>>|
            #![trigger is_group_combination(x, a, b)]
            group_derived_in(base, (n - 1) as nat, a) && group_derived_in(base, (n - 1) as nat, b)
                && is_group_combination(x, a, b)
    }
}

/// `x` is obtained from lines of `base` by repeated combination.
pub open spec fn group_derivable(base: Set<Seq<Seq<Label>>>, x: Seq<Seq<Label>>) -> bool {
    exists|n: nat| #[trigger] group_derived_in(base, n, x)
}

/// The positions of every line of `lines` are derivable from `base`.
pub open spec fn all_group_derivable(base: Set<Seq<Seq<Label>>>, lines: Seq<Seq<PartV>>) -> bool {
    forall|t: int| 0 <= t < lines.len() ==> group_derivable(base, positions(#[trigger] lines[t]))
}

/// The reorderings of the positions of the lines of `lines` whose groups are all nonempty.
pub open spec fn nonempty_reorderings(lines: Seq<Line>) -> Set<Seq<Seq<Label>>> {
    Set::new(|x: Seq<Seq<Label>>| exists|k: int|
        0 <= k < lines.len() && all_nonempty(positions(#[trigger] lines[k]@)) && is_reordering(x, positions(lines[k]@)))
}

/// More rounds derive no less.
pub proof fn lemma_group_derived_more(base: Set<Seq<Seq<Label>>>, n: nat, m: nat, x: Seq<Seq<Label>>)
    requires
        n <= m,
        group_derived_in(base, n, x),
    ensures
        group_derived_in(base, m, x),
    decreases m,
{
    if m > n {
        lemma_group_derived_more(base, n, (m - 1) as nat, x);
    }
}

/// A combination of two derivable lines is derivable.
pub proof fn lemma_group_derivable_combination(base: Set<Seq<Seq<Label>>>, a: Seq<Seq<Label>>, b: Seq<Seq<Label>>, x: Seq<Seq<Label>>)
    requires
        group_derivable(base, a),
        group_derivable(base, b),
        is_group_combination(x, a, b),
    ensures
        group_derivable(base, x),
{
    let na = choose|n: nat| #[trigger] group_derived_in(base, n, a);
    let nb = choose|n: nat| #[trigger] group_derived_in(base, n, b);
    let n: nat = if na < nb { nb } else { na };
    lemma_group_derived_more(base, na, n, a);
    lemma_group_derived_more(base, nb, n, b);
    assert(group_derived_in(base, n + 1, x));
}

/// Lexicographic order on lists of positions, the positions compared by `lex_lt`.
pub open spec fn line_lt(a: Seq<Seq<Label>>, b: Seq<Seq<Label>>) -> bool
    decreases a.len(),
{
    if a.len() == 0 {
        b.len() > 0
    } else if b.len() == 0 {
        false
    } else if lex_lt(a[0], b[0]) {
        true
    } else if a[0] == b[0] {
        line_lt(a.drop_first(), b.drop_first())
    } else {
        false
    }
}

/// The order on lists of positions is total, asymmetric and irreflexive.
pub proof fn lemma_line_lt_total(a: Seq<Seq<Label>>, b: Seq<Seq<Label>>)
    ensures
        a != b ==> (line_lt(a, b) || line_lt(b, a)),
        !(line_lt(a, b) && line_lt(b, a)),
        !line_lt(a, a),
    decreases a.len(),
{
    if a.len() > 0 {
        crate::labels::lemma_lex_total(a[0], a[0]);
        lemma_line_lt_total(a.drop_first(), a.drop_first());
    }
    if a.len() > 0 && b.len() > 0 {
        crate::labels::lemma_lex_total(a[0], b[0]);
        if a[0] == b[0] {
            lemma_line_lt_total(a.drop_first(), b.drop_first());
            if a != b {
                assert(a.drop_first() != b.drop_first()) by {
                    if a.drop_first() == b.drop_first() {
                        assert(a =~= b) by {
                            assert forall|k: int| 0 <= k < a.len() implies a[k] == b[k] by {
                                if k > 0 {
                                    assert(a[k] == a.drop_first()[k - 1]);
                                    assert(b[k] == b.drop_first()[k - 1]);
                                }
                            }
                        }
                    }
                }
            }
        }
    } else if a.len() == 0 && b.len() == 0 {
        assert(a =~= b);
    }
}

/// The order on lists of positions is transitive.
pub proof fn lemma_line_lt_trans(a: Seq<Seq<Label>>, b: Seq<Seq<Label>>, c: Seq<Seq<Label>>)
    requires
        line_lt(a, b),
        line_lt(b, c),
    ensures
        line_lt(a, c),
    decreases a.len(),
{
    if a.len() > 0 && b.len() > 0 && c.len() > 0 {
        crate::labels::lemma_lex_total(a[0], b[0]);
        crate::labels::lemma_lex_total(b[0], c[0]);
        crate::labels::lemma_lex_total(a[0], c[0]);
        if lex_lt(a[0], b[0]) && lex_lt(b[0], c[0]) {
            crate::labels::lemma_lex_trans(a[0], b[0], c[0]);
        }
        if a[0] == b[0] && b[0] == c[0] {
            lemma_line_lt_trans(a.drop_first(), b.drop_first(), c.drop_first());
        }
    }
}

/// Whether the positions `a` come strictly before the positions `b` (see `line_lt`).
fn line_less(a: &Vec<Vec<Label>>, b: &Vec<Vec<Label>>) -> (r: bool)
    ensures
        r == line_lt(views(a@), views(b@)),
{
    let ghost av = views(a@);
    let ghost bv = views(b@);
    assert(av.skip(0) =~= av);
    assert(bv.skip(0) =~= bv);
    let mut i: usize = 0;
    while i < a.len() && i < b.len()
        invariant
            i <= a.len(),
            i <= b.len(),
            av == views(a@),
            bv == views(b@),
            line_lt(av, bv) == line_lt(av.skip(i as int), bv.skip(i as int)),
        decreases a.len() - i,
    {
        let ghost sa = av.skip(i as int);
        let ghost sb = bv.skip(i as int);
        assert(sa[0] == a@[i as int]@);
        assert(sb[0] == b@[i as int]@);
        if crate::labels::lex_less(&a[i], &b[i]) {
            return true;
        }
        if crate::labels::lex_less(&b[i], &a[i]) {
            return false;
        }
        proof {
            crate::labels::lemma_lex_total(sa[0], sb[0]);
            assert(sa.drop_first() =~= av.skip(i + 1));
            assert(sb.drop_first() =~= bv.skip(i + 1));
        }
        i = i + 1;
    }
    i == a.len() && i < b.len()
}

/// Each part of the line holds another group than the next part.
pub open spec fn merged_parts(l: Seq<PartV>) -> bool {
    forall|i: int| 0 <= i < l.len() - 1 ==> (#[trigger] l[i]).1 != l[i + 1].1
}

/// The positions of the lines are in strictly increasing order (see `line_lt`).
pub open spec fn lines_sorted(lines: Seq<Line>) -> bool {
    forall|i: int, j: int| 0 <= i < j < lines.len() ==> line_lt(positions(#[trigger] lines[i]@), positions(#[trigger] lines[j]@))
}

/// No two lines of the list have the same positions.
pub open spec fn distinct_positions(lines: Seq<Line>) -> bool {
    forall|i: int, j: int| 0 <= i < lines.len() && 0 <= j < lines.len() && i != j
        ==> positions(#[trigger] lines[i]@) != positions(#[trigger] lines[j]@)
}

/// The lines of `v`, sorted by their positions (see `line_lt`).
fn sort_lines(v: Vec<Line>) -> (r: Vec<Line>)
    requires
        distinct_positions(v@),
    ensures
        r@.len() == v@.len(),
        forall|t: int| 0 <= t < r@.len() ==> lines_view(v@).contains((#[trigger] r@[t])@),
        forall|t: int| 0 <= t < v@.len() ==> lines_view(r@).contains((#[trigger] v@[t])@),
        lines_sorted(r@),
{
    let ghost orig = lines_view(v@);
    let ghost n = v@.len();
    let mut rest = v;
    let mut r: Vec<Line> = Vec::new();
    proof {
        assert forall|t: int| 0 <= t < rest@.len() implies orig.contains((#[trigger] rest@[t])@) by {
            assert(orig[t] == rest@[t]@);
        }
        assert forall|t: int| 0 <= t < n implies lines_view(r@).contains(#[trigger] orig[t]) || lines_view(rest@).contains(orig[t]) by {
            assert(lines_view(rest@)[t] == orig[t]);
        }
    }
    while rest.len() > 0
        invariant
            r@.len() + rest@.len() == n,
            n == orig.len(),
            forall|t: int| 0 <= t < r@.len() ==> orig.contains((#[trigger] r@[t])@),
            forall|t: int| 0 <= t < rest@.len() ==> orig.contains((#[trigger] rest@[t])@),
            forall|t: int| 0 <= t < n ==> lines_view(r@).contains(#[trigger] orig[t]) || lines_view(rest@).contains(orig[t]),
            distinct_positions(rest@),
            lines_sorted(r@),
            forall|i: int, j: int| 0 <= i < r@.len() && 0 <= j < rest@.len()
                ==> line_lt(positions(#[trigger] r@[i]@), positions(#[trigger] rest@[j]@)),
        decreases rest.len(),
    {
        let mut m: usize = 0;
        let mut k: usize = 1;
        while k < rest.len()
            invariant
                m < k <= rest@.len(),
                distinct_positions(rest@),
                forall|t: int| 0 <= t < k && t != m ==> line_lt(positions(rest@[m as int]@), positions(#[trigger] rest@[t]@)),
            decreases rest.len() - k,
        {
            let pk = rest[k].expand();
            let pm = rest[m].expand();
            if line_less(&pk, &pm) {
                proof {
                    assert forall|t: int| 0 <= t < k + 1 && t != k implies line_lt(positions(rest@[k as int]@), positions(#[trigger] rest@[t]@)) by {
                        if t != m {
                            lemma_line_lt_trans(positions(rest@[k as int]@), positions(rest@[m as int]@), positions(rest@[t]@));
                        }
                    }
                }
                m = k;
            } else {
                proof {
                    assert(positions(rest@[k as int]@) != positions(rest@[m as int]@));
                    lemma_line_lt_total(positions(rest@[k as int]@), positions(rest@[m as int]@));
                }
            }
            k = k + 1;
        }
        let ghost r0 = r@;
        let ghost rest0 = rest@;
        let x = rest.remove(m);
        r.push(x);
        proof {
            assert(x == rest0[m as int]);
            assert forall|t: int| 0 <= t < r@.len() implies orig.contains((#[trigger] r@[t])@) by {
                if t < r0.len() {
                    assert(r@[t] == r0[t]);
                }
            }
            assert forall|t: int| 0 <= t < rest@.len() implies orig.contains((#[trigger] rest@[t])@) by {
                if t < m {
                    assert(rest@[t] == rest0[t]);
                } else {
                    assert(rest@[t] == rest0[t + 1]);
                }
            }
            assert forall|t: int| 0 <= t < n implies lines_view(r@).contains(#[trigger] orig[t]) || lines_view(rest@).contains(orig[t]) by {
                if lines_view(r0).contains(orig[t]) {
                    let u = choose|u: int| 0 <= u < lines_view(r0).len() && lines_view(r0)[u] == orig[t];
                    assert(lines_view(r@)[u] == r@[u]@);
                    assert(r@[u] == r0[u]);
                } else {
                    assert(lines_view(rest0).contains(orig[t]));
                    let u = choose|u: int| 0 <= u < lines_view(rest0).len() && lines_view(rest0)[u] == orig[t];
                    if u == m {
                        assert(lines_view(r@)[r0.len() as int] == orig[t]);
                    } else if u < m {
                        assert(rest@[u] == rest0[u]);
                        assert(lines_view(rest@)[u] == orig[t]);
                    } else {
                        assert(rest@[u - 1] == rest0[u]);
                        assert(lines_view(rest@)[u - 1] == orig[t]);
                    }
                }
            }
            assert forall|i: int, j: int| 0 <= i < rest@.len() && 0 <= j < rest@.len() && i != j
                implies positions(#[trigger] rest@[i]@) != positions(#[trigger] rest@[j]@) by {
                let i0 = if i < m { i } else { i + 1 };
                let j0 = if j < m { j } else { j + 1 };
                assert(rest@[i] == rest0[i0]);
                assert(rest@[j] == rest0[j0]);
            }
            assert forall|i: int, j: int| 0 <= i < j < r@.len() implies line_lt(positions(#[trigger] r@[i]@), positions(#[trigger] r@[j]@)) by {
                assert(r@[i] == r0[i]);
                if j < r0.len() {
                    assert(r@[j] == r0[j]);
                } else {
                    assert(line_lt(positions(r0[i]@), positions(rest0[m as int]@)));
                }
            }
            assert forall|i: int, j: int| 0 <= i < r@.len() && 0 <= j < rest@.len()
                implies line_lt(positions(#[trigger] r@[i]@), positions(#[trigger] rest@[j]@)) by {
                let j0 = if j < m { j } else { j + 1 };
                assert(rest@[j] == rest0[j0]);
                if i < r0.len() {
                    assert(r@[i] == r0[i]);
                } else {
                    assert(j0 != m);
                }
            }
        }
    }
    proof {
        assert forall|t: int| 0 <= t < v@.len() implies lines_view(r@).contains((#[trigger] v@[t])@) by {
            assert(orig[t] == v@[t]@);
        }
    }
    r
}

/// `lines` is what maximizing the lines `old` of degree `dd` gives: an antichain of lines in
/// normal form with merged parts, sorted by their positions (see `line_lt`), in which every
/// old line with nonempty groups is included, and every combination of two of its lines (see
/// `closed_groups`), each of its lines coming from the old lines by repeated combination (see
/// `group_derivable`).
pub open spec fn maximized_from(old: Seq<Line>, lines: Seq<Line>, dd: int) -> bool {
    &&& is_antichain(None, lines_view(lines))
    &&& forall|i: int| 0 <= i < lines.len() ==> normal_line(#[trigger] lines[i]@, dd)
    &&& forall|k: int|
        0 <= k < old.len() && all_nonempty(positions(#[trigger] old[k]@))
            ==> covers(None, lines_view(lines), positions(old[k]@))
    &&& closed_groups(lines_view(lines), dd)
    &&& all_group_derivable(nonempty_reorderings(old), lines_view(lines))
    &&& forall|i: int| 0 <= i < lines.len() ==> merged_parts(#[trigger] lines[i]@)
    &&& lines_sorted(lines)
}

/// The lines of `cur` are in normal form of degree `dd`, with merged parts, and use labels of
/// `ls` only.
pub open spec fn normal_over(cur: Seq<Line>, dd: int, ls: Set<Label>) -> bool {
    &&& forall|i: int| 0 <= i < cur.len() ==> normal_line(#[trigger] cur[i]@, dd) && merged_parts(cur[i]@)
    &&& forall|i: int, x: Label| 0 <= i < cur.len() && #[trigger] pos_has(positions(cur[i]@), x) ==> ls.contains(x)
}

/// Adds `nl` to `cur` as `add_line_discarding` does, keeping the lines in normal form over
/// `ls`, keeping an antichain, and keeping covered what was covered.
fn add_normal(cur: &mut Vec<Line>, nl: Line, dd: usize, Ghost(ls): Ghost<Set<Label>>) -> (added: bool)
    requires
        normal_over(old(cur)@, dd as int, ls),
        normal_line(nl@, dd as int),
        merged_parts(nl@),
        forall|x: Label| #[trigger] pos_has(positions(nl@), x) ==> ls.contains(x),
        is_antichain(None, lines_view(old(cur)@)),
    ensures
        normal_over(final(cur)@, dd as int, ls),
        is_antichain(None, lines_view(final(cur)@)),
        covers(None, lines_view(final(cur)@), positions(nl@)),
        forall|x: Seq<Seq<Label>>| covers(None, lines_view(old(cur)@), x) ==> #[trigger] covers(None, lines_view(final(cur)@), x),
        !added ==> lines_view(final(cur)@) == lines_view(old(cur)@),
        added ==> !covers(None, lines_view(old(cur)@), positions(nl@)),
        forall|t: int| 0 <= t < final(cur)@.len() ==> (#[trigger] final(cur)@[t])@ == nl@ || lines_view(old(cur)@).contains(final(cur)@[t]@),
{
    let ghost c0 = lines_view(cur@);
    let ghost nv = nl@;
    let added = add_line_discarding(cur, nl, None);
    proof {
        lemma_add_discard(None, c0, nv);
        lemma_add_discard_elements(None, c0, nv);
        assert forall|t: int| 0 <= t < cur@.len() implies (#[trigger] cur@[t])@ == nv || c0.contains(cur@[t]@) by {
            assert(lines_view(cur@)[t] == cur@[t]@);
        }
        assert forall|i: int| 0 <= i < cur@.len() implies normal_line(#[trigger] cur@[i]@, dd as int) && merged_parts(cur@[i]@) by {
            if cur@[i]@ != nv {
                let j = choose|j: int| 0 <= j < c0.len() && c0[j] == cur@[i]@;
                assert(c0[j] == old(cur)@[j]@);
            }
        }
        assert forall|i: int, x: Label| 0 <= i < cur@.len() && #[trigger] pos_has(positions(cur@[i]@), x) implies ls.contains(x) by {
            if cur@[i]@ != nv {
                let j = choose|j: int| 0 <= j < c0.len() && c0[j] == cur@[i]@;
                assert(c0[j] == old(cur)@[j]@);
                assert(pos_has(positions(old(cur)@[j]@), x));
            }
        }
        if added {
            assert forall|i: int| 0 <= i < c0.len() implies !#[trigger] included(None, positions(nv), positions(c0[i])) by {
                assert(c0[i] == old(cur)@[i]@);
            }
        } else {
            let i = choose|i: int| 0 <= i < old(cur)@.len() && #[trigger] included(None, positions(nv), positions(old(cur)@[i]@));
            assert(c0[i] == old(cur)@[i]@);
            assert(included(None, positions(nv), positions(c0[i])));
            assert(add_discard(None, c0, nv) == c0);
        }
    }
    added
}

impl Constraint {
    /// Brings the constraint into maximal form: pairs of lines are combined (one position
    /// takes the union of two groups, the others the intersections of the remaining groups
    /// matched in every order, see `group_combo`), and lines that another line includes are
    /// discarded, until no combination adds a line. Lines with an empty group are dropped,
    /// and every line left is given in normal form. The result is an antichain that includes
    /// every old line with nonempty groups and every combination of two of its lines, and
    /// each of its lines comes from the old lines by repeated combination. A constraint
    /// already maximized is left as it is.
    pub fn maximize(&mut self)
        requires
            old(self).wf(),
        ensures
            final(self).wf(),
            final(self).degree == old(self).degree,
            final(self).is_maximized,
            old(self).is_maximized ==> lines_view(final(self).lines@) == lines_view(old(self).lines@),
            !old(self).is_maximized ==> maximized_from(old(self).lines@, final(self).lines@, old(self).degree->Finite_0 as int),
            labels_in(lines_view(final(self).lines@)).subset_of(labels_in(lines_view(old(self).lines@))),
    {
        if self.is_maximized {
            return;
        }
        let d: usize = match self.degree {
            Degree::Finite(d) => d,
            Degree::Star => 0,
        };
        let ghost old_lines = self.lines@;
        let ghost ls = labels_in(lines_view(old_lines));
        let ghost base = nonempty_reorderings(old_lines);
        let ghost univ = lines_over(ls, d as nat);
        proof {
            lemma_labels_in_finite(lines_view(old_lines));
            lemma_lines_over_finite(ls, d as nat);
        }
        let mut cur: Vec<Line> = Vec::new();
        let mut k: usize = 0;
        while k < self.lines.len()
            invariant
                self.wf(),
                self.lines@ == old_lines,
                self.degree == Degree::Finite(d),
                k <= self.lines.len(),
                normal_over(cur@, d as int, ls),
                ls == labels_in(lines_view(old_lines)),
                base == nonempty_reorderings(old_lines),
                is_antichain(None, lines_view(cur@)),
                all_group_derivable(base, lines_view(cur@)),
                forall|k2: int|
                    0 <= k2 < k && all_nonempty(positions(#[trigger] old_lines[k2]@))
                        ==> covers(None, lines_view(cur@), positions(old_lines[k2]@)),
            decreases self.lines.len() - k,
        {
            let pos = self.lines[k].expand();
            if all_nonempty_exec(&pos) {
                proof {
                    lemma_positions_wf(self.lines@[k as int]@);
                }
                let ghost pv = views(pos@);
                let sorted = sort_lex(pos);
                proof {
                    assert forall|k2: int| 0 <= k2 < sorted@.len() implies sorted_strict(#[trigger] views(sorted@)[k2]) && views(sorted@)[k2].len() > 0 by {
                        assert(pv.contains(views(sorted@)[k2]));
                    }
                }
                let nl = Line::from_sorted_positions(&sorted);
                let ghost c0 = lines_view(cur@);
                proof {
                    assert forall|x: Label| #[trigger] pos_has(positions(nl@), x) implies ls.contains(x) by {
                        let mm = choose|mm: int| 0 <= mm < views(sorted@).len() && (#[trigger] views(sorted@)[mm]).contains(x);
                        assert(pv.contains(views(sorted@)[mm]));
                        let q = choose|q: int| 0 <= q < pv.len() && pv[q] == views(sorted@)[mm];
                        assert(pos_has(pv, x));
                        assert(lines_view(old_lines)[k as int] == old_lines[k as int]@);
                        assert(pos_has(positions(lines_view(old_lines)[k as int]), x));
                    }
                }
                add_normal(&mut cur, nl, d, Ghost(ls));
                proof {
                    let inv = choose|inv: Seq<int>| #[trigger] reorders(views(sorted@), pv, inv);
                    assert(base.contains(positions(nl@)));
                    assert(group_derived_in(base, 0, positions(nl@)));
                    assert forall|t: int| 0 <= t < lines_view(cur@).len()
                        implies group_derivable(base, positions(#[trigger] lines_view(cur@)[t])) by {
                        assert(lines_view(cur@)[t] == cur@[t]@);
                        if cur@[t]@ != nl@ {
                            let u = choose|u: int| 0 <= u < c0.len() && c0[u] == cur@[t]@;
                        }
                    }
                    lemma_included_refl(None, pv);
                    lemma_included_reorder_big(None, pv, pv, views(sorted@), inv);
                    let i0 = choose|i: int| 0 <= i < lines_view(cur@).len() && #[trigger] included(None, positions(nl@), positions(lines_view(cur@)[i]));
                    lemma_included_trans(None, pv, positions(nl@), positions(lines_view(cur@)[i0]));
                    assert(covers(None, lines_view(cur@), pv));
                    assert forall|k2: int|
                        0 <= k2 < k + 1 && all_nonempty(positions(#[trigger] old_lines[k2]@))
                            implies covers(None, lines_view(cur@), positions(old_lines[k2]@)) by {
                        if k2 < k {
                            assert(covers(None, c0, positions(old_lines[k2]@)));
                        }
                    }
                }
            }
            k = k + 1;
        }
        let mut changed = true;
        while changed
            invariant
                d >= 1,
                normal_over(cur@, d as int, ls),
                ls == labels_in(lines_view(old_lines)),
                base == nonempty_reorderings(old_lines),
                univ == lines_over(ls, d as nat),
                univ.finite(),
                is_antichain(None, lines_view(cur@)),
                all_group_derivable(base, lines_view(cur@)),
                forall|k2: int|
                    0 <= k2 < old_lines.len() && all_nonempty(positions(#[trigger] old_lines[k2]@))
                        ==> covers(None, lines_view(cur@), positions(old_lines[k2]@)),
                !changed ==> closed_groups(lines_view(cur@), d as int),
            decreases (if changed { 1int } else { 0int }) + uncovered_over(ls, d as nat, lines_view(cur@)).len(),
        {
            let ghost c0 = lines_view(cur@);
            let ghost u0 = uncovered_over(ls, d as nat, c0);
            proof {
                vstd::set_lib::lemma_set_subset_finite(univ, u0);
            }
            changed = false;
            let snap = expand_all(&cur);
            let ghost sv = snap@;
            proof {
                assert forall|t: int| 0 <= t < snap@.len() implies (#[trigger] snap@[t])@.len() == d && positions_wf(views(snap@[t]@)) by {
                    assert(normal_line(cur@[t]@, d as int));
                    lemma_positions_wf(cur@[t]@);
                    assert(views(snap@[t]@).len() == snap@[t]@.len());
                }
                assert forall|t: int, x: Label| 0 <= t < snap@.len() && #[trigger] pos_has(views(snap@[t]@), x) implies ls.contains(x) by {
                    assert(pos_has(positions(cur@[t]@), x));
                }
                assert forall|t: int| 0 <= t < sv.len() implies group_derivable(base, views((#[trigger] sv[t])@)) by {
                    assert(lines_view(cur@)[t] == cur@[t]@);
                }
            }
            let mut i: usize = 0;
            while i < snap.len()
                invariant
                    d >= 1,
                    sv == snap@,
                    forall|t: int| 0 <= t < snap@.len() ==> (#[trigger] snap@[t])@.len() == d && positions_wf(views(snap@[t]@)),
                    forall|t: int, x: Label| 0 <= t < snap@.len() && #[trigger] pos_has(views(snap@[t]@), x) ==> ls.contains(x),
                    forall|t: int| 0 <= t < sv.len() ==> group_derivable(base, views((#[trigger] sv[t])@)),
                    i <= snap.len(),
                    normal_over(cur@, d as int, ls),
                    univ == lines_over(ls, d as nat),
                    u0 == uncovered_over(ls, d as nat, c0),
                    u0.finite(),
                    is_antichain(None, lines_view(cur@)),
                    all_group_derivable(base, lines_view(cur@)),
                    forall|k2: int|
                        0 <= k2 < old_lines.len() && all_nonempty(positions(#[trigger] old_lines[k2]@))
                            ==> covers(None, lines_view(cur@), positions(old_lines[k2]@)),
                    !changed ==> lines_view(cur@) == c0,
                    changed ==> uncovered_over(ls, d as nat, lines_view(cur@)).len() < u0.len(),
                    uncovered_over(ls, d as nat, lines_view(cur@)).subset_of(u0),
                    !changed ==> forall|i2: int, j2: int, ii: int, jj: int, q: Seq<Seq<Label>>|
                        0 <= i2 < i && 0 <= j2 < sv.len() && 0 <= ii < d && 0 <= jj < d && is_reordering(q, views(sv[j2]@).remove(jj))
                            && all_nonempty(combo_groups(views(sv[i2]@), views(sv[j2]@), ii, jj, q))
                        ==> #[trigger] covers(None, c0, group_combo(views(sv[i2]@), views(sv[j2]@), ii, jj, q)),
                decreases snap.len() - i,
            {
                let mut j: usize = 0;
                while j < snap.len()
                    invariant
                        d >= 1,
                        sv == snap@,
                        forall|t: int| 0 <= t < snap@.len() ==> (#[trigger] snap@[t])@.len() == d && positions_wf(views(snap@[t]@)),
                        forall|t: int, x: Label| 0 <= t < snap@.len() && #[trigger] pos_has(views(snap@[t]@), x) ==> ls.contains(x),
                        forall|t: int| 0 <= t < sv.len() ==> group_derivable(base, views((#[trigger] sv[t])@)),
                        i < snap.len(),
                        j <= snap.len(),
                        normal_over(cur@, d as int, ls),
                        univ == lines_over(ls, d as nat),
                        u0 == uncovered_over(ls, d as nat, c0),
                        u0.finite(),
                        is_antichain(None, lines_view(cur@)),
                        all_group_derivable(base, lines_view(cur@)),
                        forall|k2: int|
                            0 <= k2 < old_lines.len() && all_nonempty(positions(#[trigger] old_lines[k2]@))
                                ==> covers(None, lines_view(cur@), positions(old_lines[k2]@)),
                        !changed ==> lines_view(cur@) == c0,
                        changed ==> uncovered_over(ls, d as nat, lines_view(cur@)).len() < u0.len(),
                        uncovered_over(ls, d as nat, lines_view(cur@)).subset_of(u0),
                        !changed ==> forall|i2: int, j2: int, ii: int, jj: int, q: Seq<Seq<Label>>|
                            0 <= i2 < i && 0 <= j2 < sv.len() && 0 <= ii < d && 0 <= jj < d && is_reordering(q, views(sv[j2]@).remove(jj))
                                && all_nonempty(combo_groups(views(sv[i2]@), views(sv[j2]@), ii, jj, q))
                            ==> #[trigger] covers(None, c0, group_combo(views(sv[i2]@), views(sv[j2]@), ii, jj, q)),
                        !changed ==> forall|j2: int, ii: int, jj: int, q: Seq<Seq<Label>>|
                            0 <= j2 < j && 0 <= ii < d && 0 <= jj < d && is_reordering(q, views(sv[j2]@).remove(jj))
                                && all_nonempty(combo_groups(views(sv[i as int]@), views(sv[j2]@), ii, jj, q))
                            ==> #[trigger] covers(None, c0, group_combo(views(sv[i as int]@), views(sv[j2]@), ii, jj, q)),
                    decreases snap.len() - j,
                {
                    let news = combine(&snap[i], &snap[j]);
                    let ghost ai = views(snap@[i as int]@);
                    let ghost bj = views(snap@[j as int]@);
                    proof {
                        assert(group_derivable(base, views(sv[i as int]@)));
                        assert(group_derivable(base, views(sv[j as int]@)));
                        assert forall|t2: int, x: Label| 0 <= t2 < news@.len() && #[trigger] pos_has(views(news@[t2]@), x) implies ls.contains(x) by {
                            if pos_has(views(snap@[i as int]@), x) {
                            } else {
                                assert(pos_has(views(snap@[j as int]@), x));
                            }
                        }
                    }
                    let mut t: usize = 0;
                    while t < news.len()
                        invariant
                            d >= 1,
                            t <= news.len(),
                            forall|t2: int|
                                0 <= t2 < news@.len() ==> (#[trigger] news@[t2])@.len() == d && positions_wf(views(news@[t2]@))
                                    && all_nonempty(views(news@[t2]@)) && sorted_lex(views(news@[t2]@)),
                            forall|t2: int, x: Label| 0 <= t2 < news@.len() && #[trigger] pos_has(views(news@[t2]@), x) ==> ls.contains(x),
                            forall|t2: int| 0 <= t2 < news@.len() ==> is_group_combination(views((#[trigger] news@[t2])@), ai, bj),
                            group_derivable(base, ai),
                            group_derivable(base, bj),
                            normal_over(cur@, d as int, ls),
                            univ == lines_over(ls, d as nat),
                            u0 == uncovered_over(ls, d as nat, c0),
                            u0.finite(),
                            is_antichain(None, lines_view(cur@)),
                            all_group_derivable(base, lines_view(cur@)),
                            forall|k2: int|
                                0 <= k2 < old_lines.len() && all_nonempty(positions(#[trigger] old_lines[k2]@))
                                    ==> covers(None, lines_view(cur@), positions(old_lines[k2]@)),
                            !changed ==> lines_view(cur@) == c0,
                            changed ==> uncovered_over(ls, d as nat, lines_view(cur@)).len() < u0.len(),
                            uncovered_over(ls, d as nat, lines_view(cur@)).subset_of(u0),
                            !changed ==> forall|t2: int| 0 <= t2 < t ==> #[trigger] covers(None, c0, views(news@[t2]@)),
                            !changed ==> forall|i2: int, j2: int, ii: int, jj: int, q: Seq<Seq<Label>>|
                                0 <= i2 < i && 0 <= j2 < sv.len() && 0 <= ii < d && 0 <= jj < d && is_reordering(q, views(sv[j2]@).remove(jj))
                                    && all_nonempty(combo_groups(views(sv[i2]@), views(sv[j2]@), ii, jj, q))
                                ==> #[trigger] covers(None, c0, group_combo(views(sv[i2]@), views(sv[j2]@), ii, jj, q)),
                            !changed ==> forall|j2: int, ii: int, jj: int, q: Seq<Seq<Label>>|
                                0 <= j2 < j && 0 <= ii < d && 0 <= jj < d && is_reordering(q, views(sv[j2]@).remove(jj))
                                    && all_nonempty(combo_groups(views(sv[i as int]@), views(sv[j2]@), ii, jj, q))
                                ==> #[trigger] covers(None, c0, group_combo(views(sv[i as int]@), views(sv[j2]@), ii, jj, q)),
                        decreases news.len() - t,
                    {
                        let nl = Line::from_sorted_positions(&news[t]);
                        let ghost cb = lines_view(cur@);
                        let ghost ub = uncovered_over(ls, d as nat, cb);
                        proof {
                            assert(views(news@[t as int]@) == positions(nl@));
                            assert forall|x: Label| #[trigger] pos_has(positions(nl@), x) implies ls.contains(x) by {
                                assert(pos_has(views(news@[t as int]@), x));
                            }
                        }
                        let added = add_normal(&mut cur, nl, d, Ghost(ls));
                        proof {
                            let px = positions(nl@);
                            assert(is_group_combination(views(news@[t as int]@), ai, bj));
                            lemma_group_derivable_combination(base, ai, bj, px);
                            assert forall|t2: int| 0 <= t2 < lines_view(cur@).len()
                                implies group_derivable(base, positions(#[trigger] lines_view(cur@)[t2])) by {
                                assert(lines_view(cur@)[t2] == cur@[t2]@);
                                if cur@[t2]@ != nl@ {
                                    let u = choose|u: int| 0 <= u < cb.len() && cb[u] == cur@[t2]@;
                                }
                            }
                            let ca = lines_view(cur@);
                            let ua = uncovered_over(ls, d as nat, ca);
                            assert(ua.subset_of(ub)) by {
                                assert forall|x: Seq<Seq<Label>>| ua.contains(x) implies ub.contains(x) by {
                                    if covers(None, cb, x) {
                                        assert(covers(None, ca, x));
                                    }
                                }
                            }
                            if added {
                                assert forall|kk: int| 0 <= kk < px.len() implies groups_over(ls).contains(#[trigger] px[kk]) by {
                                    assert forall|m: int| 0 <= m < px[kk].len() implies ls.contains(#[trigger] px[kk][m]) by {
                                        assert(px[kk].contains(px[kk][m]));
                                        assert(pos_has(px, px[kk][m]));
                                    }
                                }
                                assert(univ.contains(px));
                                assert(ub.contains(px));
                                assert(!ua.contains(px));
                                assert(ua.subset_of(ub.remove(px)));
                                vstd::set_lib::lemma_set_subset_finite(u0, ub);
                                vstd::set_lib::lemma_len_subset(ua, ub.remove(px));
                                vstd::set_lib::lemma_len_subset(ub, u0);
                            }
                            assert forall|k2: int|
                                0 <= k2 < old_lines.len() && all_nonempty(positions(#[trigger] old_lines[k2]@))
                                    implies covers(None, lines_view(cur@), positions(old_lines[k2]@)) by {
                                assert(covers(None, cb, positions(old_lines[k2]@)));
                            }
                            if !added && !changed {
                                assert forall|t2: int| 0 <= t2 < t + 1 implies #[trigger] covers(None, c0, views(news@[t2]@)) by {
                                    if t2 == t {
                                        assert(ca == c0);
                                    }
                                }
                            }
                        }
                        if added {
                            changed = true;
                        }
                        t = t + 1;
                    }
                    proof {
                        if !changed {
                            assert forall|j2: int, ii: int, jj: int, q: Seq<Seq<Label>>|
                                0 <= j2 < j + 1 && 0 <= ii < d && 0 <= jj < d && is_reordering(q, views(sv[j2]@).remove(jj))
                                    && all_nonempty(combo_groups(views(sv[i as int]@), views(sv[j2]@), ii, jj, q))
                                implies #[trigger] covers(None, c0, group_combo(views(sv[i as int]@), views(sv[j2]@), ii, jj, q)) by {
                                if j2 == j {
                                    assert(views(sv[i as int]@) == views(snap@[i as int]@));
                                    assert(views(sv[j2]@) == views(snap@[j as int]@));
                                    assert(views(snap@[i as int]@).len() == d);
                                    assert(listed(news@, group_combo(views(sv[i as int]@), views(sv[j2]@), ii, jj, q)));
                                    let t2 = choose|t2: int| 0 <= t2 < news@.len() && views(news@[t2]@) == group_combo(views(sv[i as int]@), views(sv[j2]@), ii, jj, q);
                                    assert(covers(None, c0, views(news@[t2]@)));
                                }
                            }
                        }
                    }
                    j = j + 1;
                }
                i = i + 1;
            }
            proof {
                if !changed {
                    assert(closed_groups(lines_view(cur@), d as int)) by {
                        assert forall|i2: int, j2: int, ii: int, jj: int, q: Seq<Seq<Label>>|
                            0 <= i2 < lines_view(cur@).len() && 0 <= j2 < lines_view(cur@).len() && 0 <= ii < d && 0 <= jj < d
                                && is_reordering(q, positions(lines_view(cur@)[j2]).remove(jj))
                                && all_nonempty(combo_groups(positions(lines_view(cur@)[i2]), positions(lines_view(cur@)[j2]), ii, jj, q))
                            implies #[trigger] covers(None, lines_view(cur@), group_combo(positions(lines_view(cur@)[i2]), positions(lines_view(cur@)[j2]), ii, jj, q)) by {
                            assert(lines_view(cur@) == c0);
                            assert(cur@.len() == sv.len());
                            assert(c0[i2] == cur@[i2]@);
                            assert(c0[j2] == cur@[j2]@);
                            assert(views(sv[i2]@) == positions(c0[i2]));
                            assert(views(sv[j2]@) == positions(c0[j2]));
                        }
                    }
                }
            }
        }
        proof {
            assert(distinct_positions(cur@)) by {
                assert forall|i: int, j: int| 0 <= i < cur@.len() && 0 <= j < cur@.len() && i != j
                    implies positions(#[trigger] cur@[i]@) != positions(#[trigger] cur@[j]@) by {
                    assert(lines_view(cur@)[i] == cur@[i]@);
                    assert(lines_view(cur@)[j] == cur@[j]@);
                    lemma_included_refl(None, positions(cur@[i]@));
                }
            }
        }
        let ghost cv = lines_view(cur@);
        let sorted = sort_lines(cur);
        proof {
            let sv = lines_view(sorted@);
            // every line of one list is a line of the other
            assert forall|t: int| 0 <= t < sv.len() implies cv.contains(#[trigger] sv[t]) by {
                assert(sv[t] == sorted@[t]@);
            }
            assert forall|t: int| 0 <= t < cv.len() implies sv.contains(#[trigger] cv[t]) by {
                assert(cv[t] == cur@[t]@);
            }
            assert forall|x: Seq<Seq<Label>>| covers(None, cv, x) implies #[trigger] covers(None, sv, x) by {
                let i = choose|i: int| 0 <= i < cv.len() && #[trigger] included(None, x, positions(cv[i]));
                assert(sv.contains(cv[i]));
                let j = choose|j: int| 0 <= j < sv.len() && sv[j] == cv[i];
                assert(included(None, x, positions(sv[j])));
            }
            assert forall|i: int| 0 <= i < sorted@.len() implies normal_line(#[trigger] sorted@[i]@, d as int) && merged_parts(sorted@[i]@) by {
                assert(sv[i] == sorted@[i]@);
                let u = choose|u: int| 0 <= u < cv.len() && cv[u] == sv[i];
                assert(cv[u] == cur@[u]@);
            }
            assert forall|i: int, x: Label| 0 <= i < sorted@.len() && #[trigger] pos_has(positions(sorted@[i]@), x) implies ls.contains(x) by {
                assert(sv[i] == sorted@[i]@);
                let u = choose|u: int| 0 <= u < cv.len() && cv[u] == sv[i];
                assert(cv[u] == cur@[u]@);
                assert(pos_has(positions(cur@[u]@), x));
            }
            assert(is_antichain(None, sv)) by {
                assert forall|i: int, j: int| 0 <= i < sv.len() && 0 <= j < sv.len() && i != j
                    implies !#[trigger] included(None, positions(sv[i]), positions(sv[j])) by {
                    assert(sv[i] == sorted@[i]@);
                    assert(sv[j] == sorted@[j]@);
                    if i < j {
                        assert(line_lt(positions(sorted@[i]@), positions(sorted@[j]@)));
                    } else {
                        assert(line_lt(positions(sorted@[j]@), positions(sorted@[i]@)));
                    }
                    lemma_line_lt_total(positions(sorted@[i]@), positions(sorted@[j]@));
                    let u = choose|u: int| 0 <= u < cv.len() && cv[u] == sv[i];
                    let w = choose|w: int| 0 <= w < cv.len() && cv[w] == sv[j];
                }
            }
            assert(all_group_derivable(base, sv)) by {
                assert forall|t: int| 0 <= t < sv.len() implies group_derivable(base, positions(#[trigger] sv[t])) by {
                    let u = choose|u: int| 0 <= u < cv.len() && cv[u] == sv[t];
                }
            }
            assert forall|k2: int|
                0 <= k2 < old_lines.len() && all_nonempty(positions(#[trigger] old_lines[k2]@))
                    implies covers(None, sv, positions(old_lines[k2]@)) by {
                assert(covers(None, cv, positions(old_lines[k2]@)));
            }
            assert(closed_groups(sv, d as int)) by {
                assert forall|i2: int, j2: int, ii: int, jj: int, q: Seq<Seq<Label>>|
                    0 <= i2 < sv.len() && 0 <= j2 < sv.len() && 0 <= ii < d && 0 <= jj < d
                        && is_reordering(q, positions(sv[j2]).remove(jj))
                        && all_nonempty(combo_groups(positions(sv[i2]), positions(sv[j2]), ii, jj, q))
                    implies #[trigger] covers(None, sv, group_combo(positions(sv[i2]), positions(sv[j2]), ii, jj, q)) by {
                    let u = choose|u: int| 0 <= u < cv.len() && cv[u] == sv[i2];
                    let w = choose|w: int| 0 <= w < cv.len() && cv[w] == sv[j2];
                    assert(covers(None, cv, group_combo(positions(cv[u]), positions(cv[w]), ii, jj, q)));
                }
            }
        }
        self.lines = sorted;
        self.is_maximized = true;
        proof {
            assert forall|i: int| 0 <= i < self.lines@.len() implies line_wf(#[trigger] self.lines@[i]@)
                && positions(self.lines@[i]@).len() == self.degree->Finite_0 by {
                assert(normal_line(self.lines@[i]@, d as int));
            }
            assert forall|x: Label| labels_in(lines_view(self.lines@)).contains(x) implies ls.contains(x) by {
                let i = choose|i: int| 0 <= i < lines_view(self.lines@).len() && #[trigger] pos_has(positions(lines_view(self.lines@)[i]), x);
                assert(lines_view(self.lines@)[i] == self.lines@[i]@);
            }
        }
    }
}

} // verus!
