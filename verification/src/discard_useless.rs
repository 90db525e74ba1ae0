//! Simplifications of a problem that keep what it expresses: restricting it to some
//! labels, dropping passive labels that the active side cannot use, shrinking active
//! groups to their strongest labels, and dropping active lines that other lines include.
use vstd::prelude::*;
use crate::labels::{Label, sorted_strict, views, union, intersect, contains_label};
use crate::line::{GroupType, Group, Part, Line, PartV, positions, part_positions, line_wf, part_wf, positions_wf, reaches_exec};
use crate::constraint::{discard_lines, covers, order_transitive, lemma_discard_non_maximal};
use crate::constraint::{
    Constraint, Degree, lines_view, labels_in, pos_has, discard_non_maximal, diagram_transitive, is_antichain,
};
use crate::problem::{Problem, mapping_labels};

verus! {

/// The labels of `g` that are in `keep`, in the order of `g`.
pub open spec fn restrict_group(g: Seq<Label>, keep: Set<Label>) -> Seq<Label>
    decreases g.len(),
{
    if g.len() == 0 {
        g
    } else if keep.contains(g.last()) {
        restrict_group(g.drop_last(), keep).push(g.last())
    } else {
        restrict_group(g.drop_last(), keep)
    }
}

/// The line with each group restricted to `keep`.
pub open spec fn restrict_line(l: Seq<PartV>, keep: Set<Label>) -> Seq<PartV> {
    l.map_values(|p: PartV| (p.0, restrict_group(p.1, keep)))
}

/// Some part of the line has an empty group.
pub open spec fn has_empty_group(l: Seq<PartV>) -> bool {
    exists|j: int| 0 <= j < l.len() && (#[trigger] l[j]).1.len() == 0
}

/// The lines restricted to the labels of `keep`; lines where a group loses all its labels
/// are dropped.
pub open spec fn harden_lines(lines: Seq<Seq<PartV>>, keep: Set<Label>) -> Seq<Seq<PartV>>
    decreases lines.len(),
{
    if lines.len() == 0 {
        lines
    } else {
        let prev = harden_lines(lines.drop_last(), keep);
        let l = restrict_line(lines.last(), keep);
        if has_empty_group(l) {
            prev
        } else {
            prev.push(l)
        }
    }
}

/// The entries of the mapping whose label is in `keep`, in order.
pub open spec fn retain_mapping<T>(m: Seq<(Label, T)>, keep: Set<Label>) -> Seq<(Label, T)>
    decreases m.len(),
{
    if m.len() == 0 {
        m
    } else if keep.contains(m.last().0) {
        retain_mapping(m.drop_last(), keep).push(m.last())
    } else {
        retain_mapping(m.drop_last(), keep)
    }
}

/// The entries of a label-to-labels mapping, each list of labels by its view.
pub open spec fn oldlabels_view(v: Seq<(Label, Vec<Label>)>) -> Seq<(Label, Seq<Label>)> {
    v.map_values(|p: (Label, Vec<Label>)| (p.0, p.1@))
}

/// The labels of a restricted group are those of the group that are in `keep`, in order.
pub proof fn lemma_restrict_group(g: Seq<Label>, keep: Set<Label>)
    ensures
        restrict_group(g, keep).to_set() == g.to_set().intersect(keep),
        sorted_strict(g) ==> sorted_strict(restrict_group(g, keep)),
        restrict_group(g, keep).len() <= g.len(),
        forall|i: int| 0 <= i < restrict_group(g, keep).len() ==> g.contains(#[trigger] restrict_group(g, keep)[i]),
    decreases g.len(),
{
    if g.len() > 0 {
        let r0 = restrict_group(g.drop_last(), keep);
        lemma_restrict_group(g.drop_last(), keep);
        assert(g =~= g.drop_last().push(g.last()));
        g.drop_last().lemma_push_to_set_commute(g.last());
        if keep.contains(g.last()) {
            r0.lemma_push_to_set_commute(g.last());
            assert(restrict_group(g, keep).to_set() =~= g.to_set().intersect(keep));
            if sorted_strict(g) {
                assert(sorted_strict(g.drop_last()));
                assert forall|a: int, b: int| 0 <= a < b < r0.len() + 1 implies restrict_group(g, keep)[a] < restrict_group(g, keep)[b] by {
                    if b == r0.len() {
                        assert(g.drop_last().contains(r0[a]));
                        let k = choose|k: int| 0 <= k < g.drop_last().len() && g.drop_last()[k] == r0[a];
                        assert(g[k] < g[g.len() - 1]);
                    }
                }
            }
            assert forall|i: int| 0 <= i < restrict_group(g, keep).len() implies g.contains(#[trigger] restrict_group(g, keep)[i]) by {
                if i < r0.len() {
                    assert(g.drop_last().contains(r0[i]));
                    let k = choose|k: int| 0 <= k < g.drop_last().len() && g.drop_last()[k] == r0[i];
                    assert(g[k] == r0[i]);
                } else {
                    assert(g[g.len() - 1] == g.last());
                }
            }
        } else {
            assert(restrict_group(g, keep).to_set() =~= g.to_set().intersect(keep));
            if sorted_strict(g) {
                assert(sorted_strict(g.drop_last()));
            }
            assert forall|i: int| 0 <= i < restrict_group(g, keep).len() implies g.contains(#[trigger] restrict_group(g, keep)[i]) by {
                assert(g.drop_last().contains(r0[i]));
                let k = choose|k: int| 0 <= k < g.drop_last().len() && g.drop_last()[k] == r0[i];
                assert(g[k] == r0[i]);
            }
        }
    } else {
        assert(g.to_set() =~= Set::empty());
        assert(restrict_group(g, keep).to_set() =~= g.to_set().intersect(keep));
    }
}

/// Mapping every group of a line maps every position of it.
pub proof fn lemma_positions_map(l: Seq<PartV>, f: spec_fn(Seq<Label>) -> Seq<Label>)
    ensures
        positions(l.map_values(|p: PartV| (p.0, f(p.1)))) == positions(l).map_values(f),
    decreases l.len(),
{
    let m = l.map_values(|p: PartV| (p.0, f(p.1)));
    if l.len() > 0 {
        assert(m.drop_last() =~= l.drop_last().map_values(|p: PartV| (p.0, f(p.1))));
        lemma_positions_map(l.drop_last(), f);
        assert(m.last() == (l.last().0, f(l.last().1)));
        assert(part_positions(m.last()) =~= part_positions(l.last()).map_values(f));
        assert(positions(m) =~= positions(l).map_values(f));
    } else {
        assert(positions(m) =~= positions(l).map_values(f));
    }
}

/// The labels of `g` that are in `keep`, in the order of `g`.
pub fn restrict_group_exec(g: &Vec<Label>, keep: &Vec<Label>) -> (r: Vec<Label>)
    ensures
        r@ == restrict_group(g@, keep@.to_set()),
{
    let mut r: Vec<Label> = Vec::new();
    let mut i: usize = 0;
    while i < g.len()
        invariant
            i <= g.len(),
            r@ == restrict_group(g@.subrange(0, i as int), keep@.to_set()),
        decreases g.len() - i,
    {
        let ghost s1 = g@.subrange(0, i + 1);
        assert(s1.drop_last() =~= g@.subrange(0, i as int));
        assert(s1.last() == g@[i as int]);
        if contains_label(keep, g[i]) {
            r.push(g[i]);
        }
        i = i + 1;
    }
    assert(g@.subrange(0, g.len() as int) =~= g@);
    r
}

/// The line with each group restricted to `keep`.
pub fn restrict_line_exec(l: &Line, keep: &Vec<Label>) -> (r: Line)
    ensures
        r@ == restrict_line(l@, keep@.to_set()),
{
    let mut parts: Vec<Part> = Vec::new();
    let mut i: usize = 0;
    while i < l.parts.len()
        invariant
            i <= l.parts.len(),
            parts@.len() == i,
            forall|k: int| 0 <= k < i ==> (#[trigger] parts@[k])@ == (l.parts@[k]@.0, restrict_group(l.parts@[k]@.1, keep@.to_set())),
        decreases l.parts.len() - i,
    {
        let g = restrict_group_exec(&l.parts[i].group.0, keep);
        parts.push(Part { gtype: l.parts[i].gtype, group: Group(g) });
        i = i + 1;
    }
    let r = Line { parts };
    assert(r@ =~= restrict_line(l@, keep@.to_set()));
    r
}

/// Whether some part of the line has an empty group.
fn has_empty_group_exec(l: &Line) -> (r: bool)
    ensures
        r == has_empty_group(l@),
{
    let mut i: usize = 0;
    while i < l.parts.len()
        invariant
            i <= l.parts.len(),
            forall|k: int| 0 <= k < i ==> (#[trigger] l@[k]).1.len() > 0,
        decreases l.parts.len() - i,
    {
        assert(l@[i as int] == l.parts@[i as int]@);
        if l.parts[i].group.0.len() == 0 {
            return true;
        }
        i = i + 1;
    }
    false
}

/// The lines restricted to the labels of `keep` (see `harden_lines`).
pub fn harden_lines_exec(lines: &Vec<Line>, keep: &Vec<Label>) -> (r: Vec<Line>)
    ensures
        lines_view(r@) == harden_lines(lines_view(lines@), keep@.to_set()),
{
    let ghost lv = lines_view(lines@);
    let mut r: Vec<Line> = Vec::new();
    let mut i: usize = 0;
    while i < lines.len()
        invariant
            i <= lines.len(),
            lv == lines_view(lines@),
            lines_view(r@) == harden_lines(lv.subrange(0, i as int), keep@.to_set()),
        decreases lines.len() - i,
    {
        let ghost s1 = lv.subrange(0, i + 1);
        assert(s1.drop_last() =~= lv.subrange(0, i as int));
        assert(s1.last() == lines@[i as int]@);
        let l = restrict_line_exec(&lines[i], keep);
        if !has_empty_group_exec(&l) {
            let ghost r0 = lines_view(r@);
            r.push(l);
            assert(lines_view(r@) =~= r0.push(l@));
        }
        i = i + 1;
    }
    assert(lv.subrange(0, lines.len() as int) =~= lv);
    r
}

/// Restricting well-formed lines keeps them well formed, of the same degree, and leaves
/// only labels of `keep`.
pub proof fn lemma_harden_lines(lines: Seq<Seq<PartV>>, keep: Set<Label>, d: int)
    requires
        forall|i: int| 0 <= i < lines.len() ==> line_wf(#[trigger] lines[i]) && positions(lines[i]).len() == d,
    ensures
        forall|i: int|
            0 <= i < harden_lines(lines, keep).len() ==> line_wf(#[trigger] harden_lines(lines, keep)[i]) && positions(
                harden_lines(lines, keep)[i],
            ).len() == d,
        labels_in(harden_lines(lines, keep)).subset_of(keep),
        labels_in(harden_lines(lines, keep)).subset_of(labels_in(lines)),
    decreases lines.len(),
{
    if lines.len() > 0 {
        let prev = harden_lines(lines.drop_last(), keep);
        assert forall|i: int| 0 <= i < lines.drop_last().len() implies line_wf(#[trigger] lines.drop_last()[i]) && positions(lines.drop_last()[i]).len() == d by {
            assert(lines.drop_last()[i] == lines[i]);
        }
        lemma_harden_lines(lines.drop_last(), keep, d);
        let last = lines.last();
        let l = restrict_line(last, keep);
        let f = |g: Seq<Label>| restrict_group(g, keep);
        lemma_positions_map(last, f);
        assert(l == last.map_values(|p: PartV| (p.0, f(p.1))));
        assert(line_wf(last));
        assert(line_wf(l)) by {
            assert forall|j: int| 0 <= j < l.len() implies part_wf(#[trigger] l[j]) by {
                assert(part_wf(last[j]));
                lemma_restrict_group(last[j].1, keep);
            }
        }
        assert forall|x: Label| #[trigger] pos_has(positions(l), x) implies keep.contains(x) && pos_has(positions(last), x) by {
            let m = choose|m: int| 0 <= m < positions(l).len() && (#[trigger] positions(l)[m]).contains(x);
            assert(positions(l)[m] == restrict_group(positions(last)[m], keep));
            lemma_restrict_group(positions(last)[m], keep);
            assert(restrict_group(positions(last)[m], keep).to_set().contains(x));
            assert(positions(last)[m].contains(x));
        }
        let res = harden_lines(lines, keep);
        assert forall|x: Label| #[trigger] labels_in(res).contains(x) implies keep.contains(x) && labels_in(lines).contains(x) by {
            let i = choose|i: int| 0 <= i < res.len() && #[trigger] pos_has(positions(res[i]), x);
            if has_empty_group(l) || i < prev.len() {
                assert(res[i] == prev[i]);
                assert(labels_in(prev).contains(x));
                assert(labels_in(lines.drop_last()).contains(x));
                let i2 = choose|i2: int| 0 <= i2 < lines.drop_last().len() && #[trigger] pos_has(positions(lines.drop_last()[i2]), x);
                assert(lines.drop_last()[i2] == lines[i2]);
            } else {
                assert(res[i] == l);
                assert(pos_has(positions(lines[lines.len() - 1]), x));
                assert(labels_in(lines).contains(x));
            }
        }
        assert(labels_in(res).subset_of(labels_in(lines)));
        assert(labels_in(res).subset_of(keep));
    } else {
        assert(labels_in(harden_lines(lines, keep)) =~= Set::empty());
    }
}

impl Constraint {
    /// The labels that occur in the lines, in increasing order.
    pub fn labels_appearing(&self) -> (r: Vec<Label>)
        ensures
            sorted_strict(r@),
            r@.to_set() == labels_in(lines_view(self.lines@)),
    {
        let ghost lv = lines_view(self.lines@);
        let mut r: Vec<Label> = Vec::new();
        let mut i: usize = 0;
        while i < self.lines.len()
            invariant
                i <= self.lines.len(),
                lv == lines_view(self.lines@),
                sorted_strict(r@),
                r@.to_set() == labels_in(lv.subrange(0, i as int)),
            decreases self.lines.len() - i,
        {
            let pos = self.lines[i].expand();
            let ghost r0 = r@.to_set();
            let mut k: usize = 0;
            while k < pos.len()
                invariant
                    k <= pos.len(),
                    sorted_strict(r@),
                    r@.to_set() == r0.union(Set::new(|x: Label| exists|m: int| 0 <= m < k && (#[trigger] views(pos@)[m]).contains(x))),
                decreases pos.len() - k,
            {
                let ghost r1 = r@.to_set();
                r = union(&r, &pos[k]);
                proof {
                    assert(views(pos@)[k as int] == pos@[k as int]@);
                    assert(r@.to_set() =~= r0.union(Set::new(|x: Label| exists|m: int| 0 <= m < k + 1 && (#[trigger] views(pos@)[m]).contains(x)))) by {
                        assert forall|x: Label| pos@[k as int]@.to_set().contains(x) <==> pos@[k as int]@.contains(x) by {}
                    }
                }
                k = k + 1;
            }
            proof {
                let s1 = lv.subrange(0, i + 1);
                assert(s1[i as int] == self.lines@[i as int]@);
                assert(r@.to_set() =~= labels_in(s1)) by {
                    assert forall|x: Label| r@.to_set().contains(x) <==> labels_in(s1).contains(x) by {
                        if labels_in(s1).contains(x) {
                            let i2 = choose|i2: int| 0 <= i2 < s1.len() && #[trigger] pos_has(positions(s1[i2]), x);
                            if i2 < i {
                                assert(lv.subrange(0, i as int)[i2] == s1[i2]);
                                assert(labels_in(lv.subrange(0, i as int)).contains(x));
                            } else {
                                let m = choose|m: int| 0 <= m < positions(s1[i2]).len() && (#[trigger] positions(s1[i2])[m]).contains(x);
                                assert(views(pos@)[m].contains(x));
                            }
                        }
                        if r@.to_set().contains(x) {
                            if r0.contains(x) {
                                let i2 = choose|i2: int| 0 <= i2 < lv.subrange(0, i as int).len() && #[trigger] pos_has(positions(lv.subrange(0, i as int)[i2]), x);
                                assert(s1[i2] == lv.subrange(0, i as int)[i2]);
                            } else {
                                let m = choose|m: int| 0 <= m < pos@.len() && (#[trigger] views(pos@)[m]).contains(x);
                                assert(pos_has(positions(s1[i as int]), x));
                            }
                        }
                    }
                }
            }
            i = i + 1;
        }
        assert(lv.subrange(0, self.lines.len() as int) =~= lv);
        r
    }
}

/// The labels common to the active and the passive lines: those that are worth keeping.
pub open spec fn useful_labels(active: Seq<Seq<PartV>>, passive: Seq<Seq<PartV>>) -> Set<Label> {
    labels_in(active).intersect(labels_in(passive))
}

/// Retaining entries keeps labels in increasing order, and only keeps entries that were there.
pub proof fn lemma_retain_mapping<T>(m: Seq<(Label, T)>, keep: Set<Label>)
    ensures
        sorted_strict(m.map_values(|p: (Label, T)| p.0)) ==> sorted_strict(
            retain_mapping(m, keep).map_values(|p: (Label, T)| p.0),
        ),
        forall|i: int| 0 <= i < retain_mapping(m, keep).len() ==> m.contains(#[trigger] retain_mapping(m, keep)[i]) && keep.contains(retain_mapping(m, keep)[i].0),
        forall|i: int| 0 <= i < m.len() && keep.contains(m[i].0) ==> retain_mapping(m, keep).contains(#[trigger] m[i]),
    decreases m.len(),
{
    if m.len() > 0 {
        let r0 = retain_mapping(m.drop_last(), keep);
        lemma_retain_mapping(m.drop_last(), keep);
        let r = retain_mapping(m, keep);
        assert forall|i: int| 0 <= i < r.len() implies m.contains(#[trigger] r[i]) && keep.contains(r[i].0) by {
            if i < r0.len() {
                assert(r[i] == r0[i]);
                let k = choose|k: int| 0 <= k < m.drop_last().len() && m.drop_last()[k] == r0[i];
                assert(m[k] == r0[i]);
            } else {
                assert(r[i] == m[m.len() - 1]);
            }
        }
        assert forall|i: int| 0 <= i < m.len() && keep.contains(m[i].0) implies r.contains(#[trigger] m[i]) by {
            if i < m.len() - 1 {
                assert(m.drop_last()[i] == m[i]);
                let k = choose|k: int| 0 <= k < r0.len() && r0[k] == m[i];
                assert(r[k] == m[i]);
            } else {
                assert(r[r.len() - 1] == m[i]);
            }
        }
        if sorted_strict(m.map_values(|p: (Label, T)| p.0)) {
            let ml = m.map_values(|p: (Label, T)| p.0);
            assert(m.drop_last().map_values(|p: (Label, T)| p.0) =~= ml.drop_last());
            let rl = r.map_values(|p: (Label, T)| p.0);
            assert forall|a: int, b: int| 0 <= a < b < rl.len() implies rl[a] < rl[b] by {
                if keep.contains(m.last().0) && b == rl.len() - 1 {
                    assert(r[a] == r0[a]);
                    let k = choose|k: int| 0 <= k < m.drop_last().len() && m.drop_last()[k] == r0[a];
                    assert(ml[k] == r0[a].0);
                    assert(ml[m.len() - 1] == m.last().0);
                } else {
                    let r0l = r0.map_values(|p: (Label, T)| p.0);
                    assert(rl[a] == r0l[a]);
                    assert(rl[b] == r0l[b]);
                }
            }
        }
    }
}

/// The entries of the mapping whose label is in `keep`.
pub fn retain_texts(m: &Vec<(Label, String)>, keep: &Vec<Label>) -> (r: Vec<(Label, String)>)
    ensures
        r@ == retain_mapping(m@, keep@.to_set()),
{
    let mut r: Vec<(Label, String)> = Vec::new();
    let mut i: usize = 0;
    while i < m.len()
        invariant
            i <= m.len(),
            r@ == retain_mapping(m@.subrange(0, i as int), keep@.to_set()),
        decreases m.len() - i,
    {
        let ghost s1 = m@.subrange(0, i + 1);
        assert(s1.drop_last() =~= m@.subrange(0, i as int));
        assert(s1.last() == m@[i as int]);
        if contains_label(keep, m[i].0) {
            let t = m[i].1.clone();
            r.push((m[i].0, t));
        }
        i = i + 1;
    }
    assert(m@.subrange(0, m.len() as int) =~= m@);
    r
}

/// The entries of the label-to-labels mapping whose label is in `keep`.
pub fn retain_oldlabels(m: &Vec<(Label, Vec<Label>)>, keep: &Vec<Label>) -> (r: Vec<(Label, Vec<Label>)>)
    ensures
        oldlabels_view(r@) == retain_mapping(oldlabels_view(m@), keep@.to_set()),
{
    let ghost mv = oldlabels_view(m@);
    let mut r: Vec<(Label, Vec<Label>)> = Vec::new();
    let mut i: usize = 0;
    while i < m.len()
        invariant
            i <= m.len(),
            mv == oldlabels_view(m@),
            oldlabels_view(r@) == retain_mapping(mv.subrange(0, i as int), keep@.to_set()),
        decreases m.len() - i,
    {
        let ghost s1 = mv.subrange(0, i + 1);
        assert(s1.drop_last() =~= mv.subrange(0, i as int));
        assert(s1.last() == mv[i as int]);
        if contains_label(keep, m[i].0) {
            let ghost r0 = oldlabels_view(r@);
            let v = crate::line::copy_labels(&m[i].1);
            r.push((m[i].0, v));
            assert(oldlabels_view(r@) =~= r0.push(mv[i as int]));
        }
        i = i + 1;
    }
    assert(mv.subrange(0, m.len() as int) =~= mv);
    r
}

impl Problem {
    /// The problem restricted to the labels of `keep`: every group loses its other labels,
    /// lines where a group is left empty are dropped, and only the texts of kept labels stay.
    /// Nothing computed about the problem is kept, and neither constraint counts as maximized.
    pub fn harden(&self, keep: &Vec<Label>) -> (r: Problem)
        requires
            self.wf(),
        ensures
            hardened(r, *self, keep@.to_set()),
    {
        let active = harden_lines_exec(&self.active.lines, keep);
        let passive = harden_lines_exec(&self.passive.lines, keep);
        let mapping = retain_texts(&self.mapping_label_text, keep);
        let r = Problem {
            active: Constraint { lines: active, is_maximized: false, degree: self.active.degree },
            passive: Constraint { lines: passive, is_maximized: false, degree: self.passive.degree },
            mapping_label_text: mapping,
            mapping_label_oldlabels: None,
            trivial_sets: None,
            diagram_indirect: None,
            diagram_direct: None,
            fixpoint_diagram: None,
        };
        proof {
            let d1 = self.active.degree->Finite_0 as int;
            let d2 = self.passive.degree->Finite_0 as int;
            assert forall|i: int| 0 <= i < lines_view(self.active.lines@).len() implies line_wf(#[trigger] lines_view(self.active.lines@)[i])
                && positions(lines_view(self.active.lines@)[i]).len() == d1 by {
                assert(lines_view(self.active.lines@)[i] == self.active.lines@[i]@);
            }
            assert forall|i: int| 0 <= i < lines_view(self.passive.lines@).len() implies line_wf(#[trigger] lines_view(self.passive.lines@)[i])
                && positions(lines_view(self.passive.lines@)[i]).len() == d2 by {
                assert(lines_view(self.passive.lines@)[i] == self.passive.lines@[i]@);
            }
            lemma_harden_lines(lines_view(self.active.lines@), keep@.to_set(), d1);
            lemma_harden_lines(lines_view(self.passive.lines@), keep@.to_set(), d2);
            assert forall|i: int| 0 <= i < r.active.lines@.len() implies line_wf(#[trigger] r.active.lines@[i]@)
                && positions(r.active.lines@[i]@).len() == r.active.degree->Finite_0 by {
                assert(lines_view(r.active.lines@)[i] == r.active.lines@[i]@);
            }
            assert forall|i: int| 0 <= i < r.passive.lines@.len() implies line_wf(#[trigger] r.passive.lines@[i]@)
                && positions(r.passive.lines@[i]@).len() == r.passive.degree->Finite_0 by {
                assert(lines_view(r.passive.lines@)[i] == r.passive.lines@[i]@);
            }
            lemma_retain_mapping(self.mapping_label_text@, keep@.to_set());
        }
        r
    }

    /// Drops the labels that cannot be useful: the problem is restricted to the labels that
    /// occur both in the active and in the passive lines, and then only the texts (and old
    /// labels) of the labels left on the active side are kept. Nothing else changes.
    pub fn discard_useless_passive_labels(&mut self)
        requires
            old(self).wf(),
        ensures
            final(self).wf(),
            lines_view(final(self).active.lines@) == harden_lines(
                lines_view(old(self).active.lines@),
                useful_labels(lines_view(old(self).active.lines@), lines_view(old(self).passive.lines@)),
            ),
            lines_view(final(self).passive.lines@) == harden_lines(
                lines_view(old(self).passive.lines@),
                useful_labels(lines_view(old(self).active.lines@), lines_view(old(self).passive.lines@)),
            ),
            final(self).active.degree == old(self).active.degree,
            final(self).passive.degree == old(self).passive.degree,
            !final(self).active.is_maximized,
            !final(self).passive.is_maximized,
            final(self).mapping_label_text@ == retain_mapping(
                old(self).mapping_label_text@,
                labels_in(lines_view(final(self).active.lines@)),
            ),
            old(self).mapping_label_oldlabels is None ==> final(self).mapping_label_oldlabels is None,
            old(self).mapping_label_oldlabels matches Some(o) ==> final(self).mapping_label_oldlabels matches Some(o2)
                && oldlabels_view(o2@) == retain_mapping(oldlabels_view(o@), labels_in(lines_view(final(self).active.lines@))),
            final(self).trivial_sets == old(self).trivial_sets,
            final(self).diagram_indirect == old(self).diagram_indirect,
            final(self).diagram_direct == old(self).diagram_direct,
            final(self).fixpoint_diagram == old(self).fixpoint_diagram,
            labels_in(lines_view(final(self).active.lines@)).subset_of(
                useful_labels(lines_view(old(self).active.lines@), lines_view(old(self).passive.lines@)),
            ),
            labels_in(lines_view(final(self).passive.lines@)).subset_of(
                useful_labels(lines_view(old(self).active.lines@), lines_view(old(self).passive.lines@)),
            ),
    {
        let labels_active = self.active.labels_appearing();
        let labels_passive = self.passive.labels_appearing();
        let to_keep = intersect(&labels_active, &labels_passive);
        let ghost keep = useful_labels(lines_view(self.active.lines@), lines_view(self.passive.lines@));
        assert(to_keep@.to_set() =~= keep);
        let newp = self.harden(&to_keep);
        proof {
            assert forall|i: int| 0 <= i < lines_view(self.active.lines@).len() implies line_wf(#[trigger] lines_view(self.active.lines@)[i])
                && positions(lines_view(self.active.lines@)[i]).len() == self.active.degree->Finite_0 as int by {
                assert(lines_view(self.active.lines@)[i] == self.active.lines@[i]@);
            }
            assert forall|i: int| 0 <= i < lines_view(self.passive.lines@).len() implies line_wf(#[trigger] lines_view(self.passive.lines@)[i])
                && positions(lines_view(self.passive.lines@)[i]).len() == self.passive.degree->Finite_0 as int by {
                assert(lines_view(self.passive.lines@)[i] == self.passive.lines@[i]@);
            }
            lemma_harden_lines(lines_view(self.active.lines@), keep, self.active.degree->Finite_0 as int);
            lemma_harden_lines(lines_view(self.passive.lines@), keep, self.passive.degree->Finite_0 as int);
        }
        self.active = newp.active;
        self.passive = newp.passive;
        let to_keep = self.active.labels_appearing();
        let ghost old_mapping = self.mapping_label_text@;
        self.mapping_label_text = retain_texts(&self.mapping_label_text, &to_keep);
        proof {
            lemma_retain_mapping(old_mapping, to_keep@.to_set());
        }
        match &self.mapping_label_oldlabels {
            Some(x) => {
                let y = retain_oldlabels(x, &to_keep);
                self.mapping_label_oldlabels = Some(y);
            },
            None => {},
        }
    }
}

/// No other label of `g` is reached from `x` by an edge of the diagram.
pub open spec fn undominated(x: Label, g: Seq<Label>, d: Seq<(Label, Label)>) -> bool {
    !exists|o: Label| g.contains(o) && o != x && #[trigger] d.contains((x, o))
}

/// The labels of `g` that no other label of `g` is stronger than, in the order of `g`.
pub open spec fn strongest(g: Seq<Label>, d: Seq<(Label, Label)>) -> Seq<Label> {
    restrict_group(g, Set::new(|x: Label| undominated(x, g, d)))
}

/// The line with each group reduced to its strongest labels.
pub open spec fn weak_removed_line(l: Seq<PartV>, d: Seq<(Label, Label)>) -> Seq<PartV> {
    l.map_values(|p: PartV| (p.0, strongest(p.1, d)))
}

/// The lines with each group reduced to its strongest labels.
pub open spec fn weak_removed_lines(lines: Seq<Seq<PartV>>, d: Seq<(Label, Label)>) -> Seq<Seq<PartV>> {
    lines.map_values(|l: Seq<PartV>| weak_removed_line(l, d))
}

/// Restricting a group depends only on which of its own labels are kept.
pub proof fn lemma_restrict_group_congr(g: Seq<Label>, k1: Set<Label>, k2: Set<Label>)
    requires
        forall|x: Label| g.contains(x) ==> (k1.contains(x) <==> k2.contains(x)),
    ensures
        restrict_group(g, k1) == restrict_group(g, k2),
    decreases g.len(),
{
    if g.len() > 0 {
        assert forall|x: Label| g.drop_last().contains(x) implies (k1.contains(x) <==> k2.contains(x)) by {
            let k = choose|k: int| 0 <= k < g.drop_last().len() && g.drop_last()[k] == x;
            assert(g[k] == x);
        }
        lemma_restrict_group_congr(g.drop_last(), k1, k2);
        assert(g.contains(g.last())) by {
            assert(g[g.len() - 1] == g.last());
        }
    }
}

/// Whether no other label of `g` is reached from `x` in the diagram.
fn undominated_exec(x: Label, g: &Vec<Label>, d: &Vec<(Label, Label)>) -> (r: bool)
    ensures
        r == undominated(x, g@, d@),
{
    let mut i: usize = 0;
    while i < g.len()
        invariant
            i <= g.len(),
            forall|k: int| 0 <= k < i ==> !(g@[k] != x && d@.contains((x, #[trigger] g@[k]))),
        decreases g.len() - i,
    {
        if g[i] != x && reaches_exec(d, x, g[i]) {
            assert(g@.contains(g@[i as int]));
            return false;
        }
        i = i + 1;
    }
    assert forall|o: Label| g@.contains(o) && o != x implies !d@.contains((x, o)) by {
        let k = choose|k: int| 0 <= k < g@.len() && g@[k] == o;
    }
    true
}

/// The strongest labels of `g` (see `strongest`).
pub fn strongest_exec(g: &Vec<Label>, d: &Vec<(Label, Label)>) -> (r: Vec<Label>)
    ensures
        r@ == strongest(g@, d@),
{
    let mut keep: Vec<Label> = Vec::new();
    let mut i: usize = 0;
    while i < g.len()
        invariant
            i <= g.len(),
            forall|x: Label| keep@.contains(x) <==> (exists|k: int| 0 <= k < i && g@[k] == x) && undominated(x, g@, d@),
        decreases g.len() - i,
    {
        let ghost k0 = keep@;
        if undominated_exec(g[i], g, d) {
            keep.push(g[i]);
            proof {
                assert forall|x: Label| keep@.contains(x) <==> (exists|k: int| 0 <= k < i + 1 && g@[k] == x) && undominated(x, g@, d@) by {
                    if keep@.contains(x) && !k0.contains(x) {
                        assert(x == g@[i as int]);
                    }
                    if k0.contains(x) {
                        let k = choose|k: int| 0 <= k < k0.len() && k0[k] == x;
                        assert(keep@[k] == x);
                    }
                    if x == g@[i as int] {
                        assert(keep@[keep@.len() - 1] == x);
                    }
                }
            }
        }
        i = i + 1;
    }
    let r = restrict_group_exec(g, &keep);
    proof {
        lemma_restrict_group_congr(g@, keep@.to_set(), Set::new(|x: Label| undominated(x, g@, d@)));
    }
    r
}

/// `n` is the problem `o` after `discard_useless_stuff`: with the diagram `d` of `o`, the
/// passive lines that others include are dropped (`p`), the active lines lose their weak
/// labels and those that others include (`w`), both sides keep only the labels that occur on
/// both (`keep`), the texts and old labels only those of the active labels left, neither side
/// counts as maximized, and everything else is as it was.
pub open spec fn useless_discarded(o: Problem, n: Problem) -> bool {
    let d = o.diagram_indirect->Some_0@;
    let p = discard_non_maximal(None, lines_view(o.passive.lines@));
    let w = discard_non_maximal(Some(d), weak_removed_lines(lines_view(o.active.lines@), d));
    let keep = useful_labels(w, p);
    &&& lines_view(n.active.lines@) == harden_lines(w, keep)
    &&& lines_view(n.passive.lines@) == harden_lines(p, keep)
    &&& n.wf()
    &&& n.active.degree == o.active.degree
    &&& n.passive.degree == o.passive.degree
    &&& !n.active.is_maximized
    &&& !n.passive.is_maximized
    &&& n.mapping_label_text@ == retain_mapping(o.mapping_label_text@, labels_in(lines_view(n.active.lines@)))
    &&& o.mapping_label_oldlabels is None ==> n.mapping_label_oldlabels is None
    &&& o.mapping_label_oldlabels matches Some(ol) ==> n.mapping_label_oldlabels matches Some(o2)
        && oldlabels_view(o2@) == retain_mapping(oldlabels_view(ol@), labels_in(lines_view(n.active.lines@)))
    &&& n.trivial_sets == o.trivial_sets
    &&& n.diagram_indirect == o.diagram_indirect
    &&& n.diagram_direct == o.diagram_direct
    &&& n.fixpoint_diagram == o.fixpoint_diagram
}

/// `n` is the problem `o` after `remove_weak_active_lines`: with the diagram `d` of `o`, the
/// active lines lose their weak labels and those that others include (`w`), both sides keep
/// only the labels that occur on both (`keep`), the texts and old labels only those of the
/// active labels left, neither side counts as maximized, and everything else is as it was.
pub open spec fn weak_lines_removed(o: Problem, n: Problem) -> bool {
    let d = o.diagram_indirect->Some_0@;
    let w = discard_non_maximal(Some(d), weak_removed_lines(lines_view(o.active.lines@), d));
    let keep = useful_labels(w, lines_view(o.passive.lines@));
    &&& lines_view(n.active.lines@) == harden_lines(w, keep)
    &&& lines_view(n.passive.lines@) == harden_lines(lines_view(o.passive.lines@), keep)
    &&& n.wf()
    &&& n.active.degree == o.active.degree
    &&& n.passive.degree == o.passive.degree
    &&& !n.active.is_maximized
    &&& !n.passive.is_maximized
    &&& n.mapping_label_text@ == retain_mapping(o.mapping_label_text@, labels_in(lines_view(n.active.lines@)))
    &&& o.mapping_label_oldlabels is None ==> n.mapping_label_oldlabels is None
    &&& o.mapping_label_oldlabels matches Some(ol) ==> n.mapping_label_oldlabels matches Some(o2)
        && oldlabels_view(o2@) == retain_mapping(oldlabels_view(ol@), labels_in(lines_view(n.active.lines@)))
    &&& n.trivial_sets == o.trivial_sets
    &&& n.diagram_indirect == o.diagram_indirect
    &&& n.diagram_direct == o.diagram_direct
    &&& n.fixpoint_diagram == o.fixpoint_diagram
}

/// `q` is `o` with the passive lines that other passive lines include dropped
/// (`Constraint::discard_non_maximal_lines` on the passive side).
pub open spec fn passive_trimmed(o: Problem, q: Problem) -> bool {
    &&& q.wf()
    &&& lines_view(q.passive.lines@) == discard_non_maximal(None, lines_view(o.passive.lines@))
    &&& q.passive.degree == o.passive.degree
    &&& q.passive.is_maximized == o.passive.is_maximized
    &&& q.active == o.active
    &&& q.mapping_label_text == o.mapping_label_text
    &&& q.mapping_label_oldlabels == o.mapping_label_oldlabels
    &&& q.trivial_sets == o.trivial_sets
    &&& q.diagram_indirect == o.diagram_indirect
    &&& q.diagram_direct == o.diagram_direct
    &&& q.fixpoint_diagram == o.fixpoint_diagram
}

/// Every line that `harden_lines` leaves is a line of `lines` restricted to `keep`.
pub proof fn lemma_harden_lines_elements(lines: Seq<Seq<PartV>>, keep: Set<Label>)
    ensures
        forall|i: int| 0 <= i < harden_lines(lines, keep).len() ==> exists|j: int|
            0 <= j < lines.len() && restrict_line(lines[j], keep) == #[trigger] harden_lines(lines, keep)[i],
    decreases lines.len(),
{
    if lines.len() > 0 {
        let init = lines.drop_last();
        lemma_harden_lines_elements(init, keep);
        let prev = harden_lines(init, keep);
        let h = harden_lines(lines, keep);
        assert forall|i: int| 0 <= i < h.len() implies exists|j: int|
            0 <= j < lines.len() && restrict_line(lines[j], keep) == #[trigger] h[i] by {
            if i < prev.len() {
                assert(h[i] == prev[i]);
                let j = choose|j: int| 0 <= j < init.len() && restrict_line(init[j], keep) == prev[i];
                assert(lines[j] == init[j]);
            } else {
                assert(h[i] == restrict_line(lines.last(), keep));
                assert(lines[lines.len() - 1] == lines.last());
            }
        }
    }
}

/// Removing weak labels keeps a label of a group exactly when it reaches no other label of
/// the group in the diagram, whatever the numbers of the labels, and keeps the order of the
/// labels it keeps.
pub proof fn lemma_strongest(g: Seq<Label>, d: Seq<(Label, Label)>, x: Label)
    ensures
        strongest(g, d).contains(x) <==> g.contains(x) && forall|o: Label| #[trigger] g.contains(o) && o != x ==> !d.contains((x, o)),
        sorted_strict(g) ==> sorted_strict(strongest(g, d)),
{
    lemma_restrict_group(g, Set::new(|z: Label| undominated(z, g, d)));
    assert(strongest(g, d).contains(x) <==> strongest(g, d).to_set().contains(x));
    assert(g.contains(x) <==> g.to_set().contains(x));
}

/// After `remove_weak_active_lines` (see `weak_lines_removed`), no group of an active line
/// holds two labels `x` and `y` with the edge `(x, y)` in the diagram: every label of a
/// group that reaches another label of the group is gone, whatever the numbers of the labels.
pub proof fn lemma_no_weak_label_left(o: Problem, n: Problem, i: int, k: int, x: Label, y: Label)
    requires
        weak_lines_removed(o, n),
        0 <= i < n.active.lines@.len(),
        0 <= k < n.active.lines@[i]@.len(),
        n.active.lines@[i]@[k].1.contains(x),
        n.active.lines@[i]@[k].1.contains(y),
        x != y,
    ensures
        !o.diagram_indirect->Some_0@.contains((x, y)),
{
    let d = o.diagram_indirect->Some_0@;
    let ol = lines_view(o.active.lines@);
    let wr = weak_removed_lines(ol, d);
    let w = discard_non_maximal(Some(d), wr);
    let keep = useful_labels(w, lines_view(o.passive.lines@));
    let h = harden_lines(w, keep);
    assert(lines_view(n.active.lines@)[i] == n.active.lines@[i]@);
    lemma_harden_lines_elements(w, keep);
    let j = choose|j: int| 0 <= j < w.len() && restrict_line(w[j], keep) == #[trigger] h[i];
    crate::constraint::lemma_discard_elements(Some(d), wr);
    assert(wr.contains(w[j]));
    let m = choose|m: int| 0 <= m < wr.len() && wr[m] == w[j];
    let g = ol[m][k].1;
    assert(w[j][k].1 == strongest(g, d));
    let sg = strongest(g, d);
    assert(h[i][k].1 == restrict_group(sg, keep));
    lemma_restrict_group(sg, keep);
    lemma_restrict_group(g, Set::new(|z: Label| undominated(z, g, d)));
    assert(restrict_group(sg, keep).to_set().contains(x));
    assert(restrict_group(sg, keep).to_set().contains(y));
    assert(sg.to_set().contains(x));
    assert(sg.to_set().contains(y));
    assert(undominated(x, g, d));
    assert(g.to_set().contains(y));
    assert(g.contains(y));
}

/// Discarding the useless lines and labels is dropping the passive lines that others
/// include, then removing the weak active lines: the two steps in turn give what
/// `discard_useless_stuff` gives.
pub proof fn lemma_discard_useless_in_two_steps(o: Problem, q: Problem, n: Problem)
    requires
        passive_trimmed(o, q),
        weak_lines_removed(q, n),
    ensures
        useless_discarded(o, n),
{
}

/// `r` is the problem `p` restricted to the labels `keep` (see `harden`): every group keeps
/// only its labels in `keep`, the texts only those of labels in `keep`, and nothing computed
/// about `p` is kept.
pub open spec fn hardened(r: Problem, p: Problem, keep: Set<Label>) -> bool {
    &&& r.wf()
    &&& lines_view(r.active.lines@) == harden_lines(lines_view(p.active.lines@), keep)
    &&& lines_view(r.passive.lines@) == harden_lines(lines_view(p.passive.lines@), keep)
    &&& r.active.degree == p.active.degree
    &&& r.passive.degree == p.passive.degree
    &&& !r.active.is_maximized
    &&& !r.passive.is_maximized
    &&& r.mapping_label_text@ == retain_mapping(p.mapping_label_text@, keep)
    &&& r.mapping_label_oldlabels is None
    &&& r.trivial_sets is None
    &&& r.diagram_indirect is None
    &&& r.diagram_direct is None
    &&& r.fixpoint_diagram is None
}

impl Problem {
    /// Makes the active side smaller without changing what it allows, using the diagram:
    /// first every group keeps only its labels that no other label of the group is stronger
    /// than; then every active line that another line includes is dropped, where a group is
    /// below another when each of its labels reaches a label of the other; last, the labels
    /// that no longer occur on the active side leave the passive side
    /// (`discard_useless_passive_labels`).
    pub fn remove_weak_active_lines(&mut self)
        requires
            old(self).wf(),
            old(self).diagram_indirect is Some,
        ensures
            weak_lines_removed(*old(self), *final(self)),
            ({
                let d = old(self).diagram_indirect->Some_0@;
                let w = discard_non_maximal(Some(d), weak_removed_lines(lines_view(old(self).active.lines@), d));
                &&& (diagram_transitive(d) ==> is_antichain(Some(d), w))
                &&& (diagram_transitive(d) ==> forall|k: int|
                    0 <= k < old(self).active.lines@.len() ==> covers(Some(d), w, #[trigger] positions(weak_removed_line(old(self).active.lines@[k]@, d))))
            }),
    {
        let reachable = match &self.diagram_indirect {
            Some(d) => crate::line::copy_pairs(d),
            None => Vec::new(),
        };
        let ghost d = reachable@;
        let ghost old_active = lines_view(self.active.lines@);
        let dd = self.active.degree;
        // part 1: make groups smaller if possible
        let mut lines: Vec<Line> = Vec::new();
        let mut i: usize = 0;
        while i < self.active.lines.len()
            invariant
                i <= self.active.lines.len(),
                old_active == lines_view(self.active.lines@),
                d == reachable@,
                self.active.wf(),
                lines_view(lines@) == weak_removed_lines(old_active.subrange(0, i as int), d),
            decreases self.active.lines.len() - i,
        {
            let line = &self.active.lines[i];
            let mut parts: Vec<Part> = Vec::new();
            let mut j: usize = 0;
            while j < line.parts.len()
                invariant
                    j <= line.parts.len(),
                    d == reachable@,
                    parts@.len() == j,
                    forall|k: int| 0 <= k < j ==> (#[trigger] parts@[k])@ == (line.parts@[k]@.0, strongest(line.parts@[k]@.1, d)),
                decreases line.parts.len() - j,
            {
                let g = strongest_exec(&line.parts[j].group.0, &reachable);
                parts.push(Part { gtype: line.parts[j].gtype, group: Group(g) });
                j = j + 1;
            }
            let nl = Line { parts };
            let ghost l0 = lines_view(lines@);
            lines.push(nl);
            proof {
                assert(nl@ =~= weak_removed_line(line@, d));
                assert(lines_view(lines@) =~= l0.push(nl@));
                assert(old_active.subrange(0, i + 1) =~= old_active.subrange(0, i as int).push(old_active[i as int]));
                assert(old_active[i as int] == line@);
                assert(weak_removed_lines(old_active.subrange(0, i + 1), d) =~= weak_removed_lines(old_active.subrange(0, i as int), d).push(weak_removed_line(line@, d)));
            }
            i = i + 1;
        }
        assert(old_active.subrange(0, self.active.lines.len() as int) =~= old_active);
        proof {
            // the weakened lines are well formed, of the same degree
            assert forall|k: int| 0 <= k < lines@.len() implies line_wf(#[trigger] lines@[k]@)
                && positions(lines@[k]@).len() == dd->Finite_0 by {
                let l = self.active.lines@[k]@;
                assert(lines_view(lines@)[k] == lines@[k]@);
                assert(old_active[k] == l);
                let f = |g: Seq<Label>| strongest(g, d);
                lemma_positions_map(l, f);
                assert(weak_removed_line(l, d) == l.map_values(|p: PartV| (p.0, f(p.1))));
                assert forall|j: int| 0 <= j < lines@[k]@.len() implies part_wf(#[trigger] lines@[k]@[j]) by {
                    assert(part_wf(l[j]));
                    lemma_restrict_group(l[j].1, Set::new(|x: Label| undominated(x, l[j].1, d)));
                }
            }
        }
        // part 2: remove lines by inclusion
        let kept = discard_lines(&lines, Some(&reachable));
        proof {
            if diagram_transitive(d) {
                lemma_discard_non_maximal(Some(d), lines_view(lines@));
                assert forall|k: int| 0 <= k < self.active.lines@.len() implies covers(Some(d), lines_view(kept@), #[trigger] positions(weak_removed_line(self.active.lines@[k]@, d))) by {
                    assert(lines_view(lines@)[k] == weak_removed_line(self.active.lines@[k]@, d));
                }
            }
            assert forall|k: int| 0 <= k < kept@.len() implies line_wf(#[trigger] kept@[k]@)
                && positions(kept@[k]@).len() == dd->Finite_0 by {
                crate::constraint::lemma_discard_elements(Some(d), lines_view(lines@));
                assert(lines_view(kept@)[k] == kept@[k]@);
                let j = choose|j: int| 0 <= j < lines@.len() && lines_view(lines@)[j] == lines_view(kept@)[k];
                assert(lines_view(lines@)[j] == lines@[j]@);
            }
        }
        self.active.lines = kept;
        // remove from the passive side the labels that do not appear anymore on the active side
        self.discard_useless_passive_labels();
    }

    /// Drops the passive lines that other passive lines include, then removes the weak
    /// active lines (`remove_weak_active_lines`); see `useless_discarded`.
    pub fn discard_useless_stuff(&mut self)
        requires
            old(self).wf(),
            old(self).diagram_indirect is Some,
        ensures
            useless_discarded(*old(self), *final(self)),
    {
        self.passive.discard_non_maximal_lines();
        proof {
            assert forall|k: int| 0 <= k < self.passive.lines@.len() implies line_wf(#[trigger] self.passive.lines@[k]@)
                && positions(self.passive.lines@[k]@).len() == self.passive.degree->Finite_0 by {
                crate::constraint::lemma_discard_elements(None, lines_view(old(self).passive.lines@));
                assert(lines_view(self.passive.lines@)[k] == self.passive.lines@[k]@);
                let j = choose|j: int| 0 <= j < old(self).passive.lines@.len() && lines_view(old(self).passive.lines@)[j] == lines_view(self.passive.lines@)[k];
                assert(lines_view(old(self).passive.lines@)[j] == old(self).passive.lines@[j]@);
            }
        }
        let ghost q = *self;
        self.remove_weak_active_lines();
        proof {
            lemma_discard_useless_in_two_steps(*old(self), q, *self);
        }
    }
}

} // verus!
