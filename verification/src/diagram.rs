//! The diagram of a problem: label `b` is at least as strong as label `a` when every group
//! of the passive constraint that holds `a` also holds `b`.
use vstd::prelude::*;
use crate::labels::{Label, sorted_strict, contains_label};
use crate::line::{PartV, Line};
use crate::constraint::{Constraint, lines_view, diagram_transitive, is_antichain, covers, normal_line, maximized_from};
use crate::problem::{Problem, mapping_labels, DiagramDirect};

verus! {

/// Every group of the lines that holds `a` also holds `b`.
pub open spec fn stronger(lines: Seq<Seq<PartV>>, a: Label, b: Label) -> bool {
    forall|i: int, j: int|
        0 <= i < lines.len() && 0 <= j < lines[i].len() && (#[trigger] lines[i][j]).1.contains(a) ==> lines[i][j].1.contains(b)
}

/// Pairs in lexicographic order, each pair strictly after the one before.
pub open spec fn pairs_sorted(s: Seq<(Label, Label)>) -> bool {
    forall|i: int, j: int|
        0 <= i < j < s.len() ==> s[i].0 < s[j].0 || (s[i].0 == s[j].0 && s[i].1 < s[j].1)
}

/// The edges of the diagram over `labels`: the pairs of distinct labels where the second is
/// at least as strong as the first.
pub open spec fn is_diagram_of(d: Seq<(Label, Label)>, labels: Seq<Label>, lines: Seq<Seq<PartV>>) -> bool {
    &&& pairs_sorted(d)
    &&& forall|a: Label, b: Label|
        #[trigger] d.contains((a, b)) <==> labels.contains(a) && labels.contains(b) && a != b && stronger(lines, a, b)
}

/// Whether every group of the lines that holds `a` also holds `b`.
pub fn stronger_exec(lines: &Vec<Line>, a: Label, b: Label) -> (r: bool)
    ensures
        r == stronger(lines_view(lines@), a, b),
{
    let ghost lv = lines_view(lines@);
    let mut i: usize = 0;
    while i < lines.len()
        invariant
            i <= lines.len(),
            lv == lines_view(lines@),
            forall|i2: int, j: int|
                0 <= i2 < i && 0 <= j < lv[i2].len() && (#[trigger] lv[i2][j]).1.contains(a) ==> lv[i2][j].1.contains(b),
        decreases lines.len() - i,
    {
        let line = &lines[i];
        let mut j: usize = 0;
        while j < line.parts.len()
            invariant
                i < lines.len(),
                line == &lines@[i as int],
                lv == lines_view(lines@),
                j <= line.parts.len(),
                forall|i2: int, j2: int|
                    0 <= i2 < i && 0 <= j2 < lv[i2].len() && (#[trigger] lv[i2][j2]).1.contains(a) ==> lv[i2][j2].1.contains(b),
                forall|j2: int| 0 <= j2 < j && (#[trigger] lv[i as int][j2]).1.contains(a) ==> lv[i as int][j2].1.contains(b),
            decreases line.parts.len() - j,
        {
            assert(lv[i as int][j as int] == line.parts@[j as int]@);
            if contains_label(&line.parts[j].group.0, a) && !contains_label(&line.parts[j].group.0, b) {
                return false;
            }
            j = j + 1;
        }
        i = i + 1;
    }
    true
}

/// In a strictly increasing sequence, a member is below the element at `y + 1` exactly when
/// it is at most the element at `y`.
proof fn lemma_sorted_next(labels: Seq<Label>, c: Label, y: int)
    requires
        sorted_strict(labels),
        labels.contains(c),
        0 <= y < labels.len(),
    ensures
        y + 1 < labels.len() ==> (c < labels[y + 1] <==> c <= labels[y]),
        y + 1 == labels.len() ==> c <= labels[y],
{
    let k = choose|k: int| 0 <= k < labels.len() && labels[k] == c;
    if k > y {
        assert(labels[y] < labels[k]);
        if k > y + 1 {
            assert(labels[y + 1] < labels[k]);
        }
    } else if k < y {
        assert(labels[k] < labels[y]);
        if y + 1 < labels.len() {
            assert(labels[y] < labels[y + 1]);
        }
    } else {
        if y + 1 < labels.len() {
            assert(labels[y] < labels[y + 1]);
        }
    }
}

/// The diagram over `labels` of the given lines (see `is_diagram_of`).
pub fn diagram_of_lines(labels: &Vec<Label>, lines: &Vec<Line>) -> (r: Vec<(Label, Label)>)
    requires
        sorted_strict(labels@),
    ensures
        is_diagram_of(r@, labels@, lines_view(lines@)),
{
    let ghost lv = lines_view(lines@);
    let ghost ls = labels@;
    let mut r: Vec<(Label, Label)> = Vec::new();
    let mut x: usize = 0;
    while x < labels.len()
        invariant
            x <= labels.len(),
            ls == labels@,
            sorted_strict(ls),
            lv == lines_view(lines@),
            pairs_sorted(r@),
            x < ls.len() ==> forall|k: int| 0 <= k < r@.len() ==> (#[trigger] r@[k]).0 < ls[x as int],
            forall|p: (Label, Label)|
                #[trigger] r@.contains(p) <==> (ls.contains(p.0) && (x == ls.len() || p.0 < ls[x as int])) && ls.contains(p.1)
                    && p.0 != p.1 && stronger(lv, p.0, p.1),
        decreases labels.len() - x,
    {
        let a = labels[x];
        let mut y: usize = 0;
        while y < labels.len()
            invariant
                x < labels.len(),
                a == ls[x as int],
                y <= labels.len(),
                ls == labels@,
                sorted_strict(ls),
                lv == lines_view(lines@),
                pairs_sorted(r@),
                forall|k: int| 0 <= k < r@.len() ==> (#[trigger] r@[k]).0 < a || (r@[k].0 == a && (y == ls.len() || r@[k].1 < ls[y as int])),
                forall|p: (Label, Label)|
                    #[trigger] r@.contains(p) <==> ((ls.contains(p.0) && p.0 < a) || (p.0 == a && (y == ls.len() || p.1 < ls[y as int])))
                        && ls.contains(p.1) && p.0 != p.1 && stronger(lv, p.0, p.1),
            decreases labels.len() - y,
        {
            let b = labels[y];
            let ghost r1 = r@;
            let add = a != b && stronger_exec(lines, a, b);
            if add {
                r.push((a, b));
            }
            proof {
                assert(ls.contains(b));
                assert forall|p: (Label, Label)|
                    #[trigger] r@.contains(p) <==> ((ls.contains(p.0) && p.0 < a) || (p.0 == a && (y + 1 == ls.len() || p.1 < ls[y + 1])))
                        && ls.contains(p.1) && p.0 != p.1 && stronger(lv, p.0, p.1) by {
                    if ls.contains(p.1) {
                        lemma_sorted_next(ls, p.1, y as int);
                    }
                    if r@.contains(p) && !r1.contains(p) {
                        assert(add);
                        assert(p == (a, b));
                    }
                    if r1.contains(p) {
                        let k = choose|k: int| 0 <= k < r1.len() && r1[k] == p;
                        assert(r@[k] == p);
                    }
                    if p == (a, b) && add {
                        assert(r@[r@.len() - 1] == p);
                    }
                }
                assert forall|k: int| 0 <= k < r@.len() implies (#[trigger] r@[k]).0 < a || (r@[k].0 == a && (y + 1 == ls.len() || r@[k].1 < ls[y + 1])) by {
                    if y + 1 < ls.len() {
                        assert(ls[y as int] < ls[y + 1]);
                    }
                    if k < r1.len() {
                        assert(r@[k] == r1[k]);
                    }
                }
                if add {
                    assert forall|i: int, j: int| 0 <= i < j < r@.len() implies r@[i].0 < r@[j].0 || (r@[i].0 == r@[j].0 && r@[i].1 < r@[j].1) by {
                        if j == r@.len() - 1 {
                            assert(r@[i] == r1[i]);
                        } else {
                            assert(r@[i] == r1[i]);
                            assert(r@[j] == r1[j]);
                        }
                    }
                }
            }
            y = y + 1;
        }
        proof {
            assert forall|p: (Label, Label)|
                #[trigger] r@.contains(p) <==> (ls.contains(p.0) && (x + 1 == ls.len() || p.0 < ls[x + 1])) && ls.contains(p.1)
                    && p.0 != p.1 && stronger(lv, p.0, p.1) by {
                if ls.contains(p.0) {
                    lemma_sorted_next(ls, p.0, x as int);
                }
            }
            if x + 1 < ls.len() {
                assert(ls[x as int] < ls[x + 1]);
            }
        }
        x = x + 1;
    }
    proof {
        assert forall|a: Label, b: Label|
            #[trigger] r@.contains((a, b)) <==> ls.contains(a) && ls.contains(b) && a != b && stronger(lv, a, b) by {
            let p = (a, b);
            assert(r@.contains(p) == r@.contains((a, b)));
        }
    }
    r
}

/// The diagram of a problem's passive lines is transitive.
pub proof fn lemma_diagram_transitive(d: Seq<(Label, Label)>, labels: Seq<Label>, lines: Seq<Seq<PartV>>)
    requires
        is_diagram_of(d, labels, lines),
    ensures
        diagram_transitive(d),
{
    assert forall|x: Label, y: Label, z: Label|
        #[trigger] d.contains((x, y)) && #[trigger] d.contains((y, z)) && x != z implies d.contains((x, z)) by {
        assert(stronger(lines, x, y));
        assert(stronger(lines, y, z));
    }
}

/// `n` is the problem `o` after `compute_diagram`: the passive constraint maximized (see
/// `maximized_from`; a constraint already maximized stays as it is), the diagram that of the
/// passive lines, and everything else as it was.
pub open spec fn diagram_computed(o: Problem, n: Problem) -> bool {
    &&& n.wf()
    &&& n.active == o.active
    &&& n.mapping_label_text == o.mapping_label_text
    &&& n.mapping_label_oldlabels == o.mapping_label_oldlabels
    &&& n.trivial_sets == o.trivial_sets
    &&& n.diagram_direct == o.diagram_direct
    &&& n.fixpoint_diagram == o.fixpoint_diagram
    &&& n.passive.degree == o.passive.degree
    &&& n.passive.is_maximized
    &&& o.passive.is_maximized ==> lines_view(n.passive.lines@) == lines_view(o.passive.lines@)
    &&& !o.passive.is_maximized ==> maximized_from(o.passive.lines@, n.passive.lines@, o.passive.degree->Finite_0 as int)
    &&& n.diagram_indirect matches Some(d) && is_diagram_of(
        d@,
        mapping_labels(n.mapping_label_text@),
        lines_view(n.passive.lines@),
    )
}

impl Problem {
    /// Maximizes the passive constraint and computes the diagram of the labels from it:
    /// an edge goes from `a` to `b` when every passive group that holds `a` holds `b`
    /// (see `diagram_computed`).
    pub fn compute_diagram(&mut self)
        requires
            old(self).wf(),
        ensures
            diagram_computed(*old(self), *final(self)),
    {
        self.passive.maximize();
        let labels = self.labels();
        let d = diagram_of_lines(&labels, &self.passive.lines);
        self.diagram_indirect = Some(d);
    }
}

} // verus!
