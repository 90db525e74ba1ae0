//! Problems: an active and a passive constraint over labels with texts, how problems are
//! read from and written to text, and the diagram of the strength of their labels.
use vstd::prelude::*;
use crate::labels::{Label, sorted_strict, views, sorted_lex, sort_lex, sorted_set};
use crate::line::{GroupType, Group, Part, Line, PartV, positions, line_wf, positions_wf, part_wf, lemma_positions_wf};
use crate::constraint::{Constraint, Degree, lines_view, labels_in};
use crate::text::{string_of, chars_of, string_push, push_all, decimal, decimal_exec, text_eq};
use crate::fixpoint::FixpointDiagram;

verus! {

/// The direct diagram: groups of equivalent labels, each with the label that stands for it,
/// and the edges between these labels that no third label lies on.
pub type DiagramDirect = (Vec<(Label, Vec<Label>)>, Vec<(Label, Label)>);

/// A problem: what active and passive nodes may see, the texts of the labels, and what was
/// computed about the problem so far.
pub struct Problem {
    pub active: Constraint,
    pub passive: Constraint,
    pub mapping_label_text: Vec<(Label, String)>,
    pub mapping_label_oldlabels: Option<Vec<(Label, Vec<Label>)>>,
    pub trivial_sets: Option<Vec<Vec<Label>>>,
    pub diagram_indirect: Option<Vec<(Label, Label)>>,
    pub diagram_direct: Option<DiagramDirect>,
    pub fixpoint_diagram: Option<(Option<Vec<Label>>, FixpointDiagram)>,
}

/// The labels of a label-to-text mapping, in order.
pub open spec fn mapping_labels(m: Seq<(Label, String)>) -> Seq<Label> {
    m.map_values(|p: (Label, String)| p.0)
}

/// The text of label `l`: that of its first entry in the mapping.
pub open spec fn text_of(m: Seq<(Label, String)>, l: Label) -> Seq<char>
    decreases m.len(),
{
    if m.len() == 0 {
        Seq::empty()
    } else if m[0].0 == l {
        m[0].1@
    } else {
        text_of(m.drop_first(), l)
    }
}

/// The texts of the labels of a group, one after the other.
pub open spec fn group_text(m: Seq<(Label, String)>, g: Seq<Label>) -> Seq<char>
    decreases g.len(),
{
    if g.len() == 0 {
        Seq::empty()
    } else {
        group_text(m, g.drop_last()) + text_of(m, g.last())
    }
}

/// The text of a part: its group, then `^n` for a multiplicity above one, or `*`.
pub open spec fn part_text(m: Seq<(Label, String)>, p: PartV) -> Seq<char> {
    group_text(m, p.1) + match p.0 {
        GroupType::Many(n) => if n > 1 { seq!['^'] + decimal(n as nat) } else { Seq::empty() },
        GroupType::Star => seq!['*'],
    }
}

/// The text of a line: its parts separated by spaces.
pub open spec fn line_text(m: Seq<(Label, String)>, l: Seq<PartV>) -> Seq<char>
    decreases l.len(),
{
    if l.len() == 0 {
        Seq::empty()
    } else if l.len() == 1 {
        part_text(m, l[0])
    } else {
        line_text(m, l.drop_last()) + seq![' '] + part_text(m, l.last())
    }
}

/// The text of a constraint: each line followed by a line break.
pub open spec fn constraint_text(m: Seq<(Label, String)>, lines: Seq<Seq<PartV>>) -> Seq<char>
    decreases lines.len(),
{
    if lines.len() == 0 {
        Seq::empty()
    } else {
        constraint_text(m, lines.drop_last()) + line_text(m, lines.last()) + seq!['\n']
    }
}

impl Problem {
    /// The constraints are well formed and the mapping lists its labels in increasing order.
    pub open spec fn wf(&self) -> bool {
        &&& self.active.wf()
        &&& self.passive.wf()
        &&& sorted_strict(mapping_labels(self.mapping_label_text@))
    }

    /// Every label of the constraints has a text.
    pub open spec fn texts_cover(&self) -> bool {
        &&& labels_in(lines_view(self.active.lines@)).subset_of(mapping_labels(self.mapping_label_text@).to_set())
        &&& labels_in(lines_view(self.passive.lines@)).subset_of(mapping_labels(self.mapping_label_text@).to_set())
    }

    /// The text of the problem: the active lines, an empty line, the passive lines.
    pub open spec fn text(&self) -> Seq<char> {
        constraint_text(self.mapping_label_text@, lines_view(self.active.lines@)) + seq!['\n']
            + constraint_text(self.mapping_label_text@, lines_view(self.passive.lines@))
    }

    /// The labels of the problem, in increasing order.
    pub fn labels(&self) -> (r: Vec<Label>)
        ensures
            r@ == mapping_labels(self.mapping_label_text@),
    {
        let mut r: Vec<Label> = Vec::new();
        let mut i: usize = 0;
        while i < self.mapping_label_text.len()
            invariant
                i <= self.mapping_label_text.len(),
                r@ == mapping_labels(self.mapping_label_text@).subrange(0, i as int),
            decreases self.mapping_label_text.len() - i,
        {
            r.push(self.mapping_label_text[i].0);
            assert(r@ =~= mapping_labels(self.mapping_label_text@).subrange(0, i + 1));
            i = i + 1;
        }
        assert(r@ =~= mapping_labels(self.mapping_label_text@));
        r
    }
}

/// The text of label `l` in the mapping (see `text_of`).
pub fn text_of_exec(m: &Vec<(Label, String)>, l: Label) -> (r: Vec<char>)
    ensures
        r@ == text_of(m@, l),
{
    let mut i: usize = 0;
    assert(m@.skip(0) =~= m@);
    while i < m.len()
        invariant
            i <= m.len(),
            text_of(m@, l) == text_of(m@.skip(i as int), l),
        decreases m.len() - i,
    {
        proof {
            assert(m@.skip(i as int).drop_first() =~= m@.skip(i + 1));
            assert(m@.skip(i as int)[0] == m@[i as int]);
        }
        if m[i].0 == l {
            return chars_of(m[i].1.as_str());
        }
        i = i + 1;
    }
    assert(m@.skip(i as int).len() == 0);
    Vec::new()
}

fn group_text_exec(m: &Vec<(Label, String)>, g: &Vec<Label>, out: &mut Vec<char>)
    ensures
        final(out)@ == old(out)@ + group_text(m@, g@),
{
    let ghost o0 = out@;
    let mut i: usize = 0;
    while i < g.len()
        invariant
            i <= g.len(),
            out@ == o0 + group_text(m@, g@.subrange(0, i as int)),
        decreases g.len() - i,
    {
        let t = text_of_exec(m, g[i]);
        push_all(out, &t);
        proof {
            assert(g@.subrange(0, i + 1).drop_last() =~= g@.subrange(0, i as int));
            assert(out@ =~= o0 + group_text(m@, g@.subrange(0, i + 1)));
        }
        i = i + 1;
    }
    assert(g@.subrange(0, g.len() as int) =~= g@);
}

fn part_text_exec(m: &Vec<(Label, String)>, p: &Part, out: &mut Vec<char>)
    ensures
        final(out)@ == old(out)@ + part_text(m@, p@),
{
    let ghost o0 = out@;
    group_text_exec(m, &p.group.0, out);
    match p.gtype {
        GroupType::Many(n) => {
            if n > 1 {
                out.push('^');
                let d = decimal_exec(n);
                push_all(out, &d);
                assert(out@ =~= o0 + part_text(m@, p@));
            } else {
                assert(out@ =~= o0 + part_text(m@, p@));
            }
        },
        GroupType::Star => {
            out.push('*');
            assert(out@ =~= o0 + part_text(m@, p@));
        },
    }
}

fn line_text_exec(m: &Vec<(Label, String)>, l: &Line, out: &mut Vec<char>)
    ensures
        final(out)@ == old(out)@ + line_text(m@, l@),
{
    let ghost o0 = out@;
    let mut i: usize = 0;
    while i < l.parts.len()
        invariant
            i <= l.parts.len(),
            out@ == o0 + line_text(m@, l@.subrange(0, i as int)),
        decreases l.parts.len() - i,
    {
        if i > 0 {
            out.push(' ');
        }
        part_text_exec(m, &l.parts[i], out);
        proof {
            let s1 = l@.subrange(0, i + 1);
            assert(s1.drop_last() =~= l@.subrange(0, i as int));
            assert(s1.last() == l.parts@[i as int]@);
            if i == 0 {
                assert(s1[0] == l.parts@[0]@);
            }
            assert(out@ =~= o0 + line_text(m@, s1));
        }
        i = i + 1;
    }
    assert(l@.subrange(0, l.parts.len() as int) =~= l@);
}

fn constraint_text_exec(m: &Vec<(Label, String)>, c: &Constraint, out: &mut Vec<char>)
    ensures
        final(out)@ == old(out)@ + constraint_text(m@, lines_view(c.lines@)),
{
    let ghost o0 = out@;
    let ghost lv = lines_view(c.lines@);
    let mut i: usize = 0;
    while i < c.lines.len()
        invariant
            i <= c.lines.len(),
            lv == lines_view(c.lines@),
            out@ == o0 + constraint_text(m@, lv.subrange(0, i as int)),
        decreases c.lines.len() - i,
    {
        line_text_exec(m, &c.lines[i], out);
        out.push('\n');
        proof {
            let s1 = lv.subrange(0, i + 1);
            assert(s1.drop_last() =~= lv.subrange(0, i as int));
            assert(s1.last() == c.lines@[i as int]@);
            assert(out@ =~= o0 + constraint_text(m@, s1));
        }
        i = i + 1;
    }
    assert(lv.subrange(0, c.lines.len() as int) =~= lv);
}

impl Problem {
    /// The text of the problem (see `text`).
    pub fn to_text(&self) -> (r: String)
        ensures
            r@ == self.text(),
    {
        let mut out: Vec<char> = Vec::new();
        constraint_text_exec(&self.mapping_label_text, &self.active, &mut out);
        out.push('\n');
        constraint_text_exec(&self.mapping_label_text, &self.passive, &mut out);
        assert(out@ =~= self.text());
        string_of(&out)
    }
}

} // verus!
