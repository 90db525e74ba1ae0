//! Groups, parts and lines of a constraint, and the inclusion of one line in another.
use vstd::prelude::*;
use crate::labels::{Label, sorted_strict, is_subset, is_injection, views, reorders, sorted_lex, lex_le, sort_lex};

verus! {

/// A set of labels, kept as a strictly increasing vector.
#[derive(Clone, Debug, PartialEq, Eq, Hash)]
pub struct Group(pub Vec<Label>);

/// How many positions of a line a part fills.
#[derive(Clone, Copy, Debug, PartialEq, Eq, Hash, Structural)]
pub enum GroupType {
    /// Exactly this many positions.
    Many(usize),
    /// Any number of positions.
    Star,
}

/// A group of labels together with its multiplicity.
#[derive(Clone, Debug, PartialEq, Eq, Hash)]
pub struct Part {
    pub gtype: GroupType,
    pub group: Group,
}

/// A line of a constraint: a list of parts.
#[derive(Clone, Debug, PartialEq, Eq, Hash)]
pub struct Line {
    pub parts: Vec<Part>,
}

/// What a part stands for: its multiplicity and its labels.
pub type PartV = (GroupType, Seq<Label>);

impl View for Group {
    type V = Seq<Label>;

    open spec fn view(&self) -> Seq<Label> {
        self.0@
    }
}

impl View for Part {
    type V = PartV;

    open spec fn view(&self) -> PartV {
        (self.gtype, self.group.0@)
    }
}

impl View for Line {
    type V = Seq<PartV>;

    open spec fn view(&self) -> Seq<PartV> {
        self.parts@.map_values(|p: Part| p@)
    }
}

/// The positions a part fills, each given by the part's group.
pub open spec fn part_positions(p: PartV) -> Seq<Seq<Label>> {
    match p.0 {
        GroupType::Many(n) => Seq::new(n as nat, |i: int| p.1),
        GroupType::Star => Seq::empty(),
    }
}

/// The positions of a line, part after part.
pub open spec fn positions(l: Seq<PartV>) -> Seq<Seq<Label>>
    decreases l.len(),
{
    if l.len() == 0 {
        Seq::empty()
    } else {
        positions(l.drop_last()) + part_positions(l.last())
    }
}

/// The part fills at least one position, is no star, and its group is strictly increasing.
pub open spec fn part_wf(p: PartV) -> bool {
    &&& (p.0 matches GroupType::Many(n) && n >= 1)
    &&& sorted_strict(p.1)
}

/// Each part fills at least one position, none is a star, and each group is strictly increasing.
pub open spec fn line_wf(l: Seq<PartV>) -> bool {
    forall|i: int| 0 <= i < l.len() ==> part_wf(#[trigger] l[i])
}

/// Every position holds a strictly increasing group.
pub open spec fn positions_wf(s: Seq<Seq<Label>>) -> bool {
    forall|i: int| 0 <= i < s.len() ==> sorted_strict(#[trigger] s[i])
}

/// The edges of an optional diagram.
pub open spec fn diagram_view(d: Option<&Vec<(Label, Label)>>) -> Option<Seq<(Label, Label)>> {
    match d {
        Some(v) => Some(v@),
        None => None,
    }
}

/// `x` reaches `y` in the diagram: they are equal, or the diagram holds the edge.
pub open spec fn reaches(diagram: Seq<(Label, Label)>, x: Label, y: Label) -> bool {
    x == y || diagram.contains((x, y))
}

/// The group `small` is below the group `big`: with no diagram, `small` is a subset of `big`;
/// with a diagram, every label of `small` reaches some label of `big`.
pub open spec fn group_le(diagram: Option<Seq<(Label, Label)>>, small: Seq<Label>, big: Seq<Label>) -> bool {
    match diagram {
        None => forall|x: Label| small.contains(x) ==> big.contains(x),
        Some(d) => forall|x: Label|
            small.contains(x) ==> exists|y: Label| big.contains(y) && reaches(d, x, y),
    }
}

/// The line with positions `small` is included in the line with positions `big`: some
/// one-to-one matching of positions puts each group of `small` below its partner in `big`.
pub open spec fn included(
    diagram: Option<Seq<(Label, Label)>>,
    small: Seq<Seq<Label>>,
    big: Seq<Seq<Label>>,
) -> bool {
    &&& small.len() == big.len()
    &&& exists|p: Seq<int>|
        is_injection(p, small.len() as int) && forall|k: int|
            0 <= k < small.len() ==> group_le(diagram, #[trigger] small[k], big[p[k]])
}

/// `p` matches the positions `k..` of `small` to free positions of `big`.
pub open spec fn partial_match(
    diagram: Option<Seq<(Label, Label)>>,
    small: Seq<Seq<Label>>,
    big: Seq<Seq<Label>>,
    used: Seq<bool>,
    k: int,
    p: Seq<int>,
) -> bool {
    &&& p.len() == small.len() - k
    &&& forall|i: int|
        0 <= i < p.len() ==> 0 <= #[trigger] p[i] < big.len() && !used[p[i]] && group_le(
            diagram,
            small[k + i],
            big[p[i]],
        )
    &&& forall|i: int, j: int| 0 <= i < j < p.len() ==> p[i] != p[j]
}

/// Whether `x` reaches `y` in the diagram.
pub fn reaches_exec(diagram: &Vec<(Label, Label)>, x: Label, y: Label) -> (r: bool)
    ensures
        r == reaches(diagram@, x, y),
{
    if x == y {
        return true;
    }
    let mut i: usize = 0;
    while i < diagram.len()
        invariant
            i <= diagram.len(),
            forall|k: int| 0 <= k < i ==> diagram@[k] != (x, y),
        decreases diagram.len() - i,
    {
        let (a, b) = diagram[i];
        if a == x && b == y {
            assert(diagram@[i as int] == (x, y));
            return true;
        }
        i = i + 1;
    }
    false
}

/// Whether `x` reaches some label of `big`.
pub fn reaches_some(diagram: &Vec<(Label, Label)>, x: Label, big: &Vec<Label>) -> (r: bool)
    ensures
        r == exists|y: Label| big@.contains(y) && reaches(diagram@, x, y),
{
    let mut j: usize = 0;
    while j < big.len()
        invariant
            j <= big.len(),
            forall|k: int| 0 <= k < j ==> !reaches(diagram@, x, #[trigger] big@[k]),
        decreases big.len() - j,
    {
        if reaches_exec(diagram, x, big[j]) {
            assert(big@.contains(big@[j as int]));
            return true;
        }
        j = j + 1;
    }
    assert forall|y: Label| big@.contains(y) implies !reaches(diagram@, x, y) by {
        let k = choose|k: int| 0 <= k < big@.len() && big@[k] == y;
    }
    false
}

/// Whether the group `small` is below the group `big` (see `group_le`).
pub fn group_le_exec(diagram: Option<&Vec<(Label, Label)>>, small: &Vec<Label>, big: &Vec<Label>) -> (r: bool)
    ensures
        r == group_le(diagram_view(diagram), small@, big@),
{
    match diagram {
        None => {
            let r = is_subset(small, big);
            proof {
                if r {
                    assert forall|x: Label| small@.contains(x) implies big@.contains(x) by {
                        assert(small@.to_set().contains(x));
                    }
                } else {
                    let x = choose|x: Label| small@.to_set().contains(x) && !big@.to_set().contains(x);
                    assert(small@.contains(x) && !big@.contains(x));
                }
            }
            r
        },
        Some(d) => {
            let mut i: usize = 0;
            while i < small.len()
                invariant
                    i <= small.len(),
                    diagram == Some(d),
                    forall|k: int|
                        0 <= k < i ==> exists|y: Label| big@.contains(y) && reaches(d@, #[trigger] small@[k], y),
                decreases small.len() - i,
            {
                if !reaches_some(d, small[i], big) {
                    proof {
                        let x = small@[i as int];
                        assert(small@.contains(x));
                        assert(diagram == Some(d));
                        assert(diagram_view(diagram) == Some(d@));
                        assert(!group_le(Some(d@), small@, big@));
                    }
                    return false;
                }
                i = i + 1;
            }
            proof {
                assert forall|x: Label| small@.contains(x) implies exists|y: Label| big@.contains(y) && reaches(d@, x, y) by {
                    let k = choose|k: int| 0 <= k < small@.len() && small@[k] == x;
                }
            }
            true
        },
    }
}

fn match_from(
    diagram: Option<&Vec<(Label, Label)>>,
    small: &Vec<Vec<Label>>,
    big: &Vec<Vec<Label>>,
    used: &mut Vec<bool>,
    k: usize,
) -> (r: bool)
    requires
        small.len() == big.len(),
        old(used).len() == big.len(),
        k <= small.len(),
    ensures
        final(used)@ == old(used)@,
        r == exists|p: Seq<int>|
            partial_match(
                diagram_view(diagram),
                views(small@),
                views(big@),
                old(used)@,
                k as int,
                p,
            ),
    decreases small.len() - k,
{
    let ghost dg = diagram_view(diagram);
    let ghost vs = views(small@);
    let ghost vb = views(big@);
    let ghost u0 = used@;
    if k == small.len() {
        assert(partial_match(dg, vs, vb, u0, k as int, Seq::<int>::empty()));
        return true;
    }
    let mut m: usize = 0;
    while m < big.len()
        invariant
            used@ == u0,
            u0 == old(used)@,
            u0.len() == big.len(),
            small.len() == big.len(),
            k < small.len(),
            m <= big.len(),
            dg == diagram_view(diagram),
            vs == views(small@),
            vb == views(big@),
            forall|q: Seq<int>| partial_match(dg, vs, vb, u0, k as int, q) ==> q[0] >= m,
        decreases big.len() - m,
    {
        if !used[m] && group_le_exec(diagram, &small[k], &big[m]) {
            used.set(m, true);
            let ok = match_from(diagram, small, big, used, k + 1);
            used.set(m, false);
            proof {
                assert(used@ =~= u0);
            }
            if ok {
                proof {
                    let u1 = u0.update(m as int, true);
                    let q = choose|q: Seq<int>| #[trigger] partial_match(dg, vs, vb, u1, k + 1, q);
                    let p = seq![m as int] + q;
                    assert(vs[k as int] == small@[k as int]@);
                    assert(vb[m as int] == big@[m as int]@);
                    assert forall|i: int| 0 <= i < p.len() implies 0 <= #[trigger] p[i] < vb.len() && !u0[p[i]]
                        && group_le(dg, vs[k + i], vb[p[i]]) by {
                        if i > 0 {
                            assert(p[i] == q[i - 1]);
                            assert(!u1[q[i - 1]]);
                        }
                    }
                    assert forall|i: int, j: int| 0 <= i < j < p.len() implies p[i] != p[j] by {
                        if i > 0 {
                            assert(p[i] == q[i - 1]);
                            assert(p[j] == q[j - 1]);
                        } else {
                            assert(p[j] == q[j - 1]);
                            assert(!u1[q[j - 1]]);
                        }
                    }
                    assert(partial_match(dg, vs, vb, u0, k as int, p));
                }
                return true;
            }
            proof {
                let u1 = u0.update(m as int, true);
                assert forall|q: Seq<int>| partial_match(dg, vs, vb, u0, k as int, q) implies q[0] >= m + 1 by {
                    if q[0] == m {
                        let q1 = q.drop_first();
                        assert forall|i: int| 0 <= i < q1.len() implies 0 <= #[trigger] q1[i] < vb.len()
                            && !u1[q1[i]] && group_le(dg, vs[k + 1 + i], vb[q1[i]]) by {
                            assert(q1[i] == q[i + 1]);
                            assert(q[0] != q[i + 1]);
                        }
                        assert forall|i: int, j: int| 0 <= i < j < q1.len() implies q1[i] != q1[j] by {
                            assert(q1[i] == q[i + 1]);
                            assert(q1[j] == q[j + 1]);
                        }
                        assert(partial_match(dg, vs, vb, u1, k + 1, q1));
                    }
                }
            }
        } else {
            proof {
                assert(vs[k as int] == small@[k as int]@);
                assert(vb[m as int] == big@[m as int]@);
                assert forall|q: Seq<int>| partial_match(dg, vs, vb, u0, k as int, q) implies q[0] >= m + 1 by {
                    if q[0] == m {
                        assert(0 <= 0 < q.len());
                    }
                }
            }
        }
        m = m + 1;
    }
    proof {
        assert forall|q: Seq<int>| !partial_match(dg, vs, vb, u0, k as int, q) by {
            if partial_match(dg, vs, vb, u0, k as int, q) {
                assert(q[0] < vb.len());
            }
        }
    }
    false
}

/// Whether the line with positions `small` is included in the line with positions `big`
/// (see `included`).
pub fn positions_included(
    diagram: Option<&Vec<(Label, Label)>>,
    small: &Vec<Vec<Label>>,
    big: &Vec<Vec<Label>>,
) -> (r: bool)
    ensures
        r == included(diagram_view(diagram), views(small@), views(big@)),
{
    let ghost dg = diagram_view(diagram);
    let ghost vs = views(small@);
    let ghost vb = views(big@);
    if small.len() != big.len() {
        return false;
    }
    let mut used: Vec<bool> = Vec::new();
    let mut i: usize = 0;
    while i < big.len()
        invariant
            i <= big.len(),
            used@.len() == i,
            forall|j: int| 0 <= j < i ==> !used@[j],
        decreases big.len() - i,
    {
        used.push(false);
        i = i + 1;
    }
    let ghost u0 = used@;
    let r = match_from(diagram, small, big, &mut used, 0);
    proof {
        if r {
            let p = choose|p: Seq<int>| partial_match(dg, vs, vb, u0, 0, p);
            assert forall|k: int| 0 <= k < vs.len() implies group_le(dg, #[trigger] vs[k], vb[p[k]]) by {
                assert(vs[0 + k] == vs[k]);
            }
            assert(is_injection(p, vs.len() as int));
        } else {
            assert forall|p: Seq<int>| is_injection(p, vs.len() as int) implies !(forall|k: int|
                0 <= k < vs.len() ==> group_le(dg, #[trigger] vs[k], vb[p[k]])) by {
                if forall|k: int| 0 <= k < vs.len() ==> group_le(dg, #[trigger] vs[k], vb[p[k]]) {
                    assert forall|i: int| 0 <= i < p.len() implies 0 <= #[trigger] p[i] < vb.len() && !u0[p[i]]
                        && group_le(dg, vs[0 + i], vb[p[i]]) by {
                        assert(vs[0 + i] == vs[i]);
                    }
                    assert(partial_match(dg, vs, vb, u0, 0, p));
                }
            }
        }
    }
    r
}

/// Positions of a prefix of parts grow by the positions of the next part.
pub proof fn lemma_positions_prefix(l: Seq<PartV>, i: int)
    requires
        0 <= i < l.len(),
    ensures
        positions(l.subrange(0, i + 1)) == positions(l.subrange(0, i)) + part_positions(l[i]),
{
    assert(l.subrange(0, i + 1).drop_last() =~= l.subrange(0, i));
}

/// The positions of a well-formed line hold strictly increasing groups.
pub proof fn lemma_positions_wf(l: Seq<PartV>)
    requires
        line_wf(l),
    ensures
        positions_wf(positions(l)),
    decreases l.len(),
{
    if l.len() > 0 {
        assert(line_wf(l.drop_last())) by {
            assert forall|i: int| 0 <= i < l.drop_last().len() implies part_wf(#[trigger] l.drop_last()[i]) by {
                assert(l.drop_last()[i] == l[i]);
            }
        }
        lemma_positions_wf(l.drop_last());
        assert(part_wf(l[l.len() - 1]));
        let a = positions(l.drop_last());
        let b = part_positions(l.last());
        assert forall|i: int| 0 <= i < positions(l).len() implies sorted_strict(#[trigger] positions(l)[i]) by {
            if i >= a.len() {
                assert(positions(l)[i] == b[i - a.len()]);
            } else {
                assert(positions(l)[i] == a[i]);
            }
        }
    }
}

/// Whether two label vectors are equal.
pub fn labels_eq(a: &Vec<Label>, b: &Vec<Label>) -> (r: bool)
    ensures
        r == (a@ == b@),
{
    if a.len() != b.len() {
        return false;
    }
    let mut i: usize = 0;
    while i < a.len()
        invariant
            a.len() == b.len(),
            i <= a.len(),
            forall|k: int| 0 <= k < i ==> a@[k] == b@[k],
        decreases a.len() - i,
    {
        if a[i] != b[i] {
            return false;
        }
        i = i + 1;
    }
    assert(a@ =~= b@);
    true
}

/// A copy of a list of edges.
pub fn copy_pairs(a: &Vec<(Label, Label)>) -> (r: Vec<(Label, Label)>)
    ensures
        r@ == a@,
{
    let mut r: Vec<(Label, Label)> = Vec::new();
    let mut i: usize = 0;
    while i < a.len()
        invariant
            i <= a.len(),
            r@ == a@.subrange(0, i as int),
        decreases a.len() - i,
    {
        r.push(a[i]);
        assert(r@ =~= a@.subrange(0, i + 1));
        i = i + 1;
    }
    assert(r@ =~= a@);
    r
}

/// A copy of a label vector.
pub fn copy_labels(a: &Vec<Label>) -> (r: Vec<Label>)
    ensures
        r@ == a@,
{
    let r = a.clone();
    assert(r@ =~= a@);
    r
}

impl Group {
    /// A copy of the group.
    pub fn copy(&self) -> (r: Group)
        ensures
            r@ == self@,
    {
        Group(copy_labels(&self.0))
    }
}

impl Part {
    /// A copy of the part.
    pub fn copy(&self) -> (r: Part)
        ensures
            r@ == self@,
    {
        Part { gtype: self.gtype, group: self.group.copy() }
    }
}

impl Line {
    /// A copy of the line.
    pub fn copy(&self) -> (r: Line)
        ensures
            r@ == self@,
    {
        let mut parts: Vec<Part> = Vec::new();
        let mut i: usize = 0;
        while i < self.parts.len()
            invariant
                i <= self.parts.len(),
                parts@.len() == i,
                forall|k: int| 0 <= k < i ==> (#[trigger] parts@[k])@ == self.parts@[k]@,
            decreases self.parts.len() - i,
        {
            parts.push(self.parts[i].copy());
            i = i + 1;
        }
        let r = Line { parts };
        assert(r@ =~= self@);
        r
    }

    /// The positions of the line, each given by its group (star parts fill none).
    pub fn expand(&self) -> (r: Vec<Vec<Label>>)
        ensures
            views(r@) == positions(self@),
    {
        let mut r: Vec<Vec<Label>> = Vec::new();
        let mut i: usize = 0;
        while i < self.parts.len()
            invariant
                i <= self.parts.len(),
                views(r@) == positions(self@.subrange(0, i as int)),
            decreases self.parts.len() - i,
        {
            let part = &self.parts[i];
            let ghost r0 = views(r@);
            match part.gtype {
                GroupType::Many(n) => {
                    let mut c: usize = 0;
                    while c < n
                        invariant
                            c <= n,
                            views(r@) == r0 + Seq::new(c as nat, |k: int| part.group.0@),
                        decreases n - c,
                    {
                        let ghost rp = r@;
                        let x = copy_labels(&part.group.0);
                        r.push(x);
                        assert(views(r@) =~= views(rp).push(x@));
                        assert(views(r@) =~= r0 + Seq::new((c + 1) as nat, |k: int| part.group.0@));
                        c = c + 1;
                    }
                },
                GroupType::Star => {},
            }
            proof {
                lemma_positions_prefix(self@, i as int);
                assert(self@[i as int] == part@);
                assert(views(r@) =~= positions(self@.subrange(0, i + 1)));
            }
            i = i + 1;
        }
        assert(self@.subrange(0, self.parts.len() as int) =~= self@);
        r
    }

    /// The line whose positions are exactly `pos`, which must be sorted: equal consecutive
    /// positions are gathered into one part.
    pub fn from_sorted_positions(pos: &Vec<Vec<Label>>) -> (r: Line)
        requires
            sorted_lex(views(pos@)),
            positions_wf(views(pos@)),
        ensures
            line_wf(r@),
            positions(r@) == views(pos@),
            forall|i: int| 0 <= i < r@.len() - 1 ==> (#[trigger] r@[i]).1 != r@[i + 1].1,
    {
        let mut parts: Vec<Part> = Vec::new();
        let mut i: usize = 0;
        while i < pos.len()
            invariant
                i <= pos.len(),
                positions_wf(views(pos@)),
                line_wf(parts@.map_values(|p: Part| p@)),
                positions(parts@.map_values(|p: Part| p@)) == views(pos@).subrange(0, i as int),
                forall|k: int| 0 <= k < parts@.len() - 1 ==> (#[trigger] parts@[k]).group.0@ != parts@[k + 1].group.0@,
                i > 0 ==> parts@.len() > 0 && parts@.last().group.0@ == pos@[i - 1]@,
                i == 0 ==> parts@.len() == 0,
            decreases pos.len() - i,
        {
            let ghost pv0 = parts@.map_values(|p: Part| p@);
            let ghost vp = views(pos@);
            assert(vp[i as int] == pos@[i as int]@);
            if parts.len() > 0 && labels_eq(&parts[parts.len() - 1].group.0, &pos[i]) {
                let last = parts.len() - 1;
                let n = match parts[last].gtype {
                    GroupType::Many(n) => n,
                    GroupType::Star => 0,
                };
                assert(pv0[last as int] == parts@[last as int]@);
                assert(part_wf(pv0[last as int]));
                assert(n < usize::MAX) by {
                    assert(pv0.last() == pv0[last as int]);
                    assert(part_positions(pv0.last()).len() == n);
                    assert(positions(pv0).len() == i);
                    assert(positions(pv0) == positions(pv0.drop_last()) + part_positions(pv0.last()));
                }
                let g = parts[last].group.copy();
                parts.set(last, Part { gtype: GroupType::Many(n + 1), group: g });
                proof {
                    let pv = parts@.map_values(|p: Part| p@);
                    assert(pv.drop_last() =~= pv0.drop_last());
                    assert(part_positions(pv.last()) =~= part_positions(pv0.last()).push(vp[i as int]));
                    assert(positions(pv) =~= positions(pv0).push(vp[i as int]));
                    assert(vp.subrange(0, i + 1) =~= vp.subrange(0, i as int).push(vp[i as int]));
                    assert forall|k: int| 0 <= k < pv.len() implies part_wf(#[trigger] pv[k]) by {
                        if k < last {
                            assert(pv[k] == pv0[k]);
                        }
                    }
                }
            } else {
                parts.push(Part { gtype: GroupType::Many(1), group: Group(copy_labels(&pos[i])) });
                proof {
                    let pv = parts@.map_values(|p: Part| p@);
                    assert(pv.drop_last() =~= pv0);
                    assert(part_positions(pv.last()) =~= seq![vp[i as int]]);
                    assert(positions(pv) =~= positions(pv0) + seq![vp[i as int]]);
                    assert(vp.subrange(0, i + 1) =~= vp.subrange(0, i as int).push(vp[i as int]));
                    assert forall|k: int| 0 <= k < pv.len() implies part_wf(#[trigger] pv[k]) by {
                        if k < pv.len() - 1 {
                            assert(pv[k] == pv0[k]);
                        }
                    }
                }
            }
            i = i + 1;
        }
        let r = Line { parts };
        assert(views(pos@).subrange(0, pos.len() as int) =~= views(pos@));
        r
    }
}

/// Inclusion of lines is transitive when the group order is: always for the subset
/// order, and for a diagram when its reachability is transitive.
pub proof fn lemma_included_trans(
    dg: Option<Seq<(Label, Label)>>,
    a: Seq<Seq<Label>>,
    b: Seq<Seq<Label>>,
    c: Seq<Seq<Label>>,
)
    requires
        included(dg, a, b),
        included(dg, b, c),
        forall|x: Seq<Label>, y: Seq<Label>, z: Seq<Label>|
            #[trigger] group_le(dg, x, y) && #[trigger] group_le(dg, y, z) ==> group_le(dg, x, z),
    ensures
        included(dg, a, c),
{
    let p = choose|p: Seq<int>|
        is_injection(p, a.len() as int) && forall|k: int| 0 <= k < a.len() ==> group_le(dg, #[trigger] a[k], b[p[k]]);
    let q = choose|q: Seq<int>|
        is_injection(q, b.len() as int) && forall|k: int| 0 <= k < b.len() ==> group_le(dg, #[trigger] b[k], c[q[k]]);
    let r = Seq::new(a.len(), |k: int| q[p[k]]);
    assert forall|k: int| 0 <= k < a.len() implies group_le(dg, #[trigger] a[k], c[r[k]]) by {
        assert(group_le(dg, a[k], b[p[k]]));
        assert(group_le(dg, b[p[k]], c[q[p[k]]]));
    }
    assert(is_injection(r, a.len() as int));
}

/// Inclusion does not depend on the order of the positions of the bigger line.
pub proof fn lemma_included_reorder_big(
    dg: Option<Seq<(Label, Label)>>,
    a: Seq<Seq<Label>>,
    b: Seq<Seq<Label>>,
    b2: Seq<Seq<Label>>,
    inv: Seq<int>,
)
    requires
        included(dg, a, b),
        reorders(b2, b, inv),
    ensures
        included(dg, a, b2),
{
    let p = choose|p: Seq<int>|
        is_injection(p, a.len() as int) && forall|k: int| 0 <= k < a.len() ==> group_le(dg, #[trigger] a[k], b[p[k]]);
    let r = Seq::new(a.len(), |k: int| inv[p[k]]);
    assert forall|k: int| 0 <= k < a.len() implies group_le(dg, #[trigger] a[k], b2[r[k]]) by {
        assert(group_le(dg, a[k], b[p[k]]));
        assert(b2[inv[p[k]]] == b[p[k]]);
    }
    assert(is_injection(r, a.len() as int));
}

/// Inclusion does not depend on the order of the positions of the smaller line.
pub proof fn lemma_included_reorder_small(
    dg: Option<Seq<(Label, Label)>>,
    a: Seq<Seq<Label>>,
    a2: Seq<Seq<Label>>,
    inv: Seq<int>,
    b: Seq<Seq<Label>>,
)
    requires
        included(dg, a2, b),
        reorders(a2, a, inv),
    ensures
        included(dg, a, b),
{
    let p = choose|p: Seq<int>|
        is_injection(p, a2.len() as int) && forall|k: int| 0 <= k < a2.len() ==> group_le(dg, #[trigger] a2[k], b[p[k]]);
    let r = Seq::new(a.len(), |k: int| p[inv[k]]);
    assert forall|k: int| 0 <= k < a.len() implies group_le(dg, #[trigger] a[k], b[r[k]]) by {
        assert(a2[inv[k]] == a[k]);
        assert(group_le(dg, a2[inv[k]], b[p[inv[k]]]));
    }
    assert(is_injection(r, a.len() as int));
}

} // verus!
