//! Triviality: a set of labels that some active line can always pick from, and that the
//! passive side accepts in every combination, solves the problem in zero rounds.
use vstd::prelude::*;
use crate::labels::{Label, sorted_strict, views, sorted_lex, sort_lex, insert_sorted, is_subset, lex_le, lemma_sorted_set_eq, reorders, is_hit};
use crate::line::{Line, PartV, positions, included, positions_included, labels_eq, copy_labels, lemma_positions_wf, positions_wf};
use crate::constraint::{Constraint, Degree, lines_view, is_antichain, covers, normal_line, all_nonempty, labels_in, maximized_from};
use crate::problem::Problem;

verus! {

/// The sets of labels that one can obtain by picking one label from each position.
pub open spec fn choice_sets(pos: Seq<Seq<Label>>) -> Set<Set<Label>>
    decreases pos.len(),
{
    if pos.len() == 0 {
        set![Set::empty()]
    } else {
        Set::new(|t: Set<Label>| exists|s: Set<Label>, x: Label|
            #[trigger] choice_sets(pos.drop_last()).contains(s) && #[trigger] pos.last().contains(x) && t == s.insert(x))
    }
}

/// The sets of labels that one can obtain by picking one label from each position of some line.
pub open spec fn all_choice_sets(lines: Seq<Seq<PartV>>) -> Set<Set<Label>> {
    Set::new(|t: Set<Label>| exists|i: int| 0 <= i < lines.len() && #[trigger] choice_sets(positions(lines[i])).contains(t))
}

/// The members of the family that contain no other member.
pub open spec fn minimal_sets(f: Set<Set<Label>>) -> Set<Set<Label>> {
    Set::new(|t: Set<Label>| f.contains(t) && !exists|u: Set<Label>| #[trigger] f.contains(u) && u.subset_of(t) && u != t)
}

/// The label sets that a list of strictly increasing vectors holds.
pub open spec fn family(v: Seq<Seq<Label>>) -> Set<Set<Label>> {
    Set::new(|t: Set<Label>| exists|i: int| 0 <= i < v.len() && (#[trigger] v[i]).to_set() == t)
}

/// Every vector of the list is strictly increasing, and no two are equal.
pub open spec fn distinct_sets(v: Seq<Seq<Label>>) -> bool {
    &&& forall|i: int| 0 <= i < v.len() ==> sorted_strict(#[trigger] v[i])
    &&& forall|i: int, j: int| 0 <= i < j < v.len() ==> v[i] != v[j]
}

/// Adds `x` to the list unless it is there already.
fn push_unique(v: &mut Vec<Vec<Label>>, x: Vec<Label>)
    requires
        distinct_sets(views(old(v)@)),
        sorted_strict(x@),
    ensures
        distinct_sets(views(final(v)@)),
        family(views(final(v)@)) == family(views(old(v)@)).insert(x@.to_set()),
        views(old(v)@).len() <= views(final(v)@).len(),
{
    let ghost v0 = views(v@);
    let mut i: usize = 0;
    while i < v.len()
        invariant
            i <= v.len(),
            v0 == views(v@),
            distinct_sets(v0),
            forall|k: int| 0 <= k < i ==> v0[k] != x@,
        decreases v.len() - i,
    {
        if labels_eq(&v[i], &x) {
            assert(v0[i as int] == x@);
            assert(family(v0) =~= family(v0).insert(x@.to_set()));
            return;
        }
        i = i + 1;
    }
    v.push(x);
    proof {
        let v1 = views(v@);
        assert(v1 =~= v0.push(x@));
        assert forall|a: int, b: int| 0 <= a < b < v1.len() implies v1[a] != v1[b] by {
            if b == v1.len() - 1 {
                assert(v1[a] == v0[a]);
            } else {
                assert(v1[a] == v0[a]);
                assert(v1[b] == v0[b]);
            }
        }
        assert forall|t: Set<Label>| family(v1).contains(t) <==> family(v0).insert(x@.to_set()).contains(t) by {
            if family(v1).contains(t) {
                let k = choose|k: int| 0 <= k < v1.len() && (#[trigger] v1[k]).to_set() == t;
                if k < v0.len() {
                    assert(v1[k] == v0[k]);
                }
            }
            if family(v0).contains(t) {
                let k = choose|k: int| 0 <= k < v0.len() && (#[trigger] v0[k]).to_set() == t;
                assert(v1[k] == v0[k]);
            }
            if t == x@.to_set() {
                assert(v1[v1.len() - 1] == x@);
            }
        }
        assert(family(v1) =~= family(v0).insert(x@.to_set()));
    }
}

/// The sets of labels that one can obtain by picking one label from each of the positions.
fn choice_sets_exec(pos: &Vec<Vec<Label>>) -> (r: Vec<Vec<Label>>)
    requires
        positions_wf(views(pos@)),
    ensures
        distinct_sets(views(r@)),
        family(views(r@)) == choice_sets(views(pos@)),
{
    let mut cur: Vec<Vec<Label>> = Vec::new();
    cur.push(Vec::new());
    proof {
        let e: Seq<Label> = Seq::empty();
        assert(views(cur@)[0] =~= e);
        assert(e.to_set() =~= Set::<Label>::empty());
        assert(views(pos@).subrange(0, 0) =~= Seq::<Seq<Label>>::empty());
        assert(family(views(cur@)) =~= choice_sets(views(pos@).subrange(0, 0))) by {
            assert forall|t: Set<Label>| family(views(cur@)).contains(t) <==> choice_sets(views(pos@).subrange(0, 0)).contains(t) by {
                if t == Set::<Label>::empty() {
                    assert(views(cur@)[0].to_set() == t);
                }
            }
        }
    }
    let mut k: usize = 0;
    while k < pos.len()
        invariant
            k <= pos.len(),
            positions_wf(views(pos@)),
            distinct_sets(views(cur@)),
            family(views(cur@)) == choice_sets(views(pos@).subrange(0, k as int)),
        decreases pos.len() - k,
    {
        let g = &pos[k];
        let mut next: Vec<Vec<Label>> = Vec::new();
        let ghost fc = family(views(cur@));
        let mut a: usize = 0;
        while a < cur.len()
            invariant
                a <= cur.len(),
                k < pos.len(),
                g == &pos@[k as int],
                distinct_sets(views(cur@)),
                distinct_sets(views(next@)),
                fc == family(views(cur@)),
                family(views(next@)) == Set::new(|t: Set<Label>| exists|i: int, x: Label|
                    #![trigger views(cur@)[i], g@.contains(x)] 0 <= i < a && g@.contains(x) && t == views(cur@)[i].to_set().insert(x)),
            decreases cur.len() - a,
        {
            let mut b: usize = 0;
            let ghost fn0 = family(views(next@));
            let ghost base = views(cur@)[a as int].to_set();
            while b < g.len()
                invariant
                    a < cur.len(),
                    b <= g.len(),
                    base == views(cur@)[a as int].to_set(),
                    distinct_sets(views(cur@)),
                    distinct_sets(views(next@)),
                    family(views(next@)) == fn0.union(Set::new(|t: Set<Label>| exists|m: int|
                        0 <= m < b && t == base.insert(#[trigger] g@[m]))),
                decreases g.len() - b,
            {
                let mut s = copy_labels(&cur[a]);
                assert(views(cur@)[a as int] == cur@[a as int]@);
                insert_sorted(&mut s, g[b]);
                push_unique(&mut next, s);
                proof {
                    assert(family(views(next@)) =~= fn0.union(Set::new(|t: Set<Label>| exists|m: int|
                        0 <= m < b + 1 && t == base.insert(#[trigger] g@[m])))) by {
                        assert(s@.to_set() == base.insert(g@[b as int]));
                    }
                }
                b = b + 1;
            }
            proof {
                assert(family(views(next@)) =~= Set::new(|t: Set<Label>| exists|i: int, x: Label|
                    #![trigger views(cur@)[i], g@.contains(x)] 0 <= i < a + 1 && g@.contains(x) && t == views(cur@)[i].to_set().insert(x))) by {
                    assert forall|t: Set<Label>| family(views(next@)).contains(t) <==> (exists|i: int, x: Label|
                        #![trigger views(cur@)[i], g@.contains(x)] 0 <= i < a + 1 && g@.contains(x) && t == views(cur@)[i].to_set().insert(x)) by {
                        if exists|i: int, x: Label| #![trigger views(cur@)[i], g@.contains(x)] 0 <= i < a + 1 && g@.contains(x) && t == views(cur@)[i].to_set().insert(x) {
                            let (i, x) = choose|i: int, x: Label| #![trigger views(cur@)[i], g@.contains(x)] 0 <= i < a + 1 && g@.contains(x) && t == views(cur@)[i].to_set().insert(x);
                            if i == a {
                                let m = choose|m: int| 0 <= m < g@.len() && g@[m] == x;
                                assert(t == base.insert(g@[m]));
                            } else {
                                assert(fn0.contains(t));
                            }
                        }
                        if family(views(next@)).contains(t) && !fn0.contains(t) {
                            let m = choose|m: int| 0 <= m < g@.len() && t == base.insert(#[trigger] g@[m]);
                            assert(g@.contains(g@[m]));
                        }
                    }
                }
            }
            a = a + 1;
        }
        proof {
            let pk = views(pos@).subrange(0, k + 1);
            assert(pk.drop_last() =~= views(pos@).subrange(0, k as int));
            assert(pk.last() == g@);
            assert(family(views(next@)) =~= choice_sets(pk)) by {
                assert forall|t: Set<Label>| family(views(next@)).contains(t) <==> choice_sets(pk).contains(t) by {
                    if family(views(next@)).contains(t) {
                        let (i, x) = choose|i: int, x: Label| #![trigger views(cur@)[i], g@.contains(x)] 0 <= i < cur@.len() && g@.contains(x) && t == views(cur@)[i].to_set().insert(x);
                        let s = views(cur@)[i].to_set();
                        assert(fc.contains(s));
                        assert(choice_sets(pk.drop_last()).contains(s));
                    }
                    if choice_sets(pk).contains(t) {
                        let (s, x) = choose|s: Set<Label>, x: Label|
                            #[trigger] choice_sets(pk.drop_last()).contains(s) && #[trigger] pk.last().contains(x) && t == s.insert(x);
                        assert(fc.contains(s));
                        let i = choose|i: int| 0 <= i < views(cur@).len() && (#[trigger] views(cur@)[i]).to_set() == s;
                    }
                }
            }
        }
        cur = next;
        k = k + 1;
    }
    assert(views(pos@).subrange(0, pos.len() as int) =~= views(pos@));
    cur
}

/// Sorting a list of distinct sets keeps it distinct and keeps its family.
proof fn lemma_sorted_family(r: Seq<Seq<Label>>, v: Seq<Seq<Label>>, inv: Seq<int>)
    requires
        reorders(r, v, inv),
        forall|t: int| 0 <= t < v.len() ==> #[trigger] is_hit(inv, v.len() as int, t),
        distinct_sets(v),
    ensures
        distinct_sets(r),
        family(r) == family(v),
{
    assert forall|i: int| 0 <= i < r.len() implies sorted_strict(#[trigger] r[i]) by {
        assert(is_hit(inv, v.len() as int, i));
        let j = choose|j: int| 0 <= j < v.len() && #[trigger] inv[j] == i;
        assert(r[inv[j]] == v[j]);
    }
    assert forall|a: int, b: int| 0 <= a < b < r.len() implies r[a] != r[b] by {
        assert(is_hit(inv, v.len() as int, a));
        assert(is_hit(inv, v.len() as int, b));
        let ja = choose|j: int| 0 <= j < v.len() && #[trigger] inv[j] == a;
        let jb = choose|j: int| 0 <= j < v.len() && #[trigger] inv[j] == b;
        assert(r[inv[ja]] == v[ja]);
        assert(r[inv[jb]] == v[jb]);
        if ja < jb {
        } else {
        }
    }
    assert forall|t: Set<Label>| family(r).contains(t) <==> family(v).contains(t) by {
        if family(r).contains(t) {
            let i = choose|i: int| 0 <= i < r.len() && (#[trigger] r[i]).to_set() == t;
            assert(is_hit(inv, v.len() as int, i));
            let j = choose|j: int| 0 <= j < v.len() && #[trigger] inv[j] == i;
            assert(r[inv[j]] == v[j]);
        }
        if family(v).contains(t) {
            let j = choose|j: int| 0 <= j < v.len() && (#[trigger] v[j]).to_set() == t;
            assert(r[inv[j]] == v[j]);
        }
    }
    assert(family(r) =~= family(v));
}

/// Two distinct strictly increasing sequences hold different sets.
proof fn lemma_distinct_sets_differ(a: Seq<Label>, b: Seq<Label>)
    requires
        sorted_strict(a),
        sorted_strict(b),
        a != b,
    ensures
        a.to_set() != b.to_set(),
{
    if a.to_set() == b.to_set() {
        lemma_sorted_set_eq(a, b);
    }
}

impl Constraint {
    /// The minimal sets among the sets of labels that a line allows picking, one label
    /// per position, in lexicographic order.
    pub fn minimal_sets_of_all_choices(&self) -> (r: Vec<Vec<Label>>)
        requires
            self.wf(),
        ensures
            distinct_sets(views(r@)),
            sorted_lex(views(r@)),
            family(views(r@)) == minimal_sets(all_choice_sets(lines_view(self.lines@))),
    {
        let ghost lv = lines_view(self.lines@);
        let mut all: Vec<Vec<Label>> = Vec::new();
        let mut i: usize = 0;
        while i < self.lines.len()
            invariant
                i <= self.lines.len(),
                self.wf(),
                lv == lines_view(self.lines@),
                distinct_sets(views(all@)),
                family(views(all@)) == all_choice_sets(lv.subrange(0, i as int)),
            decreases self.lines.len() - i,
        {
            let pos = self.lines[i].expand();
            proof {
                lemma_positions_wf(self.lines@[i as int]@);
            }
            let cs = choice_sets_exec(&pos);
            let ghost f0 = family(views(all@));
            let mut k: usize = 0;
            while k < cs.len()
                invariant
                    k <= cs.len(),
                    distinct_sets(views(cs@)),
                    distinct_sets(views(all@)),
                    family(views(all@)) == f0.union(Set::new(|t: Set<Label>| exists|m: int| 0 <= m < k && (#[trigger] views(cs@)[m]).to_set() == t)),
                decreases cs.len() - k,
            {
                assert(views(cs@)[k as int] == cs@[k as int]@);
                push_unique(&mut all, copy_labels(&cs[k]));
                proof {
                    assert(family(views(all@)) =~= f0.union(Set::new(|t: Set<Label>| exists|m: int| 0 <= m < k + 1 && (#[trigger] views(cs@)[m]).to_set() == t)));
                }
                k = k + 1;
            }
            proof {
                let s1 = lv.subrange(0, i + 1);
                assert(s1[i as int] == self.lines@[i as int]@);
                assert(family(views(all@)) =~= all_choice_sets(s1)) by {
                    assert forall|t: Set<Label>| family(views(all@)).contains(t) <==> all_choice_sets(s1).contains(t) by {
                        if all_choice_sets(s1).contains(t) {
                            let i2 = choose|i2: int| 0 <= i2 < s1.len() && #[trigger] choice_sets(positions(s1[i2])).contains(t);
                            if i2 < i {
                                assert(lv.subrange(0, i as int)[i2] == s1[i2]);
                                assert(all_choice_sets(lv.subrange(0, i as int)).contains(t));
                            } else {
                                assert(family(views(cs@)).contains(t));
                            }
                        }
                        if family(views(all@)).contains(t) {
                            if f0.contains(t) {
                                let i2 = choose|i2: int| 0 <= i2 < lv.subrange(0, i as int).len() && #[trigger] choice_sets(positions(lv.subrange(0, i as int)[i2])).contains(t);
                                assert(s1[i2] == lv.subrange(0, i as int)[i2]);
                            } else {
                                assert(family(views(cs@)).contains(t));
                            }
                        }
                    }
                }
            }
            i = i + 1;
        }
        assert(lv.subrange(0, self.lines.len() as int) =~= lv);
        let ghost fa = family(views(all@));
        let mut mins: Vec<Vec<Label>> = Vec::new();
        let mut a: usize = 0;
        while a < all.len()
            invariant
                a <= all.len(),
                fa == family(views(all@)),
                distinct_sets(views(all@)),
                distinct_sets(views(mins@)),
                forall|m: int| 0 <= m < mins@.len() ==> exists|j: int| 0 <= j < a && (#[trigger] views(mins@)[m]) == views(all@)[j],
                family(views(mins@)) == Set::new(|t: Set<Label>| exists|j: int| 0 <= j < a && (#[trigger] views(all@)[j]).to_set() == t && minimal_sets(fa).contains(t)),
            decreases all.len() - a,
        {
            let mut is_min = true;
            let mut b: usize = 0;
            while b < all.len()
                invariant
                    a < all.len(),
                    b <= all.len(),
                    distinct_sets(views(all@)),
                    is_min == forall|j: int| 0 <= j < b ==> !(#[trigger] views(all@)[j].to_set().subset_of(views(all@)[a as int].to_set()) && views(all@)[j] != views(all@)[a as int]),
                decreases all.len() - b,
            {
                assert(views(all@)[b as int] == all@[b as int]@);
                assert(views(all@)[a as int] == all@[a as int]@);
                if is_subset(&all[b], &all[a]) && !labels_eq(&all[b], &all[a]) {
                    is_min = false;
                }
                b = b + 1;
            }
            let ghost va = views(all@)[a as int];
            proof {
                // a member is minimal exactly when no other member of the list is a subset of it
                assert(fa.contains(va.to_set())) by {
                    assert(views(all@)[a as int].to_set() == va.to_set());
                }
                if is_min {
                    assert forall|u: Set<Label>| #[trigger] fa.contains(u) && u.subset_of(va.to_set()) implies u == va.to_set() by {
                        let j = choose|j: int| 0 <= j < views(all@).len() && (#[trigger] views(all@)[j]).to_set() == u;
                        if views(all@)[j] != va {
                            assert(!(views(all@)[j].to_set().subset_of(views(all@)[a as int].to_set()) && views(all@)[j] != views(all@)[a as int]));
                        }
                    }
                    assert(minimal_sets(fa).contains(va.to_set()));
                } else {
                    let j = choose|j: int| 0 <= j < all@.len() && (#[trigger] views(all@)[j].to_set().subset_of(views(all@)[a as int].to_set()) && views(all@)[j] != views(all@)[a as int]);
                    lemma_distinct_sets_differ(views(all@)[j], va);
                    let u = views(all@)[j].to_set();
                    assert(fa.contains(u));
                    assert(u.subset_of(va.to_set()) && u != va.to_set());
                    assert(!minimal_sets(fa).contains(va.to_set()));
                }
            }
            if is_min {
                let ghost m0 = views(mins@);
                mins.push(copy_labels(&all[a]));
                proof {
                    assert(views(mins@) =~= m0.push(va));
                    assert forall|x: int, y: int| 0 <= x < y < views(mins@).len() implies views(mins@)[x] != views(mins@)[y] by {
                        if y == views(mins@).len() - 1 {
                            let j = choose|j: int| 0 <= j < a && (#[trigger] views(mins@)[x]) == views(all@)[j];
                        } else {
                            assert(views(mins@)[x] == m0[x]);
                            assert(views(mins@)[y] == m0[y]);
                        }
                    }
                    assert forall|m: int| 0 <= m < mins@.len() implies exists|j: int| 0 <= j < a + 1 && (#[trigger] views(mins@)[m]) == views(all@)[j] by {
                        if m < m0.len() {
                            assert(views(mins@)[m] == m0[m]);
                            let j = choose|j: int| 0 <= j < a && (#[trigger] m0[m]) == views(all@)[j];
                        }
                    }
                    assert(family(views(mins@)) =~= Set::new(|t: Set<Label>| exists|j: int| 0 <= j < a + 1 && (#[trigger] views(all@)[j]).to_set() == t && minimal_sets(fa).contains(t))) by {
                        assert forall|t: Set<Label>| family(views(mins@)).contains(t) <==> (exists|j: int| 0 <= j < a + 1 && (#[trigger] views(all@)[j]).to_set() == t && minimal_sets(fa).contains(t)) by {
                            if family(views(mins@)).contains(t) {
                                let m = choose|m: int| 0 <= m < views(mins@).len() && (#[trigger] views(mins@)[m]).to_set() == t;
                                if m < m0.len() {
                                    assert(views(mins@)[m] == m0[m]);
                                    assert(family(m0).contains(t));
                                }
                            }
                            if exists|j: int| 0 <= j < a + 1 && (#[trigger] views(all@)[j]).to_set() == t && minimal_sets(fa).contains(t) {
                                let j = choose|j: int| 0 <= j < a + 1 && (#[trigger] views(all@)[j]).to_set() == t && minimal_sets(fa).contains(t);
                                if j < a {
                                    assert(family(m0).contains(t));
                                    let m = choose|m: int| 0 <= m < m0.len() && (#[trigger] m0[m]).to_set() == t;
                                    assert(views(mins@)[m] == m0[m]);
                                } else {
                                    assert(views(mins@)[m0.len() as int] == va);
                                }
                            }
                        }
                    }
                }
            } else {
                proof {
                    assert(family(views(mins@)) =~= Set::new(|t: Set<Label>| exists|j: int| 0 <= j < a + 1 && (#[trigger] views(all@)[j]).to_set() == t && minimal_sets(fa).contains(t))) by {
                        assert forall|t: Set<Label>| (exists|j: int| 0 <= j < a + 1 && (#[trigger] views(all@)[j]).to_set() == t && minimal_sets(fa).contains(t))
                            implies family(views(mins@)).contains(t) by {
                            let j = choose|j: int| 0 <= j < a + 1 && (#[trigger] views(all@)[j]).to_set() == t && minimal_sets(fa).contains(t);
                            if j == a {
                                assert(false);
                            }
                        }
                    }
                }
            }
            a = a + 1;
        }
        proof {
            assert(family(views(mins@)) =~= minimal_sets(fa)) by {
                assert forall|t: Set<Label>| minimal_sets(fa).contains(t) implies family(views(mins@)).contains(t) by {
                    let j = choose|j: int| 0 <= j < views(all@).len() && (#[trigger] views(all@)[j]).to_set() == t;
                }
            }
        }
        let ghost mv = views(mins@);
        let r = sort_lex(mins);
        proof {
            let inv = choose|inv: Seq<int>| #[trigger] reorders(views(r@), mv, inv) && forall|t: int| 0 <= t < mv.len() ==> #[trigger] is_hit(inv, mv.len() as int, t);
            lemma_sorted_family(views(r@), mv, inv);
        }
        r
    }
}

/// The passive lines hold a line of degree `d` each of whose positions allows every label
/// of the set.
pub open spec fn accepts_set(passive: Seq<Seq<PartV>>, s: Set<Label>, d: int) -> bool {
    exists|i: int|
        0 <= i < passive.len() && positions(#[trigger] passive[i]).len() == d && forall|k: int|
            0 <= k < d ==> s.subset_of(positions(passive[i])[k].to_set())
}

impl Problem {
    /// Maximizes the passive constraint, then lists as trivial the minimal sets of labels
    /// that an active line allows picking (one label per position) and that some passive
    /// line accepts in every position: with such a set, nodes can solve the problem without
    /// communicating.
    pub fn compute_triviality(&mut self)
        requires
            old(self).wf(),
            old(self).trivial_sets is None,
        ensures
            final(self).wf(),
            final(self).active == old(self).active,
            final(self).mapping_label_text == old(self).mapping_label_text,
            final(self).mapping_label_oldlabels == old(self).mapping_label_oldlabels,
            final(self).diagram_indirect == old(self).diagram_indirect,
            final(self).fixpoint_diagram == old(self).fixpoint_diagram,
            final(self).passive.degree == old(self).passive.degree,
            final(self).passive.is_maximized,
            old(self).passive.is_maximized ==> lines_view(final(self).passive.lines@) == lines_view(old(self).passive.lines@),
            !old(self).passive.is_maximized ==> maximized_from(old(self).passive.lines@, final(self).passive.lines@, old(self).passive.degree->Finite_0 as int),
            final(self).diagram_direct == old(self).diagram_direct,
            final(self).trivial_sets matches Some(t) && {
                &&& distinct_sets(views(t@))
                &&& sorted_lex(views(t@))
                &&& family(views(t@)) == Set::new(|s: Set<Label>|
                    minimal_sets(all_choice_sets(lines_view(old(self).active.lines@))).contains(s) && accepts_set(
                        lines_view(final(self).passive.lines@),
                        s,
                        old(self).passive.degree->Finite_0 as int,
                    ))
            },
    {
        self.passive.maximize();
        let active_sets = self.active.minimal_sets_of_all_choices();
        let d: usize = match self.passive.degree {
            Degree::Finite(d) => d,
            Degree::Star => 0,
        };
        let ghost pl = lines_view(self.passive.lines@);
        let ghost fm = family(views(active_sets@));
        let mut trivial: Vec<Vec<Label>> = Vec::new();
        let ghost mut idx: Seq<int> = Seq::empty();
        let mut i: usize = 0;
        while i < active_sets.len()
            invariant
                i <= active_sets.len(),
                pl == lines_view(self.passive.lines@),
                fm == family(views(active_sets@)),
                distinct_sets(views(active_sets@)),
                sorted_lex(views(active_sets@)),
                idx.len() == trivial@.len(),
                forall|m: int| 0 <= m < trivial@.len() ==> 0 <= #[trigger] idx[m] < i && views(trivial@)[m] == views(active_sets@)[idx[m]],
                forall|x: int, y: int| 0 <= x < y < trivial@.len() ==> idx[x] < idx[y],
                family(views(trivial@)) == Set::new(|s: Set<Label>| exists|j: int| 0 <= j < i && (#[trigger] views(active_sets@)[j]).to_set() == s && accepts_set(pl, s, d as int)),
            decreases active_sets.len() - i,
        {
            let set = &active_sets[i];
            assert(views(active_sets@)[i as int] == set@);
            let mut found = false;
            let mut p: usize = 0;
            while p < self.passive.lines.len() && !found
                invariant
                    p <= self.passive.lines.len(),
                    pl == lines_view(self.passive.lines@),
                    found ==> accepts_set(pl, set@.to_set(), d as int),
                    !found ==> forall|q: int| 0 <= q < p ==> !(positions(#[trigger] pl[q]).len() == d && forall|k: int|
                        0 <= k < d ==> set@.to_set().subset_of(positions(pl[q])[k].to_set())),
                decreases self.passive.lines.len() - p,
            {
                let pos = self.passive.lines[p].expand();
                assert(pl[p as int] == self.passive.lines@[p as int]@);
                if pos.len() == d {
                    let mut all_in = true;
                    let mut k: usize = 0;
                    while k < pos.len()
                        invariant
                            k <= pos.len(),
                            all_in == forall|k2: int| 0 <= k2 < k ==> set@.to_set().subset_of((#[trigger] views(pos@)[k2]).to_set()),
                        decreases pos.len() - k,
                    {
                        assert(views(pos@)[k as int] == pos@[k as int]@);
                        if !is_subset(set, &pos[k]) {
                            all_in = false;
                        }
                        k = k + 1;
                    }
                    if all_in {
                        found = true;
                    }
                }
                p = p + 1;
            }
            let ghost t0 = views(trivial@);
            if found {
                trivial.push(copy_labels(set));
            }
            proof {
                assert(found == accepts_set(pl, set@.to_set(), d as int)) by {
                    if accepts_set(pl, set@.to_set(), d as int) && !found {
                        let q = choose|q: int| 0 <= q < pl.len() && positions(#[trigger] pl[q]).len() == d && forall|k: int|
                            0 <= k < d ==> set@.to_set().subset_of(positions(pl[q])[k].to_set());
                    }
                }
                if found {
                    assert(views(trivial@) =~= t0.push(set@));
                }
                let idx0 = idx;
                if found {
                    idx = idx.push(i as int);
                }
                assert forall|m: int| 0 <= m < trivial@.len() implies 0 <= #[trigger] idx[m] < i + 1 && views(trivial@)[m] == views(active_sets@)[idx[m]] by {
                    if m < t0.len() {
                        assert(views(trivial@)[m] == t0[m]);
                        assert(idx[m] == idx0[m]);
                    }
                }
                assert(family(views(trivial@)) =~= Set::new(|s: Set<Label>| exists|j: int| 0 <= j < i + 1 && (#[trigger] views(active_sets@)[j]).to_set() == s && accepts_set(pl, s, d as int))) by {
                    assert forall|s: Set<Label>| family(views(trivial@)).contains(s) <==> (exists|j: int| 0 <= j < i + 1 && (#[trigger] views(active_sets@)[j]).to_set() == s && accepts_set(pl, s, d as int)) by {
                        if family(views(trivial@)).contains(s) {
                            let m = choose|m: int| 0 <= m < views(trivial@).len() && (#[trigger] views(trivial@)[m]).to_set() == s;
                            if m < t0.len() {
                                assert(views(trivial@)[m] == t0[m]);
                                assert(family(t0).contains(s));
                            }
                        }
                        if exists|j: int| 0 <= j < i + 1 && (#[trigger] views(active_sets@)[j]).to_set() == s && accepts_set(pl, s, d as int) {
                            let j = choose|j: int| 0 <= j < i + 1 && (#[trigger] views(active_sets@)[j]).to_set() == s && accepts_set(pl, s, d as int);
                            if j < i {
                                assert(family(t0).contains(s));
                                let m = choose|m: int| 0 <= m < t0.len() && (#[trigger] t0[m]).to_set() == s;
                                assert(views(trivial@)[m] == t0[m]);
                            } else {
                                assert(views(trivial@)[t0.len() as int] == set@);
                            }
                        }
                    }
                }
            }
            i = i + 1;
        }
        proof {
            let tv = views(trivial@);
            let av = views(active_sets@);
            assert forall|x: int, y: int| #![trigger tv[x], tv[y]] 0 <= x < y < tv.len() implies tv[x] != tv[y] && lex_le(tv[x], tv[y]) by {
                assert(tv[x] == av[idx[x]]);
                assert(tv[y] == av[idx[y]]);
                assert(0 <= idx[x] < idx[y] < av.len());
                assert(av[idx[x]] != av[idx[y]]);
            }
            assert forall|x: int| 0 <= x < tv.len() implies sorted_strict(#[trigger] tv[x]) by {
                assert(tv[x] == av[idx[x]]);
            }
            assert(family(tv) =~= Set::new(|s: Set<Label>|
                minimal_sets(all_choice_sets(lines_view(self.active.lines@))).contains(s) && accepts_set(pl, s, d as int))) by {
                assert forall|s: Set<Label>| minimal_sets(all_choice_sets(lines_view(self.active.lines@))).contains(s) && accepts_set(pl, s, d as int)
                    implies family(tv).contains(s) by {
                    assert(fm.contains(s));
                    let j = choose|j: int| 0 <= j < av.len() && (#[trigger] av[j]).to_set() == s;
                }
            }
        }
        proof {
            let tv = views(trivial@);
            assert(distinct_sets(tv));
            assert(sorted_lex(tv));
            assert(d as int == old(self).passive.degree->Finite_0 as int);
            assert(lines_view(self.active.lines@) == lines_view(old(self).active.lines@));
        }
        self.trivial_sets = Some(trivial);
    }
}

} // verus!
