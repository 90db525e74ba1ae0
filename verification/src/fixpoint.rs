//! The fixpoint diagram of a problem: the right-closed sets of labels, ordered by inclusion,
//! with texts for them.
use vstd::prelude::*;
use std::collections::{HashMap, HashSet};
use vstd::std_specs::iter::IteratorSpec;
use vstd::relations::{total_ordering, sorted_by};
use vstd::seq_lib::lemma_sorted_unique;
use crate::labels::{Label, sorted_strict, views, sorted_lex, sort_lex, contains_label, is_subset, union, insert_sorted, sorted_set, lex_lt, lex_le, lemma_lex_total, lemma_sorted_set_eq, reorders, is_hit};
use crate::triviality::{family, distinct_sets};
use crate::line::{labels_eq, copy_labels, copy_pairs};
use crate::problem::{DiagramDirect, Problem};
use crate::constraint::{lines_view, labels_in};
use crate::diagram::{is_diagram_of, diagram_computed};
use crate::discard_useless::{retain_mapping, hardened, useless_discarded};
use crate::diagram::pairs_sorted;
use crate::problem::{mapping_labels, text_of, text_of_exec};
use crate::text::{decimal, decimal_exec, text_lt, text_less, text_eq, lemma_text_total, lemma_text_trans, join, join_exec, sorted_text_seq, sort_texts_exact, strip_parens, strip_parens_exec, text_views, chars_of, push_all, string_of};

verus! {

/// The diagram that the fixpoint procedure works with: every right-closed set of the
/// original labels becomes a new label, and a set points to the sets it contains.
#[derive(Debug, PartialEq, Eq)]
pub struct FixpointDiagram {
    pub additional_orig: Vec<Label>,
    pub orig_labels: Vec<Label>,
    pub rightclosed: Vec<Vec<Label>>,
    pub diagram: Vec<(Label, Label)>,
    pub mapping_oldlabel_text: Vec<(Label, String)>,
    pub mapping_rightclosed_newlabel: Vec<(Vec<Label>, Label)>,
    pub mapping_label_newlabel: Vec<(Label, Label)>,
    pub mapping_newlabel_text: Vec<(Label, String)>,
    pub text: String,
    pub diagram_direct: DiagramDirect,
}

/// How the diagram of the fixpoint procedure is obtained.
pub enum FixpointType {
    /// The default diagram of right-closed sets.
    Basic,
    /// The default diagram, with the given groups of diagram labels duplicated.
    Dup(Vec<Vec<Label>>),
    /// A diagram given as text.
    Custom(String),
    /// The default diagram, repaired step by step; no function of this library computes
    /// this kind.
    Loop,
}

/// Label `x` with closure `c` extends the set `added` in the enumeration of right-closed
/// sets: `x` is not in `added` yet, and `c` does not already hold all of a nonempty `added`.
pub open spec fn rcs_extends(x: Label, c: Set<Label>, added: Set<Label>) -> bool {
    !added.contains(x) && (added.is_empty() || !added.subset_of(c))
}

/// The sets that the enumeration of right-closed sets finds from `added`, trying the labels
/// `ls[j..]` (with closures `cl[j..]`) in turn: each label that extends `added` gives the set
/// `added ∪ cl[j]`, from which the enumeration goes on with all labels but the first of `ls`.
pub open spec fn rcs_gen(ls: Seq<Label>, cl: Seq<Set<Label>>, added: Set<Label>, j: int) -> Set<Set<Label>>
    decreases ls.len(), ls.len() - j,
{
    if j < 0 || j >= ls.len() {
        Set::empty()
    } else {
        let rest = rcs_gen(ls, cl, added, j + 1);
        if rcs_extends(ls[j], cl[j], added) {
            let n = added.union(cl[j]);
            rest.insert(n).union(rcs_gen(ls.drop_first(), cl.drop_first(), n, 0))
        } else {
            rest
        }
    }
}

/// The sets of the list, as sets.
pub open spec fn set_views(v: Seq<Vec<Label>>) -> Seq<Set<Label>> {
    v.map_values(|x: Vec<Label>| x@.to_set())
}

/// Appends to `result` every set that the enumeration finds from `added` with the labels
/// `ls[start..]`.
fn rcs_helper(ls: &Vec<Label>, cl: &Vec<Vec<Label>>, start: usize, result: &mut Vec<Vec<Label>>, added: &Vec<Label>)
    requires
        start <= ls.len(),
        ls.len() == cl.len(),
        sorted_strict(added@),
        forall|k: int| 0 <= k < cl.len() ==> sorted_strict(#[trigger] cl@[k]@),
        forall|k: int| 0 <= k < old(result).len() ==> sorted_strict(#[trigger] old(result)@[k]@),
    ensures
        forall|k: int| 0 <= k < final(result).len() ==> sorted_strict(#[trigger] final(result)@[k]@),
        family(views(final(result)@)) == family(views(old(result)@)).union(
            rcs_gen(ls@.skip(start as int), set_views(cl@).skip(start as int), added@.to_set(), 0),
        ),
    decreases ls.len() - start,
{
    let ghost sub = ls@.skip(start as int);
    let ghost scl = set_views(cl@).skip(start as int);
    let ghost a = added@.to_set();
    let ghost f0 = family(views(result@));
    let mut j: usize = start;
    while j < ls.len()
        invariant
            start <= j <= ls.len(),
            ls.len() == cl.len(),
            sorted_strict(added@),
            sub == ls@.skip(start as int),
            scl == set_views(cl@).skip(start as int),
            a == added@.to_set(),
            forall|k: int| 0 <= k < cl.len() ==> sorted_strict(#[trigger] cl@[k]@),
            forall|k: int| 0 <= k < result.len() ==> sorted_strict(#[trigger] result@[k]@),
            family(views(result@)).union(rcs_gen(sub, scl, a, j - start)) == f0.union(rcs_gen(sub, scl, a, 0)),
        decreases ls.len() - j,
    {
        let x = ls[j];
        let ghost jj = j - start;
        assert(sub[jj] == x);
        assert(scl[jj] == cl@[j as int]@.to_set());
        let ext = !contains_label(added, x) && (added.len() == 0 || !is_subset(added, &cl[j]));
        proof {
            if added.len() == 0 {
                assert(a =~= Set::<Label>::empty());
            } else {
                assert(a.contains(added@[0]));
            }
            assert(ext == rcs_extends(sub[jj], scl[jj], a));
        }
        let ghost r0 = family(views(result@));
        let ghost vr0 = views(result@);
        if ext {
            let n = union(added, &cl[j]);
            result.push(n.clone());
            proof {
                let vr = views(result@);
                assert(vr =~= vr0.push(n@));
                assert forall|t: Set<Label>| family(vr).contains(t) <==> r0.insert(n@.to_set()).contains(t) by {
                    if family(vr).contains(t) {
                        let i = choose|i: int| 0 <= i < vr.len() && (#[trigger] vr[i]).to_set() == t;
                        if i < vr.len() - 1 {
                            assert(vr0[i] == vr[i]);
                        }
                    }
                    if r0.contains(t) && t != n@.to_set() {
                        let i = choose|i: int| 0 <= i < vr0.len() && (#[trigger] vr0[i]).to_set() == t;
                        assert(vr[i] == vr0[i]);
                    }
                    if t == n@.to_set() {
                        assert(vr[vr.len() - 1].to_set() == t);
                    }
                }
                assert(family(vr) =~= r0.insert(n@.to_set()));
            }
            rcs_helper(ls, cl, start + 1, result, &n);
            proof {
                assert(sub.drop_first() =~= ls@.skip(start + 1));
                assert(scl.drop_first() =~= set_views(cl@).skip(start + 1));
                assert(n@.to_set() == a.union(scl[jj]));
            }
        }
        j = j + 1;
    }
}

/// The labels of a hash set, strictly increasing.
fn hash_set_sorted(s: &HashSet<Label>) -> (r: Vec<Label>)
    ensures
        sorted_strict(r@),
        r@.to_set() == s@,
{
    broadcast use vstd::std_specs::hash::group_hash_axioms;
    let mut r: Vec<Label> = Vec::new();
    let ghost mut acc: Seq<Label> = Seq::empty();
    assert(r@.to_set() =~= acc.to_set());
    for y in it: s.iter()
        invariant
            sorted_strict(r@),
            it.seq() == vstd::std_specs::hash::spec_hash_keys_iter(s).remaining(),
            acc == it.seq().unref().take(it.index()),
            r@.to_set() == acc.to_set(),
            it.index() == it.seq().len() ==> r@.to_set() == s@,
    {
        insert_sorted(&mut r, *y);
        proof {
            acc.lemma_push_to_set_commute(*y);
            acc = acc.push(*y);
        }
        assert(acc =~= it.seq().unref().take(it.index() + 1));
        assert(it.index() + 1 < it.seq().len() || acc =~= it.seq().unref());
    }
    r
}

/// Removes repetitions from a lexicographically sorted list of label vectors.
fn dedup_sorted(v: Vec<Vec<Label>>) -> (r: Vec<Vec<Label>>)
    requires
        sorted_lex(views(v@)),
    ensures
        sorted_lex_strict(views(r@)),
        r@.len() <= v@.len(),
        forall|k: int| 0 <= k < r@.len() ==> views(v@).contains(#[trigger] views(r@)[k]),
        forall|k: int| 0 <= k < v@.len() ==> views(r@).contains(#[trigger] views(v@)[k]),
{
    let ghost vv = views(v@);
    let mut r: Vec<Vec<Label>> = Vec::new();
    let mut i: usize = 0;
    while i < v.len()
        invariant
            i <= v.len(),
            vv == views(v@),
            sorted_lex(vv),
            sorted_lex_strict(views(r@)),
            r@.len() <= i,
            i > 0 ==> r@.len() > 0 && r@[r@.len() - 1]@ == vv[i - 1],
            forall|k: int| 0 <= k < r@.len() ==> vv.contains(#[trigger] views(r@)[k]),
            forall|k: int| 0 <= k < i ==> views(r@).contains(#[trigger] vv[k]),
        decreases v.len() - i,
    {
        let ghost r0 = views(r@);
        if r.len() == 0 || !labels_eq(&r[r.len() - 1], &v[i]) {
            let c = copy_labels(&v[i]);
            r.push(c);
            proof {
                let rv = views(r@);
                assert(rv =~= r0.push(vv[i as int]));
                assert forall|a: int, b: int| 0 <= a < b < rv.len() implies lex_lt(rv[a], rv[b]) by {
                    if b == rv.len() - 1 {
                        assert(rv[b] == vv[i as int]);
                        assert(i > 0);
                        assert(lex_le(vv[i - 1], vv[i as int]));
                        assert(rv[b - 1] == vv[i - 1]);
                        assert(lex_lt(rv[b - 1], rv[b]));
                        if a < b - 1 {
                            crate::labels::lemma_lex_trans(rv[a], rv[b - 1], rv[b]);
                        }
                    } else {
                        assert(rv[a] == r0[a] && rv[b] == r0[b]);
                    }
                }
                assert forall|k: int| 0 <= k < rv.len() implies vv.contains(#[trigger] rv[k]) by {
                    if k < rv.len() - 1 {
                        assert(rv[k] == r0[k]);
                    } else {
                        assert(vv[i as int] == rv[k]);
                    }
                }
                assert forall|k: int| 0 <= k < i + 1 implies rv.contains(#[trigger] vv[k]) by {
                    if k == i {
                        assert(rv[rv.len() - 1] == vv[k]);
                    } else {
                        let m = choose|m: int| 0 <= m < r0.len() && r0[m] == vv[k];
                        assert(rv[m] == r0[m]);
                    }
                }
            }
        } else {
            proof {
                assert(views(r@)[r@.len() - 1] == vv[i as int]);
            }
        }
        i = i + 1;
    }
    r
}

/// A lexicographically strictly sorted list of strictly increasing vectors and the list it
/// came from hold the same elements, so the same sets.
proof fn lemma_same_family(a: Seq<Seq<Label>>, b: Seq<Seq<Label>>)
    requires
        forall|k: int| 0 <= k < a.len() ==> b.contains(#[trigger] a[k]),
        forall|k: int| 0 <= k < b.len() ==> a.contains(#[trigger] b[k]),
    ensures
        family(a) == family(b),
{
    assert forall|t: Set<Label>| family(a).contains(t) <==> family(b).contains(t) by {
        if family(a).contains(t) {
            let i = choose|i: int| 0 <= i < a.len() && (#[trigger] a[i]).to_set() == t;
            assert(b.contains(a[i]));
            let j = choose|j: int| 0 <= j < b.len() && b[j] == a[i];
            assert(b[j].to_set() == t);
        }
        if family(b).contains(t) {
            let i = choose|i: int| 0 <= i < b.len() && (#[trigger] b[i]).to_set() == t;
            assert(a.contains(b[i]));
            let j = choose|j: int| 0 <= j < a.len() && a[j] == b[i];
            assert(a[j].to_set() == t);
        }
    }
    assert(family(a) =~= family(b));
}

/// The closure of each label: the label together with its successors.
pub open spec fn closures(labels: Seq<Label>, successors: Map<Label, HashSet<Label>>) -> Seq<Set<Label>> {
    Seq::new(labels.len(), |i: int| successors[labels[i]]@.insert(labels[i]))
}

/// The right-closed sets that the enumeration finds: the empty set, and every set that it
/// builds from the empty set with all the labels.
pub open spec fn rcs_family(labels: Seq<Label>, cls: Seq<Set<Label>>) -> Set<Set<Label>> {
    rcs_gen(labels, cls, Set::empty(), 0).insert(Set::empty())
}

/// With each label of `labels` that it holds, the set `t` holds the label's closure.
pub open spec fn right_closed(t: Set<Label>, labels: Seq<Label>, cls: Seq<Set<Label>>) -> bool {
    forall|k: int| 0 <= k < labels.len() && #[trigger] t.contains(labels[k]) ==> cls[k].subset_of(t)
}

/// The closures are transitive: the closure of a label that lies in the closure of another
/// is part of that closure.
pub open spec fn closures_transitive(labels: Seq<Label>, cls: Seq<Set<Label>>) -> bool {
    forall|i: int, k: int|
        0 <= i < labels.len() && 0 <= k < labels.len() && #[trigger] cls[i].contains(#[trigger] labels[k])
            ==> cls[k].subset_of(cls[i])
}

/// Every set that the enumeration finds from a right-closed set, with closures that are
/// right-closed, is right-closed.
proof fn lemma_rcs_gen_closed(
    ls: Seq<Label>,
    cl: Seq<Set<Label>>,
    added: Set<Label>,
    j: int,
    labels: Seq<Label>,
    cls: Seq<Set<Label>>,
)
    requires
        ls.len() == cl.len(),
        right_closed(added, labels, cls),
        forall|k: int| 0 <= k < cl.len() ==> right_closed(#[trigger] cl[k], labels, cls),
    ensures
        forall|t: Set<Label>| #[trigger] rcs_gen(ls, cl, added, j).contains(t) ==> right_closed(t, labels, cls),
    decreases ls.len(), ls.len() - j,
{
    if 0 <= j < ls.len() {
        lemma_rcs_gen_closed(ls, cl, added, j + 1, labels, cls);
        if rcs_extends(ls[j], cl[j], added) {
            let n = added.union(cl[j]);
            assert(right_closed(cl[j], labels, cls));
            assert forall|k: int| 0 <= k < labels.len() && #[trigger] n.contains(labels[k]) implies cls[k].subset_of(n) by {
                if added.contains(labels[k]) {
                    assert(cls[k].subset_of(added));
                } else {
                    assert(cl[j].contains(labels[k]));
                    assert(cls[k].subset_of(cl[j]));
                }
            }
            assert forall|k: int| 0 <= k < cl.drop_first().len() implies right_closed(#[trigger] cl.drop_first()[k], labels, cls) by {
                assert(cl.drop_first()[k] == cl[k + 1]);
            }
            lemma_rcs_gen_closed(ls.drop_first(), cl.drop_first(), n, 0, labels, cls);
            assert(rcs_gen(ls, cl, added, j) == rcs_gen(ls, cl, added, j + 1).insert(n).union(
                rcs_gen(ls.drop_first(), cl.drop_first(), n, 0),
            ));
            assert forall|t: Set<Label>| #[trigger] rcs_gen(ls, cl, added, j).contains(t) implies right_closed(t, labels, cls) by {
                if t != n && !rcs_gen(ls, cl, added, j + 1).contains(t) {
                    assert(rcs_gen(ls.drop_first(), cl.drop_first(), n, 0).contains(t));
                }
            }
        } else {
            assert(rcs_gen(ls, cl, added, j) == rcs_gen(ls, cl, added, j + 1));
        }
    }
}

/// With transitive closures, every set that `right_closed_subsets` yields is right-closed:
/// with each label that it holds, it holds all the label's successors.
pub proof fn lemma_right_closed_subsets_closed(labels: Seq<Label>, cls: Seq<Set<Label>>)
    requires
        cls.len() == labels.len(),
        closures_transitive(labels, cls),
    ensures
        forall|t: Set<Label>| #[trigger] rcs_family(labels, cls).contains(t) ==> right_closed(t, labels, cls),
{
    assert(right_closed(Set::empty(), labels, cls));
    assert forall|k: int| 0 <= k < cls.len() implies right_closed(#[trigger] cls[k], labels, cls) by {
        assert forall|m: int| 0 <= m < labels.len() && #[trigger] cls[k].contains(labels[m]) implies cls[m].subset_of(cls[k]) by {
        }
    }
    lemma_rcs_gen_closed(labels, cls, Set::empty(), 0, labels, cls);
}

/// The union of the closures of the first `t` indices of `g`.
pub open spec fn union_of(cls: Seq<Set<Label>>, g: Seq<int>, t: int) -> Set<Label>
    decreases t,
{
    if t <= 0 {
        Set::empty()
    } else {
        union_of(cls, g, t - 1).union(cls[g[t - 1]])
    }
}

/// The label at index `k` generates part of `s`: it is in `s`, and any label of `s` whose
/// closure holds it lies in its closure and has an index no smaller.
pub open spec fn is_generator(labels: Seq<Label>, cls: Seq<Set<Label>>, s: Set<Label>, k: int) -> bool {
    &&& 0 <= k < labels.len()
    &&& s.contains(labels[k])
    &&& forall|i: int|
        0 <= i < labels.len() && s.contains(labels[i]) && #[trigger] cls[i].contains(labels[k]) ==> cls[k].contains(labels[i]) && k <= i
}

/// The indices below `n` of the generators of `s`, in increasing order.
pub open spec fn generators(labels: Seq<Label>, cls: Seq<Set<Label>>, s: Set<Label>, n: int) -> Seq<int>
    decreases n,
{
    if n <= 0 {
        Seq::empty()
    } else if is_generator(labels, cls, s, n - 1) {
        generators(labels, cls, s, n - 1).push(n - 1)
    } else {
        generators(labels, cls, s, n - 1)
    }
}

/// The index `i` is that of a label of `s` whose closure holds `x`.
pub open spec fn above(labels: Seq<Label>, cls: Seq<Set<Label>>, s: Set<Label>, x: Label, i: int) -> bool {
    0 <= i < labels.len() && s.contains(labels[i]) && cls[i].contains(x)
}

/// The union of the first `t` closures of `g` holds exactly the labels of those closures.
proof fn lemma_union_of(cls: Seq<Set<Label>>, g: Seq<int>, t: int, y: Label)
    requires
        0 <= t,
    ensures
        union_of(cls, g, t).contains(y) <==> exists|u: int| 0 <= u < t && #[trigger] cls[g[u]].contains(y),
    decreases t,
{
    if t > 0 {
        lemma_union_of(cls, g, t - 1, y);
    }
}

/// Among the indices below `n` above `x`, one with the largest closure, the first such.
proof fn lemma_best_above(labels: Seq<Label>, cls: Seq<Set<Label>>, s: Set<Label>, x: Label, n: int) -> (j: int)
    requires
        0 < n <= labels.len(),
        exists|i: int| 0 <= i < n && #[trigger] above(labels, cls, s, x, i),
    ensures
        0 <= j < n,
        above(labels, cls, s, x, j),
        forall|i: int| 0 <= i < n && #[trigger] above(labels, cls, s, x, i) ==> cls[i].len() < cls[j].len() || (
            cls[i].len() == cls[j].len() && j <= i),
    decreases n,
{
    if n > 1 && exists|i: int| 0 <= i < n - 1 && #[trigger] above(labels, cls, s, x, i) {
        let j0 = lemma_best_above(labels, cls, s, x, n - 1);
        if above(labels, cls, s, x, n - 1) && cls[n - 1].len() > cls[j0].len() {
            n - 1
        } else {
            j0
        }
    } else {
        n - 1
    }
}

/// Each label of a right-closed set lies in the closure of a generator.
proof fn lemma_generator_above(labels: Seq<Label>, cls: Seq<Set<Label>>, s: Set<Label>, i0: int)
    requires
        cls.len() == labels.len(),
        closures_transitive(labels, cls),
        forall|k: int| 0 <= k < cls.len() ==> #[trigger] cls[k].finite(),
        forall|k: int| 0 <= k < cls.len() ==> #[trigger] cls[k].contains(labels[k]),
        0 <= i0 < labels.len(),
        s.contains(labels[i0]),
    ensures
        exists|k: int| is_generator(labels, cls, s, k) && #[trigger] cls[k].contains(labels[i0]),
{
    let x = labels[i0];
    assert(above(labels, cls, s, x, i0));
    let j = lemma_best_above(labels, cls, s, x, labels.len() as int);
    assert forall|i: int|
        0 <= i < labels.len() && s.contains(labels[i]) && #[trigger] cls[i].contains(labels[j]) implies cls[j].contains(labels[i]) && j <= i by {
        assert(cls[j].subset_of(cls[i]));
        assert(above(labels, cls, s, x, i));
        vstd::set_lib::lemma_len_subset(cls[j], cls[i]);
        vstd::set_lib::lemma_subset_equality(cls[j], cls[i]);
        assert(cls[i].contains(labels[i]));
    }
    assert(is_generator(labels, cls, s, j));
}

/// No generator's label lies in the closure of another generator.
proof fn lemma_generators_apart(labels: Seq<Label>, cls: Seq<Set<Label>>, s: Set<Label>, k: int, k2: int)
    requires
        is_generator(labels, cls, s, k),
        is_generator(labels, cls, s, k2),
        k != k2,
    ensures
        !cls[k2].contains(labels[k]),
{
    if cls[k2].contains(labels[k]) {
        assert(cls[k].contains(labels[k2]) && k <= k2);
    }
}

/// The generator indices are increasing, each is a generator, and each generator is among them.
proof fn lemma_generators(labels: Seq<Label>, cls: Seq<Set<Label>>, s: Set<Label>, n: int)
    requires
        0 <= n <= labels.len(),
    ensures
        forall|u: int| 0 <= u < generators(labels, cls, s, n).len() ==> u <= #[trigger] generators(labels, cls, s, n)[u] < n
            && is_generator(labels, cls, s, generators(labels, cls, s, n)[u]),
        forall|u: int, v: int| 0 <= u < v < generators(labels, cls, s, n).len() ==> generators(labels, cls, s, n)[u] < generators(labels, cls, s, n)[v],
        forall|k: int| 0 <= k < n && is_generator(labels, cls, s, k) ==> generators(labels, cls, s, n).contains(k),
    decreases n,
{
    if n > 0 {
        lemma_generators(labels, cls, s, n - 1);
        let g0 = generators(labels, cls, s, n - 1);
        let g = generators(labels, cls, s, n);
        assert(g0.len() <= n - 1) by {
            if g0.len() > n - 1 {
                assert(g0.len() - 1 <= g0[g0.len() - 1]);
            }
        }
        if is_generator(labels, cls, s, n - 1) {
            assert(g == g0.push(n - 1));
            assert(g[g.len() - 1] == n - 1);
            assert forall|k: int| 0 <= k < n && is_generator(labels, cls, s, k) implies g.contains(k) by {
                if k < n - 1 {
                    let u = choose|u: int| 0 <= u < g0.len() && g0[u] == k;
                    assert(g[u] == k);
                }
            }
        }
    }
}

/// Starting the enumeration at an earlier label finds every set that a later start finds.
proof fn lemma_rcs_gen_mono(ls: Seq<Label>, cl: Seq<Set<Label>>, a: Set<Label>, j: int, j2: int)
    requires
        0 <= j <= j2,
    ensures
        rcs_gen(ls, cl, a, j2).subset_of(rcs_gen(ls, cl, a, j)),
    decreases j2 - j,
{
    if j < j2 {
        lemma_rcs_gen_mono(ls, cl, a, j + 1, j2);
    }
}

/// Choosing the indices of `g` one after the other, the enumeration from the union of the
/// first `t` closures reaches the union of all of them.
proof fn lemma_rcs_path(labels: Seq<Label>, cls: Seq<Set<Label>>, g: Seq<int>, t: int)
    requires
        labels.len() == cls.len(),
        0 <= t < g.len(),
        forall|u: int| 0 <= u < g.len() ==> u <= #[trigger] g[u] < labels.len(),
        forall|u: int| 0 <= u < g.len() ==> rcs_extends(labels[g[u]], cls[g[u]], #[trigger] union_of(cls, g, u)),
    ensures
        rcs_gen(labels.skip(t), cls.skip(t), union_of(cls, g, t), 0).contains(union_of(cls, g, g.len() as int)),
    decreases g.len() - t,
{
    let ls = labels.skip(t);
    let cl = cls.skip(t);
    let a = union_of(cls, g, t);
    assert(t <= g[t] < labels.len());
    let p = g[t] - t;
    assert(ls[p] == labels[g[t]]);
    assert(cl[p] == cls[g[t]]);
    assert(rcs_extends(labels[g[t]], cls[g[t]], union_of(cls, g, t)));
    let n = a.union(cl[p]);
    assert(n == union_of(cls, g, t + 1));
    lemma_rcs_gen_mono(ls, cl, a, 0, p);
    if t + 1 < g.len() {
        lemma_rcs_path(labels, cls, g, t + 1);
        assert(ls.drop_first() =~= labels.skip(t + 1));
        assert(cl.drop_first() =~= cls.skip(t + 1));
        assert(rcs_gen(ls.drop_first(), cl.drop_first(), n, 0).contains(union_of(cls, g, g.len() as int)));
    }
}

/// With transitive closures that hold their own labels, every right-closed set of labels is
/// among the sets that `right_closed_subsets` yields.
pub proof fn lemma_right_closed_subsets_complete(labels: Seq<Label>, cls: Seq<Set<Label>>, s: Set<Label>)
    requires
        cls.len() == labels.len(),
        closures_transitive(labels, cls),
        forall|k: int| 0 <= k < cls.len() ==> #[trigger] cls[k].finite(),
        forall|k: int| 0 <= k < cls.len() ==> #[trigger] cls[k].contains(labels[k]),
        s.subset_of(labels.to_set()),
        right_closed(s, labels, cls),
    ensures
        rcs_family(labels, cls).contains(s),
{
    if s.is_empty() {
        assert(s =~= Set::<Label>::empty());
        return;
    }
    let n = labels.len() as int;
    let g = generators(labels, cls, s, n);
    let m = g.len() as int;
    lemma_generators(labels, cls, s, n);
    // the union of the generators' closures is s
    assert forall|y: Label| union_of(cls, g, m).contains(y) <==> s.contains(y) by {
        lemma_union_of(cls, g, m, y);
        if s.contains(y) {
            assert(labels.to_set().contains(y));
            let i0 = choose|i0: int| 0 <= i0 < labels.len() && labels[i0] == y;
            lemma_generator_above(labels, cls, s, i0);
            let k = choose|k: int| is_generator(labels, cls, s, k) && #[trigger] cls[k].contains(labels[i0]);
            assert(g.contains(k));
            let u = choose|u: int| 0 <= u < g.len() && g[u] == k;
            assert(cls[g[u]].contains(y));
        }
        if union_of(cls, g, m).contains(y) {
            let u = choose|u: int| 0 <= u < m && #[trigger] cls[g[u]].contains(y);
            assert(is_generator(labels, cls, s, g[u]));
            assert(cls[g[u]].subset_of(s));
        }
    }
    assert(union_of(cls, g, m) =~= s);
    assert(m > 0) by {
        if m == 0 {
            assert(union_of(cls, g, m) =~= Set::<Label>::empty());
            assert(s =~= Set::<Label>::empty());
        }
    }
    // each generator extends the union of the ones before it
    assert forall|u: int| 0 <= u < g.len() implies rcs_extends(labels[g[u]], cls[g[u]], #[trigger] union_of(cls, g, u)) by {
        lemma_union_of(cls, g, u, labels[g[u]]);
        if union_of(cls, g, u).contains(labels[g[u]]) {
            let v = choose|v: int| 0 <= v < u && #[trigger] cls[g[v]].contains(labels[g[u]]);
            lemma_generators_apart(labels, cls, s, g[u], g[v]);
        }
        if u > 0 {
            lemma_union_of(cls, g, u, labels[g[0]]);
            assert(cls[g[0]].contains(labels[g[0]]));
            assert(union_of(cls, g, u).contains(labels[g[0]]));
            lemma_generators_apart(labels, cls, s, g[0], g[u]);
        }
    }
    lemma_rcs_path(labels, cls, g, 0);
    assert(labels.skip(0) =~= labels);
    assert(cls.skip(0) =~= cls);
}

/// `set` holds `todup` and, besides it, only labels of `added`.
pub open spec fn copies(set: Set<Label>, todup: Set<Label>, added: Set<Label>) -> bool {
    todup.subset_of(set) && set.difference(todup).subset_of(added)
}

/// `set` is a copy, in the sense of `copies`, of one of the sets of `grp`.
pub open spec fn copies_some(set: Set<Label>, grp: Seq<Set<Label>>, added: Set<Label>) -> bool {
    exists|i: int| 0 <= i < grp.len() && #[trigger] copies(set, grp[i], added)
}

/// `set` holds one of the sets of `grp`.
pub open spec fn holds_some(set: Set<Label>, grp: Seq<Set<Label>>) -> bool {
    exists|i: int| 0 <= i < grp.len() && #[trigger] grp[i].subset_of(set)
}

/// What becomes of `set` when the sets of `grp` are duplicated with the label `fresh`: a
/// copy of one of them stays as it is (and a duplicate of it is added elsewhere), another
/// set that holds one of them gets the fresh label, and any other set stays.
pub open spec fn dup_kept(set: Set<Label>, grp: Seq<Set<Label>>, added: Set<Label>, fresh: Label) -> Set<Label> {
    if copies_some(set, grp, added) {
        set
    } else if holds_some(set, grp) {
        set.insert(fresh)
    } else {
        set
    }
}

/// `dup_kept` as a function on sets.
pub open spec fn kept_by(grp: Seq<Set<Label>>, added: Set<Label>, fresh: Label) -> spec_fn(Set<Label>) -> Set<Label> {
    |x: Set<Label>| dup_kept(x, grp, added, fresh)
}

/// `copies_some` as a predicate on sets.
pub open spec fn copied_by(grp: Seq<Set<Label>>, added: Set<Label>) -> spec_fn(Set<Label>) -> bool {
    |x: Set<Label>| copies_some(x, grp, added)
}

/// Adding the label `fresh` to a set.
pub open spec fn with_label(fresh: Label) -> spec_fn(Set<Label>) -> Set<Label> {
    |x: Set<Label>| x.insert(fresh)
}

/// The sets after duplicating the sets of `grp` with the label `fresh`: each set as
/// `dup_kept` leaves it, then the copies, each with the fresh label.
pub open spec fn dup_step(sets: Seq<Set<Label>>, grp: Seq<Set<Label>>, added: Set<Label>, fresh: Label) -> Seq<Set<Label>> {
    sets.map_values(kept_by(grp, added, fresh)) + sets.filter(copied_by(grp, added)).map_values(with_label(fresh))
}

/// The labels `f0..f0 + k`.
pub open spec fn fresh_labels(f0: nat, k: nat) -> Set<Label> {
    Set::new(|x: Label| f0 <= x < f0 + k)
}

/// The sets after duplicating the groups `gsets[k..]` in turn, the `k`-th with the label
/// `f0 + k`, the labels before it counting as added.
pub open spec fn dup_all(sets: Seq<Set<Label>>, gsets: Seq<Seq<Set<Label>>>, f0: nat, k: nat) -> Seq<Set<Label>>
    decreases gsets.len() - k,
{
    if k >= gsets.len() {
        sets
    } else {
        dup_all(dup_step(sets, gsets[k as int], fresh_labels(f0, k), (f0 + k) as Label), gsets, f0, k + 1)
    }
}

/// Duplicating the sets of `grp` with the label `fresh` keeps every set `s` that holds a set
/// of `grp` and, besides it, only labels of `added`, and adds `s` with `fresh` as well.
pub proof fn lemma_dup_step_keeps_copies(sets: Seq<Set<Label>>, grp: Seq<Set<Label>>, added: Set<Label>, fresh: Label, s: Set<Label>, t: int)
    requires
        sets.contains(s),
        0 <= t < grp.len(),
        grp[t].subset_of(s),
        s.difference(grp[t]).subset_of(added),
    ensures
        dup_step(sets, grp, added, fresh).contains(s),
        dup_step(sets, grp, added, fresh).contains(s.insert(fresh)),
{
    let i = choose|i: int| 0 <= i < sets.len() && sets[i] == s;
    assert(copies(s, grp[t], added));
    assert(copies_some(s, grp, added));
    let kept = sets.map_values(kept_by(grp, added, fresh));
    assert(kept[i] == s);
    let f = sets.filter(copied_by(grp, added));
    sets.lemma_filter_contains(copied_by(grp, added), i);
    assert(f.contains(s));
    let j = choose|j: int| 0 <= j < f.len() && f[j] == s;
    let dups = f.map_values(with_label(fresh));
    assert(dups[j] == s.insert(fresh));
    let r = dup_step(sets, grp, added, fresh);
    assert(r[i] == s);
    assert(r[kept.len() + j] == s.insert(fresh));
}

/// Duplicating the sets of `grp` with the label `fresh`: a set that holds a set of `grp`
/// appears with `fresh` (as its duplicate or in its place), and a set that holds none of
/// them stays as it is.
pub proof fn lemma_dup_step_sets(sets: Seq<Set<Label>>, grp: Seq<Set<Label>>, added: Set<Label>, fresh: Label, s: Set<Label>)
    requires
        sets.contains(s),
    ensures
        (exists|t: int| 0 <= t < grp.len() && #[trigger] grp[t].subset_of(s)) ==> dup_step(sets, grp, added, fresh).contains(s.insert(fresh)),
        (forall|t: int| 0 <= t < grp.len() ==> !(#[trigger] grp[t].subset_of(s))) ==> dup_step(sets, grp, added, fresh).contains(s),
{
    let i = choose|i: int| 0 <= i < sets.len() && sets[i] == s;
    let kept = sets.map_values(kept_by(grp, added, fresh));
    let r = dup_step(sets, grp, added, fresh);
    assert(r[i] == kept[i]);
    assert(kept[i] == dup_kept(s, grp, added, fresh));
    if exists|t: int| 0 <= t < grp.len() && #[trigger] grp[t].subset_of(s) {
        let t = choose|t: int| 0 <= t < grp.len() && #[trigger] grp[t].subset_of(s);
        if copies_some(s, grp, added) {
            let f = sets.filter(copied_by(grp, added));
            sets.lemma_filter_contains(copied_by(grp, added), i);
            let j = choose|j: int| 0 <= j < f.len() && f[j] == s;
            let dups = f.map_values(with_label(fresh));
            assert(r[kept.len() + j] == dups[j]);
            assert(r[kept.len() + j] == s.insert(fresh));
        } else {
            assert(holds_some(s, grp));
        }
    } else {
        if copies_some(s, grp, added) {
            let t = choose|t: int| 0 <= t < grp.len() && #[trigger] copies(s, grp[t], added);
            assert(grp[t].subset_of(s));
        }
    }
}

/// Duplicating the groups `gsets[k..]` in turn is duplicating all but the last, then the last.
pub proof fn lemma_dup_all_last(sets: Seq<Set<Label>>, gsets: Seq<Seq<Set<Label>>>, f0: nat, k: nat)
    requires
        gsets.len() >= 1,
        k <= gsets.len() - 1,
    ensures
        dup_all(sets, gsets, f0, k) == dup_step(
            dup_all(sets, gsets.drop_last(), f0, k),
            gsets.last(),
            fresh_labels(f0, (gsets.len() - 1) as nat),
            (f0 + gsets.len() - 1) as Label,
        ),
    decreases gsets.len() - k,
{
    let next = dup_step(sets, gsets[k as int], fresh_labels(f0, k), (f0 + k) as Label);
    assert(dup_all(sets, gsets, f0, k) == dup_all(next, gsets, f0, k + 1));
    if k < gsets.len() - 1 {
        lemma_dup_all_last(next, gsets, f0, k + 1);
        assert(gsets.drop_last()[k as int] == gsets[k as int]);
        assert(dup_all(sets, gsets.drop_last(), f0, k) == dup_all(next, gsets.drop_last(), f0, k + 1));
    } else {
        assert(dup_all(next, gsets, f0, k + 1) == next);
        assert(dup_all(sets, gsets.drop_last(), f0, k) == sets);
    }
}

/// When groups are duplicated in turn (see `duplicate_labels`), a set that, after the earlier
/// groups, holds a set of the last group and, besides it, only fresh labels of the earlier
/// groups stays among the resulting sets and also appears with the last fresh label.
pub proof fn lemma_dup_all_keeps_copies(sets: Seq<Set<Label>>, gsets: Seq<Seq<Set<Label>>>, f0: nat, s: Set<Label>, t: int)
    requires
        gsets.len() >= 1,
        dup_all(sets, gsets.drop_last(), f0, 0).contains(s),
        0 <= t < gsets.last().len(),
        gsets.last()[t].subset_of(s),
        s.difference(gsets.last()[t]).subset_of(fresh_labels(f0, (gsets.len() - 1) as nat)),
    ensures
        dup_all(sets, gsets, f0, 0).contains(s),
        dup_all(sets, gsets, f0, 0).contains(s.insert((f0 + gsets.len() - 1) as Label)),
{
    lemma_dup_all_last(sets, gsets, f0, 0);
    lemma_dup_step_keeps_copies(
        dup_all(sets, gsets.drop_last(), f0, 0),
        gsets.last(),
        fresh_labels(f0, (gsets.len() - 1) as nat),
        (f0 + gsets.len() - 1) as Label,
        s,
        t,
    );
}

/// The groups of diagram labels as groups of the sets that these labels stand for.
pub open spec fn group_sets(groups: Seq<Seq<Label>>, rc: Seq<Seq<Label>>) -> Seq<Seq<Set<Label>>> {
    groups.map_values(|g: Seq<Label>| g.map_values(|l: Label| rc[l as int].to_set()))
}

/// The largest label of a nonempty mapping.
pub open spec fn max_label(m: Seq<(Label, String)>) -> Label
    decreases m.len(),
{
    if m.len() <= 1 {
        m[0].0
    } else {
        let r = max_label(m.drop_last());
        if m.last().0 > r {
            m.last().0
        } else {
            r
        }
    }
}

/// The largest label of a nonempty mapping.
pub(crate) fn max_label_exec(m: &Vec<(Label, String)>) -> (r: Label)
    requires
        m.len() > 0,
    ensures
        r == max_label(m@),
        forall|i: int| 0 <= i < m.len() ==> m@[i].0 <= r,
{
    let mut r = m[0].0;
    let mut i: usize = 1;
    assert(m@.take(1).drop_last() =~= Seq::<(Label, String)>::empty());
    while i < m.len()
        invariant
            1 <= i <= m.len(),
            r == max_label(m@.take(i as int)),
            forall|k: int| 0 <= k < i ==> m@[k].0 <= r,
        decreases m.len() - i,
    {
        assert(m@.take(i + 1).drop_last() =~= m@.take(i as int));
        if m[i].0 > r {
            r = m[i].0;
        }
        i = i + 1;
    }
    assert(m@.take(m.len() as int) =~= m@);
    r
}

/// Whether `set` is a copy of `todup` in the sense of `copies`.
fn copies_exec(set: &Vec<Label>, todup: &Vec<Label>, added: &Vec<Label>) -> (r: bool)
    ensures
        r == copies(set@.to_set(), todup@.to_set(), added@.to_set()),
{
    if !is_subset(todup, set) {
        return false;
    }
    let mut i: usize = 0;
    while i < set.len()
        invariant
            i <= set.len(),
            forall|k: int| 0 <= k < i ==> todup@.contains(#[trigger] set@[k]) || added@.contains(set@[k]),
        decreases set.len() - i,
    {
        if !contains_label(todup, set[i]) && !contains_label(added, set[i]) {
            assert(set@.to_set().difference(todup@.to_set()).contains(set@[i as int]));
            return false;
        }
        i = i + 1;
    }
    assert forall|x: Label| set@.to_set().difference(todup@.to_set()).contains(x) implies added@.to_set().contains(x) by {
        let k = choose|k: int| 0 <= k < set@.len() && set@[k] == x;
    }
    true
}

/// Whether `set` is a copy of one of the sets of `gs`.
fn copies_some_exec(set: &Vec<Label>, gs: &Vec<Vec<Label>>, added: &Vec<Label>) -> (r: bool)
    ensures
        r == copies_some(set@.to_set(), set_views(gs@), added@.to_set()),
{
    let mut i: usize = 0;
    while i < gs.len()
        invariant
            i <= gs.len(),
            forall|k: int| 0 <= k < i ==> !copies(set@.to_set(), #[trigger] set_views(gs@)[k], added@.to_set()),
        decreases gs.len() - i,
    {
        if copies_exec(set, &gs[i], added) {
            assert(copies(set@.to_set(), set_views(gs@)[i as int], added@.to_set()));
            return true;
        }
        i = i + 1;
    }
    false
}

/// Whether `set` holds one of the sets of `gs`.
fn holds_some_exec(set: &Vec<Label>, gs: &Vec<Vec<Label>>) -> (r: bool)
    ensures
        r == holds_some(set@.to_set(), set_views(gs@)),
{
    let mut i: usize = 0;
    while i < gs.len()
        invariant
            i <= gs.len(),
            forall|k: int| 0 <= k < i ==> !(#[trigger] set_views(gs@)[k]).subset_of(set@.to_set()),
        decreases gs.len() - i,
    {
        if is_subset(&gs[i], set) {
            assert(set_views(gs@)[i as int].subset_of(set@.to_set()));
            return true;
        }
        i = i + 1;
    }
    false
}

/// Duplicating groups keeps every set at its position, adding to it at most fresh labels.
pub proof fn lemma_dup_all_grows(sets: Seq<Set<Label>>, gsets: Seq<Seq<Set<Label>>>, f0: nat, k: nat, i: int)
    requires
        0 <= i < sets.len(),
        f0 + gsets.len() <= u32::MAX + 1,
    ensures
        i < dup_all(sets, gsets, f0, k).len(),
        sets[i].subset_of(dup_all(sets, gsets, f0, k)[i]),
        dup_all(sets, gsets, f0, k)[i].difference(sets[i]).subset_of(Set::new(|x: Label| f0 + k <= x < f0 + gsets.len())),
    decreases gsets.len() - k,
{
    if k < gsets.len() {
        let st = dup_step(sets, gsets[k as int], fresh_labels(f0, k), (f0 + k) as Label);
        assert(st[i] == dup_kept(sets[i], gsets[k as int], fresh_labels(f0, k), (f0 + k) as Label));
        lemma_dup_all_grows(st, gsets, f0, k + 1, i);
        let r = dup_all(sets, gsets, f0, k);
        assert(r == dup_all(st, gsets, f0, k + 1));
        assert forall|x: Label| r[i].difference(sets[i]).contains(x) implies f0 + k <= x < f0 + gsets.len() by {
            if !st[i].contains(x) {
                assert(r[i].difference(st[i]).contains(x));
                assert(Set::new(|y: Label| f0 + (k + 1) <= y < f0 + gsets.len()).contains(x));
            } else {
                assert(st[i].difference(sets[i]).contains(x));
                assert(x == (f0 + k) as Label);
            }
        }
    }
}

/// Duplicating keeps the sets within `u` when the fresh labels are in `u`.
proof fn lemma_dup_all_within(sets: Seq<Set<Label>>, gsets: Seq<Seq<Set<Label>>>, f0: nat, k: nat, u: Set<Label>)
    requires
        forall|i: int| 0 <= i < sets.len() ==> (#[trigger] sets[i]).subset_of(u),
        forall|j: nat| k <= j < gsets.len() ==> u.contains(#[trigger] ((f0 + j) as Label)),
    ensures
        forall|i: int| 0 <= i < dup_all(sets, gsets, f0, k).len() ==> (#[trigger] dup_all(sets, gsets, f0, k)[i]).subset_of(u),
    decreases gsets.len() - k,
{
    if k < gsets.len() {
        let fresh = (f0 + k) as Label;
        let grp = gsets[k as int];
        let added = fresh_labels(f0, k);
        let st = dup_step(sets, grp, added, fresh);
        assert(u.contains(fresh));
        let cp = sets.filter(copied_by(grp, added));
        assert forall|i: int| 0 <= i < cp.len() implies (#[trigger] cp[i]).subset_of(u) by {
            assert(cp.contains(cp[i]));
            sets.lemma_filter_contains_rev(copied_by(grp, added), cp[i]);
        }
        assert forall|i: int| 0 <= i < st.len() implies (#[trigger] st[i]).subset_of(u) by {
            if i < sets.len() {
                assert(st[i] == dup_kept(sets[i], grp, added, fresh));
            } else {
                assert(st[i] == cp[i - sets.len()].insert(fresh));
            }
        }
        lemma_dup_all_within(st, gsets, f0, k + 1, u);
        assert(dup_all(sets, gsets, f0, k) == dup_all(st, gsets, f0, k + 1));
    }
}

/// The sequences are in strictly increasing lexicographic order.
pub open spec fn sorted_lex_strict(s: Seq<Seq<Label>>) -> bool {
    forall|i: int, j: int| 0 <= i < j < s.len() ==> lex_lt(s[i], s[j])
}

/// The right-closed sets of labels: the sets that the enumeration builds from the closures
/// (each label with its successors), each as a strictly increasing vector, in strictly
/// increasing lexicographic order.
pub fn right_closed_subsets(labels: &[Label], successors: &HashMap<Label, HashSet<Label>>) -> (r: Vec<Vec<Label>>)
    requires
        forall|i: int| 0 <= i < labels@.len() ==> successors@.contains_key(#[trigger] labels@[i]),
    ensures
        forall|k: int| 0 <= k < r@.len() ==> sorted_strict(#[trigger] r@[k]@),
        sorted_lex_strict(views(r@)),
        family(views(r@)) == rcs_family(labels@, closures(labels@, successors@)),
{
    broadcast use vstd::std_specs::hash::group_hash_axioms;
    let ghost cls = closures(labels@, successors@);
    let mut ls: Vec<Label> = Vec::new();
    let mut cl: Vec<Vec<Label>> = Vec::new();
    let mut i: usize = 0;
    while i < labels.len()
        invariant
            i <= labels.len(),
            cls == closures(labels@, successors@),
            forall|k: int| 0 <= k < labels@.len() ==> successors@.contains_key(#[trigger] labels@[k]),
            ls@ == labels@.take(i as int),
            cl.len() == i,
            forall|k: int| 0 <= k < i ==> sorted_strict(#[trigger] cl@[k]@),
            forall|k: int| 0 <= k < i ==> (#[trigger] cl@[k]@).to_set() == cls[k],
        decreases labels.len() - i,
    {
        let x = labels[i];
        assert(successors@.contains_key(labels@[i as int]));
        let s = successors.get(&x).unwrap();
        let mut c = hash_set_sorted(s);
        insert_sorted(&mut c, x);
        ls.push(x);
        cl.push(c);
        proof {
            assert(ls@ =~= labels@.take(i + 1));
        }
        i = i + 1;
    }
    proof {
        assert(ls@ =~= labels@);
        assert(set_views(cl@) =~= cls);
        assert(ls@.skip(0) =~= ls@);
        assert(set_views(cl@).skip(0) =~= set_views(cl@));
    }
    let mut found: Vec<Vec<Label>> = Vec::new();
    found.push(Vec::new());
    let empty: Vec<Label> = Vec::new();
    proof {
        assert(empty@.to_set() =~= Set::<Label>::empty());
        assert(family(views(found@)) =~= set![Set::<Label>::empty()]) by {
            assert(views(found@)[0].to_set() =~= Set::<Label>::empty());
        }
    }
    rcs_helper(&ls, &cl, 0, &mut found, &empty);
    proof {
        assert(family(views(found@)) =~= rcs_family(labels@, cls));
    }
    let ghost fv = views(found@);
    let sorted = sort_lex(found);
    proof {
        let sv = views(sorted@);
        let inv = choose|inv: Seq<int>| #[trigger] reorders(sv, fv, inv) && forall|t: int| 0 <= t < fv.len() ==> #[trigger] is_hit(inv, fv.len() as int, t);
        assert forall|k: int| 0 <= k < fv.len() implies sv.contains(#[trigger] fv[k]) by {
            assert(sv[inv[k]] == fv[k]);
        }
    }
    let r = dedup_sorted(sorted);
    proof {
        let rv = views(r@);
        let sv = views(sorted@);
        assert forall|k: int| 0 <= k < rv.len() implies fv.contains(#[trigger] rv[k]) by {
            let m = choose|m: int| 0 <= m < sv.len() && sv[m] == rv[k];
        }
        assert forall|k: int| 0 <= k < fv.len() implies rv.contains(#[trigger] fv[k]) by {
            assert(sv.contains(fv[k]));
            let m = choose|m: int| 0 <= m < sv.len() && sv[m] == fv[k];
        }
        lemma_same_family(rv, fv);
        assert forall|k: int| 0 <= k < r@.len() implies sorted_strict(#[trigger] r@[k]@) by {
            assert(fv.contains(rv[k]));
            let m = choose|m: int| 0 <= m < fv.len() && fv[m] == rv[k];
            assert(found@[m]@ == fv[m]);
        }
    }
    r
}

/// `n` diagram labels, numbered from zero, can all be named by the label type.
pub open spec fn fits_labels(n: int) -> bool {
    n <= u32::MAX + 1
}

/// Some set of `rc` holds `l`.
pub open spec fn in_some(rc: Seq<Seq<Label>>, l: Label) -> bool {
    exists|k: int| 0 <= k < rc.len() && (#[trigger] rc[k]).contains(l)
}

/// `m` is the first of the smallest sets of `rc` that hold `l`.
pub open spec fn is_smallest_containing(rc: Seq<Seq<Label>>, l: Label, m: int) -> bool {
    &&& 0 <= m < rc.len()
    &&& rc[m].contains(l)
    &&& forall|k: int| 0 <= k < rc.len() && #[trigger] rc[k].contains(l) ==> rc[m].len() < rc[k].len() || (
        rc[m].len() == rc[k].len() && m <= k)
}

/// The index of the first of the smallest sets of `rc` that hold `l`.
fn smallest_containing(rc: &Vec<Vec<Label>>, l: Label) -> (m: usize)
    requires
        in_some(views(rc@), l),
    ensures
        is_smallest_containing(views(rc@), l, m as int),
{
    let ghost rv = views(rc@);
    let mut best: usize = rc.len();
    let mut k: usize = 0;
    while k < rc.len()
        invariant
            k <= rc.len(),
            best <= rc.len(),
            rv == views(rc@),
            best == rc.len() ==> forall|i: int| 0 <= i < k ==> !(#[trigger] rv[i]).contains(l),
            best < rc.len() ==> best < k && rv[best as int].contains(l) && forall|i: int|
                0 <= i < k && #[trigger] rv[i].contains(l) ==> rv[best as int].len() < rv[i].len() || (
                    rv[best as int].len() == rv[i].len() && best <= i),
        decreases rc.len() - k,
    {
        assert(rv[k as int] == rc@[k as int]@);
        if contains_label(&rc[k], l) && (best == rc.len() || rc[k].len() < rc[best].len()) {
            best = k;
        }
        k = k + 1;
    }
    proof {
        if best == rc.len() {
            let k0 = choose|k0: int| 0 <= k0 < rv.len() && (#[trigger] rv[k0]).contains(l);
        }
    }
    best
}

/// Label `a` stands for a set that strictly contains the set of label `b` (the sets are
/// distinct, so containment is strict for distinct labels).
pub open spec fn superset_edge(rc: Seq<Seq<Label>>, a: Label, b: Label) -> bool {
    &&& a < rc.len()
    &&& b < rc.len()
    &&& a != b
    &&& rc[b as int].to_set().subset_of(rc[a as int].to_set())
}

/// The edge from `a` to `b` has no label between them.
pub open spec fn covering_edge(rc: Seq<Seq<Label>>, a: Label, b: Label) -> bool {
    &&& superset_edge(rc, a, b)
    &&& !exists|c: Label| #[trigger] superset_edge(rc, a, c) && superset_edge(rc, c, b)
}

/// Whether the set of label `a` strictly contains that of label `b`.
fn superset_edge_exec(rc: &Vec<Vec<Label>>, a: usize, b: usize) -> (r: bool)
    requires
        a < rc.len(),
        b < rc.len(),
        fits_labels(rc.len() as int),
    ensures
        r == superset_edge(views(rc@), a as Label, b as Label),
{
    assert(views(rc@)[a as int] == rc@[a as int]@);
    assert(views(rc@)[b as int] == rc@[b as int]@);
    a != b && is_subset(&rc[b], &rc[a])
}

/// All superset edges between the labels of `rc`, in lexicographic order.
fn superset_edges(rc: &Vec<Vec<Label>>) -> (r: Vec<(Label, Label)>)
    requires
        fits_labels(rc.len() as int),
    ensures
        pairs_sorted(r@),
        forall|a: Label, b: Label| #[trigger] r@.contains((a, b)) <==> superset_edge(views(rc@), a, b),
{
    let ghost rv = views(rc@);
    let n = rc.len();
    let mut r: Vec<(Label, Label)> = Vec::new();
    let mut i: usize = 0;
    while i < n
        invariant
            n == rc.len(),
            i <= n,
            fits_labels(n as int),
            rv == views(rc@),
            pairs_sorted(r@),
            forall|k: int| 0 <= k < r@.len() ==> ((#[trigger] r@[k]).0 as int) < i,
            forall|p: (Label, Label)| #[trigger] r@.contains(p) <==> (p.0 < i && superset_edge(rv, p.0, p.1)),
        decreases n - i,
    {
        let mut j: usize = 0;
        while j < n
            invariant
                n == rc.len(),
                i < n,
                j <= n,
                fits_labels(n as int),
                rv == views(rc@),
                pairs_sorted(r@),
                forall|k: int| 0 <= k < r@.len() ==> ((#[trigger] r@[k]).0 as int) < i || (r@[k].0 == i && (r@[k].1 as int) < j),
                forall|p: (Label, Label)| #[trigger] r@.contains(p) <==> ((p.0 < i || (p.0 == i && p.1 < j)) && superset_edge(rv, p.0, p.1)),
            decreases n - j,
        {
            let ghost r1 = r@;
            let e = superset_edge_exec(rc, i, j);
            if e {
                r.push((i as Label, j as Label));
            }
            proof {
                assert forall|p: (Label, Label)| #[trigger] r@.contains(p) <==> ((p.0 < i || (p.0 == i && p.1 < j + 1)) && superset_edge(rv, p.0, p.1)) by {
                    if r@.contains(p) && !r1.contains(p) {
                        assert(p == (i as Label, j as Label));
                    }
                    if r1.contains(p) {
                        let k = choose|k: int| 0 <= k < r1.len() && r1[k] == p;
                        assert(r@[k] == p);
                    }
                    if p == (i as Label, j as Label) && e {
                        assert(r@[r@.len() - 1] == p);
                    }
                }
                assert forall|k: int| 0 <= k < r@.len() implies ((#[trigger] r@[k]).0 as int) < i || (r@[k].0 == i && (r@[k].1 as int) < j + 1) by {
                    if k < r1.len() {
                        assert(r@[k] == r1[k]);
                    }
                }
                if e {
                    assert forall|x: int, y: int| 0 <= x < y < r@.len() implies r@[x].0 < r@[y].0 || (r@[x].0 == r@[y].0 && r@[x].1 < r@[y].1) by {
                        assert(r@[x] == r1[x]);
                        if y < r1.len() {
                            assert(r@[y] == r1[y]);
                        }
                    }
                }
            }
            j = j + 1;
        }
        i = i + 1;
    }
    proof {
        assert forall|a: Label, b: Label| #[trigger] r@.contains((a, b)) <==> superset_edge(rv, a, b) by {
            assert(r@.contains((a, b)) == ((a < n) && superset_edge(rv, a, b)));
        }
    }
    r
}

/// The edges of `d` with no label between their ends, in the order of `d`.
fn covering_edges(rc: &Vec<Vec<Label>>, d: &Vec<(Label, Label)>) -> (r: Vec<(Label, Label)>)
    requires
        fits_labels(rc.len() as int),
        pairs_sorted(d@),
        forall|a: Label, b: Label| #[trigger] d@.contains((a, b)) <==> superset_edge(views(rc@), a, b),
    ensures
        pairs_sorted(r@),
        forall|a: Label, b: Label| #[trigger] r@.contains((a, b)) <==> covering_edge(views(rc@), a, b),
{
    let ghost rv = views(rc@);
    let n = rc.len();
    let mut r: Vec<(Label, Label)> = Vec::new();
    let mut k: usize = 0;
    while k < d.len()
        invariant
            n == rc.len(),
            k <= d.len(),
            fits_labels(n as int),
            rv == views(rc@),
            pairs_sorted(d@),
            forall|a: Label, b: Label| #[trigger] d@.contains((a, b)) <==> superset_edge(rv, a, b),
            forall|x: int| 0 <= x < r@.len() ==> exists|y: int| 0 <= y < k && d@[y] == #[trigger] r@[x],
            pairs_sorted(r@),
            forall|p: (Label, Label)| #[trigger] r@.contains(p) <==> (exists|y: int| 0 <= y < k && d@[y] == p) && covering_edge(rv, p.0, p.1),
        decreases d.len() - k,
    {
        let (a, b) = d[k];
        assert(d@.contains((a, b)));
        let mut between = false;
        let mut c: usize = 0;
        while c < n
            invariant
                n == rc.len(),
                c <= n,
                fits_labels(n as int),
                rv == views(rc@),
                (a as int) < n && (b as int) < n,
                between == exists|c2: Label| (c2 as int) < c && #[trigger] superset_edge(rv, a, c2) && superset_edge(rv, c2, b),
            decreases n - c,
        {
            if superset_edge_exec(rc, a as usize, c) && superset_edge_exec(rc, c, b as usize) {
                between = true;
            }
            proof {
                if between {
                    assert(superset_edge(rv, a, c as Label) ==> exists|c2: Label| (c2 as int) < c + 1 && #[trigger] superset_edge(rv, a, c2) && superset_edge(rv, c2, b));
                }
            }
            c = c + 1;
        }
        let ghost r1 = r@;
        if !between {
            r.push((a, b));
        }
        proof {
            assert(!between <==> covering_edge(rv, a, b));
            assert forall|p: (Label, Label)| #[trigger] r@.contains(p) <==> (exists|y: int| 0 <= y < k + 1 && d@[y] == p) && covering_edge(rv, p.0, p.1) by {
                if r1.contains(p) {
                    let x = choose|x: int| 0 <= x < r1.len() && r1[x] == p;
                    assert(r@[x] == p);
                }
                if r@.contains(p) && !r1.contains(p) {
                    assert(p == (a, b));
                }
                if (exists|y: int| 0 <= y < k + 1 && d@[y] == p) && covering_edge(rv, p.0, p.1) {
                    if p == d@[k as int] {
                        assert(r@[r@.len() - 1] == p);
                    } else {
                        let y = choose|y: int| 0 <= y < k + 1 && d@[y] == p;
                        assert(y < k);
                    }
                }
            }
            assert forall|x: int| 0 <= x < r@.len() implies exists|y: int| 0 <= y < k + 1 && d@[y] == #[trigger] r@[x] by {
                if x < r1.len() {
                    assert(r@[x] == r1[x]);
                } else {
                    assert(d@[k as int] == r@[x]);
                }
            }
            if !between {
                assert forall|x: int, z: int| 0 <= x < z < r@.len() implies r@[x].0 < r@[z].0 || (r@[x].0 == r@[z].0 && r@[x].1 < r@[z].1) by {
                    assert(r@[x] == r1[x]);
                    if z < r1.len() {
                        assert(r@[z] == r1[z]);
                    } else {
                        let y = choose|y: int| 0 <= y < k && d@[y] == r1[x];
                        assert(d@[k as int] == r@[z]);
                    }
                }
            }
        }
        k = k + 1;
    }
    proof {
        assert forall|a: Label, b: Label| #[trigger] r@.contains((a, b)) <==> covering_edge(rv, a, b) by {
            if covering_edge(rv, a, b) {
                assert(d@.contains((a, b)));
            }
        }
    }
    r
}

/// The text is one character that takes one byte in UTF-8.
pub open spec fn is_one_byte(t: Seq<char>) -> bool {
    t.len() == 1 && (t[0] as u32) < 0x80
}

/// The labels of a mapping with the characters of their texts.
pub open spec fn texts_view(m: Seq<(Label, String)>) -> Seq<(Label, Seq<char>)> {
    m.map_values(|p: (Label, String)| (p.0, p.1@))
}

/// The text of label `l`: that of its first entry.
pub open spec fn view_text(mv: Seq<(Label, Seq<char>)>, l: Label) -> Seq<char>
    decreases mv.len(),
{
    if mv.len() == 0 {
        Seq::empty()
    } else if mv[0].0 == l {
        mv[0].1
    } else {
        view_text(mv.drop_first(), l)
    }
}

/// The text of a label is the same in a mapping and in its view.
proof fn lemma_view_text(m: Seq<(Label, String)>, l: Label)
    ensures
        view_text(texts_view(m), l) == text_of(m, l),
    decreases m.len(),
{
    if m.len() > 0 {
        assert(texts_view(m).drop_first() =~= texts_view(m.drop_first()));
        lemma_view_text(m.drop_first(), l);
    }
}

/// The text of the `j`-th duplicated label.
pub open spec fn dup_text(j: nat) -> Seq<char> {
    "(dup"@ + decimal(j) + seq![')']
}

/// The texts of the original labels followed by those of the duplicated labels.
pub open spec fn old_texts(m: Seq<(Label, String)>, dups: Seq<Label>) -> Seq<(Label, Seq<char>)> {
    texts_view(m) + Seq::new(dups.len(), |j: int| (dups[j], dup_text(j as nat)))
}

/// Every text of the mapping is one character of one byte.
pub open spec fn one_byte_texts(mv: Seq<(Label, Seq<char>)>) -> bool {
    forall|i: int| 0 <= i < mv.len() ==> is_one_byte(#[trigger] mv[i].1)
}

/// The texts of the labels, in the order of the labels.
pub open spec fn label_texts(m: Seq<(Label, String)>, r: Seq<Label>) -> Seq<Seq<char>> {
    r.map_values(|x: Label| text_of(m, x))
}

/// The texts of the labels in a mapping view, in the order of the labels.
pub open spec fn view_texts(mv: Seq<(Label, Seq<char>)>, r: Seq<Label>) -> Seq<Seq<char>> {
    r.map_values(|x: Label| view_text(mv, x))
}

/// The text of a diagram label that stands for the set `r` of original labels. When every
/// original text is one one-byte character, the texts of the set are sorted and written
/// together, in parentheses when there are several, and `∅` for the empty set. Otherwise
/// the texts, without their parentheses, are sorted and joined with `_` inside parentheses,
/// and `∅` stands for `()`.
pub open spec fn set_text(mv: Seq<(Label, Seq<char>)>, r: Seq<Label>) -> Seq<char> {
    if one_byte_texts(mv) {
        let t = join(sorted_text_seq(view_texts(mv, r)), Seq::empty());
        if t.len() == 0 {
            seq!['∅']
        } else if t.len() > 1 {
            seq!['('] + t + seq![')']
        } else {
            t
        }
    } else {
        let t = seq!['('] + join(sorted_text_seq(view_texts(mv, r).map_values(|x: Seq<char>| strip_parens(x))), seq!['_'])
            + seq![')'];
        if t == seq!['(', ')'] {
            seq!['∅']
        } else {
            t
        }
    }
}

/// Whether every text of the mapping is one character of one byte.
fn one_byte_texts_exec(m: &Vec<(Label, String)>) -> (r: bool)
    ensures
        r == one_byte_texts(texts_view(m@)),
{
    let mut i: usize = 0;
    while i < m.len()
        invariant
            i <= m.len(),
            forall|k: int| 0 <= k < i ==> is_one_byte(#[trigger] texts_view(m@)[k].1),
        decreases m.len() - i,
    {
        let t = chars_of(m[i].1.as_str());
        assert(texts_view(m@)[i as int].1 == t@);
        if t.len() != 1 || (t[0] as u32) >= 0x80 {
            return false;
        }
        i = i + 1;
    }
    true
}

/// The text of the diagram label for the set `r` (see `set_text`).
fn set_text_exec(m: &Vec<(Label, String)>, onechar: bool, r: &Vec<Label>) -> (t: Vec<char>)
    requires
        onechar == one_byte_texts(texts_view(m@)),
    ensures
        t@ == set_text(texts_view(m@), r@),
{
    let ghost mv = texts_view(m@);
    let mut texts: Vec<Vec<char>> = Vec::new();
    let mut i: usize = 0;
    while i < r.len()
        invariant
            i <= r.len(),
            texts.len() == i,
            mv == texts_view(m@),
            forall|k: int| 0 <= k < i ==> (#[trigger] texts@[k])@ == if onechar {
                view_text(mv, r@[k])
            } else {
                strip_parens(view_text(mv, r@[k]))
            },
        decreases r.len() - i,
    {
        let t = text_of_exec(m, r[i]);
        proof {
            lemma_view_text(m@, r@[i as int]);
        }
        if onechar {
            texts.push(t);
        } else {
            let u = strip_parens_exec(&t);
            texts.push(u);
        }
        i = i + 1;
    }
    let ghost lt = view_texts(mv, r@);
    proof {
        if onechar {
            assert(text_views(texts@) =~= lt);
        } else {
            assert(text_views(texts@) =~= lt.map_values(|x: Seq<char>| strip_parens(x)));
        }
    }
    let sorted = sort_texts_exact(texts);
    let mut out: Vec<char> = Vec::new();
    if onechar {
        let empty: Vec<char> = Vec::new();
        let t = join_exec(&sorted, &empty);
        if t.len() == 0 {
            out.push('∅');
            assert(out@ =~= set_text(mv, r@));
        } else if t.len() > 1 {
            out.push('(');
            push_all(&mut out, &t);
            out.push(')');
            assert(out@ =~= set_text(mv, r@));
        } else {
            out = t;
            assert(out@ =~= set_text(mv, r@));
        }
    } else {
        let mut sep: Vec<char> = Vec::new();
        sep.push('_');
        let t = join_exec(&sorted, &sep);
        if t.len() == 0 {
            out.push('∅');
            assert(seq!['('] + t@ + seq![')'] =~= seq!['(', ')']);
            assert(out@ =~= set_text(mv, r@));
        } else {
            out.push('(');
            push_all(&mut out, &t);
            out.push(')');
            assert(out@ =~= seq!['('] + t@ + seq![')']);
            assert(out@ != seq!['(', ')']) by {
                assert(out@.len() > 2);
            }
            assert(out@ =~= set_text(mv, r@));
        }
    }
    out
}

/// The labels `0..n`.
pub open spec fn label_range(n: nat) -> Seq<Label> {
    Seq::new(n, |i: int| i as Label)
}

/// The edge from `a` to `b` is in `d`, and no label lies between them in `d`.
pub open spec fn direct_edge(d: Seq<(Label, Label)>, a: Label, b: Label) -> bool {
    &&& d.contains((a, b))
    &&& !exists|c: Label| #[trigger] d.contains((a, c)) && d.contains((c, b))
}

/// The labels that `a` has a direct edge to.
pub open spec fn direct_from(d: Seq<(Label, Label)>, a: Label) -> spec_fn(Label) -> bool {
    |b: Label| direct_edge(d, a, b)
}

/// The labels below `n` that `a` has a direct edge to, in increasing order.
pub open spec fn direct_targets(d: Seq<(Label, Label)>, n: nat, a: Label) -> Seq<Label> {
    label_range(n).filter(direct_from(d, a))
}

/// The labels with a direct edge to some label below `n`.
pub open spec fn has_direct(d: Seq<(Label, Label)>, n: nat) -> spec_fn(Label) -> bool {
    |a: Label| direct_targets(d, n, a).len() > 0
}

/// The labels below `n` with a direct edge, in increasing order.
pub open spec fn direct_sources(d: Seq<(Label, Label)>, n: nat) -> Seq<Label> {
    label_range(n).filter(has_direct(d, n))
}

/// Filtering the labels `0..b + 1` adds `b` to the filtered labels `0..b` when it passes.
proof fn lemma_range_filter_step(b: nat, pred: spec_fn(Label) -> bool)
    requires
        b <= u32::MAX,
    ensures
        label_range(b + 1).filter(pred) == if pred(b as Label) {
            label_range(b).filter(pred).push(b as Label)
        } else {
            label_range(b).filter(pred)
        },
{
    assert(label_range(b + 1) =~= label_range(b).push(b as Label));
    label_range(b).lemma_filter_push(b as Label, pred);
}

/// The labels that the diagram line of `a` lists (see `diagram_line` and `fixpoint_text`):
/// exactly the labels `b` below `n` with an edge from `a` in `d` and no label `c` between
/// them, each once, in increasing order; so the line has as many targets as `a` has such
/// direct edges.
pub proof fn lemma_direct_targets(d: Seq<(Label, Label)>, n: nat, a: Label)
    requires
        n <= u32::MAX + 1,
    ensures
        forall|b: Label| #[trigger] direct_targets(d, n, a).contains(b) <==> (b as int) < n && d.contains((a, b))
            && !exists|c: Label| #[trigger] d.contains((a, c)) && d.contains((c, b)),
        forall|i: int, j: int| 0 <= i < j < direct_targets(d, n, a).len()
            ==> #[trigger] direct_targets(d, n, a)[i] < #[trigger] direct_targets(d, n, a)[j],
    decreases n,
{
    let p = direct_from(d, a);
    if n == 0 {
        assert(label_range(0) =~= Seq::<Label>::empty());
        assert(label_range(0).filter(p) =~= Seq::<Label>::empty());
    } else {
        let m = (n - 1) as nat;
        lemma_direct_targets(d, m, a);
        lemma_range_filter_step(m, p);
        let prev = label_range(m).filter(p);
        assert(prev == direct_targets(d, m, a));
        let cur = direct_targets(d, n, a);
        assert forall|b: Label| #[trigger] cur.contains(b) <==> (b as int) < n && direct_edge(d, a, b) by {
            if cur.contains(b) {
                if p(m as Label) && b == m as Label {
                } else {
                    let k = choose|k: int| 0 <= k < cur.len() && cur[k] == b;
                    if p(m as Label) && k == cur.len() - 1 {
                    } else {
                        assert(prev[k] == b);
                        assert(prev.contains(b));
                    }
                }
            }
            if (b as int) < n && direct_edge(d, a, b) {
                if b == m as Label {
                    assert(cur[cur.len() - 1] == b);
                } else {
                    assert(prev.contains(b));
                    let k = choose|k: int| 0 <= k < prev.len() && prev[k] == b;
                    assert(cur[k] == b);
                }
            }
        }
        assert forall|i: int, j: int| 0 <= i < j < cur.len() implies #[trigger] cur[i] < #[trigger] cur[j] by {
            if p(m as Label) && j == cur.len() - 1 {
                assert(cur[i] == prev[i]);
                assert(prev.contains(prev[i]));
            } else {
                assert(cur[i] == prev[i]);
                assert(cur[j] == prev[j]);
            }
        }
    }
}

/// The labels whose lines the diagram text writes (see `fixpoint_text`): exactly the labels
/// below `n` with at least one direct edge to a label below `n`.
pub proof fn lemma_direct_sources(d: Seq<(Label, Label)>, n: nat)
    requires
        n <= u32::MAX + 1,
    ensures
        forall|a: Label| #[trigger] direct_sources(d, n).contains(a) <==> (a as int) < n
            && exists|b: Label| (b as int) < n && d.contains((a, b)) && !exists|c: Label| #[trigger] d.contains((a, c)) && d.contains((c, b)),
{
    let p = has_direct(d, n);
    assert forall|a: Label| #[trigger] direct_sources(d, n).contains(a) <==> (a as int) < n
        && exists|b: Label| (b as int) < n && d.contains((a, b)) && !exists|c: Label| #[trigger] d.contains((a, c)) && d.contains((c, b)) by {
        lemma_direct_targets(d, n, a);
        let r = label_range(n);
        if direct_sources(d, n).contains(a) {
            r.lemma_filter_contains_rev(p, a);
            let k = choose|k: int| 0 <= k < r.filter(p).len() && r.filter(p)[k] == a;
            r.lemma_filter_pred(p, k);
            let b = direct_targets(d, n, a)[0];
            assert(direct_targets(d, n, a).contains(b));
        }
        if (a as int) < n && exists|b: Label| (b as int) < n && d.contains((a, b)) && !exists|c: Label| #[trigger] d.contains((a, c)) && d.contains((c, b)) {
            let b = choose|b: Label| (b as int) < n && d.contains((a, b)) && !exists|c: Label| #[trigger] d.contains((a, c)) && d.contains((c, b));
            assert(direct_targets(d, n, a).contains(b));
            assert(r[a as int] == a);
            r.lemma_filter_contains(p, a as int);
        }
    }
}

/// Labels ordered by their texts, and by number where the texts are equal.
pub open spec fn text_then_label(m: Seq<(Label, String)>) -> spec_fn(Label, Label) -> bool {
    |a: Label, b: Label| text_lt(text_of(m, a), text_of(m, b)) || (text_of(m, a) == text_of(m, b) && a <= b)
}

/// The line of the diagram for label `a`: its text, an arrow, and the texts of its direct
/// targets, sorted and separated by spaces.
pub open spec fn diagram_line(m: Seq<(Label, String)>, d: Seq<(Label, Label)>, n: nat, a: Label) -> Seq<char> {
    text_of(m, a) + seq![' ', '-', '>', ' '] + join(sorted_text_seq(label_texts(m, direct_targets(d, n, a))), seq![' '])
}

/// The line of the mapping for an original label and its diagram label.
pub open spec fn mapping_line(old_m: Seq<(Label, String)>, new_m: Seq<(Label, String)>, p: (Label, Label)) -> Seq<char> {
    text_of(old_m, p.0) + seq![' ', '=', ' '] + text_of(new_m, p.1)
}

/// The text of a fixpoint diagram: a header, the mapping from original labels to diagram
/// labels one per line, a second header, and one line per label with direct edges, the
/// lines ordered by the texts of these labels.
pub open spec fn fixpoint_text(
    old_m: Seq<(Label, String)>,
    ln: Seq<(Label, Label)>,
    new_m: Seq<(Label, String)>,
    d: Seq<(Label, Label)>,
) -> Seq<char> {
    let n = new_m.len();
    "# mapping from original labels to diagram labels\n"@
        + join(ln.map_values(|p: (Label, Label)| mapping_line(old_m, new_m, p)), seq!['\n'])
        + "\n# diagram edges\n"@
        + join(
            direct_sources(d, n).sort_by(text_then_label(new_m)).map_values(|a: Label| diagram_line(new_m, d, n, a)),
            seq!['\n'],
        ) + seq!['\n']
}

/// `text_then_label` is a total order.
proof fn lemma_text_then_label_total(m: Seq<(Label, String)>)
    ensures
        total_ordering(text_then_label(m)),
{
    let r = text_then_label(m);
    assert forall|a: Label| #[trigger] r(a, a) by {}
    assert forall|a: Label, b: Label| #[trigger] r(a, b) && #[trigger] r(b, a) implies a == b by {
        lemma_text_total(text_of(m, a), text_of(m, b));
    }
    assert forall|a: Label, b: Label, c: Label| #[trigger] r(a, b) && #[trigger] r(b, c) implies r(a, c) by {
        lemma_text_total(text_of(m, a), text_of(m, b));
        if text_lt(text_of(m, a), text_of(m, b)) && text_lt(text_of(m, b), text_of(m, c)) {
            lemma_text_trans(text_of(m, a), text_of(m, b), text_of(m, c));
        }
    }
    assert forall|a: Label, b: Label| #[trigger] r(a, b) || #[trigger] r(b, a) by {
        lemma_text_total(text_of(m, a), text_of(m, b));
    }
}

/// Whether label `a` comes before label `b` in `text_then_label`.
fn text_then_label_exec(m: &Vec<(Label, String)>, a: Label, b: Label) -> (r: bool)
    ensures
        r == text_then_label(m@)(a, b),
{
    let ta = text_of_exec(m, a);
    let tb = text_of_exec(m, b);
    text_less(&ta, &tb) || (text_eq(&ta, &tb) && a <= b)
}

/// Sorts labels by their texts, and by number where the texts are equal.
fn sort_labels_by_text(v: Vec<Label>, m: &Vec<(Label, String)>) -> (r: Vec<Label>)
    ensures
        r@ == v@.sort_by(text_then_label(m@)),
{
    let ghost ord = text_then_label(m@);
    proof {
        lemma_text_then_label_total(m@);
    }
    let ghost orig = v@;
    let mut rest = v;
    let mut out: Vec<Label> = Vec::new();
    proof {
        assert(out@.to_multiset().add(rest@.to_multiset()) =~= orig.to_multiset()) by {
            vstd::seq_lib::to_multiset_len(out@);
            vstd::multiset::lemma_multiset_empty_len(out@.to_multiset());
        }
    }
    while rest.len() > 0
        invariant
            ord == text_then_label(m@),
            total_ordering(ord),
            sorted_by(out@, ord),
            forall|i: int, j: int| 0 <= i < out@.len() && 0 <= j < rest@.len() ==> ord(#[trigger] out@[i], #[trigger] rest@[j]),
            out@.to_multiset().add(rest@.to_multiset()) == orig.to_multiset(),
        decreases rest.len(),
    {
        let mut best: usize = 0;
        let mut j: usize = 1;
        while j < rest.len()
            invariant
                ord == text_then_label(m@),
                total_ordering(ord),
                0 <= best < rest.len(),
                1 <= j <= rest.len(),
                best < j,
                forall|k: int| 0 <= k < j ==> ord(rest@[best as int], #[trigger] rest@[k]),
            decreases rest.len() - j,
        {
            if !text_then_label_exec(m, rest[best], rest[j]) {
                proof {
                    assert(ord(rest@[j as int], rest@[best as int]));
                    assert forall|k: int| 0 <= k < j + 1 implies ord(rest@[j as int], #[trigger] rest@[k]) by {
                        if k < j {
                            assert(ord(rest@[best as int], rest@[k]));
                        }
                    }
                }
                best = j;
            }
            j = j + 1;
        }
        let ghost rest0 = rest@;
        let ghost out0 = out@;
        let x = rest.remove(best);
        out.push(x);
        proof {
            assert forall|a: int, b: int| 0 <= a < b < out@.len() implies #[trigger] ord(out@[a], out@[b]) by {
                if b == out@.len() - 1 {
                    assert(out@[a] == out0[a]);
                    assert(ord(out0[a], rest0[best as int]));
                } else {
                    assert(out@[a] == out0[a] && out@[b] == out0[b]);
                }
            }
            assert forall|a: int, b: int| 0 <= a < out@.len() && 0 <= b < rest@.len() implies ord(#[trigger] out@[a], #[trigger] rest@[b]) by {
                let bb = if b < best { b } else { b + 1 };
                assert(rest@[b] == rest0[bb]);
                if a == out@.len() - 1 {
                    assert(ord(rest0[best as int], rest0[bb]));
                } else {
                    assert(out@[a] == out0[a]);
                }
            }
            vstd::seq_lib::to_multiset_remove(rest0, best as int);
            vstd::seq_lib::to_multiset_build(out0, x);
            assert(rest@ =~= rest0.remove(best as int));
            assert(out@ =~= out0.push(x));
            assert(rest0.to_multiset().contains(x)) by {
                vstd::seq_lib::to_multiset_contains(rest0, x);
            }
            assert(out@.to_multiset().add(rest@.to_multiset()) =~= out0.to_multiset().add(rest0.to_multiset()));
        }
    }
    proof {
        vstd::seq_lib::to_multiset_len(rest@);
        vstd::multiset::lemma_multiset_empty_len(rest@.to_multiset());
        assert(out@.to_multiset() =~= orig.to_multiset());
        orig.lemma_sort_by_ensures(ord);
        lemma_sorted_unique(out@, orig.sort_by(ord), ord);
    }
    out
}

/// Every edge of `d` joins two labels below `n`.
pub open spec fn edges_below(d: Seq<(Label, Label)>, n: nat) -> bool {
    forall|a: Label, b: Label| #[trigger] d.contains((a, b)) ==> a < n && b < n
}

/// Whether `d` holds the edge from `a` to `b`.
fn contains_pair(d: &Vec<(Label, Label)>, a: Label, b: Label) -> (r: bool)
    ensures
        r == d@.contains((a, b)),
{
    let mut k: usize = 0;
    while k < d.len()
        invariant
            k <= d.len(),
            forall|i: int| 0 <= i < k ==> d@[i] != (a, b),
        decreases d.len() - k,
    {
        if d[k].0 == a && d[k].1 == b {
            assert(d@[k as int] == (a, b));
            return true;
        }
        k = k + 1;
    }
    false
}

/// Whether the edge from `a` to `b` is a direct edge of `d`.
fn direct_edge_exec(d: &Vec<(Label, Label)>, n: usize, a: Label, b: Label) -> (r: bool)
    requires
        edges_below(d@, n as nat),
        fits_labels(n as int),
    ensures
        r == direct_edge(d@, a, b),
{
    if !contains_pair(d, a, b) {
        return false;
    }
    let mut c: usize = 0;
    while c < n
        invariant
            c <= n,
            fits_labels(n as int),
            edges_below(d@, n as nat),
            forall|c2: Label| (c2 as int) < c ==> !(#[trigger] d@.contains((a, c2)) && d@.contains((c2, b))),
        decreases n - c,
    {
        if contains_pair(d, a, c as Label) && contains_pair(d, c as Label, b) {
            return false;
        }
        c = c + 1;
    }
    true
}

/// The labels below `n` that `a` has a direct edge to, in increasing order.
fn direct_targets_exec(d: &Vec<(Label, Label)>, n: usize, a: Label) -> (r: Vec<Label>)
    requires
        edges_below(d@, n as nat),
        fits_labels(n as int),
    ensures
        r@ == direct_targets(d@, n as nat, a),
{
    let mut r: Vec<Label> = Vec::new();
    let mut b: usize = 0;
    while b < n
        invariant
            b <= n,
            fits_labels(n as int),
            edges_below(d@, n as nat),
            r@ == label_range(b as nat).filter(direct_from(d@, a)),
        decreases n - b,
    {
        if direct_edge_exec(d, n, a, b as Label) {
            r.push(b as Label);
        }
        proof {
            lemma_range_filter_step(b as nat, direct_from(d@, a));
        }
        b = b + 1;
    }
    r
}

/// The enumeration from the empty set finds the closure of every label from `j0` on.
proof fn lemma_rcs_gen_has_closures(ls: Seq<Label>, cl: Seq<Set<Label>>, j0: int, j: int)
    requires
        ls.len() == cl.len(),
        0 <= j0 <= j < ls.len(),
    ensures
        rcs_gen(ls, cl, Set::empty(), j0).contains(cl[j]),
    decreases j - j0,
{
    if j0 < j {
        lemma_rcs_gen_has_closures(ls, cl, j0 + 1, j);
    } else {
        assert(Set::<Label>::empty().union(cl[j]) =~= cl[j]);
    }
}

/// Every set that the enumeration finds from a part of `u`, with closures that are parts
/// of `u`, is a part of `u`.
proof fn lemma_rcs_gen_within(ls: Seq<Label>, cl: Seq<Set<Label>>, added: Set<Label>, j: int, u: Set<Label>)
    requires
        ls.len() == cl.len(),
        added.subset_of(u),
        forall|k: int| 0 <= k < cl.len() ==> (#[trigger] cl[k]).subset_of(u),
    ensures
        forall|t: Set<Label>| #[trigger] rcs_gen(ls, cl, added, j).contains(t) ==> t.subset_of(u),
    decreases ls.len(), ls.len() - j,
{
    if 0 <= j < ls.len() {
        lemma_rcs_gen_within(ls, cl, added, j + 1, u);
        if rcs_extends(ls[j], cl[j], added) {
            let n = added.union(cl[j]);
            assert(cl[j].subset_of(u));
            assert forall|k: int| 0 <= k < cl.drop_first().len() implies (#[trigger] cl.drop_first()[k]).subset_of(u) by {
                assert(cl.drop_first()[k] == cl[k + 1]);
            }
            lemma_rcs_gen_within(ls.drop_first(), cl.drop_first(), n, 0, u);
            assert(rcs_gen(ls, cl, added, j) == rcs_gen(ls, cl, added, j + 1).insert(n).union(
                rcs_gen(ls.drop_first(), cl.drop_first(), n, 0),
            ));
            assert forall|t: Set<Label>| #[trigger] rcs_gen(ls, cl, added, j).contains(t) implies t.subset_of(u) by {
                if t != n && !rcs_gen(ls, cl, added, j + 1).contains(t) {
                    assert(rcs_gen(ls.drop_first(), cl.drop_first(), n, 0).contains(t));
                }
            }
        } else {
            assert(rcs_gen(ls, cl, added, j) == rcs_gen(ls, cl, added, j + 1));
        }
    }
}

/// A strictly sorted list of strictly increasing vectors holds distinct sets.
proof fn lemma_strict_distinct(v: Seq<Seq<Label>>)
    requires
        forall|k: int| 0 <= k < v.len() ==> sorted_strict(#[trigger] v[k]),
        sorted_lex_strict(v),
    ensures
        forall|a: int, b: int| 0 <= a < v.len() && 0 <= b < v.len() && a != b ==> (#[trigger] v[a]).to_set() != (#[trigger] v[b]).to_set(),
{
    assert forall|a: int, b: int| 0 <= a < v.len() && 0 <= b < v.len() && a != b implies (#[trigger] v[a]).to_set() != (#[trigger] v[b]).to_set() by {
        if v[a].to_set() == v[b].to_set() {
            lemma_sorted_set_eq(v[a], v[b]);
            if a < b {
                lemma_lex_total(v[a], v[b]);
            } else {
                lemma_lex_total(v[b], v[a]);
            }
        }
    }
}

/// The closure of each label in a diagram: the label and the labels it has an edge to.
pub open spec fn diagram_closures(labels: Seq<Label>, d: Seq<(Label, Label)>) -> Seq<Set<Label>> {
    Seq::new(labels.len(), |i: int| Set::new(|y: Label| d.contains((labels[i], y))).insert(labels[i]))
}

/// The successors of each label: the labels it has an edge to.
fn successor_map(labels: &Vec<Label>, d: &Vec<(Label, Label)>) -> (r: HashMap<Label, HashSet<Label>>)
    ensures
        forall|i: int| 0 <= i < labels@.len() ==> r@.contains_key(#[trigger] labels@[i]),
        closures(labels@, r@) == diagram_closures(labels@, d@),
{
    broadcast use vstd::std_specs::hash::group_hash_axioms, vstd::seq_lib::group_seq_properties;
    let mut r: HashMap<Label, HashSet<Label>> = HashMap::new();
    let mut i: usize = 0;
    while i < labels.len()
        invariant
            i <= labels.len(),
            forall|k: int| 0 <= k < labels@.len() ==> (r@.contains_key(#[trigger] labels@[k]) <==> labels@.take(i as int).contains(labels@[k])),
            forall|x: Label| #[trigger] r@.contains_key(x) ==> r@[x]@ == Set::new(|y: Label| d@.contains((x, y))),
        decreases labels.len() - i,
    {
        let x = labels[i];
        let mut set: HashSet<Label> = HashSet::new();
        let mut k: usize = 0;
        while k < d.len()
            invariant
                k <= d.len(),
                set@ == Set::new(|y: Label| d@.take(k as int).contains((x, y))),
            decreases d.len() - k,
        {
            let (a, b) = d[k];
            if a == x {
                set.insert(b);
            }
            proof {
                let t0 = d@.take(k as int);
                let t1 = d@.take(k + 1);
                assert forall|y: Label| set@.contains(y) <==> t1.contains((x, y)) by {
                    if t1.contains((x, y)) {
                        let m = choose|m: int| 0 <= m < t1.len() && t1[m] == (x, y);
                        if m < k {
                            assert(t0[m] == (x, y));
                        }
                    }
                    if t0.contains((x, y)) {
                        let m = choose|m: int| 0 <= m < t0.len() && t0[m] == (x, y);
                        assert(t1[m] == (x, y));
                    }
                    if a == x && y == b {
                        assert(t1[k as int] == (x, y));
                    }
                }
                assert(set@ =~= Set::new(|y: Label| d@.take(k + 1).contains((x, y))));
            }
            k = k + 1;
        }
        assert(d@.take(d.len() as int) =~= d@);
        assert(set@ =~= Set::new(|y: Label| d@.contains((x, y))));
        r.insert(x, set);
        proof {
            assert forall|k: int| 0 <= k < labels@.len() implies (r@.contains_key(#[trigger] labels@[k]) <==> labels@.take(i + 1).contains(labels@[k])) by {
                let t0 = labels@.take(i as int);
                let t1 = labels@.take(i + 1);
                let z = labels@[k];
                if t1.contains(z) {
                    let m = choose|m: int| 0 <= m < t1.len() && t1[m] == z;
                    if m < i {
                        assert(t0[m] == z);
                    }
                }
                if t0.contains(z) {
                    let m = choose|m: int| 0 <= m < t0.len() && t0[m] == z;
                    assert(t1[m] == z);
                }
                if z == x {
                    assert(t1[i as int] == z);
                }
            }
        }
        i = i + 1;
    }
    proof {
        assert(labels@.take(labels.len() as int) =~= labels@);
        assert forall|k: int| 0 <= k < labels@.len() implies r@.contains_key(#[trigger] labels@[k]) by {
            assert(labels@.take(labels.len() as int).contains(labels@[k]));
        }
        assert(closures(labels@, r@) =~= diagram_closures(labels@, d@)) by {
            assert forall|k: int| 0 <= k < labels@.len() implies #[trigger] closures(labels@, r@)[k] =~= diagram_closures(labels@, d@)[k] by {
                assert(r@.contains_key(labels@[k]));
            }
        }
    }
    r
}

impl FixpointDiagram {
    /// The fixpoint diagram is well formed: its diagram labels are `0..n` with one text each,
    /// its diagram is a strict order on them, the original labels have distinct texts, and
    /// each mapped original label has a text and a diagram label.
    pub open spec fn wf(&self) -> bool {
        let n = self.mapping_newlabel_text@.len();
        &&& fits_labels(n as int)
        &&& forall|i: int| 0 <= i < n ==> (#[trigger] self.mapping_newlabel_text@[i]).0 == i
        &&& edges_below(self.diagram@, n)
        &&& forall|a: Label| !(#[trigger] self.diagram@.contains((a, a)))
        &&& forall|a: Label, b: Label| #[trigger] self.diagram@.contains((a, b)) ==> !self.diagram@.contains((b, a))
        &&& crate::constraint::diagram_transitive(self.diagram@)
        &&& sorted_strict(mapping_labels(self.mapping_oldlabel_text@))
        &&& forall|i: int| 0 <= i < self.mapping_label_newlabel@.len() ==>
            mapping_labels(self.mapping_oldlabel_text@).contains((#[trigger] self.mapping_label_newlabel@[i]).0)
            && self.mapping_label_newlabel@[i].1 < n
    }

    /// Writes the text of the diagram (see `fixpoint_text`).
    pub fn compute_text(&mut self)
        requires
            old(self).wf(),
        ensures
            final(self).text@ == fixpoint_text(
                old(self).mapping_oldlabel_text@,
                old(self).mapping_label_newlabel@,
                old(self).mapping_newlabel_text@,
                old(self).diagram@,
            ),
            final(self).rightclosed == old(self).rightclosed,
            final(self).orig_labels == old(self).orig_labels,
            final(self).additional_orig == old(self).additional_orig,
            final(self).diagram == old(self).diagram,
            final(self).mapping_oldlabel_text == old(self).mapping_oldlabel_text,
            final(self).mapping_rightclosed_newlabel == old(self).mapping_rightclosed_newlabel,
            final(self).mapping_label_newlabel == old(self).mapping_label_newlabel,
            final(self).mapping_newlabel_text == old(self).mapping_newlabel_text,
            final(self).diagram_direct == old(self).diagram_direct,
    {
        let ghost old_m = self.mapping_oldlabel_text@;
        let ghost new_m = self.mapping_newlabel_text@;
        let ghost ln = self.mapping_label_newlabel@;
        let ghost d = self.diagram@;
        let n = self.mapping_newlabel_text.len();
        // the mapping lines
        let mut mlines: Vec<Vec<char>> = Vec::new();
        let mut i: usize = 0;
        while i < self.mapping_label_newlabel.len()
            invariant
                i <= self.mapping_label_newlabel.len(),
                ln == self.mapping_label_newlabel@,
                old_m == self.mapping_oldlabel_text@,
                new_m == self.mapping_newlabel_text@,
                mlines.len() == i,
                forall|k: int| 0 <= k < i ==> (#[trigger] mlines@[k])@ == mapping_line(old_m, new_m, ln[k]),
            decreases self.mapping_label_newlabel.len() - i,
        {
            let (l, nl) = self.mapping_label_newlabel[i];
            let mut line = text_of_exec(&self.mapping_oldlabel_text, l);
            line.push(' ');
            line.push('=');
            line.push(' ');
            let t = text_of_exec(&self.mapping_newlabel_text, nl);
            push_all(&mut line, &t);
            assert(line@ =~= mapping_line(old_m, new_m, ln[i as int]));
            mlines.push(line);
            i = i + 1;
        }
        let mut nl_sep: Vec<char> = Vec::new();
        nl_sep.push('\n');
        assert(text_views(mlines@) =~= ln.map_values(|p: (Label, Label)| mapping_line(old_m, new_m, p)));
        let mapping = join_exec(&mlines, &nl_sep);
        // the labels with direct edges, sorted by text
        let mut sources: Vec<Label> = Vec::new();
        let mut a: usize = 0;
        while a < n
            invariant
                a <= n,
                n == new_m.len(),
                d == self.diagram@,
                self.wf(),
                new_m == self.mapping_newlabel_text@,
                sources@ == label_range(a as nat).filter(has_direct(d, n as nat)),
            decreases n - a,
        {
            let t = direct_targets_exec(&self.diagram, n, a as Label);
            if t.len() > 0 {
                sources.push(a as Label);
            }
            proof {
                lemma_range_filter_step(a as nat, has_direct(d, n as nat));
            }
            a = a + 1;
        }
        let sorted = sort_labels_by_text(sources, &self.mapping_newlabel_text);
        // the diagram lines
        let mut dlines: Vec<Vec<char>> = Vec::new();
        let mut j: usize = 0;
        while j < sorted.len()
            invariant
                j <= sorted.len(),
                n == new_m.len(),
                d == self.diagram@,
                self.wf(),
                new_m == self.mapping_newlabel_text@,
                dlines.len() == j,
                forall|k: int| 0 <= k < j ==> (#[trigger] dlines@[k])@ == diagram_line(new_m, d, n as nat, sorted@[k]),
            decreases sorted.len() - j,
        {
            let x = sorted[j];
            let targets = direct_targets_exec(&self.diagram, n, x);
            let mut ttexts: Vec<Vec<char>> = Vec::new();
            let mut k: usize = 0;
            while k < targets.len()
                invariant
                    k <= targets.len(),
                    new_m == self.mapping_newlabel_text@,
                    ttexts.len() == k,
                    forall|q: int| 0 <= q < k ==> (#[trigger] ttexts@[q])@ == text_of(new_m, targets@[q]),
                decreases targets.len() - k,
            {
                let t = text_of_exec(&self.mapping_newlabel_text, targets[k]);
                ttexts.push(t);
                k = k + 1;
            }
            assert(text_views(ttexts@) =~= label_texts(new_m, targets@));
            let st = sort_texts_exact(ttexts);
            let mut sp: Vec<char> = Vec::new();
            sp.push(' ');
            let joined = join_exec(&st, &sp);
            let mut line = text_of_exec(&self.mapping_newlabel_text, x);
            line.push(' ');
            line.push('-');
            line.push('>');
            line.push(' ');
            push_all(&mut line, &joined);
            assert(line@ =~= diagram_line(new_m, d, n as nat, x));
            dlines.push(line);
            j = j + 1;
        }
        proof {
            lemma_text_then_label_total(new_m);
        }
        assert(text_views(dlines@) =~= direct_sources(d, n as nat).sort_by(text_then_label(new_m)).map_values(
            |a: Label| diagram_line(new_m, d, n as nat, a),
        ));
        let diagram = join_exec(&dlines, &nl_sep);
        let mut out = chars_of("# mapping from original labels to diagram labels\n");
        push_all(&mut out, &mapping);
        let mid = chars_of("\n# diagram edges\n");
        push_all(&mut out, &mid);
        push_all(&mut out, &diagram);
        out.push('\n');
        assert(out@ =~= fixpoint_text(old_m, ln, new_m, d));
        self.text = string_of(&out);
    }
}

impl FixpointDiagram {
    /// Numbers the right-closed sets (the `i`-th set becomes label `i`) and maps each original
    /// label to the first of the smallest right-closed sets that hold it.
    fn compute_mappings(&mut self)
        requires
            fits_labels(old(self).rightclosed.len() as int),
            forall|i: int| 0 <= i < old(self).orig_labels.len() ==> in_some(views(old(self).rightclosed@), #[trigger] old(self).orig_labels@[i]),
        ensures
            final(self).mapping_rightclosed_newlabel.len() == old(self).rightclosed.len(),
            forall|i: int| 0 <= i < old(self).rightclosed.len() ==>
                (#[trigger] final(self).mapping_rightclosed_newlabel@[i]).0@ == old(self).rightclosed@[i]@
                && final(self).mapping_rightclosed_newlabel@[i].1 == i,
            final(self).mapping_label_newlabel.len() == old(self).orig_labels.len(),
            forall|i: int| 0 <= i < old(self).orig_labels.len() ==>
                (#[trigger] final(self).mapping_label_newlabel@[i]).0 == old(self).orig_labels@[i]
                && is_smallest_containing(views(old(self).rightclosed@), old(self).orig_labels@[i], final(self).mapping_label_newlabel@[i].1 as int),
            final(self).rightclosed == old(self).rightclosed,
            final(self).orig_labels == old(self).orig_labels,
            final(self).additional_orig == old(self).additional_orig,
            final(self).diagram == old(self).diagram,
            final(self).mapping_oldlabel_text == old(self).mapping_oldlabel_text,
            final(self).mapping_newlabel_text == old(self).mapping_newlabel_text,
            final(self).text == old(self).text,
            final(self).diagram_direct == old(self).diagram_direct,
    {
        let mut rn: Vec<(Vec<Label>, Label)> = Vec::new();
        let mut i: usize = 0;
        while i < self.rightclosed.len()
            invariant
                i <= self.rightclosed.len(),
                fits_labels(self.rightclosed.len() as int),
                *self == *old(self),
                rn.len() == i,
                forall|k: int| 0 <= k < i ==> (#[trigger] rn@[k]).0@ == self.rightclosed@[k]@ && rn@[k].1 == k,
            decreases self.rightclosed.len() - i,
        {
            let c = copy_labels(&self.rightclosed[i]);
            rn.push((c, i as Label));
            i = i + 1;
        }
        let mut ln: Vec<(Label, Label)> = Vec::new();
        let mut j: usize = 0;
        while j < self.orig_labels.len()
            invariant
                j <= self.orig_labels.len(),
                fits_labels(self.rightclosed.len() as int),
                forall|i: int| 0 <= i < self.orig_labels.len() ==> in_some(views(self.rightclosed@), #[trigger] self.orig_labels@[i]),
                ln.len() == j,
                forall|k: int| 0 <= k < j ==> (#[trigger] ln@[k]).0 == self.orig_labels@[k]
                    && is_smallest_containing(views(self.rightclosed@), self.orig_labels@[k], ln@[k].1 as int),
            decreases self.orig_labels.len() - j,
        {
            let l = self.orig_labels[j];
            assert(in_some(views(self.rightclosed@), self.orig_labels@[j as int]));
            let m = smallest_containing(&self.rightclosed, l);
            ln.push((l, m as Label));
            j = j + 1;
        }
        self.mapping_rightclosed_newlabel = rn;
        self.mapping_label_newlabel = ln;
    }

    /// The diagram of the right-closed sets: an edge from a set to each set that it strictly
    /// contains; its direct form keeps each label in a group of its own and the edges with no
    /// label between their ends.
    fn compute_diagram(&mut self)
        requires
            fits_labels(old(self).rightclosed.len() as int),
        ensures
            pairs_sorted(final(self).diagram@),
            forall|a: Label, b: Label| #[trigger] final(self).diagram@.contains((a, b)) <==> superset_edge(views(old(self).rightclosed@), a, b),
            final(self).diagram_direct.0.len() == old(self).rightclosed.len(),
            forall|i: int| 0 <= i < old(self).rightclosed.len() ==> (#[trigger] final(self).diagram_direct.0@[i]).0 == i
                && final(self).diagram_direct.0@[i].1@ == seq![i as Label],
            pairs_sorted(final(self).diagram_direct.1@),
            forall|a: Label, b: Label| #[trigger] final(self).diagram_direct.1@.contains((a, b)) <==> covering_edge(views(old(self).rightclosed@), a, b),
            final(self).rightclosed == old(self).rightclosed,
            final(self).orig_labels == old(self).orig_labels,
            final(self).additional_orig == old(self).additional_orig,
            final(self).mapping_oldlabel_text == old(self).mapping_oldlabel_text,
            final(self).mapping_rightclosed_newlabel == old(self).mapping_rightclosed_newlabel,
            final(self).mapping_label_newlabel == old(self).mapping_label_newlabel,
            final(self).mapping_newlabel_text == old(self).mapping_newlabel_text,
            final(self).text == old(self).text,
    {
        let d = superset_edges(&self.rightclosed);
        let direct = covering_edges(&self.rightclosed, &d);
        let mut groups: Vec<(Label, Vec<Label>)> = Vec::new();
        let mut i: usize = 0;
        while i < self.rightclosed.len()
            invariant
                i <= self.rightclosed.len(),
                fits_labels(self.rightclosed.len() as int),
                groups.len() == i,
                forall|k: int| 0 <= k < i ==> (#[trigger] groups@[k]).0 == k && groups@[k].1@ == seq![k as Label],
            decreases self.rightclosed.len() - i,
        {
            let mut g: Vec<Label> = Vec::new();
            g.push(i as Label);
            groups.push((i as Label, g));
            i = i + 1;
        }
        self.diagram = d;
        self.diagram_direct = (groups, direct);
    }

    /// Gives each diagram label the text of the set it stands for (see `set_text`), reading
    /// the texts of the original labels and, after them, those of the duplicated labels.
    fn assign_text(&mut self)
        requires
            sorted_strict(mapping_labels(old(self).mapping_oldlabel_text@)),
            old(self).additional_orig@.no_duplicates(),
            forall|j: int| 0 <= j < old(self).additional_orig@.len() ==> !mapping_labels(old(self).mapping_oldlabel_text@).contains(
                #[trigger] old(self).additional_orig@[j],
            ),
            forall|i: int, x: Label| 0 <= i < old(self).mapping_rightclosed_newlabel.len()
                && #[trigger] old(self).mapping_rightclosed_newlabel@[i].0@.contains(x)
                ==> mapping_labels(old(self).mapping_oldlabel_text@).contains(x) || old(self).additional_orig@.contains(x),
        ensures
            final(self).mapping_newlabel_text.len() == old(self).mapping_rightclosed_newlabel.len(),
            forall|i: int| 0 <= i < old(self).mapping_rightclosed_newlabel.len() ==>
                (#[trigger] final(self).mapping_newlabel_text@[i]).0 == old(self).mapping_rightclosed_newlabel@[i].1
                && final(self).mapping_newlabel_text@[i].1@ == set_text(
                    old_texts(old(self).mapping_oldlabel_text@, old(self).additional_orig@),
                    old(self).mapping_rightclosed_newlabel@[i].0@,
                ),
            final(self).rightclosed == old(self).rightclosed,
            final(self).orig_labels == old(self).orig_labels,
            final(self).additional_orig == old(self).additional_orig,
            final(self).diagram == old(self).diagram,
            final(self).mapping_oldlabel_text == old(self).mapping_oldlabel_text,
            final(self).mapping_rightclosed_newlabel == old(self).mapping_rightclosed_newlabel,
            final(self).mapping_label_newlabel == old(self).mapping_label_newlabel,
            final(self).text == old(self).text,
            final(self).diagram_direct == old(self).diagram_direct,
    {
        let ghost ot = old_texts(self.mapping_oldlabel_text@, self.additional_orig@);
        let mut om = copy_texts(&self.mapping_oldlabel_text);
        let mut j: usize = 0;
        while j < self.additional_orig.len()
            invariant
                j <= self.additional_orig.len(),
                ot == old_texts(self.mapping_oldlabel_text@, self.additional_orig@),
                texts_view(om@) == ot.take(self.mapping_oldlabel_text@.len() + j),
            decreases self.additional_orig.len() - j,
        {
            let mut t = chars_of("(dup");
            let d = decimal_exec(j);
            push_all(&mut t, &d);
            t.push(')');
            assert(t@ =~= dup_text(j as nat));
            let st = string_of(&t);
            let ghost om0 = om@;
            om.push((self.additional_orig[j], st));
            proof {
                assert(om@[om@.len() - 1].1@ == dup_text(j as nat));
                assert(texts_view(om@) =~= texts_view(om0).push((self.additional_orig@[j as int], dup_text(j as nat))));
                assert(texts_view(om@) =~= ot.take(self.mapping_oldlabel_text@.len() + j + 1));
            }
            j = j + 1;
        }
        assert(ot.take(self.mapping_oldlabel_text@.len() + j) =~= ot);
        let onechar = one_byte_texts_exec(&om);
        let mut texts: Vec<(Label, String)> = Vec::new();
        let mut i: usize = 0;
        while i < self.mapping_rightclosed_newlabel.len()
            invariant
                i <= self.mapping_rightclosed_newlabel.len(),
                texts_view(om@) == ot,
                onechar == one_byte_texts(ot),
                texts.len() == i,
                forall|k: int| 0 <= k < i ==> (#[trigger] texts@[k]).0 == self.mapping_rightclosed_newlabel@[k].1
                    && texts@[k].1@ == set_text(ot, self.mapping_rightclosed_newlabel@[k].0@),
            decreases self.mapping_rightclosed_newlabel.len() - i,
        {
            let t = set_text_exec(&om, onechar, &self.mapping_rightclosed_newlabel[i].0);
            let st = string_of(&t);
            texts.push((self.mapping_rightclosed_newlabel[i].1, st));
            i = i + 1;
        }
        self.mapping_newlabel_text = texts;
    }
}

/// More right-closed sets are found than the label type can name.
pub open spec fn too_many_sets(labels: Seq<Label>, d: Seq<(Label, Label)>) -> bool {
    exists|v: Seq<Seq<Label>>|
        #[trigger] distinct_sets(v) && family(v) == rcs_family(labels, diagram_closures(labels, d)) && !fits_labels(v.len() as int)
}

/// A copy of a label-to-text mapping.
pub(crate) fn copy_texts(m: &Vec<(Label, String)>) -> (r: Vec<(Label, String)>)
    ensures
        r@ == m@,
{
    let mut r: Vec<(Label, String)> = Vec::new();
    let mut i: usize = 0;
    while i < m.len()
        invariant
            i <= m.len(),
            r@ == m@.take(i as int),
        decreases m.len() - i,
    {
        let t = m[i].1.clone();
        r.push((m[i].0, t));
        assert(r@ =~= m@.take(i + 1));
        i = i + 1;
    }
    assert(m@.take(m.len() as int) =~= m@);
    r
}

impl FixpointDiagram {
    /// Everything but the right-closed sets, the original labels and their texts, and the
    /// duplicated labels follows from them: the right-closed sets are strictly increasing, in
    /// strictly increasing lexicographic order, and numbered in that order; each original label
    /// maps to the first of the smallest sets that hold it; the texts come from `set_text`;
    /// the diagram is strict containment and its direct form the containments with no set
    /// between; and the text is `fixpoint_text`.
    pub open spec fn is_derived(&self) -> bool {
        let rc = views(self.rightclosed@);
        let m = self.mapping_oldlabel_text@;
        let labels = self.orig_labels@;
        &&& self.wf()
        &&& forall|k: int| 0 <= k < rc.len() ==> sorted_strict(#[trigger] rc[k])
        &&& sorted_lex_strict(rc)
        &&& fits_labels(rc.len() as int)
        &&& self.mapping_rightclosed_newlabel@.len() == rc.len()
        &&& forall|i: int| 0 <= i < rc.len() ==> (#[trigger] self.mapping_rightclosed_newlabel@[i]).0@ == rc[i]
            && self.mapping_rightclosed_newlabel@[i].1 == i
        &&& self.mapping_label_newlabel@.len() == labels.len()
        &&& forall|i: int| 0 <= i < labels.len() ==> (#[trigger] self.mapping_label_newlabel@[i]).0 == labels[i]
            && is_smallest_containing(rc, labels[i], self.mapping_label_newlabel@[i].1 as int)
        &&& self.mapping_newlabel_text@.len() == rc.len()
        &&& forall|i: int| 0 <= i < rc.len() ==> (#[trigger] self.mapping_newlabel_text@[i]).0 == i
            && self.mapping_newlabel_text@[i].1@ == set_text(old_texts(m, self.additional_orig@), rc[i])
        &&& pairs_sorted(self.diagram@)
        &&& forall|a: Label, b: Label| #[trigger] self.diagram@.contains((a, b)) <==> superset_edge(rc, a, b)
        &&& self.diagram_direct.0@.len() == rc.len()
        &&& forall|i: int| 0 <= i < rc.len() ==> (#[trigger] self.diagram_direct.0@[i]).0 == i
            && self.diagram_direct.0@[i].1@ == seq![i as Label]
        &&& pairs_sorted(self.diagram_direct.1@)
        &&& forall|a: Label, b: Label| #[trigger] self.diagram_direct.1@.contains((a, b)) <==> covering_edge(rc, a, b)
        &&& self.text@ == fixpoint_text(m, self.mapping_label_newlabel@, self.mapping_newlabel_text@, self.diagram@)
    }

    /// The fixpoint diagram of the labels `labels`, with texts `m`, whose diagram is `d`: no
    /// label is duplicated, the right-closed sets are those of the closures in `d`, and the
    /// rest follows from them (see `is_derived`).
    pub open spec fn is_default_for(&self, labels: Seq<Label>, d: Seq<(Label, Label)>, m: Seq<(Label, String)>) -> bool {
        &&& self.is_derived()
        &&& self.orig_labels@ == labels
        &&& self.additional_orig@.len() == 0
        &&& self.mapping_oldlabel_text@ == m
        &&& family(views(self.rightclosed@)) == rcs_family(labels, diagram_closures(labels, d))
    }

    /// The fixpoint diagram of a problem (see `is_default_for`), or `None` when there are more
    /// right-closed sets than the label type can name.
    pub(crate) fn new(p: &Problem) -> (r: Option<FixpointDiagram>)
        requires
            p.wf(),
            p.diagram_indirect is Some,
            forall|a: Label, b: Label| #[trigger] p.diagram_indirect->Some_0@.contains((a, b))
                ==> mapping_labels(p.mapping_label_text@).contains(b),
        ensures
            match r {
                Some(fd) => fd.is_default_for(
                    mapping_labels(p.mapping_label_text@),
                    p.diagram_indirect->Some_0@,
                    p.mapping_label_text@,
                ),
                None => too_many_sets(mapping_labels(p.mapping_label_text@), p.diagram_indirect->Some_0@),
            },
            r matches Some(fd) ==> forall|i: int, x: Label| 0 <= i < fd.rightclosed@.len() && #[trigger] fd.rightclosed@[i]@.contains(x)
                ==> mapping_labels(p.mapping_label_text@).contains(x),
    {
        let labels = p.labels();
        let d = p.diagram_indirect.as_ref().unwrap();
        let ghost m = p.mapping_label_text@;
        let ghost cls = diagram_closures(labels@, d@);
        let succ = successor_map(&labels, d);
        let rcs = right_closed_subsets(labels.as_slice(), &succ);
        let ghost rc = views(rcs@);
        proof {
            lemma_strict_distinct(rc);
        }
        if rcs.len() > 0 && (rcs.len() - 1) as u64 > 0xFFFF_FFFFu64 {
            proof {
                assert(distinct_sets(rc)) by {
                    assert forall|a: int, b: int| 0 <= a < b < rc.len() implies rc[a] != rc[b] by {
                        assert(rc[a].to_set() != rc[b].to_set());
                    }
                }
            }
            return None;
        }
        proof {
            assert forall|i: int| 0 <= i < labels@.len() implies in_some(rc, #[trigger] labels@[i]) by {
                lemma_rcs_gen_has_closures(labels@, cls, 0, i);
                assert(rcs_family(labels@, cls).contains(cls[i]));
                let k = choose|k: int| 0 <= k < rc.len() && (#[trigger] rc[k]).to_set() == cls[i];
                assert(cls[i].contains(labels@[i]));
                assert(rc[k].to_set().contains(labels@[i]));
            }
            let u = mapping_labels(m).to_set();
            assert forall|k: int| 0 <= k < cls.len() implies (#[trigger] cls[k]).subset_of(u) by {
                assert forall|y: Label| cls[k].contains(y) implies u.contains(y) by {
                    if y != labels@[k] {
                        assert(d@.contains((labels@[k], y)));
                    }
                }
            }
            lemma_rcs_gen_within(labels@, cls, Set::empty(), 0, u);
            assert forall|i: int, x: Label| 0 <= i < rc.len() && #[trigger] rc[i].contains(x) implies mapping_labels(m).contains(x) by {
                assert(family(rc).contains(rc[i].to_set()));
                assert(rc[i].to_set().contains(x));
            }
        }
        let mut fd = FixpointDiagram {
            additional_orig: Vec::new(),
            orig_labels: labels,
            rightclosed: rcs,
            diagram: Vec::new(),
            mapping_oldlabel_text: copy_texts(&p.mapping_label_text),
            mapping_rightclosed_newlabel: Vec::new(),
            mapping_label_newlabel: Vec::new(),
            mapping_newlabel_text: Vec::new(),
            text: String::new(),
            diagram_direct: (Vec::new(), Vec::new()),
        };
        fd.compute_mappings();
        proof {
            assert forall|i: int, x: Label| 0 <= i < fd.mapping_rightclosed_newlabel.len()
                && #[trigger] fd.mapping_rightclosed_newlabel@[i].0@.contains(x) implies mapping_labels(fd.mapping_oldlabel_text@).contains(x) by {
                assert(rc[i].contains(x));
            }
        }
        proof {
            assert(old_texts(fd.mapping_oldlabel_text@, fd.additional_orig@) =~= texts_view(m));
        }
        fd.assign_text();
        fd.compute_diagram();
        proof {
            let n = fd.mapping_newlabel_text@.len();
            assert forall|a: Label, b: Label| #[trigger] fd.diagram@.contains((a, b)) implies !fd.diagram@.contains((b, a)) by {
                if fd.diagram@.contains((b, a)) {
                    assert(rc[a as int].to_set() =~= rc[b as int].to_set());
                }
            }
            assert(crate::constraint::diagram_transitive(fd.diagram@)) by {
                assert forall|x: Label, y: Label, z: Label| #[trigger] fd.diagram@.contains((x, y)) && #[trigger] fd.diagram@.contains((y, z)) && x != z
                    implies fd.diagram@.contains((x, z)) by {
                    assert(superset_edge(rc, x, y));
                    assert(superset_edge(rc, y, z));
                }
            }
            assert forall|i: int| 0 <= i < fd.mapping_label_newlabel@.len() implies
                mapping_labels(fd.mapping_oldlabel_text@).contains((#[trigger] fd.mapping_label_newlabel@[i]).0)
                && fd.mapping_label_newlabel@[i].1 < n by {
                assert(fd.orig_labels@[i] == mapping_labels(m)[i]);
            }
        }
        let ghost rc_before = fd.rightclosed@;
        fd.compute_text();
        proof {
            assert forall|i: int, x: Label| 0 <= i < fd.rightclosed@.len() && #[trigger] fd.rightclosed@[i]@.contains(x)
                implies mapping_labels(p.mapping_label_text@).contains(x) by {
                assert(rc[i] == fd.rightclosed@[i]@);
            }
        }
        Some(fd)
    }
}

/// `q` is the problem `p` restricted to the labels `keep` and cleaned: `p` is restricted to
/// `keep` (`hardened`), its diagram computed (`diagram_computed`), its useless lines and
/// labels dropped (`useless_discarded`), and its diagram computed again.
pub open spec fn cleaned_restriction(q: Problem, p: Problem, keep: Seq<Label>) -> bool {
    exists|h: Problem, m1: Problem, m2: Problem|
        #[trigger] hardened(h, p, keep.to_set()) && #[trigger] diagram_computed(h, m1) && #[trigger] useless_discarded(m1, m2)
            && diagram_computed(m2, q)
}

impl Problem {
    /// Computes the fixpoint diagram (see `FixpointDiagram::is_default_for`) of the problem, or,
    /// given `labels`, of the problem restricted to those labels and cleaned of useless lines
    /// and labels, and keeps it together with `labels`. It stays unset only when there are more
    /// right-closed sets than the label type can name.
    pub fn compute_default_fixpoint_diagram(&mut self, labels: Option<Vec<Label>>)
        requires
            old(self).wf(),
            labels is None ==> old(self).diagram_indirect is Some,
            labels is None ==> forall|a: Label, b: Label| #[trigger] old(self).diagram_indirect->Some_0@.contains((a, b))
                ==> mapping_labels(old(self).mapping_label_text@).contains(b),
        ensures
            final(self).active == old(self).active,
            final(self).passive == old(self).passive,
            final(self).mapping_label_text == old(self).mapping_label_text,
            final(self).mapping_label_oldlabels == old(self).mapping_label_oldlabels,
            final(self).trivial_sets == old(self).trivial_sets,
            final(self).diagram_indirect == old(self).diagram_indirect,
            final(self).diagram_direct == old(self).diagram_direct,
            labels is None ==> match final(self).fixpoint_diagram {
                Some((l, fd)) => l is None && fd.is_default_for(
                    mapping_labels(old(self).mapping_label_text@),
                    old(self).diagram_indirect->Some_0@,
                    old(self).mapping_label_text@,
                ),
                None => too_many_sets(mapping_labels(old(self).mapping_label_text@), old(self).diagram_indirect->Some_0@),
            },
            labels matches Some(sub) ==> exists|q: Problem| #[trigger] cleaned_restriction(q, *old(self), sub@) && match final(self).fixpoint_diagram {
                Some((l, fd)) => l == labels && fd.is_default_for(
                    mapping_labels(q.mapping_label_text@),
                    q.diagram_indirect->Some_0@,
                    q.mapping_label_text@,
                ),
                None => too_many_sets(mapping_labels(q.mapping_label_text@), q.diagram_indirect->Some_0@),
            },
    {
        match labels {
            Some(sub) => {
                let mut q = self.harden(&sub);
                let ghost h = q;
                q.compute_diagram();
                let ghost m1 = q;
                q.discard_useless_stuff();
                let ghost m2 = q;
                q.compute_diagram();
                let fd = FixpointDiagram::new(&q);
                proof {
                    assert(hardened(h, *self, sub@.to_set()) && diagram_computed(h, m1) && useless_discarded(m1, m2)
                        && diagram_computed(m2, q));
                    assert(cleaned_restriction(q, *self, sub@));
                }
                match fd {
                    Some(fd) => {
                        self.fixpoint_diagram = Some((Some(sub), fd));
                    },
                    None => {
                        self.fixpoint_diagram = None;
                    },
                }
            },
            None => {
                let fd = FixpointDiagram::new(self);
                match fd {
                    Some(fd) => {
                        self.fixpoint_diagram = Some((None, fd));
                    },
                    None => {
                        self.fixpoint_diagram = None;
                    },
                }
            },
        }
    }
}

impl FixpointDiagram {
    /// Duplicates groups of diagram labels. The groups are taken in turn, each with a fresh
    /// original label (after the largest original label): every set that is a copy of a set of
    /// the group (holds it, and otherwise only earlier fresh labels) stays and gets a duplicate
    /// with the fresh label; every other set that holds a set of the group gets the fresh label
    /// (see `dup_step`). The resulting distinct sets become the right-closed sets, the fresh
    /// labels the duplicated labels (with texts `(dup0)`, `(dup1)`, ...), and the rest of the
    /// diagram is computed again from them (see `is_derived`).
    pub fn duplicate_labels(&mut self, groups: &Vec<Vec<Label>>)
        requires
            old(self).is_derived(),
            old(self).additional_orig@.len() == 0,
            old(self).mapping_oldlabel_text@.len() > 0,
            max_label(old(self).mapping_oldlabel_text@) + groups@.len() < u32::MAX,
            forall|k: int, j: int| 0 <= k < groups@.len() && 0 <= j < groups@[k]@.len() ==> #[trigger] groups@[k]@[j] < old(self).rightclosed@.len(),
            forall|i: int, x: Label| 0 <= i < old(self).rightclosed@.len() && #[trigger] old(self).rightclosed@[i]@.contains(x)
                ==> mapping_labels(old(self).mapping_oldlabel_text@).contains(x),
            fits_labels(
                dup_all(
                    set_views(old(self).rightclosed@),
                    group_sets(groups@.map_values(|g: Vec<Label>| g@), views(old(self).rightclosed@)),
                    (max_label(old(self).mapping_oldlabel_text@) + 1) as nat,
                    0,
                ).len() as int,
            ),
        ensures
            final(self).is_derived(),
            final(self).orig_labels == old(self).orig_labels,
            final(self).mapping_oldlabel_text == old(self).mapping_oldlabel_text,
            final(self).additional_orig@ == Seq::new(
                groups@.len(),
                |k: int| (max_label(old(self).mapping_oldlabel_text@) + 1 + k) as Label,
            ),
            family(views(final(self).rightclosed@)) == dup_all(
                set_views(old(self).rightclosed@),
                group_sets(groups@.map_values(|g: Vec<Label>| g@), views(old(self).rightclosed@)),
                (max_label(old(self).mapping_oldlabel_text@) + 1) as nat,
                0,
            ).to_set(),
    {
        let ghost m = self.mapping_oldlabel_text@;
        let ghost rc0 = views(self.rightclosed@);
        let ghost init = set_views(self.rightclosed@);
        let ghost ol = self.orig_labels@;
        assert forall|z: int| 0 <= z < ol.len() implies mapping_labels(m).contains(#[trigger] ol[z]) by {
            assert(self.mapping_label_newlabel@[z].0 == ol[z]);
        }
        let ghost gv = groups@.map_values(|g: Vec<Label>| g@);
        let ghost gsets = group_sets(gv, rc0);
        let f0 = max_label_exec(&self.mapping_oldlabel_text) + 1;
        let ghost target = dup_all(init, gsets, f0 as nat, 0);
        let mut sets: Vec<Vec<Label>> = Vec::new();
        let mut i: usize = 0;
        while i < self.rightclosed.len()
            invariant
                i <= self.rightclosed.len(),
                rc0 == views(self.rightclosed@),
                init == set_views(self.rightclosed@),
                set_views(sets@) == init.take(i as int),
                forall|k: int| 0 <= k < sets@.len() ==> sorted_strict(#[trigger] sets@[k]@),
                self.is_derived(),
            decreases self.rightclosed.len() - i,
        {
            let c = copy_labels(&self.rightclosed[i]);
            assert(rc0[i as int] == self.rightclosed@[i as int]@);
            let ghost s0 = set_views(sets@);
            sets.push(c);
            assert(set_views(sets@) =~= s0.push(c@.to_set()));
            assert(set_views(sets@) =~= init.take(i + 1));
            i = i + 1;
        }
        assert(init.take(i as int) =~= init);
        let mut added: Vec<Label> = Vec::new();
        let mut fresh: Label = f0;
        let mut k: usize = 0;
        while k < groups.len()
            invariant
                k <= groups.len(),
                f0 as int == max_label(m) + 1,
                f0 + groups@.len() <= u32::MAX,
                fresh == f0 + k,
                m == self.mapping_oldlabel_text@,
                rc0 == views(self.rightclosed@),
                gv == groups@.map_values(|g: Vec<Label>| g@),
                gsets == group_sets(gv, rc0),
                target == dup_all(init, gsets, f0 as nat, 0),
                dup_all(set_views(sets@), gsets, f0 as nat, k as nat) == target,
                added@ == Seq::new(k as nat, |j: int| (f0 + j) as Label),
                forall|q: int| 0 <= q < sets@.len() ==> sorted_strict(#[trigger] sets@[q]@),
                forall|q: int, j: int| 0 <= q < groups@.len() && 0 <= j < groups@[q]@.len() ==> #[trigger] groups@[q]@[j] < self.rightclosed@.len(),
                self.is_derived(),
            decreases groups.len() - k,
        {
            let group = &groups[k];
            let mut gs: Vec<Vec<Label>> = Vec::new();
            let mut j: usize = 0;
            while j < group.len()
                invariant
                    k < groups.len(),
                    j <= group.len(),
                    group == &groups@[k as int],
                    rc0 == views(self.rightclosed@),
                    forall|q: int, j2: int| 0 <= q < groups@.len() && 0 <= j2 < groups@[q]@.len() ==> #[trigger] groups@[q]@[j2] < self.rightclosed@.len(),
                    set_views(gs@) == group@.take(j as int).map_values(|l: Label| rc0[l as int].to_set()),
                    forall|q: int| 0 <= q < gs@.len() ==> sorted_strict(#[trigger] gs@[q]@),
                    self.is_derived(),
                decreases group.len() - j,
            {
                assert(groups@[k as int]@[j as int] == group@[j as int]);
                assert(groups@[k as int]@[j as int] < self.rightclosed@.len());
                let l = group[j] as usize;
                let c = copy_labels(&self.rightclosed[l]);
                assert(rc0[l as int] == self.rightclosed@[l as int]@);
                let ghost g0 = set_views(gs@);
                gs.push(c);
                assert(set_views(gs@) =~= g0.push(c@.to_set()));
                assert(group@.take(j + 1) =~= group@.take(j as int).push(group@[j as int]));
                assert(set_views(gs@) =~= group@.take(j + 1).map_values(|l: Label| rc0[l as int].to_set()));
                j = j + 1;
            }
            assert(group@.take(j as int) =~= group@);
            assert(set_views(gs@) =~= gsets[k as int]);
            let ghost grp = gsets[k as int];
            let ghost ad = fresh_labels(f0 as nat, k as nat);
            assert(added@.to_set() =~= ad) by {
                assert forall|x: Label| added@.to_set().contains(x) <==> ad.contains(x) by {
                    if ad.contains(x) {
                        assert(added@[x - f0] == x);
                    }
                }
            }
            let ghost cur = set_views(sets@);
            let mut kept: Vec<Vec<Label>> = Vec::new();
            let mut extra: Vec<Vec<Label>> = Vec::new();
            let mut q: usize = 0;
            while q < sets.len()
                invariant
                    q <= sets.len(),
                    cur == set_views(sets@),
                    grp == set_views(gs@),
                    ad == added@.to_set(),
                    set_views(kept@) == cur.take(q as int).map_values(kept_by(grp, ad, fresh)),
                    set_views(extra@) == cur.take(q as int).filter(copied_by(grp, ad)).map_values(with_label(fresh)),
                    forall|z: int| 0 <= z < sets@.len() ==> sorted_strict(#[trigger] sets@[z]@),
                    forall|z: int| 0 <= z < kept@.len() ==> sorted_strict(#[trigger] kept@[z]@),
                    forall|z: int| 0 <= z < extra@.len() ==> sorted_strict(#[trigger] extra@[z]@),
                decreases sets.len() - q,
            {
                let ghost c0 = cur[q as int];
                assert(c0 == sets@[q as int]@.to_set());
                let ghost kept0 = set_views(kept@);
                let ghost extra0 = set_views(extra@);
                let cs = copies_some_exec(&sets[q], &gs, &added);
                if cs {
                    let c = copy_labels(&sets[q]);
                    kept.push(c);
                    let mut d = copy_labels(&sets[q]);
                    insert_sorted(&mut d, fresh);
                    extra.push(d);
                    proof {
                        assert(set_views(extra@) =~= extra0.push(c0.insert(fresh)));
                    }
                } else if holds_some_exec(&sets[q], &gs) {
                    let mut d = copy_labels(&sets[q]);
                    insert_sorted(&mut d, fresh);
                    kept.push(d);
                } else {
                    let c = copy_labels(&sets[q]);
                    kept.push(c);
                }
                proof {
                    let t1 = cur.take(q + 1);
                    assert(t1 =~= cur.take(q as int).push(c0));
                    assert(set_views(kept@) =~= kept0.push(dup_kept(c0, grp, ad, fresh)));
                    assert(t1.map_values(kept_by(grp, ad, fresh)) =~= cur.take(q as int).map_values(kept_by(grp, ad, fresh)).push(
                        dup_kept(c0, grp, ad, fresh),
                    ));
                    cur.take(q as int).lemma_filter_push(c0, copied_by(grp, ad));
                    if cs {
                        assert(t1.filter(copied_by(grp, ad)).map_values(with_label(fresh)) =~= cur.take(q as int).filter(
                            copied_by(grp, ad),
                        ).map_values(with_label(fresh)).push(c0.insert(fresh)));
                    } else {
                        assert(set_views(extra@) == extra0);
                    }
                }
                q = q + 1;
            }
            proof {
                assert(cur.take(q as int) =~= cur);
            }
            let mut next: Vec<Vec<Label>> = kept;
            let mut e: usize = 0;
            let ghost kv = set_views(next@);
            while e < extra.len()
                invariant
                    e <= extra.len(),
                    set_views(next@) == kv + set_views(extra@).take(e as int),
                    forall|z: int| 0 <= z < next@.len() ==> sorted_strict(#[trigger] next@[z]@),
                    forall|z: int| 0 <= z < extra@.len() ==> sorted_strict(#[trigger] extra@[z]@),
                decreases extra.len() - e,
            {
                let c = copy_labels(&extra[e]);
                let ghost n0 = set_views(next@);
                next.push(c);
                assert(set_views(next@) =~= n0.push(c@.to_set()));
                assert(set_views(extra@).take(e + 1) =~= set_views(extra@).take(e as int).push(extra@[e as int]@.to_set()));
                assert(set_views(next@) =~= kv + set_views(extra@).take(e + 1));
                e = e + 1;
            }
            proof {
                assert(set_views(extra@).take(e as int) =~= set_views(extra@));
                assert(set_views(next@) =~= dup_step(cur, grp, ad, fresh));
                assert(dup_all(cur, gsets, f0 as nat, k as nat) == dup_all(dup_step(cur, grp, ad, fresh), gsets, f0 as nat, (k + 1) as nat));
            }
            sets = next;
            added.push(fresh);
            assert(added@ =~= Seq::new((k + 1) as nat, |j: int| (f0 + j) as Label));
            fresh = fresh + 1;
            k = k + 1;
        }
        assert(dup_all(set_views(sets@), gsets, f0 as nat, k as nat) == set_views(sets@));
        // the distinct sets, in order
        let ghost sv = views(sets@);
        let sorted = sort_lex(sets);
        let ghost srt = views(sorted@);
        proof {
            let inv = choose|inv: Seq<int>| #[trigger] reorders(srt, sv, inv) && forall|t: int| 0 <= t < sv.len() ==> #[trigger] is_hit(inv, sv.len() as int, t);
            assert forall|z: int| 0 <= z < sv.len() implies srt.contains(#[trigger] sv[z]) by {
                assert(srt[inv[z]] == sv[z]);
            }
        }
        let r = dedup_sorted(sorted);
        let ghost rv = views(r@);
        proof {
            assert forall|z: int| 0 <= z < rv.len() implies sv.contains(#[trigger] rv[z]) by {
                let w = choose|w: int| 0 <= w < srt.len() && srt[w] == rv[z];
            }
            assert forall|z: int| 0 <= z < sv.len() implies rv.contains(#[trigger] sv[z]) by {
                assert(srt.contains(sv[z]));
                let w = choose|w: int| 0 <= w < srt.len() && srt[w] == sv[z];
            }
            lemma_same_family(rv, sv);
            assert forall|z: int| 0 <= z < rv.len() implies sorted_strict(#[trigger] rv[z]) by {
                let w = choose|w: int| 0 <= w < sv.len() && sv[w] == rv[z];
            }
            assert(family(sv) =~= target.to_set()) by {
                assert forall|t: Set<Label>| family(sv).contains(t) <==> target.to_set().contains(t) by {
                    if family(sv).contains(t) {
                        let w = choose|w: int| 0 <= w < sv.len() && (#[trigger] sv[w]).to_set() == t;
                        assert(target[w] == t);
                    }
                    if target.to_set().contains(t) {
                        let w = choose|w: int| 0 <= w < target.len() && target[w] == t;
                        assert(sv[w].to_set() == t);
                    }
                }
            }
            assert(rv.len() <= sv.len());
            lemma_strict_distinct(rv);
            // each original label is in some set, and every label of a set has a text
            let u = mapping_labels(m).to_set().union(fresh_labels(f0 as nat, groups@.len() as nat));
            assert forall|z: int| 0 <= z < init.len() implies (#[trigger] init[z]).subset_of(u) by {
                assert forall|x: Label| init[z].contains(x) implies u.contains(x) by {
                    assert(self.rightclosed@[z]@.to_set().contains(x));
                    assert(self.rightclosed@[z]@.contains(x));
                }
            }
            assert forall|j: nat| 0 <= j < gsets.len() implies u.contains(#[trigger] ((f0 + j) as Label)) by {}
            lemma_dup_all_within(init, gsets, f0 as nat, 0, u);
            assert forall|z: int| 0 <= z < self.orig_labels@.len() implies in_some(rv, #[trigger] self.orig_labels@[z]) by {
                let mi = self.mapping_label_newlabel@[z].1 as int;
                assert(is_smallest_containing(rc0, self.orig_labels@[z], mi));
                lemma_dup_all_grows(init, gsets, f0 as nat, 0, mi);
                assert(init[mi].contains(self.orig_labels@[z]));
                assert(target.to_set().contains(target[mi]));
                assert(family(rv).contains(target[mi]));
                let w = choose|w: int| 0 <= w < rv.len() && (#[trigger] rv[w]).to_set() == target[mi];
                assert(rv[w].to_set().contains(self.orig_labels@[z]));
            }
            assert forall|z: int, x: Label| 0 <= z < rv.len() && #[trigger] rv[z].contains(x)
                implies mapping_labels(m).contains(x) || Seq::new(groups@.len() as nat, |j: int| (f0 + j) as Label).contains(x) by {
                assert(family(rv).contains(rv[z].to_set()));
                let w = choose|w: int| 0 <= w < target.len() && target[w] == rv[z].to_set();
                assert(target[w].subset_of(u));
                assert(u.contains(x));
                if !mapping_labels(m).contains(x) {
                    assert(Seq::new(groups@.len() as nat, |j: int| (f0 + j) as Label)[x - f0] == x);
                }
            }
        }
        self.rightclosed = r;
        self.additional_orig = added;
        self.compute_mappings();
        proof {
            assert forall|z: int, x: Label| 0 <= z < self.mapping_rightclosed_newlabel.len()
                && #[trigger] self.mapping_rightclosed_newlabel@[z].0@.contains(x) implies mapping_labels(self.mapping_oldlabel_text@).contains(x)
                || self.additional_orig@.contains(x) by {
                assert(rv[z].contains(x));
            }
            assert forall|z: int| 0 <= z < self.additional_orig@.len() implies !mapping_labels(self.mapping_oldlabel_text@).contains(
                #[trigger] self.additional_orig@[z],
            ) by {
                if mapping_labels(m).contains(self.additional_orig@[z]) {
                    let w = choose|w: int| 0 <= w < mapping_labels(m).len() && mapping_labels(m)[w] == self.additional_orig@[z];
                    assert(m[w].0 <= max_label(m)) by {
                        lemma_max_label(m, w);
                    }
                }
            }
        }
        self.assign_text();
        self.compute_diagram();
        proof {
            let n = self.mapping_newlabel_text@.len();
            assert forall|a: Label, b: Label| #[trigger] self.diagram@.contains((a, b)) implies !self.diagram@.contains((b, a)) by {
                if self.diagram@.contains((b, a)) {
                    assert(rv[a as int].to_set() =~= rv[b as int].to_set());
                }
            }
            assert(crate::constraint::diagram_transitive(self.diagram@)) by {
                assert forall|x: Label, y: Label, z: Label| #[trigger] self.diagram@.contains((x, y)) && #[trigger] self.diagram@.contains((y, z)) && x != z
                    implies self.diagram@.contains((x, z)) by {
                    assert(superset_edge(rv, x, y));
                    assert(superset_edge(rv, y, z));
                }
            }
            assert forall|z: int| 0 <= z < self.mapping_label_newlabel@.len() implies
                mapping_labels(self.mapping_oldlabel_text@).contains((#[trigger] self.mapping_label_newlabel@[z]).0)
                && self.mapping_label_newlabel@[z].1 < n by {
                assert(mapping_labels(m).contains(ol[z]));
            }
        }
        self.compute_text();
    }
}

/// The largest label is at least every label of the mapping.
proof fn lemma_max_label(m: Seq<(Label, String)>, i: int)
    requires
        0 <= i < m.len(),
    ensures
        m[i].0 <= max_label(m),
    decreases m.len(),
{
    if m.len() > 1 && i < m.len() - 1 {
        lemma_max_label(m.drop_last(), i);
    }
}

/// A strictly increasing sequence holds as many labels as its set, and its set is finite.
proof fn lemma_sorted_len(s: Seq<Label>)
    requires
        sorted_strict(s),
    ensures
        s.to_set().len() == s.len(),
        s.to_set().finite(),
{
    assert(s.no_duplicates()) by {
        assert forall|a: int, b: int| 0 <= a < s.len() && 0 <= b < s.len() && a != b implies s[a] != s[b] by {
            if a < b {
                assert(s[a] < s[b]);
            } else {
                assert(s[b] < s[a]);
            }
        }
    }
    s.unique_seq_to_set();
    vstd::seq_lib::seq_to_set_is_finite(s);
}

/// With transitive closures that hold their own labels, the first of the smallest found sets
/// that hold a label is that label's closure.
pub proof fn lemma_smallest_is_closure(labels: Seq<Label>, cls: Seq<Set<Label>>, rc: Seq<Seq<Label>>, i: int, m: int)
    requires
        cls.len() == labels.len(),
        closures_transitive(labels, cls),
        forall|k: int| 0 <= k < cls.len() ==> #[trigger] cls[k].contains(labels[k]),
        forall|k: int| 0 <= k < rc.len() ==> sorted_strict(#[trigger] rc[k]),
        family(rc) == rcs_family(labels, cls),
        0 <= i < labels.len(),
        is_smallest_containing(rc, labels[i], m),
    ensures
        rc[m].to_set() == cls[i],
{
    lemma_rcs_gen_has_closures(labels, cls, 0, i);
    assert(rcs_family(labels, cls).contains(cls[i]));
    let k = choose|k: int| 0 <= k < rc.len() && (#[trigger] rc[k]).to_set() == cls[i];
    assert(rc[k].to_set().contains(labels[i]));
    assert(rc[k].contains(labels[i]));
    assert(rc[m].len() <= rc[k].len());
    assert(family(rc).contains(rc[m].to_set()));
    lemma_right_closed_subsets_closed(labels, cls);
    assert(right_closed(rc[m].to_set(), labels, cls));
    assert(rc[m].to_set().contains(labels[i]));
    assert(cls[i].subset_of(rc[m].to_set()));
    lemma_sorted_len(rc[m]);
    lemma_sorted_len(rc[k]);
    vstd::set_lib::lemma_len_subset(cls[i], rc[m].to_set());
    vstd::set_lib::lemma_subset_equality(cls[i], rc[m].to_set());
}

/// The closures of a transitive diagram are transitive, finite, and hold their own labels.
pub proof fn lemma_diagram_closures(labels: Seq<Label>, d: Seq<(Label, Label)>)
    requires
        crate::constraint::diagram_transitive(d),
    ensures
        closures_transitive(labels, diagram_closures(labels, d)),
        forall|k: int| 0 <= k < labels.len() ==> #[trigger] diagram_closures(labels, d)[k].contains(labels[k]),
        forall|k: int| 0 <= k < labels.len() ==> #[trigger] diagram_closures(labels, d)[k].finite(),
{
    let cls = diagram_closures(labels, d);
    assert forall|i: int, k: int|
        0 <= i < labels.len() && 0 <= k < labels.len() && #[trigger] cls[i].contains(#[trigger] labels[k]) implies cls[k].subset_of(cls[i]) by {
        assert forall|y: Label| cls[k].contains(y) implies cls[i].contains(y) by {
            if y != labels[k] && y != labels[i] && labels[k] != labels[i] {
                assert(d.contains((labels[i], labels[k])));
                assert(d.contains((labels[k], y)));
            }
        }
    }
    assert forall|k: int| 0 <= k < labels.len() implies #[trigger] cls[k].finite() by {
        let ends = d.map_values(|p: (Label, Label)| p.1).to_set().insert(labels[k]);
        vstd::seq_lib::seq_to_set_is_finite(d.map_values(|p: (Label, Label)| p.1));
        assert forall|y: Label| cls[k].contains(y) implies ends.contains(y) by {
            if y != labels[k] {
                let j = choose|j: int| 0 <= j < d.len() && d[j] == (labels[k], y);
                assert(d.map_values(|p: (Label, Label)| p.1)[j] == y);
            }
        }
        vstd::set_lib::lemma_len_subset(cls[k], ends);
    }
}

/// In the default fixpoint diagram of a transitive diagram, each original label maps to the
/// diagram label of its own closure: the set of itself and the labels it has an edge to.
pub proof fn lemma_default_maps_to_closures(
    fd: FixpointDiagram,
    labels: Seq<Label>,
    d: Seq<(Label, Label)>,
    m: Seq<(Label, String)>,
    i: int,
)
    requires
        fd.is_default_for(labels, d, m),
        crate::constraint::diagram_transitive(d),
        0 <= i < labels.len(),
    ensures
        views(fd.rightclosed@)[fd.mapping_label_newlabel@[i].1 as int].to_set() == diagram_closures(labels, d)[i],
{
    lemma_diagram_closures(labels, d);
    assert(fd.mapping_label_newlabel@[i].0 == labels[i]);
    lemma_smallest_is_closure(
        labels,
        diagram_closures(labels, d),
        views(fd.rightclosed@),
        i,
        fd.mapping_label_newlabel@[i].1 as int,
    );
}

/// In the default fixpoint diagram of a transitive diagram whose edges end at the labels, the
/// diagram labels stand exactly for the right-closed sets of labels: the sets of labels that,
/// with each label, hold all the labels it has an edge to.
pub proof fn lemma_default_sets_are_right_closed(
    fd: FixpointDiagram,
    labels: Seq<Label>,
    d: Seq<(Label, Label)>,
    m: Seq<(Label, String)>,
    t: Set<Label>,
)
    requires
        fd.is_default_for(labels, d, m),
        crate::constraint::diagram_transitive(d),
        forall|a: Label, b: Label| #[trigger] d.contains((a, b)) ==> labels.contains(b),
    ensures
        family(views(fd.rightclosed@)).contains(t) <==> t.subset_of(labels.to_set()) && right_closed(
            t,
            labels,
            diagram_closures(labels, d),
        ),
{
    let cls = diagram_closures(labels, d);
    lemma_diagram_closures(labels, d);
    lemma_right_closed_subsets_closed(labels, cls);
    if t.subset_of(labels.to_set()) && right_closed(t, labels, cls) {
        lemma_right_closed_subsets_complete(labels, cls, t);
    }
    if family(views(fd.rightclosed@)).contains(t) {
        let u = labels.to_set();
        assert forall|k: int| 0 <= k < cls.len() implies (#[trigger] cls[k]).subset_of(u) by {
            assert forall|y: Label| cls[k].contains(y) implies u.contains(y) by {
                if y != labels[k] {
                    assert(d.contains((labels[k], y)));
                }
            }
        }
        lemma_rcs_gen_within(labels, cls, Set::empty(), 0, u);
    }
}

/// A copy of a list of label vectors.
fn copy_label_lists(v: &Vec<Vec<Label>>) -> (r: Vec<Vec<Label>>)
    ensures
        views(r@) == views(v@),
{
    let mut r: Vec<Vec<Label>> = Vec::new();
    let mut i: usize = 0;
    while i < v.len()
        invariant
            i <= v.len(),
            views(r@) == views(v@).subrange(0, i as int),
        decreases v.len() - i,
    {
        let ghost r0 = views(r@);
        let x = copy_labels(&v[i]);
        r.push(x);
        assert(views(r@) =~= r0.push(x@));
        assert(views(v@).subrange(0, i + 1) =~= views(v@).subrange(0, i as int).push(v@[i as int]@));
        i = i + 1;
    }
    assert(views(v@).subrange(0, v.len() as int) =~= views(v@));
    r
}

/// A copy of a list of label vectors, each with a label.
fn copy_tagged<T: Copy>(v: &Vec<(Vec<Label>, T)>) -> (r: Vec<(Vec<Label>, T)>)
    ensures
        r@.len() == v@.len(),
        forall|i: int| 0 <= i < v@.len() ==> (#[trigger] r@[i]).0@ == v@[i].0@ && r@[i].1 == v@[i].1,
{
    let mut r: Vec<(Vec<Label>, T)> = Vec::new();
    let mut i: usize = 0;
    while i < v.len()
        invariant
            i <= v.len(),
            r@.len() == i,
            forall|k: int| 0 <= k < i ==> (#[trigger] r@[k]).0@ == v@[k].0@ && r@[k].1 == v@[k].1,
        decreases v.len() - i,
    {
        let x = copy_labels(&v[i].0);
        r.push((x, v[i].1));
        i = i + 1;
    }
    r
}

/// A copy of a list of labels, each with a label vector.
fn copy_groups(v: &Vec<(Label, Vec<Label>)>) -> (r: Vec<(Label, Vec<Label>)>)
    ensures
        r@.len() == v@.len(),
        forall|i: int| 0 <= i < v@.len() ==> (#[trigger] r@[i]).1@ == v@[i].1@ && r@[i].0 == v@[i].0,
{
    let mut r: Vec<(Label, Vec<Label>)> = Vec::new();
    let mut i: usize = 0;
    while i < v.len()
        invariant
            i <= v.len(),
            r@.len() == i,
            forall|k: int| 0 <= k < i ==> (#[trigger] r@[k]).1@ == v@[k].1@ && r@[k].0 == v@[k].0,
        decreases v.len() - i,
    {
        let x = copy_labels(&v[i].1);
        r.push((v[i].0, x));
        i = i + 1;
    }
    r
}

impl FixpointDiagram {
    /// A copy of the fixpoint diagram: every field holds the same values.
    pub fn copy(&self) -> (r: FixpointDiagram)
        ensures
            r.additional_orig@ == self.additional_orig@,
            r.orig_labels@ == self.orig_labels@,
            views(r.rightclosed@) == views(self.rightclosed@),
            r.diagram@ == self.diagram@,
            r.mapping_oldlabel_text@ == self.mapping_oldlabel_text@,
            r.mapping_rightclosed_newlabel@.len() == self.mapping_rightclosed_newlabel@.len(),
            forall|i: int| 0 <= i < self.mapping_rightclosed_newlabel@.len() ==> (#[trigger] r.mapping_rightclosed_newlabel@[i]).0@
                == self.mapping_rightclosed_newlabel@[i].0@ && r.mapping_rightclosed_newlabel@[i].1 == self.mapping_rightclosed_newlabel@[i].1,
            r.mapping_label_newlabel@ == self.mapping_label_newlabel@,
            r.mapping_newlabel_text@ == self.mapping_newlabel_text@,
            r.text@ == self.text@,
            r.diagram_direct.0@.len() == self.diagram_direct.0@.len(),
            forall|i: int| 0 <= i < self.diagram_direct.0@.len() ==> (#[trigger] r.diagram_direct.0@[i]).1@
                == self.diagram_direct.0@[i].1@ && r.diagram_direct.0@[i].0 == self.diagram_direct.0@[i].0,
            r.diagram_direct.1@ == self.diagram_direct.1@,
            self.is_derived() ==> r.is_derived(),
            forall|i: int, x: Label| 0 <= i < r.rightclosed@.len() && #[trigger] r.rightclosed@[i]@.contains(x)
                ==> self.rightclosed@[i]@.contains(x),
    {
        let r = FixpointDiagram {
            additional_orig: copy_labels(&self.additional_orig),
            orig_labels: copy_labels(&self.orig_labels),
            rightclosed: copy_label_lists(&self.rightclosed),
            diagram: copy_pairs(&self.diagram),
            mapping_oldlabel_text: copy_texts(&self.mapping_oldlabel_text),
            mapping_rightclosed_newlabel: copy_tagged(&self.mapping_rightclosed_newlabel),
            mapping_label_newlabel: copy_pairs(&self.mapping_label_newlabel),
            mapping_newlabel_text: copy_texts(&self.mapping_newlabel_text),
            text: self.text.clone(),
            diagram_direct: (copy_groups(&self.diagram_direct.0), copy_pairs(&self.diagram_direct.1)),
        };
        proof {
            assert forall|i: int, x: Label| 0 <= i < r.rightclosed@.len() && #[trigger] r.rightclosed@[i]@.contains(x)
                implies self.rightclosed@[i]@.contains(x) by {
                assert(views(r.rightclosed@).len() == views(self.rightclosed@).len());
                assert(views(r.rightclosed@)[i] == r.rightclosed@[i]@);
                assert(views(self.rightclosed@)[i] == self.rightclosed@[i]@);
            }
            if self.is_derived() {
                let rc = views(self.rightclosed@);
                assert forall|i: int| 0 <= i < rc.len() implies (#[trigger] r.mapping_rightclosed_newlabel@[i]).0@ == rc[i]
                    && r.mapping_rightclosed_newlabel@[i].1 == i by {
                    assert(self.mapping_rightclosed_newlabel@[i].0@ == rc[i]);
                }
                assert forall|i: int| 0 <= i < rc.len() implies (#[trigger] r.diagram_direct.0@[i]).0 == i
                    && r.diagram_direct.0@[i].1@ == seq![i as Label] by {
                    assert(self.diagram_direct.0@[i].1@ == seq![i as Label]);
                }
            }
        }
        r
    }
}

/// `n` doubled `k` times.
pub open spec fn doubling(n: nat, k: nat) -> nat
    decreases k,
{
    if k == 0 {
        n
    } else {
        2 * doubling(n, (k - 1) as nat)
    }
}

/// Doubling keeps the order of numbers, and doubling first is doubling once more.
proof fn lemma_doubling(a: nat, b: nat, k: nat)
    requires
        a <= b,
    ensures
        doubling(a, k) <= doubling(b, k),
        doubling(2 * a, k) == doubling(a, k + 1),
    decreases k,
{
    if k > 0 {
        lemma_doubling(a, b, (k - 1) as nat);
        assert(doubling(2 * a, k) == 2 * doubling(2 * a, (k - 1) as nat));
        assert(doubling(a, k + 1) == 2 * doubling(a, k));
        assert(doubling(a, k) == 2 * doubling(a, (k - 1) as nat));
    }
}

/// Duplicating `k` groups at most doubles the number of sets `k` times.
pub proof fn lemma_dup_all_len(sets: Seq<Set<Label>>, gsets: Seq<Seq<Set<Label>>>, f0: nat, k: nat)
    requires
        k <= gsets.len(),
    ensures
        dup_all(sets, gsets, f0, k).len() <= doubling(sets.len(), (gsets.len() - k) as nat),
    decreases gsets.len() - k,
{
    if k < gsets.len() {
        let grp = gsets[k as int];
        let added = fresh_labels(f0, k);
        let s1 = dup_step(sets, grp, added, (f0 + k) as Label);
        broadcast use vstd::seq_lib::group_filter_ensures;
        assert(sets.filter(copied_by(grp, added)).len() <= sets.len());
        assert(s1.len() <= 2 * sets.len());
        lemma_dup_all_len(s1, gsets, f0, k + 1);
        lemma_doubling(s1.len(), 2 * sets.len(), (gsets.len() - k - 1) as nat);
        lemma_doubling(sets.len(), sets.len(), (gsets.len() - k - 1) as nat);
        assert((gsets.len() - k - 1) as nat + 1 == (gsets.len() - k) as nat);
    }
}

} // verus!
