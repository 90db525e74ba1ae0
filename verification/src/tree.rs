//! Expressions over labels built with two operations, as the fixpoint procedure records
//! how new labels arise from old ones.
use vstd::prelude::*;
use std::collections::HashMap;
use crate::labels::Label;
use crate::text::{decimal, decimal_exec, push_all, string_of};

verus! {

/// How two expressions are combined.
#[derive(Clone, Copy, Debug, PartialEq, Eq, Hash, Structural)]
pub enum Operation {
    Union,
    Intersection,
}

/// An expression: a label, or two expressions combined by an operation.
#[derive(Debug)]
pub enum TreeNode {
    Terminal(Label),
    Expr(Box<TreeNode>, Box<TreeNode>, Operation),
}

/// The number of nodes of the expression.
pub open spec fn size(t: TreeNode) -> nat
    decreases t,
{
    match t {
        TreeNode::Terminal(_) => 1,
        TreeNode::Expr(a, b, _) => 1 + size(*a) + size(*b),
    }
}

/// The labels that the expression stands for: an `Intersection` node joins the labels of its
/// two sides, a `Union` node keeps the labels they share.
pub open spec fn result_set(t: TreeNode) -> Set<Label>
    decreases t,
{
    match t {
        TreeNode::Terminal(x) => set![x],
        TreeNode::Expr(a, b, op) => if op == Operation::Intersection {
            result_set(*a).union(result_set(*b))
        } else {
            result_set(*a).intersect(result_set(*b))
        },
    }
}

/// The other operation.
pub open spec fn other_op(op: Operation) -> Operation {
    if op == Operation::Intersection {
        Operation::Union
    } else {
        Operation::Intersection
    }
}

/// The expression with every operation swapped.
pub open spec fn flip_tree(t: TreeNode) -> TreeNode
    decreases t,
{
    match t {
        TreeNode::Terminal(x) => TreeNode::Terminal(x),
        TreeNode::Expr(a, b, op) => TreeNode::Expr(Box::new(flip_tree(*a)), Box::new(flip_tree(*b)), other_op(op)),
    }
}

/// One pass of simplification: a node whose two sides are equal becomes its (simplified)
/// side; a node with a side that combines the other side by the same operation becomes
/// that (simplified) side; otherwise both sides are simplified.
pub open spec fn reduce_tree(t: TreeNode) -> TreeNode
    decreases t,
{
    match t {
        TreeNode::Terminal(_) => t,
        TreeNode::Expr(a, b, op) => if *a == *b {
            reduce_tree(*a)
        } else if (match *a {
            TreeNode::Expr(a1, a2, aop) => aop == op && (*a1 == *b || *a2 == *b),
            TreeNode::Terminal(_) => false,
        }) {
            reduce_tree(*a)
        } else if (match *b {
            TreeNode::Expr(b1, b2, bop) => bop == op && (*b1 == *a || *b2 == *a),
            TreeNode::Terminal(_) => false,
        }) {
            reduce_tree(*b)
        } else {
            TreeNode::Expr(Box::new(reduce_tree(*a)), Box::new(reduce_tree(*b)), op)
        },
    }
}

/// The expression with every label replaced by its image in `m`.
pub open spec fn convert_tree(t: TreeNode, m: Map<Label, Label>) -> TreeNode
    decreases t,
{
    match t {
        TreeNode::Terminal(x) => TreeNode::Terminal(m[x]),
        TreeNode::Expr(a, b, op) => TreeNode::Expr(Box::new(convert_tree(*a, m)), Box::new(convert_tree(*b, m)), op),
    }
}

/// Every label of the expression is a key of `m`.
pub open spec fn labels_mapped(t: TreeNode, m: Map<Label, Label>) -> bool
    decreases t,
{
    match t {
        TreeNode::Terminal(x) => m.contains_key(x),
        TreeNode::Expr(a, b, _) => labels_mapped(*a, m) && labels_mapped(*b, m),
    }
}

/// The expression and all the expressions inside it.
pub open spec fn subtrees(t: TreeNode) -> Set<TreeNode>
    decreases t,
{
    match t {
        TreeNode::Terminal(_) => set![t],
        TreeNode::Expr(a, b, _) => set![t].union(subtrees(*a)).union(subtrees(*b)),
    }
}

/// The two sides of an expression, none for a label.
pub open spec fn children(t: TreeNode) -> Set<TreeNode> {
    match t {
        TreeNode::Terminal(_) => Set::empty(),
        TreeNode::Expr(a, b, _) => set![*a, *b],
    }
}

/// The set `r` after collecting the expressions of `t`: an expression already in the set is
/// left as it is (with what is inside it); otherwise it is added, then its two sides are
/// collected.
pub open spec fn collect(t: TreeNode, r: Set<TreeNode>) -> Set<TreeNode>
    decreases t,
{
    if r.contains(t) {
        r
    } else {
        match t {
            TreeNode::Terminal(_) => r.insert(t),
            TreeNode::Expr(a, b, _) => collect(*b, collect(*a, r.insert(t))),
        }
    }
}

/// The text with its parentheses turned into brackets.
pub open spec fn bracketed(s: Seq<char>) -> Seq<char> {
    s.map_values(|c: char| if c == '(' { '[' } else if c == ')' { ']' } else { c })
}

/// The text of an expression: a label in decimal, or the texts of both sides in brackets,
/// joined by `∩` for a `Union` node and by `∪` for an `Intersection` node, in parentheses.
pub open spec fn tree_text(t: TreeNode) -> Seq<char>
    decreases t,
{
    match t {
        TreeNode::Terminal(x) => decimal(x as nat),
        TreeNode::Expr(a, b, op) => seq!['('] + bracketed(tree_text(*a)) + seq![
            if op == Operation::Union { '∩' } else { '∪' },
        ] + bracketed(tree_text(*b)) + seq![')'],
    }
}

/// Whether two expressions are equal.
pub fn same(a: &TreeNode, b: &TreeNode) -> (r: bool)
    ensures
        r == (*a == *b),
    decreases a,
{
    match (a, b) {
        (TreeNode::Terminal(x), TreeNode::Terminal(y)) => *x == *y,
        (TreeNode::Expr(a1, a2, aop), TreeNode::Expr(b1, b2, bop)) => {
            let ops = match (aop, bop) {
                (Operation::Union, Operation::Union) => true,
                (Operation::Intersection, Operation::Intersection) => true,
                _ => false,
            };
            ops && same(a1, b1) && same(a2, b2)
        },
        _ => false,
    }
}

impl TreeNode {
    /// A copy of the expression.
    pub fn copy(&self) -> (r: TreeNode)
        ensures
            r == *self,
        decreases self,
    {
        match self {
            TreeNode::Terminal(x) => TreeNode::Terminal(*x),
            TreeNode::Expr(a, b, op) => TreeNode::Expr(Box::new(a.copy()), Box::new(b.copy()), *op),
        }
    }

    /// The expression with every label replaced by its image in `map`.
    pub fn convert(&self, map: &HashMap<Label, Label>) -> (r: TreeNode)
        requires
            labels_mapped(*self, map@),
        ensures
            r == convert_tree(*self, map@),
        decreases self,
    {
        broadcast use vstd::std_specs::hash::group_hash_axioms;
        match self {
            TreeNode::Terminal(x) => {
                let y = *map.get(x).unwrap();
                TreeNode::Terminal(y)
            },
            TreeNode::Expr(a, b, op) => {
                let part1 = a.convert(map);
                let part2 = b.convert(map);
                TreeNode::Expr(Box::new(part1), Box::new(part2), *op)
            },
        }
    }

    /// One pass of simplification (see `reduce_tree`).
    pub fn reduce(&self) -> (r: TreeNode)
        ensures
            r == reduce_tree(*self),
        decreases self,
    {
        match self {
            TreeNode::Terminal(_) => self.copy(),
            TreeNode::Expr(a, b, op) => {
                if same(a, b) {
                    return a.reduce();
                }
                if let TreeNode::Expr(a1, a2, aop) = &**a {
                    if *aop == *op && (same(a1, b) || same(a2, b)) {
                        return a.reduce();
                    }
                }
                if let TreeNode::Expr(b1, b2, bop) = &**b {
                    if *bop == *op && (same(b1, a) || same(b2, a)) {
                        return b.reduce();
                    }
                }
                TreeNode::Expr(Box::new(a.reduce()), Box::new(b.reduce()), *op)
            },
        }
    }

    /// Simplifies until nothing changes: the result is what repeated simplification
    /// (`reduce_fix`) reaches, stands for the same labels, and no further pass changes it.
    pub fn reduce_rep(&self) -> (r: TreeNode)
        ensures
            r == reduce_fix(*self),
            reduce_tree(r) == r,
            result_set(r) == result_set(*self),
            size(r) <= size(*self),
    {
        let mut t = self.copy();
        loop
            invariant
                result_set(t) == result_set(*self),
                size(t) <= size(*self),
                reduce_fix(t) == reduce_fix(*self),
            decreases size(t),
        {
            let nt = t.reduce();
            proof {
                lemma_reduce_result(t);
                lemma_reduce_size(t);
            }
            if same(&nt, &t) {
                return t;
            }
            t = nt;
        }
    }

    /// The expression with every operation swapped.
    pub fn flip(&self) -> (r: TreeNode)
        ensures
            r == flip_tree(*self),
        decreases self,
    {
        match self {
            TreeNode::Terminal(x) => TreeNode::Terminal(*x),
            TreeNode::Expr(a, b, op) => {
                let op2 = match op {
                    Operation::Intersection => Operation::Union,
                    Operation::Union => Operation::Intersection,
                };
                TreeNode::Expr(Box::new(a.flip()), Box::new(b.flip()), op2)
            },
        }
    }

    /// The labels that the expression stands for (see `result_set`), in increasing order.
    pub fn result(&self) -> (r: Vec<Label>)
        ensures
            crate::labels::sorted_strict(r@),
            r@.to_set() == result_set(*self),
        decreases self,
    {
        match self {
            TreeNode::Terminal(x) => {
                let mut r: Vec<Label> = Vec::new();
                r.push(*x);
                assert(r@.to_set() =~= set![*x]) by {
                    assert(r@[0] == *x);
                }
                r
            },
            TreeNode::Expr(a, b, op) => {
                let ra = a.result();
                let rb = b.result();
                match op {
                    Operation::Intersection => crate::labels::union(&ra, &rb),
                    Operation::Union => crate::labels::intersect(&ra, &rb),
                }
            },
        }
    }

    /// Adds to `r` the expressions of `self` that `collect` adds: each one not yet in `r`,
    /// then what is inside it.
    pub fn get_all_subexpressions(&self, r: &mut Vec<TreeNode>)
        requires
            old(r)@.no_duplicates(),
        ensures
            final(r)@.no_duplicates(),
            final(r)@.to_set() == collect(*self, old(r)@.to_set()),
        decreases self,
    {
        if contains_tree(r, self) {
            assert(r@.to_set().contains(*self));
            return;
        }
        assert(!r@.to_set().contains(*self));
        let ghost r0 = r@;
        r.push(self.copy());
        proof {
            assert(r@ == r0.push(*self));
            r0.lemma_push_to_set_commute(*self);
            assert forall|a: int, b: int| 0 <= a < b < r@.len() implies r@[a] != r@[b] by {
                if b == r@.len() - 1 {
                    assert(r0.contains(r0[a]));
                }
            }
        }
        match self {
            TreeNode::Terminal(_) => {},
            TreeNode::Expr(a, b, _) => {
                a.get_all_subexpressions(r);
                b.get_all_subexpressions(r);
            },
        }
    }

    /// The text of the expression (see `tree_text`).
    pub fn text(&self) -> (r: String)
        ensures
            r@ == tree_text(*self),
    {
        let v = self.text_chars();
        string_of(&v)
    }

    /// The characters of the text of the expression.
    fn text_chars(&self) -> (r: Vec<char>)
        ensures
            r@ == tree_text(*self),
        decreases self,
    {
        match self {
            TreeNode::Terminal(x) => decimal_exec(*x as usize),
            TreeNode::Expr(a, b, op) => {
                let ta = a.text_chars();
                let tb = b.text_chars();
                let mut r: Vec<char> = Vec::new();
                r.push('(');
                let ba = bracket_chars(&ta);
                push_all(&mut r, &ba);
                match op {
                    Operation::Union => r.push('∩'),
                    Operation::Intersection => r.push('∪'),
                }
                let bb = bracket_chars(&tb);
                push_all(&mut r, &bb);
                r.push(')');
                assert(r@ =~= tree_text(*self));
                r
            },
        }
    }
}

/// Whether the list holds the expression.
fn contains_tree(v: &Vec<TreeNode>, t: &TreeNode) -> (r: bool)
    ensures
        r == v@.contains(*t),
{
    let mut i: usize = 0;
    while i < v.len()
        invariant
            i <= v.len(),
            forall|k: int| 0 <= k < i ==> v@[k] != *t,
        decreases v.len() - i,
    {
        if same(&v[i], t) {
            assert(v@[i as int] == *t);
            return true;
        }
        i = i + 1;
    }
    false
}

/// The characters with parentheses turned into brackets.
fn bracket_chars(s: &Vec<char>) -> (r: Vec<char>)
    ensures
        r@ == bracketed(s@),
{
    let mut r: Vec<char> = Vec::new();
    let mut i: usize = 0;
    while i < s.len()
        invariant
            i <= s.len(),
            r@ == bracketed(s@.take(i as int)),
        decreases s.len() - i,
    {
        let c = s[i];
        if c == '(' {
            r.push('[');
        } else if c == ')' {
            r.push(']');
        } else {
            r.push(c);
        }
        assert(r@ =~= bracketed(s@.take(i + 1)));
        i = i + 1;
    }
    assert(s@.take(s.len() as int) =~= s@);
    r
}

/// The tree that simplifying `t` again and again (`reduce_tree`) reaches, where a pass
/// no longer changes it.
pub open spec fn reduce_fix(t: TreeNode) -> TreeNode
    decreases size(t),
{
    if reduce_tree(t) == t {
        t
    } else {
        proof {
            lemma_reduce_size(t);
        }
        reduce_fix(reduce_tree(t))
    }
}

/// Repeated simplification ends at a tree that one more pass leaves as it is, and starting
/// from that tree gives that tree.
pub proof fn lemma_reduce_fix(t: TreeNode)
    ensures
        reduce_tree(reduce_fix(t)) == reduce_fix(t),
        reduce_fix(reduce_fix(t)) == reduce_fix(t),
    decreases size(t),
{
    if reduce_tree(t) != t {
        lemma_reduce_size(t);
        lemma_reduce_fix(reduce_tree(t));
    }
}

/// A simplification pass never makes an expression larger, and one that keeps its size
/// leaves it unchanged.
pub proof fn lemma_reduce_size(t: TreeNode)
    ensures
        size(reduce_tree(t)) <= size(t),
        size(reduce_tree(t)) == size(t) ==> reduce_tree(t) == t,
    decreases t,
{
    match t {
        TreeNode::Terminal(_) => {},
        TreeNode::Expr(a, b, op) => {
            lemma_reduce_size(*a);
            lemma_reduce_size(*b);
        },
    }
}

/// A simplification pass keeps the labels an expression stands for.
pub proof fn lemma_reduce_result(t: TreeNode)
    ensures
        result_set(reduce_tree(t)) == result_set(t),
    decreases t,
{
    match t {
        TreeNode::Terminal(_) => {},
        TreeNode::Expr(a, b, op) => {
            lemma_reduce_result(*a);
            lemma_reduce_result(*b);
            let ra = result_set(*a);
            let rb = result_set(*b);
            if *a == *b {
                assert(ra.union(ra) =~= ra);
                assert(ra.intersect(ra) =~= ra);
            } else if (match *a {
                TreeNode::Expr(a1, a2, aop) => aop == op && (*a1 == *b || *a2 == *b),
                TreeNode::Terminal(_) => false,
            }) {
                match *a {
                    TreeNode::Expr(a1, a2, aop) => {
                        let r1 = result_set(*a1);
                        let r2 = result_set(*a2);
                        assert(r1.union(r2).union(rb) =~= r1.union(r2));
                        assert(r1.intersect(r2).intersect(rb) =~= r1.intersect(r2));
                    },
                    TreeNode::Terminal(_) => {},
                }
            } else if (match *b {
                TreeNode::Expr(b1, b2, bop) => bop == op && (*b1 == *a || *b2 == *a),
                TreeNode::Terminal(_) => false,
            }) {
                match *b {
                    TreeNode::Expr(b1, b2, bop) => {
                        let r1 = result_set(*b1);
                        let r2 = result_set(*b2);
                        assert(ra.union(r1.union(r2)) =~= r1.union(r2));
                        assert(ra.intersect(r1.intersect(r2)) =~= r1.intersect(r2));
                    },
                    TreeNode::Terminal(_) => {},
                }
            }
        },
    }
}

/// Swapping every operation twice gives the expression back.
pub proof fn lemma_flip_flip(t: TreeNode)
    ensures
        flip_tree(flip_tree(t)) == t,
    decreases t,
{
    match t {
        TreeNode::Terminal(_) => {},
        TreeNode::Expr(a, b, op) => {
            lemma_flip_flip(*a);
            lemma_flip_flip(*b);
        },
    }
}

/// Simplification commutes with swapping the operations.
pub proof fn lemma_flip_reduce(t: TreeNode)
    ensures
        flip_tree(reduce_tree(t)) == reduce_tree(flip_tree(t)),
    decreases t,
{
    match t {
        TreeNode::Terminal(_) => {},
        TreeNode::Expr(a, b, op) => {
            lemma_flip_reduce(*a);
            lemma_flip_reduce(*b);
            lemma_flip_injective(*a, *b);
            match *a {
                TreeNode::Expr(a1, a2, aop) => {
                    lemma_flip_injective(*a1, *b);
                    lemma_flip_injective(*a2, *b);
                },
                TreeNode::Terminal(_) => {},
            }
            match *b {
                TreeNode::Expr(b1, b2, bop) => {
                    lemma_flip_injective(*b1, *a);
                    lemma_flip_injective(*b2, *a);
                },
                TreeNode::Terminal(_) => {},
            }
        },
    }
}

/// Swapping the operations tells distinct expressions apart.
pub proof fn lemma_flip_injective(s: TreeNode, t: TreeNode)
    ensures
        (flip_tree(s) == flip_tree(t)) == (s == t),
{
    lemma_flip_flip(s);
    lemma_flip_flip(t);
}

/// What `collect` adds from a set `r` are expressions of `t`.
proof fn lemma_collect_within(t: TreeNode, r: Set<TreeNode>)
    ensures
        r.subset_of(collect(t, r)),
        collect(t, r).subset_of(r.union(subtrees(t))),
    decreases t,
{
    if !r.contains(t) {
        match t {
            TreeNode::Terminal(_) => {},
            TreeNode::Expr(a, b, _) => {
                let r1 = r.insert(t);
                lemma_collect_within(*a, r1);
                lemma_collect_within(*b, collect(*a, r1));
            },
        }
    }
}

/// When each expression of `r` has its sides in `r`, in `pend` or equal to `t`, collecting
/// `t` gives a set that holds `t` and where each expression has its sides in the set or in
/// `pend`.
proof fn lemma_collect_closed(t: TreeNode, r: Set<TreeNode>, pend: Set<TreeNode>)
    requires
        forall|e: TreeNode| #[trigger] r.contains(e) ==> children(e).subset_of(r.union(pend).insert(t)),
    ensures
        collect(t, r).contains(t),
        r.subset_of(collect(t, r)),
        forall|e: TreeNode| #[trigger] collect(t, r).contains(e) ==> children(e).subset_of(collect(t, r).union(pend)),
    decreases t,
{
    if r.contains(t) {
        assert forall|e: TreeNode| #[trigger] r.contains(e) implies children(e).subset_of(r.union(pend)) by {
            assert(children(e).subset_of(r.union(pend).insert(t)));
        }
    } else {
        match t {
            TreeNode::Terminal(_) => {
                let r1 = r.insert(t);
                assert forall|e: TreeNode| #[trigger] r1.contains(e) implies children(e).subset_of(r1.union(pend)) by {
                    if e == t {
                        assert(children(e) =~= Set::empty());
                    } else {
                        assert(children(e).subset_of(r.union(pend).insert(t)));
                    }
                }
            },
            TreeNode::Expr(a, b, _) => {
                let r1 = r.insert(t);
                assert forall|e: TreeNode| #[trigger] r1.contains(e) implies children(e).subset_of(
                    r1.union(pend.insert(*b)).insert(*a),
                ) by {
                    if e != t {
                        assert(children(e).subset_of(r.union(pend).insert(t)));
                    }
                }
                lemma_collect_closed(*a, r1, pend.insert(*b));
                let r2 = collect(*a, r1);
                assert forall|e: TreeNode| #[trigger] r2.contains(e) implies children(e).subset_of(r2.union(pend).insert(*b)) by {
                    assert(children(e).subset_of(r2.union(pend.insert(*b))));
                }
                lemma_collect_closed(*b, r2, pend);
            },
        }
    }
}

/// A set that holds `t` and the sides of each of its expressions holds every expression
/// inside `t`.
proof fn lemma_closed_has_subtrees(t: TreeNode, r: Set<TreeNode>)
    requires
        r.contains(t),
        forall|e: TreeNode| #[trigger] r.contains(e) ==> children(e).subset_of(r),
    ensures
        subtrees(t).subset_of(r),
    decreases t,
{
    match t {
        TreeNode::Terminal(_) => {},
        TreeNode::Expr(a, b, _) => {
            assert(children(t).subset_of(r));
            assert(r.contains(*a) && r.contains(*b));
            lemma_closed_has_subtrees(*a, r);
            lemma_closed_has_subtrees(*b, r);
        },
    }
}

/// Collecting from the empty set gives exactly the expressions inside `t`: what
/// `get_all_subexpressions` finds from an empty list.
pub proof fn lemma_collect_all(t: TreeNode)
    ensures
        collect(t, Set::empty()) == subtrees(t),
{
    lemma_collect_within(t, Set::empty());
    lemma_collect_closed(t, Set::empty(), Set::empty());
    let c = collect(t, Set::empty());
    assert forall|e: TreeNode| #[trigger] c.contains(e) implies children(e).subset_of(c) by {
        assert(children(e).subset_of(c.union(Set::empty())));
    }
    lemma_closed_has_subtrees(t, c);
    assert(c =~= subtrees(t));
}

} // verus!
