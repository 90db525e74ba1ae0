use std::collections::HashMap;

use round_eliminator::tree::{Operation, TreeNode};

fn t(x: u32) -> TreeNode {
    TreeNode::Terminal(x)
}

fn e(a: TreeNode, b: TreeNode, op: Operation) -> TreeNode {
    TreeNode::Expr(Box::new(a), Box::new(b), op)
}

#[test]
fn result_of_expressions() {
    // Intersection nodes join the labels, Union nodes keep the shared ones
    let x = e(e(t(1), t(2), Operation::Intersection), e(t(2), t(3), Operation::Intersection), Operation::Union);
    assert_eq!(x.result(), vec![2]);
    let y = e(e(t(1), t(2), Operation::Union), t(3), Operation::Intersection);
    assert_eq!(y.result(), vec![3]);
    assert_eq!(t(7).result(), vec![7]);
}

#[test]
fn reduce_equal_sides() {
    let x = e(t(1), t(1), Operation::Union);
    assert_eq!(x.reduce().text(), "1");
}

#[test]
fn reduce_absorbed_side() {
    // (1 op 2) op 1 becomes 1 op 2
    let x = e(e(t(1), t(2), Operation::Union), t(1), Operation::Union);
    assert_eq!(x.reduce().text(), "(1∩2)");
    // a different operation is not absorbed
    let y = e(e(t(1), t(2), Operation::Union), t(1), Operation::Intersection);
    assert_eq!(y.reduce().text(), "([1∩2]∪1)");
    // the absorbed side may be on the right
    let z = e(t(3), e(t(4), t(3), Operation::Intersection), Operation::Intersection);
    assert_eq!(z.reduce().text(), "(4∪3)");
}

#[test]
fn reduce_rep_reaches_a_fixpoint() {
    // ((1 u 2) u (1 u 2)) u 1: one pass gives (1 u 2) u 1, the next 1 u 2
    let x = e(
        e(e(t(1), t(2), Operation::Union), e(t(1), t(2), Operation::Union), Operation::Union),
        t(1),
        Operation::Union,
    );
    assert_eq!(x.reduce().text(), "([1∩2]∩1)");
    let r = x.reduce_rep();
    assert_eq!(r.text(), "(1∩2)");
    assert_eq!(r.result(), x.result());
    assert_eq!(r.reduce().text(), r.text());
    assert_eq!(r.reduce_rep().text(), r.text());
}

#[test]
fn flip_swaps_operations() {
    let x = e(e(t(1), t(2), Operation::Union), t(3), Operation::Intersection);
    let f = x.flip();
    assert_eq!(f.text(), "([1∪2]∩3)");
    assert_eq!(f.flip().text(), x.text());
}

#[test]
fn subexpressions_are_collected_once() {
    let x = e(e(t(1), t(2), Operation::Union), t(1), Operation::Intersection);
    let mut found = Vec::new();
    x.get_all_subexpressions(&mut found);
    let mut texts: Vec<String> = found.iter().map(|s| s.text()).collect();
    texts.sort();
    assert_eq!(texts, vec!["(1∩2)", "([1∩2]∪1)", "1", "2"]);
}

#[test]
fn subexpressions_stop_at_known_ones() {
    let inner = e(t(1), t(2), Operation::Union);
    let x = e(inner.copy(), t(3), Operation::Union);
    let mut found = vec![inner];
    x.get_all_subexpressions(&mut found);
    let mut texts: Vec<String> = found.iter().map(|s| s.text()).collect();
    texts.sort();
    assert_eq!(texts, vec!["(1∩2)", "([1∩2]∩3)", "3"]);
}

#[test]
fn convert_renames_labels() {
    let x = e(t(1), e(t(2), t(1), Operation::Intersection), Operation::Union);
    let mut m = HashMap::new();
    m.insert(1, 10);
    m.insert(2, 20);
    assert_eq!(x.convert(&m).text(), "(10∩[20∪10])");
}
