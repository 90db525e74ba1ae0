use std::collections::{HashMap, HashSet};

use round_eliminator::fixpoint::{right_closed_subsets, FixpointType};
use round_eliminator::problem::Problem;

fn successors(edges: &[(u32, &[u32])]) -> HashMap<u32, HashSet<u32>> {
    let mut m = HashMap::new();
    for (l, succ) in edges {
        m.insert(*l, succ.iter().cloned().collect::<HashSet<u32>>());
    }
    m
}

#[test]
fn right_closed_subsets_of_a_chain() {
    let succ = successors(&[(0, &[1, 2]), (1, &[2]), (2, &[])]);
    let r = right_closed_subsets(&[0, 1, 2], &succ);
    assert_eq!(r, vec![vec![], vec![0, 1, 2], vec![1, 2], vec![2]]);
}

#[test]
fn right_closed_subsets_of_an_antichain() {
    let succ = successors(&[(0, &[]), (1, &[])]);
    let r = right_closed_subsets(&[0, 1], &succ);
    assert_eq!(r, vec![vec![], vec![0], vec![0, 1], vec![1]]);
}

#[test]
fn right_closed_subsets_are_closed_and_complete() {
    // 0 -> 1 -> 3, 2 -> 3 (transitively closed)
    let succ = successors(&[(0, &[1, 3]), (1, &[3]), (2, &[3]), (3, &[])]);
    let r = right_closed_subsets(&[0, 1, 2, 3], &succ);
    let expected: Vec<Vec<u32>> = vec![
        vec![],
        vec![0, 1, 2, 3],
        vec![0, 1, 3],
        vec![1, 2, 3],
        vec![1, 3],
        vec![2, 3],
        vec![3],
    ];
    assert_eq!(r, expected);
    for set in &r {
        for &x in set {
            for y in &succ[&x] {
                assert!(set.contains(y));
            }
        }
    }
}

#[test]
fn right_closed_subsets_of_no_labels() {
    let succ = successors(&[]);
    let r = right_closed_subsets(&[], &succ);
    assert_eq!(r, vec![Vec::<u32>::new()]);
}

#[test]
fn default_fixpoint_diagram_of_one_label() {
    let mut p = Problem::from_string("A A\n\nA A\n").unwrap();
    p.compute_diagram();
    p.compute_default_fixpoint_diagram(None);
    let (labels, fd) = p.fixpoint_diagram.as_ref().unwrap();
    assert!(labels.is_none());
    assert_eq!(fd.rightclosed, vec![vec![], vec![0]]);
    assert_eq!(fd.mapping_label_newlabel, vec![(0, 1)]);
    assert_eq!(fd.diagram, vec![(1, 0)]);
    assert_eq!(
        fd.text,
        "# mapping from original labels to diagram labels\nA = A\n# diagram edges\nA -> ∅\n"
    );
}

#[test]
fn default_fixpoint_diagram_of_a_chain() {
    let mut p = Problem::from_string("A B\n\nB AB\n").unwrap();
    p.compute_diagram();
    assert_eq!(p.diagram_indirect, Some(vec![(0, 1)]));
    p.compute_default_fixpoint_diagram(None);
    let (_, fd) = p.fixpoint_diagram.as_ref().unwrap();
    assert_eq!(fd.rightclosed, vec![vec![], vec![0, 1], vec![1]]);
    assert_eq!(fd.mapping_label_newlabel, vec![(0, 1), (1, 2)]);
    assert_eq!(
        fd.mapping_newlabel_text,
        vec![(0, "∅".to_string()), (1, "(AB)".to_string()), (2, "B".to_string())]
    );
    assert_eq!(fd.diagram, vec![(1, 0), (1, 2), (2, 0)]);
    assert_eq!(fd.diagram_direct.1, vec![(1, 2), (2, 0)]);
    assert_eq!(
        fd.text,
        "# mapping from original labels to diagram labels\nA = (AB)\nB = B\n# diagram edges\n(AB) -> B\nB -> ∅\n"
    );
}

#[test]
fn default_fixpoint_diagram_of_equivalent_labels() {
    let mut p = Problem::from_string("A B\n\nAB AB\n").unwrap();
    p.compute_diagram();
    p.compute_default_fixpoint_diagram(None);
    let (_, fd) = p.fixpoint_diagram.as_ref().unwrap();
    assert_eq!(fd.rightclosed, vec![vec![], vec![0, 1]]);
    assert_eq!(
        fd.text,
        "# mapping from original labels to diagram labels\nA = (AB)\nB = (AB)\n# diagram edges\n(AB) -> ∅\n"
    );
}

#[test]
fn default_fixpoint_diagram_with_long_texts() {
    let mut p = Problem::from_string("(xy) (z)\n\n(z) (xy)(z)\n").unwrap();
    p.compute_diagram();
    p.compute_default_fixpoint_diagram(None);
    let (_, fd) = p.fixpoint_diagram.as_ref().unwrap();
    assert_eq!(
        fd.mapping_newlabel_text,
        vec![(0, "∅".to_string()), (1, "(xy_z)".to_string()), (2, "(z)".to_string())]
    );
    assert_eq!(
        fd.text,
        "# mapping from original labels to diagram labels\n(xy) = (xy_z)\n(z) = (z)\n# diagram edges\n(xy_z) -> (z)\n(z) -> ∅\n"
    );
}

#[test]
fn default_fixpoint_diagram_of_a_restriction() {
    let mut p = Problem::from_string("A B\n\nB AB\n").unwrap();
    p.compute_default_fixpoint_diagram(Some(vec![0, 1]));
    let (labels, fd) = p.fixpoint_diagram.as_ref().unwrap();
    assert_eq!(labels, &Some(vec![0, 1]));
    assert_eq!(
        fd.text,
        "# mapping from original labels to diagram labels\nA = (AB)\nB = B\n# diagram edges\n(AB) -> B\nB -> ∅\n"
    );

    let mut p = Problem::from_string("A B\n\nB AB\n").unwrap();
    p.compute_default_fixpoint_diagram(Some(vec![1]));
    let (_, fd) = p.fixpoint_diagram.as_ref().unwrap();
    assert_eq!(fd.rightclosed, vec![Vec::<u32>::new()]);
    assert_eq!(
        fd.text,
        "# mapping from original labels to diagram labels\n\n# diagram edges\n\n"
    );
}

#[test]
fn compute_text_after_editing_the_diagram() {
    let mut p = Problem::from_string("A B\n\nB AB\n").unwrap();
    p.compute_diagram();
    p.compute_default_fixpoint_diagram(None);
    let mut fd = p.fixpoint_diagram.take().unwrap().1;
    // drop the edge from (AB) to B: both now point to the empty set directly
    fd.diagram = vec![(1, 0), (2, 0)];
    fd.compute_text();
    assert_eq!(
        fd.text,
        "# mapping from original labels to diagram labels\nA = (AB)\nB = B\n# diagram edges\n(AB) -> ∅\nB -> ∅\n"
    );
}

#[test]
fn fixpoint_types() {
    let kinds = vec![
        FixpointType::Basic,
        FixpointType::Dup(vec![vec![1, 2]]),
        FixpointType::Custom("A = A\nA -> A".to_string()),
        FixpointType::Loop,
    ];
    let names: Vec<&str> = kinds
        .iter()
        .map(|k| match k {
            FixpointType::Basic => "basic",
            FixpointType::Dup(_) => "dup",
            FixpointType::Custom(_) => "custom",
            FixpointType::Loop => "loop",
        })
        .collect();
    assert_eq!(names, vec!["basic", "dup", "custom", "loop"]);
}

#[test]
fn duplicate_a_diagram_label() {
    let mut p = Problem::from_string("A B\n\nB AB\n").unwrap();
    p.compute_diagram();
    p.compute_default_fixpoint_diagram(None);
    let mut fd = p.fixpoint_diagram.take().unwrap().1;
    // duplicate diagram label 2, which stands for {B}
    fd.duplicate_labels(&vec![vec![2]]);
    assert_eq!(fd.additional_orig, vec![2]);
    assert_eq!(fd.rightclosed, vec![vec![], vec![0, 1, 2], vec![1], vec![1, 2]]);
    assert_eq!(fd.mapping_label_newlabel, vec![(0, 1), (1, 2)]);
    assert_eq!(
        fd.mapping_newlabel_text,
        vec![
            (0, "∅".to_string()),
            (1, "(A_B_dup0)".to_string()),
            (2, "(B)".to_string()),
            (3, "(B_dup0)".to_string())
        ]
    );
    assert_eq!(fd.diagram, vec![(1, 0), (1, 2), (1, 3), (2, 0), (3, 0), (3, 2)]);
    assert_eq!(fd.diagram_direct.1, vec![(1, 3), (2, 0), (3, 2)]);
    assert_eq!(
        fd.text,
        "# mapping from original labels to diagram labels\nA = (A_B_dup0)\nB = (B)\n# diagram edges\n(A_B_dup0) -> (B_dup0)\n(B) -> ∅\n(B_dup0) -> (B)\n"
    );
}

#[test]
fn duplicate_with_no_groups_keeps_the_diagram() {
    let mut p = Problem::from_string("A B\n\nB AB\n").unwrap();
    p.compute_diagram();
    p.compute_default_fixpoint_diagram(None);
    let mut fd = p.fixpoint_diagram.take().unwrap().1;
    let before = fd.text.clone();
    fd.duplicate_labels(&vec![]);
    assert!(fd.additional_orig.is_empty());
    assert_eq!(fd.rightclosed, vec![vec![], vec![0, 1], vec![1]]);
    assert_eq!(fd.text, before);
}
