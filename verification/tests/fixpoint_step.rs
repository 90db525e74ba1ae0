use round_eliminator::constraint::{Constraint, Degree};
use round_eliminator::line::{Group, GroupType, Line, Part};
use round_eliminator::procedure::procedure;
use round_eliminator::problem::Problem;

#[test]
fn fixpoint_of_one_label() {
    let mut p = Problem::from_string("A A\n\nA A\n").unwrap();
    p.compute_diagram();
    let (q, d, m) = p.fixpoint().unwrap();
    assert_eq!(q.to_text(), "A^2\n\n∅A^2\n");
    assert_eq!(d, vec![(1, 0)]);
    assert_eq!(m, vec![(0, 1)]);
}

#[test]
fn fixpoint_of_a_chain() {
    let mut p = Problem::from_string("A B\n\nB AB\n").unwrap();
    p.compute_diagram();
    let (q, d, m) = p.fixpoint().unwrap();
    assert_eq!(q.to_text(), "(AB) B\n\n∅(AB)B ∅B\n");
    assert_eq!(d, vec![(1, 0), (1, 2), (2, 0)]);
    assert_eq!(m, vec![(0, 1), (1, 2)]);
}

#[test]
fn fixpoint_uses_the_kept_diagram() {
    let mut p = Problem::from_string("A B\n\nB AB\n").unwrap();
    p.compute_diagram();
    p.compute_default_fixpoint_diagram(None);
    let (q, d, _) = p.fixpoint_dup(None).unwrap();
    assert_eq!(q.to_text(), "(AB) B\n\n∅(AB)B ∅B\n");
    assert_eq!(d, vec![(1, 0), (1, 2), (2, 0)]);
}

#[test]
fn fixpoint_with_a_duplicated_label() {
    let mut p = Problem::from_string("A A\n\nA A\n").unwrap();
    p.compute_diagram();
    let (q, d, m) = p.fixpoint_dup(Some(vec![vec![1]])).unwrap();
    assert_eq!(q.to_text(), "(A)^2\n\n∅(A)^2\n");
    assert_eq!(d, vec![(1, 0), (2, 0), (2, 1)]);
    assert_eq!(m, vec![(0, 1)]);
}

#[test]
fn fixpoint_refuses_unknown_labels_to_duplicate() {
    let mut p = Problem::from_string("A A\n\nA A\n").unwrap();
    p.compute_diagram();
    assert!(p.fixpoint_dup(Some(vec![vec![5]])).is_err());
}

#[test]
fn onestep_refuses_a_diagram_without_meets() {
    let p = Problem::from_string("A A\n\nA A\n").unwrap();
    let texts = vec![(0, "x".to_string()), (1, "y".to_string()), (2, "z".to_string())];
    // 1 and 2 both reach 0, but nothing reaches both 1 and 2
    let r = p.fixpoint_onestep(&vec![(0, 1)], &texts, &vec![(1, 0), (2, 0)]);
    assert!(r.is_err());
}

#[test]
fn onestep_maximizes_on_a_chain() {
    let p = Problem::from_string("A B\n\nB AB\n").unwrap();
    let texts = vec![(0, "0".to_string()), (1, "1".to_string()), (2, "2".to_string())];
    // the chain 1 -> 2 -> 0, given without its transitive edge
    let (q, before) = p.fixpoint_onestep(&vec![(0, 1), (1, 2)], &texts, &vec![(1, 2), (2, 0)]).unwrap();
    assert_eq!(q.to_text(), "1 2\n\n012 02\n");
    assert_eq!(before.lines.len(), 1);
    assert!(before.is_maximized);
    assert!(!q.passive.is_maximized);
}

fn single(labels: &[u32]) -> Line {
    Line {
        parts: labels
            .iter()
            .map(|&l| Part { gtype: GroupType::Many(1), group: Group(vec![l]) })
            .collect(),
    }
}

#[test]
fn procedure_combines_lines_with_the_lattice() {
    // the diamond 3 -> 1 -> 0, 3 -> 2 -> 0, transitively closed
    let diagram = vec![(3, 1), (3, 2), (1, 0), (2, 0), (3, 0)];
    let c = Constraint { lines: vec![single(&[1, 1]), single(&[2, 2])], is_maximized: false, degree: Degree::Finite(2) };
    let r = procedure(&c, &vec![0, 1, 2, 3], &diagram).unwrap();
    assert!(r.is_maximized);
    // combining 1 1 with 2 2 gives the least common successor 0 at one position and the
    // least common predecessor 3 at the other
    let texts = vec![(0, "a".to_string()), (1, "b".to_string()), (2, "c".to_string()), (3, "d".to_string())];
    let p = Problem {
        active: r,
        passive: Constraint { lines: vec![], is_maximized: true, degree: Degree::Finite(2) },
        mapping_label_text: texts,
        mapping_label_oldlabels: None,
        trivial_sets: None,
        diagram_indirect: None,
        diagram_direct: None,
        fixpoint_diagram: None,
    };
    assert_eq!(p.to_text(), "b^2\nc^2\na d\n\n");
}

#[test]
fn procedure_refuses_a_diagram_without_joins() {
    let diagram = vec![(0, 1), (0, 2)];
    let c = Constraint { lines: vec![single(&[1, 2])], is_maximized: false, degree: Degree::Finite(2) };
    assert!(procedure(&c, &vec![0, 1, 2], &diagram).is_err());
}

#[test]
fn fixpoint_with_a_diagram_given_as_text() {
    let p = Problem::from_string("A B\n\nB AB\n").unwrap();
    let text = "# a chain\nA = x\nB = y\nx -> y\ny -> z\n".to_string();
    let (q, d, m) = p.fixpoint_custom(text).unwrap();
    assert_eq!(q.to_text(), "x y\n\nxyz yz\n");
    assert_eq!(d, vec![(0, 1), (1, 2)]);
    assert_eq!(m, vec![(0, 0), (1, 1)]);
}

#[test]
fn fixpoint_with_backward_arrows() {
    let p = Problem::from_string("A B\n\nB AB\n").unwrap();
    let text = "A = p\r\nB = q\r\nq <- p".to_string();
    let (q, d, m) = p.fixpoint_custom(text).unwrap();
    assert_eq!(q.to_text(), "q p\n\nq qp\n");
    assert_eq!(d, vec![(1, 0)]);
    assert_eq!(m, vec![(0, 1), (1, 0)]);
}

#[test]
fn fixpoint_refuses_a_text_diagram_without_joins() {
    let p = Problem::from_string("A A\n\nA A\n").unwrap();
    let text = "A = a\na -> b\na -> c\n".to_string();
    assert!(p.fixpoint_custom(text).is_err());
}
