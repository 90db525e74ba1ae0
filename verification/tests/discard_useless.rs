use round_eliminator::problem::Problem;

#[test]
fn useless1() {
    let mut p = Problem::from_string("A AB AB\n\nB AB").unwrap();
    p.compute_diagram();
    p.remove_weak_active_lines();
    assert_eq!(p.to_text(), "A B^2\n\nAB B\n");

    let mut p = Problem::from_string("M M M\nP UP UP\n\nM UP\nU U").unwrap();
    p.compute_diagram();
    p.remove_weak_active_lines();
    assert_eq!(p.to_text(), "M^3\nP U^2\n\nM PU\nMU U\n");
}

#[test]
fn useless2() {
    let mut p = Problem::from_string("A A A\nA A B\n A B B\n\nB AB").unwrap();
    p.compute_diagram();
    p.remove_weak_active_lines();
    assert_eq!(p.to_text(), "A B^2\n\nAB B\n");

    let mut p = Problem::from_string("M M M\nP U P\nP U U\nP P P\n\nM UP\nU U").unwrap();
    p.compute_diagram();
    p.remove_weak_active_lines();
    assert_eq!(p.to_text(), "M^3\nP U^2\n\nM PU\nMU U\n");
}

#[test]
fn passive_labels_missing_on_the_active_side_are_dropped() {
    let mut p = Problem::from_string("A B\n\nAB AB\nC AB\n").unwrap();
    p.discard_useless_passive_labels();
    assert_eq!(p.to_text(), "A B\n\nAB^2\n");
    assert_eq!(p.labels(), vec![0, 1]);
}

#[test]
fn discard_useless_stuff_cleans_both_sides() {
    let mut p = Problem::from_string("A AB AB\n\nB AB").unwrap();
    p.compute_diagram();
    p.discard_useless_stuff();
    assert_eq!(p.to_text(), "A B^2\n\nAB B\n");

    // the passive side maximizes to AB^2, so A and B are equivalent and one active line
    // includes the other
    let mut p = Problem::from_string("A B\nA A\n\nA B\nB B\nA A\n").unwrap();
    p.compute_diagram();
    assert_eq!(p.diagram_indirect, Some(vec![(0, 1), (1, 0)]));
    p.discard_useless_stuff();
    assert_eq!(p.to_text(), "A B\n\nAB^2\n");
}

#[test]
fn harden_drops_lines_with_empty_groups() {
    let p = Problem::from_string("A B\nA AC\n\nABC ABC\n").unwrap();
    let q = p.harden(&vec![0, 2]);
    assert_eq!(q.to_text(), "A AC\n\nAC^2\n");
}
