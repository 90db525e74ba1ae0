use round_eliminator::problem::Problem;

#[test]
fn triviality() {
    let mut p = Problem::from_string("M U U\nP P P\n\nM UP\nU U").unwrap();
    p.compute_triviality();
    assert!(p.trivial_sets.unwrap().is_empty());

    let mut p = Problem::from_string("A AB AB\n\nA A\nB B").unwrap();
    p.compute_triviality();
    assert!(!p.trivial_sets.unwrap().is_empty());

    let mut p = Problem::from_string("A B AB\n\nA A\nB B\nA B\nAB AB").unwrap();
    p.compute_triviality();
    assert!(!p.trivial_sets.unwrap().is_empty());

    let mut p = Problem::from_string("A B AB\n\nA A\nB B\nA B").unwrap();
    p.compute_triviality();
    assert!(!p.trivial_sets.unwrap().is_empty());
}

#[test]
fn trivial_sets_are_the_minimal_accepted_choices() {
    let mut p = Problem::from_string("A AB AB\n\nA A\nB B").unwrap();
    p.compute_triviality();
    assert_eq!(p.trivial_sets, Some(vec![vec![0]]));

    let mut p = Problem::from_string("A B AB\n\nA A\nB B\nA B\nAB AB").unwrap();
    p.compute_triviality();
    assert_eq!(p.trivial_sets, Some(vec![vec![0, 1]]));
}
