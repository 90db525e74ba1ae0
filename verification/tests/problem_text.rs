use round_eliminator::problem::Problem;

fn err(s: &str) -> &'static str {
    match Problem::from_string(s) {
        Ok(_) => panic!("expected an error for {:?}", s),
        Err(e) => e,
    }
}

#[test]
fn text_round_trip() {
    let p = Problem::from_string("M U U\nP P P\n\nM UP\nU U").unwrap();
    assert_eq!(p.to_text(), "M U^2\nP^3\n\nM UP\nU^2\n");
    assert_eq!(p.labels(), vec![0, 1, 2]);
}

#[test]
fn long_label_names() {
    let p = Problem::from_string("(out) (in)(x)\n\n(in) (out)").unwrap();
    assert_eq!(p.to_text(), "(out) (in)(x)\n\n(out) (in)\n");
}

#[test]
fn blank_lines_around_the_constraints() {
    let p = Problem::from_string("\n \nA A\n\n\nA A\n\n").unwrap();
    assert_eq!(p.to_text(), "A^2\n\nA^2\n");
}

#[test]
fn parse_errors() {
    assert_eq!(err("A (B\n\nA A"), "a parenthesis is not closed");
    assert_eq!(err("A )\n\nA A"), "unexpected character");
    assert_eq!(err("A*\n\nA"), "unexpected character");
    assert_eq!(err("A^2x\n\nA A"), "unexpected character");
    assert_eq!(err("A ^2\n\nA A"), "expected a label");
    assert_eq!(err("A^0\n\nA"), "expected a positive multiplicity");
    assert_eq!(err("A^\n\nA"), "expected a positive multiplicity");
    assert_eq!(err("A^99999999999999999999999\n\nA"), "the multiplicity is too large");
    assert_eq!(err("A A\nA\n\nA A"), "the lines of a constraint have different degrees");
    assert_eq!(err("A A\n\nA A\nA"), "the lines of a constraint have different degrees");
    assert_eq!(err(""), "the active constraint has no line");
    assert_eq!(err("\n\nA A"), "the passive constraint has no line");
}
