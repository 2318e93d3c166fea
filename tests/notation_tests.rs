use rusticle::complex::notation::{cartesian_text, classify, complex_terms, split_terms, Coefficient, NotationError, Term};

fn real_term(s: &str) -> Term {
    Term::Real(s.to_string())
}

fn imaginary_term(s: &str) -> Term {
    Term::Imaginary(Coefficient::Text(s.to_string()))
}

#[test]
fn reads_real_and_imaginary_terms() {
    assert_eq!(complex_terms("2+3i"), Ok(vec![real_term("2"), imaginary_term("+3")]));
    assert_eq!(complex_terms("-1.5-2.5i"), Ok(vec![real_term("-1.5"), imaginary_term("-2.5")]));
}

#[test]
fn reads_pure_imaginary() {
    assert_eq!(complex_terms("3i"), Ok(vec![imaginary_term("3")]));
    assert_eq!(complex_terms("-i"), Ok(vec![Term::Imaginary(Coefficient::MinusOne)]));
    assert_eq!(complex_terms("i"), Ok(vec![Term::Imaginary(Coefficient::One)]));
    assert_eq!(complex_terms("1+i"), Ok(vec![real_term("1"), Term::Imaginary(Coefficient::One)]));
}

#[test]
fn reads_pure_real() {
    assert_eq!(complex_terms("5"), Ok(vec![real_term("5")]));
    assert_eq!(complex_terms("1+2"), Ok(vec![real_term("1+2")]));
}

#[test]
fn empty_text_is_refused() {
    assert_eq!(complex_terms(""), Err(NotationError::Empty));
    assert_eq!(complex_terms("   "), Err(NotationError::Empty));
}

#[test]
fn surrounding_white_space_is_ignored() {
    assert_eq!(complex_terms("  2+3i \n"), Ok(vec![real_term("2"), imaginary_term("+3")]));
    assert_eq!(complex_terms("\t7 "), Ok(vec![real_term("7")]));
}

#[test]
fn exponent_signs_do_not_start_terms() {
    assert_eq!(complex_terms("1e-5+2E+3i"), Ok(vec![real_term("1e-5"), imaginary_term("+2E+3")]));
    assert_eq!(split_terms("1e-5-2"), vec!["1e-5".to_string(), "-2".to_string()]);
}

#[test]
fn every_term_is_kept_in_order() {
    assert_eq!(
        complex_terms("1+2+3i"),
        Ok(vec![real_term("1"), real_term("+2"), imaginary_term("+3")])
    );
    assert_eq!(split_terms("-1-2i+3"), vec!["-1".to_string(), "-2i".to_string(), "+3".to_string()]);
    assert_eq!(split_terms(""), Vec::<String>::new());
}

#[test]
fn trailing_i_characters_are_dropped() {
    assert_eq!(classify("+4ii"), imaginary_term("+4"));
    assert_eq!(classify("+i"), Term::Imaginary(Coefficient::One));
    assert_eq!(classify("inf"), imaginary_term("inf"));
    assert_eq!(classify("-2.5"), real_term("-2.5"));
}

#[test]
fn renders_parts() {
    assert_eq!(cartesian_text("3", "4", false, true), "3+4i");
    assert_eq!(cartesian_text("3", "-4", false, false), "3-4i");
    assert_eq!(cartesian_text("3", "0", true, true), "3");
    assert_eq!(cartesian_text("0", "4", false, true), "0+4i");
    assert_eq!(cartesian_text("0", "0", true, true), "0");
}
