use nullcheck::smt::{parse_type, parse_value};
use nullcheck::sir::SymTy;
use nullcheck::structures::Name;

#[test]
fn name_label_renders_decimal() {
    assert_eq!(Name(0).to_id(), "x0");
    assert_eq!(Name(7).to_id(), "x7");
    assert_eq!(Name(123).to_id(), "x123");
    assert_eq!(Name(98765).to_id(), "x98765");
}

#[test]
fn name_label_round_trips() {
    for idx in [0usize, 1, 9, 10, 99, 1234, 500_000] {
        let label = Name(idx).to_id();
        assert_eq!(Name::from_str(label.as_str()), Some(Name(idx)));
    }
}

#[test]
fn name_from_str_rejects_malformed() {
    assert_eq!(Name::from_str(""), None);
    assert_eq!(Name::from_str("x"), None);
    assert_eq!(Name::from_str("7"), None);
    assert_eq!(Name::from_str("y12"), None);
    assert_eq!(Name::from_str("x1b"), None);
    assert_eq!(Name::from_str("xx"), None);
}

#[test]
fn name_from_str_accepts_leading_zeros() {
    assert_eq!(Name::from_str("x007"), Some(Name(7)));
}

#[test]
fn parse_type_reads_solver_sorts() {
    assert_eq!(parse_type("Int"), Some(SymTy::Integer(0)));
    assert_eq!(parse_type("Bool"), Some(SymTy::Bool(false)));
    assert_eq!(parse_type("Real"), None);
    assert_eq!(parse_type(""), None);
}

#[test]
fn parse_value_reads_integers() {
    assert_eq!(parse_value("123", SymTy::Integer(0)), Some(SymTy::Integer(123)));
    assert_eq!(parse_value("0", SymTy::Integer(0)), Some(SymTy::Integer(0)));
    assert_eq!(parse_value("", SymTy::Integer(0)), None);
    assert_eq!(parse_value("12a", SymTy::Integer(0)), None);
    assert_eq!(parse_value("-3", SymTy::Integer(0)), None);
    // one digit past the largest representable value
    assert_eq!(parse_value("340282366920938463463374607431768211456", SymTy::Integer(0)), None);
    assert_eq!(
        parse_value("340282366920938463463374607431768211455", SymTy::Integer(0)),
        Some(SymTy::Integer(u128::MAX))
    );
}

#[test]
fn parse_value_reads_booleans() {
    assert_eq!(parse_value("true", SymTy::Bool(false)), Some(SymTy::Bool(true)));
    assert_eq!(parse_value("false", SymTy::Bool(false)), Some(SymTy::Bool(false)));
    assert_eq!(parse_value("truth", SymTy::Bool(false)), None);
}
