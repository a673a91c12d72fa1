use pips_solver::rules::Rule;

#[test]
fn rule_parse_basic() {
    assert!(matches!(Rule::parse("="), Rule::Equal));
    assert!(matches!(Rule::parse("x"), Rule::Any));
    assert!(matches!(Rule::parse(">3"), Rule::GreaterThan(3)));
    assert!(matches!(Rule::parse("<7"), Rule::LessThan(7)));
    assert!(matches!(Rule::parse("10"), Rule::Sum(10)));
}

#[test]
fn rule_parse_unknown() {
    assert!(matches!(Rule::parse("??"), Rule::Unknown));
}

#[test]
fn rule_parse_plus_sign_accepted() {
    // u32 parsing allows a leading plus, so the rule parser does too.
    assert!(matches!(Rule::parse("+4"), Rule::Sum(4)));
    assert!(matches!(Rule::parse(">+2"), Rule::GreaterThan(2)));
}

#[test]
fn rule_parse_malformed_numbers() {
    // A malformed numeric suffix downgrades to the unconstrained fallback.
    assert!(matches!(Rule::parse(">"), Rule::Unknown));
    assert!(matches!(Rule::parse("<abc"), Rule::Unknown));
    assert!(matches!(Rule::parse(">1x"), Rule::Unknown));
    assert!(matches!(Rule::parse(""), Rule::Unknown));
    assert!(matches!(Rule::parse("-3"), Rule::Unknown));
}

#[test]
fn rule_parse_overflow_is_unknown() {
    // Values beyond 32 bits do not parse, exactly as u32::from_str fails.
    assert!(matches!(Rule::parse("4294967295"), Rule::Sum(4294967295)));
    assert!(matches!(Rule::parse("4294967296"), Rule::Unknown));
    assert!(matches!(Rule::parse("99999999999999999999"), Rule::Unknown));
}
