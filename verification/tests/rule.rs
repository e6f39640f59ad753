use life_backend::Rule;

fn rule_highlife() -> Rule {
    Rule::new(
        &[false, false, false, true, false, false, true, false, false],
        &[false, false, true, true, false, false, false, false, false],
    )
}

fn check_value(target: &Rule, expected_birth: &[usize], expected_survival: &[usize]) {
    for i in 0..=8 {
        assert_eq!(target.is_born(i), expected_birth.iter().any(|&x| x == i));
        assert_eq!(target.is_survive(i), expected_survival.iter().any(|&x| x == i));
    }
}

#[test]
fn new_conways_life() {
    let target = Rule::new(
        &[false, false, false, true, false, false, false, false, false],
        &[false, false, true, true, false, false, false, false, false],
    );
    check_value(&target, &[3], &[2, 3]);
}

#[test]
fn new_highlife() {
    let target = Rule::new(
        &[false, false, false, true, false, false, true, false, false],
        &[false, false, true, true, false, false, false, false, false],
    );
    check_value(&target, &[3, 6], &[2, 3]);
}

#[test]
fn conways_life() {
    let target = Rule::conways_life();
    check_value(&target, &[3], &[2, 3]);
}

#[test]
fn display_conways_life() {
    let target = Rule::conways_life();
    assert_eq!(target.to_string(), "B3/S23");
}

#[test]
fn display_highlife() {
    let target = rule_highlife();
    assert_eq!(target.to_string(), "B36/S23");
}

#[test]
fn from_str_birth_survival_notation() -> Result<(), life_backend::ParseRuleError> {
    let target: Rule = "B3/S23".parse()?;
    check_value(&target, &[3], &[2, 3]);
    Ok(())
}

#[test]
fn from_str_s_b_notation() -> Result<(), life_backend::ParseRuleError> {
    let target: Rule = "23/3".parse()?;
    check_value(&target, &[3], &[2, 3]);
    Ok(())
}

#[test]
fn from_str_birth_survival_notation_without_birth_number() -> Result<(), life_backend::ParseRuleError> {
    let target: Rule = "B/S23".parse()?;
    check_value(&target, &[], &[2, 3]);
    Ok(())
}

#[test]
fn from_str_birth_survival_notation_without_survival_number() -> Result<(), life_backend::ParseRuleError> {
    let target: Rule = "B3/S".parse()?;
    check_value(&target, &[3], &[]);
    Ok(())
}

#[test]
fn from_str_birth_survival_notation_lowercase_b() -> Result<(), life_backend::ParseRuleError> {
    let target: Rule = "b3/S23".parse()?;
    check_value(&target, &[3], &[2, 3]);
    Ok(())
}

#[test]
fn from_str_birth_survival_notation_lowercase_s() -> Result<(), life_backend::ParseRuleError> {
    let target: Rule = "B3/s23".parse()?;
    check_value(&target, &[3], &[2, 3]);
    Ok(())
}

#[test]
fn from_str_no_separator() {
    let target = "B0S0".parse::<Rule>();
    assert!(target.is_err());
}

#[test]
fn from_str_too_many_separators() {
    let target = "B0/S0/C0".parse::<Rule>();
    assert!(target.is_err());
}

#[test]
fn from_str_no_label_birth() {
    let target = "0/S0".parse::<Rule>();
    assert!(target.is_err());
}

#[test]
fn from_str_no_label_survival() {
    let target = "B0/0".parse::<Rule>();
    assert!(target.is_err());
}

#[test]
fn from_str_birth_survival_notation_too_large_number() {
    let target = "B9/S0".parse::<Rule>();
    assert!(target.is_err());
}

#[test]
fn rule_notation_roundtrip_highlife() {
    let rule = rule_highlife();
    let text = rule.to_string();
    let parsed: Rule = text.parse().unwrap();
    assert_eq!(parsed, rule);
}

#[test]
fn rule_parse_str_matches_from_str() {
    let a = Rule::parse_str("B36/S23").unwrap();
    assert_eq!(a, rule_highlife());
    assert!(Rule::parse_str("B3/S2/3").is_err());
    assert!(Rule::parse_str("X3/S23").is_err());
}

#[test]
fn rule_s_b_notation_with_empty_fields() {
    let target: Rule = "/".parse().unwrap();
    check_value(&target, &[], &[]);
    assert_eq!(target.to_string(), "B/S");
}

#[test]
fn rule_all_counts() {
    let target: Rule = "B012345678/S012345678".parse().unwrap();
    check_value(&target, &[0, 1, 2, 3, 4, 5, 6, 7, 8], &[0, 1, 2, 3, 4, 5, 6, 7, 8]);
    assert_eq!(target.to_string(), "B012345678/S012345678");
}
