use argumentation::request::{conditionally_validate, validate, validate_fields, PartialSpecification, Specification};

fn some(s: &str) -> Option<String> {
    Some(s.to_string())
}

#[test]
fn absent_request_is_empty() {
    assert!(PartialSpecification::absent().is_empty());
    let mut p = PartialSpecification::absent();
    p.contraries = some("");
    assert!(!p.is_empty());
}

#[test]
fn from_full_specification() {
    let spec = Specification {
        axioms: "a".to_string(),
        premises: "b".to_string(),
        inference_rules: "".to_string(),
        contraries: "".to_string(),
        rule_preferences: "".to_string(),
        knowledge_preferences: "".to_string(),
    };
    let p = PartialSpecification::from(spec);
    assert_eq!(p.axioms, some("a"));
    assert_eq!(p.premises, some("b"));
    assert_eq!(p.knowledge_preferences, some(""));
    assert!(!p.is_empty());
}

#[test]
fn missing_field_is_not_judged() {
    assert_eq!(conditionally_validate(&None, &some("bad")), None);
    assert_eq!(conditionally_validate(&some("x"), &some("bad")), some("bad"));
    assert_eq!(conditionally_validate(&some("x"), &None), None);
}

#[test]
fn every_field_is_judged() {
    let mut spec = PartialSpecification::absent();
    spec.axioms = some("a;");
    spec.premises = some("b");
    spec.rule_preferences = some("r1 < r2");
    let mut parsed = PartialSpecification::absent();
    parsed.axioms = some("unexpected ';'");
    parsed.rule_preferences = some("unknown rule");
    parsed.contraries = some("ignored: field missing");
    let errors = validate_fields(&spec, &parsed);
    assert_eq!(errors.axioms, some("unexpected ';'"));
    assert_eq!(errors.premises, None);
    assert_eq!(errors.rule_preferences, some("unknown rule"));
    assert_eq!(errors.contraries, None);
    let verdict = validate(&spec, &parsed);
    assert!(verdict.is_err());
    assert_eq!(verdict.unwrap_err().rule_preferences, some("unknown rule"));
}

#[test]
fn clean_request_is_accepted() {
    let mut spec = PartialSpecification::absent();
    spec.axioms = some("a");
    assert_eq!(validate(&spec, &PartialSpecification::absent()).is_ok(), true);
}
