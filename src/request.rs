//! The six text fields of a request and their per-field validation. Each field
//! is judged on its own, so one bad field never hides the verdict on another.
use vstd::prelude::*;

verus! {

/// A complete request: all six fields present.
#[derive(Clone, Debug)]
pub struct Specification {
    pub axioms: String,
    pub premises: String,
    pub inference_rules: String,
    pub contraries: String,
    pub rule_preferences: String,
    pub knowledge_preferences: String,
}

/// A request whose fields may be missing. The same shape carries the
/// per-field error messages of a validation.
#[derive(Clone, Debug)]
pub struct PartialSpecification {
    pub axioms: Option<String>,
    pub premises: Option<String>,
    pub inference_rules: Option<String>,
    pub contraries: Option<String>,
    pub rule_preferences: Option<String>,
    pub knowledge_preferences: Option<String>,
}

pub open spec fn all_absent(p: PartialSpecification) -> bool {
    &&& p.axioms is None
    &&& p.premises is None
    &&& p.inference_rules is None
    &&& p.contraries is None
    &&& p.rule_preferences is None
    &&& p.knowledge_preferences is None
}

pub open spec fn field_view(f: Option<String>) -> Option<Seq<char>> {
    match f {
        Some(s) => Some(s@),
        None => None,
    }
}

/// The error reported for one field: none for a missing field, else what its
/// parser reported (none when the text parses).
pub open spec fn field_verdict(field: Option<String>, parse_error: Option<String>) -> Option<Seq<char>> {
    if field is None {
        None
    } else {
        field_view(parse_error)
    }
}

pub open spec fn verdicts(
    spec: PartialSpecification,
    parse_errors: PartialSpecification,
    r: PartialSpecification,
) -> bool {
    &&& field_view(r.axioms) == field_verdict(spec.axioms, parse_errors.axioms)
    &&& field_view(r.premises) == field_verdict(spec.premises, parse_errors.premises)
    &&& field_view(r.inference_rules) == field_verdict(spec.inference_rules, parse_errors.inference_rules)
    &&& field_view(r.contraries) == field_verdict(spec.contraries, parse_errors.contraries)
    &&& field_view(r.rule_preferences) == field_verdict(spec.rule_preferences, parse_errors.rule_preferences)
    &&& field_view(r.knowledge_preferences) == field_verdict(
        spec.knowledge_preferences,
        parse_errors.knowledge_preferences,
    )
}

/// No present field has an error.
pub open spec fn no_errors(spec: PartialSpecification, parse_errors: PartialSpecification) -> bool {
    &&& field_verdict(spec.axioms, parse_errors.axioms) is None
    &&& field_verdict(spec.premises, parse_errors.premises) is None
    &&& field_verdict(spec.inference_rules, parse_errors.inference_rules) is None
    &&& field_verdict(spec.contraries, parse_errors.contraries) is None
    &&& field_verdict(spec.rule_preferences, parse_errors.rule_preferences) is None
    &&& field_verdict(spec.knowledge_preferences, parse_errors.knowledge_preferences) is None
}

impl PartialSpecification {
    /// No field is present.
    pub fn is_empty(&self) -> (r: bool)
        ensures
            r == all_absent(*self),
    {
        self.axioms.is_none() && self.premises.is_none() && self.inference_rules.is_none()
            && self.contraries.is_none() && self.rule_preferences.is_none()
            && self.knowledge_preferences.is_none()
    }

    /// A request with no field present.
    pub fn absent() -> (r: Self)
        ensures
            all_absent(r),
    {
        PartialSpecification {
            axioms: None,
            premises: None,
            inference_rules: None,
            contraries: None,
            rule_preferences: None,
            knowledge_preferences: None,
        }
    }
}

impl From<Specification> for PartialSpecification {
    fn from(spec: Specification) -> (r: PartialSpecification) {
        PartialSpecification {
            axioms: Some(spec.axioms),
            premises: Some(spec.premises),
            inference_rules: Some(spec.inference_rules),
            contraries: Some(spec.contraries),
            rule_preferences: Some(spec.rule_preferences),
            knowledge_preferences: Some(spec.knowledge_preferences),
        }
    }
}

impl vstd::std_specs::convert::FromSpecImpl<Specification> for PartialSpecification {
    open spec fn obeys_from_spec() -> bool {
        true
    }

    open spec fn from_spec(spec: Specification) -> PartialSpecification {
        PartialSpecification {
            axioms: Some(spec.axioms),
            premises: Some(spec.premises),
            inference_rules: Some(spec.inference_rules),
            contraries: Some(spec.contraries),
            rule_preferences: Some(spec.rule_preferences),
            knowledge_preferences: Some(spec.knowledge_preferences),
        }
    }
}

fn copy_field(f: &Option<String>) -> (r: Option<String>)
    ensures
        field_view(r) == field_view(*f),
{
    match f {
        Some(s) => Some(s.clone()),
        None => None,
    }
}

/// The verdict on one field, given what its parser reported.
pub fn conditionally_validate(field: &Option<String>, parse_error: &Option<String>) -> (r: Option<String>)
    ensures
        field_view(r) == field_verdict(*field, *parse_error),
{
    match field {
        Some(_) => copy_field(parse_error),
        None => None,
    }
}

/// The per-field errors of a request, given what each field's parser reported
/// on it. Every field is judged, whatever the others hold.
pub fn validate_fields(spec: &PartialSpecification, parse_errors: &PartialSpecification) -> (r:
    PartialSpecification)
    ensures
        verdicts(*spec, *parse_errors, r),
{
    let mut errors = PartialSpecification::absent();
    errors.axioms = conditionally_validate(&spec.axioms, &parse_errors.axioms);
    errors.premises = conditionally_validate(&spec.premises, &parse_errors.premises);
    errors.inference_rules = conditionally_validate(&spec.inference_rules, &parse_errors.inference_rules);
    errors.contraries = conditionally_validate(&spec.contraries, &parse_errors.contraries);
    errors.rule_preferences = conditionally_validate(&spec.rule_preferences, &parse_errors.rule_preferences);
    errors.knowledge_preferences = conditionally_validate(
        &spec.knowledge_preferences,
        &parse_errors.knowledge_preferences,
    );
    errors
}

/// Accepts a request when no field has an error; otherwise hands back the
/// per-field errors.
pub fn validate(spec: &PartialSpecification, parse_errors: &PartialSpecification) -> (r: Result<
    (),
    PartialSpecification,
>)
    ensures
        r is Ok <==> no_errors(*spec, *parse_errors),
        r matches Err(e) ==> verdicts(*spec, *parse_errors, e),
{
    let errors = validate_fields(spec, parse_errors);
    if errors.is_empty() {
        Ok(())
    } else {
        Err(errors)
    }
}

} // verus!
