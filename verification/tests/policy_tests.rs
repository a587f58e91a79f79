use pabs_crf::policy::Policy;

#[test]
fn parser_rejects_not() {
    let result = Policy::parse("NOT admin");
    assert!(result.is_err(), "Parser should reject NOT operator");
}

#[test]
fn parsed_policy_evaluates() {
    let policy = Policy::parse("(admin AND finance) OR user").unwrap();
    assert!(policy.satisfies(&["admin", "finance"]));
    assert!(policy.satisfies(&["user"]));
    assert!(!policy.satisfies(&["admin"]));
    assert!(policy.equals(&Policy::parse("user OR (finance AND admin)").unwrap()) == false);
    assert!(policy.equals(&Policy::parse("(admin AND finance) OR user").unwrap()));
}
