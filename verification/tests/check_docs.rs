use doc_checker::{check_contract_docs, check_docs, CheckConfig, Severity};

#[test]
fn test_documented_event_passes() {
    let code = r#"
    #[contracttype]
    pub struct TransferEvent {
        /// The sender.
        pub from: Address,
        /// The recipient.
        pub to: Address,
    }
    "#;
    let errors = check_contract_docs(code, "test.rs", true);
    assert!(errors.is_empty(), "Expected no errors, got: {:?}", errors);
}

#[test]
fn test_undocumented_event_fails() {
    let code = r#"
    #[contracttype]
    pub struct TransferEvent {
        pub from: Address, // missing docs
        /// receiver
        pub to: Address,
    }
    "#;
    let errors = check_contract_docs(code, "test.rs", true);
    assert_eq!(errors.len(), 1);
    assert!(errors[0].contains("missing docs for field from"));
}

#[test]
fn test_non_event_struct_ignored() {
    let code = r#"
    #[contracttype]
    pub struct StateStruct {
        pub from: Address,
    }
    "#;
    let errors = check_contract_docs(code, "test.rs", true);
    assert!(errors.is_empty());
}

#[test]
fn test_events_flag_disabled_ignores_undocumented_events() {
    let code = r#"
    #[contracttype]
    pub struct TransferEvent {
        pub from: Address,
    }
    "#;
    let errors = check_contract_docs(code, "test.rs", false);
    assert!(errors.is_empty());
}

#[test]
fn test_enum_event_fails() {
    let code = r#"
    #[contracttype]
    pub enum OpPayload {
        /// Variant doc
        A,
        B, // missing doc
    }
    "#;
    let errors = check_contract_docs(code, "test.rs", true);
    assert_eq!(errors.len(), 1);
    assert!(errors[0].contains("missing docs for variant B"));
}

fn warn_config() -> CheckConfig {
    CheckConfig {
        check_events: false,
        check_undocumented_fns: true,
        check_error_enums: true,
        check_orphaned_docs: false,
        check_stale_refs: false,
        new_check_severity: Severity::Warn,
    }
}

#[test]
fn test_undocumented_fn_flagged() {
    let code = r#"
    #[contractimpl]
    impl C {
        pub fn no_docs(env: Env, x: i128) -> i128 { x }
    }
    "#;
    let findings = check_docs(code, "test.rs", &warn_config());
    assert_eq!(findings.len(), 1, "got: {:?}", findings);
    assert!(findings[0].message.contains("no doc comment at all"));
    assert_eq!(findings[0].severity, Severity::Warn);
}

#[test]
fn test_partial_doc_fn_not_reported_as_undocumented() {
    // A function with some docs is handled by the existing section-based
    // check, not the "no doc comment at all" rule.
    let code = r#"
    #[contractimpl]
    impl C {
        /// Does a thing.
        pub fn partial(env: Env, x: i128) -> i128 { x }
    }
    "#;
    let findings = check_docs(code, "test.rs", &warn_config());
    assert!(findings
        .iter()
        .all(|f| !f.message.contains("no doc comment at all")));
}

#[test]
fn test_undocumented_error_variant_flagged() {
    let code = r#"
    #[contracterror]
    pub enum MyError {
        /// Documented.
        First = 1,
        Second = 2,
    }
    "#;
    let findings = check_docs(code, "test.rs", &warn_config());
    assert_eq!(findings.len(), 1, "got: {:?}", findings);
    assert!(findings[0]
        .message
        .contains("variant Second has no doc comment"));
}

#[test]
fn test_documented_error_enum_passes() {
    let code = r#"
    #[contracterror]
    pub enum MyError {
        /// First.
        First = 1,
        /// Second.
        Second = 2,
    }
    "#;
    let findings = check_docs(code, "test.rs", &warn_config());
    assert!(findings.is_empty(), "got: {:?}", findings);
}

#[test]
fn test_strict_promotes_new_checks_to_fail() {
    let code = r#"
    #[contracterror]
    pub enum MyError {
        Undocumented = 1,
    }
    "#;
    let mut cfg = warn_config();
    cfg.new_check_severity = Severity::Fail;
    let findings = check_docs(code, "test.rs", &cfg);
    assert_eq!(findings.len(), 1);
    assert_eq!(findings[0].severity, Severity::Fail);
}

#[test]
fn test_new_checks_can_be_disabled() {
    let code = r#"
    #[contracterror]
    pub enum MyError {
        Undocumented = 1,
    }
    #[contractimpl]
    impl C {
        pub fn no_docs(env: Env) {}
    }
    "#;
    let cfg = CheckConfig {
        check_events: false,
        check_undocumented_fns: false,
        check_error_enums: false,
        check_orphaned_docs: false,
        check_stale_refs: false,
        new_check_severity: Severity::Warn,
    };
    let findings = check_docs(code, "test.rs", &cfg);
    assert!(findings.is_empty(), "got: {:?}", findings);
}

#[test]
fn test_malformed_source_does_not_panic() {
    // Fails safe: unparseable input yields no findings rather than crashing.
    let code = "this is not valid rust ;;; {{{";
    let findings = check_docs(code, "test.rs", &warn_config());
    assert!(findings.is_empty());
}
