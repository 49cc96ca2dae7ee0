use doc_checker::identity::finding_identity;

#[test]
fn test_identity_undocumented_fn() {
    let id = finding_identity(
        "../../onchain/contracts/multisig/src/lib.rs:37: fn deposit has no doc comment at all",
    )
    .unwrap();
    assert_eq!(
        id,
        "onchain/contracts/multisig/src/lib.rs|fn-undocumented|deposit"
    );
}

#[test]
fn test_identity_fn_missing_sections() {
    let id = finding_identity(
        "../../onchain/contracts/rbac/src/lib.rs:12: fn grant_role missing params, return, access control",
    )
    .unwrap();
    assert_eq!(
        id,
        "onchain/contracts/rbac/src/lib.rs|fn-missing-sections|grant_role"
    );
}

#[test]
fn test_identity_error_variant() {
    let id = finding_identity(
        "../../onchain/contracts/stello_pay_contract/src/lib.rs:88: error enum ContractError variant Unauthorized has no doc comment",
    )
    .unwrap();
    assert_eq!(
        id,
        "onchain/contracts/stello_pay_contract/src/lib.rs|error-variant|ContractError::Unauthorized"
    );
}

#[test]
fn test_identity_event_field() {
    let id = finding_identity(
        "onchain/contracts/foo/src/lib.rs:5: struct TransferEvent missing docs for field from",
    )
    .unwrap();
    assert_eq!(
        id,
        "onchain/contracts/foo/src/lib.rs|event-field|TransferEvent::from"
    );
}

#[test]
fn test_identity_event_unnamed_field() {
    let id = finding_identity(
        "onchain/contracts/foo/src/lib.rs: struct TuplePayload missing docs for unnamed field 2",
    )
    .unwrap();
    assert_eq!(
        id,
        "onchain/contracts/foo/src/lib.rs|event-unnamed-field|TuplePayload::2"
    );
}

#[test]
fn test_identity_event_variant() {
    let id = finding_identity(
        "onchain/contracts/foo/src/lib.rs:9: enum OpPayload missing docs for variant B",
    )
    .unwrap();
    assert_eq!(id, "onchain/contracts/foo/src/lib.rs|event-variant|OpPayload::B");
}

#[test]
fn test_identity_orphaned_doc() {
    let id = finding_identity(
        "docs/legacy/old-guide.md: orphaned doc - not reachable from README.md or any docs index file",
    )
    .unwrap();
    assert_eq!(
        id,
        "docs/legacy/old-guide.md|orphaned-doc|docs/legacy/old-guide.md"
    );
}

#[test]
fn test_identity_stale_ref() {
    let id = finding_identity(
        "docs/api.md:41: stale doc reference to `old_func` – no matching pub fn found in contracts",
    )
    .unwrap();
    assert_eq!(id, "docs/api.md|stale-ref|old_func");
}

// ------------------------------------------------------------------
// Stability + fail-closed behavior
// ------------------------------------------------------------------

#[test]
fn test_identity_ignores_line_numbers() {
    let a = finding_identity("docs/a.md:10: fn foo has no doc comment at all").unwrap();
    let b = finding_identity("docs/a.md:9999: fn foo has no doc comment at all").unwrap();
    assert_eq!(a, b, "line numbers must not leak into identities");
}

#[test]
fn test_identity_normalizes_path_separators_and_parent_dirs() {
    let unix = finding_identity("../../onchain/c/src/lib.rs:1: fn foo has no doc comment at all").unwrap();
    let windows =
        finding_identity("..\\..\\onchain\\c\\src\\lib.rs:1: fn foo has no doc comment at all").unwrap();
    assert_eq!(unix, windows);
    assert!(unix.starts_with("onchain/"));
}

#[test]
fn test_unrecognized_message_is_never_classified() {
    // Fail-closed: unknown formats cannot enter or match a baseline.
    assert!(finding_identity("totally unparseable").is_none());
    assert!(finding_identity("").is_none());
    assert!(finding_identity("onchain/x.rs: fn nobody_ever_emits_this").is_none());
}
