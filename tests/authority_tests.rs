use able::{current_timestamp, AuthorityManager, AuthorityUnit, ExecutionGate};

fn unit(id: &str, scope: &str, chain: Vec<&str>, price: i64, ts: i64) -> AuthorityUnit {
    AuthorityUnit::new(
        id.to_string(),
        scope.to_string(),
        chain.into_iter().map(|s| s.to_string()).collect(),
        price,
        ts,
        None,
    )
    .unwrap()
}

#[test]
fn test_authority_unit_creation() {
    let au = AuthorityUnit::new(
        "test-123".to_string(),
        "read".to_string(),
        vec!["root".to_string(), "user".to_string()],
        10,
        1640995200,
        None,
    )
    .unwrap();

    assert_eq!(au.id, "test-123");
    assert_eq!(au.scope, "read");
    assert_eq!(au.price, 10);
    assert_eq!(au.delegation_chain.len(), 2);
}

#[test]
fn test_authority_unit_invalid_price() {
    let result = AuthorityUnit::new(
        "test-123".to_string(),
        "read".to_string(),
        vec!["root".to_string()],
        -5,
        1640995200,
        None,
    );
    assert!(result.is_err());
}

#[test]
fn test_authority_unit_empty_scope() {
    let result = AuthorityUnit::new(
        "test-123".to_string(),
        "".to_string(),
        vec!["root".to_string()],
        10,
        1640995200,
        None,
    );
    assert!(result.is_err());
}

#[test]
fn test_authority_unit_empty_delegation() {
    let result = AuthorityUnit::new(
        "test-123".to_string(),
        "read".to_string(),
        vec![],
        10,
        1640995200,
        None,
    );
    assert!(result.is_err());
}

#[test]
fn test_authority_unit_hash() {
    let au = AuthorityUnit::new(
        "test-123".to_string(),
        "read".to_string(),
        vec!["root".to_string()],
        10,
        1640995200,
        None,
    )
    .unwrap();

    assert_eq!(au.hash().len(), 64);
}

#[test]
fn test_authority_unit_validity() {
    let au = AuthorityUnit::new(
        "test-123".to_string(),
        "read".to_string(),
        vec!["root".to_string()],
        10,
        1640995200,
        None,
    )
    .unwrap();

    assert!(au.is_valid(1640995200 + 1000, 3600));
    assert!(!au.is_valid(1640995200 + 3700, 3600));
}

#[test]
fn test_authority_unit_consumption() {
    let au = unit("test-123", "read", vec!["root"], 10, 1640995200);

    assert!(au.can_consume("read"));
    assert!(!au.can_consume("write"));

    let au_any = unit("test-456", "any", vec!["root"], 10, 1640995200);

    assert!(au_any.can_consume("read"));
    assert!(au_any.can_consume("write"));
}

#[test]
fn test_execution_gate_valid_authority() {
    let mut gate = ExecutionGate::new(|_: &AuthorityUnit| true);
    let au = unit("test-123", "read", vec!["root"], 10, 1640995200);

    let result =
        gate.execute_with_authority(&au, &|| Ok("success".to_string()), "test_action", "read");

    assert!(result.is_ok());
    let (trace, liability) = result.unwrap();
    assert_eq!(trace.action_name, "test_action");
    assert_eq!(trace.authority_id, "test-123");
    assert_eq!(liability.authority_id, "test-123");
    assert_eq!(liability.price, 10);
}

#[test]
fn test_execution_gate_invalid_authority() {
    let mut gate = ExecutionGate::new(|_: &AuthorityUnit| false);
    let au = unit("test-123", "read", vec!["root"], 10, 1640995200);

    let result =
        gate.execute_with_authority(&au, &|| Ok("success".to_string()), "test_action", "read");

    assert!(result.is_err());
}

#[test]
fn test_execution_gate_already_consumed() {
    let mut gate = ExecutionGate::new(|_: &AuthorityUnit| true);
    let au = unit("test-123", "read", vec!["root"], 10, 1640995200);

    let result1 =
        gate.execute_with_authority(&au, &|| Ok("success".to_string()), "test_action", "read");
    assert!(result1.is_ok());

    let result2 =
        gate.execute_with_authority(&au, &|| Ok("success".to_string()), "test_action_2", "read");
    assert!(result2.is_err());
}

#[test]
fn test_execution_gate_action_failure() {
    let mut gate = ExecutionGate::new(|_: &AuthorityUnit| true);
    let au = unit("test-123", "read", vec!["root"], 10, 1640995200);

    let result = gate.execute_with_authority(
        &au,
        &|| Err("Action failed".to_string()),
        "failing_action",
        "read",
    );

    assert!(result.is_err());
    assert!(!gate.is_consumed(&au.id).unwrap());
}

#[test]
fn test_execution_gate_scope_validation() {
    let mut gate = ExecutionGate::new(|_: &AuthorityUnit| true);
    let au = unit("test-123", "read", vec!["root"], 10, 1640995200);

    let result1 =
        gate.execute_with_authority(&au, &|| Ok("success".to_string()), "fetch_data", "read");
    assert!(result1.is_ok());

    let result2 =
        gate.execute_with_authority(&au, &|| Ok("success".to_string()), "write_data", "write");
    assert!(result2.is_err());
}

#[test]
fn test_execution_gate_any_scope() {
    let mut gate = ExecutionGate::new(|_: &AuthorityUnit| true);
    let au1 = unit("test-123", "any", vec!["root"], 10, 1640995200);
    let au2 = unit("test-456", "any", vec!["root"], 10, 1640995200);

    let result1 =
        gate.execute_with_authority(&au1, &|| Ok("success".to_string()), "fetch_data", "read");
    assert!(result1.is_ok());

    let result2 =
        gate.execute_with_authority(&au2, &|| Ok("success".to_string()), "write_data", "write");
    assert!(result2.is_ok());
}

#[test]
fn test_authority_manager_issue_authority() {
    let mut manager = AuthorityManager::new();
    let au = unit("test-123", "read", vec!["root"], 10, 1640995200);

    manager.issue_authority(au).unwrap();

    assert!(manager.get_authority("test-123").is_some());
}

#[test]
fn test_authority_manager_duplicate_issue() {
    let mut manager = AuthorityManager::new();
    let au = unit("test-123", "read", vec!["root"], 10, 1640995200);

    manager.issue_authority(au.clone()).unwrap();

    let result = manager.issue_authority(au);
    assert!(result.is_err());
}

#[test]
fn test_authority_manager_validate_valid() {
    let mut manager = AuthorityManager::with_max_age(i64::MAX);
    let ts = current_timestamp();
    let au = unit("test-123", "read", vec!["root"], 10, ts);

    manager.issue_authority(au.clone()).unwrap();
    assert!(manager.validate_authority(&au));
}

#[test]
fn test_authority_manager_validate_invalid() {
    let manager = AuthorityManager::new();
    let au = unit("test-123", "read", vec!["root"], 10, 1640995200);

    assert!(!manager.validate_authority(&au));
}

#[test]
fn test_authority_manager_validate_mismatched() {
    let mut manager = AuthorityManager::with_max_age(i64::MAX);
    let ts = current_timestamp();

    let au1 = unit("test-123", "read", vec!["root"], 10, ts);
    manager.issue_authority(au1).unwrap();

    let au2 = unit("test-123", "read", vec!["root"], 20, ts);
    assert!(!manager.validate_authority(&au2));
}

#[test]
fn test_authority_manager_get_nonexistent() {
    let manager = AuthorityManager::new();
    assert!(manager.get_authority("nonexistent").is_none());
}
