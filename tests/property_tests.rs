use able::{
    AuthorityError, AuthorityManager, AuthorityUnit, ConsumedSet, DecisionTrace, ExecutionGate,
    ExecutionGateError, LiabilityRecord, ManagerError,
};

const T: i64 = 1640995200;

fn unit(id: &str, scope: &str, price: i64, ts: i64) -> AuthorityUnit {
    AuthorityUnit::new(id.to_string(), scope.to_string(), vec!["root".to_string()], price, ts, None)
        .unwrap()
}

#[test]
fn construction_keeps_every_field() {
    let au = AuthorityUnit::new(
        "t1".to_string(),
        "read".to_string(),
        vec!["root".to_string(), "agent".to_string()],
        0,
        -7,
        Some("abc".to_string()),
    )
    .unwrap();
    assert_eq!(au.id, "t1");
    assert_eq!(au.scope, "read");
    assert_eq!(au.delegation_chain, vec!["root".to_string(), "agent".to_string()]);
    assert_eq!(au.price, 0);
    assert_eq!(au.timestamp, -7);
    assert_eq!(au.prev_hash, Some("abc".to_string()));
}

#[test]
fn construction_reports_first_violation() {
    let r = AuthorityUnit::new("t1".to_string(), "".to_string(), vec![], -5, T, None);
    assert!(matches!(r, Err(AuthorityError::NegativePrice(-5))));
    let r = AuthorityUnit::new("t1".to_string(), "".to_string(), vec![], 1, T, None);
    assert!(matches!(r, Err(AuthorityError::EmptyScope)));
    let r = AuthorityUnit::new("t1".to_string(), "read".to_string(), vec![], 1, T, None);
    assert!(matches!(r, Err(AuthorityError::EmptyDelegationChain)));
}

#[test]
fn fingerprint_exact_value() {
    let au = unit("test-123", "read", 10, T);
    assert_eq!(au.hash(), "304f1e77e308c4c399ee0f93e3eda77bbc8f5b78c2ffbd05acc96495556e9ac5");
}

#[test]
fn fingerprint_renders_chain_sign_and_predecessor() {
    let au = AuthorityUnit::new(
        "test-123".to_string(),
        "read".to_string(),
        vec!["root".to_string(), "user".to_string()],
        10,
        -5,
        Some("abc".to_string()),
    )
    .unwrap();
    assert_eq!(
        au.canonical_bytes(),
        b"test-123|read|4:root4:user|10|-5|Some(\"abc\")".to_vec()
    );
    assert_eq!(au.hash(), "042ab1e8c0d901f9648a584ca2598a1451ea23acd5b7d7b2f4f21fdd1de89c46");
}

#[test]
fn fingerprint_deterministic_and_field_sensitive() {
    let a = unit("t1", "read", 10, T);
    let b = unit("t1", "read", 10, T);
    assert_eq!(a.hash(), b.hash());
    assert_ne!(a.hash(), unit("t1", "read", 11, T).hash());
    assert_ne!(a.hash(), unit("t1", "write", 10, T).hash());
    assert_ne!(a.hash(), unit("t1", "read", 10, T + 1).hash());
    let c = AuthorityUnit::new(
        "t1".to_string(),
        "read".to_string(),
        vec!["root".to_string()],
        10,
        T,
        Some("p".to_string()),
    )
    .unwrap();
    assert_ne!(a.hash(), c.hash());
}

#[test]
fn validity_boundary() {
    let au = unit("t1", "read", 10, T);
    assert!(au.is_valid(T + 3600, 3600));
    assert!(!au.is_valid(T + 3601, 3600));
    assert!(au.is_valid(T - 100000, 3600));
    assert!(au.is_valid(i64::MAX, i64::MAX));
    assert!(!au.is_valid(i64::MAX, 0));
}

#[test]
fn scope_matching_pairs() {
    let read = unit("t1", "read", 10, T);
    assert!(read.can_consume("read"));
    assert!(!read.can_consume("Read"));
    assert!(!read.can_consume("rea"));
    assert!(!read.can_consume("any"));
    assert!(!read.can_consume(""));
    let any = unit("t2", "any", 10, T);
    assert!(any.can_consume(""));
    assert!(any.can_consume("delete"));
}

#[test]
fn single_successful_consumption() {
    let mut gate = ExecutionGate::new(|_: &AuthorityUnit| true);
    let u = unit("t1", "read", 10, T);
    let (trace, record) =
        gate.execute_with_authority(&u, &|| Ok("ok".to_string()), "a1", "read").unwrap();
    assert_eq!(trace.authority_id, "t1");
    assert_eq!(trace.action_name, "a1");
    assert_eq!(trace.result, "ok");
    assert_eq!(trace.id.len(), 36);
    assert_eq!(record.price, 10);
    assert_eq!(record.scope, "read");
    assert_eq!(record.trace_id, trace.id);
    assert_ne!(record.id, trace.id);
    assert!(gate.is_consumed("t1").unwrap());
    let second = gate.execute_with_authority(&u, &|| Ok("ok".to_string()), "a1", "read");
    assert!(matches!(second, Err(ExecutionGateError::AlreadyConsumed(ref id)) if id == "t1"));
}

#[test]
fn rollback_on_failure() {
    let mut gate = ExecutionGate::new(|_: &AuthorityUnit| true);
    let u = unit("t1", "read", 10, T);
    let r = gate.execute_with_authority(&u, &|| Err("boom".to_string()), "a2", "read");
    assert!(matches!(r, Err(ExecutionGateError::ActionFailed(ref m)) if m == "boom"));
    assert!(!gate.is_consumed("t1").unwrap());
    let again = gate.execute_with_authority(&u, &|| Ok("fine".to_string()), "a2", "read");
    assert!(again.is_ok());
    assert!(gate.is_consumed("t1").unwrap());
}

#[test]
fn invalid_and_scope_errors_carry_details() {
    let mut refusing = ExecutionGate::new(|_: &AuthorityUnit| false);
    let u = unit("t1", "read", 10, T);
    let r = refusing.execute_with_authority(&u, &|| Ok("x".to_string()), "a", "read");
    assert!(matches!(r, Err(ExecutionGateError::InvalidAuthority(ref id)) if id == "t1"));
    assert!(!refusing.is_consumed("t1").unwrap());

    let mut gate = ExecutionGate::new(|_: &AuthorityUnit| true);
    let r = gate.execute_with_authority(&u, &|| Ok("x".to_string()), "a", "write");
    match r {
        Err(ExecutionGateError::ScopeMismatch { authority_scope, action_scope }) => {
            assert_eq!(authority_scope, "read");
            assert_eq!(action_scope, "write");
        }
        _ => panic!("expected a scope mismatch"),
    }
    assert!(!gate.is_consumed("t1").unwrap());
}

#[test]
fn exactly_once_over_many_attempts() {
    let mut gate = ExecutionGate::new(|_: &AuthorityUnit| true);
    let u = unit("t1", "read", 10, T);
    let mut ok = 0;
    let mut consumed = 0;
    for _ in 0..16 {
        match gate.execute_with_authority(&u, &|| Ok("done".to_string()), "a", "read") {
            Ok(_) => ok += 1,
            Err(ExecutionGateError::AlreadyConsumed(_)) => consumed += 1,
            Err(e) => panic!("unexpected error {:?}", e),
        }
    }
    assert_eq!(ok, 1);
    assert_eq!(consumed, 15);
}

#[test]
fn check_and_mark_steps() {
    let mut set = ConsumedSet::new();
    let u = unit("t1", "read", 10, T);
    assert!(matches!(set.begin(false, &u, "read"), Err(ExecutionGateError::InvalidAuthority(_))));
    assert!(!set.contains("t1"));
    assert!(set.begin(true, &u, "read").is_ok());
    assert!(set.contains("t1"));
    assert!(matches!(set.begin(true, &u, "read"), Err(ExecutionGateError::AlreadyConsumed(_))));
    let r = set.finish(&u, "a", Err("no".to_string()));
    assert!(matches!(r, Err(ExecutionGateError::ActionFailed(ref m)) if m == "no"));
    assert!(!set.contains("t1"));
}

#[test]
fn issuance_guard_keeps_first_unit() {
    let mut manager = AuthorityManager::new();
    let first = unit("t1", "read", 10, T);
    let second = unit("t1", "write", 99, T);
    assert!(manager.issue_authority(first).is_ok());
    let r = manager.issue_authority(second);
    assert!(matches!(r, Err(ManagerError::DuplicateAuthority(ref id)) if id == "t1"));
    let stored = manager.get_authority("t1").unwrap();
    assert_eq!(stored.scope, "read");
    assert_eq!(stored.price, 10);
}

#[test]
fn validation_rejects_any_altered_field() {
    let mut manager = AuthorityManager::with_max_age(3600);
    let u = unit("t1", "read", 10, T);
    manager.issue_authority(u.clone()).unwrap();
    assert!(manager.validate_authority_at(&u, T + 3600));
    assert!(!manager.validate_authority_at(&u, T + 3601));
    let mut altered = manager.get_authority("t1").unwrap();
    altered.price = 20;
    assert!(!manager.validate_authority_at(&altered, T));
    let mut altered = u.clone();
    altered.delegation_chain.push("x".to_string());
    assert!(!manager.validate_authority_at(&altered, T));
    let mut altered = u.clone();
    altered.prev_hash = Some("p".to_string());
    assert!(!manager.validate_authority_at(&altered, T));
    let mut altered = u.clone();
    altered.timestamp = T + 1;
    assert!(!manager.validate_authority_at(&altered, T));
}

#[test]
fn default_manager_uses_one_hour() {
    let mut manager = AuthorityManager::default();
    let u = unit("t1", "read", 10, T);
    manager.issue_authority(u.clone()).unwrap();
    assert!(manager.validate_authority_at(&u, T + 3600));
    assert!(!manager.validate_authority_at(&u, T + 3601));
}

#[test]
fn end_to_end_scenario() {
    let mut manager = AuthorityManager::with_max_age(3600);
    let now = able::current_timestamp();
    let u = unit("t1", "read", 10, now);
    manager.issue_authority(u.clone()).unwrap();
    let mut gate = ExecutionGate::new(|au: &AuthorityUnit| manager.validate_authority(au));
    let (trace, record) =
        gate.execute_with_authority(&u, &|| Ok("done".to_string()), "a1", "read").unwrap();
    assert_eq!(trace.result, "done");
    assert_eq!(record.price, 10);
    let again = gate.execute_with_authority(&u, &|| Ok("done".to_string()), "a1", "read");
    assert!(matches!(again, Err(ExecutionGateError::AlreadyConsumed(_))));
}

#[test]
fn clock_reads_seconds_since_epoch() {
    let now = able::current_timestamp();
    assert!(now > T);
    assert!(now < 100_000_000_000);
}

#[test]
fn fingerprint_is_lowercase_hex() {
    let h = unit("test-123", "read", 10, T).hash();
    assert_eq!(h.len(), 64);
    assert!(h.chars().all(|c| c.is_ascii_digit() || ('a'..='f').contains(&c)));
}

#[test]
fn chain_elements_are_not_merged() {
    let merged = AuthorityUnit::new(
        "t1".to_string(),
        "read".to_string(),
        vec!["a,b".to_string()],
        10,
        T,
        None,
    )
    .unwrap();
    let split = AuthorityUnit::new(
        "t1".to_string(),
        "read".to_string(),
        vec!["a".to_string(), "b".to_string()],
        10,
        T,
        None,
    )
    .unwrap();
    assert_ne!(merged.canonical_bytes(), split.canonical_bytes());
    assert_ne!(merged.hash(), split.hash());
    assert_eq!(merged.canonical_bytes(), b"t1|read|3:a,b|10|1640995200|None".to_vec());
}

#[test]
fn units_compare_by_every_field() {
    let a = unit("t1", "read", 10, T);
    assert!(a == a.clone());
    let mut b = a.clone();
    b.delegation_chain.push("x".to_string());
    assert!(a != b);
}

#[test]
fn stamped_records_keep_time_and_id() {
    let dt = DecisionTrace::stamped(
        "a1".to_string(),
        "t1".to_string(),
        "done".to_string(),
        42,
        "trace-1".to_string(),
    );
    assert_eq!(dt.timestamp, 42);
    assert_eq!(dt.id, "trace-1");
    assert_eq!(dt.result, "done");
    let lr = LiabilityRecord::stamped(
        dt.id.clone(),
        "t1".to_string(),
        10,
        "read".to_string(),
        43,
        "record-1".to_string(),
    );
    assert_eq!(lr.trace_id, "trace-1");
    assert_eq!(lr.timestamp, 43);
    assert_eq!(lr.id, "record-1");
    assert_eq!(lr.price, 10);
}

#[test]
fn minted_records_carry_clock_reading() {
    let before = able::current_timestamp();
    let dt = DecisionTrace::new("a".to_string(), "t1".to_string(), "r".to_string());
    let lr = LiabilityRecord::new(dt.id.clone(), "t1".to_string(), 5, "read".to_string());
    let after = able::current_timestamp();
    assert!(before <= dt.timestamp && dt.timestamp <= after);
    assert!(before <= lr.timestamp && lr.timestamp <= after);
    assert_eq!(lr.id.len(), 36);
    assert_ne!(lr.id, dt.id);
}
