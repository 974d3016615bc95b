use jitos::canonical::{decode, encode, Value};
use jitos::delta::{DeltaError, DeltaKind, DeltaSpec, InputEvent};
use jitos::events::AgentId;
use jitos::record::{hash_value, text_value};

fn h(b: u8) -> jitos::hash::Hash {
    jitos::hash::Hash([b; 32])
}

/// The wire record of a descriptor with an explicitly chosen stored digest.
fn record_with_hash(kind: &DeltaKind, description: &str, hash: jitos::hash::Hash) -> Value {
    Value::Mapping(vec![
        (text_value("kind"), kind.to_value()),
        (text_value("description"), text_value(description)),
        (text_value("hash"), hash_value(&hash)),
    ])
}

#[test]
fn test_deltaspec_canonical_encoding() {
    let delta = DeltaSpec::new_scheduler_policy(h(1), "Test scheduler policy change".to_string()).unwrap();
    let bytes1 = delta.to_bytes().expect("encoding should succeed");
    let bytes2 = delta.to_bytes().expect("encoding should succeed");
    assert_eq!(bytes1, bytes2, "Canonical encoding must be deterministic");
}

#[test]
fn test_deltaspec_roundtrip() {
    let original = DeltaSpec::new_clock_policy(h(2), "Test clock policy change".to_string()).expect("construction should succeed");
    let bytes = original.to_bytes().expect("encoding should succeed");
    let decoded = DeltaSpec::from_bytes(&bytes).expect("decoding should succeed");
    assert_eq!(original, decoded, "DeltaSpec must round-trip through canonical encoding");
}

#[test]
fn test_deltaspec_hash_stability() {
    let delta = DeltaSpec::new_trust_policy(
        vec![AgentId::new("alice").expect("valid agent id"), AgentId::new("bob").expect("valid agent id")],
        "Test trust policy change".to_string(),
    )
    .unwrap();
    let hash1 = delta.compute_hash().expect("hash computation should succeed");
    let hash2 = delta.compute_hash().expect("hash computation should succeed");
    assert_eq!(hash1, hash2, "Hash computation must be deterministic and stable");
    assert_eq!(hash1, delta.hash());
}

#[test]
fn test_different_deltas_different_hashes() {
    let delta1 = DeltaSpec::new_scheduler_policy(h(1), "First delta".to_string()).unwrap();
    let delta2 = DeltaSpec::new_clock_policy(h(2), "Second delta".to_string()).unwrap();
    assert_ne!(delta1.compute_hash().unwrap(), delta2.compute_hash().unwrap(), "Different DeltaSpecs must produce different hashes");
}

#[test]
fn test_trust_policy_rejects_empty_roots() {
    let result = DeltaSpec::new_trust_policy(vec![], "Dangerous: trust no one".to_string());
    assert!(result.is_err(), "TrustPolicy with empty new_trust_roots should be rejected");
    match result {
        Err(DeltaError::InvalidStructure(msg)) => {
            assert!(msg.contains("trust no one"), "Error message should explain the danger");
        },
        _ => panic!("Expected InvalidStructure error"),
    }
}

#[test]
fn test_input_mutation_insert() {
    let insert_event = InputEvent { placeholder: 123 };
    let delta = DeltaSpec::new_input_mutation(vec![insert_event], vec![], vec![], "Insert a delayed network packet".to_string())
        .expect("InputMutation with insert should succeed");
    match &delta.kind {
        DeltaKind::InputMutation { insert, delete, modify } => {
            assert_eq!(insert.len(), 1, "Should have 1 inserted event");
            assert_eq!(delete.len(), 0, "Should have 0 deleted events");
            assert_eq!(modify.len(), 0, "Should have 0 modified events");
            assert_eq!(insert[0].placeholder, 123, "Inserted event should match");
        },
        _ => panic!("Expected InputMutation kind"),
    }
    assert_ne!(delta.hash(), h(0), "Hash should be computed");
}

#[test]
fn test_input_mutation_delete() {
    let event_to_delete = h(42);
    let delta = DeltaSpec::new_input_mutation(vec![], vec![event_to_delete], vec![], "Delete a network packet".to_string())
        .expect("InputMutation with delete should succeed");
    match &delta.kind {
        DeltaKind::InputMutation { insert, delete, modify } => {
            assert_eq!(insert.len(), 0, "Should have 0 inserted events");
            assert_eq!(delete.len(), 1, "Should have 1 deleted event");
            assert_eq!(modify.len(), 0, "Should have 0 modified events");
            assert_eq!(delete[0], event_to_delete, "Deleted event ID should match");
        },
        _ => panic!("Expected InputMutation kind"),
    }
}

#[test]
fn test_input_mutation_modify() {
    let event_to_modify = h(99);
    let modified_event = InputEvent { placeholder: 456 };
    let delta = DeltaSpec::new_input_mutation(vec![], vec![], vec![(event_to_modify, modified_event)], "Modify a network packet".to_string())
        .expect("InputMutation with modify should succeed");
    match &delta.kind {
        DeltaKind::InputMutation { insert, delete, modify } => {
            assert_eq!(insert.len(), 0, "Should have 0 inserted events");
            assert_eq!(delete.len(), 0, "Should have 0 deleted events");
            assert_eq!(modify.len(), 1, "Should have 1 modified event");
            assert_eq!(modify[0].0, event_to_modify, "Modified event ID should match");
            assert_eq!(modify[0].1.placeholder, 456, "Modified event should match");
        },
        _ => panic!("Expected InputMutation kind"),
    }
}

#[test]
fn test_deserialize_validates_hash() {
    let valid_delta = DeltaSpec::new_scheduler_policy(h(1), "Test policy".to_string()).expect("construction should succeed");
    let bytes = valid_delta.to_bytes().expect("encoding should succeed");
    let deserialized = DeltaSpec::from_bytes(&bytes).expect("valid hash should deserialize");
    assert_eq!(deserialized, valid_delta);
}

#[test]
fn test_deserialize_rejects_tampered_hash() {
    let mut wrong = [0u8; 32];
    wrong[0] = 0xDE;
    wrong[1] = 0xAD;
    wrong[2] = 0xBE;
    wrong[3] = 0xEF;
    let kind = DeltaKind::SchedulerPolicy { new_policy: h(1) };
    let bytes = encode(&record_with_hash(&kind, "Test policy", jitos::hash::Hash(wrong))).expect("encoding should succeed");
    let result = DeltaSpec::from_bytes(&bytes);
    assert!(result.is_err(), "Deserialization should reject DeltaSpec with tampered hash");
    assert!(matches!(result, Err(DeltaError::InvalidHash)));
}

#[test]
fn test_constructors_produce_valid_specs() {
    let scheduler = DeltaSpec::new_scheduler_policy(h(1), "Scheduler test".to_string()).expect("should succeed");
    let clock = DeltaSpec::new_clock_policy(h(2), "Clock test".to_string()).expect("should succeed");
    let trust = DeltaSpec::new_trust_policy(vec![AgentId::new("alice").expect("valid id")], "Trust test".to_string()).expect("should succeed");
    let mutation = DeltaSpec::new_input_mutation(vec![InputEvent { placeholder: 1 }], vec![h(5)], vec![(h(6), InputEvent { placeholder: 7 })], "Mutation test".to_string()).expect("should succeed");
    for delta in &[scheduler, clock, trust, mutation] {
        let bytes = delta.to_bytes().expect("encoding should succeed");
        let decoded = DeltaSpec::from_bytes(&bytes).expect("decoding should succeed");
        assert_eq!(&decoded, delta, "Round-trip should preserve DeltaSpec");
    }
}

#[test]
fn delta_hash_is_digest_of_kind_and_description() {
    let delta = DeltaSpec::new_clock_policy(h(2), "Clock test".to_string()).unwrap();
    let input = Value::Array(vec![delta.kind.to_value(), text_value("Clock test")]);
    let bytes = encode(&input).unwrap();
    assert_eq!(delta.hash().0, *blake3::hash(&bytes).as_bytes());
    assert!(decode(&bytes).is_ok());
}

#[test]
fn description_changes_hash() {
    let a = DeltaSpec::new_clock_policy(h(2), "one".to_string()).unwrap();
    let b = DeltaSpec::new_clock_policy(h(2), "two".to_string()).unwrap();
    assert_ne!(a.hash(), b.hash());
}

#[test]
fn delta_bytes_are_the_encoding_of_its_record() {
    let trust = DeltaSpec::new_trust_policy(vec![AgentId::new("alice").unwrap(), AgentId::new("bob").unwrap()], "t".to_string()).unwrap();
    let mutation = DeltaSpec::new_input_mutation(vec![InputEvent { placeholder: 300 }], vec![h(5)], vec![(h(6), InputEvent { placeholder: 7 })], "m".to_string()).unwrap();
    for d in [trust, mutation] {
        assert_eq!(d.to_bytes().unwrap(), encode(&d.to_value()).unwrap());
    }
}

#[test]
fn delta_record_with_matching_hash_is_read_back() {
    let d = DeltaSpec::new_scheduler_policy(h(1), "s".to_string()).unwrap();
    let back = DeltaSpec::from_value(&d.to_value()).unwrap();
    assert_eq!(back, d);
}
