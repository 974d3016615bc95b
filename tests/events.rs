use jitos::canonical::{encode, Value};
use jitos::events::{
    validate_event, validate_store, AgentId, CanonicalBytes, EventEnvelope, EventError, EventKind, MemoryStore,
    Signature,
};
use jitos::record::{bytes_value, hash_value, hashes_value, text_value};

fn h(b: u8) -> jitos::hash::Hash {
    jitos::hash::Hash([b; 32])
}

fn text_payload(s: &str) -> CanonicalBytes {
    CanonicalBytes::from_value(&Value::Text(s.to_string())).unwrap()
}

fn map_payload(entries: Vec<(&str, Value)>) -> CanonicalBytes {
    let v = Value::Mapping(entries.into_iter().map(|(k, v)| (Value::Text(k.to_string()), v)).collect());
    CanonicalBytes::from_value(&v).unwrap()
}

fn test_agent_id() -> AgentId {
    AgentId::new("test-agent").unwrap()
}

fn test_signature() -> Signature {
    Signature::new(vec![0u8; 64]).unwrap()
}

fn kind_value(name: &str) -> Value {
    Value::Mapping(vec![(text_value("type"), text_value(name))])
}

/// The wire record of an envelope, with every field given explicitly.
fn envelope_record(
    event_id: jitos::hash::Hash,
    kind: &str,
    payload: &[u8],
    parents: &[jitos::hash::Hash],
    agent: Option<&str>,
    signature: Option<&[u8]>,
) -> Value {
    Value::Mapping(vec![
        (text_value("event_id"), hash_value(&event_id)),
        (text_value("kind"), kind_value(kind)),
        (text_value("payload"), bytes_value(payload)),
        (text_value("parents"), hashes_value(parents)),
        (text_value("agent_id"), agent.map(text_value).unwrap_or(Value::Null)),
        (text_value("signature"), signature.map(bytes_value).unwrap_or(Value::Null)),
        (text_value("observation_type"), Value::Null),
    ])
}

/// An envelope with a correct identity but any parents, as read from the wire.
fn imported(kind: EventKind, payload: &CanonicalBytes, parents: Vec<jitos::hash::Hash>, signature: Option<&[u8]>) -> EventEnvelope {
    let id = EventEnvelope::compute_event_id(&kind, payload, &parents).unwrap();
    let record = envelope_record(id, kind.name_str(), payload.as_bytes(), &parents, None, signature);
    EventEnvelope::from_value(&record).unwrap()
}

fn validation_message(r: Result<(), EventError>) -> String {
    match r {
        Err(EventError::ValidationError(msg)) => msg,
        other => panic!("expected a validation error, got {:?}", other),
    }
}

#[test]
fn test_genesis_observation() {
    let event = EventEnvelope::new_observation(text_payload("genesis observation"), vec![], None, Some(test_agent_id()), Some(test_signature())).unwrap();
    assert!(event.is_genesis());
    assert!(!event.is_merge());
    assert!(event.verify_event_id().unwrap());
    assert_eq!(event.kind(), &EventKind::Observation);
}

#[test]
fn test_policy_context() {
    let payload = map_payload(vec![
        ("clock_policy", text_value("trust_ntp")),
        ("scheduler_policy", text_value("fifo")),
        ("trust_policy", Value::Array(vec![text_value("agentA"), text_value("agentB")])),
    ]);
    let event = EventEnvelope::new_policy_context(payload, vec![], Some(test_agent_id()), Some(test_signature())).unwrap();
    assert!(event.is_genesis());
    assert_eq!(event.kind(), &EventKind::PolicyContext);
    assert!(event.verify_event_id().unwrap());
}

#[test]
fn test_decision_with_policy_parent() {
    let observation = EventEnvelope::new_observation(text_payload("clock_sample=6000ms"), vec![], None, Some(test_agent_id()), None).unwrap();
    let policy = EventEnvelope::new_policy_context(map_payload(vec![("clock_policy", text_value("trust_ntp"))]), vec![], Some(test_agent_id()), None).unwrap();
    let decision = EventEnvelope::new_decision(text_payload("fire_timer"), vec![observation.event_id()], policy.event_id(), Some(test_agent_id()), None).unwrap();
    assert_eq!(decision.kind(), &EventKind::Decision);
    assert!(decision.is_merge());
    assert!(decision.verify_event_id().unwrap());
    assert_eq!(decision.parents().len(), 2);
    assert!(decision.parents().contains(&observation.event_id()));
    assert!(decision.parents().contains(&policy.event_id()));
}

#[test]
fn decision_refuses_missing_evidence_and_policy_as_evidence() {
    let p = h(9);
    assert!(matches!(EventEnvelope::new_decision(text_payload("d"), vec![], p, None, None), Err(EventError::InvalidStructure(_))));
    assert!(matches!(EventEnvelope::new_decision(text_payload("d"), vec![h(1), p], p, None, None), Err(EventError::InvalidStructure(_))));
}

#[test]
fn test_commit_requires_signature() {
    let evidence = EventEnvelope::new_observation(text_payload("timer_request"), vec![], None, None, None).unwrap();
    let policy = EventEnvelope::new_policy_context(text_payload("policy"), vec![], None, None).unwrap();
    let decision = EventEnvelope::new_decision(text_payload("fire_timer"), vec![evidence.event_id()], policy.event_id(), Some(test_agent_id()), None).unwrap();
    let commit = EventEnvelope::new_commit(text_payload("timer_fired"), decision.event_id(), vec![], Some(test_agent_id()), test_signature()).unwrap();
    assert_eq!(commit.kind(), &EventKind::Commit);
    assert!(commit.signature().is_some());
    assert!(commit.verify_event_id().unwrap());
}

#[test]
fn test_parent_canonicalization() {
    let payload = text_payload("test");
    let event1 = EventEnvelope::new_observation(payload.clone(), vec![h(1), h(2), h(3)], None, None, None).unwrap();
    let event2 = EventEnvelope::new_observation(payload.clone(), vec![h(3), h(1), h(2)], None, None, None).unwrap();
    assert_eq!(event1.event_id(), event2.event_id());
    assert_eq!(event1.parents(), &[h(1), h(2), h(3)]);
}

#[test]
fn test_parent_deduplication() {
    let event = EventEnvelope::new_observation(text_payload("test"), vec![h(1), h(1), h(1)], None, None, None).unwrap();
    assert_eq!(event.parents().len(), 1);
    assert_eq!(event.parents()[0], h(1));
}

#[test]
fn test_different_policy_yields_different_event_id() {
    let policy1 = EventEnvelope::new_policy_context(map_payload(vec![("clock_policy", text_value("trust_ntp"))]), vec![], None, None).unwrap();
    let policy2 = EventEnvelope::new_policy_context(map_payload(vec![("clock_policy", text_value("trust_monotonic"))]), vec![], None, None).unwrap();
    let observation = EventEnvelope::new_observation(text_payload("clock_sample=6000ms"), vec![], None, None, None).unwrap();
    let payload = text_payload("fire_timer");
    let d1 = EventEnvelope::new_decision(payload.clone(), vec![observation.event_id()], policy1.event_id(), None, None).unwrap();
    let d2 = EventEnvelope::new_decision(payload.clone(), vec![observation.event_id()], policy2.event_id(), None, None).unwrap();
    assert_ne!(d1.event_id(), d2.event_id());
}

#[test]
fn policy_sensitive_decision_ids() {
    let o = EventEnvelope::new_observation(text_payload("O"), vec![], None, None, None).unwrap();
    let p1 = EventEnvelope::new_policy_context(map_payload(vec![("clock", text_value("ntp"))]), vec![], None, None).unwrap();
    let p2 = EventEnvelope::new_policy_context(map_payload(vec![("clock", text_value("monotonic"))]), vec![], None, None).unwrap();
    let d1 = EventEnvelope::new_decision(text_payload("payload"), vec![o.event_id()], p1.event_id(), None, None).unwrap();
    let d2 = EventEnvelope::new_decision(text_payload("payload"), vec![o.event_id()], p2.event_id(), None, None).unwrap();
    assert_ne!(d1.event_id(), d2.event_id());
}

#[test]
fn test_collision_resistance_comprehensive() {
    let base_payload = text_payload("test");
    let base = EventEnvelope::new_observation(base_payload.clone(), vec![h(0)], None, None, None).unwrap();
    let diff_parents = EventEnvelope::new_observation(base_payload.clone(), vec![h(1)], None, None, None).unwrap();
    assert_ne!(base.event_id(), diff_parents.event_id());
    let diff_kind = EventEnvelope::new_policy_context(base_payload.clone(), vec![h(0)], None, None).unwrap();
    assert_ne!(base.event_id(), diff_kind.event_id());
    let diff_payload = EventEnvelope::new_observation(text_payload("different"), vec![h(0)], None, None, None).unwrap();
    assert_ne!(base.event_id(), diff_payload.event_id());
}

#[test]
fn test_empty_payload() {
    let payload = CanonicalBytes::from_value(&Value::Null).unwrap();
    let event = EventEnvelope::new_observation(payload, vec![], None, None, None).unwrap();
    assert!(event.verify_event_id().unwrap());
    assert!(event.is_genesis());
}

#[test]
fn event_id_is_digest_of_canonical_identity_input() {
    let payload = text_payload("test");
    let event = EventEnvelope::new_observation(payload.clone(), vec![h(7)], None, None, None).unwrap();
    let input = Value::Mapping(vec![
        (text_value("kind"), kind_value("Observation")),
        (text_value("payload"), bytes_value(payload.as_bytes())),
        (text_value("parents"), hashes_value(&[h(7)])),
    ]);
    let bytes = encode(&input).unwrap();
    assert_eq!(event.event_id().0, *blake3::hash(&bytes).as_bytes());
}

#[test]
fn test_agent_id_validation() {
    assert!(AgentId::new("valid").is_ok());
    assert!(AgentId::new("").is_err());
}

#[test]
fn test_signature_validation() {
    assert!(Signature::new(vec![1, 2, 3]).is_ok());
    assert!(Signature::new(vec![]).is_err());
}

#[test]
fn test_validate_decision_without_policy_parent() {
    let mut store = MemoryStore::new();
    let obs = EventEnvelope::new_observation(text_payload("test"), vec![], None, None, None).unwrap();
    store.insert(obs.clone());
    let bad = imported(EventKind::Decision, &text_payload("bad"), vec![obs.event_id()], None);
    let msg = validation_message(validate_event(&bad, &store));
    assert!(msg.contains("exactly one PolicyContext parent"));
}

#[test]
fn test_validate_decision_with_two_policies() {
    let mut store = MemoryStore::new();
    let policy1 = EventEnvelope::new_policy_context(text_payload("policy1"), vec![], None, None).unwrap();
    let policy2 = EventEnvelope::new_policy_context(text_payload("policy2"), vec![], None, None).unwrap();
    store.insert(policy1.clone());
    store.insert(policy2.clone());
    let mut parents = vec![policy1.event_id(), policy2.event_id()];
    parents.sort();
    let bad = imported(EventKind::Decision, &text_payload("bad"), parents, None);
    let msg = validation_message(validate_event(&bad, &store));
    assert!(msg.contains("exactly one PolicyContext parent"));
}

#[test]
fn test_validate_commit_without_decision_parent() {
    let mut store = MemoryStore::new();
    let obs = EventEnvelope::new_observation(text_payload("test"), vec![], None, None, None).unwrap();
    store.insert(obs.clone());
    let bad = imported(EventKind::Commit, &text_payload("bad"), vec![obs.event_id()], Some(&[0u8; 64]));
    let msg = validation_message(validate_event(&bad, &store));
    assert!(msg.contains("at least one Decision parent"));
}

#[test]
fn test_validate_valid_store() {
    let mut store = MemoryStore::new();
    let obs = EventEnvelope::new_observation(text_payload("sample"), vec![], None, None, None).unwrap();
    let policy = EventEnvelope::new_policy_context(text_payload("policy"), vec![], None, None).unwrap();
    let decision = EventEnvelope::new_decision(text_payload("decide"), vec![obs.event_id()], policy.event_id(), None, None).unwrap();
    let commit = EventEnvelope::new_commit(text_payload("commit"), decision.event_id(), vec![], None, test_signature()).unwrap();
    store.insert(obs.clone());
    store.insert(policy.clone());
    store.insert(decision.clone());
    store.insert(commit.clone());
    let events = vec![obs, policy, decision, commit];
    assert!(validate_store(&store, &events).is_ok());
}

#[test]
fn validate_store_resolves_parents_within_the_batch() {
    let store = MemoryStore::new();
    let obs = EventEnvelope::new_observation(text_payload("sample"), vec![], None, None, None).unwrap();
    let policy = EventEnvelope::new_policy_context(text_payload("policy"), vec![], None, None).unwrap();
    let decision = EventEnvelope::new_decision(text_payload("decide"), vec![obs.event_id()], policy.event_id(), None, None).unwrap();
    let commit = EventEnvelope::new_commit(text_payload("commit"), decision.event_id(), vec![], None, test_signature()).unwrap();
    assert!(validate_store(&store, &[obs.clone(), policy.clone(), decision.clone(), commit.clone()]).is_ok());
    let msg = validation_message(validate_store(&store, &[decision, obs, policy]));
    assert!(msg.contains("unknown parent"));
}

#[test]
fn test_decision_policy_only_parent_invalid() {
    let mut store = MemoryStore::new();
    let policy = EventEnvelope::new_policy_context(text_payload("policy"), vec![], None, None).unwrap();
    store.insert(policy.clone());
    let bad = imported(EventKind::Decision, &text_payload("bad"), vec![policy.event_id()], None);
    let msg = validation_message(validate_event(&bad, &store));
    assert!(msg.contains("must have evidence parents"));
}

#[test]
fn test_canonical_bytes_rejects_non_canonical() {
    assert!(CanonicalBytes::from_bytes(vec![0xBF, 0x61, 0x61, 0x01, 0xFF]).is_err());
}

#[test]
fn test_canonical_bytes_accepts_canonical() {
    let bytes = encode(&Value::Mapping(vec![(text_value("a"), Value::Integer(1))])).unwrap();
    let wrapper = CanonicalBytes::from_bytes(bytes.clone()).unwrap();
    assert_eq!(wrapper.as_bytes(), &bytes[..]);
}

#[test]
fn test_canonical_bytes_rejects_wrong_int_encoding() {
    assert!(CanonicalBytes::from_bytes(vec![0x18, 0x17]).is_err());
}

#[test]
fn test_canonical_bytes_rejects_manually_unsorted_keys() {
    let unsorted = vec![0xA2, 0x61, 0x7A, 0x01, 0x61, 0x61, 0x02];
    assert!(CanonicalBytes::from_bytes(unsorted).is_err(), "Unsorted map keys should be rejected during deserialization");
}

#[test]
fn test_canonical_bytes_roundtrip_validation() {
    let original = Value::Mapping(vec![
        (text_value("key"), text_value("value")),
        (text_value("number"), Value::Integer(42)),
        (text_value("nested"), Value::Mapping(vec![(text_value("inner"), Value::Bool(true))])),
    ]);
    let canonical = CanonicalBytes::from_value(&original).unwrap();
    let again = CanonicalBytes::from_bytes(canonical.as_bytes().to_vec()).unwrap();
    assert_eq!(canonical.as_bytes(), again.as_bytes());
}

#[test]
fn envelope_round_trips_through_bytes() {
    let obs = EventEnvelope::new_observation(text_payload("x"), vec![h(2), h(1)], Some("TAG".to_string()), Some(AgentId::new("agent-1").unwrap()), Some(Signature::new(vec![1, 2, 3, 4]).unwrap())).unwrap();
    let bytes = obs.to_bytes().unwrap();
    let back = EventEnvelope::from_bytes(&bytes).unwrap();
    assert_eq!(back, obs);
}

#[test]
fn test_event_envelope_deserialize_rejects_tampered_id() {
    let payload = map_payload(vec![("data", text_value("test"))]);
    let record = envelope_record(h(0xFF), "Observation", payload.as_bytes(), &[], Some("agent-1"), None);
    assert!(EventEnvelope::from_value(&record).is_err(), "Deserialization should reject tampered event_id");
}

#[test]
fn test_event_envelope_deserialize_rejects_unsorted_parents() {
    let payload = map_payload(vec![("data", text_value("test"))]);
    let parents = vec![h(2), h(1)];
    let id = EventEnvelope::compute_event_id(&EventKind::Observation, &payload, &parents).unwrap();
    let record = envelope_record(id, "Observation", payload.as_bytes(), &parents, Some("agent-1"), None);
    assert!(EventEnvelope::from_value(&record).is_err(), "Deserialization should reject unsorted parents");
}

#[test]
fn test_event_envelope_deserialize_rejects_commit_without_signature() {
    let payload = map_payload(vec![("data", text_value("test"))]);
    let parents = vec![h(3)];
    let id = EventEnvelope::compute_event_id(&EventKind::Commit, &payload, &parents).unwrap();
    let record = envelope_record(id, "Commit", payload.as_bytes(), &parents, Some("agent-1"), None);
    assert!(EventEnvelope::from_value(&record).is_err(), "Deserialization should reject Commit without signature");
}

#[test]
fn test_event_envelope_deserialize_rejects_duplicate_parents() {
    let payload = map_payload(vec![("data", text_value("test"))]);
    let parents = vec![h(1), h(1)];
    let id = EventEnvelope::compute_event_id(&EventKind::Observation, &payload, &parents).unwrap();
    let record = envelope_record(id, "Observation", payload.as_bytes(), &parents, Some("agent-1"), None);
    assert!(EventEnvelope::from_value(&record).is_err(), "Deserialization should reject duplicate parents");
}

#[test]
fn deserialize_rejects_non_canonical_payload() {
    let payload = vec![0x18, 0x17];
    let record = envelope_record(h(0), "Observation", &payload, &[], None, None);
    assert!(EventEnvelope::from_value(&record).is_err());
}

#[test]
fn test_agent_id_deserialize_rejects_empty() {
    let payload = text_payload("p");
    let id = EventEnvelope::compute_event_id(&EventKind::Observation, &payload, &[]).unwrap();
    let record = envelope_record(id, "Observation", payload.as_bytes(), &[], Some(""), None);
    assert!(EventEnvelope::from_value(&record).is_err(), "Empty AgentId should be rejected during deserialization");
}

#[test]
fn test_agent_id_deserialize_accepts_non_empty() {
    let payload = text_payload("p");
    let id = EventEnvelope::compute_event_id(&EventKind::Observation, &payload, &[]).unwrap();
    let record = envelope_record(id, "Observation", payload.as_bytes(), &[], Some("agent-123"), None);
    let e = EventEnvelope::from_value(&record).unwrap();
    assert_eq!(e.agent_id().unwrap().as_str(), "agent-123");
}

#[test]
fn test_signature_deserialize_rejects_empty() {
    let payload = text_payload("p");
    let id = EventEnvelope::compute_event_id(&EventKind::Observation, &payload, &[]).unwrap();
    let record = envelope_record(id, "Observation", payload.as_bytes(), &[], None, Some(&[]));
    assert!(EventEnvelope::from_value(&record).is_err(), "Empty Signature should be rejected during deserialization");
}

#[test]
fn test_signature_deserialize_accepts_non_empty() {
    let payload = text_payload("p");
    let id = EventEnvelope::compute_event_id(&EventKind::Observation, &payload, &[]).unwrap();
    let record = envelope_record(id, "Observation", payload.as_bytes(), &[], None, Some(&[1, 2, 3, 4]));
    let e = EventEnvelope::from_value(&record).unwrap();
    assert_eq!(e.signature().unwrap().as_bytes(), &[1, 2, 3, 4]);
}

#[test]
fn test_canonical_encoder_sorts_map_keys() {
    let map = Value::Mapping(vec![(text_value("z"), Value::Integer(1)), (text_value("a"), Value::Integer(2))]);
    let canonical_bytes = encode(&map).unwrap();
    let deserialized = CanonicalBytes::from_bytes(canonical_bytes.clone()).unwrap();
    assert_eq!(deserialized.as_bytes(), &canonical_bytes[..]);
    assert_eq!(canonical_bytes, vec![0xa2, 0x61, b'a', 0x02, 0x61, b'z', 0x01]);
}

#[test]
fn envelope_record_round_trip_keeps_every_field() {
    let commit = EventEnvelope::new_commit(text_payload("c"), h(4), vec![h(9), h(2)], Some(AgentId::new("a").unwrap()), test_signature()).unwrap();
    let back = EventEnvelope::from_value(&commit.to_value()).unwrap();
    assert_eq!(back, commit);
    assert_eq!(back.parents(), &[h(2), h(4), h(9)]);
}

#[test]
fn envelope_bytes_are_the_encoding_of_its_record() {
    let obs = EventEnvelope::new_observation(text_payload("x"), vec![h(3), h(1)], Some("TAG".to_string()), Some(AgentId::new("agent-1").unwrap()), Some(Signature::new(vec![9, 8]).unwrap())).unwrap();
    assert_eq!(obs.to_bytes().unwrap(), encode(&obs.to_value()).unwrap());
    let bare = EventEnvelope::new_observation(text_payload("y"), vec![], None, None, None).unwrap();
    assert_eq!(bare.to_bytes().unwrap(), encode(&bare.to_value()).unwrap());
}
