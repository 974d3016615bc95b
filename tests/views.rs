use jitos::canonical::Value;
use jitos::clock::{ClockError, ClockPolicyId, ClockSample, ClockSource, ClockView, Time, TimeDomain, OBS_CLOCK_SAMPLE_V0};
use jitos::events::{CanonicalBytes, EventEnvelope};
use jitos::timer::{TimerError, TimerFire, TimerRequest, TimerView, OBS_TIMER_REQUEST_V0};

fn make_clock_event(source: ClockSource, value_ns: u64, uncertainty_ns: u64) -> EventEnvelope {
    let sample = ClockSample { source, value_ns, uncertainty_ns };
    EventEnvelope::new_observation(
        CanonicalBytes::from_value(&sample.to_value()).expect("encode sample"),
        vec![],
        Some(OBS_CLOCK_SAMPLE_V0.to_string()),
        None,
        None,
    )
    .expect("create observation event")
}

fn make_timer_request(request_id: [u8; 32], duration_ns: u64, requested_at_ns: u64) -> EventEnvelope {
    let request = TimerRequest { request_id: jitos::hash::Hash(request_id), duration_ns, requested_at_ns };
    EventEnvelope::new_observation(
        CanonicalBytes::from_value(&request.to_value()).expect("encode request"),
        vec![],
        Some(OBS_TIMER_REQUEST_V0.to_string()),
        None,
        None,
    )
    .expect("create timer request event")
}

fn make_timer_fire(request_id: [u8; 32], fired_at_ns: u64, request_event_id: jitos::hash::Hash) -> EventEnvelope {
    let fire = TimerFire { request_id: jitos::hash::Hash(request_id), fired_at_ns };
    let policy = EventEnvelope::new_policy_context(
        CanonicalBytes::from_value(&Value::Text("timer_policy".to_string())).expect("encode policy"),
        vec![],
        None,
        None,
    )
    .expect("create policy event");
    EventEnvelope::new_decision(
        CanonicalBytes::from_value(&fire.to_value()).expect("encode fire"),
        vec![request_event_id],
        policy.event_id(),
        None,
        None,
    )
    .expect("create timer fire event")
}

fn clock_at(ns: u64) -> ClockView {
    let mut clock = ClockView::new(ClockPolicyId::TrustMonotonicLatest);
    clock.apply_event(&make_clock_event(ClockSource::Monotonic, ns, 100_000)).unwrap();
    clock
}

#[test]
fn t1_now_is_deterministic() {
    let mut view = ClockView::new(ClockPolicyId::TrustMonotonicLatest);
    for i in 0..5u64 {
        let event = make_clock_event(ClockSource::Monotonic, 1_000_000_000 + i * 1_000_000, 100_000);
        view.apply_event(&event).expect("apply event");
    }
    let first = view.now().clone();
    for _ in 0..1000 {
        let result = view.now().clone();
        assert_eq!(result.ns(), first.ns(), "ns must be identical");
        assert_eq!(result.uncertainty_ns(), first.uncertainty_ns(), "uncertainty must be identical");
        assert_eq!(result.domain(), first.domain(), "domain must be identical");
        assert_eq!(result.provenance(), first.provenance(), "provenance must be identical");
    }
    assert_eq!(first.ns(), 1_004_000_000);
}

#[test]
fn t2_replay_produces_identical_time() {
    let events: Vec<EventEnvelope> = (0..10u64)
        .map(|i| make_clock_event(ClockSource::Monotonic, 1_000_000_000 + i * 10_000_000, 50_000))
        .collect();
    let mut results = Vec::new();
    for _ in 0..100 {
        let mut view = ClockView::new(ClockPolicyId::TrustMonotonicLatest);
        for event in &events {
            view.apply_event(event).expect("apply event");
        }
        results.push(view.now().clone());
    }
    let first = &results[0];
    for (i, result) in results.iter().enumerate() {
        assert_eq!(result, first, "iteration {} produced different time", i);
    }
    assert_eq!(first.ns(), 1_000_000_000 + 9 * 10_000_000);
    assert_eq!(first.provenance(), &[events[9].event_id()]);
}

#[test]
fn t5_now_at_cut_queries_historical_time() {
    let events: Vec<EventEnvelope> = (0..20u64)
        .map(|i| make_clock_event(ClockSource::Monotonic, 1_000_000_000 + i * 5_000_000, 100_000))
        .collect();
    let time_at_10 = ClockView::now_at_cut(&events, 10, ClockPolicyId::TrustMonotonicLatest).expect("now_at_cut succeeded");
    assert_eq!(time_at_10.ns(), 1_000_000_000 + 9 * 5_000_000);
    let time_at_20 = ClockView::now_at_cut(&events, 20, ClockPolicyId::TrustMonotonicLatest).expect("now_at_cut succeeded");
    assert_eq!(time_at_20.ns(), 1_000_000_000 + 19 * 5_000_000);
    assert_ne!(time_at_10.ns(), time_at_20.ns(), "different cuts should yield different times");
}

#[test]
fn now_at_cut_equals_fresh_fold() {
    let events: Vec<EventEnvelope> = (0..6u64)
        .map(|i| make_clock_event(if i % 2 == 0 { ClockSource::Monotonic } else { ClockSource::Ntp }, 100 + i, 7))
        .collect();
    for k in 0..=events.len() {
        for policy in [ClockPolicyId::TrustMonotonicLatest, ClockPolicyId::TrustNtpLatest] {
            let mut view = ClockView::new(policy);
            for e in &events[..k] {
                view.apply_event(e).unwrap();
            }
            assert_eq!(&ClockView::now_at_cut(&events, k, policy).unwrap(), view.now());
        }
    }
}

#[test]
fn t7_unknown_state_initialization() {
    let view = ClockView::new(ClockPolicyId::TrustMonotonicLatest);
    let time = view.now();
    assert_eq!(time.ns(), 0, "unknown time has ns=0");
    assert_eq!(time.uncertainty_ns(), u64::MAX, "unknown time has max uncertainty");
    assert_eq!(time.provenance().len(), 0, "unknown time has empty provenance");
    assert_eq!(time.domain(), TimeDomain::Unknown, "unknown time has Unknown domain");
    assert_eq!(time, &Time::unknown());
}

#[test]
fn t3_different_policies_produce_different_beliefs() {
    let events = vec![
        make_clock_event(ClockSource::Monotonic, 1_000_000_000, 100_000),
        make_clock_event(ClockSource::Ntp, 1_735_387_200_000_000_000, 50_000_000),
        make_clock_event(ClockSource::Monotonic, 2_000_000_000, 100_000),
        make_clock_event(ClockSource::Ntp, 1_735_387_205_000_000_000, 50_000_000),
    ];
    let mut view_mono = ClockView::new(ClockPolicyId::TrustMonotonicLatest);
    let mut view_ntp = ClockView::new(ClockPolicyId::TrustNtpLatest);
    for event in &events {
        view_mono.apply_event(event).expect("apply event");
        view_ntp.apply_event(event).expect("apply event");
    }
    let time_mono = view_mono.now();
    let time_ntp = view_ntp.now();
    assert_ne!(time_mono.ns(), time_ntp.ns(), "different policies must produce different time values");
    assert_eq!(time_mono.ns(), 2_000_000_000, "TrustMonotonicLatest should use latest monotonic value");
    assert_eq!(time_ntp.ns(), 1_735_387_205_000_000_000, "TrustNtpLatest should use latest NTP value");
    assert_eq!(time_mono.domain(), TimeDomain::Monotonic);
    assert_eq!(time_ntp.domain(), TimeDomain::Unix);
}

#[test]
fn t6_event_integration_policy_aware() {
    let mut view = ClockView::new(ClockPolicyId::TrustMonotonicLatest);
    view.apply_event(&make_clock_event(ClockSource::Monotonic, 1_000_000_000, 100_000)).expect("apply mono event");
    assert_eq!(view.now().ns(), 1_000_000_000, "current updated for relevant source");
    view.apply_event(&make_clock_event(ClockSource::Ntp, 1_735_387_200_000_000_000, 50_000_000)).expect("apply ntp event");
    assert_eq!(view.now().ns(), 1_000_000_000, "current unchanged for irrelevant source");
}

#[test]
fn t6_event_integration_both_policies() {
    let mut view = ClockView::new(ClockPolicyId::TrustNtpLatest);
    view.apply_event(&make_clock_event(ClockSource::Monotonic, 1_000_000_000, 100_000)).expect("apply mono event");
    assert_eq!(view.now().domain(), TimeDomain::Unknown, "still unknown - monotonic irrelevant to TrustNtpLatest");
    view.apply_event(&make_clock_event(ClockSource::Ntp, 1_735_387_200_000_000_000, 50_000_000)).expect("apply ntp event");
    assert_eq!(view.now().ns(), 1_735_387_200_000_000_000, "current updated for relevant NTP source");
    assert_eq!(view.now().domain(), TimeDomain::Unix);
    assert_eq!(view.now().uncertainty_ns(), 50_000_000);
}

#[test]
fn t4_no_host_clock_dependency() {
    let view = clock_at(1_000_000_000);
    let time1 = view.now().clone();
    for _ in 0..1000 {
        assert_eq!(view.now(), &time1, "all now() calls must return identical values");
    }
}

#[test]
fn test_now_at_cut_bounds_checking() {
    let events: Vec<EventEnvelope> = (0..5u64)
        .map(|i| make_clock_event(ClockSource::Monotonic, 1_000_000_000 + i * 1_000_000, 100_000))
        .collect();
    match ClockView::now_at_cut(&events, 10, ClockPolicyId::TrustMonotonicLatest) {
        Err(ClockError::CutOutOfBounds { cut, len }) => {
            assert_eq!(cut, 10);
            assert_eq!(len, 5);
        },
        other => panic!("expected CutOutOfBounds error, got {:?}", other),
    }
    assert!(ClockView::now_at_cut(&events, 5, ClockPolicyId::TrustMonotonicLatest).is_ok(), "cut == len should succeed");
    assert!(ClockView::now_at_cut(&events, 3, ClockPolicyId::TrustMonotonicLatest).is_ok(), "cut < len should succeed");
}

#[test]
fn test_malformed_observation_handling() {
    let mut view = ClockView::new(ClockPolicyId::TrustMonotonicLatest);
    let payload = CanonicalBytes::from_value(&Value::Array(vec![Value::Integer(1), Value::Integer(2), Value::Integer(3), Value::Integer(4)])).expect("encode bytes");
    let malformed = EventEnvelope::new_observation(payload, vec![], Some(OBS_CLOCK_SAMPLE_V0.to_string()), None, None).expect("create malformed event");
    assert_eq!(view.apply_event(&malformed), Ok(()));
    assert_eq!(view.now().domain(), TimeDomain::Unknown);
}

#[test]
fn untagged_observation_is_ignored() {
    let mut view = ClockView::new(ClockPolicyId::TrustMonotonicLatest);
    let sample = ClockSample { source: ClockSource::Monotonic, value_ns: 5, uncertainty_ns: 1 };
    let e = EventEnvelope::new_observation(CanonicalBytes::from_value(&sample.to_value()).unwrap(), vec![], None, None, None).unwrap();
    view.apply_event(&e).unwrap();
    assert_eq!(view.now(), &Time::unknown());
}

#[test]
fn clock_replay_equivalence() {
    let events: Vec<EventEnvelope> = (0..10u64)
        .map(|i| make_clock_event(ClockSource::Monotonic, 3_000 + i * 17, 9))
        .collect();
    let mut reference: Option<Time> = None;
    for _ in 0..100 {
        let mut view = ClockView::new(ClockPolicyId::TrustMonotonicLatest);
        for e in &events {
            view.apply_event(e).unwrap();
        }
        assert_eq!(view.now().ns(), 3_000 + 9 * 17);
        match &reference {
            None => reference = Some(view.now().clone()),
            Some(r) => assert_eq!(r, view.now()),
        }
    }
}

#[test]
fn t1_timer_request_is_tracked() {
    let mut timer_view = TimerView::new();
    timer_view.apply_event(&make_timer_request([1u8; 32], 5_000_000_000, 1_000_000_000)).expect("apply event");
    let clock_view = clock_at(6_000_000_000);
    let pending = timer_view.pending_timers(clock_view.now());
    assert_eq!(pending.len(), 1, "timer should be tracked and pending");
    assert_eq!(pending[0].request.request_id, jitos::hash::Hash([1u8; 32]), "correct timer request_id");
}

#[test]
fn t2_timer_fires_at_correct_time() {
    let mut timer_view = TimerView::new();
    let request_event = make_timer_request([1u8; 32], 5_000_000_000, 1_000_000_000);
    timer_view.apply_event(&request_event).expect("apply timer request");
    assert_eq!(timer_view.pending_timers(clock_at(5_000_000_000).now()).len(), 0, "timer not ready before fire time");
    let pending = timer_view.pending_timers(clock_at(6_000_000_000).now());
    assert_eq!(pending.len(), 1, "timer ready at fire time");
    assert_eq!(pending[0].request.request_id, jitos::hash::Hash([1u8; 32]));
    assert_eq!(pending[0].event_id, request_event.event_id());
    timer_view.apply_event(&make_timer_fire([1u8; 32], 6_000_000_000, request_event.event_id())).unwrap();
    assert_eq!(timer_view.pending_timers(clock_at(6_000_000_000).now()).len(), 0, "fired timer is no longer pending");
}

#[test]
fn t3_multiple_timers() {
    let mut timer_view = TimerView::new();
    timer_view.apply_event(&make_timer_request([1u8; 32], 1_000_000_000, 0)).expect("apply timer 1");
    timer_view.apply_event(&make_timer_request([2u8; 32], 2_000_000_000, 0)).expect("apply timer 2");
    timer_view.apply_event(&make_timer_request([3u8; 32], 3_000_000_000, 0)).expect("apply timer 3");
    let pending = timer_view.pending_timers(clock_at(1_500_000_000).now());
    assert_eq!(pending.len(), 1, "only first timer ready at 1.5s");
    assert_eq!(pending[0].request.request_id, jitos::hash::Hash([1u8; 32]));
    let pending = timer_view.pending_timers(clock_at(2_500_000_000).now());
    assert_eq!(pending.len(), 2, "two timers ready at 2.5s");
    let ids: Vec<_> = pending.iter().map(|r| r.request.request_id).collect();
    assert!(ids.contains(&jitos::hash::Hash([1u8; 32])));
    assert!(ids.contains(&jitos::hash::Hash([2u8; 32])));
    let pending = timer_view.pending_timers(clock_at(3_500_000_000).now());
    assert_eq!(pending.len(), 3, "all timers ready at 3.5s");
}

#[test]
fn t1_fired_timers_excluded_from_pending() {
    let mut timer_view = TimerView::new();
    let request_event = make_timer_request([1u8; 32], 5_000_000_000, 0);
    let request_id = request_event.event_id();
    timer_view.apply_event(&request_event).expect("apply request");
    timer_view.apply_event(&make_timer_fire([1u8; 32], 5_000_000_000, request_id)).expect("apply fire");
    let pending = timer_view.pending_timers(clock_at(10_000_000_000).now());
    assert_eq!(pending.len(), 0, "fired timer should not appear in pending");
}

#[test]
fn t2_replay_determinism() {
    let events = vec![
        make_timer_request([1u8; 32], 1_000_000_000, 0),
        make_timer_request([2u8; 32], 2_000_000_000, 0),
        make_timer_request([3u8; 32], 3_000_000_000, 0),
    ];
    let mut results = Vec::new();
    for _ in 0..100 {
        let mut timer_view = TimerView::new();
        for event in &events {
            timer_view.apply_event(event).expect("apply event");
        }
        results.push(timer_view.pending_timers(clock_at(2_500_000_000).now()));
    }
    for i in 1..results.len() {
        assert_eq!(results[0], results[i], "replay {} produced different result", i);
    }
    assert_eq!(results[0].len(), 2, "should have 2 pending timers at 2.5s");
}

#[test]
fn t3_no_host_clock_dependency() {
    let mut timer_view = TimerView::new();
    timer_view.apply_event(&make_timer_request([1u8; 32], 1_000_000_000, 0)).expect("apply request");
    let clock_view = clock_at(2_000_000_000);
    let pending1 = timer_view.pending_timers(clock_view.now());
    for _ in 0..1000 {
        assert_eq!(timer_view.pending_timers(clock_view.now()), pending1, "pending_timers must be pure");
    }
    assert_eq!(pending1.len(), 1);
}

#[test]
fn t4_event_order_independence() {
    let requests = vec![
        make_timer_request([1u8; 32], 1_000_000_000, 0),
        make_timer_request([2u8; 32], 2_000_000_000, 0),
        make_timer_request([3u8; 32], 3_000_000_000, 0),
    ];
    let mut view1 = TimerView::new();
    for req in &requests {
        view1.apply_event(req).expect("apply");
    }
    let mut view2 = TimerView::new();
    for req in requests.iter().rev() {
        view2.apply_event(req).expect("apply");
    }
    let pending1 = view1.pending_timers(clock_at(2_500_000_000).now());
    let pending2 = view2.pending_timers(clock_at(2_500_000_000).now());
    assert_eq!(pending1.len(), pending2.len(), "same number of pending timers");
    assert_eq!(pending1.len(), 2, "should have 2 pending timers");
    let ids1: Vec<_> = pending1.iter().map(|r| r.request.request_id).collect();
    let ids2: Vec<_> = pending2.iter().map(|r| r.request.request_id).collect();
    assert!(ids1.contains(&jitos::hash::Hash([1u8; 32])));
    assert!(ids1.contains(&jitos::hash::Hash([2u8; 32])));
    assert!(ids2.contains(&jitos::hash::Hash([1u8; 32])));
    assert!(ids2.contains(&jitos::hash::Hash([2u8; 32])));
}

#[test]
fn timer_deadline_saturates() {
    let mut timer_view = TimerView::new();
    timer_view.apply_event(&make_timer_request([4u8; 32], u64::MAX, 10)).unwrap();
    assert_eq!(timer_view.pending_timers(clock_at(u64::MAX - 1).now()).len(), 0);
    assert_eq!(timer_view.pending_timers(clock_at(u64::MAX).now()).len(), 1);
}

#[test]
fn malformed_timer_request_is_an_error() {
    let mut timer_view = TimerView::new();
    let e = EventEnvelope::new_observation(
        CanonicalBytes::from_value(&Value::Text("not a request".to_string())).unwrap(),
        vec![],
        Some(OBS_TIMER_REQUEST_V0.to_string()),
        None,
        None,
    )
    .unwrap();
    assert_eq!(timer_view.apply_event(&e), Err(TimerError::MalformedRequest(e.event_id())));
    assert_eq!(timer_view.pending_timers(clock_at(u64::MAX).now()).len(), 0);
}

#[test]
fn payload_records_encode_to_the_bytes_the_views_read() {
    let sample = ClockSample { source: ClockSource::Ntp, value_ns: 77, uncertainty_ns: 300 };
    let p = CanonicalBytes::from_value(&sample.to_value()).unwrap();
    assert_eq!(ClockSample::from_payload(&p), Some(sample));
    let req = TimerRequest { request_id: jitos::hash::Hash([7u8; 32]), duration_ns: 1, requested_at_ns: 2 };
    let p = CanonicalBytes::from_value(&req.to_value()).unwrap();
    assert_eq!(TimerRequest::from_payload(&p), Some(req));
    let fire = TimerFire { request_id: jitos::hash::Hash([7u8; 32]), fired_at_ns: 70000 };
    let p = CanonicalBytes::from_value(&fire.to_value()).unwrap();
    assert_eq!(TimerFire::from_payload(&p), Some(fire));
}
