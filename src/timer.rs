//! The timer view: timer requests and firings folded from the event
//! history, and which requests are due at a given time.
use vstd::prelude::*;
use crate::canonical::{head, write_major, concat, enc, lex_lt, keys_ascending, zip_entries, join_entries, lemma_enc_sorted_map, EncodeFault, Value};
use vstd::utf8::is_ascii_chars;
use crate::clock::Time;
use crate::events::{lemma_enc_hash_value, hash_item, write_byte_items, CanonicalBytes, EnvelopeView, EventEnvelope, EventKind};
use crate::record::{lemma_ascii_text_item, text_item, write_text, same_text, hash_value, text_value, holds_at, starts_with, read_hash, read_head, lemma_holds_concat};

verus! {

/// Observation tag of timer request events.
pub const OBS_TIMER_REQUEST_V0: &'static str = "OBS_TIMER_REQUEST_V0";

/// A request for a timer, carried by an observation.
#[derive(Clone, Copy, Debug, PartialEq, Eq)]
pub struct TimerRequest {
    pub request_id: crate::hash::Hash,
    pub duration_ns: u64,
    pub requested_at_ns: u64,
}

/// A request with the identity of the event that carried it.
#[derive(Clone, Copy, Debug, PartialEq, Eq)]
pub struct TimerRequestRecord {
    pub event_id: crate::hash::Hash,
    pub request: TimerRequest,
}

/// The firing of a timer, carried by a decision.
#[derive(Clone, Copy, Debug, PartialEq, Eq)]
pub struct TimerFire {
    pub request_id: crate::hash::Hash,
    pub fired_at_ns: u64,
}

/// A firing with the identity of the event that carried it.
#[derive(Clone, Copy, Debug, PartialEq, Eq)]
pub struct TimerFireRecord {
    pub event_id: crate::hash::Hash,
    pub fire: TimerFire,
}

/// Errors of the timer view.
#[derive(Clone, Copy, Debug, PartialEq, Eq)]
pub enum TimerError {
    /// A timer request observation whose payload is no request.
    MalformedRequest(crate::hash::Hash),
    /// Reserved: a firing whose payload is no firing.
    MalformedFire(crate::hash::Hash),
}

/// The canonical encoding of a request's record form
/// `{request_id, duration_ns, requested_at_ns}`.
pub open spec fn timer_request_bytes(q: TimerRequest) -> Seq<u8> {
    head(5, 3) + text_item("request_id"@) + hash_item(q.request_id) + text_item("duration_ns"@) + head(
        0,
        q.duration_ns as nat,
    ) + text_item("requested_at_ns"@) + head(0, q.requested_at_ns as nat)
}

/// The canonical encoding of a firing's record form `{request_id, fired_at_ns}`.
pub open spec fn timer_fire_bytes(f: TimerFire) -> Seq<u8> {
    head(5, 2) + text_item("request_id"@) + hash_item(f.request_id) + text_item("fired_at_ns"@) + head(
        0,
        f.fired_at_ns as nat,
    )
}

impl TimerRequest {
    /// The record form `{request_id, duration_ns, requested_at_ns}`.
    /// Its canonical encoding is exactly `timer_request_bytes`, the payload
    /// the timer view reads.
    pub fn to_value(&self) -> (r: Value)
        ensures
            enc(r) == Ok::<Seq<u8>, EncodeFault>(timer_request_bytes(*self)),
    {
        let id = hash_value(&self.request_id);
        proof {
            lemma_enc_hash_value(id, self.request_id);
        }
        let mut entries: Vec<(Value, Value)> = Vec::new();
        entries.push((text_value("request_id"), id));
        entries.push((text_value("duration_ns"), Value::Integer(self.duration_ns as i128)));
        entries.push((text_value("requested_at_ns"), Value::Integer(self.requested_at_ns as i128)));
        proof {
            let ks = seq![text_item("request_id"@), text_item("duration_ns"@), text_item("requested_at_ns"@)];
            let vs = seq![
                hash_item(self.request_id),
                head(0, self.duration_ns as nat),
                head(0, self.requested_at_ns as nat),
            ];
            reveal_strlit("request_id");
            reveal_strlit("duration_ns");
            reveal_strlit("requested_at_ns");
            assert(is_ascii_chars("request_id"@));
            assert(is_ascii_chars("duration_ns"@));
            assert(is_ascii_chars("requested_at_ns"@));
            lemma_ascii_text_item("request_id"@);
            lemma_ascii_text_item("duration_ns"@);
            lemma_ascii_text_item("requested_at_ns"@);
            let z = zip_entries(ks, vs);
            assert(keys_ascending(z)) by {
                assert(lex_lt(ks[0], ks[1]));
                assert(lex_lt(ks[1], ks[2]));
                assert(lex_lt(ks[0], ks[2]));
            }
            lemma_enc_sorted_map(entries, ks, vs);
            reveal_with_fuel(concat, 4);
            assert(join_entries(z) =~= ks[0] + vs[0] + ks[1] + vs[1] + ks[2] + vs[2]);
            assert(head(5, 3) + join_entries(z) =~= timer_request_bytes(*self));
        }
        Value::Mapping(entries)
    }

    fn canonical_bytes(&self) -> (r: Vec<u8>)
        ensures
            r@ == timer_request_bytes(*self),
    {
        let mut out: Vec<u8> = Vec::new();
        write_major(5, 3, &mut out);
        write_text("request_id", &mut out);
        write_byte_items(self.request_id.0.as_slice(), &mut out);
        write_text("duration_ns", &mut out);
        write_major(0, self.duration_ns, &mut out);
        write_text("requested_at_ns", &mut out);
        write_major(0, self.requested_at_ns, &mut out);
        assert(out@ =~= timer_request_bytes(*self));
        out
    }

    /// The request a payload carries: the payload must be exactly the
    /// canonical encoding of a request record.
    pub fn from_payload(p: &CanonicalBytes) -> (r: Option<TimerRequest>)
        ensures
            r matches Some(q) ==> p@ == timer_request_bytes(q),
            forall|q: TimerRequest| p@ == #[trigger] timer_request_bytes(q) ==> r == Some(q),
    {
        let b = p.as_bytes();
        let blen = b.len();
        let mut lit: Vec<u8> = Vec::new();
        write_major(5, 3, &mut lit);
        write_text("request_id", &mut lit);
        let mut k2: Vec<u8> = Vec::new();
        write_text("duration_ns", &mut k2);
        let mut k3: Vec<u8> = Vec::new();
        write_text("requested_at_ns", &mut k3);
        proof {
            assert forall|q: TimerRequest| p@ == #[trigger] timer_request_bytes(q) implies {
                let a1 = lit@ + hash_item(q.request_id);
                let a2 = a1 + k2@;
                let a3 = a2 + head(0, q.duration_ns as nat);
                let a4 = a3 + k3@;
                &&& holds_at(b@, 0, lit@)
                &&& holds_at(b@, lit@.len() as int, hash_item(q.request_id))
                &&& holds_at(b@, a1.len() as int, k2@)
                &&& holds_at(b@, a2.len() as int, head(0, q.duration_ns as nat))
                &&& holds_at(b@, a3.len() as int, k3@)
                &&& holds_at(b@, a4.len() as int, head(0, q.requested_at_ns as nat))
                &&& a4.len() + head(0, q.requested_at_ns as nat).len() == b@.len()
            } by {
                let a1 = lit@ + hash_item(q.request_id);
                let a2 = a1 + k2@;
                let a3 = a2 + head(0, q.duration_ns as nat);
                let a4 = a3 + k3@;
                let a5 = a4 + head(0, q.requested_at_ns as nat);
                assert(a5 =~= timer_request_bytes(q));
                assert(b@.subrange(0, b@.len() as int) =~= b@);
                assert(holds_at(b@, 0, a5));
                lemma_holds_concat(b@, 0, a4, head(0, q.requested_at_ns as nat));
                lemma_holds_concat(b@, 0, a3, k3@);
                lemma_holds_concat(b@, 0, a2, head(0, q.duration_ns as nat));
                lemma_holds_concat(b@, 0, a1, k2@);
                lemma_holds_concat(b@, 0, lit@, hash_item(q.request_id));
            }
        }
        if !starts_with(b, 0, lit.as_slice()) {
            return None;
        }
        let (request_id, pos) = match read_hash(b, lit.len()) {
            Some(x) => x,
            None => {
                return None;
            },
        };
        if !starts_with(b, pos, k2.as_slice()) {
            return None;
        }
        let (duration_ns, pos2) = match read_head(b, pos + k2.len(), 0) {
            Some(x) => x,
            None => {
                return None;
            },
        };
        if !starts_with(b, pos2, k3.as_slice()) {
            return None;
        }
        let (requested_at_ns, end) = match read_head(b, pos2 + k3.len(), 0) {
            Some(x) => x,
            None => {
                return None;
            },
        };
        if end != b.len() {
            return None;
        }
        let q = TimerRequest { request_id, duration_ns, requested_at_ns };
        proof {
            let a1 = lit@ + hash_item(q.request_id);
            let a2 = a1 + k2@;
            let a3 = a2 + head(0, q.duration_ns as nat);
            let a4 = a3 + k3@;
            let a5 = a4 + head(0, q.requested_at_ns as nat);
            lemma_holds_concat(b@, 0, lit@, hash_item(q.request_id));
            lemma_holds_concat(b@, 0, a1, k2@);
            lemma_holds_concat(b@, 0, a2, head(0, q.duration_ns as nat));
            lemma_holds_concat(b@, 0, a3, k3@);
            lemma_holds_concat(b@, 0, a4, head(0, q.requested_at_ns as nat));
            assert(a5 =~= timer_request_bytes(q));
            assert(b@ =~= b@.subrange(0, a5.len() as int));
        }
        Some(q)
    }
}

impl TimerFire {
    /// The record form `{request_id, fired_at_ns}`.
    /// Its canonical encoding is exactly `timer_fire_bytes`, the payload the
    /// timer view reads.
    pub fn to_value(&self) -> (r: Value)
        ensures
            enc(r) == Ok::<Seq<u8>, EncodeFault>(timer_fire_bytes(*self)),
    {
        let id = hash_value(&self.request_id);
        proof {
            lemma_enc_hash_value(id, self.request_id);
        }
        let mut entries: Vec<(Value, Value)> = Vec::new();
        entries.push((text_value("request_id"), id));
        entries.push((text_value("fired_at_ns"), Value::Integer(self.fired_at_ns as i128)));
        proof {
            let ks = seq![text_item("request_id"@), text_item("fired_at_ns"@)];
            let vs = seq![hash_item(self.request_id), head(0, self.fired_at_ns as nat)];
            reveal_strlit("request_id");
            reveal_strlit("fired_at_ns");
            assert(is_ascii_chars("request_id"@));
            assert(is_ascii_chars("fired_at_ns"@));
            lemma_ascii_text_item("request_id"@);
            lemma_ascii_text_item("fired_at_ns"@);
            let z = zip_entries(ks, vs);
            assert(keys_ascending(z)) by {
                assert(lex_lt(ks[0], ks[1]));
            }
            lemma_enc_sorted_map(entries, ks, vs);
            reveal_with_fuel(concat, 3);
            assert(join_entries(z) =~= ks[0] + vs[0] + ks[1] + vs[1]);
            assert(head(5, 2) + join_entries(z) =~= timer_fire_bytes(*self));
        }
        Value::Mapping(entries)
    }

    fn canonical_bytes(&self) -> (r: Vec<u8>)
        ensures
            r@ == timer_fire_bytes(*self),
    {
        let mut out: Vec<u8> = Vec::new();
        write_major(5, 2, &mut out);
        write_text("request_id", &mut out);
        write_byte_items(self.request_id.0.as_slice(), &mut out);
        write_text("fired_at_ns", &mut out);
        write_major(0, self.fired_at_ns, &mut out);
        assert(out@ =~= timer_fire_bytes(*self));
        out
    }

    /// The firing a payload carries: the payload must be exactly the
    /// canonical encoding of a firing record.
    pub fn from_payload(p: &CanonicalBytes) -> (r: Option<TimerFire>)
        ensures
            r matches Some(f) ==> p@ == timer_fire_bytes(f),
            forall|f: TimerFire| p@ == #[trigger] timer_fire_bytes(f) ==> r == Some(f),
    {
        let b = p.as_bytes();
        let blen = b.len();
        let mut lit: Vec<u8> = Vec::new();
        write_major(5, 2, &mut lit);
        write_text("request_id", &mut lit);
        let mut k2: Vec<u8> = Vec::new();
        write_text("fired_at_ns", &mut k2);
        proof {
            assert forall|f: TimerFire| p@ == #[trigger] timer_fire_bytes(f) implies {
                let a1 = lit@ + hash_item(f.request_id);
                let a2 = a1 + k2@;
                &&& holds_at(b@, 0, lit@)
                &&& holds_at(b@, lit@.len() as int, hash_item(f.request_id))
                &&& holds_at(b@, a1.len() as int, k2@)
                &&& holds_at(b@, a2.len() as int, head(0, f.fired_at_ns as nat))
                &&& a2.len() + head(0, f.fired_at_ns as nat).len() == b@.len()
            } by {
                let a1 = lit@ + hash_item(f.request_id);
                let a2 = a1 + k2@;
                let a3 = a2 + head(0, f.fired_at_ns as nat);
                assert(a3 =~= timer_fire_bytes(f));
                assert(b@.subrange(0, b@.len() as int) =~= b@);
                assert(holds_at(b@, 0, a3));
                lemma_holds_concat(b@, 0, a2, head(0, f.fired_at_ns as nat));
                lemma_holds_concat(b@, 0, a1, k2@);
                lemma_holds_concat(b@, 0, lit@, hash_item(f.request_id));
            }
        }
        if !starts_with(b, 0, lit.as_slice()) {
            return None;
        }
        let (request_id, pos) = match read_hash(b, lit.len()) {
            Some(x) => x,
            None => {
                return None;
            },
        };
        if !starts_with(b, pos, k2.as_slice()) {
            return None;
        }
        let (fired_at_ns, end) = match read_head(b, pos + k2.len(), 0) {
            Some(x) => x,
            None => {
                return None;
            },
        };
        if end != b.len() {
            return None;
        }
        let f = TimerFire { request_id, fired_at_ns };
        proof {
            let a1 = lit@ + hash_item(f.request_id);
            let a2 = a1 + k2@;
            let a3 = a2 + head(0, f.fired_at_ns as nat);
            lemma_holds_concat(b@, 0, lit@, hash_item(f.request_id));
            lemma_holds_concat(b@, 0, a1, k2@);
            lemma_holds_concat(b@, 0, a2, head(0, f.fired_at_ns as nat));
            assert(a3 =~= timer_fire_bytes(f));
            assert(b@ =~= b@.subrange(0, a3.len() as int));
        }
        Some(f)
    }
}

// --- The view ----------------------------------------------------------------

/// The state of a timer view as mathematical values.
pub struct TimerModel {
    pub requests: Seq<TimerRequestRecord>,
    pub fired: Seq<TimerFireRecord>,
    pub fired_ids: Set<crate::hash::Hash>,
}

/// When a request falls due: its request time plus its duration, clamped
/// at `u64::MAX`.
pub open spec fn deadline(q: TimerRequest) -> u64 {
    if q.requested_at_ns as int + q.duration_ns as int > u64::MAX as int {
        u64::MAX
    } else {
        (q.requested_at_ns + q.duration_ns) as u64
    }
}

/// A request that has not fired and whose deadline is not after `now`.
pub open spec fn is_due(rec: TimerRequestRecord, fired_ids: Set<crate::hash::Hash>, now: u64) -> bool {
    !fired_ids.contains(rec.request.request_id) && deadline(rec.request) <= now
}

/// The due requests among `reqs`, in order.
pub open spec fn due_requests(reqs: Seq<TimerRequestRecord>, fired_ids: Set<crate::hash::Hash>, now: u64) -> Seq<
    TimerRequestRecord,
>
    decreases reqs.len(),
{
    if reqs.len() == 0 {
        Seq::empty()
    } else {
        let init = due_requests(reqs.drop_last(), fired_ids, now);
        if is_due(reqs.last(), fired_ids, now) {
            init.push(reqs.last())
        } else {
            init
        }
    }
}

/// The request a payload encodes exactly, if any.
pub open spec fn request_in(p: Seq<u8>) -> Option<TimerRequest> {
    if exists|q: TimerRequest| p == timer_request_bytes(q) {
        Some(choose|q: TimerRequest| p == timer_request_bytes(q))
    } else {
        None
    }
}

/// The firing a payload encodes exactly, if any.
pub open spec fn fire_in(p: Seq<u8>) -> Option<TimerFire> {
    if exists|f: TimerFire| p == timer_fire_bytes(f) {
        Some(choose|f: TimerFire| p == timer_fire_bytes(f))
    } else {
        None
    }
}

/// An Observation tagged as a timer request.
pub open spec fn is_request_event(e: EnvelopeView) -> bool {
    e.kind == EventKind::Observation && e.observation_type == Some(OBS_TIMER_REQUEST_V0@)
}

/// The view after a request.
pub open spec fn with_request(m: TimerModel, rec: TimerRequestRecord) -> TimerModel {
    TimerModel { requests: m.requests.push(rec), ..m }
}

/// The view after a firing.
pub open spec fn with_fire(m: TimerModel, rec: TimerFireRecord) -> TimerModel {
    TimerModel { fired: m.fired.push(rec), fired_ids: m.fired_ids.insert(rec.fire.request_id), ..m }
}

/// A deterministic view of timers over request observations and firing
/// decisions.
pub struct TimerView {
    requests: Vec<TimerRequestRecord>,
    fired: Vec<TimerFireRecord>,
    /// Request identities that have fired. A vector, not a hash set: Verus
    /// proves nothing of a `HashSet` keyed by a struct whose `Eq` and `Hash`
    /// are derived, so membership is a verified scan.
    fired_ids: Vec<crate::hash::Hash>,
}

impl View for TimerView {
    type V = TimerModel;

    closed spec fn view(&self) -> TimerModel {
        TimerModel { requests: self.requests@, fired: self.fired@, fired_ids: self.fired_ids@.to_set() }
    }
}

impl Default for TimerView {
    fn default() -> (r: TimerView)
        ensures
            r@.requests.len() == 0,
            r@.fired.len() == 0,
            r@.fired_ids.is_empty(),
    {
        TimerView::new()
    }
}

fn contains_id(ids: &Vec<crate::hash::Hash>, h: &crate::hash::Hash) -> (r: bool)
    ensures
        r == ids@.to_set().contains(*h),
{
    let mut i: usize = 0;
    while i < ids.len()
        invariant
            i <= ids@.len(),
            forall|j: int| 0 <= j < i ==> ids@[j] != *h,
        decreases ids.len() - i,
    {
        if ids[i].compare(h) == 0 {
            assert(ids@.contains(*h));
            return true;
        }
        i = i + 1;
    }
    assert(!ids@.contains(*h));
    false
}

impl TimerView {
    /// A view with no requests and no firings.
    pub fn new() -> (r: TimerView)
        ensures
            r@.requests.len() == 0,
            r@.fired.len() == 0,
            r@.fired_ids.is_empty(),
    {
        let v = TimerView { requests: Vec::new(), fired: Vec::new(), fired_ids: Vec::new() };
        assert(v@.fired_ids =~= Set::<crate::hash::Hash>::empty());
        v
    }

    /// Applies one event in worldline order. A timer request observation
    /// adds the request its payload encodes, or fails with
    /// `MalformedRequest` and changes nothing; a decision whose payload is
    /// a firing records it; anything else is ignored.
    pub fn apply_event(&mut self, event: &EventEnvelope) -> (r: Result<(), TimerError>)
        ensures
            is_request_event(event@) ==> match request_in(event@.payload) {
                Some(q) => r is Ok && final(self)@ == with_request(
                    old(self)@,
                    TimerRequestRecord { event_id: event@.event_id, request: q },
                ),
                None => r == Err::<(), TimerError>(TimerError::MalformedRequest(event@.event_id))
                    && final(self)@ == old(self)@,
            },
            event@.kind == EventKind::Decision ==> r is Ok && match fire_in(event@.payload) {
                Some(f) => final(self)@ == with_fire(old(self)@, TimerFireRecord { event_id: event@.event_id, fire: f }),
                None => final(self)@ == old(self)@,
            },
            !is_request_event(event@) && event@.kind != EventKind::Decision ==> r is Ok && final(self)@
                == old(self)@,
    {
        if *event.kind() == EventKind::Observation {
            let tagged = match event.observation_type() {
                Some(t) => same_text(t, OBS_TIMER_REQUEST_V0),
                None => false,
            };
            if tagged {
                let request = match TimerRequest::from_payload(event.payload()) {
                    Some(q) => q,
                    None => {
                        assert(request_in(event@.payload) is None);
                        return Err(TimerError::MalformedRequest(event.event_id()));
                    },
                };
                proof {
                    let c = choose|q: TimerRequest| event@.payload == timer_request_bytes(q);
                    assert(event@.payload == timer_request_bytes(request));
                    assert(request_in(event@.payload) == Some(c));
                    assert(c == request);
                }
                let record = TimerRequestRecord { event_id: event.event_id(), request };
                self.requests.push(record);
                assert(final(self)@ == with_request(old(self)@, record));
                return Ok(());
            }
            return Ok(());
        }
        if *event.kind() == EventKind::Decision {
            match TimerFire::from_payload(event.payload()) {
                Some(fire) => {
                    proof {
                        let c = choose|f: TimerFire| event@.payload == timer_fire_bytes(f);
                        assert(event@.payload == timer_fire_bytes(fire));
                        assert(fire_in(event@.payload) == Some(c));
                        assert(c == fire);
                    }
                    let record = TimerFireRecord { event_id: event.event_id(), fire };
                    self.fired.push(record);
                    self.fired_ids.push(fire.request_id);
                    proof {
                        assert(self.fired_ids@.to_set() =~= old(self).fired_ids@.to_set().insert(fire.request_id)) by {
                            assert forall|h: crate::hash::Hash| self.fired_ids@.contains(h) <==> old(self).fired_ids@.contains(h) || h == fire.request_id by {
                                if self.fired_ids@.contains(h) {
                                    let k = choose|k: int| 0 <= k < self.fired_ids@.len() && self.fired_ids@[k] == h;
                                    if k < old(self).fired_ids@.len() {
                                        assert(old(self).fired_ids@[k] == h);
                                    }
                                }
                                if old(self).fired_ids@.contains(h) {
                                    let k = choose|k: int| 0 <= k < old(self).fired_ids@.len() && old(self).fired_ids@[k] == h;
                                    assert(self.fired_ids@[k] == h);
                                }
                                if h == fire.request_id {
                                    assert(self.fired_ids@[old(self).fired_ids@.len() as int] == h);
                                }
                            }
                        }
                        assert(final(self)@ == with_fire(old(self)@, record));
                    }
                },
                None => {
                    assert(fire_in(event@.payload) is None);
                },
            }
        }
        Ok(())
    }

    /// The requests due at `current_time` that have not fired, in request
    /// order, with the identities of the events that carried them.
    pub fn pending_timers(&self, current_time: &Time) -> (r: Vec<TimerRequestRecord>)
        ensures
            r@ == due_requests(self@.requests, self@.fired_ids, current_time@.ns),
    {
        let now = current_time.ns();
        let mut pending: Vec<TimerRequestRecord> = Vec::new();
        let mut i: usize = 0;
        assert(self.requests@.subrange(0, 0) =~= Seq::<TimerRequestRecord>::empty());
        assert(pending@ =~= due_requests(Seq::<TimerRequestRecord>::empty(), self@.fired_ids, now));
        while i < self.requests.len()
            invariant
                i <= self.requests@.len(),
                now == current_time@.ns,
                pending@ == due_requests(self.requests@.subrange(0, i as int), self@.fired_ids, now),
            decreases self.requests.len() - i,
        {
            let record = self.requests[i];
            assert(self.requests@.subrange(0, i + 1).drop_last() =~= self.requests@.subrange(0, i as int));
            let fired = contains_id(&self.fired_ids, &record.request.request_id);
            let fire_time: u64 = match record.request.requested_at_ns.checked_add(record.request.duration_ns) {
                Some(t) => t,
                None => u64::MAX,
            };
            if !fired && now >= fire_time {
                pending.push(record);
            }
            i = i + 1;
        }
        assert(self.requests@.subrange(0, i as int) =~= self.requests@);
        pending
    }
}

} // verus!
