//! The clock view: a belief about the current time, folded from clock
//! sample observations under a policy. It never reads a host clock.
use vstd::prelude::*;
use crate::canonical::{head, write_major, concat, enc, lex_lt, keys_ascending, zip_entries, join_entries, lemma_enc_sorted_map, EncodeFault, Value};
use vstd::utf8::is_ascii_chars;
use crate::events::{CanonicalBytes, EnvelopeView, EventEnvelope, EventKind};
use crate::record::{lemma_ascii_text_item, text_item, write_text, same_text, text_value, holds_at, starts_with, read_text, read_head, lemma_holds_concat};

verus! {

/// Observation tag of clock sample events.
pub const OBS_CLOCK_SAMPLE_V0: &'static str = "OBS_CLOCK_SAMPLE_V0";

/// Where a clock sample came from.
#[derive(Clone, Copy, Debug, PartialEq, Eq, Structural)]
pub enum ClockSource {
    Monotonic,
    Rtc,
    Ntp,
    PeerClaim,
}

/// A clock reading carried by an observation.
#[derive(Clone, Copy, Debug, PartialEq, Eq, Structural)]
pub struct ClockSample {
    pub source: ClockSource,
    pub value_ns: u64,
    pub uncertainty_ns: u64,
}

/// A sample with the identity of the event that carried it.
#[derive(Clone, Copy, Debug, PartialEq, Eq)]
pub struct ClockSampleRecord {
    pub event_id: crate::hash::Hash,
    pub sample: ClockSample,
}

/// The latest sample of each source.
#[derive(Clone, Copy, Debug)]
pub struct LatestSamples {
    pub monotonic: Option<ClockSampleRecord>,
    pub ntp: Option<ClockSampleRecord>,
    pub rtc: Option<ClockSampleRecord>,
    pub peer: Option<ClockSampleRecord>,
}

/// How the current time is read from the latest samples.
#[derive(Clone, Copy, Debug, PartialEq, Eq, Structural)]
pub enum ClockPolicyId {
    /// The latest monotonic sample, in the monotonic domain.
    TrustMonotonicLatest,
    /// The latest NTP sample, in the Unix domain.
    TrustNtpLatest,
}

/// What a time value means.
#[derive(Clone, Copy, Debug, PartialEq, Eq, Structural)]
pub enum TimeDomain {
    Monotonic,
    Unix,
    Unknown,
}

/// A belief about time, with the events it rests on.
#[derive(Clone, Debug, PartialEq, Eq)]
pub struct Time {
    ns: u64,
    uncertainty_ns: u64,
    domain: TimeDomain,
    provenance: Vec<crate::hash::Hash>,
}

/// Errors of the clock view.
#[derive(Clone, Copy, Debug, PartialEq, Eq)]
pub enum ClockError {
    /// The cut lies beyond the end of the event sequence.
    CutOutOfBounds { cut: usize, len: usize },
}

/// A time value as mathematical values.
pub struct TimeView {
    pub ns: u64,
    pub uncertainty_ns: u64,
    pub domain: TimeDomain,
    pub provenance: Seq<crate::hash::Hash>,
}

impl View for Time {
    type V = TimeView;

    closed spec fn view(&self) -> TimeView {
        TimeView {
            ns: self.ns,
            uncertainty_ns: self.uncertainty_ns,
            domain: self.domain,
            provenance: self.provenance@,
        }
    }
}

/// No observation yet: zero, maximal uncertainty, unknown domain.
pub open spec fn unknown_time() -> TimeView {
    TimeView { ns: 0, uncertainty_ns: u64::MAX, domain: TimeDomain::Unknown, provenance: Seq::empty() }
}

impl Time {
    pub fn unknown() -> (r: Time)
        ensures
            r@ == unknown_time(),
    {
        let t = Time { ns: 0, uncertainty_ns: u64::MAX, domain: TimeDomain::Unknown, provenance: Vec::new() };
        assert(t@.provenance =~= Seq::<crate::hash::Hash>::empty());
        t
    }

    pub fn ns(&self) -> (r: u64)
        ensures
            r == self@.ns,
    {
        self.ns
    }

    pub fn uncertainty_ns(&self) -> (r: u64)
        ensures
            r == self@.uncertainty_ns,
    {
        self.uncertainty_ns
    }

    pub fn domain(&self) -> (r: TimeDomain)
        ensures
            r == self@.domain,
    {
        self.domain
    }

    pub fn provenance(&self) -> (r: &[crate::hash::Hash])
        ensures
            r@ == self@.provenance,
    {
        self.provenance.as_slice()
    }
}

// --- Samples in payloads -----------------------------------------------------

pub open spec fn source_name(s: ClockSource) -> Seq<char> {
    match s {
        ClockSource::Monotonic => "Monotonic"@,
        ClockSource::Rtc => "Rtc"@,
        ClockSource::Ntp => "Ntp"@,
        ClockSource::PeerClaim => "PeerClaim"@,
    }
}

/// The canonical encoding of a sample's record form
/// `{source, value_ns, uncertainty_ns}`, keys in canonical order.
pub open spec fn clock_sample_bytes(s: ClockSample) -> Seq<u8> {
    head(5, 3) + text_item("source"@) + text_item(source_name(s.source)) + text_item("value_ns"@) + head(
        0,
        s.value_ns as nat,
    ) + text_item("uncertainty_ns"@) + head(0, s.uncertainty_ns as nat)
}

impl ClockSource {
    fn name_str(&self) -> (r: &'static str)
        ensures
            r@ == source_name(*self),
    {
        match self {
            ClockSource::Monotonic => "Monotonic",
            ClockSource::Rtc => "Rtc",
            ClockSource::Ntp => "Ntp",
            ClockSource::PeerClaim => "PeerClaim",
        }
    }

    fn from_name(t: &str) -> (r: Option<ClockSource>)
        ensures
            r matches Some(k) ==> source_name(k) == t@,
            forall|k: ClockSource| source_name(k) == t@ ==> r == Some(k),
    {
        proof {
            assert forall|k: ClockSource, j: ClockSource| source_name(k) == t@ && source_name(j) == t@ implies k == j by {
                lemma_source_names_distinct(k, j);
            }
        }
        let r = if same_text(t, "Monotonic") {
            Some(ClockSource::Monotonic)
        } else if same_text(t, "Rtc") {
            Some(ClockSource::Rtc)
        } else if same_text(t, "Ntp") {
            Some(ClockSource::Ntp)
        } else if same_text(t, "PeerClaim") {
            Some(ClockSource::PeerClaim)
        } else {
            None
        };
        proof {
            assert forall|k: ClockSource| source_name(k) == t@ implies r == Some(k) by {
                match k {
                    ClockSource::Monotonic => {},
                    ClockSource::Rtc => {},
                    ClockSource::Ntp => {},
                    ClockSource::PeerClaim => {},
                }
                if r is Some {
                    lemma_source_names_distinct(r->Some_0, k);
                }
            }
        }
        r
    }
}

impl ClockSample {
    /// The record form `{source, value_ns, uncertainty_ns}`.
    /// Its canonical encoding is exactly `clock_sample_bytes`, the payload
    /// the clock view reads.
    pub fn to_value(&self) -> (r: Value)
        ensures
            enc(r) == Ok::<Seq<u8>, EncodeFault>(clock_sample_bytes(*self)),
    {
        let mut entries: Vec<(Value, Value)> = Vec::new();
        entries.push((text_value("source"), text_value(self.source.name_str())));
        entries.push((text_value("value_ns"), Value::Integer(self.value_ns as i128)));
        entries.push((text_value("uncertainty_ns"), Value::Integer(self.uncertainty_ns as i128)));
        proof {
            let ks = seq![text_item("source"@), text_item("value_ns"@), text_item("uncertainty_ns"@)];
            let vs = seq![
                text_item(source_name(self.source)),
                head(0, self.value_ns as nat),
                head(0, self.uncertainty_ns as nat),
            ];
            reveal_strlit("source");
            reveal_strlit("value_ns");
            reveal_strlit("uncertainty_ns");
            assert(is_ascii_chars("source"@));
            assert(is_ascii_chars("value_ns"@));
            assert(is_ascii_chars("uncertainty_ns"@));
            lemma_ascii_text_item("source"@);
            lemma_ascii_text_item("value_ns"@);
            lemma_ascii_text_item("uncertainty_ns"@);
            let z = zip_entries(ks, vs);
            assert(keys_ascending(z)) by {
                assert(lex_lt(ks[0], ks[1]));
                assert(lex_lt(ks[1], ks[2]));
                assert(lex_lt(ks[0], ks[2]));
            }
            lemma_enc_sorted_map(entries, ks, vs);
            reveal_with_fuel(concat, 4);
            assert(join_entries(z) =~= ks[0] + vs[0] + ks[1] + vs[1] + ks[2] + vs[2]);
            assert(head(5, 3) + join_entries(z) =~= clock_sample_bytes(*self));
        }
        Value::Mapping(entries)
    }

    fn canonical_bytes(&self) -> (r: Vec<u8>)
        ensures
            r@ == clock_sample_bytes(*self),
    {
        let mut out: Vec<u8> = Vec::new();
        write_major(5, 3, &mut out);
        write_text("source", &mut out);
        write_text(self.source.name_str(), &mut out);
        write_text("value_ns", &mut out);
        write_major(0, self.value_ns, &mut out);
        write_text("uncertainty_ns", &mut out);
        write_major(0, self.uncertainty_ns, &mut out);
        assert(out@ =~= clock_sample_bytes(*self));
        out
    }

    /// The sample a payload carries: the payload must be exactly the
    /// canonical encoding of a sample record.
    pub fn from_payload(p: &CanonicalBytes) -> (r: Option<ClockSample>)
        ensures
            r matches Some(s) ==> p@ == clock_sample_bytes(s),
            forall|s: ClockSample| p@ == #[trigger] clock_sample_bytes(s) ==> r == Some(s),
    {
        let b = p.as_bytes();
        let blen = b.len();
        let mut lit: Vec<u8> = Vec::new();
        write_major(5, 3, &mut lit);
        write_text("source", &mut lit);
        let mut k2: Vec<u8> = Vec::new();
        write_text("value_ns", &mut k2);
        let mut k3: Vec<u8> = Vec::new();
        write_text("uncertainty_ns", &mut k3);
        proof {
            assert forall|s: ClockSample| p@ == #[trigger] clock_sample_bytes(s) implies {
                let a1 = lit@ + text_item(source_name(s.source));
                let a2 = a1 + k2@;
                let a3 = a2 + head(0, s.value_ns as nat);
                let a4 = a3 + k3@;
                &&& holds_at(b@, 0, lit@)
                &&& holds_at(b@, lit@.len() as int, text_item(source_name(s.source)))
                &&& holds_at(b@, a1.len() as int, k2@)
                &&& holds_at(b@, a2.len() as int, head(0, s.value_ns as nat))
                &&& holds_at(b@, a3.len() as int, k3@)
                &&& holds_at(b@, a4.len() as int, head(0, s.uncertainty_ns as nat))
                &&& a4.len() + head(0, s.uncertainty_ns as nat).len() == b@.len()
            } by {
                let a1 = lit@ + text_item(source_name(s.source));
                let a2 = a1 + k2@;
                let a3 = a2 + head(0, s.value_ns as nat);
                let a4 = a3 + k3@;
                let a5 = a4 + head(0, s.uncertainty_ns as nat);
                assert(a5 =~= clock_sample_bytes(s));
                assert(b@.subrange(0, b@.len() as int) =~= b@);
                assert(holds_at(b@, 0, a5));
                lemma_holds_concat(b@, 0, a4, head(0, s.uncertainty_ns as nat));
                lemma_holds_concat(b@, 0, a3, k3@);
                lemma_holds_concat(b@, 0, a2, head(0, s.value_ns as nat));
                lemma_holds_concat(b@, 0, a1, k2@);
                lemma_holds_concat(b@, 0, lit@, text_item(source_name(s.source)));
            }
        }
        if !starts_with(b, 0, lit.as_slice()) {
            return None;
        }
        let (name, pos) = match read_text(b, lit.len()) {
            Some(x) => x,
            None => {
                return None;
            },
        };
        let source = match ClockSource::from_name(name.as_str()) {
            Some(s) => s,
            None => {
                return None;
            },
        };
        if !starts_with(b, pos, k2.as_slice()) {
            return None;
        }
        let (value_ns, pos2) = match read_head(b, pos + k2.len(), 0) {
            Some(x) => x,
            None => {
                return None;
            },
        };
        if !starts_with(b, pos2, k3.as_slice()) {
            return None;
        }
        let (uncertainty_ns, end) = match read_head(b, pos2 + k3.len(), 0) {
            Some(x) => x,
            None => {
                return None;
            },
        };
        if end != b.len() {
            return None;
        }
        let s = ClockSample { source, value_ns, uncertainty_ns };
        proof {
            let a1 = lit@ + text_item(source_name(s.source));
            let a2 = a1 + k2@;
            let a3 = a2 + head(0, s.value_ns as nat);
            let a4 = a3 + k3@;
            let a5 = a4 + head(0, s.uncertainty_ns as nat);
            lemma_holds_concat(b@, 0, lit@, text_item(source_name(s.source)));
            lemma_holds_concat(b@, 0, a1, k2@);
            lemma_holds_concat(b@, 0, a2, head(0, s.value_ns as nat));
            lemma_holds_concat(b@, 0, a3, k3@);
            lemma_holds_concat(b@, 0, a4, head(0, s.uncertainty_ns as nat));
            assert(a5 =~= clock_sample_bytes(s));
            assert(b@ =~= b@.subrange(0, a5.len() as int));
        }
        Some(s)
    }
}

proof fn lemma_source_names_distinct(a: ClockSource, b: ClockSource)
    requires
        source_name(a) == source_name(b),
    ensures
        a == b,
{
    reveal_strlit("Monotonic");
    reveal_strlit("Rtc");
    reveal_strlit("Ntp");
    reveal_strlit("PeerClaim");
    assert("Monotonic"@.len() == 9 && "Monotonic"@[0] == 'M');
    assert("PeerClaim"@.len() == 9 && "PeerClaim"@[0] == 'P');
    assert("Rtc"@.len() == 3 && "Rtc"@[0] == 'R');
    assert("Ntp"@.len() == 3 && "Ntp"@[0] == 'N');
}

// --- The view ----------------------------------------------------------------

/// The state of a clock view as mathematical values.
pub struct ClockModel {
    pub samples: Seq<ClockSampleRecord>,
    pub latest: LatestSamples,
    pub current: TimeView,
    pub policy: ClockPolicyId,
}

pub open spec fn no_samples() -> LatestSamples {
    LatestSamples { monotonic: None, ntp: None, rtc: None, peer: None }
}

/// A fresh view under `policy`.
pub open spec fn initial_clock(policy: ClockPolicyId) -> ClockModel {
    ClockModel { samples: Seq::empty(), latest: no_samples(), current: unknown_time(), policy }
}

pub open spec fn time_from(rec: ClockSampleRecord, domain: TimeDomain) -> TimeView {
    TimeView {
        ns: rec.sample.value_ns,
        uncertainty_ns: rec.sample.uncertainty_ns,
        domain,
        provenance: seq![rec.event_id],
    }
}

/// The current time a policy reads from the latest samples.
pub open spec fn time_under(policy: ClockPolicyId, latest: LatestSamples) -> TimeView {
    match policy {
        ClockPolicyId::TrustMonotonicLatest => match latest.monotonic {
            Some(rec) => time_from(rec, TimeDomain::Monotonic),
            None => unknown_time(),
        },
        ClockPolicyId::TrustNtpLatest => match latest.ntp {
            Some(rec) => time_from(rec, TimeDomain::Unix),
            None => unknown_time(),
        },
    }
}

pub open spec fn with_latest(l: LatestSamples, rec: ClockSampleRecord) -> LatestSamples {
    match rec.sample.source {
        ClockSource::Monotonic => LatestSamples { monotonic: Some(rec), ..l },
        ClockSource::Ntp => LatestSamples { ntp: Some(rec), ..l },
        ClockSource::Rtc => LatestSamples { rtc: Some(rec), ..l },
        ClockSource::PeerClaim => LatestSamples { peer: Some(rec), ..l },
    }
}

/// The view after taking in one sample record.
pub open spec fn record_sample(m: ClockModel, rec: ClockSampleRecord) -> ClockModel {
    let latest = with_latest(m.latest, rec);
    ClockModel { samples: m.samples.push(rec), latest, current: time_under(m.policy, latest), policy: m.policy }
}

/// An Observation tagged as a clock sample.
pub open spec fn is_clock_event(e: EnvelopeView) -> bool {
    e.kind == EventKind::Observation && e.observation_type == Some(OBS_CLOCK_SAMPLE_V0@)
}

/// The sample a payload encodes exactly, if any.
pub open spec fn sample_in(p: Seq<u8>) -> Option<ClockSample> {
    if exists|s: ClockSample| p == clock_sample_bytes(s) {
        Some(choose|s: ClockSample| p == clock_sample_bytes(s))
    } else {
        None
    }
}

/// One step of the fold: a clock sample event whose payload encodes a
/// sample records it; every other event leaves the view as it was.
pub open spec fn clock_step(m: ClockModel, e: EnvelopeView, m2: ClockModel) -> bool {
    if is_clock_event(e) && sample_in(e.payload) is Some {
        m2 == record_sample(m, ClockSampleRecord { event_id: e.event_id, sample: sample_in(e.payload)->Some_0 })
    } else {
        m2 == m
    }
}

/// `ms` is the run of views while folding `es`, in order, into a fresh
/// view under `policy`: one view before each event and one after the last.
pub open spec fn clock_run(policy: ClockPolicyId, es: Seq<EventEnvelope>, ms: Seq<ClockModel>) -> bool {
    &&& ms.len() == es.len() + 1
    &&& ms[0] == initial_clock(policy)
    &&& forall|i: int| 0 <= i < es.len() ==> clock_step(#[trigger] ms[i], es[i]@, ms[i + 1])
}

/// `m` is a view reached by folding `es` into a fresh view under `policy`.
pub open spec fn clock_folds(policy: ClockPolicyId, es: Seq<EventEnvelope>, m: ClockModel) -> bool {
    exists|ms: Seq<ClockModel>| clock_run(policy, es, ms) && ms.last() == m
}

/// Replay: folding the same events under the same policy always reaches
/// the same view, so the time at a cut is a function of the events before
/// it and the policy.
pub proof fn lemma_clock_fold_deterministic(policy: ClockPolicyId, es: Seq<EventEnvelope>, m1: ClockModel, m2: ClockModel)
    requires
        clock_folds(policy, es, m1),
        clock_folds(policy, es, m2),
    ensures
        m1 == m2,
{
    let ms1 = choose|ms: Seq<ClockModel>| clock_run(policy, es, ms) && ms.last() == m1;
    let ms2 = choose|ms: Seq<ClockModel>| clock_run(policy, es, ms) && ms.last() == m2;
    assert forall|i: int| 0 <= i <= es.len() implies ms1[i] == ms2[i] by {
        lemma_runs_agree(policy, es, ms1, ms2, i);
    }
    assert(ms1[es.len() as int] == ms2[es.len() as int]);
}

proof fn lemma_runs_agree(policy: ClockPolicyId, es: Seq<EventEnvelope>, ms1: Seq<ClockModel>, ms2: Seq<ClockModel>, i: int)
    requires
        clock_run(policy, es, ms1),
        clock_run(policy, es, ms2),
        0 <= i <= es.len(),
    ensures
        ms1[i] == ms2[i],
    decreases i,
{
    if i > 0 {
        lemma_runs_agree(policy, es, ms1, ms2, i - 1);
        assert(clock_step(ms1[i - 1], es[i - 1]@, ms1[i]));
        assert(clock_step(ms2[i - 1], es[i - 1]@, ms2[i]));
    }
}

/// A deterministic view of time over clock sample observations.
pub struct ClockView {
    samples: Vec<ClockSampleRecord>,
    latest: LatestSamples,
    current: Time,
    policy: ClockPolicyId,
}

impl View for ClockView {
    type V = ClockModel;

    closed spec fn view(&self) -> ClockModel {
        ClockModel { samples: self.samples@, latest: self.latest, current: self.current@, policy: self.policy }
    }
}

impl ClockView {
    /// A fresh view: no samples, time unknown.
    pub fn new(policy: ClockPolicyId) -> (r: ClockView)
        ensures
            r@ == initial_clock(policy),
    {
        let v = ClockView {
            samples: Vec::new(),
            latest: LatestSamples { monotonic: None, ntp: None, rtc: None, peer: None },
            current: Time::unknown(),
            policy,
        };
        assert(v@.samples =~= Seq::<ClockSampleRecord>::empty());
        v
    }

    /// The time the policy reads from the latest samples.
    fn compute_current_time(&self) -> (r: Time)
        ensures
            r@ == time_under(self.policy, self.latest),
    {
        match self.policy {
            ClockPolicyId::TrustMonotonicLatest => match self.latest.monotonic {
                Some(rec) => {
                    let mut provenance: Vec<crate::hash::Hash> = Vec::new();
                    provenance.push(rec.event_id);
                    let t = Time {
                        ns: rec.sample.value_ns,
                        uncertainty_ns: rec.sample.uncertainty_ns,
                        domain: TimeDomain::Monotonic,
                        provenance,
                    };
                    assert(t@.provenance =~= seq![rec.event_id]);
                    t
                },
                None => Time::unknown(),
            },
            ClockPolicyId::TrustNtpLatest => match self.latest.ntp {
                Some(rec) => {
                    let mut provenance: Vec<crate::hash::Hash> = Vec::new();
                    provenance.push(rec.event_id);
                    let t = Time {
                        ns: rec.sample.value_ns,
                        uncertainty_ns: rec.sample.uncertainty_ns,
                        domain: TimeDomain::Unix,
                        provenance,
                    };
                    assert(t@.provenance =~= seq![rec.event_id]);
                    t
                },
                None => Time::unknown(),
            },
        }
    }

    /// Applies one event in worldline order. Only clock sample
    /// observations whose payload is a sample change the view.
    pub fn apply_event(&mut self, event: &EventEnvelope) -> (r: Result<(), ClockError>)
        ensures
            r is Ok,
            clock_step(old(self)@, event@, final(self)@),
    {
        if *event.kind() != EventKind::Observation {
            return Ok(());
        }
        match event.observation_type() {
            Some(t) => {
                if !same_text(t, OBS_CLOCK_SAMPLE_V0) {
                    return Ok(());
                }
            },
            None => {
                return Ok(());
            },
        }
        let sample = match ClockSample::from_payload(event.payload()) {
            Some(s) => s,
            None => {
                assert(sample_in(event@.payload) is None);
                return Ok(());
            },
        };
        proof {
            let c = choose|s: ClockSample| event@.payload == clock_sample_bytes(s);
            assert(event@.payload == clock_sample_bytes(sample));
            assert(sample_in(event@.payload) == Some(c));
            assert(c == sample);
        }
        let record = ClockSampleRecord { event_id: event.event_id(), sample };
        match record.sample.source {
            ClockSource::Monotonic => self.latest.monotonic = Some(record),
            ClockSource::Ntp => self.latest.ntp = Some(record),
            ClockSource::Rtc => self.latest.rtc = Some(record),
            ClockSource::PeerClaim => self.latest.peer = Some(record),
        }
        self.samples.push(record);
        self.current = self.compute_current_time();
        assert(final(self)@ == record_sample(old(self)@, record));
        Ok(())
    }

    /// The time at a cut: a fresh view under `policy` folded over the first
    /// `cut` events. A cut beyond the end is an error.
    pub fn now_at_cut(events: &[EventEnvelope], cut: usize, policy: ClockPolicyId) -> (r: Result<Time, ClockError>)
        ensures
            cut > events@.len() ==> r == Err::<Time, ClockError>(ClockError::CutOutOfBounds { cut, len: events@.len() as usize }),
            cut <= events@.len() ==> (r matches Ok(t) && exists|m: ClockModel|
                clock_folds(policy, events@.subrange(0, cut as int), m) && t@ == m.current),
    {
        if cut > events.len() {
            return Err(ClockError::CutOutOfBounds { cut, len: events.len() });
        }
        let mut view = ClockView::new(policy);
        let mut i: usize = 0;
        let ghost ms: Seq<ClockModel> = seq![view@];
        while i < cut
            invariant
                cut <= events@.len(),
                i <= cut,
                clock_run(policy, events@.subrange(0, i as int), ms),
                ms.last() == view@,
            decreases cut - i,
        {
            let ghost prev = view@;
            let _ = view.apply_event(&events[i]);
            proof {
                let es = events@.subrange(0, i + 1);
                let ms2 = ms.push(view@);
                assert forall|j: int| 0 <= j < es.len() implies clock_step(#[trigger] ms2[j], es[j]@, ms2[j + 1]) by {
                    if j < i {
                        assert(es[j] == events@.subrange(0, i as int)[j]);
                    }
                }
                ms = ms2;
            }
            i = i + 1;
        }
        proof {
            assert(clock_run(policy, events@.subrange(0, cut as int), ms) && ms.last() == view@);
            assert(clock_folds(policy, events@.subrange(0, cut as int), view@));
        }
        Ok(view.current)
    }

    /// The current belief, as of the last applied event.
    pub fn now(&self) -> (r: &Time)
        ensures
            r@ == self@.current,
    {
        &self.current
    }
}

} // verus!
