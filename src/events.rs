//! Event envelopes: the four event kinds, content-addressed identities,
//! canonical parent sets, and validation of the DAG against a store.
use vstd::prelude::*;
use crate::canonical::{concat, enc, enc_seq, encode, decode, head, write_major, is_canonical, lemma_concat_push, reports, CanonicalError, EncodeFault, Value};
use crate::hash::{blake3_digest, hash_lt};
use crate::record::{text_item, write_text, field, same_text, as_hash, as_hashes, as_bytes_value, bytes_value, hashes_value, hash_value, text_value, is_hash_value, is_hashes_value, is_bytes_value, field_of, lemma_hash_form_unique, lemma_record_forms_unique};

verus! {

/// Agent identifier (human, AI or system): a non-empty text.
#[derive(Clone, Debug, PartialEq, Eq, Hash)]
pub struct AgentId(String);

impl View for AgentId {
    type V = Seq<char>;

    closed spec fn view(&self) -> Seq<char> {
        self.0@
    }
}

impl AgentId {
    /// A non-empty agent identifier; the empty text is refused.
    pub fn new(id: &str) -> (r: Result<AgentId, EventError>)
        ensures
            r is Ok <==> id@.len() > 0,
            r matches Ok(a) ==> a@ == id@,
            r matches Err(e) ==> e is InvalidStructure,
    {
        if id.is_empty() {
            return Err(EventError::InvalidStructure("AgentId cannot be empty".to_string()));
        }
        let s = id.to_owned();
        let a = AgentId(s);
        assert(a@ == id@);
        Ok(a)
    }

    pub fn as_str(&self) -> (r: &str)
        ensures
            r@ == self@,
    {
        self.0.as_str()
    }
}

/// Signature over event data: a non-empty opaque byte string.
#[derive(Clone, Debug, PartialEq, Eq)]
pub struct Signature(Vec<u8>);

impl View for Signature {
    type V = Seq<u8>;

    closed spec fn view(&self) -> Seq<u8> {
        self.0@
    }
}

impl Signature {
    /// A non-empty signature; empty bytes are refused.
    pub fn new(bytes: Vec<u8>) -> (r: Result<Signature, EventError>)
        ensures
            r is Ok <==> bytes@.len() > 0,
            r matches Ok(s) ==> s@ == bytes@,
            r matches Err(e) ==> e is InvalidStructure,
    {
        if bytes.len() == 0 {
            return Err(EventError::InvalidStructure("Signature cannot be empty".to_string()));
        }
        Ok(Signature(bytes))
    }

    pub fn as_bytes(&self) -> (r: &[u8])
        ensures
            r@ == self@,
    {
        self.0.as_slice()
    }
}

/// Bytes that are the canonical encoding of some value.
#[derive(Debug, PartialEq, Eq)]
pub struct CanonicalBytes(Vec<u8>);

impl Clone for CanonicalBytes {
    fn clone(&self) -> (r: Self)
        ensures
            r@ == self@,
    {
        proof {
            use_type_invariant(self);
        }
        CanonicalBytes(crate::canonical::copy_bytes(self.0.as_slice()))
    }
}

impl View for CanonicalBytes {
    type V = Seq<u8>;

    closed spec fn view(&self) -> Seq<u8> {
        self.0@
    }
}

impl CanonicalBytes {
    /// The bytes are always the canonical encoding of some value.
    #[verifier::type_invariant]
    closed spec fn canonical_inv(self) -> bool {
        is_canonical(self.0@)
    }

    /// The canonical encoding of `value`.
    pub fn from_value(value: &Value) -> (r: Result<CanonicalBytes, CanonicalError>)
        ensures
            match enc(*value) {
                Ok(b) => r matches Ok(c) && c@ == b,
                Err(f) => r matches Err(e) && reports(e, f),
            },
    {
        match encode(value) {
            Ok(b) => {
                assert(is_canonical(b@));
                Ok(CanonicalBytes(b))
            },
            Err(e) => Err(e),
        }
    }

    /// Accepts raw bytes only when they are the canonical encoding of the
    /// value they decode to.
    pub fn from_bytes(bytes: Vec<u8>) -> (r: Result<CanonicalBytes, CanonicalError>)
        ensures
            r is Ok <==> is_canonical(bytes@),
            r matches Ok(c) ==> c@ == bytes@,
    {
        match decode(bytes.as_slice()) {
            Ok(v) => {
                assert(is_canonical(bytes@));
                Ok(CanonicalBytes(bytes))
            },
            Err(e) => Err(e),
        }
    }

    /// Decodes the bytes back to their value; this always succeeds.
    pub fn to_value(&self) -> (r: Result<Value, CanonicalError>)
        ensures
            r matches Ok(v) && enc(v) == Ok::<Seq<u8>, EncodeFault>(self@),
    {
        proof {
            use_type_invariant(self);
        }
        decode(self.0.as_slice())
    }

    pub fn as_bytes(&self) -> (r: &[u8])
        ensures
            r@ == self@,
    {
        self.0.as_slice()
    }
}

/// The four kinds of event.
#[derive(Clone, Copy, Debug, PartialEq, Eq, Structural)]
pub enum EventKind {
    /// A fact claimed about the world; may be wrong or contradicted.
    Observation,
    /// An interpretive stance: how clocks, scheduling and trust are read.
    PolicyContext,
    /// An interpretive choice made given evidence and exactly one policy.
    Decision,
    /// An irreversible, externally visible effect.
    Commit,
}

impl EventKind {
    pub open spec fn name(self) -> Seq<char> {
        match self {
            EventKind::Observation => "Observation"@,
            EventKind::PolicyContext => "PolicyContext"@,
            EventKind::Decision => "Decision"@,
            EventKind::Commit => "Commit"@,
        }
    }

    /// The kind with the given name.
    pub fn from_name(t: &str) -> (r: Option<EventKind>)
        ensures
            r matches Some(k) ==> k.name() == t@,
            forall|k: EventKind| k.name() == t@ ==> r == Some(k),
    {
        proof {
            reveal_strlit("Observation");
            reveal_strlit("PolicyContext");
            reveal_strlit("Decision");
            reveal_strlit("Commit");
            assert("Observation"@.len() == 11);
            assert("PolicyContext"@.len() == 13);
            assert("Decision"@.len() == 8);
            assert("Commit"@.len() == 6);
        }
        if same_text(t, "Observation") {
            Some(EventKind::Observation)
        } else if same_text(t, "PolicyContext") {
            Some(EventKind::PolicyContext)
        } else if same_text(t, "Decision") {
            Some(EventKind::Decision)
        } else if same_text(t, "Commit") {
            Some(EventKind::Commit)
        } else {
            None
        }
    }

    /// The name of the kind as it appears in encodings.
    pub fn name_str(&self) -> (r: &'static str)
        ensures
            r@ == self.name(),
    {
        match self {
            EventKind::Observation => "Observation",
            EventKind::PolicyContext => "PolicyContext",
            EventKind::Decision => "Decision",
            EventKind::Commit => "Commit",
        }
    }
}

/// Errors of constructing or validating events.
#[derive(Debug)]
pub enum EventError {
    CanonicalError(CanonicalError),
    InvalidStructure(String),
    ValidationError(String),
}

// --- Identity ----------------------------------------------------------------

/// The encoding of a digest: an array of its 32 bytes as integers.
pub open spec fn hash_item(h: crate::hash::Hash) -> Seq<u8> {
    head(4, 32) + concat(h.0@.map_values(|b: u8| head(0, b as nat)))
}

/// An array of byte-sized integers encodes item by item.
pub proof fn lemma_enc_byte_array(s: Seq<Value>, b: Seq<u8>)
    requires
        s.len() == b.len(),
        forall|i: int| 0 <= i < s.len() ==> #[trigger] s[i] == Value::Integer(b[i] as i128),
    ensures
        enc_seq(s) == Ok::<Seq<Seq<u8>>, EncodeFault>(b.map_values(|x: u8| head(0, x as nat))),
    decreases s.len(),
{
    if s.len() > 0 {
        let n = s.len() - 1;
        assert forall|i: int| 0 <= i < n implies #[trigger] s.subrange(0, n)[i] == Value::Integer(
            b.subrange(0, n)[i] as i128,
        ) by {
            assert(s[i] == Value::Integer(b[i] as i128));
        }
        lemma_enc_byte_array(s.subrange(0, n), b.subrange(0, n));
        assert(s[n] == Value::Integer(b[n] as i128));
        assert(enc(s[n]) == Ok::<Seq<u8>, EncodeFault>(head(0, b[n] as nat)));
        assert(b.subrange(0, n).map_values(|x: u8| head(0, x as nat)).push(head(0, b[n] as nat)) =~= b.map_values(
            |x: u8| head(0, x as nat),
        ));
    } else {
        assert(b.map_values(|x: u8| head(0, x as nat)) =~= Seq::<Seq<u8>>::empty());
    }
}

/// The record form of a digest encodes as its digest item.
pub proof fn lemma_enc_hash_value(v: Value, h: crate::hash::Hash)
    requires
        is_hash_value(v, h),
    ensures
        enc(v) == Ok::<Seq<u8>, EncodeFault>(hash_item(h)),
{
    lemma_enc_byte_array(v->Array_0@, h.0@);
}

/// The encoding of a byte string as an array of integers.
pub open spec fn byte_items(b: Seq<u8>) -> Seq<u8> {
    head(4, b.len()) + concat(b.map_values(|x: u8| head(0, x as nat)))
}

/// The encoding of a list of digests.
pub open spec fn hash_items(hs: Seq<crate::hash::Hash>) -> Seq<u8> {
    head(4, hs.len()) + concat(hs.map_values(|h: crate::hash::Hash| hash_item(h)))
}

/// The canonical encoding of the identity input of an event: the map
/// `{kind: {type: <kind name>}, parents: [...], payload: [...]}`, keys in
/// canonical order.
pub open spec fn event_id_input(kind: EventKind, payload: Seq<u8>, parents: Seq<crate::hash::Hash>) -> Seq<u8> {
    head(5, 3) + text_item("kind"@) + head(5, 1) + text_item("type"@) + text_item(kind.name()) + text_item(
        "parents"@,
    ) + hash_items(parents) + text_item("payload"@) + byte_items(payload)
}

/// The identity of an event: the digest of its identity input.
pub open spec fn event_id_of(kind: EventKind, payload: Seq<u8>, parents: Seq<crate::hash::Hash>) -> Seq<u8> {
    blake3_digest(event_id_input(kind, payload, parents))
}

/// Strictly increasing digests: sorted and free of duplicates.
pub open spec fn strictly_ascending(s: Seq<crate::hash::Hash>) -> bool {
    forall|i: int, j: int| 0 <= i < j < s.len() ==> hash_lt(#[trigger] s[i], #[trigger] s[j])
}

pub fn write_byte_items(b: &[u8], out: &mut Vec<u8>)
    ensures
        final(out)@ == old(out)@ + byte_items(b@),
{
    write_major(4, b.len() as u64, out);
    let ghost start = out@;
    let mut i: usize = 0;
    assert(b@.subrange(0, 0).map_values(|x: u8| head(0, x as nat)) =~= Seq::<Seq<u8>>::empty());
    assert(start =~= start + concat(Seq::<Seq<u8>>::empty()));
    while i < b.len()
        invariant
            i <= b@.len(),
            out@ == start + concat(b@.subrange(0, i as int).map_values(|x: u8| head(0, x as nat))),
        decreases b.len() - i,
    {
        let ghost prev = b@.subrange(0, i as int).map_values(|x: u8| head(0, x as nat));
        write_major(0, b[i] as u64, out);
        proof {
            assert(b@.subrange(0, i + 1).map_values(|x: u8| head(0, x as nat)) =~= prev.push(head(0, b@[i as int] as nat)));
            lemma_concat_push(prev, head(0, b@[i as int] as nat));
        }
        i = i + 1;
    }
    assert(b@.subrange(0, i as int) =~= b@);
    assert(final(out)@ =~= old(out)@ + byte_items(b@));
}

pub fn write_hash_items(hs: &[crate::hash::Hash], out: &mut Vec<u8>)
    ensures
        final(out)@ == old(out)@ + hash_items(hs@),
{
    write_major(4, hs.len() as u64, out);
    let ghost start = out@;
    let mut i: usize = 0;
    assert(hs@.subrange(0, 0).map_values(|h: crate::hash::Hash| hash_item(h)) =~= Seq::<Seq<u8>>::empty());
    assert(start =~= start + concat(Seq::<Seq<u8>>::empty()));
    while i < hs.len()
        invariant
            i <= hs@.len(),
            out@ == start + concat(hs@.subrange(0, i as int).map_values(|h: crate::hash::Hash| hash_item(h))),
        decreases hs.len() - i,
    {
        let ghost prev = hs@.subrange(0, i as int).map_values(|h: crate::hash::Hash| hash_item(h));
        let ghost before = out@;
        write_byte_items(hs[i].0.as_slice(), out);
        proof {
            assert(byte_items(hs@[i as int].0@) == hash_item(hs@[i as int]));
            assert(hs@.subrange(0, i + 1).map_values(|h: crate::hash::Hash| hash_item(h)) =~= prev.push(hash_item(hs@[i as int])));
            lemma_concat_push(prev, hash_item(hs@[i as int]));
            assert(out@ =~= start + concat(prev.push(hash_item(hs@[i as int]))));
        }
        i = i + 1;
    }
    assert(hs@.subrange(0, i as int) =~= hs@);
    assert(final(out)@ =~= old(out)@ + hash_items(hs@));
}

/// The canonical bytes of an event's identity input.
pub fn event_id_bytes(kind: &EventKind, payload: &[u8], parents: &[crate::hash::Hash]) -> (r: Vec<u8>)
    ensures
        r@ == event_id_input(*kind, payload@, parents@),
{
    let mut out: Vec<u8> = Vec::new();
    write_major(5, 3, &mut out);
    write_text("kind", &mut out);
    write_major(5, 1, &mut out);
    write_text("type", &mut out);
    write_text(kind.name_str(), &mut out);
    write_text("parents", &mut out);
    write_hash_items(parents, &mut out);
    write_text("payload", &mut out);
    write_byte_items(payload, &mut out);
    assert(out@ =~= event_id_input(*kind, payload@, parents@));
    out
}


// --- Envelope ----------------------------------------------------------------

/// The contents of an envelope as mathematical values.
pub struct EnvelopeView {
    pub event_id: crate::hash::Hash,
    pub kind: EventKind,
    pub payload: Seq<u8>,
    pub parents: Seq<crate::hash::Hash>,
    pub agent_id: Option<Seq<char>>,
    pub signature: Option<Seq<u8>>,
    pub observation_type: Option<Seq<char>>,
}

/// An event of the DAG: kind, canonical payload, parents, optional agent,
/// signature and observation tag, and the identity computed from the first
/// three.
#[derive(Clone, Debug, PartialEq)]
pub struct EventEnvelope {
    event_id: crate::hash::Hash,
    kind: EventKind,
    payload: CanonicalBytes,
    parents: Vec<crate::hash::Hash>,
    agent_id: Option<AgentId>,
    signature: Option<Signature>,
    observation_type: Option<String>,
}

pub open spec fn opt_agent_view(a: Option<AgentId>) -> Option<Seq<char>> {
    match a {
        Some(x) => Some(x@),
        None => None,
    }
}

pub open spec fn opt_signature_view(a: Option<Signature>) -> Option<Seq<u8>> {
    match a {
        Some(x) => Some(x@),
        None => None,
    }
}

pub open spec fn opt_text_view(a: Option<String>) -> Option<Seq<char>> {
    match a {
        Some(x) => Some(x@),
        None => None,
    }
}

impl View for EventEnvelope {
    type V = EnvelopeView;

    closed spec fn view(&self) -> EnvelopeView {
        EnvelopeView {
            event_id: self.event_id,
            kind: self.kind,
            payload: self.payload@,
            parents: self.parents@,
            agent_id: opt_agent_view(self.agent_id),
            signature: opt_signature_view(self.signature),
            observation_type: opt_text_view(self.observation_type),
        }
    }
}

/// The stored identity is the digest of kind, payload and parents.
pub open spec fn id_matches(e: EnvelopeView) -> bool {
    e.event_id.0@ == event_id_of(e.kind, e.payload, e.parents)
}

/// `ps` is the canonical form of the parent list `input`: strictly
/// ascending, with exactly the same digests.
pub open spec fn canonical_parents_of(ps: Seq<crate::hash::Hash>, input: Seq<crate::hash::Hash>) -> bool {
    &&& strictly_ascending(ps)
    &&& forall|h: crate::hash::Hash| ps.contains(h) <==> input.contains(h)
}

/// What every envelope made by a constructor satisfies.
pub open spec fn constructed(e: EnvelopeView) -> bool {
    &&& id_matches(e)
    &&& strictly_ascending(e.parents)
    &&& (e.kind == EventKind::Commit ==> e.signature is Some)
    &&& (e.observation_type is Some ==> e.kind == EventKind::Observation)
}

fn contains_hash(s: &Vec<crate::hash::Hash>, h: &crate::hash::Hash) -> (r: bool)
    ensures
        r == s@.contains(*h),
{
    let mut i: usize = 0;
    while i < s.len()
        invariant
            i <= s@.len(),
            forall|j: int| 0 <= j < i ==> s@[j] != *h,
        decreases s.len() - i,
    {
        if s[i].compare(h) == 0 {
            return true;
        }
        i = i + 1;
    }
    false
}

impl EventEnvelope {
    /// The identity of an event with this kind, payload and parent list.
    pub fn compute_event_id(kind: &EventKind, payload: &CanonicalBytes, parents: &[crate::hash::Hash]) -> (r: Result<
        crate::hash::Hash,
        CanonicalError,
    >)
        ensures
            r matches Ok(h) && h.0@ == event_id_of(*kind, payload@, parents@),
    {
        let bytes = event_id_bytes(kind, payload.as_bytes(), parents);
        Ok(crate::hash::Hash::digest(bytes.as_slice()))
    }

    /// Sorts the parents ascending by raw bytes and drops duplicates.
    fn canonicalize_parents(parents: Vec<crate::hash::Hash>) -> (r: Vec<crate::hash::Hash>)
        ensures
            canonical_parents_of(r@, parents@),
    {
        let mut r: Vec<crate::hash::Hash> = Vec::new();
        let mut i: usize = 0;
        while i < parents.len()
            invariant
                i <= parents@.len(),
                strictly_ascending(r@),
                forall|h: crate::hash::Hash| r@.contains(h) <==> parents@.subrange(0, i as int).contains(h),
            decreases parents.len() - i,
        {
            let p = parents[i];
            let mut j: usize = 0;
            loop
                invariant
                    j <= r@.len(),
                    forall|x: int| 0 <= x < j ==> hash_lt(#[trigger] r@[x], p),
                ensures
                    j <= r@.len(),
                    forall|x: int| 0 <= x < j ==> hash_lt(#[trigger] r@[x], p),
                    j < r@.len() ==> !hash_lt(r@[j as int], p),
                decreases r.len() - j,
            {
                if j >= r.len() {
                    break;
                }
                if r[j].compare(&p) >= 0 {
                    break;
                }
                j = j + 1;
            }
            let ghost old_r = r@;
            assert(parents@.subrange(0, i + 1) =~= parents@.subrange(0, i as int).push(p));
            assert(forall|h: crate::hash::Hash| old_r.contains(h) <==> parents@.subrange(0, i as int).contains(h));
            if j < r.len() && r[j].compare(&p) == 0 {
                assert(old_r[j as int] == p);
                assert(old_r.contains(p));
                assert forall|h: crate::hash::Hash| r@.contains(h) <==> old_r.contains(h) || h == p by {}
            } else {
                proof {
                    if j < old_r.len() {
                        crate::canonical::lemma_lex_total(old_r[j as int].0@, p.0@);
                        if old_r[j as int].0@ == p.0@ {
                            assert(old_r[j as int].0 == p.0);
                        }
                    }
                }
                r.insert(j, p);
                proof {
                    assert(r@ =~= old_r.insert(j as int, p));
                    assert forall|x: int, y: int| 0 <= x < y < r@.len() implies hash_lt(#[trigger] r@[x], #[trigger] r@[y]) by {
                        if x < j && y > j {
                            crate::canonical::lemma_lex_transitive(old_r[x].0@, p.0@, old_r[j as int].0@);
                            if y - 1 > j {
                                crate::canonical::lemma_lex_transitive(old_r[x].0@, old_r[j as int].0@, old_r[y - 1].0@);
                            }
                        } else if x == j && y - 1 > j {
                            crate::canonical::lemma_lex_transitive(p.0@, old_r[j as int].0@, old_r[y - 1].0@);
                        }
                    }
                    assert forall|h: crate::hash::Hash| r@.contains(h) <==> old_r.contains(h) || h == p by {
                        if r@.contains(h) {
                            let k = choose|k: int| 0 <= k < r@.len() && r@[k] == h;
                            if k < j {
                                assert(old_r[k] == h);
                            } else if k > j {
                                assert(old_r[k - 1] == h);
                            }
                        }
                        if old_r.contains(h) {
                            let k = choose|k: int| 0 <= k < old_r.len() && old_r[k] == h;
                            if k < j {
                                assert(r@[k] == h);
                            } else {
                                assert(r@[k + 1] == h);
                            }
                        }
                        if h == p {
                            assert(r@[j as int] == h);
                        }
                    }
                }
            }
            proof {
                assert forall|h: crate::hash::Hash| parents@.subrange(0, i + 1).contains(h) <==> parents@.subrange(0, i as int).contains(h) || h == p by {
                    let s = parents@.subrange(0, i as int);
                    if s.push(p).contains(h) {
                        let k = choose|k: int| 0 <= k < s.push(p).len() && s.push(p)[k] == h;
                        if k < s.len() {
                            assert(s[k] == h);
                        }
                    }
                    if s.contains(h) {
                        let k = choose|k: int| 0 <= k < s.len() && s[k] == h;
                        assert(s.push(p)[k] == h);
                    }
                    if h == p {
                        assert(s.push(p)[s.len() as int] == h);
                    }
                }
                assert forall|h: crate::hash::Hash| r@.contains(h) <==> parents@.subrange(0, i + 1).contains(h) by {
                    assert(r@.contains(h) <==> old_r.contains(h) || h == p);
                    assert(old_r.contains(h) <==> parents@.subrange(0, i as int).contains(h));
                    assert(parents@.subrange(0, i + 1).contains(h) <==> parents@.subrange(0, i as int).contains(h) || h == p);
                }
            }
            i = i + 1;
        }
        assert(parents@.subrange(0, i as int) =~= parents@);
        r
    }

    /// A new Observation: any payload and parents.
    pub fn new_observation(
        payload: CanonicalBytes,
        parents: Vec<crate::hash::Hash>,
        observation_type: Option<String>,
        agent_id: Option<AgentId>,
        signature: Option<Signature>,
    ) -> (r: Result<Self, EventError>)
        ensures
            r matches Ok(e) && {
                &&& constructed(e@)
                &&& e@.kind == EventKind::Observation
                &&& e@.payload == payload@
                &&& canonical_parents_of(e@.parents, parents@)
                &&& e@.agent_id == opt_agent_view(agent_id)
                &&& e@.signature == opt_signature_view(signature)
                &&& e@.observation_type == opt_text_view(observation_type)
            },
    {
        let parents = Self::canonicalize_parents(parents);
        let event_id = match Self::compute_event_id(&EventKind::Observation, &payload, parents.as_slice()) {
            Ok(h) => h,
            Err(e) => {
                return Err(EventError::CanonicalError(e));
            },
        };
        Ok(EventEnvelope {
            event_id,
            kind: EventKind::Observation,
            payload,
            parents,
            agent_id,
            signature,
            observation_type,
        })
    }

    /// A new PolicyContext: any payload and parents.
    pub fn new_policy_context(
        payload: CanonicalBytes,
        parents: Vec<crate::hash::Hash>,
        agent_id: Option<AgentId>,
        signature: Option<Signature>,
    ) -> (r: Result<Self, EventError>)
        ensures
            r matches Ok(e) && {
                &&& constructed(e@)
                &&& e@.kind == EventKind::PolicyContext
                &&& e@.payload == payload@
                &&& canonical_parents_of(e@.parents, parents@)
                &&& e@.agent_id == opt_agent_view(agent_id)
                &&& e@.signature == opt_signature_view(signature)
                &&& e@.observation_type is None
            },
    {
        let parents = Self::canonicalize_parents(parents);
        let event_id = match Self::compute_event_id(&EventKind::PolicyContext, &payload, parents.as_slice()) {
            Ok(h) => h,
            Err(e) => {
                return Err(EventError::CanonicalError(e));
            },
        };
        Ok(EventEnvelope {
            event_id,
            kind: EventKind::PolicyContext,
            payload,
            parents,
            agent_id,
            signature,
            observation_type: None,
        })
    }

    /// A new Decision on the given evidence under one policy. Refused when
    /// there is no evidence or the policy is among the evidence; the parents
    /// are the canonical form of the evidence together with the policy.
    pub fn new_decision(
        payload: CanonicalBytes,
        evidence_parents: Vec<crate::hash::Hash>,
        policy_parent: crate::hash::Hash,
        agent_id: Option<AgentId>,
        signature: Option<Signature>,
    ) -> (r: Result<Self, EventError>)
        ensures
            r is Err <==> evidence_parents@.len() == 0 || evidence_parents@.contains(policy_parent),
            r matches Err(e) ==> e is InvalidStructure,
            r matches Ok(e) ==> {
                &&& constructed(e@)
                &&& e@.kind == EventKind::Decision
                &&& e@.payload == payload@
                &&& canonical_parents_of(e@.parents, evidence_parents@.push(policy_parent))
                &&& e@.agent_id == opt_agent_view(agent_id)
                &&& e@.signature == opt_signature_view(signature)
                &&& e@.observation_type is None
            },
    {
        if evidence_parents.len() == 0 {
            return Err(EventError::InvalidStructure("Decision must have at least one evidence parent".to_string()));
        }
        if contains_hash(&evidence_parents, &policy_parent) {
            return Err(
                EventError::InvalidStructure("policy_parent must not be included in evidence_parents".to_string()),
            );
        }
        let mut all_parents = evidence_parents;
        all_parents.push(policy_parent);
        let parents = Self::canonicalize_parents(all_parents);
        let event_id = match Self::compute_event_id(&EventKind::Decision, &payload, parents.as_slice()) {
            Ok(h) => h,
            Err(e) => {
                return Err(EventError::CanonicalError(e));
            },
        };
        Ok(EventEnvelope {
            event_id,
            kind: EventKind::Decision,
            payload,
            parents,
            agent_id,
            signature,
            observation_type: None,
        })
    }

    /// A new Commit following a decision; the signature is required. The
    /// parents are the canonical form of the extra parents and the decision.
    pub fn new_commit(
        payload: CanonicalBytes,
        decision_parent: crate::hash::Hash,
        extra_parents: Vec<crate::hash::Hash>,
        agent_id: Option<AgentId>,
        signature: Signature,
    ) -> (r: Result<Self, EventError>)
        ensures
            r matches Ok(e) && {
                &&& constructed(e@)
                &&& e@.kind == EventKind::Commit
                &&& e@.payload == payload@
                &&& canonical_parents_of(e@.parents, extra_parents@.push(decision_parent))
                &&& e@.agent_id == opt_agent_view(agent_id)
                &&& e@.signature == Some(signature@)
                &&& e@.observation_type is None
            },
    {
        let mut all_parents = extra_parents;
        all_parents.push(decision_parent);
        let parents = Self::canonicalize_parents(all_parents);
        let event_id = match Self::compute_event_id(&EventKind::Commit, &payload, parents.as_slice()) {
            Ok(h) => h,
            Err(e) => {
                return Err(EventError::CanonicalError(e));
            },
        };
        Ok(EventEnvelope {
            event_id,
            kind: EventKind::Commit,
            payload,
            parents,
            agent_id,
            signature: Some(signature),
            observation_type: None,
        })
    }

    /// Whether the stored identity matches the one computed from kind,
    /// payload and parents.
    pub fn verify_event_id(&self) -> (r: Result<bool, CanonicalError>)
        ensures
            r == Ok::<bool, CanonicalError>(id_matches(self@)),
    {
        let computed = match Self::compute_event_id(&self.kind, &self.payload, self.parents.as_slice()) {
            Ok(h) => h,
            Err(e) => {
                return Err(e);
            },
        };
        let same = computed.compare(&self.event_id) == 0;
        Ok(same)
    }

    pub fn event_id(&self) -> (r: crate::hash::Hash)
        ensures
            r == self@.event_id,
    {
        self.event_id
    }

    pub fn kind(&self) -> (r: &EventKind)
        ensures
            *r == self@.kind,
    {
        &self.kind
    }

    pub fn payload(&self) -> (r: &CanonicalBytes)
        ensures
            r@ == self@.payload,
    {
        &self.payload
    }

    pub fn parents(&self) -> (r: &[crate::hash::Hash])
        ensures
            r@ == self@.parents,
    {
        self.parents.as_slice()
    }

    pub fn agent_id(&self) -> (r: Option<&AgentId>)
        ensures
            self@.agent_id == match r {
                Some(a) => Some(a@),
                None => None::<Seq<char>>,
            },
    {
        match &self.agent_id {
            Some(a) => Some(a),
            None => None,
        }
    }

    pub fn signature(&self) -> (r: Option<&Signature>)
        ensures
            self@.signature == match r {
                Some(s) => Some(s@),
                None => None::<Seq<u8>>,
            },
    {
        match &self.signature {
            Some(s) => Some(s),
            None => None,
        }
    }

    pub fn observation_type(&self) -> (r: Option<&str>)
        ensures
            self@.observation_type == match r {
                Some(t) => Some(t@),
                None => None::<Seq<char>>,
            },
    {
        match &self.observation_type {
            Some(t) => Some(t.as_str()),
            None => None,
        }
    }

    /// A genesis event has no parents.
    pub fn is_genesis(&self) -> (r: bool)
        ensures
            r == (self@.parents.len() == 0),
    {
        self.parents.len() == 0
    }

    /// A merge event has more than one parent.
    pub fn is_merge(&self) -> (r: bool)
        ensures
            r == (self@.parents.len() > 1),
    {
        self.parents.len() > 1
    }
}


// --- Validation against a store ----------------------------------------------

/// A read-only lookup of events by identity.
pub trait EventStore {
    /// The event stored under `id`, if any.
    spec fn lookup(&self, id: crate::hash::Hash) -> Option<EventEnvelope>;

    fn get(&self, event_id: &crate::hash::Hash) -> (r: Option<&EventEnvelope>)
        ensures
            match self.lookup(*event_id) {
                Some(e) => r matches Some(x) && *x == e,
                None => r is None,
            },
    ;
}

/// The kind of each event a store holds.
pub open spec fn store_kinds<S: EventStore>(store: &S) -> spec_fn(crate::hash::Hash) -> Option<EventKind> {
    |id: crate::hash::Hash|
        match store.lookup(id) {
            Some(e) => Some(e@.kind),
            None => None,
        }
}

/// How many of `ps` resolve to an event of kind `k`.
pub open spec fn count_kind(kinds: spec_fn(crate::hash::Hash) -> Option<EventKind>, ps: Seq<crate::hash::Hash>, k: EventKind) -> nat
    decreases ps.len(),
{
    if ps.len() == 0 {
        0
    } else {
        count_kind(kinds, ps.drop_last(), k) + if kinds(ps.last()) == Some(k) { 1nat } else { 0nat }
    }
}

/// The structural rules of the DAG, for one event whose parents resolve
/// through `kinds`: identity matches, parents strictly ascending and all
/// known; a Decision has exactly one PolicyContext parent and at least one
/// other; a Commit has a Decision parent and a signature.
pub open spec fn event_valid(e: EnvelopeView, kinds: spec_fn(crate::hash::Hash) -> Option<EventKind>) -> bool {
    &&& id_matches(e)
    &&& strictly_ascending(e.parents)
    &&& forall|i: int| 0 <= i < e.parents.len() ==> #[trigger] kinds(e.parents[i]) is Some
    &&& (e.kind == EventKind::Decision ==> count_kind(kinds, e.parents, EventKind::PolicyContext) == 1
        && e.parents.len() >= 2)
    &&& (e.kind == EventKind::Commit ==> count_kind(kinds, e.parents, EventKind::Decision) >= 1
        && e.signature is Some)
}

fn count_parents_of_kind<S: EventStore>(store: &S, parents: &[crate::hash::Hash], k: EventKind) -> (r: usize)
    requires
        forall|i: int| 0 <= i < parents@.len() ==> #[trigger] store_kinds(store)(parents@[i]) is Some,
    ensures
        r == count_kind(store_kinds(store), parents@, k),
{
    let mut n: usize = 0;
    let mut i: usize = 0;
    assert(parents@.subrange(0, 0) =~= Seq::<crate::hash::Hash>::empty());
    while i < parents.len()
        invariant
            i <= parents@.len(),
            n <= i,
            forall|j: int| 0 <= j < parents@.len() ==> #[trigger] store_kinds(store)(parents@[j]) is Some,
            n == count_kind(store_kinds(store), parents@.subrange(0, i as int), k),
        decreases parents.len() - i,
    {
        assert(parents@.subrange(0, i + 1).drop_last() =~= parents@.subrange(0, i as int));
        assert(store_kinds(store)(parents@[i as int]) is Some);
        match store.get(&parents[i]) {
            Some(p) => {
                if *p.kind() == k {
                    n = n + 1;
                }
            },
            None => {},
        }
        i = i + 1;
    }
    assert(parents@.subrange(0, i as int) =~= parents@);
    n
}

/// Whether the digests are strictly ascending.
pub fn is_strictly_ascending(parents: &[crate::hash::Hash]) -> (r: bool)
    ensures
        r == strictly_ascending(parents@),
{
    let mut i: usize = 1;
    while i < parents.len()
        invariant
            1 <= i,
            forall|a: int, b: int| 0 <= a < b < i && b < parents@.len() ==> hash_lt(#[trigger] parents@[a], #[trigger] parents@[b]),
        decreases parents.len() - i,
    {
        if parents[i - 1].compare(&parents[i]) >= 0 {
            proof {
                crate::canonical::lemma_lex_asymmetric(parents@[i - 1].0@, parents@[i as int].0@);
                crate::canonical::lemma_lex_irreflexive(parents@[i as int].0@);
            }
            return false;
        }
        proof {
            assert forall|a: int, b: int| 0 <= a < b < i + 1 && b < parents@.len() implies hash_lt(#[trigger] parents@[a], #[trigger] parents@[b]) by {
                if b == i && a < i - 1 {
                    crate::canonical::lemma_lex_transitive(parents@[a].0@, parents@[i - 1].0@, parents@[b].0@);
                }
            }
        }
        i = i + 1;
    }
    true
}

fn invalid(msg: &str) -> (r: Result<(), EventError>)
    ensures
        r matches Err(e) && e is ValidationError,
{
    Err(EventError::ValidationError(msg.to_string()))
}

/// Checks one event against the structural rules, resolving its parents in
/// `store`.
pub fn validate_event<S: EventStore>(event: &EventEnvelope, store: &S) -> (r: Result<(), EventError>)
    ensures
        r is Ok <==> event_valid(event@, store_kinds(store)),
        r matches Err(e) ==> e is ValidationError,
{
    match event.verify_event_id() {
        Ok(true) => {},
        _ => {
            return invalid("Event ID does not match computed hash");
        },
    }
    let parents = event.parents();
    if !is_strictly_ascending(parents) {
        return invalid("Parents are not canonically sorted/deduplicated");
    }
    let mut i: usize = 0;
    while i < parents.len()
        invariant
            i <= parents@.len(),
            parents@ == event@.parents,
            forall|j: int| 0 <= j < i ==> #[trigger] store_kinds(store)(parents@[j]) is Some,
        decreases parents.len() - i,
    {
        if store.get(&parents[i]).is_none() {
            assert(store_kinds(store)(event@.parents[i as int]) is None);
            return invalid("event references unknown parent; provide events in topological order");
        }
        i = i + 1;
    }
    if *event.kind() == EventKind::Decision {
        let policies = count_parents_of_kind(store, parents, EventKind::PolicyContext);
        if policies != 1 {
            return invalid("Decision must have exactly one PolicyContext parent");
        }
        if parents.len() == 1 {
            return invalid("Decision must have evidence parents in addition to policy");
        }
    }
    if *event.kind() == EventKind::Commit {
        let decisions = count_parents_of_kind(store, parents, EventKind::Decision);
        if decisions == 0 {
            return invalid("Commit must have at least one Decision parent");
        }
        if event.signature().is_none() {
            return invalid("Commit must have a signature");
        }
    }
    Ok(())
}


/// The last envelope of `s` with identity `id`.
pub open spec fn last_with_id(s: Seq<EventEnvelope>, id: crate::hash::Hash) -> Option<EventEnvelope>
    decreases s.len(),
{
    if s.len() == 0 {
        None
    } else if s.last()@.event_id == id {
        Some(s.last())
    } else {
        last_with_id(s.drop_last(), id)
    }
}

fn find_last(s: &[EventEnvelope], id: &crate::hash::Hash) -> (r: Option<usize>)
    ensures
        match last_with_id(s@, *id) {
            Some(e) => r matches Some(k) && k < s@.len() && s@[k as int] == e,
            None => r is None,
        },
{
    let mut i: usize = s.len();
    assert(s@.subrange(0, i as int) =~= s@);
    while i > 0
        invariant
            i <= s@.len(),
            last_with_id(s@, *id) == last_with_id(s@.subrange(0, i as int), *id),
        decreases i,
    {
        assert(s@.subrange(0, i as int).drop_last() =~= s@.subrange(0, i - 1));
        if s[i - 1].event_id().compare(id) == 0 {
            return Some(i - 1);
        }
        i = i - 1;
    }
    None
}

/// Envelopes held in memory; a later insert under the same identity
/// replaces the earlier one.
pub struct MemoryStore {
    /// A vector searched from the end, not a hash map: Verus proves nothing
    /// of a `HashMap` keyed by a struct whose `Eq` and `Hash` are derived.
    events: Vec<EventEnvelope>,
}

impl MemoryStore {
    pub closed spec fn entries(&self) -> Seq<EventEnvelope> {
        self.events@
    }

    pub fn new() -> (r: MemoryStore)
        ensures
            forall|id: crate::hash::Hash| r.lookup(id) is None,
    {
        MemoryStore { events: Vec::new() }
    }

    /// Stores `event` under its identity.
    pub fn insert(&mut self, event: EventEnvelope)
        ensures
            final(self).lookup(event@.event_id) == Some(event),
            forall|id: crate::hash::Hash| id != event@.event_id ==> final(self).lookup(id) == old(self).lookup(id),
    {
        let ghost e = event;
        self.events.push(event);
        assert(self.events@.drop_last() =~= old(self).events@);
    }
}

impl EventStore for MemoryStore {
    closed spec fn lookup(&self, id: crate::hash::Hash) -> Option<EventEnvelope> {
        last_with_id(self.events@, id)
    }

    fn get(&self, event_id: &crate::hash::Hash) -> (r: Option<&EventEnvelope>) {
        match find_last(self.events.as_slice(), event_id) {
            Some(k) => Some(&self.events[k]),
            None => None,
        }
    }
}

/// A base store seen together with a batch of envelopes; the batch is
/// searched first, latest entry winning. The batch is the validated prefix
/// of the input slice rather than a hash map, for the reason given at
/// `MemoryStore`.
struct CombinedStore<'a, S: EventStore> {
    base: &'a S,
    batch: &'a [EventEnvelope],
}

impl<'a, S: EventStore> EventStore for CombinedStore<'a, S> {
    closed spec fn lookup(&self, id: crate::hash::Hash) -> Option<EventEnvelope> {
        match last_with_id(self.batch@, id) {
            Some(e) => Some(e),
            None => self.base.lookup(id),
        }
    }

    fn get(&self, event_id: &crate::hash::Hash) -> (r: Option<&EventEnvelope>) {
        match find_last(self.batch, event_id) {
            Some(k) => Some(&self.batch[k]),
            None => self.base.get(event_id),
        }
    }
}

/// Parent kinds as seen from a batch over a base store: the latest batch
/// entry with the identity, else the store.
pub open spec fn batch_kinds<S: EventStore>(store: &S, batch: Seq<EventEnvelope>) -> spec_fn(crate::hash::Hash) -> Option<EventKind> {
    |id: crate::hash::Hash|
        match last_with_id(batch, id) {
            Some(e) => Some(e@.kind),
            None => store_kinds(store)(id),
        }
}

/// Validates a batch in order, each event resolving its parents among the
/// events before it in the batch and then in `store`.
pub fn validate_store<S: EventStore>(store: &S, events: &[EventEnvelope]) -> (r: Result<(), EventError>)
    ensures
        r is Ok <==> forall|i: int|
            0 <= i < events@.len() ==> event_valid(#[trigger] events@[i]@, batch_kinds(store, events@.subrange(0, i))),
        r matches Err(e) ==> e is ValidationError,
{
    let mut i: usize = 0;
    while i < events.len()
        invariant
            i <= events@.len(),
            forall|j: int| 0 <= j < i ==> event_valid(#[trigger] events@[j]@, batch_kinds(store, events@.subrange(0, j))),
        decreases events.len() - i,
    {
        let combined = CombinedStore { base: store, batch: &events[0..i] };
        let res = validate_event(&events[i], &combined);
        assert(store_kinds(&combined) =~= batch_kinds(store, events@.subrange(0, i as int)));
        match res {
            Ok(()) => {},
            Err(e) => {
                return Err(e);
            },
        }
        i = i + 1;
    }
    Ok(())
}


// --- Wire form ---------------------------------------------------------------

fn malformed(msg: &str) -> (e: EventError)
    ensures
        e matches EventError::CanonicalError(c) && c is Decode,
{
    EventError::CanonicalError(CanonicalError::Decode(msg.to_string()))
}

/// The record form of a kind: `{type: <name>}`.
pub fn kind_value(k: &EventKind) -> (r: Value)
    ensures
        kind_named(r, *k),
{
    let mut entries: Vec<(Value, Value)> = Vec::new();
    entries.push((text_value("type"), text_value(k.name_str())));
    Value::Mapping(entries)
}

/// A field holding an optional text: absent or null for none.
pub open spec fn optional_text_field(f: Option<Value>, t: Option<Seq<char>>) -> bool {
    match f {
        None => t is None,
        Some(Value::Null) => t is None,
        Some(Value::Text(s)) => t == Some(s@),
        Some(_) => false,
    }
}

/// A field holding optional bytes: absent or null for none.
pub open spec fn optional_bytes_field(f: Option<Value>, b: Option<Seq<u8>>) -> bool {
    match f {
        None => b is None,
        Some(Value::Null) => b is None,
        Some(x) => b matches Some(bb) && is_bytes_value(x, bb),
    }
}

/// `v` is the record form of an envelope with contents `e`.
pub open spec fn is_envelope_record(v: Value, e: EnvelopeView) -> bool {
    &&& (field_of(v, "event_id"@) matches Some(x) && is_hash_value(x, e.event_id))
    &&& (field_of(v, "kind"@) matches Some(x) && kind_named(x, e.kind))
    &&& (field_of(v, "payload"@) matches Some(x) && is_bytes_value(x, e.payload))
    &&& (field_of(v, "parents"@) matches Some(x) && is_hashes_value(x, e.parents))
    &&& optional_text_field(field_of(v, "agent_id"@), e.agent_id)
    &&& optional_bytes_field(field_of(v, "signature"@), e.signature)
    &&& optional_text_field(field_of(v, "observation_type"@), e.observation_type)
}

/// The rules an envelope read from the wire must meet without a store.
pub open spec fn envelope_accepted(e: EnvelopeView) -> bool {
    &&& is_canonical(e.payload)
    &&& id_matches(e)
    &&& strictly_ascending(e.parents)
    &&& (e.kind == EventKind::Commit ==> e.signature is Some)
    &&& (e.agent_id matches Some(a) ==> a.len() > 0)
    &&& (e.signature matches Some(s) ==> s.len() > 0)
}

pub open spec fn opt_text_item(t: Option<Seq<char>>) -> Seq<u8> {
    match t {
        Some(x) => text_item(x),
        None => seq![0xf6u8],
    }
}

pub open spec fn opt_byte_items(b: Option<Seq<u8>>) -> Seq<u8> {
    match b {
        Some(x) => byte_items(x),
        None => seq![0xf6u8],
    }
}

/// The canonical encoding of an envelope's record form: the map
/// `{kind, parents, payload, agent_id, event_id, signature,
/// observation_type}`, keys in canonical order, absent fields as null.
pub open spec fn envelope_bytes(e: EnvelopeView) -> Seq<u8> {
    head(5, 7) + text_item("kind"@) + head(5, 1) + text_item("type"@) + text_item(e.kind.name()) + text_item(
        "parents"@,
    ) + hash_items(e.parents) + text_item("payload"@) + byte_items(e.payload) + text_item("agent_id"@)
        + opt_text_item(e.agent_id) + text_item("event_id"@) + byte_items(e.event_id.0@) + text_item("signature"@)
        + opt_byte_items(e.signature) + text_item("observation_type"@) + opt_text_item(e.observation_type)
}

/// `v` is the record form `{type: <name>}` of the kind `k`.
pub open spec fn kind_named(v: Value, k: EventKind) -> bool {
    field_of(v, "type"@) matches Some(Value::Text(t)) && t@ == k.name()
}

/// The kind a record value names, if any.
pub fn as_kind(v: &Value) -> (r: Option<EventKind>)
    ensures
        r matches Some(k) ==> kind_named(*v, k),
        forall|k: EventKind| kind_named(*v, k) ==> r == Some(k),
{
    match field(v, "type") {
        Some(Value::Text(t)) => EventKind::from_name(t.as_str()),
        _ => None,
    }
}

impl EventEnvelope {
    /// The record form of the envelope, as exchanged on the wire.
    pub fn to_value(&self) -> (r: Value)
        ensures
            is_envelope_record(r, self@),
    {
        proof {
            reveal_strlit("event_id");
            reveal_strlit("kind");
            reveal_strlit("payload");
            reveal_strlit("parents");
            reveal_strlit("agent_id");
            reveal_strlit("signature");
            reveal_strlit("observation_type");
            assert("event_id"@.len() == 8 && "event_id"@[0] == 'e');
            assert("kind"@.len() == 4);
            assert("payload"@.len() == 7 && "payload"@[2] == 'y');
            assert("parents"@.len() == 7 && "parents"@[2] == 'r');
            assert("agent_id"@.len() == 8 && "agent_id"@[0] == 'a');
            assert("signature"@.len() == 9);
            assert("observation_type"@.len() == 16);
            reveal_with_fuel(crate::record::find_field, 8);
        }
        let mut entries: Vec<(Value, Value)> = Vec::new();
        entries.push((text_value("event_id"), hash_value(&self.event_id)));
        entries.push((text_value("kind"), kind_value(&self.kind)));
        entries.push((text_value("payload"), bytes_value(self.payload.as_bytes())));
        entries.push((text_value("parents"), hashes_value(self.parents.as_slice())));
        let agent = match &self.agent_id {
            Some(a) => text_value(a.as_str()),
            None => Value::Null,
        };
        entries.push((text_value("agent_id"), agent));
        let sig = match &self.signature {
            Some(s) => bytes_value(s.as_bytes()),
            None => Value::Null,
        };
        entries.push((text_value("signature"), sig));
        let obs = match &self.observation_type {
            Some(t) => text_value(t.as_str()),
            None => Value::Null,
        };
        entries.push((text_value("observation_type"), obs));
        Value::Mapping(entries)
    }

    /// Reads an envelope from its record form, holding it to every rule that
    /// needs no store: the identity is recomputed and must match, parents
    /// must be strictly ascending, a Commit must be signed, the payload must
    /// be canonical, and agent and signature must be non-empty. It succeeds
    /// exactly when `v` is the record form of such an envelope; any failure
    /// is a decode error.
    pub fn from_value(v: &Value) -> (r: Result<EventEnvelope, EventError>)
        ensures
            r matches Ok(e) ==> is_envelope_record(*v, e@) && envelope_accepted(e@),
            (exists|w: EnvelopeView| is_envelope_record(*v, w) && envelope_accepted(w)) ==> r is Ok,
            r matches Err(e) ==> e matches EventError::CanonicalError(c) && c is Decode,
    {
        let ghost has_w = exists|w: EnvelopeView| is_envelope_record(*v, w) && envelope_accepted(w);
        let ghost w = choose|w: EnvelopeView| is_envelope_record(*v, w) && envelope_accepted(w);
        let event_id = match field(v, "event_id") {
            Some(x) => match as_hash(x) {
                Some(h) => {
                    proof {
                        lemma_hash_form_unique(*x);
                    }
                    h
                },
                None => {
                    proof {
                        lemma_hash_form_unique(*x);
                    }
                    return Err(malformed("event_id is not a digest"));
                },
            },
            None => {
                return Err(malformed("missing field event_id"));
            },
        };
        assert(has_w ==> event_id == w.event_id);
        let kind = match field(v, "kind") {
            Some(x) => match as_kind(x) {
                Some(k) => k,
                None => {
                    return Err(malformed("unknown event kind"));
                },
            },
            None => {
                return Err(malformed("missing field kind"));
            },
        };
        assert(has_w ==> kind == w.kind);
        let payload_bytes = match field(v, "payload") {
            Some(x) => {
                proof {
                    lemma_record_forms_unique(*x);
                }
                match as_bytes_value(x) {
                    Some(b) => b,
                    None => {
                        return Err(malformed("payload is not a byte array"));
                    },
                }
            },
            None => {
                return Err(malformed("missing field payload"));
            },
        };
        assert(has_w ==> payload_bytes@ == w.payload);
        let payload = match CanonicalBytes::from_bytes(payload_bytes) {
            Ok(p) => p,
            Err(_) => {
                return Err(malformed("payload bytes are not canonical"));
            },
        };
        let parents = match field(v, "parents") {
            Some(x) => {
                proof {
                    lemma_record_forms_unique(*x);
                }
                match as_hashes(x) {
                    Some(hs) => hs,
                    None => {
                        return Err(malformed("parents are not digests"));
                    },
                }
            },
            None => {
                return Err(malformed("missing field parents"));
            },
        };
        assert(has_w ==> parents@ == w.parents);
        let agent_id = match field(v, "agent_id") {
            None | Some(Value::Null) => None,
            Some(Value::Text(t)) => match AgentId::new(t.as_str()) {
                Ok(a) => Some(a),
                Err(_) => {
                    return Err(malformed("AgentId cannot be empty"));
                },
            },
            Some(_) => {
                return Err(malformed("agent_id is not a text"));
            },
        };
        assert(has_w ==> opt_agent_view(agent_id) == w.agent_id);
        let signature = match field(v, "signature") {
            None | Some(Value::Null) => None,
            Some(x) => {
                proof {
                    lemma_record_forms_unique(*x);
                }
                match as_bytes_value(x) {
                    Some(b) => match Signature::new(b) {
                        Ok(s) => Some(s),
                        Err(_) => {
                            return Err(malformed("Signature cannot be empty"));
                        },
                    },
                    None => {
                        return Err(malformed("signature is not a byte array"));
                    },
                }
            },
        };
        assert(has_w ==> opt_signature_view(signature) == w.signature);
        let observation_type = match field(v, "observation_type") {
            None | Some(Value::Null) => None,
            Some(Value::Text(t)) => Some(t.as_str().to_owned()),
            Some(_) => {
                return Err(malformed("observation_type is not a text"));
            },
        };
        assert(has_w ==> opt_text_view(observation_type) == w.observation_type);
        let computed = match Self::compute_event_id(&kind, &payload, parents.as_slice()) {
            Ok(h) => h,
            Err(_) => {
                return Err(malformed("event_id cannot be computed"));
            },
        };
        proof {
            if has_w {
                assert(computed.0@ == w.event_id.0@);
                assert(computed.0 == w.event_id.0);
            }
        }
        if computed.compare(&event_id) != 0 {
            return Err(malformed("Tampered event_id: stored and computed identities differ"));
        }
        if !is_strictly_ascending(parents.as_slice()) {
            return Err(malformed("Parents must be canonically sorted and deduplicated"));
        }
        if kind == EventKind::Commit && signature.is_none() {
            return Err(malformed("Commit event must have a signature"));
        }
        Ok(EventEnvelope { event_id, kind, payload, parents, agent_id, signature, observation_type })
    }

    /// The canonical bytes of the envelope's record form; this always
    /// succeeds.
    pub fn to_bytes(&self) -> (r: Result<Vec<u8>, CanonicalError>)
        ensures
            r matches Ok(b) && b@ == envelope_bytes(self@),
    {
        let mut out: Vec<u8> = Vec::new();
        write_major(5, 7, &mut out);
        write_text("kind", &mut out);
        write_major(5, 1, &mut out);
        write_text("type", &mut out);
        write_text(self.kind.name_str(), &mut out);
        write_text("parents", &mut out);
        write_hash_items(self.parents.as_slice(), &mut out);
        write_text("payload", &mut out);
        write_byte_items(self.payload.as_bytes(), &mut out);
        write_text("agent_id", &mut out);
        match &self.agent_id {
            Some(a) => write_text(a.as_str(), &mut out),
            None => out.push(0xf6),
        }
        write_text("event_id", &mut out);
        write_byte_items(self.event_id.0.as_slice(), &mut out);
        write_text("signature", &mut out);
        match &self.signature {
            Some(sig) => write_byte_items(sig.as_bytes(), &mut out),
            None => out.push(0xf6),
        }
        write_text("observation_type", &mut out);
        match &self.observation_type {
            Some(t) => write_text(t.as_str(), &mut out),
            None => out.push(0xf6),
        }
        assert(out@ =~= envelope_bytes(self@));
        Ok(out)
    }

    /// Reads an envelope from canonical bytes, with the checks of
    /// `from_value`.
    pub fn from_bytes(bytes: &[u8]) -> (r: Result<EventEnvelope, EventError>)
        ensures
            r matches Ok(e) ==> envelope_accepted(e@) && exists|v: Value|
                enc(v) == Ok::<Seq<u8>, EncodeFault>(bytes@) && is_envelope_record(v, e@),
            !is_canonical(bytes@) ==> r is Err,
            is_canonical(bytes@) && (forall|v: Value| enc(v) == Ok::<Seq<u8>, EncodeFault>(bytes@) ==> exists|w: EnvelopeView|
                is_envelope_record(v, w) && envelope_accepted(w)) ==> r is Ok,
    {
        match decode(bytes) {
            Ok(v) => Self::from_value(&v),
            Err(e) => Err(EventError::CanonicalError(e)),
        }
    }
}


// --- Laws --------------------------------------------------------------------

/// Two strictly ascending digest lists with the same members are equal.
pub proof fn lemma_ascending_unique(x: Seq<crate::hash::Hash>, y: Seq<crate::hash::Hash>)
    requires
        strictly_ascending(x),
        strictly_ascending(y),
        forall|h: crate::hash::Hash| x.contains(h) <==> y.contains(h),
    ensures
        x == y,
    decreases x.len(),
{
    if x.len() == 0 {
        if y.len() > 0 {
            assert(y.contains(y[0]));
        }
        assert(x =~= y);
    } else {
        assert(x.contains(x[0]));
        assert(y.contains(y[0]));
        let j = choose|j: int| 0 <= j < y.len() && y[j] == x[0];
        let i = choose|i: int| 0 <= i < x.len() && x[i] == y[0];
        if j > 0 {
            assert(hash_lt(y[0], y[j]));
            if i > 0 {
                assert(hash_lt(x[0], x[i]));
                crate::canonical::lemma_lex_transitive(y[0].0@, x[0].0@, x[i].0@);
            }
            crate::canonical::lemma_lex_irreflexive(y[0].0@);
        }
        let x1 = x.drop_first();
        let y1 = y.drop_first();
        assert forall|h: crate::hash::Hash| x1.contains(h) <==> y1.contains(h) by {
            if x1.contains(h) {
                let k = choose|k: int| 0 <= k < x1.len() && x1[k] == h;
                assert(x[k + 1] == h);
                assert(y.contains(h));
                let m = choose|m: int| 0 <= m < y.len() && y[m] == h;
                if m == 0 {
                    assert(hash_lt(x[0], x[k + 1]));
                    crate::canonical::lemma_lex_irreflexive(h.0@);
                }
                assert(y1[m - 1] == h);
            }
            if y1.contains(h) {
                let k = choose|k: int| 0 <= k < y1.len() && y1[k] == h;
                assert(y[k + 1] == h);
                assert(x.contains(h));
                let m = choose|m: int| 0 <= m < x.len() && x[m] == h;
                if m == 0 {
                    assert(hash_lt(y[0], y[k + 1]));
                    crate::canonical::lemma_lex_irreflexive(h.0@);
                }
                assert(x1[m - 1] == h);
            }
        }
        lemma_ascending_unique(x1, y1);
        assert(x =~= seq![x[0]] + x1);
        assert(y =~= seq![y[0]] + y1);
    }
}

/// Parent lists with the same digests, in any order and with any
/// repetition, canonicalize to the same parents and so give the same
/// identity for a given kind and payload.
pub proof fn lemma_parent_order_irrelevant(
    kind: EventKind,
    payload: Seq<u8>,
    p1: Seq<crate::hash::Hash>,
    p2: Seq<crate::hash::Hash>,
    c1: Seq<crate::hash::Hash>,
    c2: Seq<crate::hash::Hash>,
)
    requires
        canonical_parents_of(c1, p1),
        canonical_parents_of(c2, p2),
        forall|h: crate::hash::Hash| p1.contains(h) <==> p2.contains(h),
    ensures
        c1 == c2,
        event_id_of(kind, payload, c1) == event_id_of(kind, payload, c2),
{
    lemma_ascending_unique(c1, c2);
}

/// An envelope made by a constructor has a matching identity and strictly
/// ascending parents; `verify_event_id` reports exactly the first.
pub proof fn lemma_constructed_is_consistent(e: EnvelopeView)
    requires
        constructed(e),
    ensures
        id_matches(e),
        strictly_ascending(e.parents),
{
}

/// A Decision that validates has exactly one parent of kind PolicyContext
/// among parents that all resolve, and at least one other parent.
pub proof fn lemma_valid_decision_policy(e: EnvelopeView, kinds: spec_fn(crate::hash::Hash) -> Option<EventKind>)
    requires
        event_valid(e, kinds),
        e.kind == EventKind::Decision,
    ensures
        count_kind(kinds, e.parents, EventKind::PolicyContext) == 1,
        e.parents.len() >= 2,
        forall|i: int| 0 <= i < e.parents.len() ==> #[trigger] kinds(e.parents[i]) is Some,
{
}

proof fn lemma_count_zero(kinds: spec_fn(crate::hash::Hash) -> Option<EventKind>, ps: Seq<crate::hash::Hash>, k: EventKind)
    requires
        forall|i: int| 0 <= i < ps.len() ==> kinds(#[trigger] ps[i]) != Some(k),
    ensures
        count_kind(kinds, ps, k) == 0,
    decreases ps.len(),
{
    if ps.len() > 0 {
        lemma_count_zero(kinds, ps.drop_last(), k);
    }
}

proof fn lemma_count_pos(kinds: spec_fn(crate::hash::Hash) -> Option<EventKind>, ps: Seq<crate::hash::Hash>, k: EventKind, x: crate::hash::Hash)
    requires
        ps.contains(x),
        kinds(x) == Some(k),
    ensures
        count_kind(kinds, ps, k) >= 1,
    decreases ps.len(),
{
    if ps.last() != x {
        let j = choose|j: int| 0 <= j < ps.len() && ps[j] == x;
        assert(ps.drop_last()[j] == x);
        lemma_count_pos(kinds, ps.drop_last(), k, x);
    }
}

proof fn lemma_count_one(kinds: spec_fn(crate::hash::Hash) -> Option<EventKind>, ps: Seq<crate::hash::Hash>, k: EventKind, x: crate::hash::Hash)
    requires
        strictly_ascending(ps),
        ps.contains(x),
        kinds(x) == Some(k),
        forall|i: int| 0 <= i < ps.len() && #[trigger] ps[i] != x ==> kinds(ps[i]) != Some(k),
    ensures
        count_kind(kinds, ps, k) == 1,
    decreases ps.len(),
{
    let init = ps.drop_last();
    if ps.last() == x {
        assert forall|i: int| 0 <= i < init.len() implies kinds(#[trigger] init[i]) != Some(k) by {
            assert(hash_lt(ps[i], ps[ps.len() - 1]));
            crate::canonical::lemma_lex_irreflexive(x.0@);
        }
        lemma_count_zero(kinds, init, k);
    } else {
        let j = choose|j: int| 0 <= j < ps.len() && ps[j] == x;
        assert(init[j] == x);
        lemma_count_one(kinds, init, k, x);
    }
}

/// Decision identity and validity: a Decision made by `new_decision` from
/// evidence that resolves to non-policy events and a parent that resolves to
/// a PolicyContext validates against that store, with exactly one
/// PolicyContext parent.
pub proof fn lemma_new_decision_validates(
    e: EnvelopeView,
    evidence: Seq<crate::hash::Hash>,
    policy: crate::hash::Hash,
    kinds: spec_fn(crate::hash::Hash) -> Option<EventKind>,
)
    requires
        constructed(e),
        e.kind == EventKind::Decision,
        canonical_parents_of(e.parents, evidence.push(policy)),
        evidence.len() > 0,
        !evidence.contains(policy),
        kinds(policy) == Some(EventKind::PolicyContext),
        forall|i: int| 0 <= i < evidence.len() ==> (#[trigger] kinds(evidence[i])) is Some && kinds(evidence[i]) != Some(
            EventKind::PolicyContext,
        ),
    ensures
        count_kind(kinds, e.parents, EventKind::PolicyContext) == 1,
        event_valid(e, kinds),
{
    let all = evidence.push(policy);
    assert(all[evidence.len() as int] == policy);
    assert(all.contains(policy));
    assert forall|i: int| 0 <= i < e.parents.len() implies (#[trigger] kinds(e.parents[i])) is Some && (e.parents[i]
        != policy ==> kinds(e.parents[i]) != Some(EventKind::PolicyContext)) by {
        assert(e.parents.contains(e.parents[i]));
        let j = choose|j: int| 0 <= j < all.len() && all[j] == e.parents[i];
        if j < evidence.len() {
            assert(evidence[j] == e.parents[i]);
        }
    }
    lemma_count_one(kinds, e.parents, EventKind::PolicyContext, policy);
    let h0 = evidence[0];
    assert(all[0] == h0);
    assert(all.contains(h0));
    assert(e.parents.contains(h0));
    assert(evidence.contains(h0));
    let a = choose|a: int| 0 <= a < e.parents.len() && e.parents[a] == h0;
    let b = choose|b: int| 0 <= b < e.parents.len() && e.parents[b] == policy;
    assert(a != b);
}

/// A Commit made by `new_commit` after a parent that resolves to a Decision,
/// with all other parents known, validates against that store.
pub proof fn lemma_new_commit_validates(
    e: EnvelopeView,
    extra: Seq<crate::hash::Hash>,
    decision: crate::hash::Hash,
    kinds: spec_fn(crate::hash::Hash) -> Option<EventKind>,
)
    requires
        constructed(e),
        e.kind == EventKind::Commit,
        canonical_parents_of(e.parents, extra.push(decision)),
        kinds(decision) == Some(EventKind::Decision),
        forall|i: int| 0 <= i < extra.len() ==> (#[trigger] kinds(extra[i])) is Some,
    ensures
        e.signature is Some,
        count_kind(kinds, e.parents, EventKind::Decision) >= 1,
        event_valid(e, kinds),
{
    let all = extra.push(decision);
    assert(all[extra.len() as int] == decision);
    assert(all.contains(decision));
    assert forall|i: int| 0 <= i < e.parents.len() implies (#[trigger] kinds(e.parents[i])) is Some by {
        assert(e.parents.contains(e.parents[i]));
        let j = choose|j: int| 0 <= j < all.len() && all[j] == e.parents[i];
        if j < extra.len() {
            assert(extra[j] == e.parents[i]);
        }
    }
    lemma_count_pos(kinds, e.parents, EventKind::Decision, decision);
}

/// A Commit that validates is signed and has a Decision parent.
pub proof fn lemma_valid_commit(e: EnvelopeView, kinds: spec_fn(crate::hash::Hash) -> Option<EventKind>)
    requires
        event_valid(e, kinds),
        e.kind == EventKind::Commit,
    ensures
        e.signature is Some,
        count_kind(kinds, e.parents, EventKind::Decision) >= 1,
{
}

} // verus!
