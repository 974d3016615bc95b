//! Counterfactual descriptors: a policy change or an input mutation, named
//! by the digest of its kind and description.
use vstd::prelude::*;
use crate::canonical::{concat, head, write_major, lemma_concat_push, decode, enc, is_canonical, CanonicalError, EncodeFault, Value};
use crate::events::{hash_item, hash_items, AgentId};
use crate::hash::blake3_digest;
use crate::record::{text_item, write_text, field, same_text, as_hash, as_hashes, as_u64, hash_value, hashes_value, text_value, is_hash_value, is_hashes_value, field_of, u64_of, lemma_hash_form_unique, lemma_record_forms_unique};

verus! {

/// An input event of a mutation.
#[derive(Clone, Copy, Debug, PartialEq, Eq, Structural)]
pub struct InputEvent {
    pub placeholder: u64,
}

/// What a counterfactual changes.
#[derive(Clone, Debug, PartialEq, Eq)]
pub enum DeltaKind {
    /// Change the scheduler policy.
    SchedulerPolicy { new_policy: crate::hash::Hash },
    /// Insert, delete or modify input events.
    InputMutation {
        insert: Vec<InputEvent>,
        delete: Vec<crate::hash::Hash>,
        modify: Vec<(crate::hash::Hash, InputEvent)>,
    },
    /// Change the clock interpretation policy.
    ClockPolicy { new_policy: crate::hash::Hash },
    /// Change the trust roots; never empty.
    TrustPolicy { new_trust_roots: Vec<AgentId> },
}

/// Why an empty trust-root list is refused.
pub open spec fn trust_no_one_message() -> Seq<char> {
    "TrustPolicy cannot have empty new_trust_roots (would mean 'trust no one')"@
}

/// Errors of descriptors.
#[derive(Debug)]
pub enum DeltaError {
    /// Reserved for validating mutations against an event store.
    InvalidEventRef(crate::hash::Hash),
    /// A stored digest differs from the one computed.
    InvalidHash,
    InvalidStructure(String),
    CanonicalError(CanonicalError),
}

/// The contents of a descriptor as mathematical values.
pub struct DeltaSpecView {
    pub kind: DeltaKind,
    pub description: Seq<char>,
    pub hash: crate::hash::Hash,
}

/// A counterfactual: its kind, a description, and the digest of both.
#[derive(Clone, Debug, PartialEq, Eq)]
pub struct DeltaSpec {
    pub kind: DeltaKind,
    pub description: String,
    hash: crate::hash::Hash,
}

impl View for DeltaSpec {
    type V = DeltaSpecView;

    closed spec fn view(&self) -> DeltaSpecView {
        DeltaSpecView { kind: self.kind, description: self.description@, hash: self.hash }
    }
}

// --- Digest input ------------------------------------------------------------

pub open spec fn input_event_item(e: InputEvent) -> Seq<u8> {
    head(5, 1) + text_item("placeholder"@) + head(0, e.placeholder as nat)
}

pub open spec fn modify_item(m: (crate::hash::Hash, InputEvent)) -> Seq<u8> {
    head(4, 2) + hash_item(m.0) + input_event_item(m.1)
}

pub open spec fn delta_kind_name(k: DeltaKind) -> Seq<char> {
    match k {
        DeltaKind::SchedulerPolicy { .. } => "SchedulerPolicy"@,
        DeltaKind::ClockPolicy { .. } => "ClockPolicy"@,
        DeltaKind::TrustPolicy { .. } => "TrustPolicy"@,
        DeltaKind::InputMutation { .. } => "InputMutation"@,
    }
}

pub open spec fn roots_items(roots: Seq<AgentId>) -> Seq<u8> {
    head(4, roots.len()) + concat(roots.map_values(|a: AgentId| text_item(a@)))
}

pub open spec fn insert_items(insert: Seq<InputEvent>) -> Seq<u8> {
    head(4, insert.len()) + concat(insert.map_values(|e: InputEvent| input_event_item(e)))
}

pub open spec fn modify_items(modify: Seq<(crate::hash::Hash, InputEvent)>) -> Seq<u8> {
    head(4, modify.len()) + concat(modify.map_values(|m: (crate::hash::Hash, InputEvent)| modify_item(m)))
}

/// The canonical encoding of the fields of a kind.
pub open spec fn delta_kind_data(k: DeltaKind) -> Seq<u8> {
    match k {
        DeltaKind::SchedulerPolicy { new_policy } => head(5, 1) + text_item("new_policy"@) + hash_item(new_policy),
        DeltaKind::ClockPolicy { new_policy } => head(5, 1) + text_item("new_policy"@) + hash_item(new_policy),
        DeltaKind::TrustPolicy { new_trust_roots } => head(5, 1) + text_item("new_trust_roots"@) + roots_items(
            new_trust_roots@,
        ),
        DeltaKind::InputMutation { insert, delete, modify } => head(5, 3) + text_item("delete"@) + hash_items(delete@)
            + text_item("insert"@) + insert_items(insert@) + text_item("modify"@) + modify_items(modify@),
    }
}

/// The canonical encoding of the record form of a kind:
/// `{data: {<fields>}, type: <variant>}`.
pub open spec fn delta_kind_item(k: DeltaKind) -> Seq<u8> {
    head(5, 2) + text_item("data"@) + delta_kind_data(k) + text_item("type"@) + text_item(delta_kind_name(k))
}

/// The canonical encoding of the pair (kind, description) that a
/// descriptor's digest covers.
pub open spec fn delta_hash_input(k: DeltaKind, description: Seq<char>) -> Seq<u8> {
    head(4, 2) + delta_kind_item(k) + text_item(description)
}

/// The digest that names a descriptor.
#[verifier::opaque]
pub open spec fn delta_hash_of(k: DeltaKind, description: Seq<char>) -> Seq<u8> {
    blake3_digest(delta_hash_input(k, description))
}

/// Kinds with the same encoding name a descriptor with the same digest.
pub proof fn lemma_delta_hash_congruent(k1: DeltaKind, k2: DeltaKind, description: Seq<char>)
    requires
        delta_kind_item(k1) == delta_kind_item(k2),
    ensures
        delta_hash_of(k1, description) == delta_hash_of(k2, description),
{
    reveal(delta_hash_of);
}

fn write_input_event(e: &InputEvent, out: &mut Vec<u8>)
    ensures
        final(out)@ == old(out)@ + input_event_item(*e),
{
    write_major(5, 1, out);
    write_text("placeholder", out);
    write_major(0, e.placeholder, out);
    assert(final(out)@ =~= old(out)@ + input_event_item(*e));
}

fn write_hash(h: &crate::hash::Hash, out: &mut Vec<u8>)
    ensures
        final(out)@ == old(out)@ + hash_item(*h),
{
    crate::events::write_byte_items(h.0.as_slice(), out);
}

fn write_roots(roots: &Vec<AgentId>, out: &mut Vec<u8>)
    ensures
        final(out)@ == old(out)@ + roots_items(roots@),
{
    write_major(4, roots.len() as u64, out);
    let ghost start = out@;
    let mut i: usize = 0;
    assert(roots@.subrange(0, 0).map_values(|a: AgentId| text_item(a@)) =~= Seq::<Seq<u8>>::empty());
    assert(start =~= start + concat(Seq::<Seq<u8>>::empty()));
    while i < roots.len()
        invariant
            i <= roots@.len(),
            out@ == start + concat(roots@.subrange(0, i as int).map_values(|a: AgentId| text_item(a@))),
        decreases roots.len() - i,
    {
        let ghost prev = roots@.subrange(0, i as int).map_values(|a: AgentId| text_item(a@));
        write_text(roots[i].as_str(), out);
        proof {
            assert(roots@.subrange(0, i + 1).map_values(|a: AgentId| text_item(a@)) =~= prev.push(text_item(roots@[i as int]@)));
            lemma_concat_push(prev, text_item(roots@[i as int]@));
        }
        i = i + 1;
    }
    assert(roots@.subrange(0, i as int) =~= roots@);
    assert(final(out)@ =~= old(out)@ + roots_items(roots@));
}

fn write_inserts(insert: &Vec<InputEvent>, out: &mut Vec<u8>)
    ensures
        final(out)@ == old(out)@ + insert_items(insert@),
{
    write_major(4, insert.len() as u64, out);
    let ghost start = out@;
    let mut i: usize = 0;
    assert(insert@.subrange(0, 0).map_values(|e: InputEvent| input_event_item(e)) =~= Seq::<Seq<u8>>::empty());
    assert(start =~= start + concat(Seq::<Seq<u8>>::empty()));
    while i < insert.len()
        invariant
            i <= insert@.len(),
            out@ == start + concat(insert@.subrange(0, i as int).map_values(|e: InputEvent| input_event_item(e))),
        decreases insert.len() - i,
    {
        let ghost prev = insert@.subrange(0, i as int).map_values(|e: InputEvent| input_event_item(e));
        write_input_event(&insert[i], out);
        proof {
            assert(insert@.subrange(0, i + 1).map_values(|e: InputEvent| input_event_item(e)) =~= prev.push(input_event_item(insert@[i as int])));
            lemma_concat_push(prev, input_event_item(insert@[i as int]));
        }
        i = i + 1;
    }
    assert(insert@.subrange(0, i as int) =~= insert@);
    assert(final(out)@ =~= old(out)@ + insert_items(insert@));
}

fn write_modifies(modify: &Vec<(crate::hash::Hash, InputEvent)>, out: &mut Vec<u8>)
    ensures
        final(out)@ == old(out)@ + modify_items(modify@),
{
    write_major(4, modify.len() as u64, out);
    let ghost start = out@;
    let mut i: usize = 0;
    assert(modify@.subrange(0, 0).map_values(|m: (crate::hash::Hash, InputEvent)| modify_item(m)) =~= Seq::<Seq<u8>>::empty());
    assert(start =~= start + concat(Seq::<Seq<u8>>::empty()));
    while i < modify.len()
        invariant
            i <= modify@.len(),
            out@ == start + concat(modify@.subrange(0, i as int).map_values(|m: (crate::hash::Hash, InputEvent)| modify_item(m))),
        decreases modify.len() - i,
    {
        let ghost prev = modify@.subrange(0, i as int).map_values(|m: (crate::hash::Hash, InputEvent)| modify_item(m));
        let ghost before = out@;
        write_major(4, 2, out);
        write_hash(&modify[i].0, out);
        write_input_event(&modify[i].1, out);
        proof {
            assert(out@ =~= before + modify_item(modify@[i as int]));
            assert(modify@.subrange(0, i + 1).map_values(|m: (crate::hash::Hash, InputEvent)| modify_item(m)) =~= prev.push(modify_item(modify@[i as int])));
            lemma_concat_push(prev, modify_item(modify@[i as int]));
        }
        i = i + 1;
    }
    assert(modify@.subrange(0, i as int) =~= modify@);
    assert(final(out)@ =~= old(out)@ + modify_items(modify@));
}

fn write_kind_data(k: &DeltaKind, out: &mut Vec<u8>) -> (name: &'static str)
    ensures
        final(out)@ == old(out)@ + delta_kind_data(*k),
        name@ == delta_kind_name(*k),
{
    match k {
        DeltaKind::SchedulerPolicy { new_policy } => {
            write_major(5, 1, out);
            write_text("new_policy", out);
            write_hash(new_policy, out);
            assert(final(out)@ =~= old(out)@ + delta_kind_data(*k));
            "SchedulerPolicy"
        },
        DeltaKind::ClockPolicy { new_policy } => {
            write_major(5, 1, out);
            write_text("new_policy", out);
            write_hash(new_policy, out);
            assert(final(out)@ =~= old(out)@ + delta_kind_data(*k));
            "ClockPolicy"
        },
        DeltaKind::TrustPolicy { new_trust_roots } => {
            write_major(5, 1, out);
            write_text("new_trust_roots", out);
            write_roots(new_trust_roots, out);
            assert(final(out)@ =~= old(out)@ + delta_kind_data(*k));
            "TrustPolicy"
        },
        DeltaKind::InputMutation { insert, delete, modify } => {
            write_major(5, 3, out);
            write_text("delete", out);
            crate::events::write_hash_items(delete.as_slice(), out);
            write_text("insert", out);
            write_inserts(insert, out);
            write_text("modify", out);
            write_modifies(modify, out);
            assert(final(out)@ =~= old(out)@ + delta_kind_data(*k));
            "InputMutation"
        },
    }
}

/// The canonical bytes of the (kind, description) pair of a descriptor.
pub fn delta_hash_input_bytes(k: &DeltaKind, description: &str) -> (r: Vec<u8>)
    ensures
        r@ == delta_hash_input(*k, description@),
{
    let mut out: Vec<u8> = Vec::new();
    write_major(4, 2, &mut out);
    write_major(5, 2, &mut out);
    write_text("data", &mut out);
    let name = write_kind_data(k, &mut out);
    write_text("type", &mut out);
    write_text(name, &mut out);
    write_text(description, &mut out);
    assert(out@ =~= delta_hash_input(*k, description@));
    out
}


fn structure(msg: &str) -> (e: DeltaError)
    ensures
        e is CanonicalError,
{
    DeltaError::CanonicalError(CanonicalError::Decode(msg.to_string()))
}

// --- Record forms -----------------------------------------------------------

/// `v` is the text `t`.
pub open spec fn text_is(v: Value, t: Seq<char>) -> bool {
    v matches Value::Text(s) && s@ == t
}

/// `v` is the record `{placeholder}` of an input event.
pub open spec fn is_input_event_value(v: Value, e: InputEvent) -> bool {
    field_of(v, "placeholder"@) matches Some(x) && u64_of(x) == Some(e.placeholder)
}

/// `v` is the array of texts naming the trust roots `roots`.
pub open spec fn is_roots_value(v: Value, roots: Seq<AgentId>) -> bool {
    v matches Value::Array(items) && items@.len() == roots.len() && forall|i: int|
        0 <= i < roots.len() ==> text_is(#[trigger] items@[i], roots[i]@)
}

/// `v` is the array of records of the input events `s`.
pub open spec fn is_inserts_value(v: Value, s: Seq<InputEvent>) -> bool {
    v matches Value::Array(items) && items@.len() == s.len() && forall|i: int|
        0 <= i < s.len() ==> is_input_event_value(#[trigger] items@[i], s[i])
}

/// `v` is the pair `[target, event]` of a modification.
pub open spec fn is_modify_value(v: Value, m: (crate::hash::Hash, InputEvent)) -> bool {
    v matches Value::Array(pair) && pair@.len() == 2 && is_hash_value(pair@[0], m.0) && is_input_event_value(
        pair@[1],
        m.1,
    )
}

/// `v` is the array of pairs of the modifications `s`.
pub open spec fn is_modifies_value(v: Value, s: Seq<(crate::hash::Hash, InputEvent)>) -> bool {
    v matches Value::Array(items) && items@.len() == s.len() && forall|i: int|
        0 <= i < s.len() ==> is_modify_value(#[trigger] items@[i], s[i])
}

/// `d` is the record of the fields of the kind `k`.
pub open spec fn delta_data_record(d: Value, k: DeltaKind) -> bool {
    match k {
        DeltaKind::SchedulerPolicy { new_policy } => field_of(d, "new_policy"@) matches Some(x) && is_hash_value(
            x,
            new_policy,
        ),
        DeltaKind::ClockPolicy { new_policy } => field_of(d, "new_policy"@) matches Some(x) && is_hash_value(
            x,
            new_policy,
        ),
        DeltaKind::TrustPolicy { new_trust_roots } => field_of(d, "new_trust_roots"@) matches Some(x)
            && is_roots_value(x, new_trust_roots@),
        DeltaKind::InputMutation { insert, delete, modify } => {
            &&& (field_of(d, "insert"@) matches Some(x) && is_inserts_value(x, insert@))
            &&& (field_of(d, "delete"@) matches Some(x) && is_hashes_value(x, delete@))
            &&& (field_of(d, "modify"@) matches Some(x) && is_modifies_value(x, modify@))
        },
    }
}

/// `v` is the record `{type: <variant>, data: {<fields>}}` of the kind `k`.
pub open spec fn is_delta_kind_record(v: Value, k: DeltaKind) -> bool {
    &&& (field_of(v, "type"@) matches Some(x) && text_is(x, delta_kind_name(k)))
    &&& (field_of(v, "data"@) matches Some(x) && delta_data_record(x, k))
}

/// A kind a descriptor may hold: a trust policy names at least one root and
/// no root is empty.
pub open spec fn delta_kind_valid(k: DeltaKind) -> bool {
    match k {
        DeltaKind::TrustPolicy { new_trust_roots } => new_trust_roots@.len() > 0 && forall|i: int|
            0 <= i < new_trust_roots@.len() ==> (#[trigger] new_trust_roots@[i])@.len() > 0,
        _ => true,
    }
}

proof fn lemma_delta_kind_names(k: DeltaKind)
    ensures
        delta_kind_name(k) == "SchedulerPolicy"@ <==> k is SchedulerPolicy,
        delta_kind_name(k) == "ClockPolicy"@ <==> k is ClockPolicy,
        delta_kind_name(k) == "TrustPolicy"@ <==> k is TrustPolicy,
        delta_kind_name(k) == "InputMutation"@ <==> k is InputMutation,
{
    reveal_strlit("SchedulerPolicy");
    reveal_strlit("ClockPolicy");
    reveal_strlit("TrustPolicy");
    reveal_strlit("InputMutation");
    assert("SchedulerPolicy"@.len() == 15);
    assert("ClockPolicy"@.len() == 11 && "ClockPolicy"@[0] == 'C');
    assert("TrustPolicy"@.len() == 11 && "TrustPolicy"@[0] == 'T');
    assert("InputMutation"@.len() == 13);
}

/// Two kinds with the same record form name the same bytes.
pub proof fn lemma_kind_record_unique(v: Value, k1: DeltaKind, k2: DeltaKind)
    requires
        is_delta_kind_record(v, k1),
        is_delta_kind_record(v, k2),
    ensures
        delta_kind_item(k1) == delta_kind_item(k2),
        delta_kind_valid(k1) == delta_kind_valid(k2),
{
    lemma_delta_kind_names(k1);
    lemma_delta_kind_names(k2);
    let d = field_of(v, "data"@)->Some_0;
    match k1 {
        DeltaKind::SchedulerPolicy { new_policy: p1 } => {
            assert(k2 is SchedulerPolicy);
            let p2 = k2->SchedulerPolicy_new_policy;
            lemma_hash_form_unique(field_of(d, "new_policy"@)->Some_0);
            assert(p1 == p2);
        },
        DeltaKind::ClockPolicy { new_policy: p1 } => {
            assert(k2 is ClockPolicy);
            let p2 = k2->ClockPolicy_new_policy;
            lemma_hash_form_unique(field_of(d, "new_policy"@)->Some_0);
            assert(p1 == p2);
        },
        DeltaKind::TrustPolicy { new_trust_roots: r1 } => {
            let r2 = k2->TrustPolicy_new_trust_roots;
            let x = field_of(d, "new_trust_roots"@)->Some_0;
            let items = x->Array_0;
            assert forall|i: int| 0 <= i < r1@.len() implies (#[trigger] r1@[i])@ == r2@[i]@ by {
                assert(text_is(items@[i], r1@[i]@));
                assert(text_is(items@[i], r2@[i]@));
            }
            assert(r1@.map_values(|a: AgentId| text_item(a@)) =~= r2@.map_values(|a: AgentId| text_item(a@)));
            assert(k2 is TrustPolicy);
            assert(r1@.len() == r2@.len());
            assert forall|i: int| 0 <= i < r2@.len() implies (#[trigger] r2@[i])@ == r1@[i]@ by {
                assert(text_is(items@[i], r1@[i]@));
                assert(text_is(items@[i], r2@[i]@));
            }
            if delta_kind_valid(k1) {
                assert forall|i: int| 0 <= i < r2@.len() implies (#[trigger] r2@[i])@.len() > 0 by {
                    assert(r1@[i]@.len() > 0);
                }
            }
            if delta_kind_valid(k2) {
                assert forall|i: int| 0 <= i < r1@.len() implies (#[trigger] r1@[i])@.len() > 0 by {
                    assert(r2@[i]@.len() > 0);
                }
            }
            assert(delta_kind_valid(k1) == delta_kind_valid(k2));
        },
        DeltaKind::InputMutation { insert: i1, delete: d1, modify: m1 } => {
            assert(k2 is InputMutation);
            let i2 = k2->InputMutation_insert;
            let d2 = k2->InputMutation_delete;
            let m2 = k2->InputMutation_modify;
            let xi = field_of(d, "insert"@)->Some_0;
            let xd = field_of(d, "delete"@)->Some_0;
            let xm = field_of(d, "modify"@)->Some_0;
            lemma_record_forms_unique(xd);
            assert forall|i: int| 0 <= i < i1@.len() implies #[trigger] i1@[i] == i2@[i] by {
                assert(is_input_event_value(xi->Array_0@[i], i1@[i]));
                assert(is_input_event_value(xi->Array_0@[i], i2@[i]));
            }
            assert(i1@ =~= i2@);
            assert forall|i: int| 0 <= i < m1@.len() implies #[trigger] m1@[i] == m2@[i] by {
                let pv = xm->Array_0@[i];
                assert(is_modify_value(pv, m1@[i]));
                assert(is_modify_value(pv, m2@[i]));
                lemma_hash_form_unique(pv->Array_0@[0]);
            }
            assert(m1@ =~= m2@);
        },
    }
}

fn input_event_value(e: &InputEvent) -> (r: Value)
    ensures
        is_input_event_value(r, *e),
{
    let mut entries: Vec<(Value, Value)> = Vec::new();
    entries.push((text_value("placeholder"), Value::Integer(e.placeholder as i128)));
    Value::Mapping(entries)
}

fn as_input_event(v: &Value) -> (r: Option<InputEvent>)
    ensures
        r matches Some(e) ==> is_input_event_value(*v, e),
        (exists|e: InputEvent| is_input_event_value(*v, e)) ==> r is Some,
{
    match field(v, "placeholder") {
        Some(x) => match as_u64(x) {
            Some(n) => Some(InputEvent { placeholder: n }),
            None => None,
        },
        None => None,
    }
}

impl DeltaKind {
    /// The record form: `{type: <variant>, data: {<fields>}}`.
    pub fn to_value(&self) -> (r: Value)
        ensures
            is_delta_kind_record(r, *self),
    {
        proof {
            reveal_strlit("type");
            reveal_strlit("data");
            reveal_strlit("insert");
            reveal_strlit("delete");
            reveal_strlit("modify");
            assert("type"@.len() == 4 && "type"@[0] == 't');
            assert("data"@.len() == 4 && "data"@[0] == 'd');
            assert("insert"@.len() == 6 && "insert"@[0] == 'i');
            assert("delete"@.len() == 6 && "delete"@[0] == 'd');
            assert("modify"@.len() == 6 && "modify"@[0] == 'm');
            reveal_with_fuel(crate::record::find_field, 4);
        }
        let mut data: Vec<(Value, Value)> = Vec::new();
        let name: &str = match self {
            DeltaKind::SchedulerPolicy { new_policy } => {
                data.push((text_value("new_policy"), hash_value(new_policy)));
                "SchedulerPolicy"
            },
            DeltaKind::ClockPolicy { new_policy } => {
                data.push((text_value("new_policy"), hash_value(new_policy)));
                "ClockPolicy"
            },
            DeltaKind::TrustPolicy { new_trust_roots } => {
                let mut roots: Vec<Value> = Vec::new();
                let mut i: usize = 0;
                while i < new_trust_roots.len()
                    invariant
                        i <= new_trust_roots@.len(),
                        roots@.len() == i,
                        forall|j: int| 0 <= j < i ==> text_is(#[trigger] roots@[j], new_trust_roots@[j]@),
                    decreases new_trust_roots.len() - i,
                {
                    roots.push(text_value(new_trust_roots[i].as_str()));
                    i = i + 1;
                }
                data.push((text_value("new_trust_roots"), Value::Array(roots)));
                "TrustPolicy"
            },
            DeltaKind::InputMutation { insert, delete, modify } => {
                let mut ins: Vec<Value> = Vec::new();
                let mut i: usize = 0;
                while i < insert.len()
                    invariant
                        i <= insert@.len(),
                        ins@.len() == i,
                        forall|j: int| 0 <= j < i ==> is_input_event_value(#[trigger] ins@[j], insert@[j]),
                    decreases insert.len() - i,
                {
                    ins.push(input_event_value(&insert[i]));
                    i = i + 1;
                }
                let mut mods: Vec<Value> = Vec::new();
                let mut i: usize = 0;
                while i < modify.len()
                    invariant
                        i <= modify@.len(),
                        mods@.len() == i,
                        forall|j: int| 0 <= j < i ==> is_modify_value(#[trigger] mods@[j], modify@[j]),
                    decreases modify.len() - i,
                {
                    let mut pair: Vec<Value> = Vec::new();
                    pair.push(hash_value(&modify[i].0));
                    pair.push(input_event_value(&modify[i].1));
                    mods.push(Value::Array(pair));
                    i = i + 1;
                }
                data.push((text_value("insert"), Value::Array(ins)));
                data.push((text_value("delete"), hashes_value(delete.as_slice())));
                data.push((text_value("modify"), Value::Array(mods)));
                "InputMutation"
            },
        };
        let mut entries: Vec<(Value, Value)> = Vec::new();
        entries.push((text_value("type"), text_value(name)));
        entries.push((text_value("data"), Value::Mapping(data)));
        Value::Mapping(entries)
    }

    /// Reads a kind from its record form. It succeeds exactly when `v` is
    /// the record of a kind whose trust roots, if any, are a non-empty list
    /// of non-empty identifiers.
    pub fn from_value(v: &Value) -> (r: Result<DeltaKind, DeltaError>)
        ensures
            r matches Ok(k) ==> is_delta_kind_record(*v, k) && delta_kind_valid(k),
            (exists|k: DeltaKind| is_delta_kind_record(*v, k) && delta_kind_valid(k)) ==> r is Ok,
    {
        let ghost has_w = exists|k: DeltaKind| is_delta_kind_record(*v, k) && delta_kind_valid(k);
        let ghost w = choose|k: DeltaKind| is_delta_kind_record(*v, k) && delta_kind_valid(k);
        proof {
            lemma_delta_kind_names(w);
        }
        let name = match field(v, "type") {
            Some(Value::Text(t)) => t,
            _ => {
                return Err(structure("kind has no type"));
            },
        };
        let data = match field(v, "data") {
            Some(d) => d,
            None => {
                return Err(structure("kind has no data"));
            },
        };
        if same_text(name.as_str(), "SchedulerPolicy") || same_text(name.as_str(), "ClockPolicy") {
            let new_policy = match field(data, "new_policy") {
                Some(x) => {
                    proof {
                        lemma_hash_form_unique(*x);
                    }
                    match as_hash(x) {
                        Some(h) => h,
                        None => {
                            return Err(structure("new_policy is not a digest"));
                        },
                    }
                },
                None => {
                    return Err(structure("missing field new_policy"));
                },
            };
            if same_text(name.as_str(), "SchedulerPolicy") {
                proof {
                    lemma_delta_kind_names(DeltaKind::SchedulerPolicy { new_policy });
                }
                return Ok(DeltaKind::SchedulerPolicy { new_policy });
            }
            proof {
                lemma_delta_kind_names(DeltaKind::ClockPolicy { new_policy });
            }
            return Ok(DeltaKind::ClockPolicy { new_policy });
        }
        if same_text(name.as_str(), "TrustPolicy") {
            let ghost roots_w: Seq<AgentId> = match w {
                DeltaKind::TrustPolicy { new_trust_roots } => new_trust_roots@,
                _ => Seq::empty(),
            };
            let items = match field(data, "new_trust_roots") {
                Some(Value::Array(items)) => items,
                _ => {
                    return Err(structure("new_trust_roots is not an array"));
                },
            };
            proof {
                if has_w {
                    assert(w is TrustPolicy);
                    assert(is_roots_value(Value::Array(*items), roots_w));
                }
            }
            if items.len() == 0 {
                return Err(DeltaError::InvalidStructure(
                    "TrustPolicy cannot have empty new_trust_roots (would mean 'trust no one')".to_owned(),
                ));
            }
            let mut roots: Vec<AgentId> = Vec::new();
            let mut i: usize = 0;
            while i < items.len()
                invariant
                    i <= items@.len(),
                    roots@.len() == i,
                    forall|j: int| 0 <= j < i ==> text_is(#[trigger] items@[j], roots@[j]@),
                    forall|j: int| 0 <= j < i ==> (#[trigger] roots@[j])@.len() > 0,
                    has_w == (exists|k: DeltaKind| is_delta_kind_record(*v, k) && delta_kind_valid(k)),
                    has_w ==> items@.len() == roots_w.len(),
                    has_w ==> forall|j: int| 0 <= j < roots_w.len() ==> text_is(#[trigger] items@[j], roots_w[j]@),
                    has_w ==> forall|j: int| 0 <= j < roots_w.len() ==> (#[trigger] roots_w[j])@.len() > 0,
                decreases items.len() - i,
            {
                proof {
                    if has_w {
                        assert(text_is(items@[i as int], roots_w[i as int]@));
                        assert(roots_w[i as int]@.len() > 0);
                    }
                }
                match &items[i] {
                    Value::Text(t) => match AgentId::new(t.as_str()) {
                        Ok(a) => roots.push(a),
                        Err(_) => {
                            return Err(structure("AgentId cannot be empty"));
                        },
                    },
                    _ => {
                        return Err(structure("trust root is not a text"));
                    },
                }
                i = i + 1;
            }
            let k = DeltaKind::TrustPolicy { new_trust_roots: roots };
            proof {
                lemma_delta_kind_names(k);
            }
            return Ok(k);
        }
        if same_text(name.as_str(), "InputMutation") {
            let ghost ins_w: Seq<InputEvent> = match w {
                DeltaKind::InputMutation { insert, .. } => insert@,
                _ => Seq::empty(),
            };
            let ghost mods_w: Seq<(crate::hash::Hash, InputEvent)> = match w {
                DeltaKind::InputMutation { modify, .. } => modify@,
                _ => Seq::empty(),
            };
            let ins = match field(data, "insert") {
                Some(Value::Array(items)) => items,
                _ => {
                    return Err(structure("insert is not an array"));
                },
            };
            proof {
                if has_w {
                    assert(w is InputMutation);
                    assert(is_inserts_value(Value::Array(*ins), ins_w));
                }
            }
            let mut insert: Vec<InputEvent> = Vec::new();
            let mut i: usize = 0;
            while i < ins.len()
                invariant
                    i <= ins@.len(),
                    insert@.len() == i,
                    forall|j: int| 0 <= j < i ==> is_input_event_value(#[trigger] ins@[j], insert@[j]),
                    has_w == (exists|k: DeltaKind| is_delta_kind_record(*v, k) && delta_kind_valid(k)),
                    has_w ==> ins@.len() == ins_w.len(),
                    has_w ==> forall|j: int| 0 <= j < ins_w.len() ==> is_input_event_value(#[trigger] ins@[j], ins_w[j]),
                decreases ins.len() - i,
            {
                proof {
                    if has_w {
                        assert(is_input_event_value(ins@[i as int], ins_w[i as int]));
                    }
                }
                match as_input_event(&ins[i]) {
                    Some(e) => insert.push(e),
                    None => {
                        return Err(structure("malformed input event"));
                    },
                }
                i = i + 1;
            }
            let delete = match field(data, "delete") {
                Some(x) => {
                    proof {
                        lemma_record_forms_unique(*x);
                    }
                    match as_hashes(x) {
                        Some(hs) => hs,
                        None => {
                            return Err(structure("delete is not a list of digests"));
                        },
                    }
                },
                None => {
                    return Err(structure("missing field delete"));
                },
            };
            let mods = match field(data, "modify") {
                Some(Value::Array(items)) => items,
                _ => {
                    return Err(structure("modify is not an array"));
                },
            };
            proof {
                if has_w {
                    assert(is_modifies_value(Value::Array(*mods), mods_w));
                }
            }
            let mut modify: Vec<(crate::hash::Hash, InputEvent)> = Vec::new();
            let mut i: usize = 0;
            while i < mods.len()
                invariant
                    i <= mods@.len(),
                    modify@.len() == i,
                    forall|j: int| 0 <= j < i ==> is_modify_value(#[trigger] mods@[j], modify@[j]),
                    has_w == (exists|k: DeltaKind| is_delta_kind_record(*v, k) && delta_kind_valid(k)),
                    has_w ==> mods@.len() == mods_w.len(),
                    has_w ==> forall|j: int| 0 <= j < mods_w.len() ==> is_modify_value(#[trigger] mods@[j], mods_w[j]),
                decreases mods.len() - i,
            {
                proof {
                    if has_w {
                        assert(is_modify_value(mods@[i as int], mods_w[i as int]));
                    }
                }
                match &mods[i] {
                    Value::Array(pair) => {
                        proof {
                            if has_w {
                                assert(is_input_event_value(pair@[1], mods_w[i as int].1));
                            }
                        }
                        if pair.len() != 2 {
                            return Err(structure("modify entry is not a pair"));
                        }
                        proof {
                            lemma_hash_form_unique(pair@[0]);
                        }
                        let h = match as_hash(&pair[0]) {
                            Some(h) => h,
                            None => {
                                return Err(structure("modify target is not a digest"));
                            },
                        };
                        let e = match as_input_event(&pair[1]) {
                            Some(e) => e,
                            None => {
                                return Err(structure("malformed input event"));
                            },
                        };
                        modify.push((h, e));
                    },
                    _ => {
                        return Err(structure("modify entry is not a pair"));
                    },
                }
                i = i + 1;
            }
            let k = DeltaKind::InputMutation { insert, delete, modify };
            proof {
                lemma_delta_kind_names(k);
            }
            return Ok(k);
        }
        Err(structure("unknown delta kind"))
    }
}

impl DeltaSpec {
    /// The stored digest names the kind and description, and a trust policy
    /// has at least one root.
    pub open spec fn wf(&self) -> bool {
        &&& self@.hash.0@ == delta_hash_of(self@.kind, self@.description)
        &&& (self@.kind matches DeltaKind::TrustPolicy { new_trust_roots } ==> new_trust_roots@.len() > 0)
    }

    /// The content-addressed name of this descriptor.
    pub fn hash(&self) -> (r: crate::hash::Hash)
        ensures
            r == self@.hash,
    {
        self.hash
    }

    /// The digest of the canonical encoding of (kind, description); the
    /// stored digest is not part of it.
    pub fn compute_hash(&self) -> (r: Result<crate::hash::Hash, CanonicalError>)
        ensures
            r matches Ok(h) && h.0@ == delta_hash_of(self@.kind, self@.description),
    {
        let bytes = delta_hash_input_bytes(&self.kind, self.description.as_str());
        proof {
            reveal(delta_hash_of);
        }
        Ok(crate::hash::Hash::digest(bytes.as_slice()))
    }

    /// Stores the computed digest.
    fn finalize(self) -> (r: Result<Self, CanonicalError>)
        ensures
            r matches Ok(d) && d@.kind == self@.kind && d@.description == self@.description
                && d@.hash.0@ == delta_hash_of(self@.kind, self@.description),
    {
        let h = match self.compute_hash() {
            Ok(h) => h,
            Err(e) => {
                return Err(e);
            },
        };
        Ok(DeltaSpec { kind: self.kind, description: self.description, hash: h })
    }

    /// A change of scheduler policy.
    pub fn new_scheduler_policy(new_policy: crate::hash::Hash, description: String) -> (r: Result<Self, CanonicalError>)
        ensures
            r matches Ok(d) && d.wf() && d@.kind == (DeltaKind::SchedulerPolicy { new_policy })
                && d@.description == description@,
    {
        DeltaSpec {
            kind: DeltaKind::SchedulerPolicy { new_policy },
            description,
            hash: crate::hash::Hash([0u8; 32]),
        }.finalize()
    }

    /// A change of clock policy.
    pub fn new_clock_policy(new_policy: crate::hash::Hash, description: String) -> (r: Result<Self, CanonicalError>)
        ensures
            r matches Ok(d) && d.wf() && d@.kind == (DeltaKind::ClockPolicy { new_policy })
                && d@.description == description@,
    {
        DeltaSpec {
            kind: DeltaKind::ClockPolicy { new_policy },
            description,
            hash: crate::hash::Hash([0u8; 32]),
        }.finalize()
    }

    /// A change of trust roots; an empty list ("trust no one") is refused.
    pub fn new_trust_policy(new_trust_roots: Vec<AgentId>, description: String) -> (r: Result<Self, DeltaError>)
        ensures
            r is Err <==> new_trust_roots@.len() == 0,
            r matches Err(e) ==> (e matches DeltaError::InvalidStructure(m) && m@ == trust_no_one_message()),
            r matches Ok(d) ==> d.wf() && d@.kind == (DeltaKind::TrustPolicy { new_trust_roots })
                && d@.description == description@,
    {
        if new_trust_roots.len() == 0 {
            return Err(DeltaError::InvalidStructure(
                "TrustPolicy cannot have empty new_trust_roots (would mean 'trust no one')".to_owned(),
            ));
        }
        match (DeltaSpec {
            kind: DeltaKind::TrustPolicy { new_trust_roots },
            description,
            hash: crate::hash::Hash([0u8; 32]),
        }).finalize() {
            Ok(d) => Ok(d),
            Err(e) => Err(DeltaError::CanonicalError(e)),
        }
    }

    /// Inserted, deleted and modified input events.
    pub fn new_input_mutation(
        insert: Vec<InputEvent>,
        delete: Vec<crate::hash::Hash>,
        modify: Vec<(crate::hash::Hash, InputEvent)>,
        description: String,
    ) -> (r: Result<Self, CanonicalError>)
        ensures
            r matches Ok(d) && d.wf() && d@.kind == (DeltaKind::InputMutation { insert, delete, modify })
                && d@.description == description@,
    {
        DeltaSpec {
            kind: DeltaKind::InputMutation { insert, delete, modify },
            description,
            hash: crate::hash::Hash([0u8; 32]),
        }.finalize()
    }

    /// The record form `{kind, description, hash}`.
    pub fn to_value(&self) -> (r: Value)
        ensures
            is_delta_record(r, self@),
    {
        proof {
            reveal_strlit("kind");
            reveal_strlit("description");
            reveal_strlit("hash");
            assert("kind"@.len() == 4 && "kind"@[0] == 'k');
            assert("description"@.len() == 11);
            assert("hash"@.len() == 4 && "hash"@[0] == 'h');
            reveal_with_fuel(crate::record::find_field, 4);
        }
        let mut entries: Vec<(Value, Value)> = Vec::new();
        entries.push((text_value("kind"), self.kind.to_value()));
        entries.push((text_value("description"), text_value(self.description.as_str())));
        entries.push((text_value("hash"), hash_value(&self.hash)));
        Value::Mapping(entries)
    }

    /// Reads a descriptor from its record form. It succeeds exactly when `v`
    /// is the record of a descriptor with a valid kind whose stored digest
    /// names its kind and description, keeping all three; a record whose
    /// stored digest differs is refused with `InvalidHash`.
    #[verifier::rlimit(100)]
    pub fn from_value(v: &Value) -> (r: Result<DeltaSpec, DeltaError>)
        ensures
            r matches Ok(d) ==> is_delta_record(*v, d@) && delta_kind_valid(d@.kind) && d.wf(),
            (exists|w: DeltaSpecView| is_delta_record(*v, w) && delta_record_valid(w)) ==> r is Ok,
            (exists|w: DeltaSpecView| is_delta_record(*v, w) && delta_kind_valid(w.kind) && !delta_record_valid(w))
                ==> (r matches Err(e) && e is InvalidHash),
    {
        let ghost has_w = exists|w: DeltaSpecView| is_delta_record(*v, w) && delta_kind_valid(w.kind);
        let ghost w = choose|w: DeltaSpecView| is_delta_record(*v, w) && delta_kind_valid(w.kind);
        let kind = match field(v, "kind") {
            Some(k) => match DeltaKind::from_value(k) {
                Ok(k) => k,
                Err(e) => {
                    return Err(e);
                },
            },
            None => {
                return Err(structure("missing field kind"));
            },
        };
        proof {
            if has_w {
                lemma_kind_record_unique(field_of(*v, "kind"@)->Some_0, kind, w.kind);
            }
        }
        let description = match field(v, "description") {
            Some(Value::Text(t)) => t.as_str().to_owned(),
            _ => {
                return Err(structure("description is not a text"));
            },
        };
        let stored = match field(v, "hash") {
            Some(x) => {
                proof {
                    lemma_hash_form_unique(*x);
                }
                match as_hash(x) {
                    Some(h) => h,
                    None => {
                        return Err(structure("hash is not a digest"));
                    },
                }
            },
            None => {
                return Err(structure("missing field hash"));
            },
        };
        let spec = DeltaSpec { kind, description, hash: stored };
        let computed = match spec.compute_hash() {
            Ok(h) => h,
            Err(e) => {
                return Err(DeltaError::CanonicalError(e));
            },
        };
        proof {
            assert forall|w2: DeltaSpecView| #[trigger] is_delta_record(*v, w2) implies (delta_record_valid(w2) <==> (
            delta_kind_valid(w2.kind) && computed.0@ == stored.0@)) by {
                lemma_hash_form_unique(field_of(*v, "hash"@)->Some_0);
                lemma_kind_record_unique(field_of(*v, "kind"@)->Some_0, spec@.kind, w2.kind);
                lemma_delta_hash_congruent(spec@.kind, w2.kind, w2.description);
                assert(w2.hash == stored);
                assert(w2.description == spec@.description);
            }
        }
        if computed.compare(&spec.hash) != 0 {
            proof {
                if computed.0@ == stored.0@ {
                    assert(computed.0 == stored.0);
                }
            }
            return Err(DeltaError::InvalidHash);
        }
        Ok(spec)
    }

    /// The canonical bytes of the record form; this always succeeds.
    pub fn to_bytes(&self) -> (r: Result<Vec<u8>, CanonicalError>)
        ensures
            r matches Ok(b) && b@ == delta_record_bytes(self@),
    {
        let mut out: Vec<u8> = Vec::new();
        write_major(5, 3, &mut out);
        write_text("hash", &mut out);
        crate::events::write_byte_items(self.hash.0.as_slice(), &mut out);
        write_text("kind", &mut out);
        write_major(5, 2, &mut out);
        write_text("data", &mut out);
        let name = write_kind_data(&self.kind, &mut out);
        write_text("type", &mut out);
        write_text(name, &mut out);
        write_text("description", &mut out);
        write_text(self.description.as_str(), &mut out);
        assert(out@ =~= delta_record_bytes(self@));
        Ok(out)
    }

    /// Reads a descriptor from canonical bytes, checking its digest. It
    /// fails on bytes that are not canonical; it succeeds when every value
    /// they encode is the record of a descriptor with a valid kind and a
    /// matching digest, and refuses with `InvalidHash` when every such value
    /// is the record of one whose stored digest differs.
    pub fn from_bytes(bytes: &[u8]) -> (r: Result<DeltaSpec, DeltaError>)
        ensures
            r matches Ok(d) ==> d.wf() && delta_kind_valid(d@.kind) && exists|v: Value|
                enc(v) == Ok::<Seq<u8>, EncodeFault>(bytes@) && is_delta_record(v, d@),
            !is_canonical(bytes@) ==> r is Err,
            is_canonical(bytes@) && (forall|v: Value| enc(v) == Ok::<Seq<u8>, EncodeFault>(bytes@) ==> exists|w: DeltaSpecView|
                is_delta_record(v, w) && delta_record_valid(w)) ==> r is Ok,
            is_canonical(bytes@) && (forall|v: Value| enc(v) == Ok::<Seq<u8>, EncodeFault>(bytes@) ==> exists|w: DeltaSpecView|
                is_delta_record(v, w) && delta_kind_valid(w.kind) && !delta_record_valid(w)) ==> (r matches Err(e)
                && e is InvalidHash),
    {
        match decode(bytes) {
            Ok(v) => Self::from_value(&v),
            Err(e) => Err(DeltaError::CanonicalError(e)),
        }
    }
}

/// `v` is the record `{kind, description, hash}` of the descriptor `d`.
pub open spec fn is_delta_record(v: Value, d: DeltaSpecView) -> bool {
    &&& (field_of(v, "kind"@) matches Some(x) && is_delta_kind_record(x, d.kind))
    &&& (field_of(v, "description"@) matches Some(x) && text_is(x, d.description))
    &&& (field_of(v, "hash"@) matches Some(x) && is_hash_value(x, d.hash))
}

/// A descriptor that may be read: a valid kind, and a stored digest that
/// names its kind and description.
pub open spec fn delta_record_valid(d: DeltaSpecView) -> bool {
    delta_kind_valid(d.kind) && d.hash.0@ == delta_hash_of(d.kind, d.description)
}

/// The canonical encoding of a descriptor's record form: the map
/// `{hash, kind, description}`, keys in canonical order.
pub open spec fn delta_record_bytes(d: DeltaSpecView) -> Seq<u8> {
    head(5, 3) + text_item("hash"@) + hash_item(d.hash) + text_item("kind"@) + delta_kind_item(d.kind) + text_item(
        "description"@,
    ) + text_item(d.description)
}

} // verus!
