//! Plain records shared with the runtime around the core: tick receipts,
//! errors of the wider system, intent specifications and scheduler state.
use vstd::prelude::*;

verus! {

/// A record of one tick's execution.
#[derive(Clone, Debug)]
pub struct Receipt {
    pub tick: u64,
    pub state_hash: crate::hash::Hash,
    pub applied_slaps: Vec<crate::hash::Hash>,
    pub timestamp: u64,
    pub signature: Option<String>,
}

/// Errors of the wider runtime.
#[derive(Clone, Debug)]
pub enum JitosError {
    InvariantViolation(String),
    Conflict(String),
    AccessDenied(String),
    NotFound(String),
}

/// An intent definition.
#[derive(Clone, Debug, PartialEq)]
pub struct Slaps {
    pub version: String,
    pub intent: String,
    pub target: Target,
    pub context: Context,
    pub scope: Scope,
    pub constraints: Vec<String>,
    pub assumptions: Vec<String>,
    pub priorities: Vec<String>,
    pub success_criteria: Vec<SuccessCriteria>,
}

/// What an intent acts on.
#[derive(Clone, Debug, PartialEq)]
pub struct Target {
    pub name: String,
    pub kind: String,
    pub ref_: Option<String>,
}

/// Where an intent applies.
#[derive(Clone, Debug, PartialEq)]
pub struct Context {
    pub environment: String,
    pub ticket_id: Option<String>,
    pub links: Vec<ContextLink>,
}

/// A link attached to a context.
#[derive(Clone, Debug, PartialEq)]
pub struct ContextLink {
    pub url: String,
    pub title: Option<String>,
    pub kind: String,
}

/// Paths an intent covers and leaves out.
#[derive(Clone, Debug, PartialEq)]
pub struct Scope {
    pub includes: Vec<String>,
    pub excludes: Vec<String>,
}

/// A criterion for an intent's success.
#[derive(Clone, Debug, PartialEq)]
pub struct SuccessCriteria {
    pub kind: String,
    pub value: String,
}

/// The read and write sets of an operation.
#[derive(Clone, Debug, Default)]
pub struct Footprint {
    pub n_read: Vec<String>,
    pub n_write: Vec<String>,
    pub e_read: Vec<String>,
    pub e_write: Vec<String>,
}

/// Scheduler state: footprints of operations seen so far, by name.
pub struct EchoScheduler {
    pub footprint_cache: Vec<(String, Footprint)>,
}

impl EchoScheduler {
    /// A scheduler with an empty footprint cache.
    pub fn new() -> (r: EchoScheduler)
        ensures
            r.footprint_cache@.len() == 0,
    {
        EchoScheduler { footprint_cache: Vec::new() }
    }
}

} // verus!
