//! Deterministic, content-addressed event core: a canonical binary codec,
//! content hashes, an event DAG with structural validation, counterfactual
//! descriptors, deterministic node identities, and clock and timer views
//! computed as folds over the event history.
use vstd::prelude::*;

pub mod canonical;
pub mod hash;
pub mod record;
pub mod events;
pub mod delta;
pub mod ids;
pub mod clock;
pub mod timer;
pub mod model;
pub mod graph;
