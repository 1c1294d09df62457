//! Topology and identity of an OKF Knowledge Bundle read as a knowledge graph:
//! what Concepts exist, what they are called, what points at what, what
//! resolves and what dangles.
//!
//! Node bodies are carried as opaque payloads and are not interpreted here.
//! Graph properties are checked per edge kind, not over the whole graph: an
//! OKF link carries no type, so an edge takes its kind from where the reference
//! sits — a body link, a `resource`, a `sources` entry, the parent/child of the
//! directory tree, an Attested-Computation path — and the algebra differs by
//! kind (parent/child is a tree, derivation must not cycle, body links may
//! cycle harmlessly).

use vstd::prelude::*;

pub mod text;
pub mod timestamp;
pub mod finding;
pub mod policy;
pub mod paths;
pub mod yaml;
pub mod concept;
pub mod links;
pub mod log;
pub mod index;
pub mod provenance;
pub mod bundle;
pub mod check;
pub mod report;

pub use bundle::{BodyLink, Bundle};
pub use check::{Check, CheckError, Checks};
pub use concept::{
    Attester, Body, Concept, ConceptError, Executor, Frontmatter, Generated, Parameter, Source,
    Status, UsageWindow, Verification,
};
pub use finding::{Finding, Rule, RuleId, Severity};
pub use links::{links_in, Link, LinkKind};
pub use paths::{classify_path, resolve_path, PathKind};
pub use policy::{Level, Policy};
pub use provenance::Derivation;
pub use timestamp::{Date, Timestamp};

verus! {

} // verus!
