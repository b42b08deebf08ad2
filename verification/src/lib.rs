//! The dependency graphs of a package build service.
//!
//! For each platform that packages are built for, the service keeps one graph of
//! the packages and of what each depends on. Package records are ingested as they
//! come from the catalogue; an edge that would close a cycle is turned down and
//! counted, so that the graph can always be built in order.
//!
//! - [`ident`], [`version`], [`target`] and [`record`] hold the values that are ingested;
//! - [`model`] says what a graph is and what ingestion does to it, and [`laws`] what
//!   follows from that;
//! - [`graph`] is the graph of one platform, with its queries in [`order`] and
//!   [`impact`]; [`reach`] and [`search`] are the theory and the traversal below it;
//! - [`target_graph`] routes records to the graph of their platform;
//! - [`oauth`] and [`origin`] hold what the service's sign-in and store decide and
//!   convert, apart from their input and output.

pub mod graph;
pub mod ident;
pub mod impact;
pub mod laws;
pub mod model;
pub mod oauth;
pub mod order;
pub mod origin;
pub mod reach;
pub mod record;
pub mod search;
pub mod target;
pub mod target_graph;
pub mod text;
pub mod version;

pub use graph::{DependencyGraph, Edge, ExtendOutcome, GraphStats, Node};
pub use ident::{IdentError, PackageIdent};
pub use oauth::{Bitbucket, User, UserOk};
pub use record::{DependencyKind, PackageRecord, RecordError};
pub use target::PackageTarget;
pub use target_graph::{TargetGraph, TargetGraphStats};
pub use version::Comparison;
