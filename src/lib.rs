//! Decision logic for keeping a stack of dependent pull-request branches rebased
//! onto their bases and published without ever overwriting remote work.
//!
//! The repository and the hosting service stay with the caller: the library
//! classifies branches, groups change requests by base, and drives each pass
//! as a state machine whose pending action the caller performs and answers.
pub mod engine;
pub mod graph;
pub mod guard;
pub mod model;
pub mod remote;
pub mod request;
pub mod safety;

pub use engine::{Action, Engine, Event, Outcome, RebaseOutcome};
pub use graph::{build_pr_graph, DependencyGraph};
pub use guard::{BranchGuard, RestoreStep};
pub use remote::{api_base_uri, coordinates_from_groups, host_owner_repo_name, remote_of_upstream, RepoCoordinates};
pub use request::{requests_by, ChangeRequest};
pub use safety::{is_safe, is_safe_pr, safe_requests, BranchComparison, Candidate};
