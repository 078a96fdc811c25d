//! Launch ordering for interdependent service stacks, and lookup of the
//! secrets they need in a tree-shaped credential store.
//!
//! Each stack is declared by a manifest that names it, lists the stacks it
//! depends on, the hosts it runs on and the secrets its launch needs. From the
//! manifests that concern one host, [`deploy_file::load_stacks`] works out
//! the order in which that host starts its stacks; read backwards it is the
//! order in which to stop them. [`secrets::KeePassDB::resolve_value`] finds a
//! secret by a path such as `Vault/svc/creds/token`.
//!
//! * [`deploy_file`]: the descriptor, the host filter, the whole pipeline
//! * [`graph`]: the dependency graph and the checks made while building it
//! * [`launch`]: what a launch sequence is, and what follows from it
//! * [`sequencer`]: topological ordering of a numbered graph
//! * [`secrets`]: the credential tree and the path resolver
//! * [`text`]: comparison, ordering and splitting of text
//! * [`host`]: the identity of the local host
//! * [`repo`]: the outcome of updating the source checkout

pub mod deploy_file;
pub mod graph;
pub mod host;
pub mod launch;
pub mod repo;
pub mod secrets;
pub mod sequencer;
pub mod text;
