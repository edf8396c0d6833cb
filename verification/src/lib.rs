//! Decisions of a command sandbox and of the proxy beside it.
//!
//! - [`fs_approval`] resolves the filesystem access that a command asks for to
//!   normalized grants below the ceiling of its policy. [`fs_model`] is its course
//!   as a state machine, and [`fs_laws`] what holds of every decision.
//!   [`request_laws`] says what counts as a request, and [`decision_laws`] what a
//!   decision means in terms of paths, answers and positions.
//! - [`policy`] holds the policy, and adds approved grants to it.
//! - [`filter`] checks hosts before and after they are looked up, and
//!   [`filter_laws`] says what holds of every check. [`check_laws`] tells its
//!   courses answer by answer, and [`rule_laws`] says what it comes to where the
//!   rules do what the documentation of a filter says.
//! - [`grant`], [`error`], [`path`] and [`text`] are what these are made of, and
//!   [`path_laws`] says what the components of a path are.
//!
//! Nothing here reads a disk or talks to a network. What has to be found out is
//! handed out as a question, and the answer comes back as a plain value.
pub mod check_laws;
pub mod decision_laws;
pub mod error;
pub mod filter;
pub mod filter_laws;
pub mod fs_approval;
pub mod fs_laws;
pub mod fs_model;
pub mod grant;
pub mod path;
pub mod path_laws;
pub mod policy;
pub mod request_laws;
pub mod rule_laws;
pub mod text;
