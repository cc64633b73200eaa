//! `st` - core of a tool that manages stacks of dependent branches and keeps
//! them synchronized with a remote code-review service.
//!
//! The crate owns the persisted stack model (an n-ary tree of tracked
//! branches), the restack and submit engines that drive it, and the pure
//! helpers those engines use. All I/O — the repository, the network, the
//! terminal — is performed by the surrounding binary, which feeds plain
//! values in and carries the engines' decisions out.

pub mod constants;
pub mod errors;
pub mod strutil;
pub mod tree;
pub mod config;
pub mod trunk;
pub mod ai;
pub mod ctx;
pub mod restack;
pub mod store;
pub mod submit;
