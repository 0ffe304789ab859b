//! Binding ssh-agent identities to Git repositories: the rules behind it.

pub mod text;
pub mod remote;
pub mod ssh;
pub mod digest;
pub mod keyfile;
pub mod agent;
pub mod detect;
pub mod select;
