//! Verified core of the CLIProxyAPI desktop manager: configuration-text
//! editing, management-API HTTP framing, package naming and the small
//! decisions the desktop shell takes around the managed service.
//!
//! - `text`, `number`: `str` operations and integer text, specified over
//!   character sequences.
//! - `yaml`: reading and writing `config.yaml` scalars; `yaml_laws`: what a
//!   write does to a later read.
//! - `http`: management request heads and responses; `http_laws`: chunked
//!   coding read back.
//! - `package`: runtime package names and archive paths.
//! - `service`: process identification, auth directory, backups, runtime
//!   listing, stopping a process.
//! - `desktop`: the decisions of the desktop commands (archive entries,
//!   service status, starting, installing, retries).

pub mod desktop;
pub mod http;
pub mod http_laws;
pub mod number;
pub mod package;
pub mod service;
pub mod text;
pub mod yaml;
pub mod yaml_laws;
