//! The plain configuration values the surrounding service reads from its
//! configuration file and hands to the library's consumers. Reading and
//! decoding the file itself is input/output and lives outside the library;
//! only the decoded values and the error kinds are modeled here.

use vstd::prelude::*;

verus! {

/// The service's configuration.
#[derive(Debug, Clone)]
pub struct Config {
    pub jira: JiraConfig,
}

/// Host and credentials for the ticket tracker.
#[derive(Debug, Clone)]
pub struct JiraConfig {
    pub host: String,
    pub email: String,
    pub api_token: String,
}

/// Why configuration could not be loaded.
#[derive(Debug, PartialEq, Eq, Clone, Copy, Structural)]
pub enum ConfigError {
    FileReadError,
    ParseError,
    OtherError,
}

} // verus!
