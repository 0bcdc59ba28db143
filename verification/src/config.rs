//! The configuration read from `commands.json` and `credentials.json`.

use vstd::prelude::*;

verus! {

/// One command to run on every router, and how to read its replies.
#[derive(Debug, Clone)]
pub struct Queries {
    /// Attributes whose values are split at `split_character`.
    pub split_targets: Option<Vec<String>>,
    /// The separator at which the values of `split_targets` are split.
    pub split_character: Option<String>,
    /// Attributes reported as metric values.
    pub graph_targets: Option<Vec<String>>,
    /// Attributes reported as labels; when absent, every attribute is.
    pub attributes: Option<Vec<String>>,
    /// Extra words sent after the command; `${name.attribute}` in one of them
    /// is replaced by values gathered earlier.
    pub query: Option<Vec<String>>,
    /// Read from the configuration and not used.
    pub separator: Option<String>,
    /// The command word, such as `/ip/cloud/print`.
    pub command: String,
    /// The name of the metrics the command yields.
    pub name: String,
}

/// The commands of `commands.json`.
#[derive(Debug, Clone)]
pub struct Commands {
    pub commands: Vec<Queries>,
}

/// One router of `credentials.json`.
#[derive(Debug, Clone)]
pub struct Identity {
    pub name: String,
    pub uri: String,
    pub use_ssl: bool,
    pub username: String,
    pub password: String,
    /// Where the client certificate is, if one is used.
    pub cert: Option<String>,
    pub ca_cert: Option<String>,
}

} // verus!
