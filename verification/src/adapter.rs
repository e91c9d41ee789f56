//! The Skylark adapter.

use crate::config;
use vstd::prelude::*;

verus! {

/// Reads the usage export of the Skylark daemon.
#[derive(Clone, Copy, Debug, PartialEq, Eq, Structural)]
pub struct Skylark;

/// Bump when the parser learns to extract new fields so archived sessions re-parse
/// through it on the next sync.
pub const SOURCE_FINGERPRINT_VERSION: &'static str = "skylark-v1-usage-export";

/// A directory that a tool's logs are looked for in, and what it is for.
#[derive(Debug)]
pub struct ProbeRoot<P> {
    pub label: &'static str,
    pub path: P,
}

/// The fingerprint of a source, given the one that all tools share.
pub open spec fn fingerprint_of(shared: Seq<char>) -> Seq<char> {
    SOURCE_FINGERPRINT_VERSION@ + ":"@ + shared
}

impl Skylark {
    /// The identifier of the tool.
    pub fn id(&self) -> (id: &'static str)
        ensures
            id == config::TOOL_ID,
    {
        config::TOOL_ID
    }

    /// The name of the tool.
    pub fn display_name(&self) -> (name: &'static str)
        ensures
            name == config::DISPLAY_NAME,
    {
        config::DISPLAY_NAME
    }

    /// The fingerprint of a source: the one that all tools share, marked with the
    /// version of this parser.
    pub fn source_fingerprint(&self, shared: &str) -> (fingerprint: String)
        ensures
            fingerprint@ == fingerprint_of(shared@),
    {
        let mut fingerprint = String::new();
        fingerprint.append(SOURCE_FINGERPRINT_VERSION);
        fingerprint.append(":");
        fingerprint.append(shared);
        assert(fingerprint@ == fingerprint_of(shared@));
        fingerprint
    }

    /// The directories to look for logs in: where the usage logs are, if that is
    /// known.
    pub fn probe_roots<P>(&self, usage_root: Option<P>) -> (roots: Vec<ProbeRoot<P>>)
        ensures
            match usage_root {
                Some(path) => roots@ == seq![(ProbeRoot { label: "usage", path })],
                None => roots@.len() == 0,
            },
    {
        let mut roots: Vec<ProbeRoot<P>> = Vec::new();
        if let Some(path) = usage_root {
            roots.push(ProbeRoot { label: "usage", path });
        }
        roots
    }

    /// The environment variables that change where the logs are.
    pub fn env_overrides(&self) -> (names: [&'static str; 1])
        ensures
            names@ == seq![config::ENV_OVERRIDE],
    {
        [config::ENV_OVERRIDE]
    }
}

/// The adapters that are run.
pub fn registry() -> (adapters: Vec<Skylark>)
    ensures
        adapters@ == seq![Skylark],
{
    vec![Skylark]
}

} // verus!
