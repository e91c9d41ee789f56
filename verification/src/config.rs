//! Names and places of the Skylark usage export.

use crate::text::same_text;
use vstd::prelude::*;

verus! {

pub const TOOL_ID: &'static str = "skylark";

pub const DISPLAY_NAME: &'static str = "Skylark";

/// The Skylark daemon writes its model-usage export beside the telemetry
/// database it already keeps, at `$HOME/.skylark/usage/`.
pub const DEFAULT_DIR: &'static str = ".skylark";

pub const USAGE_DIR: &'static str = "usage";

/// Points the adapter at a different daemon data directory: a second checkout, a
/// copied tree, a fixture.
pub const ENV_OVERRIDE: &'static str = "SKYLARK_DIR";

/// The rotating log's file naming: `usage-000001.jsonl`.
pub const FILE_PREFIX: &'static str = "usage-";

pub const FILE_EXT: &'static str = "jsonl";

/// The export contract this adapter is written against. A line carrying any other
/// value is skipped rather than guessed at.
pub const EXPORT_CONTRACT_VERSION: &'static str = "skylark-model-usage-v1";

/// The four backend classes the export covers. The export states its own coverage:
/// a consumer must not have to guess whether a missing backend means zero usage or
/// no coverage.
pub const COVERED_BACKENDS: [&'static str; 4] = ["cloud_escalation", "vsr", "local_vllm", "npu"];

/// Whether the export covers a backend of that name.
pub open spec fn is_covered(backend: Seq<char>) -> bool {
    ||| backend == "cloud_escalation"@
    ||| backend == "vsr"@
    ||| backend == "local_vllm"@
    ||| backend == "npu"@
}

/// Whether the export covers a backend of that name.
pub fn covers(backend: &str) -> (covered: bool)
    ensures
        covered == is_covered(backend@),
{
    let mut i: usize = 0;
    while i < 4
        invariant
            i <= 4,
            forall|j: int| 0 <= j < i ==> #[trigger] COVERED_BACKENDS@[j]@ != backend@,
        decreases 4 - i,
    {
        if same_text(COVERED_BACKENDS[i], backend) {
            return true;
        }
        i += 1;
    }
    false
}

/// Where the usage logs are: the directory to start from, and the names of the
/// directories below it. The data directory that the environment names comes
/// first; without one it is the default directory under the home directory.
pub fn usage_root<P>(override_dir: Option<P>, home: Option<P>) -> (root: Option<
    (P, Vec<&'static str>),
>)
    ensures
        match (override_dir, home) {
            (Some(dir), _) => root matches Some(r) && r.0 == dir && r.1@ == seq![USAGE_DIR],
            (None, Some(dir)) => root matches Some(r) && r.0 == dir && r.1@ == seq![
                DEFAULT_DIR,
                USAGE_DIR,
            ],
            (None, None) => root is None,
        },
{
    if let Some(dir) = override_dir {
        return Some((dir, vec![USAGE_DIR]));
    }
    match home {
        Some(dir) => Some((dir, vec![DEFAULT_DIR, USAGE_DIR])),
        None => None,
    }
}

} // verus!
