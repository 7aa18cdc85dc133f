//! The sandboxed code-execution tool's decision logic: construction and
//! configuration, its fixed name, and the clamping of a requested
//! timeout. Spawning the sandbox process and streaming code to it is
//! I/O and lives outside the library.

use vstd::prelude::*;

verus! {

/// How a tool's working directory is isolated between chats.
pub enum WorkingDirIsolation {
    Shared,
    Chat,
}

/// The sandboxed code-execution tool.
pub struct SandboxTool {
    pub working_dir: String,
    pub working_dir_isolation: WorkingDirIsolation,
    pub enabled: bool,
}

impl SandboxTool {
    /// An enabled tool over the given working directory.
    pub fn new(working_dir: &str, working_dir_isolation: WorkingDirIsolation) -> (r: Self)
        ensures
            r.working_dir@ == working_dir@,
            r.working_dir_isolation == working_dir_isolation,
            r.enabled == true,
    {
        Self::with_config(working_dir, working_dir_isolation, true)
    }

    /// A tool with an explicit enabled flag.
    pub fn new_with_config(
        working_dir: &str,
        working_dir_isolation: WorkingDirIsolation,
        enabled: bool,
    ) -> (r: Self)
        ensures
            r.working_dir@ == working_dir@,
            r.working_dir_isolation == working_dir_isolation,
            r.enabled == enabled,
    {
        Self::with_config(working_dir, working_dir_isolation, enabled)
    }

    /// The underlying constructor.
    pub fn with_config(
        working_dir: &str,
        working_dir_isolation: WorkingDirIsolation,
        enabled: bool,
    ) -> (r: Self)
        ensures
            r.working_dir@ == working_dir@,
            r.working_dir_isolation == working_dir_isolation,
            r.enabled == enabled,
    {
        SandboxTool {
            working_dir: working_dir.to_owned(),
            working_dir_isolation,
            enabled,
        }
    }

    /// The tool's name.
    pub fn name(&self) -> (r: &'static str)
        ensures
            r@ == "sandbox_run"@,
    {
        "sandbox_run"
    }

    /// The timeout actually applied to a run: the requested number of
    /// seconds capped at five minutes, or half a minute when none was
    /// asked for.
    pub fn effective_timeout(requested: Option<u64>) -> (r: u64)
        ensures
            r == (match requested {
                Some(v) => if v > 300 {
                    300u64
                } else {
                    v
                },
                None => 30u64,
            }),
    {
        match requested {
            Some(v) => if v > 300 {
                300
            } else {
                v
            },
            None => 30,
        }
    }
}

} // verus!
