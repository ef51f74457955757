//! Resource limits for the decode worker.

use vstd::prelude::*;

verus! {

/// Limits applied in the child before it starts.
#[derive(Clone, Copy, Debug, PartialEq, Eq, Structural)]
pub struct Limits {
    /// Address-space limit in bytes; 0 disables.
    pub memory_bytes: u64,
    /// Max open file descriptors.
    pub max_files: u64,
}

impl Default for Limits {
    fn default() -> (l: Limits)
        ensures
            l == (Limits { memory_bytes: 4_294_967_296, max_files: 64 }),
    {
        Limits { memory_bytes: 4_294_967_296, max_files: 64 }
    }
}

/// A resource whose use the worker's limits bound.
#[derive(Clone, Copy, Debug, PartialEq, Eq, Structural)]
pub enum Resource {
    /// Open file descriptors.
    OpenFiles,
    /// Size of a core dump.
    CoreDump,
    /// Address space.
    AddressSpace,
}

impl Limits {
    /// The limits to set, in order: open files, no core dumps, and the address space unless that
    /// limit is disabled.
    pub fn settings(&self) -> (r: Vec<(Resource, u64)>)
        ensures
            r@ == (if self.memory_bytes > 0 {
                seq![
                    (Resource::OpenFiles, self.max_files),
                    (Resource::CoreDump, 0u64),
                    (Resource::AddressSpace, self.memory_bytes),
                ]
            } else {
                seq![(Resource::OpenFiles, self.max_files), (Resource::CoreDump, 0u64)]
            }),
    {
        let mut r: Vec<(Resource, u64)> = Vec::new();
        r.push((Resource::OpenFiles, self.max_files));
        r.push((Resource::CoreDump, 0));
        if self.memory_bytes > 0 {
            r.push((Resource::AddressSpace, self.memory_bytes));
        }
        r
    }
}

/// Operating systems that differ in what the sandbox can do.
#[derive(Clone, Copy, Debug, PartialEq, Eq, Structural)]
pub enum Platform {
    /// Linux.
    Linux,
    /// macOS.
    MacOs,
    /// Anything else.
    Other,
}

/// Human-readable description of what the sandbox does on a platform.
pub fn describe(platform: Platform) -> (s: &'static str)
    ensures
        s@ == (match platform {
            Platform::Linux =>
                "child process; rlimits (AS, NOFILE, CORE) + no_new_privs; seccomp: not yet"@,
            Platform::MacOs => "child process; rlimits (AS, NOFILE, CORE); sandbox-exec: not yet"@,
            Platform::Other => "child process; no resource limits on this platform"@,
        }),
{
    match platform {
        Platform::Linux =>
            "child process; rlimits (AS, NOFILE, CORE) + no_new_privs; seccomp: not yet",
        Platform::MacOs => "child process; rlimits (AS, NOFILE, CORE); sandbox-exec: not yet",
        Platform::Other => "child process; no resource limits on this platform",
    }
}

} // verus!
