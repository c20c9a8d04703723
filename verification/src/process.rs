//! The rules for the process that runs a temporary server: whether the tool is there,
//! whom a signal goes to, how the process is stopped, and how its output is drained.

use vstd::prelude::*;

verus! {

// ---------------------------------------------------------------------------
// The tool
// ---------------------------------------------------------------------------

/// A file that bears the name of the tool.
#[derive(Debug, Clone, Copy)]
pub struct ToolFile {
    /// Whether it is a regular file.
    pub is_file: bool,
    /// Its permission bits.
    pub mode: u32,
}

/// Whether a file can be run: it is a regular file, and somebody may execute it.
pub open spec fn executable(file: ToolFile) -> bool {
    file.is_file && file.mode & 0o111 != 0
}

/// Whether an executable tool is on the search path: `files` holds, for each directory
/// of the path, the file there that bears the name of the tool, if there is one.
pub fn agy_is_installed(files: &Vec<Option<ToolFile>>) -> (r: bool)
    ensures
        r <==> exists|i: int|
            0 <= i < files@.len() && (#[trigger] files@[i]) is Some && executable(files@[i]->0),
{
    let mut i: usize = 0;
    while i < files.len()
        invariant
            i <= files@.len(),
            forall|j: int|
                0 <= j < i ==> !((#[trigger] files@[j]) is Some && executable(files@[j]->0)),
        decreases files@.len() - i,
    {
        if let Some(file) = files[i] {
            if file.is_file && file.mode & 0o111 != 0 {
                assert(files@[i as int] is Some && executable(files@[i as int]->0));
                return true;
            }
        }
        i = i + 1;
    }
    false
}

// ---------------------------------------------------------------------------
// Signals
// ---------------------------------------------------------------------------

/// The number that stands for the group of the process `pid` where a signal is sent: the
/// negative of its id, taken as a signed 32 bit number.
pub open spec fn group_target(pid: u32) -> int {
    if pid < 0x8000_0000 {
        -(pid as int)
    } else {
        0x1_0000_0000 - pid
    }
}

/// What to do next to stop the process of a temporary server.
#[derive(Debug, Clone, Copy, PartialEq, Eq, Structural)]
pub enum StopStep {
    /// Ask this group of processes to terminate.
    Terminate(i32),
    /// Wait a little, and look again.
    Wait,
    /// Kill this group of processes, then kill the process itself and collect it.
    Kill(i32),
    /// Kill the process itself and collect it.
    KillChild,
}

/// Stops the process `pid` and its whole group: the next step, when `asked` says whether
/// the group was asked to terminate already, and `exited` and `expired` whether the
/// process is gone and the grace period is over. A process without an id has no group.
pub fn terminate_agy_group(pid: u32, asked: bool, exited: bool, expired: bool) -> (r: StopStep)
    requires
        pid != 0x8000_0000,
    ensures
        r is KillChild <==> pid == 0,
        r is Terminate <==> pid != 0 && !asked,
        r is Wait <==> pid != 0 && asked && !exited && !expired,
        r is Kill <==> pid != 0 && asked && (exited || expired),
        r matches StopStep::Terminate(target) ==> target == group_target(pid),
        r matches StopStep::Kill(target) ==> target == group_target(pid),
{
    if pid == 0 {
        return StopStep::KillChild;
    }
    let signed: i32 = if pid < 0x8000_0000 {
        pid as i32
    } else {
        (pid as i64 - 0x1_0000_0000) as i32
    };
    let target: i32 = -signed;
    if !asked {
        StopStep::Terminate(target)
    } else if !expired && !exited {
        StopStep::Wait
    } else {
        StopStep::Kill(target)
    }
}

/// Whom the handler of a fatal signal kills: the group of the temporary server, if one
/// runs. `group` is the id of that group, or 0.
pub fn cleanup_target(group: i32) -> (r: Option<i32>)
    ensures
        match r {
            Some(target) => group > 0 && target == -group,
            None => group <= 0,
        },
{
    if group > 0 {
        Some(-group)
    } else {
        None
    }
}

/// A signal for the group of a process that can have been started goes to that group
/// alone: never to the sender's own group, which 0 stands for, nor to every process,
/// which -1 stands for. And the handler of a fatal signal reaches the same group.
pub proof fn signals_reach_only_the_group(pid: u32)
    requires
        1 < pid <= i32::MAX,
    ensures
        group_target(pid) == -(pid as int),
        group_target(pid) < -1,
        group_target(pid) == -(pid as i32),
{
}

// ---------------------------------------------------------------------------
// Output
// ---------------------------------------------------------------------------

/// Why a read failed.
#[derive(Debug, Clone, Copy, PartialEq, Eq, Structural)]
pub enum ReadFailure {
    /// A signal interrupted it.
    Interrupted,
    /// There is nothing to read yet.
    WouldBlock,
    /// Anything else.
    Other,
}

/// What to do next to drain the output of a process.
#[derive(Debug, Clone, Copy, PartialEq, Eq, Structural)]
pub enum DrainStep {
    /// Read at once.
    Read,
    /// Wait a little, then read.
    Wait,
    /// Stop.
    Stop,
}

/// Drains the output of a process: the next step, after a read that gave this many bytes
/// or failed. No bytes mean that the output is closed. A failed read is the end when
/// `stopping` is set, and when nothing tells that a later read can succeed.
pub fn drain_step(read: Result<usize, ReadFailure>, stopping: bool) -> (r: DrainStep)
    ensures
        r is Read <==> match read {
            Ok(n) => n > 0,
            Err(failure) => !stopping && failure is Interrupted,
        },
        r is Wait <==> match read {
            Ok(_) => false,
            Err(failure) => !stopping && failure is WouldBlock,
        },
{
    match read {
        Ok(n) => if n > 0 {
            DrainStep::Read
        } else {
            DrainStep::Stop
        },
        Err(failure) => if stopping {
            DrainStep::Stop
        } else {
            match failure {
                ReadFailure::Interrupted => DrainStep::Read,
                ReadFailure::WouldBlock => DrainStep::Wait,
                ReadFailure::Other => DrainStep::Stop,
            }
        },
    }
}

/// A file can be run when it is a regular file and at least one of owner, group and others
/// may execute it, whatever its other bits are.
pub proof fn executable_for_somebody(file: ToolFile)
    ensures
        executable(file) <==> file.is_file && ((file.mode / 64) % 2 == 1 || (file.mode / 8) % 2 == 1
            || file.mode % 2 == 1),
{
    let mode = file.mode;
    assert((mode & 0o111 != 0) <==> ((mode / 64) % 2 == 1 || (mode / 8) % 2 == 1 || mode % 2 == 1))
        by (bit_vector);
}

/// The number for a group is the negative of the process id, as a signed 32 bit number: the
/// two add up to zero or to two to the power of 32, and it fits.
pub proof fn group_number_negates_the_process_id(pid: u32)
    requires
        pid != 0x8000_0000,
    ensures
        i32::MIN < group_target(pid) <= i32::MAX,
        group_target(pid) + pid == 0 || group_target(pid) + pid == 0x1_0000_0000,
{
}

} // verus!
