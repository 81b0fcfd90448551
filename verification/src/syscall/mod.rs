use vstd::prelude::*;

pub mod exec;
pub mod file_io;
pub mod filesystem;
pub mod process;
pub mod wait;

verus! {

/// The number of the system call `dup`.
pub const SYSCALL_DUP: usize = 24;

/// The number of the system call `open`.
pub const SYSCALL_OPEN: usize = 56;

/// The number of the system call `close`.
pub const SYSCALL_CLOSE: usize = 57;

/// The number of the system call `pipe`.
pub const SYSCALL_PIPE: usize = 59;

/// The number of the system call `read`.
pub const SYSCALL_READ: usize = 63;

/// The number of the system call `write`.
pub const SYSCALL_WRITE: usize = 64;

/// The number of the system call `exit`.
pub const SYSCALL_EXIT: usize = 93;

/// The number of the system call `yield`.
pub const SYSCALL_YIELD: usize = 124;

/// The number of the system call `get_time`.
pub const SYSCALL_GET_TIME: usize = 169;

/// The number of the system call `getpid`.
pub const SYSCALL_GETPID: usize = 172;

/// The number of the system call `fork`.
pub const SYSCALL_FORK: usize = 220;

/// The number of the system call `exec`.
pub const SYSCALL_EXEC: usize = 221;

/// The number of the system call `waitpid`.
pub const SYSCALL_WAITPID: usize = 260;

/// The system call that a number names.
#[derive(Copy, Clone, Debug, PartialEq, Eq, Structural)]
pub enum Syscall {
    Dup,
    Open,
    Close,
    Pipe,
    Read,
    Write,
    Exit,
    Yield,
    GetTime,
    GetPid,
    Fork,
    Exec,
    WaitPid,
}

/// The system call with the number `id`, if there is one.
pub open spec fn syscall_of(id: usize) -> Option<Syscall> {
    if id == 24 {
        Some(Syscall::Dup)
    } else if id == 56 {
        Some(Syscall::Open)
    } else if id == 57 {
        Some(Syscall::Close)
    } else if id == 59 {
        Some(Syscall::Pipe)
    } else if id == 63 {
        Some(Syscall::Read)
    } else if id == 64 {
        Some(Syscall::Write)
    } else if id == 93 {
        Some(Syscall::Exit)
    } else if id == 124 {
        Some(Syscall::Yield)
    } else if id == 169 {
        Some(Syscall::GetTime)
    } else if id == 172 {
        Some(Syscall::GetPid)
    } else if id == 220 {
        Some(Syscall::Fork)
    } else if id == 221 {
        Some(Syscall::Exec)
    } else if id == 260 {
        Some(Syscall::WaitPid)
    } else {
        None
    }
}

/// The system call that the number `id` names; `None` where it names none.
pub fn syscall(id: usize) -> (r: Option<Syscall>)
    ensures
        r == syscall_of(id),
{
    match id {
        SYSCALL_DUP => Some(Syscall::Dup),
        SYSCALL_OPEN => Some(Syscall::Open),
        SYSCALL_CLOSE => Some(Syscall::Close),
        SYSCALL_PIPE => Some(Syscall::Pipe),
        SYSCALL_READ => Some(Syscall::Read),
        SYSCALL_WRITE => Some(Syscall::Write),
        SYSCALL_EXIT => Some(Syscall::Exit),
        SYSCALL_YIELD => Some(Syscall::Yield),
        SYSCALL_GET_TIME => Some(Syscall::GetTime),
        SYSCALL_GETPID => Some(Syscall::GetPid),
        SYSCALL_FORK => Some(Syscall::Fork),
        SYSCALL_EXEC => Some(Syscall::Exec),
        SYSCALL_WAITPID => Some(Syscall::WaitPid),
        _ => None,
    }
}

} // verus!
