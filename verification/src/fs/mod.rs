use vstd::prelude::*;

pub mod inode;
pub mod pipe;

verus! {

/// What a file descriptor of a task stands for: the console for reading
/// or writing, one end of a pipe, or an open file.
#[derive(Copy, Clone, Debug, PartialEq, Eq, Structural)]
pub enum FileDescriptor {
    /// The console, to read from.
    Stdin,
    /// The console, to write to.
    Stdout,
    /// The end of the pipe with this number that is read from.
    PipeRead(usize),
    /// The end of the pipe with this number that is written to.
    PipeWrite(usize),
    /// The open file with this number.
    Inode(usize),
}

} // verus!
