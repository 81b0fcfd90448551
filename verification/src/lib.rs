use vstd::prelude::*;

pub mod codec;
pub mod config;
pub mod easy_fs;
pub mod fs;
pub mod kernel;
pub mod kernel_stacks;
pub mod mm;
pub mod syscall;
pub mod timer;
pub mod task;
pub mod trap;

verus! {

} // verus!
