use vstd::prelude::*;
use crate::codec::le_u64;
use crate::easy_fs::block_dev::BlockDevice;
use crate::easy_fs::efs::inode_pos_of;
use crate::easy_fs::vfs::{has_name, lookup, Inode};
use crate::fs::inode::{open_file, OpenFlags};
use crate::kernel::Kernel;
use crate::mm::elf::ElfImage;
use crate::mm::frame_allocator::FramePool;
use crate::mm::page_table::{translated_refmut, translated_str, user_place, user_str};
use crate::mm::Memory;
use crate::task::processor::lemma_index_stable;
use crate::task::task::{arg_bytes, args_fit, TaskStatus, TaskView};

verus! {

/// The number stored at the user address `va`, if its eight bytes lie in
/// one page that is mapped.
pub open spec fn user_word(mem: Memory, root: u64, va: u64) -> Option<u64> {
    match user_place(mem, root, va) {
        Some((p, o)) => if o + 8 <= 4096 {
            Some(le_u64(mem[p], o))
        } else {
            None
        },
        None => None,
    }
}

/// The strings whose addresses are listed at the user address `va`, up to
/// the first address that is 0; `None` where the list or a string cannot
/// be reached.
pub open spec fn user_args(mem: Memory, root: u64, va: int) -> Option<Seq<Seq<u8>>>
    decreases u64::MAX - va,
{
    if va < 0 || va > u64::MAX {
        None
    } else {
        match user_word(mem, root, va as u64) {
            None => None,
            Some(p) => if p == 0 {
                Some(Seq::<Seq<u8>>::empty())
            } else if va + 8 > u64::MAX {
                None
            } else {
                match (user_str(mem, root, p as int), user_args(mem, root, va + 8)) {
                    (Some(s), Some(rest)) => Some(seq![s] + rest),
                    _ => None,
                }
            },
        }
    }
}

/// The rest of the list after `acc`, where there is one.
pub open spec fn args_after(acc: Seq<Seq<u8>>, rest: Option<Seq<Seq<u8>>>) -> Option<Seq<Seq<u8>>> {
    match rest {
        Some(r) => Some(acc + r),
        None => None,
    }
}

/// The strings whose addresses are listed at the user address `ptr`.
pub fn translated_args(token: u64, ptr: u64, pool: &FramePool) -> (r: Option<Vec<Vec<u8>>>)
    requires
        pool.memory.wf(),
    ensures
        r.is_some() == user_args(pool.mem(), token & 0xfff_ffff_ffff, ptr as int).is_some(),
        r.is_some() ==> arg_bytes(r.unwrap()@) == user_args(pool.mem(), token & 0xfff_ffff_ffff, ptr as int).unwrap(),
{
    let ghost root = token & 0xfff_ffff_ffff;
    let ghost mem = pool.mem();
    let mut args: Vec<Vec<u8>> = Vec::new();
    let mut va = ptr;
    proof {
        pool.memory.lemma_view();
    }
    loop
        invariant
            pool.memory.wf(),
            mem == pool.mem(),
            root == token & 0xfff_ffff_ffff,
            ptr <= va,
            args_after(arg_bytes(args@), user_args(mem, root, va as int)) == user_args(mem, root, ptr as int),
        decreases u64::MAX - va,
    {
        let (ppn, offset) = match translated_refmut(token, va, pool) {
            Some(p) => p,
            None => {
                return None;
            },
        };
        if offset > 4088 {
            return None;
        }
        let p = pool.memory.read_u64(ppn.0, offset);
        if p == 0 {
            proof {
                assert(arg_bytes(args@) + Seq::<Seq<u8>>::empty() =~= arg_bytes(args@));
            }
            return Some(args);
        }
        if va > u64::MAX - 8 {
            return None;
        }
        let s = match translated_str(token, p, pool) {
            Some(s) => s,
            None => {
                return None;
            },
        };
        let ghost before = arg_bytes(args@);
        let ghost text = s@;
        args.push(s);
        proof {
            assert(arg_bytes(args@) =~= before.push(text));
            let rest = user_args(mem, root, va + 8);
            if rest.is_some() {
                assert(before + (seq![text] + rest.unwrap()) =~= before.push(text) + rest.unwrap());
            }
        }
        va += 8;
    }
}

impl<D: BlockDevice> Kernel<D> {
    /// The inode of the file named `name` in the root directory.
    pub open spec fn file_named(&self, name: Seq<u8>) -> Inode {
        let id = lookup(self.root.node(self.fs.disk()), self.fs.disk(), name);
        Inode {
            block_id: inode_pos_of(self.fs.inode_area_start_block as int, id as int).0 as usize,
            block_offset: inode_pos_of(self.fs.inode_area_start_block as int, id as int).1 as usize,
        }
    }

    /// Whether the root directory lists a file named `name`.
    pub open spec fn has_file(&self, name: Seq<u8>) -> bool {
        has_name(self.root.node(self.fs.disk()), self.fs.disk(), name)
    }

    /// The name of the program and the arguments that the running task
    /// asks for with the string at the user address `path` and the list
    /// of strings at the user address `args`, where both can be reached
    /// and the root directory lists the name.
    pub open spec fn asked_program(&self, path: u64, args: u64) -> Option<(Seq<u8>, Seq<Seq<u8>>)> {
        match (
            user_str(self.pool.mem(), self.user_root(), path as int),
            user_args(self.pool.mem(), self.user_root(), args as int),
        ) {
            (Some(name), Some(list)) => if name.len() <= 27 && self.has_file(name) {
                Some((name, list))
            } else {
                None
            },
            _ => None,
        }
    }
}

/// Reads what the running task asks to run: the name of the program at the
/// user address `path` and the arguments listed at the user address
/// `args`. Returns the bytes of the file of that name in the root
/// directory, and the arguments; `None` where name or arguments cannot be
/// reached or the root directory lists no such file.
pub fn exec_request<D: BlockDevice>(kernel: &mut Kernel<D>, path: u64, args: u64) -> (r: Option<
    (Vec<u8>, Vec<Vec<u8>>),
>)
    requires
        old(kernel).wf(),
        old(kernel).running(),
        old(kernel).pool.wf(),
        old(kernel).fs.wf(),
        old(kernel).root.block_offset + 128 <= 512,
        old(kernel).root.node(old(kernel).fs.disk()).wf(),
        old(kernel).root.node(old(kernel).fs.disk()).is_dir,
        forall|name: Seq<u8>|
            #[trigger] old(kernel).has_file(name) ==> old(kernel).file_named(name).node(old(kernel).fs.disk()).wf()
                && old(kernel).fs.inode_area_start_block + (lookup(
                old(kernel).root.node(old(kernel).fs.disk()),
                old(kernel).fs.disk(),
                name,
            ) + 3) / 4 <= u32::MAX,
    ensures
        final(kernel).wf(),
        old(kernel).mem_ok() ==> final(kernel).mem_ok(),
        old(kernel).family_ok() ==> final(kernel).family_ok(),
        old(kernel).stacks_ok() ==> final(kernel).stacks_ok(),
        final(kernel).same_tasks(old(kernel)),
        final(kernel).pool == old(kernel).pool,
        final(kernel).pipes == old(kernel).pipes,
        final(kernel).files == old(kernel).files,
        final(kernel).fs.wf(),
        final(kernel).fs.disk() == old(kernel).fs.disk(),
        r.is_some() == old(kernel).asked_program(path, args).is_some(),
        r.is_some() ==> {
            let (name, list) = old(kernel).asked_program(path, args).unwrap();
            let node = old(kernel).file_named(name).node(old(kernel).fs.disk());
            &&& r.unwrap().0@ == node.bytes(old(kernel).fs.disk(), 0, node.size as int)
            &&& arg_bytes(r.unwrap().1@) == list
        },
{
    let i = kernel.current_index();
    let token = kernel.tasks.tasks[i].inner.get_user_token();
    let name = match translated_str(token, path, &kernel.pool) {
        Some(name) => name,
        None => {
            return None;
        },
    };
    let list = match translated_args(token, args, &kernel.pool) {
        Some(list) => list,
        None => {
            return None;
        },
    };
    if name.len() > 27 {
        return None;
    }
    proof {
        if kernel.has_file(name@) {
            assert(kernel.file_named(name@).node(kernel.fs.disk()).wf());
        }
        assert(0u32 & crate::fs::inode::CREATE != crate::fs::inode::CREATE && 0u32 & crate::fs::inode::TRUNC
            != crate::fs::inode::TRUNC) by (bit_vector);
    }
    let found = open_file(&kernel.root, name.as_slice(), OpenFlags { bits: 0 }, &mut kernel.fs);
    let r = match found {
        Some(mut app_inode) => {
            let all_data = app_inode.read_all(&mut kernel.fs);
            Some((all_data, list))
        },
        None => {
            None
        },
    };
    proof {
        if old(kernel).mem_ok() {
            crate::kernel::lemma_mem_kept(old(kernel), kernel);
        }
        crate::kernel::lemma_family_same(old(kernel), kernel);
        if old(kernel).stacks_ok() {
            crate::kernel_stacks::lemma_stacks_kept(old(kernel), kernel);
        }
    }
    r
}


/// The running task goes on as the program of the ELF file `elf`, whose
/// bytes are `elf_data`, with the arguments `args`. Returns the number of
/// the arguments.
pub fn sys_exec<D: BlockDevice>(kernel: &mut Kernel<D>, elf: &ElfImage, elf_data: &[u8], args: Vec<Vec<u8>>, sstatus: u64) -> (r:
    isize)
    requires
        old(kernel).wf(),
        old(kernel).running(),
        old(kernel).kernel_space.wf(&old(kernel).pool),
        old(kernel).tasks.tasks@[old(kernel).cur()].inner.memory_set.wf(&old(kernel).pool),
        forall|p: u64|
            old(kernel).tasks.tasks@[old(kernel).cur()].inner.memory_set.owns(p) ==> !old(kernel).kernel_space.owns(p),
        elf.loadable(elf_data@.len() as int),
        old(kernel).env.strampoline.0 % 4096 == 0,
        old(kernel).env.strampoline.0 / 4096 < 0x1000_0000_0000,
        old(kernel).pool.allocator@.free_count() >= elf.cost(),
        args_fit(arg_bytes(args@)),
    ensures
        final(kernel).wf(),
        old(kernel).mem_ok() ==> final(kernel).mem_ok(),
        old(kernel).family_ok() ==> final(kernel).family_ok(),
        old(kernel).mem_ok() && old(kernel).stacks_ok() ==> final(kernel).stacks_ok(),
        r == args@.len(),
        final(kernel).tasks.tasks@.len() == old(kernel).tasks.tasks@.len(),
        final(kernel).tasks.tasks@[old(kernel).cur()].executed(
            elf,
            elf_data@,
            arg_bytes(args@),
            &old(kernel).env,
            sstatus,
            &old(kernel).kernel_space,
            &final(kernel).pool,
        ),
        final(kernel).tasks.tasks@[old(kernel).cur()]@ == (TaskView {
            trap_cx_ppn: final(kernel).tasks.tasks@[old(kernel).cur()]@.trap_cx_ppn,
            ..old(kernel).tasks.tasks@[old(kernel).cur()]@
        }),
        forall|j: int|
            0 <= j < old(kernel).tasks.tasks@.len() && j != old(kernel).cur() ==> #[trigger] final(kernel).tasks.tasks@[j]
                == old(kernel).tasks.tasks@[j],
        forall|p: u64|
            old(kernel).pool.is_allocated(p) ==> #[trigger] final(kernel).pool.mem()[p] == old(kernel).pool.mem()[p],
        forall|p: u64|
            old(kernel).tasks.tasks@[old(kernel).cur()].inner.memory_set.owns(p) ==> !(#[trigger] final(kernel).pool.is_allocated(p)),
        final(kernel).env == old(kernel).env,
        final(kernel).kernel_space == old(kernel).kernel_space,
        final(kernel).pid_allocator == old(kernel).pid_allocator,
        final(kernel).manager == old(kernel).manager,
        final(kernel).processor == old(kernel).processor,
        final(kernel).initproc == old(kernel).initproc,
        final(kernel).pipes == old(kernel).pipes,
        final(kernel).files == old(kernel).files,
        final(kernel).fs == old(kernel).fs,
        final(kernel).root == old(kernel).root,
{
    let i = kernel.current_index();
    let ghost k0 = *kernel;
    let argc = args.len();
    proof {
        assert(arg_bytes(args@).len() == args@.len());
        crate::task::task::lemma_args_size(arg_bytes(args@), 0, args@.len() as int);
    }
    let task = &mut kernel.tasks.tasks[i];
    task.exec(elf, elf_data, args, &kernel.env, sstatus, &kernel.kernel_space, &mut kernel.pool);
    proof {
        let now = kernel.tasks.tasks@;
        assert forall|a: int| 0 <= a < now.len() implies (#[trigger] now[a]).pid == k0.tasks.tasks@[a].pid
            && now[a].inner.task_status == k0.tasks.tasks@[a].inner.task_status && now[a].kernel_stack
            == k0.tasks.tasks@[a].kernel_stack by {}
        assert forall|a: int, b: int|
            0 <= a < now.len() && 0 <= b < now.len() && (#[trigger] now[a]).pid.0 == (#[trigger] now[b]).pid.0 implies a
            == b by {
            assert(k0.tasks.tasks@[a].pid.0 == k0.tasks.tasks@[b].pid.0);
        }
        assert forall|p: usize| k0.tasks.has(p) implies kernel.tasks.has(p) && kernel.tasks.index_of(p)
            == k0.tasks.index_of(p) by {
            lemma_index_stable(&k0.tasks, &kernel.tasks, p);
        }
        assert forall|k: int| 0 <= k < kernel.manager@.len() implies kernel.tasks.has(#[trigger] kernel.manager@[k])
            && kernel.tasks.tasks@[kernel.tasks.index_of(kernel.manager@[k])].inner.task_status
            == TaskStatus::Ready by {
            assert(k0.tasks.has(k0.manager@[k]));
        }
        assert forall|a: int| 0 <= a < now.len() implies kernel.pid_allocator@.is_allocated((#[trigger] now[a]).pid.0) by {
            assert(k0.pid_allocator@.is_allocated(k0.tasks.tasks@[a].pid.0));
        }
        if k0.mem_ok() {
            let t = now[i as int];
            assert(k0.space_ok(i as int)) by {
                reveal(Kernel::mem_ok);
            }
            k0.tasks.tasks@[i as int].inner.memory_set.lemma_task_space_facts(
                &k0.pool,
                k0.env.strampoline.0,
                k0.tasks.tasks@[i as int].inner.trap_cx_ppn.0,
            );
            k0.pool.memory.lemma_view();
            kernel.pool.memory.lemma_view();
            elf.lemma_image_task_space(&t.inner.memory_set, &kernel.pool, elf_data@, kernel.env.strampoline.0);
            elf.lemma_only_areas_of_image(&t.inner.memory_set, &kernel.pool, elf_data@, kernel.env.strampoline.0);
            crate::kernel::lemma_mem_after_exec(&k0, kernel, i as int);
            if k0.stacks_ok() {
                crate::kernel_stacks::lemma_stacks_kept(&k0, kernel);
            }
        }
        if k0.family_ok() {
            assert forall|a: int| 0 <= a < now.len() implies (#[trigger] now[a]).inner.parent
                == k0.tasks.tasks@[a].inner.parent && now[a].inner.children@ == k0.tasks.tasks@[a].inner.children@ by {}
            crate::kernel::lemma_family_kept(&k0, kernel);
        }
    }
    argc as isize
}


/// Whether the arguments `args` and the table of their addresses fit on
/// the user stack of a program.
pub fn check_args(args: &Vec<Vec<u8>>) -> (r: bool)
    ensures
        r == args_fit(arg_bytes(args@)),
{
    let ghost list = arg_bytes(args@);
    if args.len() > 1023 {
        proof {
            crate::task::task::lemma_args_size(list, 0, list.len() as int);
        }
        return false;
    }
    let mut size: usize = 0;
    let mut i: usize = 0;
    while i < args.len()
        invariant
            i <= args@.len() <= 1023,
            list == arg_bytes(args@),
            size == crate::task::task::args_size(list, i as int),
            size <= 8192,
        decreases args@.len() - i,
    {
        let n = args[i].len();
        proof {
            assert(list[i as int] == args@[i as int]@);
            crate::task::task::lemma_args_size(list, i as int + 1, list.len() as int);
        }
        if n > 8192 || size + n + 1 > 8192 {
            return false;
        }
        size = size + n + 1;
        i += 1;
    }
    8 * (args.len() + 1) + size + 8 <= 8192
}

} // verus!
