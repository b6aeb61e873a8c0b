//! The process table: process records and the allocation of process ids.

use vstd::prelude::*;

verus! {

/// The number of a process. Ids are handed out in rising order from 1.
#[derive(Debug, Clone, Copy, PartialEq, Eq, Structural)]
pub struct ProcessId(pub u64);

/// What a process is doing.
#[derive(Debug, Clone, Copy, PartialEq, Eq, Structural)]
pub enum ProcessState {
    Running,
    Ready,
    Blocked,
    Zombie,
}

/// The general-purpose, flag and segment registers of a process.
#[derive(Debug, Clone, Copy, PartialEq, Eq, Structural)]
pub struct Registers {
    pub rax: u64,
    pub rbx: u64,
    pub rcx: u64,
    pub rdx: u64,
    pub rsi: u64,
    pub rdi: u64,
    pub rbp: u64,
    pub rsp: u64,
    pub rip: u64,
    pub rflags: u64,
    pub cs: u16,
    pub ds: u16,
    pub es: u16,
    pub fs: u16,
    pub gs: u16,
    pub ss: u16,
}

impl Registers {
    /// All registers zero.
    pub open spec fn spec_zeroed() -> Registers {
        Registers {
            rax: 0,
            rbx: 0,
            rcx: 0,
            rdx: 0,
            rsi: 0,
            rdi: 0,
            rbp: 0,
            rsp: 0,
            rip: 0,
            rflags: 0,
            cs: 0,
            ds: 0,
            es: 0,
            fs: 0,
            gs: 0,
            ss: 0,
        }
    }
}

impl Default for Registers {
    fn default() -> (r: Self)
        ensures
            r == Registers::spec_zeroed(),
    {
        Registers {
            rax: 0,
            rbx: 0,
            rcx: 0,
            rdx: 0,
            rsi: 0,
            rdi: 0,
            rbp: 0,
            rsp: 0,
            rip: 0,
            rflags: 0,
            cs: 0,
            ds: 0,
            es: 0,
            fs: 0,
            gs: 0,
            ss: 0,
        }
    }
}

/// The saved machine state of a process.
#[derive(Debug, Clone, Copy, PartialEq, Eq, Structural)]
pub struct ProcessContext {
    pub registers: Registers,
    pub stack_pointer: usize,
    pub instruction_pointer: usize,
}

/// What may be done with a region of memory.
#[derive(Debug, Clone, Copy, PartialEq, Eq, Structural)]
pub enum MemoryPermissions {
    Read,
    Write,
    Execute,
    ReadWrite,
    ReadExecute,
    ReadWriteExecute,
}

/// How a region of memory is mapped.
#[derive(Debug, Clone, Copy, PartialEq, Eq, Structural)]
pub struct MemoryFlags {
    pub shared: bool,
    pub locked: bool,
    pub no_reserve: bool,
}

/// A region of a process's address space.
#[derive(Debug, Clone, Copy, PartialEq, Eq, Structural)]
pub struct MemoryRegion {
    pub start: usize,
    pub size: usize,
    pub permissions: MemoryPermissions,
    pub flags: MemoryFlags,
}

/// A process as the kernel records it.
#[derive(Debug)]
pub struct Process {
    pub pid: ProcessId,
    pub name: String,
    pub state: ProcessState,
    pub context: ProcessContext,
    pub memory_regions: Vec<MemoryRegion>,
}

impl Process {
    /// A process that was just created under `pid` and `name`: ready to run,
    /// with a zeroed context and no memory.
    pub open spec fn is_fresh(self, pid: u64, name: Seq<char>) -> bool {
        &&& self.pid == ProcessId(pid)
        &&& self.name@ == name
        &&& self.state == ProcessState::Ready
        &&& self.context == (ProcessContext {
            registers: Registers::spec_zeroed(),
            stack_pointer: 0,
            instruction_pointer: 0,
        })
        &&& self.memory_regions@.len() == 0
    }
}

/// The table of all processes, and the next free process id.
pub struct ProcessManager {
    processes: Vec<Process>,
    next_pid: u64,
}

impl ProcessManager {
    /// The processes in the order of their creation.
    pub closed spec fn spec_processes(&self) -> Seq<Process> {
        self.processes@
    }

    /// The id that the next process will get.
    pub closed spec fn spec_next_pid(&self) -> u64 {
        self.next_pid
    }

    /// Every process has an id below the next free one, and ids rise with
    /// the order of creation, so that no two processes share one.
    pub closed spec fn wf(&self) -> bool {
        &&& self.next_pid >= 1
        &&& forall|i: int| 0 <= i < self.processes@.len() ==> (#[trigger] self.processes@[i]).pid.0 < self.next_pid
        &&& forall|i: int, j: int|
            0 <= i < j < self.processes@.len() ==> (#[trigger] self.processes@[i]).pid.0 < (
            #[trigger] self.processes@[j]).pid.0
    }

    /// In a well-formed table no two processes have the same id.
    pub proof fn lemma_pids_distinct(&self, i: int, j: int)
        requires
            self.wf(),
            0 <= i < self.spec_processes().len(),
            0 <= j < self.spec_processes().len(),
            i != j,
        ensures
            self.spec_processes()[i].pid != self.spec_processes()[j].pid,
    {
        if i < j {
            assert(self.processes@[i].pid.0 < self.processes@[j].pid.0);
        } else {
            assert(self.processes@[j].pid.0 < self.processes@[i].pid.0);
        }
    }

    /// An empty table; the first process will get the id 1.
    pub fn new() -> (r: Self)
        ensures
            r.wf(),
            r.spec_processes().len() == 0,
            r.spec_next_pid() == 1,
    {
        ProcessManager { processes: Vec::new(), next_pid: 1 }
    }

    fn allocate_pid(&mut self) -> (pid: u64)
        requires
            old(self).next_pid < u64::MAX,
        ensures
            pid == old(self).next_pid,
            final(self).next_pid == pid + 1,
            final(self).processes == old(self).processes,
    {
        let pid = self.next_pid;
        self.next_pid = self.next_pid + 1;
        pid
    }

    /// Creates a process named `name` under the next free id and returns
    /// the id. The id space must not be used up.
    pub fn create_process(&mut self, name: &str) -> (pid: ProcessId)
        requires
            old(self).wf(),
            old(self).spec_next_pid() < u64::MAX,
        ensures
            final(self).wf(),
            pid == ProcessId(old(self).spec_next_pid()),
            final(self).spec_next_pid() == old(self).spec_next_pid() + 1,
            final(self).spec_processes().len() == old(self).spec_processes().len() + 1,
            final(self).spec_processes().subrange(0, old(self).spec_processes().len() as int)
                == old(self).spec_processes(),
            final(self).spec_processes().last().is_fresh(old(self).spec_next_pid(), name@),
    {
        let pid = ProcessId(self.allocate_pid());
        let process = Process {
            pid,
            name: name.to_owned(),
            state: ProcessState::Ready,
            context: ProcessContext {
                registers: Registers::default(),
                stack_pointer: 0,
                instruction_pointer: 0,
            },
            memory_regions: Vec::new(),
        };
        self.processes.push(process);
        assert(self.processes@.subrange(0, old(self).processes@.len() as int) =~= old(
            self,
        ).processes@);
        pid
    }

    /// How many processes the table holds.
    pub fn process_count(&self) -> (n: usize)
        ensures
            n == self.spec_processes().len(),
    {
        self.processes.len()
    }
}

} // verus!
