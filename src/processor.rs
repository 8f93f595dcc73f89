//! The processor core: register file, program counter, statistics, and the
//! fetch-decode-execute cycle over the cache and memory it owns.

use vstd::prelude::*;
use crate::instructions::{
    Instruction, InstructionType, Register, Word, spec_decode, operands_in_range,
};
use crate::memory::{
    Memory, MemoryAddress, MemoryError, MEMORY_SIZE, ADDRESS_SPACE, word_at, put_word,
    word_in_bounds, zeros,
};
use crate::cache::{Cache, CacheStats, word_lines_fit, first_fault, lemma_coherent_dirty_lines_fit};

verus! {

/// Number of general registers.
pub const REGISTER_COUNT: usize = 32;

/// Where programs start.
pub const PC_INITIAL: MemoryAddress = 0x0040_0000;

/// The stack pointer's initial value.
pub const SP_INITIAL: MemoryAddress = 0x7fff_fffc;

/// The stack pointer's register.
pub const SP_REGISTER: Register = 29;

/// The link register of `jal`.
pub const RA_REGISTER: Register = 31;

/// The register that holds a syscall's code.
pub const SYSCALL_CODE_REGISTER: Register = 2;

/// The register that holds a syscall's argument.
pub const SYSCALL_ARG_REGISTER: Register = 4;

/// `run` stops when the program counter reaches this address.
pub const HALT_ADDRESS: MemoryAddress = 0xffff_ffff;

/// `run` stops after executing more than this many instructions.
pub const STEP_LIMIT: u64 = 100000;

/// Execution statistics.
#[derive(Debug, Clone, Copy, PartialEq, Eq, Structural)]
pub struct ProcessorStats {
    pub instructions_executed: u64,
    pub branches_taken: u64,
    pub loads_executed: u64,
    pub stores_executed: u64,
}

/// A fault, or the program's end, raised while executing.
#[derive(Debug, Clone, Copy, PartialEq, Eq, Structural)]
pub enum ProcessorError {
    MemoryError(MemoryError),
    InvalidInstruction(Instruction),
    /// The program asked to end (syscall code 10); not a failure.
    ProgramEnd,
}

impl From<MemoryError> for ProcessorError {
    fn from(err: MemoryError) -> Self {
        ProcessorError::MemoryError(err)
    }
}

impl vstd::std_specs::convert::FromSpecImpl<MemoryError> for ProcessorError {
    open spec fn obeys_from_spec() -> bool {
        true
    }

    open spec fn from_spec(v: MemoryError) -> Self {
        ProcessorError::MemoryError(v)
    }
}

/// What a syscall asked to print, in the order asked.
#[derive(Debug)]
pub enum ConsoleOutput {
    /// A signed integer.
    Int(i32),
    /// The bytes of a NUL-terminated string, without the NUL.
    Text(Vec<u8>),
    /// One character, given by its low byte.
    Char(u8),
}

/// Why `run` stopped without a fault.
#[derive(Debug, Clone, Copy, PartialEq, Eq, Structural)]
pub enum RunOutcome {
    /// The program counter reached `HALT_ADDRESS`.
    Halted,
    /// The program ended through syscall code 10.
    ProgramEnd,
    /// More than `STEP_LIMIT` instructions ran; the program was stopped.
    StepLimit,
}

/// Register `r` of a register file in which register 0 always reads 0.
pub open spec fn reg_value(regs: Seq<u32>, r: int) -> u32 {
    if r == 0 {
        0
    } else {
        regs[r]
    }
}

/// The register file after writing `v` to register `r`; writes to register 0
/// are ignored.
pub open spec fn with_reg(regs: Seq<u32>, r: int, v: u32) -> Seq<u32> {
    if r == 0 {
        regs
    } else {
        regs.update(r, v)
    }
}

/// A 32-bit word read as a two's-complement number.
pub open spec fn signed(v: u32) -> int {
    if v < 0x8000_0000 {
        v as int
    } else {
        v as int - 0x1_0000_0000
    }
}

/// `a + b` wrapped to 32 bits.
pub open spec fn add32(a: int, b: int) -> u32 {
    ((a + b) % 0x1_0000_0000) as u32
}

/// Whether `i` computes a value into a register from registers and its
/// immediate alone.
pub open spec fn is_alu(i: InstructionType) -> bool {
    match i {
        InstructionType::Add { .. }
        | InstructionType::Sub { .. }
        | InstructionType::And { .. }
        | InstructionType::Or { .. }
        | InstructionType::Slt { .. }
        | InstructionType::Sll { .. }
        | InstructionType::Srl { .. }
        | InstructionType::Addi { .. }
        | InstructionType::Slti { .. } => true,
        _ => false,
    }
}

/// The register such an instruction writes.
pub open spec fn alu_dest(i: InstructionType) -> int {
    match i {
        InstructionType::Add { rd, .. }
        | InstructionType::Sub { rd, .. }
        | InstructionType::And { rd, .. }
        | InstructionType::Or { rd, .. }
        | InstructionType::Slt { rd, .. }
        | InstructionType::Sll { rd, .. }
        | InstructionType::Srl { rd, .. } => rd as int,
        InstructionType::Addi { rt, .. } | InstructionType::Slti { rt, .. } => rt as int,
        _ => 0,
    }
}

/// The value such an instruction writes, given the registers.
pub open spec fn alu_value(i: InstructionType, regs: Seq<u32>) -> u32 {
    match i {
        InstructionType::Add { rs, rt, .. } => add32(
            reg_value(regs, rs as int) as int,
            reg_value(regs, rt as int) as int,
        ),
        InstructionType::Sub { rs, rt, .. } => add32(
            reg_value(regs, rs as int) as int,
            -(reg_value(regs, rt as int) as int),
        ),
        InstructionType::And { rs, rt, .. } => reg_value(regs, rs as int) & reg_value(
            regs,
            rt as int,
        ),
        InstructionType::Or { rs, rt, .. } => reg_value(regs, rs as int) | reg_value(
            regs,
            rt as int,
        ),
        InstructionType::Slt { rs, rt, .. } => if signed(reg_value(regs, rs as int)) < signed(
            reg_value(regs, rt as int),
        ) {
            1
        } else {
            0
        },
        InstructionType::Sll { rt, shamt, .. } => reg_value(regs, rt as int) << (shamt as u32),
        InstructionType::Srl { rt, shamt, .. } => reg_value(regs, rt as int) >> (shamt as u32),
        InstructionType::Addi { rs, imm, .. } => add32(reg_value(regs, rs as int) as int, imm as int),
        InstructionType::Slti { rs, imm, .. } => if signed(reg_value(regs, rs as int)) < imm as int {
            1
        } else {
            0
        },
        _ => 0,
    }
}

/// Where `i` sends the program counter when it transfers control, fetched at
/// `pc` with the given registers; `None` when it does not.
pub open spec fn transfer_target(i: InstructionType, regs: Seq<u32>, pc: u32) -> Option<u32> {
    match i {
        InstructionType::Jr { rs } => Some(reg_value(regs, rs as int)),
        InstructionType::Beq { rs, rt, imm } => if reg_value(regs, rs as int) == reg_value(
            regs,
            rt as int,
        ) {
            Some(add32(pc as int, imm as int * 4))
        } else {
            None
        },
        InstructionType::Bne { rs, rt, imm } => if reg_value(regs, rs as int) != reg_value(
            regs,
            rt as int,
        ) {
            Some(add32(pc as int, imm as int * 4))
        } else {
            None
        },
        InstructionType::J { addr } | InstructionType::Jal { addr } => Some(
            (pc & 0xf000_0000) | (addr << 2u32),
        ),
        _ => None,
    }
}

/// The address a load or store accesses.
pub open spec fn data_address(i: InstructionType, regs: Seq<u32>) -> u32 {
    match i {
        InstructionType::Lw { rs, imm, .. } | InstructionType::Sw { rs, imm, .. } => add32(
            reg_value(regs, rs as int) as int,
            imm as int,
        ),
        _ => 0,
    }
}

/// Whether the `n` bytes of `m` from `a` on are non-zero and followed by a zero.
pub open spec fn terminated_at(m: Seq<u8>, a: int, n: int) -> bool {
    &&& 0 <= a
    &&& 0 <= n
    &&& a + n < m.len()
    &&& m[a + n] == 0
    &&& forall|k: int| a <= k < a + n ==> m[k] != 0
}

/// Whether a zero byte follows `a` in `m`.
pub open spec fn has_terminator(m: Seq<u8>, a: int) -> bool {
    exists|n: int| terminated_at(m, a, n)
}

/// Computes `add32(a, b)`.
fn add_wrapping(a: u32, b: i64) -> (r: u32)
    requires
        -0x1_0000_0000 < b < 0x1_0000_0000,
    ensures
        r == add32(a as int, b as int),
{
    let sum: i64 = a as i64 + b;
    if sum < 0 {
        (sum + 0x1_0000_0000i64) as u32
    } else if sum >= 0x1_0000_0000i64 {
        (sum - 0x1_0000_0000i64) as u32
    } else {
        sum as u32
    }
}

/// `v` read as a two's-complement number.
fn to_signed(v: u32) -> (r: i64)
    ensures
        r == signed(v),
{
    if v < 0x8000_0000 {
        v as i64
    } else {
        v as i64 - 0x1_0000_0000i64
    }
}

/// `m` with `words` stored as consecutive little-endian words from `start` on.
pub open spec fn loaded(m: Seq<u8>, start: int, words: Seq<u32>) -> Seq<u8>
    decreases words.len(),
{
    if words.len() == 0 {
        m
    } else {
        put_word(
            loaded(m, start, words.drop_last()),
            start + 4 * (words.len() - 1),
            words.last(),
        )
    }
}

/// `e` is the fault of loading `n` words from `start` on into `len` bytes:
/// the first word that does not fit, at its address.
pub open spec fn load_fault(len: int, start: int, n: int, e: MemoryError) -> bool {
    exists|k: int|
        0 <= k < n && e == MemoryError::AddressOutOfRange((start + 4 * k) as u32)
            && !#[trigger] word_in_bounds(start + 4 * k, len) && forall|j: int|
            0 <= j < k ==> #[trigger] word_in_bounds(start + 4 * j, len)
}

/// A processor: registers, program counter, HI/LO, its cache and memory,
/// statistics, and what syscalls asked to print.
#[derive(Debug)]
pub struct Processor {
    registers: [Word; REGISTER_COUNT],
    pc: MemoryAddress,
    hi: Word,
    lo: Word,
    memory: Memory,
    cache: Cache,
    stats: ProcessorStats,
    output: Vec<ConsoleOutput>,
}

impl Processor {
    /// The stored registers.
    pub closed spec fn regs(&self) -> Seq<u32> {
        self.registers@
    }

    /// The program counter.
    pub closed spec fn spec_pc(&self) -> u32 {
        self.pc
    }

    /// The HI register.
    pub closed spec fn spec_hi(&self) -> u32 {
        self.hi
    }

    /// The LO register.
    pub closed spec fn spec_lo(&self) -> u32 {
        self.lo
    }

    /// The execution statistics.
    pub closed spec fn spec_stats(&self) -> ProcessorStats {
        self.stats
    }

    /// The cache.
    pub closed spec fn spec_cache(&self) -> Cache {
        self.cache
    }

    /// The bytes of memory itself, behind the cache.
    pub closed spec fn mem(&self) -> Seq<u8> {
        self.memory@
    }

    /// What syscalls asked to print and nobody has taken yet.
    pub closed spec fn spec_output(&self) -> Seq<ConsoleOutput> {
        self.output@
    }

    /// Register `r` as instructions read it.
    pub open spec fn reg(&self, r: int) -> u32 {
        reg_value(self.regs(), r)
    }

    /// Memory as instructions see it, through the cache.
    pub open spec fn data(&self) -> Seq<u8> {
        self.spec_cache().contents(self.mem())
    }

    /// Thirty-two registers with register 0 holding 0, a well-formed cache
    /// and memory.
    pub open spec fn wf(&self) -> bool {
        &&& self.regs().len() == 32
        &&& self.regs()[0] == 0
        &&& self.spec_cache().wf()
        &&& self.mem().len() <= ADDRESS_SPACE as int
    }

    /// The cache agrees with memory (see `Cache::coherent`).
    pub open spec fn coherent(&self) -> bool {
        self.spec_cache().coherent(self.mem())
    }

    /// The counters can take `n` more instructions without overflow.
    pub open spec fn headroom(&self, n: int) -> bool {
        &&& self.spec_cache().headroom(8 * n)
        &&& self.stats_headroom(n)
    }

    /// The statistics can count `n` more instructions without overflow.
    pub open spec fn stats_headroom(&self, n: int) -> bool {
        &&& self.spec_stats().instructions_executed + n <= u64::MAX
        &&& self.spec_stats().branches_taken + n <= u64::MAX
        &&& self.spec_stats().loads_executed + n <= u64::MAX
        &&& self.spec_stats().stores_executed + n <= u64::MAX
    }

    /// Everything but the registers is the same in both processors.
    pub open spec fn same_but_regs(&self, other: &Processor) -> bool {
        &&& self.spec_pc() == other.spec_pc()
        &&& self.spec_hi() == other.spec_hi()
        &&& self.spec_lo() == other.spec_lo()
        &&& self.spec_stats() == other.spec_stats()
        &&& self.spec_cache() == other.spec_cache()
        &&& self.mem() == other.mem()
        &&& self.spec_output() == other.spec_output()
    }

    /// Everything but the memory behind the cache is the same in both.
    pub open spec fn same_but_mem(&self, other: &Processor) -> bool {
        &&& self.regs() == other.regs()
        &&& self.spec_pc() == other.spec_pc()
        &&& self.spec_hi() == other.spec_hi()
        &&& self.spec_lo() == other.spec_lo()
        &&& self.spec_stats() == other.spec_stats()
        &&& self.spec_cache() == other.spec_cache()
        &&& self.spec_output() == other.spec_output()
    }

    /// Both processors are the same.
    pub open spec fn same_as(&self, other: &Processor) -> bool {
        &&& self.same_but_regs(other)
        &&& self.regs() == other.regs()
    }

    /// The program counter after an instruction that does not transfer
    /// control: four bytes on when the step advances it, else unchanged.
    pub open spec fn next_pc(&self, advance: bool) -> u32 {
        if advance {
            add32(self.spec_pc() as int, 4)
        } else {
            self.spec_pc()
        }
    }

    /// The statistics after an instruction that took `branches` control
    /// transfers, `loads` loads and `stores` stores, and that a step counts
    /// as executed when it advances.
    pub open spec fn counted(&self, advance: bool, branches: int, loads: int, stores: int) -> ProcessorStats {
        let st = self.spec_stats();
        ProcessorStats {
            instructions_executed: if advance {
                (st.instructions_executed + 1) as u64
            } else {
                st.instructions_executed
            },
            branches_taken: (st.branches_taken + branches) as u64,
            loads_executed: (st.loads_executed + loads) as u64,
            stores_executed: (st.stores_executed + stores) as u64,
        }
    }

    /// `new` is `self` with the given registers, program counter and
    /// statistics; HI, LO, cache and memory unchanged.
    pub open spec fn moved_to(&self, new: &Processor, regs: Seq<u32>, pc: u32, stats: ProcessorStats) -> bool {
        &&& new.regs() == regs
        &&& new.spec_pc() == pc
        &&& new.spec_stats() == stats
        &&& new.spec_hi() == self.spec_hi()
        &&& new.spec_lo() == self.spec_lo()
        &&& new.spec_cache() == self.spec_cache()
        &&& new.mem() == self.mem()
    }

    /// `new` is `self` with the given registers, program counter and
    /// statistics, and with `data` as memory seen through a coherent cache;
    /// HI, LO and the output unchanged.
    pub open spec fn accessed(&self, new: &Processor, regs: Seq<u32>, pc: u32, stats: ProcessorStats, data: Seq<u8>) -> bool {
        &&& new.regs() == regs
        &&& new.spec_pc() == pc
        &&& new.spec_stats() == stats
        &&& new.spec_hi() == self.spec_hi()
        &&& new.spec_lo() == self.spec_lo()
        &&& new.spec_output() == self.spec_output()
        &&& new.coherent()
        &&& new.data() == data
        &&& new.mem().len() == self.mem().len()
    }

    /// `new`'s output is `self`'s with the text of the NUL-terminated string
    /// at `a` in memory added.
    pub open spec fn printed_text(&self, new: &Processor, a: int) -> bool {
        let out = self.spec_output();
        &&& new.spec_output().len() == out.len() + 1
        &&& new.spec_output().take(out.len() as int) == out
        &&& new.spec_output().last() matches ConsoleOutput::Text(t) && terminated_at(
            self.mem(),
            a,
            t@.len() as int,
        ) && t@ == self.mem().subrange(a, a + t@.len())
    }

    /// `cache`, `mem` and `regs` are what a successful `read_word` of the
    /// word at `a` through the cache (see `Cache::word_read`) leaves of
    /// `self`, with that word written to register `rt`.
    pub open spec fn loaded_word(&self, cache: Cache, mem: Seq<u8>, regs: Seq<u32>, rt: int, a: int) -> bool {
        exists|w: u32|
            #[trigger] self.spec_cache().word_read(&cache, self.mem(), mem, a, w) && regs == with_reg(
                self.regs(),
                rt,
                w,
            )
    }

    /// `cache`, `mem` and `regs` are what a successful `write_word` of `v` at
    /// `a` through the cache (see `Cache::word_written`) leaves of `self`,
    /// with the registers unchanged.
    pub open spec fn stored_word(&self, cache: Cache, mem: Seq<u8>, regs: Seq<u32>, v: u32, a: int) -> bool {
        &&& self.spec_cache().word_written(&cache, self.mem(), mem, a, v)
        &&& regs == self.regs()
    }

    /// `new` and `result` are what executing `instruction` on `self` gives.
    /// With `advance`, as a step does, an instruction that completes without
    /// transferring control also moves the program counter four bytes on,
    /// and a completed instruction is counted as executed.
    pub open spec fn executed(
        &self,
        new: &Processor,
        instruction: u32,
        result: Result<bool, ProcessorError>,
        advance: bool,
    ) -> bool {
        let i = spec_decode(instruction);
        let regs = self.regs();
        let pc = self.spec_pc();
        let out = self.spec_output();
        let len = self.mem().len() as int;
        if is_alu(i) {
            &&& result == Ok::<bool, ProcessorError>(false)
            &&& self.moved_to(
                new,
                with_reg(regs, alu_dest(i), alu_value(i, regs)),
                self.next_pc(advance),
                self.counted(advance, 0, 0, 0),
            )
            &&& new.spec_output() == out
        } else if transfer_target(i, regs, pc) is Some {
            &&& result == Ok::<bool, ProcessorError>(true)
            &&& self.moved_to(
                new,
                if i is Jal {
                    with_reg(regs, RA_REGISTER as int, add32(pc as int, 4))
                } else {
                    regs
                },
                transfer_target(i, regs, pc)->Some_0,
                self.counted(advance, 1, 0, 0),
            )
            &&& new.spec_output() == out
        } else if i is Beq || i is Bne {
            &&& result == Ok::<bool, ProcessorError>(false)
            &&& self.moved_to(new, regs, self.next_pc(advance), self.counted(advance, 0, 0, 0))
            &&& new.spec_output() == out
        } else if i is Lw || i is Sw {
            let a = data_address(i, regs);
            let loads: int = if i is Lw {
                1
            } else {
                0
            };
            if !word_in_bounds(a as int, len) {
                &&& result == Err::<bool, ProcessorError>(
                    ProcessorError::MemoryError(MemoryError::AddressOutOfRange(a)),
                )
                &&& new.same_as(self)
            } else {
                &&& result is Ok ==> {
                    &&& result == Ok::<bool, ProcessorError>(false)
                    &&& new.spec_pc() == self.next_pc(advance)
                    &&& new.spec_stats() == self.counted(advance, 0, loads, 1 - loads)
                    &&& new.spec_hi() == self.spec_hi()
                    &&& new.spec_lo() == self.spec_lo()
                    &&& new.spec_output() == out
                    &&& i is Lw ==> self.loaded_word(new.spec_cache(), new.mem(), new.regs(), i->Lw_rt as int, a as int)
                    &&& i is Sw ==> self.stored_word(new.spec_cache(), new.mem(), new.regs(), reg_value(regs, i->Sw_rt as int), a as int)
                }
                &&& result is Err ==> {
                    &&& result->Err_0 is MemoryError
                    &&& new.regs() == regs
                    &&& new.spec_pc() == pc
                    &&& new.spec_stats() == self.spec_stats()
                    &&& new.spec_output() == out
                }
                &&& self.spec_cache().dirty_lines_fit(len) && word_lines_fit(a as int, len) ==> result is Ok
                &&& self.coherent() ==> {
                    &&& new.coherent()
                    &&& (result is Ok <==> word_lines_fit(a as int, len))
                    &&& result is Err ==> result == Err::<bool, ProcessorError>(
                        ProcessorError::MemoryError(MemoryError::AddressOutOfRange(len as u32)),
                    )
                    &&& (result is Ok && i is Lw) ==> new.regs() == with_reg(
                        regs,
                        i->Lw_rt as int,
                        word_at(self.data(), a as int),
                    ) && new.data() == self.data()
                    &&& (result is Ok && i is Sw) ==> new.data() == put_word(
                        self.data(),
                        a as int,
                        reg_value(regs, i->Sw_rt as int),
                    )
                }
            }
        } else if i is Syscall {
            let code = reg_value(regs, SYSCALL_CODE_REGISTER as int);
            let arg = reg_value(regs, SYSCALL_ARG_REGISTER as int);
            if code == 1 {
                &&& result == Ok::<bool, ProcessorError>(false)
                &&& self.moved_to(new, regs, self.next_pc(advance), self.counted(advance, 0, 0, 0))
                &&& new.spec_output() == out.push(ConsoleOutput::Int(signed(arg) as i32))
            } else if code == 4 {
                if has_terminator(self.mem(), arg as int) {
                    &&& result == Ok::<bool, ProcessorError>(false)
                    &&& self.moved_to(new, regs, self.next_pc(advance), self.counted(advance, 0, 0, 0))
                    &&& self.printed_text(new, arg as int)
                } else {
                    &&& result == Err::<bool, ProcessorError>(
                        ProcessorError::MemoryError(
                            MemoryError::AddressOutOfRange(first_fault(arg as int, len)),
                        ),
                    )
                    &&& new.same_as(self)
                }
            } else if code == 10 {
                &&& result == Err::<bool, ProcessorError>(ProcessorError::ProgramEnd)
                &&& new.same_as(self)
            } else if code == 11 {
                &&& result == Ok::<bool, ProcessorError>(false)
                &&& self.moved_to(new, regs, self.next_pc(advance), self.counted(advance, 0, 0, 0))
                &&& new.spec_output() == out.push(ConsoleOutput::Char((arg & 0xff) as u8))
            } else {
                &&& result == Err::<bool, ProcessorError>(
                    ProcessorError::InvalidInstruction(instruction),
                )
                &&& new.same_as(self)
            }
        } else {
            &&& result == Err::<bool, ProcessorError>(ProcessorError::InvalidInstruction(instruction))
            &&& new.same_as(self)
        }
    }

    /// `mid` is `self` after fetching `w`, the word at the program counter,
    /// through the cache (see `Cache::word_read`): the architectural state is
    /// unchanged, and with a coherent cache so is the memory it shows.
    pub open spec fn fetched(&self, mid: &Processor, w: u32) -> bool {
        &&& mid.wf()
        &&& mid.regs() == self.regs()
        &&& mid.spec_pc() == self.spec_pc()
        &&& mid.spec_hi() == self.spec_hi()
        &&& mid.spec_lo() == self.spec_lo()
        &&& mid.spec_stats() == self.spec_stats()
        &&& mid.spec_output() == self.spec_output()
        &&& mid.mem().len() == self.mem().len()
        &&& self.spec_cache().word_read(&mid.spec_cache(), self.mem(), mid.mem(), self.spec_pc() as int, w)
        &&& mid.spec_cache().grew_within(&self.spec_cache(), 4)
        &&& self.coherent() ==> mid.coherent() && mid.data() == self.data() && w == word_at(
            self.data(),
            self.spec_pc() as int,
        )
    }

    /// `new` and `result` are what a step from `self` gives: a fetch fault,
    /// or the instruction at the program counter, fetched through the cache,
    /// executed with the program counter then advanced (see `executed`).
    #[verifier::opaque]
    pub open spec fn stepped(&self, new: &Processor, result: Result<bool, ProcessorError>) -> bool {
        let pc = self.spec_pc();
        let len = self.mem().len() as int;
        &&& result == Err::<bool, ProcessorError>(ProcessorError::ProgramEnd) ==> new.reg(
            SYSCALL_CODE_REGISTER as int,
        ) == 10
        &&& !word_in_bounds(pc as int, len) ==> result == Err::<bool, ProcessorError>(
            ProcessorError::MemoryError(MemoryError::AddressOutOfRange(pc)),
        ) && new.same_as(self)
        &&& word_in_bounds(pc as int, len) ==> {
            ||| exists|mid: Processor, w: u32|
                #[trigger] self.fetched(&mid, w) && mid.executed(new, w, result, true)
            ||| {
                &&& result matches Err(ProcessorError::MemoryError(_))
                &&& new.regs() == self.regs()
                &&& new.spec_pc() == pc
                &&& new.spec_stats() == self.spec_stats()
                &&& new.spec_output() == self.spec_output()
            }
        }
        &&& word_in_bounds(pc as int, len) && self.spec_cache().dirty_lines_fit(len)
            && word_lines_fit(pc as int, len) ==> exists|mid: Processor, w: u32|
            #[trigger] self.fetched(&mid, w) && mid.executed(new, w, result, true)
        &&& self.coherent() && word_in_bounds(pc as int, len) && !word_lines_fit(pc as int, len)
            ==> {
            &&& result == Err::<bool, ProcessorError>(
                ProcessorError::MemoryError(MemoryError::AddressOutOfRange(len as u32)),
            )
            &&& new.regs() == self.regs()
            &&& new.spec_pc() == pc
            &&& new.spec_stats() == self.spec_stats()
            &&& new.spec_output() == self.spec_output()
        }
    }

    /// `trace` starts at `self` and each next state is what a step, taken
    /// from a well-formed state whose program counter is not `HALT_ADDRESS`,
    /// gives when it completes without a fault.
    pub open spec fn ran(&self, trace: Seq<Processor>) -> bool {
        &&& trace.len() >= 1
        &&& trace[0] == *self
        &&& forall|i: int|
            #![trigger trace[i]]
            0 <= i < trace.len() - 1 ==> {
                &&& trace[i].wf()
                &&& trace[i].spec_pc() != HALT_ADDRESS
                &&& (trace[i].stepped(&trace[i + 1], Ok::<bool, ProcessorError>(true))
                    || trace[i].stepped(&trace[i + 1], Ok::<bool, ProcessorError>(false)))
            }
    }

    /// `new` and `result` are what `run` from `self` gives: after a trace of
    /// steps that completed, either the program counter is `HALT_ADDRESS`, or
    /// `STEP_LIMIT + 1` steps have run, or the next step ended the program or
    /// faulted, which is then the result.
    pub open spec fn ran_to(&self, new: &Processor, result: Result<RunOutcome, ProcessorError>) -> bool {
        exists|trace: Seq<Processor>|
            #[trigger] self.ran(trace) && {
                let n = trace.len() - 1;
                let last = trace.last();
                match result {
                    Ok(RunOutcome::Halted) => n <= STEP_LIMIT && last == *new && new.spec_pc()
                        == HALT_ADDRESS,
                    Ok(RunOutcome::StepLimit) => n == STEP_LIMIT + 1 && last == *new,
                    Ok(RunOutcome::ProgramEnd) => n <= STEP_LIMIT && last.wf() && last.spec_pc()
                        != HALT_ADDRESS && last.stepped(
                        new,
                        Err::<bool, ProcessorError>(ProcessorError::ProgramEnd),
                    ),
                    Err(e) => n <= STEP_LIMIT && last.wf() && last.spec_pc() != HALT_ADDRESS
                        && last.stepped(new, Err::<bool, ProcessorError>(e)),
                }
            }
    }

    /// A processor with `memory_size` bytes of zeroed memory, an empty cache,
    /// zeroed registers but the stack pointer, and the program counter at
    /// `PC_INITIAL`.
    pub fn with_memory_size(memory_size: usize) -> (r: Self)
        requires
            memory_size as int <= ADDRESS_SPACE as int,
        ensures
            r.wf(),
            r.coherent(),
            r.spec_cache().is_empty(),
            r.spec_cache().spec_stats() == (CacheStats { hits: 0, misses: 0, writebacks: 0 }),
            r.spec_cache().counter() == 0,
            r.mem() == zeros(memory_size as nat),
            r.data() == zeros(memory_size as nat),
            forall|i: int| 0 <= i < 32 ==> #[trigger] r.reg(i) == if i == SP_REGISTER {
                SP_INITIAL
            } else {
                0
            },
            r.spec_pc() == PC_INITIAL,
            r.spec_hi() == 0,
            r.spec_lo() == 0,
            r.spec_stats() == (ProcessorStats {
                instructions_executed: 0,
                branches_taken: 0,
                loads_executed: 0,
                stores_executed: 0,
            }),
            r.spec_output().len() == 0,
    {
        let mut registers = [0u32; REGISTER_COUNT];
        registers[SP_REGISTER as usize] = SP_INITIAL;
        let r = Processor {
            registers,
            pc: PC_INITIAL,
            hi: 0,
            lo: 0,
            memory: Memory::with_size(memory_size),
            cache: Cache::new(),
            stats: ProcessorStats {
                instructions_executed: 0,
                branches_taken: 0,
                loads_executed: 0,
                stores_executed: 0,
            },
            output: Vec::new(),
        };
        assert(r.data() =~= zeros(memory_size as nat));
        r
    }

    /// A processor with `MEMORY_SIZE` bytes of memory; otherwise as
    /// `with_memory_size`.
    pub fn new() -> (r: Self)
        ensures
            r.wf(),
            r.coherent(),
            r.spec_cache().is_empty(),
            r.spec_cache().spec_stats() == (CacheStats { hits: 0, misses: 0, writebacks: 0 }),
            r.spec_cache().counter() == 0,
            r.mem() == zeros(MEMORY_SIZE as nat),
            r.data() == zeros(MEMORY_SIZE as nat),
            forall|i: int| 0 <= i < 32 ==> #[trigger] r.reg(i) == if i == SP_REGISTER {
                SP_INITIAL
            } else {
                0
            },
            r.spec_pc() == PC_INITIAL,
            r.spec_hi() == 0,
            r.spec_lo() == 0,
            r.spec_stats() == (ProcessorStats {
                instructions_executed: 0,
                branches_taken: 0,
                loads_executed: 0,
                stores_executed: 0,
            }),
            r.spec_output().len() == 0,
    {
        Self::with_memory_size(MEMORY_SIZE)
    }

    /// Reads register `reg`; register 0 reads 0.
    pub fn get_register(&self, reg: Register) -> (r: Word)
        requires
            self.wf(),
            reg < 32,
        ensures
            r == self.reg(reg as int),
    {
        if reg == 0 {
            0
        } else {
            self.registers[reg as usize]
        }
    }

    /// Writes register `reg`; a write to register 0 is ignored.
    pub fn set_register(&mut self, reg: Register, value: Word)
        requires
            old(self).wf(),
            reg < 32,
        ensures
            final(self).wf(),
            final(self).regs() == with_reg(old(self).regs(), reg as int, value),
            final(self).same_but_regs(old(self)),
    {
        if reg != 0 {
            self.registers[reg as usize] = value;
        }
    }

    /// Each statistic of `self` lies between its value in `old` and `n` more.
    pub open spec fn stats_grew_within(&self, old: &Processor, n: int) -> bool {
        let a = old.spec_stats();
        let b = self.spec_stats();
        &&& a.instructions_executed <= b.instructions_executed <= a.instructions_executed + n
        &&& a.branches_taken <= b.branches_taken <= a.branches_taken + n
        &&& a.loads_executed <= b.loads_executed <= a.loads_executed + n
        &&& a.stores_executed <= b.stores_executed <= a.stores_executed + n
    }

    /// The value an arithmetic, logic, shift or compare instruction writes.
    fn alu(&self, i: InstructionType) -> (v: Word)
        requires
            self.wf(),
            is_alu(i),
            operands_in_range(i),
        ensures
            v == alu_value(i, self.regs()),
    {
        match i {
            InstructionType::Add { rs, rt, .. } => add_wrapping(
                self.get_register(rs),
                self.get_register(rt) as i64,
            ),
            InstructionType::Sub { rs, rt, .. } => add_wrapping(
                self.get_register(rs),
                -(self.get_register(rt) as i64),
            ),
            InstructionType::And { rs, rt, .. } => self.get_register(rs) & self.get_register(rt),
            InstructionType::Or { rs, rt, .. } => self.get_register(rs) | self.get_register(rt),
            InstructionType::Slt { rs, rt, .. } => {
                if to_signed(self.get_register(rs)) < to_signed(self.get_register(rt)) {
                    1
                } else {
                    0
                }
            },
            InstructionType::Sll { rt, shamt, .. } => self.get_register(rt) << (shamt as u32),
            InstructionType::Srl { rt, shamt, .. } => self.get_register(rt) >> (shamt as u32),
            InstructionType::Addi { rs, imm, .. } => add_wrapping(self.get_register(rs), imm as i64),
            InstructionType::Slti { rs, imm, .. } => {
                if to_signed(self.get_register(rs)) < imm as i64 {
                    1
                } else {
                    0
                }
            },
            _ => 0,
        }
    }

    /// Loads the word at `address` through the cache into register `rt`.
    fn exec_load(&mut self, rt: Register, address: MemoryAddress) -> (r: Result<bool, ProcessorError>)
        requires
            old(self).wf(),
            old(self).spec_cache().headroom(4),
            old(self).stats_headroom(1),
            rt < 32,
        ensures
            final(self).spec_hi() == old(self).spec_hi(),
            final(self).spec_lo() == old(self).spec_lo(),
            final(self).spec_output() == old(self).spec_output(),
            r is Err ==> final(self).regs() == old(self).regs() && final(self).spec_stats() == old(self).spec_stats(),
            old(self).spec_cache().dirty_lines_fit(old(self).mem().len() as int) && word_in_bounds(
                address as int,
                old(self).mem().len() as int,
            ) && word_lines_fit(address as int, old(self).mem().len() as int) ==> r is Ok,
            r is Ok ==> final(self).spec_stats() == old(self).counted(false, 0, 1, 0) && old(self).loaded_word(final(self).spec_cache(), final(self).mem(), final(self).regs(), rt as int, address as int),
            final(self).wf(),
            final(self).spec_pc() == old(self).spec_pc(),
            r is Ok ==> r == Ok::<bool, ProcessorError>(false),
            r is Err ==> r->Err_0 is MemoryError,
            final(self).spec_stats().instructions_executed == old(self).spec_stats().instructions_executed,
            final(self).spec_cache().grew_within(&old(self).spec_cache(), 4),
            final(self).stats_grew_within(old(self), 1),
            final(self).mem().len() == old(self).mem().len(),
            old(self).coherent() ==> final(self).coherent(),
            !word_in_bounds(address as int, old(self).mem().len() as int) ==> r == Err::<
                bool,
                ProcessorError,
            >(ProcessorError::MemoryError(MemoryError::AddressOutOfRange(address)))
                && final(self).same_as(old(self)),
            old(self).coherent() && word_in_bounds(address as int, old(self).mem().len() as int)
                && !word_lines_fit(address as int, old(self).mem().len() as int) ==> {
                &&& r == Err::<bool, ProcessorError>(
                    ProcessorError::MemoryError(
                        MemoryError::AddressOutOfRange(old(self).mem().len() as u32),
                    ),
                )
                &&& final(self).regs() == old(self).regs()
                &&& final(self).spec_pc() == old(self).spec_pc()
                &&& final(self).spec_stats() == old(self).spec_stats()
                &&& final(self).spec_output() == old(self).spec_output()
            },
            old(self).coherent() && word_in_bounds(address as int, old(self).mem().len() as int)
                && word_lines_fit(address as int, old(self).mem().len() as int) ==> {
                &&& r == Ok::<bool, ProcessorError>(false)
                &&& old(self).accessed(
                    final(self),
                    with_reg(old(self).regs(), rt as int, word_at(old(self).data(), address as int)),
                    old(self).spec_pc(),
                    old(self).counted(false, 0, 1, 0),
                    old(self).data(),
                )
            },
    {
        let ghost c0 = self.spec_cache();
        let ghost m0 = self.mem();
        match self.cache.read_word(&mut self.memory, address) {
            Ok(value) => {
                assert(c0.word_read(&self.spec_cache(), m0, self.mem(), address as int, value));
                self.set_register(rt, value);
                self.stats.loads_executed = self.stats.loads_executed + 1;
                assert(c0.word_read(&self.spec_cache(), m0, self.mem(), address as int, value)
                    && self.regs() == with_reg(old(self).regs(), rt as int, value));
                Ok(false)
            },
            Err(e) => Err(ProcessorError::MemoryError(e)),
        }
    }

    /// Stores register `rt` as the word at `address` through the cache.
    fn exec_store(&mut self, rt: Register, address: MemoryAddress) -> (r: Result<bool, ProcessorError>)
        requires
            old(self).wf(),
            old(self).spec_cache().headroom(4),
            old(self).stats_headroom(1),
            rt < 32,
        ensures
            final(self).spec_hi() == old(self).spec_hi(),
            final(self).spec_lo() == old(self).spec_lo(),
            final(self).spec_output() == old(self).spec_output(),
            r is Err ==> final(self).regs() == old(self).regs() && final(self).spec_stats() == old(self).spec_stats(),
            old(self).spec_cache().dirty_lines_fit(old(self).mem().len() as int) && word_in_bounds(
                address as int,
                old(self).mem().len() as int,
            ) && word_lines_fit(address as int, old(self).mem().len() as int) ==> r is Ok,
            r is Ok ==> final(self).spec_stats() == old(self).counted(false, 0, 0, 1) && old(self).stored_word(final(self).spec_cache(), final(self).mem(), final(self).regs(), old(self).reg(rt as int), address as int),
            final(self).wf(),
            final(self).spec_pc() == old(self).spec_pc(),
            r is Ok ==> r == Ok::<bool, ProcessorError>(false),
            r is Err ==> r->Err_0 is MemoryError,
            final(self).spec_stats().instructions_executed == old(self).spec_stats().instructions_executed,
            final(self).spec_cache().grew_within(&old(self).spec_cache(), 4),
            final(self).stats_grew_within(old(self), 1),
            final(self).mem().len() == old(self).mem().len(),
            old(self).coherent() ==> final(self).coherent(),
            !word_in_bounds(address as int, old(self).mem().len() as int) ==> r == Err::<
                bool,
                ProcessorError,
            >(ProcessorError::MemoryError(MemoryError::AddressOutOfRange(address)))
                && final(self).same_as(old(self)),
            old(self).coherent() && word_in_bounds(address as int, old(self).mem().len() as int)
                && !word_lines_fit(address as int, old(self).mem().len() as int) ==> {
                &&& r == Err::<bool, ProcessorError>(
                    ProcessorError::MemoryError(
                        MemoryError::AddressOutOfRange(old(self).mem().len() as u32),
                    ),
                )
                &&& final(self).regs() == old(self).regs()
                &&& final(self).spec_pc() == old(self).spec_pc()
                &&& final(self).spec_stats() == old(self).spec_stats()
                &&& final(self).spec_output() == old(self).spec_output()
            },
            old(self).coherent() && word_in_bounds(address as int, old(self).mem().len() as int)
                && word_lines_fit(address as int, old(self).mem().len() as int) ==> {
                &&& r == Ok::<bool, ProcessorError>(false)
                &&& old(self).accessed(
                    final(self),
                    old(self).regs(),
                    old(self).spec_pc(),
                    old(self).counted(false, 0, 0, 1),
                    put_word(old(self).data(), address as int, old(self).reg(rt as int)),
                )
            },
    {
        let value = self.get_register(rt);
        match self.cache.write_word(&mut self.memory, address, value) {
            Ok(()) => {
                self.stats.stores_executed = self.stats.stores_executed + 1;
                Ok(false)
            },
            Err(e) => Err(ProcessorError::MemoryError(e)),
        }
    }

    /// The bytes of the NUL-terminated string at `address` in memory itself
    /// (not through the cache), without the NUL.
    fn read_string(&self, address: MemoryAddress) -> (r: Result<Vec<u8>, MemoryError>)
        requires
            self.wf(),
        ensures
            has_terminator(self.mem(), address as int) ==> r is Ok && terminated_at(
                self.mem(),
                address as int,
                r->Ok_0@.len() as int,
            ) && r->Ok_0@ == self.mem().subrange(address as int, address + r->Ok_0@.len()),
            !has_terminator(self.mem(), address as int) ==> r == Err::<Vec<u8>, MemoryError>(
                MemoryError::AddressOutOfRange(first_fault(address as int, self.mem().len() as int)),
            ),
    {
        let ghost m = self.mem();
        let mut bytes: Vec<u8> = Vec::new();
        let mut cur: u32 = address;
        loop
            invariant
                self.wf(),
                m == self.mem(),
                address <= cur,
                cur > address ==> cur <= m.len(),
                bytes@.len() == cur - address,
                forall|k: int| 0 <= k < bytes@.len() ==> #[trigger] bytes@[k] == m[address + k],
                forall|k: int| address <= k < cur ==> m[k] != 0,
            decreases u32::MAX - cur,
        {
            let b = match self.memory.read_byte(cur) {
                Ok(b) => b,
                Err(e) => {
                    proof {
                        assert forall|n: int| !terminated_at(m, address as int, n) by {
                            if terminated_at(m, address as int, n) {
                                assert(m[address + n] != 0);
                            }
                        }
                    }
                    return Err(e);
                },
            };
            if b == 0 {
                proof {
                    assert(terminated_at(m, address as int, cur - address));
                    assert(bytes@ =~= m.subrange(address as int, cur as int));
                }
                return Ok(bytes);
            }
            bytes.push(b);
            cur = cur + 1;
        }
    }

    /// Carries out a syscall, dispatching on register 2 with register 4 as
    /// the argument.
    fn exec_syscall(&mut self, instruction: Instruction) -> (r: Result<bool, ProcessorError>)
        requires
            old(self).wf(),
            spec_decode(instruction) is Syscall,
        ensures
            final(self).wf(),
            old(self).executed(final(self), instruction, r, false),
            final(self).spec_cache() == old(self).spec_cache(),
            final(self).mem() == old(self).mem(),
            final(self).spec_stats() == old(self).spec_stats(),
    {
        let code = self.get_register(SYSCALL_CODE_REGISTER);
        let arg = self.get_register(SYSCALL_ARG_REGISTER);
        if code == 1 {
            self.output.push(ConsoleOutput::Int(to_signed(arg) as i32));
            Ok(false)
        } else if code == 4 {
            match self.read_string(arg) {
                Ok(text) => {
                    let ghost out = self.output@;
                    self.output.push(ConsoleOutput::Text(text));
                    assert(self.output@.take(out.len() as int) =~= out);
                    Ok(false)
                },
                Err(e) => Err(ProcessorError::MemoryError(e)),
            }
        } else if code == 10 {
            Err(ProcessorError::ProgramEnd)
        } else if code == 11 {
            self.output.push(ConsoleOutput::Char((arg & 0xff) as u8));
            Ok(false)
        } else {
            Err(ProcessorError::InvalidInstruction(instruction))
        }
    }

    /// Decodes and executes one instruction. The program counter changes only
    /// when the instruction transfers control (a taken branch, a jump, `jr`,
    /// `jal`), and then the result is `Ok(true)`; a branch target is taken
    /// from the current program counter. Faults, and the end of the program,
    /// come back as errors.
    pub fn execute_instruction(&mut self, instruction: Instruction) -> (r: Result<bool, ProcessorError>)
        requires
            old(self).wf(),
            old(self).spec_cache().headroom(4),
            old(self).stats_headroom(1),
        ensures
            final(self).wf(),
            final(self).spec_stats().instructions_executed == old(self).spec_stats().instructions_executed,
            old(self).executed(final(self), instruction, r, false),
            r == Err::<bool, ProcessorError>(ProcessorError::ProgramEnd) ==> final(self).same_as(
                old(self),
            ) && old(self).reg(SYSCALL_CODE_REGISTER as int) == 10,
            old(self).coherent() ==> final(self).coherent(),
            final(self).spec_cache().grew_within(&old(self).spec_cache(), 4),
            final(self).stats_grew_within(old(self), 1),
            final(self).mem().len() == old(self).mem().len(),
    {
        let i = InstructionType::decode(instruction);
        match i {
            InstructionType::Add { rd, .. }
            | InstructionType::Sub { rd, .. }
            | InstructionType::And { rd, .. }
            | InstructionType::Or { rd, .. }
            | InstructionType::Slt { rd, .. }
            | InstructionType::Sll { rd, .. }
            | InstructionType::Srl { rd, .. } => {
                let value = self.alu(i);
                self.set_register(rd, value);
                Ok(false)
            },
            InstructionType::Addi { rt, .. } | InstructionType::Slti { rt, .. } => {
                let value = self.alu(i);
                self.set_register(rt, value);
                Ok(false)
            },
            InstructionType::Jr { rs } => {
                self.pc = self.get_register(rs);
                self.stats.branches_taken = self.stats.branches_taken + 1;
                Ok(true)
            },
            InstructionType::Beq { rs, rt, imm } => {
                if self.get_register(rs) == self.get_register(rt) {
                    self.pc = add_wrapping(self.pc, imm as i64 * 4);
                    self.stats.branches_taken = self.stats.branches_taken + 1;
                    Ok(true)
                } else {
                    Ok(false)
                }
            },
            InstructionType::Bne { rs, rt, imm } => {
                if self.get_register(rs) != self.get_register(rt) {
                    self.pc = add_wrapping(self.pc, imm as i64 * 4);
                    self.stats.branches_taken = self.stats.branches_taken + 1;
                    Ok(true)
                } else {
                    Ok(false)
                }
            },
            InstructionType::J { addr } => {
                self.pc = (self.pc & 0xf000_0000) | (addr << 2u32);
                self.stats.branches_taken = self.stats.branches_taken + 1;
                Ok(true)
            },
            InstructionType::Jal { addr } => {
                let link = add_wrapping(self.pc, 4);
                self.set_register(RA_REGISTER, link);
                self.pc = (self.pc & 0xf000_0000) | (addr << 2u32);
                self.stats.branches_taken = self.stats.branches_taken + 1;
                Ok(true)
            },
            InstructionType::Lw { rt, rs, imm } => {
                let address = add_wrapping(self.get_register(rs), imm as i64);
                self.exec_load(rt, address)
            },
            InstructionType::Sw { rt, rs, imm } => {
                let address = add_wrapping(self.get_register(rs), imm as i64);
                self.exec_store(rt, address)
            },
            InstructionType::Syscall => self.exec_syscall(instruction),
            InstructionType::Invalid => Err(ProcessorError::InvalidInstruction(instruction)),
        }
    }

    /// Reads the instruction word at the program counter through the cache.
    pub fn fetch_instruction(&mut self) -> (r: Result<Instruction, MemoryError>)
        requires
            old(self).wf(),
            old(self).spec_cache().headroom(4),
        ensures
            final(self).wf(),
            final(self).regs() == old(self).regs(),
            final(self).spec_pc() == old(self).spec_pc(),
            final(self).spec_hi() == old(self).spec_hi(),
            final(self).spec_lo() == old(self).spec_lo(),
            final(self).spec_stats() == old(self).spec_stats(),
            final(self).spec_output() == old(self).spec_output(),
            final(self).mem().len() == old(self).mem().len(),
            final(self).spec_cache().grew_within(&old(self).spec_cache(), 4),
            !word_in_bounds(old(self).spec_pc() as int, old(self).mem().len() as int) ==> r == Err::<
                Instruction,
                MemoryError,
            >(MemoryError::AddressOutOfRange(old(self).spec_pc())) && final(self).same_as(old(self)),
            old(self).coherent() ==> final(self).coherent() && final(self).data() == old(self).data(),
            r is Ok ==> old(self).spec_cache().word_read(
                &final(self).spec_cache(),
                old(self).mem(),
                final(self).mem(),
                old(self).spec_pc() as int,
                r->Ok_0,
            ),
            old(self).spec_cache().dirty_lines_fit(old(self).mem().len() as int) && word_in_bounds(
                old(self).spec_pc() as int,
                old(self).mem().len() as int,
            ) && word_lines_fit(old(self).spec_pc() as int, old(self).mem().len() as int) ==> r is Ok,
            old(self).coherent() && word_in_bounds(
                old(self).spec_pc() as int,
                old(self).mem().len() as int,
            ) ==> {
                &&& (r is Ok <==> word_lines_fit(old(self).spec_pc() as int, old(self).mem().len() as int))
                &&& r is Ok ==> r == Ok::<Instruction, MemoryError>(
                    word_at(old(self).data(), old(self).spec_pc() as int),
                )
                &&& r is Err ==> r == Err::<Instruction, MemoryError>(
                    MemoryError::AddressOutOfRange(old(self).mem().len() as u32),
                )
            },
    {
        self.cache.read_word(&mut self.memory, self.pc)
    }

    /// Fetches the instruction at the program counter, executes it, and
    /// moves the program counter four bytes on unless the instruction
    /// transferred control itself. Returns whether it did.
    pub fn step(&mut self) -> (r: Result<bool, ProcessorError>)
        requires
            old(self).wf(),
            old(self).headroom(1),
        ensures
            final(self).wf(),
            r is Ok ==> final(self).spec_stats().instructions_executed == old(self).spec_stats().instructions_executed + 1,
            r == Err::<bool, ProcessorError>(ProcessorError::ProgramEnd) ==> final(self).reg(
                SYSCALL_CODE_REGISTER as int,
            ) == 10,
            old(self).coherent() ==> final(self).coherent(),
            final(self).spec_cache().grew_within(&old(self).spec_cache(), 8),
            final(self).stats_grew_within(old(self), 1),
            final(self).mem().len() == old(self).mem().len(),
            old(self).stepped(final(self), r),
    {
        proof {
            reveal(Processor::stepped);
        }
        let instruction = match self.fetch_instruction() {
            Ok(instruction) => instruction,
            Err(e) => return Err(ProcessorError::MemoryError(e)),
        };
        let ghost mid = *self;
        assert(old(self).fetched(&mid, instruction));
        let branch = match self.execute_instruction(instruction) {
            Ok(branch) => branch,
            Err(e) => {
                proof {
                    assert(old(self).fetched(&mid, instruction));
                    assert(mid.executed(self, instruction, Err(e), true));
                }
                return Err(e);
            },
        };
        let ghost post = *self;
        if !branch {
            self.pc = add_wrapping(self.pc, 4);
        }
        self.stats.instructions_executed = self.stats.instructions_executed + 1;
        proof {
            assert(mid.executed(&post, instruction, Ok(branch), false));
            assert(mid.executed(self, instruction, Ok(branch), true));
        }
        Ok(branch)
    }

    /// Runs until the program counter reaches `HALT_ADDRESS`, the program
    /// ends through syscall code 10, or more than `STEP_LIMIT` instructions
    /// have run; says which. A fault aborts the run and is returned.
    pub fn run(&mut self) -> (r: Result<RunOutcome, ProcessorError>)
        requires
            old(self).wf(),
            old(self).headroom(STEP_LIMIT + 1),
        ensures
            final(self).wf(),
            old(self).coherent() ==> final(self).coherent(),
            r != Err::<RunOutcome, ProcessorError>(ProcessorError::ProgramEnd),
            r == Ok::<RunOutcome, ProcessorError>(RunOutcome::Halted) ==> final(self).spec_pc()
                == HALT_ADDRESS,
            r == Ok::<RunOutcome, ProcessorError>(RunOutcome::StepLimit) ==> final(self).spec_stats().instructions_executed == old(self).spec_stats().instructions_executed
                + STEP_LIMIT + 1,
            r == Ok::<RunOutcome, ProcessorError>(RunOutcome::ProgramEnd) ==> final(self).reg(
                SYSCALL_CODE_REGISTER as int,
            ) == 10,
            old(self).ran_to(final(self), r),
            old(self).spec_stats().instructions_executed <= final(self).spec_stats().instructions_executed
                <= old(self).spec_stats().instructions_executed + STEP_LIMIT + 1,
    {
        let mut count: u64 = 0;
        let ghost mut trace: Seq<Processor> = seq![*self];
        loop
            invariant
                self.wf(),
                count <= STEP_LIMIT,
                self.headroom(STEP_LIMIT + 1 - count),
                old(self).coherent() ==> self.coherent(),
                self.spec_stats().instructions_executed == old(self).spec_stats().instructions_executed
                    + count,
                old(self).ran(trace),
                trace.len() == count + 1,
                trace.last() == *self,
            decreases STEP_LIMIT + 1 - count,
        {
            if self.pc == HALT_ADDRESS {
                assert(old(self).ran(trace));
                return Ok(RunOutcome::Halted);
            }
            let ghost before = *self;
            match self.step() {
                Ok(b) => {
                    proof {
                        let t0 = trace;
                        trace = trace.push(*self);
                        assert forall|i: int| 0 <= i < trace.len() - 1 implies {
                            &&& trace[i].wf()
                            &&& trace[i].spec_pc() != HALT_ADDRESS
                            &&& (trace[i].stepped(&trace[i + 1], Ok::<bool, ProcessorError>(true))
                                || trace[i].stepped(&trace[i + 1], Ok::<bool, ProcessorError>(false)))
                        } by {
                            if i < t0.len() - 1 {
                                assert(t0[i] == trace[i] && t0[i + 1] == trace[i + 1]);
                            } else {
                                assert(trace[i] == before);
                            }
                        }
                        assert(old(self).ran(trace));
                    }
                },
                Err(e) => {
                    assert(old(self).ran(trace));
                    if e == ProcessorError::ProgramEnd {
                        return Ok(RunOutcome::ProgramEnd);
                    }
                    return Err(e);
                },
            }
            count = count + 1;
            if count > STEP_LIMIT {
                assert(old(self).ran(trace));
                return Ok(RunOutcome::StepLimit);
            }
        }
    }

    /// Stores `program` as consecutive words from `start_address` on, directly
    /// in memory, and sets the program counter there. A word that does not fit
    /// in memory stops the load with a fault and leaves the program counter.
    pub fn load_program(&mut self, program: &[Instruction], start_address: MemoryAddress) -> (r:
        Result<(), MemoryError>)
        requires
            old(self).wf(),
        ensures
            final(self).wf(),
            final(self).regs() == old(self).regs(),
            final(self).spec_hi() == old(self).spec_hi(),
            final(self).spec_lo() == old(self).spec_lo(),
            final(self).spec_stats() == old(self).spec_stats(),
            final(self).spec_cache() == old(self).spec_cache(),
            old(self).spec_cache().is_empty() ==> final(self).coherent(),
            final(self).spec_output() == old(self).spec_output(),
            final(self).mem().len() == old(self).mem().len(),
            (r is Ok <==> forall|k: int|
                0 <= k < program@.len() ==> #[trigger] word_in_bounds(
                    start_address + 4 * k,
                    old(self).mem().len() as int,
                )),
            r is Ok ==> {
                &&& final(self).mem() == loaded(old(self).mem(), start_address as int, program@)
                &&& final(self).spec_pc() == start_address
            },
            r matches Err(e) ==> final(self).spec_pc() == old(self).spec_pc() && load_fault(
                old(self).mem().len() as int,
                start_address as int,
                program@.len() as int,
                e,
            ),
    {
        let ghost m0 = self.mem();
        let ghost c0 = self.spec_cache();
        let mut i: usize = 0;
        while i < program.len()
            invariant
                self.wf(),
                i <= program@.len(),
                m0 == old(self).mem(),
                c0 == old(self).spec_cache(),
                self.mem().len() == m0.len(),
                self.mem() == loaded(m0, start_address as int, program@.take(i as int)),
                forall|j: int| 0 <= j < i ==> #[trigger] word_in_bounds(start_address + 4 * j, m0.len() as int),
                self.regs() == old(self).regs(),
                self.spec_pc() == old(self).spec_pc(),
                self.spec_hi() == old(self).spec_hi(),
                self.spec_lo() == old(self).spec_lo(),
                self.spec_stats() == old(self).spec_stats(),
                self.spec_cache() == c0,
                self.spec_output() == old(self).spec_output(),
            decreases program@.len() - i,
        {
            proof {
                if i > 0 {
                    assert(word_in_bounds(start_address + 4 * (i - 1), m0.len() as int));
                }
            }
            let address = start_address + (i as u32) * 4;
            match self.memory.write_instruction(address, program[i]) {
                Ok(()) => {},
                Err(e) => {
                    proof {
                        let k = i as int;
                        assert(!word_in_bounds(start_address + 4 * k, m0.len() as int));
                        assert(e == MemoryError::AddressOutOfRange((start_address + 4 * k) as u32));
                    }
                    return Err(e);
                },
            }
            proof {
                assert(program@.take(i + 1).drop_last() =~= program@.take(i as int));
            }
            i = i + 1;
        }
        assert(program@.take(program@.len() as int) =~= program@);
        self.pc = start_address;
        Ok(())
    }

    /// Reads the word at `address` from memory itself, not through the cache.
    pub fn read_memory(&self, address: MemoryAddress) -> (r: Result<Word, MemoryError>)
        ensures
            word_in_bounds(address as int, self.mem().len() as int) ==> r == Ok::<Word, MemoryError>(
                word_at(self.mem(), address as int),
            ),
            !word_in_bounds(address as int, self.mem().len() as int) ==> r == Err::<Word, MemoryError>(
                MemoryError::AddressOutOfRange(address),
            ),
    {
        self.memory.read_word(address)
    }

    /// Writes the word at `address` in memory itself, not through the cache;
    /// the cache is left as it is.
    pub fn write_memory(&mut self, address: MemoryAddress, value: Word) -> (r: Result<(), MemoryError>)
        requires
            old(self).wf(),
        ensures
            final(self).wf(),
            final(self).same_but_mem(old(self)),
            word_in_bounds(address as int, old(self).mem().len() as int) ==> r is Ok && final(self).mem()
                == put_word(old(self).mem(), address as int, value),
            !word_in_bounds(address as int, old(self).mem().len() as int) ==> r == Err::<(), MemoryError>(
                MemoryError::AddressOutOfRange(address),
            ) && final(self).mem() == old(self).mem(),
            old(self).spec_cache().is_empty() ==> final(self).coherent(),
    {
        self.memory.write_word(address, value)
    }

    /// Sets the execution and cache statistics to zero.
    pub fn reset_stats(&mut self)
        requires
            old(self).wf(),
        ensures
            final(self).wf(),
            final(self).spec_stats() == (ProcessorStats {
                instructions_executed: 0,
                branches_taken: 0,
                loads_executed: 0,
                stores_executed: 0,
            }),
            final(self).spec_cache().spec_stats() == (CacheStats { hits: 0, misses: 0, writebacks: 0 }),
            final(self).spec_cache().same_lines(&old(self).spec_cache()),
            final(self).spec_cache().counter() == old(self).spec_cache().counter(),
            final(self).regs() == old(self).regs(),
            final(self).spec_pc() == old(self).spec_pc(),
            final(self).mem() == old(self).mem(),
            final(self).spec_output() == old(self).spec_output(),
            old(self).coherent() ==> final(self).coherent() && final(self).data() == old(self).data(),
    {
        self.stats = ProcessorStats {
            instructions_executed: 0,
            branches_taken: 0,
            loads_executed: 0,
            stores_executed: 0,
        };
        self.cache.reset_stats();
        proof {
            let c0 = old(self).spec_cache();
            let c1 = self.spec_cache();
            assert forall|b: int| 0 <= b < self.mem().len() implies c1.cached_byte(self.mem(), b) == c0.cached_byte(self.mem(), b) by {
            }
            assert(c1.contents(self.mem()) =~= c0.contents(self.mem()));
        }
    }

    /// Takes what syscalls asked to print, oldest first, leaving none.
    pub fn take_output(&mut self) -> (r: Vec<ConsoleOutput>)
        ensures
            r@ == old(self).spec_output(),
            final(self).spec_output().len() == 0,
            final(self).regs() == old(self).regs(),
            final(self).spec_pc() == old(self).spec_pc(),
            final(self).spec_hi() == old(self).spec_hi(),
            final(self).spec_lo() == old(self).spec_lo(),
            final(self).spec_stats() == old(self).spec_stats(),
            final(self).spec_cache() == old(self).spec_cache(),
            final(self).mem() == old(self).mem(),
    {
        let mut taken: Vec<ConsoleOutput> = Vec::new();
        core::mem::swap(&mut taken, &mut self.output);
        taken
    }

    /// Whether the counters can take a whole `run` without overflow.
    pub fn can_run(&self) -> (r: bool)
        ensures
            r == self.headroom(STEP_LIMIT + 1),
    {
        let n: u64 = STEP_LIMIT + 1;
        let cache_stats = self.cache.get_stats();
        self.cache.access_count() <= u64::MAX - 8 * n && cache_stats.hits <= u64::MAX - 8 * n
            && cache_stats.misses <= u64::MAX - 8 * n && cache_stats.writebacks <= u64::MAX - 8 * n
            && self.stats.instructions_executed <= u64::MAX - n && self.stats.branches_taken
            <= u64::MAX - n && self.stats.loads_executed <= u64::MAX - n
            && self.stats.stores_executed <= u64::MAX - n
    }

    /// The program counter.
    pub fn get_pc(&self) -> (r: MemoryAddress)
        ensures
            r == self.spec_pc(),
    {
        self.pc
    }

    /// Sets the program counter.
    pub fn set_pc(&mut self, pc: MemoryAddress)
        ensures
            final(self).spec_pc() == pc,
            final(self).regs() == old(self).regs(),
            final(self).spec_hi() == old(self).spec_hi(),
            final(self).spec_lo() == old(self).spec_lo(),
            final(self).spec_stats() == old(self).spec_stats(),
            final(self).spec_cache() == old(self).spec_cache(),
            final(self).mem() == old(self).mem(),
            final(self).spec_output() == old(self).spec_output(),
    {
        self.pc = pc;
    }

    /// The HI register.
    pub fn get_hi(&self) -> (r: Word)
        ensures
            r == self.spec_hi(),
    {
        self.hi
    }

    /// The LO register.
    pub fn get_lo(&self) -> (r: Word)
        ensures
            r == self.spec_lo(),
    {
        self.lo
    }

    /// The execution statistics.
    pub fn get_stats(&self) -> (r: &ProcessorStats)
        ensures
            *r == self.spec_stats(),
    {
        &self.stats
    }

    /// The cache's statistics.
    pub fn get_cache_stats(&self) -> (r: &CacheStats)
        ensures
            *r == self.spec_cache().spec_stats(),
    {
        self.cache.get_stats()
    }
}

/// Register 0 reads 0 whatever was written to it.
pub proof fn lemma_register_zero(regs: Seq<u32>, v: u32)
    ensures
        reg_value(with_reg(regs, 0, v), 0) == 0,
{
}

/// Executing an instruction on its own moves the program counter only when
/// the instruction transfers control.
pub proof fn lemma_execute_keeps_pc(
    old: Processor,
    new: Processor,
    instruction: u32,
    r: Result<bool, ProcessorError>,
)
    requires
        old.executed(&new, instruction, r, false),
        r != Ok::<bool, ProcessorError>(true),
    ensures
        new.spec_pc() == old.spec_pc(),
{
}

/// Executing `beq` or `bne` takes the branch exactly when its condition
/// holds. A taken branch leaves the program counter at the target computed
/// from the program counter the branch was fetched at, with nothing added,
/// and counts a control transfer; a branch not taken leaves it where a step
/// would (four bytes on) or, executed on its own, where it was.
pub proof fn lemma_branch_target(
    mid: Processor,
    new: Processor,
    instruction: u32,
    r: Result<bool, ProcessorError>,
    advance: bool,
)
    requires
        mid.executed(&new, instruction, r, advance),
        spec_decode(instruction) is Beq || spec_decode(instruction) is Bne,
    ensures
        ({
            let i = spec_decode(instruction);
            let (rs, rt, imm) = match i {
                InstructionType::Beq { rs, rt, imm } => (rs, rt, imm),
                InstructionType::Bne { rs, rt, imm } => (rs, rt, imm),
                _ => (0u8, 0u8, 0i16),
            };
            let equal = mid.reg(rs as int) == mid.reg(rt as int);
            let taken = if i is Beq {
                equal
            } else {
                !equal
            };
            &&& r == Ok::<bool, ProcessorError>(taken)
            &&& new.regs() == mid.regs()
            &&& taken ==> new.spec_pc() == add32(mid.spec_pc() as int, imm as int * 4)
                && new.spec_stats().branches_taken == (mid.spec_stats().branches_taken + 1) as u64
            &&& !taken ==> new.spec_pc() == mid.next_pc(advance)
                && new.spec_stats().branches_taken == mid.spec_stats().branches_taken
        }),
{
}

/// A step that fetches `beq` or `bne` through a coherent cache takes the
/// branch exactly when its condition holds; a taken branch leaves the
/// program counter at the target computed from the program counter the
/// branch was fetched at, with no four added, and a branch not taken moves
/// it four bytes on.
pub proof fn lemma_step_branch(p: Processor, new: Processor, r: Result<bool, ProcessorError>)
    requires
        p.wf(),
        p.coherent(),
        p.stepped(&new, r),
        word_in_bounds(p.spec_pc() as int, p.mem().len() as int),
        word_lines_fit(p.spec_pc() as int, p.mem().len() as int),
        spec_decode(word_at(p.data(), p.spec_pc() as int)) is Beq || spec_decode(
            word_at(p.data(), p.spec_pc() as int),
        ) is Bne,
    ensures
        ({
            let i = spec_decode(word_at(p.data(), p.spec_pc() as int));
            let (rs, rt, imm) = match i {
                InstructionType::Beq { rs, rt, imm } => (rs, rt, imm),
                InstructionType::Bne { rs, rt, imm } => (rs, rt, imm),
                _ => (0u8, 0u8, 0i16),
            };
            let equal = p.reg(rs as int) == p.reg(rt as int);
            let taken = if i is Beq {
                equal
            } else {
                !equal
            };
            &&& r == Ok::<bool, ProcessorError>(taken)
            &&& taken ==> new.spec_pc() == add32(p.spec_pc() as int, imm as int * 4)
            &&& !taken ==> new.spec_pc() == add32(p.spec_pc() as int, 4)
        }),
{
    reveal(Processor::stepped);
    lemma_coherent_dirty_lines_fit(p.spec_cache(), p.mem());
    let (mid, w) = choose|mid: Processor, w: u32|
        #[trigger] p.fetched(&mid, w) && mid.executed(&new, w, r, true);
    lemma_branch_target(mid, new, w, r, true);
}

} // verus!
