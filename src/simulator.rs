//! The simulator: a configured processor that loads a program and runs it.

use vstd::prelude::*;
use crate::cache::CacheStats;
use crate::instructions::Instruction;
use crate::program::{skip_space, trim_end, skip_space_from, trim_end_from};
use vstd::string::StringSliceAdditionalSpecFns;
use crate::memory::{MemoryAddress, MemoryError, ADDRESS_SPACE, word_at, word_in_bounds, zeros};
use crate::cache::word_lines_fit;
use crate::processor::{
    ConsoleOutput, Processor, ProcessorError, ProcessorStats, RunOutcome, HALT_ADDRESS, PC_INITIAL,
    STEP_LIMIT, SYSCALL_CODE_REGISTER, load_fault, loaded,
};

verus! {

/// The memory size of the default configuration (16 MiB).
pub const DEFAULT_MEMORY_SIZE: usize = 16777216;

/// How a simulator is set up.
#[derive(Debug, Clone, Copy)]
pub struct SimulatorConfig {
    /// Memory size in bytes.
    pub memory_size: usize,
    /// Where the program is loaded and starts.
    pub program_start: MemoryAddress,
    /// Whether the driver reports more as it goes.
    pub debug_mode: bool,
    /// Whether the driver runs one instruction at a time on request.
    pub step_mode: bool,
}

impl Default for SimulatorConfig {
    fn default() -> (r: Self)
        ensures
            r.memory_size == DEFAULT_MEMORY_SIZE,
            r.program_start == PC_INITIAL,
            !r.debug_mode,
            !r.step_mode,
    {
        SimulatorConfig {
            memory_size: DEFAULT_MEMORY_SIZE,
            program_start: PC_INITIAL,
            debug_mode: false,
            step_mode: false,
        }
    }
}

/// A failure of the simulator.
#[derive(Debug, Clone)]
pub enum SimulatorError {
    /// The program file could not be read.
    FileError(String),
    /// The program text is not a list of hexadecimal words.
    ParseError(String),
    MemoryError(MemoryError),
    ProcessorError(ProcessorError),
}

/// What the user asked for in step mode.
#[derive(Debug, Clone, Copy, PartialEq, Eq, Structural)]
pub enum StepCommand {
    /// Execute the next instruction.
    Execute,
    /// Stop stepping.
    Quit,
    /// Show the processor state.
    ShowState,
}

/// The command an input line gives once white space is trimmed: `q` quits,
/// `s` shows the state, anything else executes one instruction.
pub open spec fn spec_step_command(s: Seq<u8>) -> StepCommand {
    let a = skip_space(s, 0);
    let t = s.subrange(a, trim_end(s, a, s.len() as int));
    if t == seq![113u8] {
        StepCommand::Quit
    } else if t == seq![115u8] {
        StepCommand::ShowState
    } else {
        StepCommand::Execute
    }
}

/// Reads a step-mode input line.
pub fn step_command(input: &str) -> (r: StepCommand)
    ensures
        r == spec_step_command(input.spec_bytes()),
{
    let s = input.as_bytes();
    let a = skip_space_from(s, 0);
    let e = trim_end_from(s, a, s.len());
    let ghost t = s@.subrange(a as int, e as int);
    if e - a == 1 && s[a] == 113 {
        assert(t =~= seq![113u8]);
        StepCommand::Quit
    } else if e - a == 1 && s[a] == 115 {
        assert(t =~= seq![115u8]);
        assert(seq![113u8][0] == 113u8 && t[0] == 115u8);

        StepCommand::ShowState
    } else {
        proof {
            let q = seq![113u8];
            let w = seq![115u8];
            assert(q.len() == 1 && q[0] == 113);
            assert(w.len() == 1 && w[0] == 115);
            if e - a == 1 {
                assert(t[0] == s@[a as int]);
            }
            if t == q {
                assert(t.len() == 1 && t[0] == 113);
            }
            if t == w {
                assert(t.len() == 1 && t[0] == 115);
            }
        }
        StepCommand::Execute
    }
}

/// A processor set up by a configuration.
#[derive(Debug)]
pub struct MipsSimulator {
    processor: Processor,
    config: SimulatorConfig,
}

impl MipsSimulator {
    /// The processor.
    pub closed spec fn spec_processor(&self) -> Processor {
        self.processor
    }

    /// The configuration.
    pub closed spec fn spec_config(&self) -> SimulatorConfig {
        self.config
    }

    /// A simulator with a new processor of `config.memory_size` bytes of memory.
    pub fn new(config: SimulatorConfig) -> (r: Self)
        requires
            config.memory_size as int <= ADDRESS_SPACE as int,
        ensures
            r.spec_config() == config,
            r.spec_processor().wf(),
            r.spec_processor().coherent(),
            r.spec_processor().spec_cache().is_empty(),
            r.spec_processor().mem() == zeros(config.memory_size as nat),
            r.spec_processor().spec_pc() == PC_INITIAL,
            r.spec_processor().headroom(STEP_LIMIT + 1),
    {
        let processor = Processor::with_memory_size(config.memory_size);
        MipsSimulator { processor, config }
    }

    /// A simulator with the default configuration.
    pub fn new_default() -> (r: Self)
        ensures
            r.spec_config().memory_size == DEFAULT_MEMORY_SIZE,
            r.spec_config().program_start == PC_INITIAL,
            r.spec_processor().wf(),
            r.spec_processor().coherent(),
            r.spec_processor().spec_cache().is_empty(),
            r.spec_processor().mem() == zeros(DEFAULT_MEMORY_SIZE as nat),
            r.spec_processor().spec_pc() == PC_INITIAL,
            r.spec_processor().headroom(STEP_LIMIT + 1),
    {
        Self::new(SimulatorConfig::default())
    }

    /// Loads `program` at the configured start address and points the
    /// program counter there.
    pub fn load_program(&mut self, program: &[Instruction]) -> (r: Result<(), SimulatorError>)
        requires
            old(self).spec_processor().wf(),
        ensures
            final(self).spec_processor().wf(),
            final(self).spec_config() == old(self).spec_config(),
            ({
                let start = old(self).spec_config().program_start as int;
                let m = old(self).spec_processor().mem();
                &&& (r is Ok <==> forall|k: int|
                    0 <= k < program@.len() ==> #[trigger] word_in_bounds(
                        start + 4 * k,
                        m.len() as int,
                    ))
                &&& r is Ok ==> final(self).spec_processor().mem() == loaded(m, start, program@)
                    && final(self).spec_processor().spec_pc() == start
                &&& r is Err ==> r->Err_0 is MemoryError
                &&& r matches Err(SimulatorError::MemoryError(e)) ==> {
                    &&& final(self).spec_processor().spec_pc() == old(self).spec_processor().spec_pc()
                    &&& load_fault(m.len() as int, start, program@.len() as int, e)
                }
            }),
            final(self).spec_processor().spec_cache() == old(self).spec_processor().spec_cache(),
            old(self).spec_processor().spec_cache().is_empty() ==> final(self).spec_processor().coherent(),
            final(self).spec_processor().regs() == old(self).spec_processor().regs(),
            final(self).spec_processor().spec_stats() == old(self).spec_processor().spec_stats(),
    {
        match self.processor.load_program(program, self.config.program_start) {
            Ok(()) => Ok(()),
            Err(e) => Err(SimulatorError::MemoryError(e)),
        }
    }

    /// Whether the counters can take a whole `run` without overflow.
    pub fn can_run(&self) -> (r: bool)
        ensures
            r == self.spec_processor().headroom(STEP_LIMIT + 1),
    {
        self.processor.can_run()
    }

    /// Runs the program to completion (see `Processor::run`). Running one
    /// instruction at a time, as the step mode asks, goes through `step`.
    pub fn run(&mut self) -> (r: Result<RunOutcome, SimulatorError>)
        requires
            old(self).spec_processor().wf(),
            old(self).spec_processor().headroom(STEP_LIMIT + 1),
        ensures
            final(self).spec_processor().wf(),
            final(self).spec_config() == old(self).spec_config(),
            old(self).spec_processor().coherent() ==> final(self).spec_processor().coherent(),
            r is Err ==> (r->Err_0 matches SimulatorError::ProcessorError(e) && e
                != ProcessorError::ProgramEnd),
            match r {
                Ok(outcome) => old(self).spec_processor().ran_to(
                    &final(self).spec_processor(),
                    Ok::<RunOutcome, ProcessorError>(outcome),
                ),
                Err(SimulatorError::ProcessorError(e)) => old(self).spec_processor().ran_to(
                    &final(self).spec_processor(),
                    Err::<RunOutcome, ProcessorError>(e),
                ),
                Err(_) => false,
            },
            r == Ok::<RunOutcome, SimulatorError>(RunOutcome::Halted) ==> {
                final(self).spec_processor().spec_pc() == HALT_ADDRESS
            },
            r == Ok::<RunOutcome, SimulatorError>(RunOutcome::ProgramEnd) ==> {
                final(self).spec_processor().reg(SYSCALL_CODE_REGISTER as int) == 10
            },
            r == Ok::<RunOutcome, SimulatorError>(RunOutcome::StepLimit) ==> {
                let before = old(self).spec_processor().spec_stats().instructions_executed;
                final(self).spec_processor().spec_stats().instructions_executed == before
                    + STEP_LIMIT + 1
            },
    {
        match self.processor.run() {
            Ok(outcome) => Ok(outcome),
            Err(e) => Err(SimulatorError::ProcessorError(e)),
        }
    }

    /// Reads the instruction word at the program counter through the cache
    /// (see `Processor::fetch_instruction`).
    pub fn fetch_instruction(&mut self) -> (r: Result<Instruction, MemoryError>)
        requires
            old(self).spec_processor().wf(),
            old(self).spec_processor().headroom(1),
        ensures
            final(self).spec_processor().wf(),
            final(self).spec_processor().headroom(0),
            final(self).spec_config() == old(self).spec_config(),
            final(self).spec_processor().regs() == old(self).spec_processor().regs(),
            final(self).spec_processor().spec_pc() == old(self).spec_processor().spec_pc(),
            final(self).spec_processor().spec_stats() == old(self).spec_processor().spec_stats(),
            old(self).spec_processor().coherent() ==> final(self).spec_processor().coherent()
                && final(self).spec_processor().data() == old(self).spec_processor().data(),
            ({
                let p = old(self).spec_processor();
                let len = p.mem().len() as int;
                &&& !word_in_bounds(p.spec_pc() as int, len) ==> r == Err::<Instruction, MemoryError>(
                    MemoryError::AddressOutOfRange(p.spec_pc()),
                )
                &&& word_in_bounds(p.spec_pc() as int, len) && p.spec_cache().dirty_lines_fit(len)
                    && word_lines_fit(p.spec_pc() as int, len) ==> r is Ok
                &&& r is Ok ==> p.spec_cache().word_read(
                    &final(self).spec_processor().spec_cache(),
                    p.mem(),
                    final(self).spec_processor().mem(),
                    p.spec_pc() as int,
                    r->Ok_0,
                )
                &&& p.coherent() && word_in_bounds(p.spec_pc() as int, len) ==> {
                    &&& (r is Ok <==> word_lines_fit(p.spec_pc() as int, len))
                    &&& r is Ok ==> r == Ok::<Instruction, MemoryError>(word_at(p.data(), p.spec_pc() as int))
                }
            }),
    {
        self.processor.fetch_instruction()
    }

    /// Executes one instruction (see `Processor::step`).
    pub fn step(&mut self) -> (r: Result<bool, ProcessorError>)
        requires
            old(self).spec_processor().wf(),
            old(self).spec_processor().headroom(1),
        ensures
            final(self).spec_processor().wf(),
            final(self).spec_config() == old(self).spec_config(),
            old(self).spec_processor().stepped(&final(self).spec_processor(), r),
            old(self).spec_processor().coherent() ==> final(self).spec_processor().coherent(),
            final(self).spec_processor().stats_grew_within(&old(self).spec_processor(), 1),
            final(self).spec_processor().spec_cache().grew_within(
                &old(self).spec_processor().spec_cache(),
                8,
            ),
    {
        self.processor.step()
    }

    /// Takes what syscalls asked to print, oldest first, leaving none.
    pub fn take_output(&mut self) -> (r: Vec<ConsoleOutput>)
        ensures
            r@ == old(self).spec_processor().spec_output(),
            final(self).spec_processor().spec_output().len() == 0,
            final(self).spec_config() == old(self).spec_config(),
            final(self).spec_processor().wf() == old(self).spec_processor().wf(),
            final(self).spec_processor().coherent() == old(self).spec_processor().coherent(),
            final(self).spec_processor().headroom(STEP_LIMIT + 1) == old(self).spec_processor().headroom(STEP_LIMIT + 1),
    {
        self.processor.take_output()
    }

    /// The processor.
    pub fn processor(&self) -> (r: &Processor)
        ensures
            *r == self.spec_processor(),
    {
        &self.processor
    }

    /// The execution statistics.
    pub fn get_stats(&self) -> (r: &ProcessorStats)
        ensures
            *r == self.spec_processor().spec_stats(),
    {
        self.processor.get_stats()
    }

    /// The cache statistics.
    pub fn get_cache_stats(&self) -> (r: &CacheStats)
        ensures
            *r == self.spec_processor().spec_cache().spec_stats(),
    {
        self.processor.get_cache_stats()
    }

    /// The configuration.
    pub fn get_config(&self) -> (r: &SimulatorConfig)
        ensures
            *r == self.spec_config(),
    {
        &self.config
    }

    /// Replaces the configuration; the processor stays as it is.
    pub fn set_config(&mut self, config: SimulatorConfig)
        ensures
            final(self).spec_config() == config,
            final(self).spec_processor() == old(self).spec_processor(),
    {
        self.config = config;
    }
}

} // verus!
