use mips_sim::memory::MemoryError;
use mips_sim::processor::{
    ConsoleOutput, Processor, ProcessorError, RunOutcome, HALT_ADDRESS, PC_INITIAL, SP_INITIAL,
    STEP_LIMIT,
};

fn r_type(rs: u32, rt: u32, rd: u32, shamt: u32, funct: u32) -> u32 {
    (rs << 21) | (rt << 16) | (rd << 11) | (shamt << 6) | funct
}

fn i_type(op: u32, rs: u32, rt: u32, imm: i16) -> u32 {
    (op << 26) | (rs << 21) | (rt << 16) | (imm as u16 as u32)
}

const SYSCALL: u32 = 0x0000_000c;

fn machine(program: &[u32]) -> Processor {
    let mut p = Processor::with_memory_size(0x0050_0000);
    p.load_program(program, PC_INITIAL).unwrap();
    p
}

#[test]
fn test_processor_creation() {
    let processor = Processor::new();
    assert_eq!(processor.get_pc(), PC_INITIAL);
    assert_eq!(processor.get_register(0), 0);
    assert_eq!(processor.get_register(29), SP_INITIAL);
}

#[test]
fn test_register_operations() {
    let mut processor = Processor::new();
    processor.set_register(1, 0x12345678);
    assert_eq!(processor.get_register(1), 0x12345678);
    processor.set_register(0, 0xFFFFFFFF);
    assert_eq!(processor.get_register(0), 0);
}

#[test]
fn test_add_instruction() {
    let mut processor = Processor::new();
    let instruction = 0x00430820u32;
    processor.set_register(2, 10);
    processor.set_register(3, 20);
    processor.execute_instruction(instruction).unwrap();
    assert_eq!(processor.get_register(1), 30);
}

#[test]
fn register_zero_ignores_every_write() {
    let mut p = Processor::new();
    for v in [1u32, 0x8000_0000, 0xffff_ffff] {
        p.set_register(0, v);
        assert_eq!(p.get_register(0), 0);
    }
    // an instruction writing $0 is ignored too: addi $0, $0, 5
    p.execute_instruction(i_type(0x08, 0, 0, 5)).unwrap();
    assert_eq!(p.get_register(0), 0);
}

#[test]
fn execute_alone_keeps_pc() {
    let mut p = Processor::new();
    p.set_register(2, 10);
    p.set_register(3, 20);
    assert_eq!(p.execute_instruction(0x00430820), Ok(false));
    assert_eq!(p.get_register(1), 30);
    assert_eq!(p.get_pc(), PC_INITIAL);
    assert_eq!(p.get_stats().instructions_executed, 0);
}

#[test]
fn arithmetic_wraps_and_compares_signed() {
    let mut p = Processor::new();
    p.set_register(2, 0);
    p.set_register(3, 1);
    // sub $1, $2, $3
    p.execute_instruction(r_type(2, 3, 1, 0, 0x22)).unwrap();
    assert_eq!(p.get_register(1), 0xffff_ffff);
    // add $4, $1, $3
    p.execute_instruction(r_type(1, 3, 4, 0, 0x20)).unwrap();
    assert_eq!(p.get_register(4), 0);
    // slt $5, $1, $3 : -1 < 1
    p.execute_instruction(r_type(1, 3, 5, 0, 0x2a)).unwrap();
    assert_eq!(p.get_register(5), 1);
    // slt $5, $3, $1 : 1 < -1 is false
    p.execute_instruction(r_type(3, 1, 5, 0, 0x2a)).unwrap();
    assert_eq!(p.get_register(5), 0);
    // addi $6, $0, -5
    p.execute_instruction(i_type(0x08, 0, 6, -5)).unwrap();
    assert_eq!(p.get_register(6), 0xffff_fffb);
    // slti $7, $6, -4 : -5 < -4
    p.execute_instruction(i_type(0x0a, 6, 7, -4)).unwrap();
    assert_eq!(p.get_register(7), 1);
    // slti $7, $6, -5 : -5 < -5 is false
    p.execute_instruction(i_type(0x0a, 6, 7, -5)).unwrap();
    assert_eq!(p.get_register(7), 0);
}

#[test]
fn logic_and_shifts() {
    let mut p = Processor::new();
    p.set_register(2, 0xf0f0_00ff);
    p.set_register(3, 0x0ff0_0f0f);
    p.execute_instruction(r_type(2, 3, 1, 0, 0x24)).unwrap();
    assert_eq!(p.get_register(1), 0x00f0_000f);
    p.execute_instruction(r_type(2, 3, 1, 0, 0x25)).unwrap();
    assert_eq!(p.get_register(1), 0xfff0_0fff);
    // sll $1, $3, 4
    p.execute_instruction(r_type(0, 3, 1, 4, 0x00)).unwrap();
    assert_eq!(p.get_register(1), 0xff00_f0f0);
    // srl $1, $2, 31
    p.execute_instruction(r_type(0, 2, 1, 31, 0x02)).unwrap();
    assert_eq!(p.get_register(1), 1);
}

#[test]
fn taken_branch_uses_fetch_pc_without_adding_four() {
    // beq $1, $2, 3
    let mut p = machine(&[i_type(0x04, 1, 2, 3)]);
    assert_eq!(p.step(), Ok(true));
    assert_eq!(p.get_pc(), PC_INITIAL + 12);
    assert_eq!(p.get_stats().branches_taken, 1);
    assert_eq!(p.get_stats().instructions_executed, 1);
}

#[test]
fn branch_not_taken_moves_on_four() {
    let mut p = machine(&[i_type(0x04, 1, 2, 3)]);
    p.set_register(1, 7);
    assert_eq!(p.step(), Ok(false));
    assert_eq!(p.get_pc(), PC_INITIAL + 4);
    assert_eq!(p.get_stats().branches_taken, 0);
}

#[test]
fn bne_backwards() {
    // bne $1, $0, -1
    let mut p = machine(&[i_type(0x05, 1, 0, -1)]);
    p.set_register(1, 1);
    assert_eq!(p.step(), Ok(true));
    assert_eq!(p.get_pc(), PC_INITIAL - 4);
}

#[test]
fn jumps_and_links() {
    // jal 0x100004 ; then at 0x400010: jr $31
    let mut program = vec![0x0c10_0004u32, 0, 0, 0];
    program.push(r_type(31, 0, 0, 0, 0x08));
    let mut p = machine(&program);
    assert_eq!(p.step(), Ok(true));
    assert_eq!(p.get_pc(), 0x0040_0010);
    assert_eq!(p.get_register(31), PC_INITIAL + 4);
    assert_eq!(p.step(), Ok(true));
    assert_eq!(p.get_pc(), PC_INITIAL + 4);
    // j keeps the top four bits of the pc
    let mut q = Processor::new();
    q.set_pc(0x9000_0000);
    assert_eq!(q.execute_instruction(0x0810_0004), Ok(true));
    assert_eq!(q.get_pc(), 0x9040_0010);
}

#[test]
fn load_and_store_through_cache() {
    let mut p = Processor::new();
    p.set_register(2, 0x1000);
    p.set_register(1, 0xcafe_babe);
    // sw $1, 8($2)
    assert_eq!(p.execute_instruction(i_type(0x2b, 2, 1, 8)), Ok(false));
    // lw $3, 8($2)
    assert_eq!(p.execute_instruction(i_type(0x23, 2, 3, 8)), Ok(false));
    assert_eq!(p.get_register(3), 0xcafe_babe);
    // memory itself has not seen the store yet
    assert_eq!(p.read_memory(0x1008), Ok(0));
    assert_eq!(p.get_stats().loads_executed, 1);
    assert_eq!(p.get_stats().stores_executed, 1);
    // lw $4, -8($2) reads a byte address below the base
    p.write_memory(0x0ff8, 77).unwrap();
    p.execute_instruction(i_type(0x23, 2, 4, -8)).unwrap();
    assert_eq!(p.get_register(4), 77);
}

#[test]
fn load_out_of_range_faults() {
    let mut p = Processor::new();
    p.set_register(2, 0x0010_0000);
    assert_eq!(
        p.execute_instruction(i_type(0x23, 2, 3, 0)),
        Err(ProcessorError::MemoryError(MemoryError::AddressOutOfRange(0x0010_0000)))
    );
    assert_eq!(p.get_register(3), 0);
}

#[test]
fn invalid_instruction_faults() {
    let mut p = Processor::new();
    assert_eq!(p.execute_instruction(0xffff_ffff), Err(ProcessorError::InvalidInstruction(0xffff_ffff)));
    p.set_register(2, 99);
    assert_eq!(p.execute_instruction(SYSCALL), Err(ProcessorError::InvalidInstruction(SYSCALL)));
}

#[test]
fn syscalls_print() {
    let mut p = Processor::new();
    p.set_register(2, 1);
    p.set_register(4, 0xffff_fff6);
    assert_eq!(p.execute_instruction(SYSCALL), Ok(false));
    p.set_register(2, 11);
    p.set_register(4, 0x141);
    assert_eq!(p.execute_instruction(SYSCALL), Ok(false));
    p.write_memory(0x200, 0x0069_6869).unwrap();
    p.set_register(2, 4);
    p.set_register(4, 0x200);
    assert_eq!(p.execute_instruction(SYSCALL), Ok(false));
    let out = p.take_output();
    assert_eq!(out.len(), 3);
    assert!(matches!(out[0], ConsoleOutput::Int(-10)));
    assert!(matches!(out[1], ConsoleOutput::Char(0x41)));
    match &out[2] {
        ConsoleOutput::Text(t) => assert_eq!(t, &vec![0x69u8, 0x68, 0x69]),
        _ => panic!("expected text"),
    }
    assert_eq!(p.take_output().len(), 0);
    assert_eq!(p.get_pc(), PC_INITIAL);
}

#[test]
fn print_string_without_terminator_faults() {
    let mut p = Processor::with_memory_size(8);
    for a in 0..8u32 {
        p.write_memory(a & !3, 0x0101_0101).unwrap();
    }
    p.set_register(2, 4);
    p.set_register(4, 2);
    assert_eq!(
        p.execute_instruction(SYSCALL),
        Err(ProcessorError::MemoryError(MemoryError::AddressOutOfRange(8)))
    );
}

#[test]
fn syscall_ten_ends_program() {
    let mut p = Processor::new();
    p.set_register(2, 10);
    assert_eq!(p.execute_instruction(SYSCALL), Err(ProcessorError::ProgramEnd));
}

#[test]
fn run_ends_gracefully_on_exit_syscall() {
    // addi $4, $0, 42 ; addi $2, $0, 10 ; syscall
    let mut p = machine(&[i_type(0x08, 0, 4, 42), i_type(0x08, 0, 2, 10), SYSCALL]);
    assert_eq!(p.run(), Ok(RunOutcome::ProgramEnd));
    assert_eq!(p.get_register(4), 42);
    assert_eq!(p.get_stats().instructions_executed, 2);
}

#[test]
fn run_stops_after_step_limit() {
    // j 0x100000 : jumps to itself forever
    let mut p = machine(&[0x0810_0000]);
    assert_eq!(p.run(), Ok(RunOutcome::StepLimit));
    assert_eq!(p.get_stats().instructions_executed, STEP_LIMIT + 1);
    assert_eq!(p.get_stats().branches_taken, STEP_LIMIT + 1);
}

#[test]
fn run_halts_at_halt_address() {
    // addi $5, $0, -1 ; jr $5
    let mut p = machine(&[i_type(0x08, 0, 5, -1), r_type(5, 0, 0, 0, 0x08)]);
    assert_eq!(p.run(), Ok(RunOutcome::Halted));
    assert_eq!(p.get_pc(), HALT_ADDRESS);
}

#[test]
fn run_passes_faults_on() {
    let mut p = machine(&[0xffff_ffff]);
    assert_eq!(p.run(), Err(ProcessorError::InvalidInstruction(0xffff_ffff)));
    let mut q = Processor::new();
    assert_eq!(
        q.run(),
        Err(ProcessorError::MemoryError(MemoryError::AddressOutOfRange(PC_INITIAL)))
    );
}

#[test]
fn load_program_places_words_and_sets_pc() {
    let mut p = Processor::with_memory_size(64);
    p.load_program(&[0x1111_1111, 0x2222_2222], 8).unwrap();
    assert_eq!(p.get_pc(), 8);
    assert_eq!(p.read_memory(8), Ok(0x1111_1111));
    assert_eq!(p.read_memory(12), Ok(0x2222_2222));
    assert_eq!(
        p.load_program(&[1, 2, 3], 56),
        Err(MemoryError::AddressOutOfRange(64))
    );
    assert_eq!(p.get_pc(), 8);
}

#[test]
fn reset_stats_zeroes_counters() {
    let mut p = machine(&[i_type(0x08, 0, 4, 1), i_type(0x08, 0, 2, 10), SYSCALL]);
    p.run().unwrap();
    assert!(p.get_cache_stats().misses > 0);
    p.reset_stats();
    assert_eq!(p.get_stats().instructions_executed, 0);
    assert_eq!(p.get_cache_stats().hits, 0);
    assert_eq!(p.get_cache_stats().misses, 0);
    assert_eq!(p.get_hi(), 0);
    assert_eq!(p.get_lo(), 0);
}

#[test]
fn direct_write_leaves_cache_alone() {
    let mut p = Processor::new();
    p.set_register(2, 0x1000);
    // lw $3, 0($2) brings the line into the cache
    p.execute_instruction(i_type(0x23, 2, 3, 0)).unwrap();
    assert_eq!(p.get_register(3), 0);
    let stats = *p.get_cache_stats();
    p.write_memory(0x1000, 0x0bad_f00d).unwrap();
    assert_eq!(*p.get_cache_stats(), stats);
    assert_eq!(p.read_memory(0x1000), Ok(0x0bad_f00d));
    // the cached copy is what a load sees
    p.execute_instruction(i_type(0x23, 2, 3, 0)).unwrap();
    assert_eq!(p.get_register(3), 0);
}

#[test]
fn direct_write_to_uncached_word_is_loaded() {
    let mut p = Processor::new();
    p.write_memory(0x2000, 0x1234_5678).unwrap();
    p.set_register(2, 0x2000);
    p.execute_instruction(i_type(0x23, 2, 3, 0)).unwrap();
    assert_eq!(p.get_register(3), 0x1234_5678);
}

#[test]
fn run_at_halt_address_runs_nothing() {
    let mut p = Processor::new();
    p.set_pc(HALT_ADDRESS);
    assert_eq!(p.run(), Ok(RunOutcome::Halted));
    assert_eq!(p.get_stats().instructions_executed, 0);
}
