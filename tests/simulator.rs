use mips_sim::processor::{RunOutcome, PC_INITIAL};
use mips_sim::simulator::{step_command, MipsSimulator, SimulatorConfig, SimulatorError, StepCommand};

#[test]
fn test_simulator_creation() {
    let config = SimulatorConfig::default();
    let simulator = MipsSimulator::new(config);
    assert_eq!(simulator.get_config().memory_size, 16 * 1024 * 1024);
}

#[test]
fn test_load_program() {
    let mut simulator = MipsSimulator::new_default();
    let program = vec![0x00430820u32, 0x0000000Cu32];
    simulator.load_program(&program).unwrap();
}

#[test]
fn simulator_runs_loaded_program() {
    let mut simulator = MipsSimulator::new_default();
    // addi $4, $0, 7 ; addi $2, $0, 10 ; syscall
    simulator.load_program(&[0x2004_0007, 0x2002_000a, 0x0000_000c]).unwrap();
    assert!(simulator.can_run());
    assert_eq!(simulator.run().unwrap(), RunOutcome::ProgramEnd);
    assert_eq!(simulator.processor().get_register(4), 7);
    assert_eq!(simulator.get_stats().instructions_executed, 2);
    assert!(simulator.get_cache_stats().misses >= 1);
}

#[test]
fn simulator_config_is_kept_and_replaced() {
    let mut simulator = MipsSimulator::new(SimulatorConfig {
        memory_size: 0x0050_0000,
        program_start: PC_INITIAL,
        debug_mode: true,
        step_mode: false,
    });
    assert!(simulator.get_config().debug_mode);
    let mut config = *simulator.get_config();
    config.step_mode = true;
    simulator.set_config(config);
    assert!(simulator.get_config().step_mode);
    assert_eq!(simulator.processor().get_pc(), PC_INITIAL);
}

#[test]
fn simulator_load_out_of_memory_fails() {
    let mut simulator = MipsSimulator::new(SimulatorConfig {
        memory_size: 1024,
        program_start: PC_INITIAL,
        debug_mode: false,
        step_mode: false,
    });
    assert!(matches!(simulator.load_program(&[1]), Err(SimulatorError::MemoryError(_))));
}

#[test]
fn simulator_steps_one_instruction() {
    let mut simulator = MipsSimulator::new_default();
    simulator.load_program(&[0x2004_0007]).unwrap();
    assert_eq!(simulator.step(), Ok(false));
    assert_eq!(simulator.processor().get_pc(), PC_INITIAL + 4);
}

#[test]
fn step_mode_commands() {
    assert_eq!(step_command("q\n"), StepCommand::Quit);
    assert_eq!(step_command("  s  "), StepCommand::ShowState);
    assert_eq!(step_command("\n"), StepCommand::Execute);
    assert_eq!(step_command("qq"), StepCommand::Execute);
    assert_eq!(step_command("x"), StepCommand::Execute);
    assert_eq!(step_command("Q"), StepCommand::Execute);
}

#[test]
fn simulator_reports_processor_faults() {
    let mut simulator = MipsSimulator::new_default();
    simulator.load_program(&[0xffff_ffff]).unwrap();
    match simulator.run() {
        Err(SimulatorError::ProcessorError(e)) => {
            assert_eq!(e, mips_sim::processor::ProcessorError::InvalidInstruction(0xffff_ffff))
        }
        _ => panic!("expected a processor error"),
    }
}

#[test]
fn simulator_loads_empty_program() {
    let mut simulator = MipsSimulator::new_default();
    simulator.load_program(&[]).unwrap();
    assert_eq!(simulator.processor().get_pc(), PC_INITIAL);
    // memory holds zero there, which decodes as `sll $0, $0, 0`
    assert_eq!(simulator.step(), Ok(false));
}

#[test]
fn simulator_fetches_through_cache() {
    let mut simulator = MipsSimulator::new_default();
    simulator.load_program(&[0x2004_0007]).unwrap();
    assert_eq!(simulator.fetch_instruction(), Ok(0x2004_0007));
    assert_eq!(simulator.get_cache_stats().misses, 1);
    assert_eq!(simulator.processor().get_pc(), PC_INITIAL);
}
