use marie::assembler::{assemble, Item, Literal, Operand};
use marie::isa::{ArgOp, NoArgOp};
use marie::machine::{Event, Machine};

/// Steps until the machine halts or faults, feeding `inputs` to `Input`
/// and collecting what `Output` emits.
fn run(m: &mut Machine, inputs: &[u16]) -> (Event, Vec<u16>) {
    let mut out = Vec::new();
    let mut next_input = 0;
    for _ in 0..100_000 {
        match m.step() {
            Event::Continue => {}
            Event::NeedInput => {
                m.provide_input(inputs[next_input]);
                next_input += 1;
            }
            Event::Output(v) => out.push(v),
            e => return (e, out),
        }
    }
    panic!("program did not stop");
}

fn machine_with(words: &[u16], extended: bool) -> Machine {
    Machine::new(&words.to_vec(), extended)
}

#[test]
fn assemble_then_run_loads_data_word() {
    let items = vec![
        Item::InstructionWithArg(ArgOp::Load, Operand::Address("002".to_string())),
        Item::InstructionNoArg(NoArgOp::Halt),
        Item::Literal(Literal::Hex("0005".to_string())),
        Item::EndOfInput,
    ];
    let a = assemble(&items).unwrap();
    let mut m = Machine::new(&a.binary, false);
    let (e, _) = run(&mut m, &[]);
    assert_eq!(e, Event::Halted);
    assert_eq!(m.accumulator, 0x0005);
}

#[test]
fn memory_sizes() {
    let m = machine_with(&[1, 2, 3], false);
    assert_eq!(m.memory.len(), 0x1000);
    assert_eq!(&m.memory[..4], &[1, 2, 3, 0]);
    let e = machine_with(&[1, 2, 3], true);
    assert_eq!(e.memory.len(), 0x10000);
    assert_eq!(e.accumulator, 0);
    assert_eq!(e.pc, 0);
}

#[test]
fn add_indirect_masks_in_standard_mode() {
    // AddI 003; Halt; 0; pointer 0x1005; 0; 7
    let program = [0xB003, 0x7000, 0, 0x1005, 0, 7];
    let mut standard = machine_with(&program, false);
    run(&mut standard, &[]);
    assert_eq!(standard.accumulator, 7);
    let mut extended = machine_with(&program, true);
    extended.memory[0x1005] = 9;
    run(&mut extended, &[]);
    assert_eq!(extended.accumulator, 9);
}

#[test]
fn store_indirect_masks_in_standard_mode() {
    // Load 004; StoreI 003; Halt; pointer 0x1005; value 0x0042
    let program = [0x1004, 0xE003, 0x7000, 0x1005, 0x0042];
    let mut standard = machine_with(&program, false);
    run(&mut standard, &[]);
    assert_eq!(standard.memory[0x005], 0x0042);
    let mut extended = machine_with(&program, true);
    run(&mut extended, &[]);
    assert_eq!(extended.memory[0x1005], 0x0042);
    assert_eq!(extended.memory[0x005], 0);
}

#[test]
fn load_indirect_is_not_masked() {
    // LoadI 002; Halt; pointer 0x1005
    let program = [0xD002, 0x7000, 0x1005];
    let mut standard = machine_with(&program, false);
    assert_eq!(standard.step(), Event::Fault);
    assert_eq!(standard.pc, 0);
    let mut extended = machine_with(&program, true);
    extended.memory[0x1005] = 3;
    run(&mut extended, &[]);
    assert_eq!(extended.accumulator, 3);
}

fn skips(acc: u16, arg: u16) -> bool {
    let mut m = machine_with(&[0x8000 | arg], false);
    m.accumulator = acc;
    m.step();
    m.pc == 2
}

#[test]
fn skip_if_positive() {
    assert!(skips(0x0001, 0x800));
    assert!(!skips(0x0000, 0x800));
    assert!(!skips(0xFFFF, 0x800));
}

#[test]
fn skip_if_zero() {
    assert!(skips(0x0000, 0x400));
    assert!(!skips(0x0001, 0x400));
    assert!(!skips(0xFFFF, 0x400));
}

#[test]
fn skip_if_negative() {
    assert!(skips(0xFFFF, 0x000));
    assert!(!skips(0x0000, 0x000));
    assert!(!skips(0x0001, 0x000));
}

#[test]
fn sign_boundary_row() {
    // 0x8000 is neither negative nor positive: only the last row fires.
    assert!(skips(0x8000, 0xC00));
    assert!(!skips(0x8000, 0x000));
    assert!(!skips(0x8000, 0x400));
    assert!(!skips(0x8000, 0x800));
    assert!(!skips(0xFFFF, 0xC00));
}

#[test]
fn call_and_jump_stores_return_address() {
    let mut program = vec![0u16; 0x12];
    program[0] = 0x0010;
    program[0x11] = 0x7000;
    let mut m = Machine::new(&program, false);
    assert_eq!(m.step(), Event::Continue);
    assert_eq!(m.memory[0x010], 0x0001);
    assert_eq!(m.pc, 0x011);
    assert_eq!(m.step(), Event::Halted);
}

#[test]
fn jump_keeps_counter_page() {
    let mut m = machine_with(&[], true);
    m.memory[0x2345] = 0x9010;
    m.pc = 0x2345;
    m.step();
    assert_eq!(m.pc, 0x2010);
}

#[test]
fn jump_indirect_masks() {
    let mut m = machine_with(&[0xC001, 0xABCD], false);
    m.step();
    assert_eq!(m.pc, 0x0BCD);
    let mut e = machine_with(&[0xC001, 0xABCD], true);
    e.step();
    assert_eq!(e.pc, 0xABCD);
}

#[test]
fn arithmetic_wraps() {
    // Load 006; Add 007; Output; Subt 008; Output; Halt; 0xFFFF; 2; 5
    let program = [0x1006, 0x3007, 0x6000, 0x4008, 0x6000, 0x7000, 0xFFFF, 2, 5];
    let mut m = machine_with(&program, false);
    let (e, out) = run(&mut m, &[]);
    assert_eq!(e, Event::Halted);
    assert_eq!(out, vec![1, 0xFFFC]);
}

#[test]
fn input_clear_store_and_breakpoint() {
    // Input; Store 006; Breakpoint; Clear; Load 006; Halt
    let program = [0x5000, 0x2006, 0xF000, 0xA000, 0x1006, 0x7000];
    let mut m = machine_with(&program, false);
    assert_eq!(m.step(), Event::NeedInput);
    m.provide_input(321);
    assert_eq!(m.step(), Event::Continue);
    assert_eq!(m.memory[6], 321);
    m.step();
    m.step();
    assert_eq!(m.accumulator, 0);
    m.step();
    assert_eq!(m.accumulator, 321);
    assert_eq!(m.step(), Event::Halted);
}

#[test]
fn running_off_standard_memory_faults() {
    let mut m = machine_with(&[], false);
    m.memory[0x0FFF] = 0xF000;
    m.pc = 0x0FFF;
    assert_eq!(m.step(), Event::Continue);
    assert_eq!(m.pc, 0x1000);
    assert_eq!(m.step(), Event::Fault);
}
