use vstd::prelude::*;
use crate::isa::{
    argument_of, lemma_fields_bounded, opcode_of, Opcode, ARGUMENT_MASK, FIRST_NEGATIVE,
    FULL_MASK, INSTRUCTION_MASK,
};

verus! {

/// Words of memory in standard mode (a 12-bit address space).
pub const STANDARD_SIZE: usize = 0x1000;

/// Words of memory in extended mode (a 16-bit address space).
pub const EXTENDED_SIZE: usize = 0x10000;

/// The machine: accumulator, program counter and memory.
pub struct Machine {
    pub accumulator: u16,
    pub pc: u16,
    pub memory: Vec<u16>,
    pub extended: bool,
}

/// The machine as a mathematical value.
pub struct MachineState {
    pub acc: u16,
    pub pc: u16,
    pub mem: Seq<u16>,
    pub extended: bool,
}

impl View for Machine {
    type V = MachineState;

    open spec fn view(&self) -> MachineState {
        MachineState {
            acc: self.accumulator,
            pc: self.pc,
            mem: self.memory@,
            extended: self.extended,
        }
    }
}

/// What one step asks of its surroundings.
#[derive(Copy, Clone, Debug, PartialEq, Eq, Structural)]
pub enum Event {
    /// Nothing: run the next step.
    Continue,
    /// An `Input` instruction ran: hand a number to `provide_input`.
    NeedInput,
    /// An `Output` instruction ran with this accumulator.
    Output(u16),
    /// A `Halt` instruction ran.
    Halted,
    /// A memory access fell outside memory; the machine is unchanged.
    Fault,
}

pub open spec fn mem_size(extended: bool) -> nat {
    if extended {
        EXTENDED_SIZE as nat
    } else {
        STANDARD_SIZE as nat
    }
}

/// The mask applied to an address read from memory.
pub open spec fn indirect_mask(extended: bool) -> u16 {
    if extended {
        FULL_MASK
    } else {
        ARGUMENT_MASK
    }
}

/// The memory a run starts with: `program`, then zeros, cut to `size` words.
pub open spec fn initial_memory(program: Seq<u16>, size: nat) -> Seq<u16> {
    Seq::new(size, |i: int| if i < program.len() { program[i] } else { 0u16 })
}

/// The condition row selected by the top two bits of a 12-bit argument:
/// (want negative, want positive).
pub open spec fn skip_row(arg: u16) -> (bool, bool) {
    let row = arg >> 10u16;
    if row == 0 {
        (false, true)
    } else if row == 1 {
        (false, false)
    } else if row == 2 {
        (true, false)
    } else {
        (true, true)
    }
}

/// Whether a skip instruction with argument `arg` skips at accumulator `acc`.
pub open spec fn skip_taken(acc: u16, arg: u16) -> bool {
    let negative = acc.wrapping_sub(1) > FIRST_NEGATIVE;
    let positive = acc < FIRST_NEGATIVE;
    let (want_negative, want_positive) = skip_row(arg);
    want_negative != negative && want_positive != positive
}

pub open spec fn in_mem(m: MachineState, a: u16) -> bool {
    (a as nat) < m.mem.len()
}

/// One fetch-decode-execute step from `m`.
pub open spec fn step_spec(m: MachineState) -> (MachineState, Event) {
    if !in_mem(m, m.pc) {
        (m, Event::Fault)
    } else {
        let w = m.mem[m.pc as int];
        let pc = m.pc.wrapping_add(1);
        let arg = argument_of(w);
        let next = MachineState { pc, ..m };
        let mask = indirect_mask(m.extended);
        match Opcode::spec_from_code(opcode_of(w)) {
            Opcode::JnS => if in_mem(m, arg) {
                (
                    MachineState { mem: m.mem.update(arg as int, pc), pc: (arg + 1) as u16, ..m },
                    Event::Continue,
                )
            } else {
                (m, Event::Fault)
            },
            Opcode::Load => if in_mem(m, arg) {
                (MachineState { acc: m.mem[arg as int], ..next }, Event::Continue)
            } else {
                (m, Event::Fault)
            },
            Opcode::Store => if in_mem(m, arg) {
                (MachineState { mem: m.mem.update(arg as int, m.acc), ..next }, Event::Continue)
            } else {
                (m, Event::Fault)
            },
            Opcode::Add => if in_mem(m, arg) {
                (
                    MachineState { acc: m.acc.wrapping_add(m.mem[arg as int]), ..next },
                    Event::Continue,
                )
            } else {
                (m, Event::Fault)
            },
            Opcode::Subt => if in_mem(m, arg) {
                (
                    MachineState { acc: m.acc.wrapping_sub(m.mem[arg as int]), ..next },
                    Event::Continue,
                )
            } else {
                (m, Event::Fault)
            },
            Opcode::Input => (next, Event::NeedInput),
            Opcode::Output => (next, Event::Output(m.acc)),
            Opcode::Halt => (next, Event::Halted),
            Opcode::Skipcond => if skip_taken(m.acc, arg) {
                (MachineState { pc: pc.wrapping_add(1), ..m }, Event::Continue)
            } else {
                (next, Event::Continue)
            },
            Opcode::Jump => (
                MachineState { pc: ((pc & INSTRUCTION_MASK) + arg) as u16, ..m },
                Event::Continue,
            ),
            Opcode::Clear => (MachineState { acc: 0, ..next }, Event::Continue),
            Opcode::AddI => if in_mem(m, arg) && in_mem(m, mask & m.mem[arg as int]) {
                (
                    MachineState {
                        acc: m.acc.wrapping_add(m.mem[(mask & m.mem[arg as int]) as int]),
                        ..next
                    },
                    Event::Continue,
                )
            } else {
                (m, Event::Fault)
            },
            Opcode::JumpI => if in_mem(m, arg) {
                (MachineState { pc: mask & m.mem[arg as int], ..m }, Event::Continue)
            } else {
                (m, Event::Fault)
            },
            Opcode::LoadI => if in_mem(m, arg) && in_mem(m, m.mem[arg as int]) {
                (MachineState { acc: m.mem[m.mem[arg as int] as int], ..next }, Event::Continue)
            } else {
                (m, Event::Fault)
            },
            Opcode::StoreI => if in_mem(m, arg) && in_mem(m, mask & m.mem[arg as int]) {
                (
                    MachineState {
                        mem: m.mem.update((mask & m.mem[arg as int]) as int, m.acc),
                        ..next
                    },
                    Event::Continue,
                )
            } else {
                (m, Event::Fault)
            },
            Opcode::Invalid => (next, Event::Continue),
        }
    }
}

fn skip_condition(acc: u16, arg: u16) -> (r: bool)
    ensures
        r == skip_taken(acc, arg),
{
    let negative = acc.wrapping_sub(1) > FIRST_NEGATIVE;
    let positive = acc < FIRST_NEGATIVE;
    let row = arg >> 10u16;
    let (want_negative, want_positive) = if row == 0 {
        (false, true)
    } else if row == 1 {
        (false, false)
    } else if row == 2 {
        (true, false)
    } else {
        (true, true)
    };
    want_negative != negative && want_positive != positive
}

impl Machine {
    /// A machine at accumulator 0 and counter 0 whose memory holds
    /// `program` followed by zeros, 2^16 words in extended mode and 2^12
    /// otherwise (a longer program is cut to that size).
    pub fn new(program: &Vec<u16>, extended: bool) -> (r: Machine)
        ensures
            r@ == (MachineState {
                acc: 0,
                pc: 0,
                mem: initial_memory(program@, mem_size(extended)),
                extended,
            }),
    {
        let size: usize = if extended {
            EXTENDED_SIZE
        } else {
            STANDARD_SIZE
        };
        let mut memory: Vec<u16> = Vec::new();
        let mut i: usize = 0;
        while i < size
            invariant
                i <= size,
                size == mem_size(extended),
                memory@ =~= initial_memory(program@, i as nat),
            decreases size - i,
        {
            if i < program.len() {
                memory.push(program[i]);
            } else {
                memory.push(0);
            }
            i = i + 1;
        }
        Machine { accumulator: 0, pc: 0, memory, extended }
    }

    /// The mask applied to addresses read from memory in this machine's mode.
    pub fn indirect_mask(&self) -> (r: u16)
        ensures
            r == indirect_mask(self.extended),
    {
        if self.extended {
            FULL_MASK
        } else {
            ARGUMENT_MASK
        }
    }

    /// Puts a number read for an `Input` instruction into the accumulator.
    pub fn provide_input(&mut self, value: u16)
        ensures
            final(self)@ == (MachineState { acc: value, ..old(self)@ }),
    {
        self.accumulator = value;
    }

    /// Runs one instruction (see `step_spec`).
    pub fn step(&mut self) -> (e: Event)
        ensures
            (final(self)@, e) == step_spec(old(self)@),
    {
        let len = self.memory.len();
        if self.pc as usize >= len {
            return Event::Fault;
        }
        let w = self.memory[self.pc as usize];
        let pc = self.pc.wrapping_add(1);
        let arg = w & ARGUMENT_MASK;
        proof {
            lemma_fields_bounded(w);
        }
        let mask = self.indirect_mask();
        match Opcode::from_code(w >> 12u16) {
            Opcode::JnS => {
                if arg as usize >= len {
                    return Event::Fault;
                }
                self.memory.set(arg as usize, pc);
                self.pc = arg + 1;
            },
            Opcode::Load => {
                if arg as usize >= len {
                    return Event::Fault;
                }
                self.accumulator = self.memory[arg as usize];
                self.pc = pc;
            },
            Opcode::Store => {
                if arg as usize >= len {
                    return Event::Fault;
                }
                self.memory.set(arg as usize, self.accumulator);
                self.pc = pc;
            },
            Opcode::Add => {
                if arg as usize >= len {
                    return Event::Fault;
                }
                self.accumulator = self.accumulator.wrapping_add(self.memory[arg as usize]);
                self.pc = pc;
            },
            Opcode::Subt => {
                if arg as usize >= len {
                    return Event::Fault;
                }
                self.accumulator = self.accumulator.wrapping_sub(self.memory[arg as usize]);
                self.pc = pc;
            },
            Opcode::Input => {
                self.pc = pc;
                return Event::NeedInput;
            },
            Opcode::Output => {
                self.pc = pc;
                return Event::Output(self.accumulator);
            },
            Opcode::Halt => {
                self.pc = pc;
                return Event::Halted;
            },
            Opcode::Skipcond => {
                if skip_condition(self.accumulator, arg) {
                    self.pc = pc.wrapping_add(1);
                } else {
                    self.pc = pc;
                }
            },
            Opcode::Jump => {
                assert(pc & 0xF000u16 <= 0xF000u16) by (bit_vector);
                self.pc = (pc & INSTRUCTION_MASK) + arg;
            },
            Opcode::Clear => {
                self.accumulator = 0;
                self.pc = pc;
            },
            Opcode::AddI => {
                if arg as usize >= len {
                    return Event::Fault;
                }
                let addr = mask & self.memory[arg as usize];
                if addr as usize >= len {
                    return Event::Fault;
                }
                self.accumulator = self.accumulator.wrapping_add(self.memory[addr as usize]);
                self.pc = pc;
            },
            Opcode::JumpI => {
                if arg as usize >= len {
                    return Event::Fault;
                }
                self.pc = mask & self.memory[arg as usize];
            },
            Opcode::LoadI => {
                if arg as usize >= len {
                    return Event::Fault;
                }
                let addr = self.memory[arg as usize];
                if addr as usize >= len {
                    return Event::Fault;
                }
                self.accumulator = self.memory[addr as usize];
                self.pc = pc;
            },
            Opcode::StoreI => {
                if arg as usize >= len {
                    return Event::Fault;
                }
                let addr = mask & self.memory[arg as usize];
                if addr as usize >= len {
                    return Event::Fault;
                }
                self.memory.set(addr as usize, self.accumulator);
                self.pc = pc;
            },
            Opcode::Invalid => {
                self.pc = pc;
            },
        }
        Event::Continue
    }
}

} // verus!
