use vstd::prelude::*;
use crate::isa::{encode, encode_word, ArgOp, NoArgOp};
use crate::labels::{
    define_spec, finalize_spec, lemma_patch_sites_len, reference_spec, table_wf, warning_view,
    Binding, LabelState, LabelTable, TableView, Warning, WarningView,
};
use crate::number::{parse_decimal, parse_hex, parse_u16};

verus! {

/// Default emitted for an instruction's forward reference.
pub const INSTRUCTION_DEFAULT: u16 = 1;

/// Default emitted for a data word's forward reference.
pub const LITERAL_DEFAULT: u16 = 0;

/// The operand of an instruction.
pub enum Operand {
    /// A hexadecimal address, as written.
    Address(String),
    /// A label name.
    Name(String),
}

/// The value of a data word.
pub enum Literal {
    /// Decimal digits, as written.
    Dec(String),
    /// Hexadecimal digits, as written.
    Hex(String),
    /// A label name: the word holds the label's full address.
    Label(String),
}

/// One classified item of a source program.
pub enum Item {
    InstructionWithArg(ArgOp, Operand),
    InstructionNoArg(NoArgOp),
    Literal(Literal),
    LabelDef(String),
    EndOfInput,
}

/// A fatal assembly error, with the position of the offending item.
#[derive(Copy, Clone, Debug, PartialEq, Eq, Structural)]
pub enum AsmError {
    /// An instruction's hexadecimal address does not read as a 16-bit number.
    InvalidAddress(usize),
    /// A decimal data word does not read as a 16-bit number.
    InvalidDecimal(usize),
    /// A hexadecimal data word does not read as a 16-bit number.
    InvalidHex(usize),
}

/// The output of a successful assembly.
pub struct Assembly {
    pub binary: Vec<u16>,
    pub warnings: Vec<Warning>,
}

/// The state of an assembly between two items.
pub struct AsmState {
    pub table: TableView,
    pub words: Seq<u16>,
    pub warnings: Seq<WarningView>,
}

pub open spec fn init_state() -> AsmState {
    AsmState { table: Seq::empty(), words: Seq::empty(), warnings: Seq::empty() }
}

/// The address of the next word to be emitted.
pub open spec fn here(st: AsmState) -> u16 {
    (st.words.len() % 0x10000) as u16
}

/// The state after item `item`, which stands at position `index`.
pub open spec fn step_spec(st: AsmState, item: Item, index: usize) -> Result<AsmState, AsmError> {
    match item {
        Item::InstructionWithArg(op, operand) => {
            let code = op.spec_opcode().spec_code();
            match operand {
                Operand::Address(s) => match parse_u16(s@, 16) {
                    Some(a) => Ok(AsmState { words: st.words.push(encode(code, a)), ..st }),
                    None => Err(AsmError::InvalidAddress(index)),
                },
                Operand::Name(n) => {
                    let (t, a) = reference_spec(
                        st.table,
                        n@,
                        st.words.len() as usize,
                        INSTRUCTION_DEFAULT,
                    );
                    Ok(AsmState { table: t, words: st.words.push(encode(code, a)), ..st })
                },
            }
        },
        Item::InstructionNoArg(op) => Ok(
            AsmState { words: st.words.push(encode(op.spec_opcode().spec_code(), 0)), ..st },
        ),
        Item::Literal(lit) => match lit {
            Literal::Dec(s) => match parse_u16(s@, 10) {
                Some(v) => Ok(AsmState { words: st.words.push(v), ..st }),
                None => Err(AsmError::InvalidDecimal(index)),
            },
            Literal::Hex(s) => match parse_u16(s@, 16) {
                Some(v) => Ok(AsmState { words: st.words.push(v), ..st }),
                None => Err(AsmError::InvalidHex(index)),
            },
            Literal::Label(n) => {
                let (t, a) = reference_spec(
                    st.table,
                    n@,
                    st.words.len() as usize,
                    LITERAL_DEFAULT,
                );
                Ok(AsmState { table: t, words: st.words.push(a), ..st })
            },
        },
        Item::LabelDef(n) => {
            let (t, w, d) = define_spec(st.table, st.words, n@, here(st));
            Ok(
                AsmState {
                    table: t,
                    words: w,
                    warnings: match d {
                        Some(x) => st.warnings.push(x),
                        None => st.warnings,
                    },
                },
            )
        },
        Item::EndOfInput => Ok(st),
    }
}

/// The state after the items from position `i` on, up to the end marker or
/// the first fatal error.
pub open spec fn run_spec(st: AsmState, items: Seq<Item>, i: int) -> Result<AsmState, AsmError>
    decreases items.len() - i,
{
    if i < 0 || i >= items.len() || items[i] is EndOfInput {
        Ok(st)
    } else {
        match step_spec(st, items[i], i as usize) {
            Ok(next) => run_spec(next, items, i + 1),
            Err(e) => Err(e),
        }
    }
}

/// What assembling `items` gives: the words, then the diagnostics of
/// redefinitions in order followed by one for each label never defined.
pub open spec fn assemble_spec(items: Seq<Item>) -> Result<(Seq<u16>, Seq<WarningView>), AsmError> {
    match run_spec(init_state(), items, 0) {
        Ok(st) => Ok((st.words, st.warnings + finalize_spec(st.table))),
        Err(e) => Err(e),
    }
}

pub open spec fn warnings_view(w: Seq<Warning>) -> Seq<WarningView> {
    w.map_values(|x: Warning| x@)
}

fn copy_sites(l: &Vec<usize>) -> (r: Vec<usize>)
    ensures
        r@ == l@,
{
    let mut r: Vec<usize> = Vec::new();
    let mut i: usize = 0;
    while i < l.len()
        invariant
            i <= l.len(),
            r@ == l@.take(i as int),
        decreases l.len() - i,
    {
        r.push(l[i]);
        i = i + 1;
        assert(r@ =~= l@.take(i as int));
    }
    assert(l@.take(l.len() as int) =~= l@);
    r
}

impl LabelTable {
    /// One diagnostic for each label still unresolved (see `finalize_spec`).
    pub fn finalize(&self) -> (r: Vec<Warning>)
        ensures
            warnings_view(r@) == finalize_spec(self@),
    {
        let mut r: Vec<Warning> = Vec::new();
        let mut i: usize = 0;
        while i < self.entries.len()
            invariant
                i <= self.entries.len(),
                warnings_view(r@) == finalize_spec(self@.take(i as int)),
            decreases self.entries.len() - i,
        {
            let ghost before = r@;
            assert(self@.take(i + 1).drop_last() =~= self@.take(i as int));
            match &self.entries[i].state {
                LabelState::Unresolved(l) => {
                    let sites = copy_sites(l);
                    r.push(Warning::Undefined { name: self.entries[i].name.clone(), sites });
                    assert(warnings_view(r@) =~= warnings_view(before).push(r@.last()@));
                },
                LabelState::Resolved(_) => {},
            }
            i = i + 1;
        }
        assert(self@.take(self.entries.len() as int) =~= self@);
        r
    }
}

/// Assembles a classified program in one pass, up to its end marker.
/// Forward references are patched when their label is defined; label
/// problems become warnings, a malformed number ends assembly with an error.
pub fn assemble(items: &Vec<Item>) -> (r: Result<Assembly, AsmError>)
    ensures
        match assemble_spec(items@) {
            Ok((words, warnings)) => r matches Ok(a) && a.binary@ == words && warnings_view(
                a.warnings@,
            ) == warnings,
            Err(e) => r == Err::<Assembly, AsmError>(e),
        },
{
    let mut table = LabelTable::new();
    let mut binary: Vec<u16> = Vec::new();
    let mut warnings: Vec<Warning> = Vec::new();
    let mut i: usize = 0;
    assert(warnings_view(warnings@) =~= Seq::<WarningView>::empty());
    assert(binary@ =~= Seq::<u16>::empty());
    while i < items.len()
        invariant
            i <= items.len(),
            table_wf(table@, binary@.len()),
            run_spec(init_state(), items@, 0) == run_spec(
                AsmState { table: table@, words: binary@, warnings: warnings_view(warnings@) },
                items@,
                i as int,
            ),
        ensures
            i <= items.len(),
            i == items.len() || items@[i as int] is EndOfInput,
            table_wf(table@, binary@.len()),
            run_spec(init_state(), items@, 0) == run_spec(
                AsmState { table: table@, words: binary@, warnings: warnings_view(warnings@) },
                items@,
                i as int,
            ),
        decreases items.len() - i,
    {
        let ghost st = AsmState { table: table@, words: binary@, warnings: warnings_view(warnings@) };
        let ghost next = step_spec(st, items@[i as int], i);
        match &items[i] {
            Item::InstructionWithArg(op, operand) => {
                let code = op.opcode().code();
                let a: u16 = match operand {
                    Operand::Address(s) => match parse_hex(s.as_str()) {
                        Some(a) => a,
                        None => {
                            return Err(AsmError::InvalidAddress(i));
                        },
                    },
                    Operand::Name(n) => table.label_to_addr(n, binary.len(), INSTRUCTION_DEFAULT),
                };
                binary.push(encode_word(code, a));
            },
            Item::InstructionNoArg(op) => {
                binary.push(encode_word(op.opcode().code(), 0));
            },
            Item::Literal(lit) => {
                let v: u16 = match lit {
                    Literal::Dec(s) => match parse_decimal(s.as_str()) {
                        Some(v) => v,
                        None => {
                            return Err(AsmError::InvalidDecimal(i));
                        },
                    },
                    Literal::Hex(s) => match parse_hex(s.as_str()) {
                        Some(v) => v,
                        None => {
                            return Err(AsmError::InvalidHex(i));
                        },
                    },
                    Literal::Label(n) => table.label_to_addr(n, binary.len(), LITERAL_DEFAULT),
                };
                binary.push(v);
            },
            Item::LabelDef(n) => {
                let addr = (binary.len() % 0x10000) as u16;
                let d = table.define(n, addr, &mut binary);
                match d {
                    Some(w) => {
                        warnings.push(w);
                    },
                    None => {},
                }
                assert(warnings_view(warnings@) =~= next->Ok_0.warnings);
            },
            Item::EndOfInput => {
                break;
            },
        }
        proof {
            assert(warnings_view(warnings@) =~= next->Ok_0.warnings);
        }
        i = i + 1;
    }
    let ghost fin = AsmState { table: table@, words: binary@, warnings: warnings_view(warnings@) };
    assert(run_spec(fin, items@, i as int) == Ok::<AsmState, AsmError>(fin));
    let mut all = warnings;
    let mut rest = table.finalize();
    let ghost w1 = all@;
    all.append(&mut rest);
    assert(warnings_view(all@) =~= warnings_view(w1) + finalize_spec(table@));
    Ok(Assembly { binary, warnings: all })
}

} // verus!
