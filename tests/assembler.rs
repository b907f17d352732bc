use marie::assembler::{assemble, AsmError, Item, Literal, Operand};
use marie::isa::{ArgOp, NoArgOp};
use marie::labels::Warning;
use marie::number::{parse_decimal, parse_hex};

fn with_arg(op: ArgOp, hex: &str) -> Item {
    Item::InstructionWithArg(op, Operand::Address(hex.to_string()))
}

fn with_label(op: ArgOp, name: &str) -> Item {
    Item::InstructionWithArg(op, Operand::Name(name.to_string()))
}

fn no_arg(op: NoArgOp) -> Item {
    Item::InstructionNoArg(op)
}

fn label(name: &str) -> Item {
    Item::LabelDef(name.to_string())
}

#[test]
fn length_counts_instructions_and_literals() {
    let items = vec![
        with_arg(ArgOp::Load, "00A"),
        no_arg(NoArgOp::Output),
        Item::Literal(Literal::Dec("12".to_string())),
        Item::Literal(Literal::Hex("ff".to_string())),
        no_arg(NoArgOp::Halt),
        Item::EndOfInput,
    ];
    let a = assemble(&items).unwrap();
    assert_eq!(a.binary, vec![0x100A, 0x6000, 12, 0x00FF, 0x7000]);
    assert!(a.warnings.is_empty());
}

#[test]
fn instruction_encodings() {
    let items = vec![
        with_arg(ArgOp::JnS, "123"),
        with_arg(ArgOp::Store, "1FFF"),
        with_arg(ArgOp::Skipcond, "800"),
        with_arg(ArgOp::StoreI, "0"),
        no_arg(NoArgOp::Input),
        no_arg(NoArgOp::Clear),
        no_arg(NoArgOp::Breakpoint),
    ];
    let a = assemble(&items).unwrap();
    assert_eq!(a.binary, vec![0x0123, 0x2FFF, 0x8800, 0xE000, 0x5000, 0xA000, 0xF000]);
}

#[test]
fn forward_and_backward_references_agree() {
    let forward = vec![
        with_label(ArgOp::Jump, "target"),
        Item::Literal(Literal::Label("target".to_string())),
        no_arg(NoArgOp::Clear),
        label("target"),
        no_arg(NoArgOp::Halt),
        Item::EndOfInput,
    ];
    let a = assemble(&forward).unwrap();
    assert_eq!(a.binary, vec![0x9003, 0x0003, 0xA000, 0x7000]);
    assert!(a.warnings.is_empty());

    let backward = vec![
        no_arg(NoArgOp::Clear),
        no_arg(NoArgOp::Clear),
        no_arg(NoArgOp::Clear),
        label("target"),
        with_label(ArgOp::Jump, "target"),
        Item::Literal(Literal::Label("target".to_string())),
    ];
    let b = assemble(&backward).unwrap();
    assert_eq!(b.binary[3], 0x9003);
    assert_eq!(b.binary[4], 0x0003);
}

#[test]
fn redefinition_keeps_first_patch() {
    let items = vec![
        with_label(ArgOp::Load, "x"),
        with_label(ArgOp::Add, "x"),
        Item::Literal(Literal::Label("x".to_string())),
        label("x"),
        no_arg(NoArgOp::Halt),
        label("x"),
        with_label(ArgOp::Store, "x"),
        Item::EndOfInput,
    ];
    let a = assemble(&items).unwrap();
    assert_eq!(a.binary, vec![0x1003, 0x3003, 0x0003, 0x7000, 0x2004]);
    assert_eq!(a.warnings.len(), 1);
    match &a.warnings[0] {
        Warning::Redefined { name, at, previous } => {
            assert_eq!(name, "x");
            assert_eq!(*at, 4);
            assert_eq!(*previous, 3);
        }
        _ => panic!("expected a redefinition warning"),
    }
}

#[test]
fn undefined_label_keeps_sentinels() {
    let items = vec![
        with_label(ArgOp::Load, "nowhere"),
        Item::Literal(Literal::Label("nowhere".to_string())),
        with_label(ArgOp::JumpI, "nowhere"),
        Item::EndOfInput,
    ];
    let a = assemble(&items).unwrap();
    assert_eq!(a.binary, vec![0x1001, 0x0000, 0xC001]);
    assert_eq!(a.warnings.len(), 1);
    match &a.warnings[0] {
        Warning::Undefined { name, sites } => {
            assert_eq!(name, "nowhere");
            assert_eq!(sites, &vec![0usize, 1, 2]);
        }
        _ => panic!("expected an undefined-label warning"),
    }
}

#[test]
fn literal_label_takes_full_address() {
    let mut items = vec![Item::Literal(Literal::Label("far".to_string()))];
    for _ in 0..0x1234 {
        items.push(no_arg(NoArgOp::Clear));
    }
    items.push(label("far"));
    items.push(with_label(ArgOp::Load, "far"));
    let a = assemble(&items).unwrap();
    assert_eq!(a.binary[0], 0x1235);
    assert_eq!(a.binary[0x1235], 0x1235);
}

#[test]
fn end_marker_stops_assembly() {
    let items = vec![
        no_arg(NoArgOp::Halt),
        Item::EndOfInput,
        no_arg(NoArgOp::Clear),
        Item::Literal(Literal::Dec("bad".to_string())),
    ];
    let a = assemble(&items).unwrap();
    assert_eq!(a.binary, vec![0x7000]);
}

#[test]
fn empty_program_and_unused_label() {
    let a = assemble(&vec![]).unwrap();
    assert!(a.binary.is_empty());
    assert!(a.warnings.is_empty());
    let b = assemble(&vec![label("start"), no_arg(NoArgOp::Halt), Item::EndOfInput]).unwrap();
    assert_eq!(b.binary, vec![0x7000]);
    assert!(b.warnings.is_empty());
}

#[test]
fn malformed_numbers_are_fatal() {
    let bad_address = vec![no_arg(NoArgOp::Halt), with_arg(ArgOp::Load, "xyz")];
    assert_eq!(assemble(&bad_address).err(), Some(AsmError::InvalidAddress(1)));
    let bad_dec = vec![Item::Literal(Literal::Dec("70000".to_string()))];
    assert_eq!(assemble(&bad_dec).err(), Some(AsmError::InvalidDecimal(0)));
    let bad_hex = vec![label("a"), Item::Literal(Literal::Hex("12g".to_string()))];
    assert_eq!(assemble(&bad_hex).err(), Some(AsmError::InvalidHex(1)));
}

#[test]
fn number_reading() {
    assert_eq!(parse_decimal("0"), Some(0));
    assert_eq!(parse_decimal("65535"), Some(65535));
    assert_eq!(parse_decimal("65536"), None);
    assert_eq!(parse_decimal("+42"), Some(42));
    assert_eq!(parse_decimal("000000000000000007"), Some(7));
    assert_eq!(parse_decimal(""), None);
    assert_eq!(parse_decimal("+"), None);
    assert_eq!(parse_decimal("-1"), None);
    assert_eq!(parse_decimal("1a"), None);
    assert_eq!(parse_hex("ffff"), Some(0xFFFF));
    assert_eq!(parse_hex("AbC"), Some(0xABC));
    assert_eq!(parse_hex("10000"), None);
    assert_eq!(parse_hex("g"), None);
}
