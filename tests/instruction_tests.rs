use aleo_bytecode::codec::DecodeError;
use aleo_bytecode::function::{Declaration, Function, FunctionError, Phase};
use aleo_bytecode::instruction::{
    exceeds_capacity, BinaryOperation, Instruction, Operand, Ped1024, PedersenHasher, RegisterType,
    UnaryOperation,
};
use aleo_bytecode::literal::{IntegerType, Literal, LiteralData, LiteralType, Value, Visibility};
use aleo_bytecode::register::{EvalError, Register, Registers};
use aleo_bytecode::text::ParseError;

const DIGEST_OF_ONE: &str =
    "6122249396247477588925765696834100286827340493907798245233656838221917119242";

/// Stands in for the network's Pedersen hash: it answers with a fixed field
/// element and remembers what it was asked.
struct FixedHasher {
    digest: Vec<u8>,
    seen: std::cell::RefCell<Vec<Value>>,
}

impl FixedHasher {
    fn new(digest: &str) -> Self {
        FixedHasher { digest: digest.as_bytes().to_vec(), seen: std::cell::RefCell::new(Vec::new()) }
    }
}

impl PedersenHasher for FixedHasher {
    fn hash_ped1024(&self, input: &Value) -> Vec<u8> {
        self.seen.borrow_mut().push(input.clone());
        self.digest.clone()
    }
}

fn reg(n: u64) -> Register {
    Register { locator: n }
}

fn lit(data: LiteralData, visibility: Visibility) -> Literal {
    Literal { data, visibility }
}

fn field(n: &str, visibility: Visibility) -> Literal {
    lit(LiteralData::Field(n.as_bytes().to_vec()), visibility)
}

fn binary(a: Operand, b: Operand, d: u64) -> BinaryOperation {
    BinaryOperation { first: a, second: b, destination: reg(d) }
}

fn registers_with(values: Vec<(u64, Value)>, defined: &[u64]) -> Registers {
    let mut registers = Registers::new();
    for r in defined {
        registers.define(&reg(*r));
    }
    for (r, v) in values {
        registers.define(&reg(r));
        registers.assign(&reg(r), v).unwrap();
    }
    registers
}

fn run(instruction: &str, values: Vec<(u64, Value)>) -> (Result<(), EvalError>, Registers) {
    let instruction = Instruction::from_str(instruction).unwrap();
    let mut registers = registers_with(values, &[2]);
    let hasher = FixedHasher::new(DIGEST_OF_ONE);
    let r = instruction.evaluate(&mut registers, &hasher);
    (r, registers)
}

fn u8v(v: u8) -> Value {
    Value::Literal(lit(LiteralData::U8(v), Visibility::Public))
}

fn i8v(v: i8) -> Value {
    Value::Literal(lit(LiteralData::I8(v), Visibility::Public))
}

#[test]
fn test_parse() {
    let (instruction, _) = Instruction::parse("hash.ped1024 r0 into r1;").unwrap();
    assert!(matches!(instruction, Instruction::Ped1024(_)));
}

#[test]
fn test_composite() {
    let first = Value::Composite(
        b"message".to_vec(),
        vec![lit(LiteralData::Boolean(true), Visibility::Public), lit(LiteralData::Boolean(false), Visibility::Private)],
    );

    let mut registers = Registers::new();
    registers.define(&reg(0));
    registers.define(&reg(1));
    registers.assign(&reg(0), first.clone()).unwrap();

    let hasher = FixedHasher::new(DIGEST_OF_ONE);
    Instruction::from_str("hash.ped1024 r0 into r1;").unwrap().evaluate(&mut registers, &hasher).unwrap();

    let value = registers.load(&reg(1)).unwrap();
    let expected = Value::Literal(field(DIGEST_OF_ONE, Visibility::Private));
    assert_eq!(&expected, value);
    assert_eq!(hasher.seen.borrow().as_slice(), &[first]);
}

#[test]
#[should_panic(expected = "The Pedersen hash input cannot exceed 1024 bits.")]
fn test_composite_halts() {
    let first = Value::Composite(
        b"message".to_vec(),
        vec![
            field("1", Visibility::Public),
            field("2", Visibility::Private),
            field("3", Visibility::Private),
            field("4", Visibility::Private),
            field("5", Visibility::Private),
        ],
    );

    let mut registers = Registers::new();
    registers.define(&reg(0));
    registers.define(&reg(1));
    registers.assign(&reg(0), first).unwrap();

    let hasher = FixedHasher::new(DIGEST_OF_ONE);
    let r = Instruction::from_str("hash.ped1024 r0 into r1;").unwrap().evaluate(&mut registers, &hasher);
    if r == Err(EvalError::CapacityExceeded(1024)) {
        panic!("The Pedersen hash input cannot exceed 1024 bits.");
    }
}

#[test]
fn hash_of_boolean_keeps_visibility() {
    for vis in [Visibility::Public, Visibility::Private] {
        let (r, registers) = run("hash.ped1024 r0 into r2;", vec![(0, Value::Literal(lit(LiteralData::Boolean(true), vis)))]);
        r.unwrap();
        assert_eq!(registers.load(&reg(2)).unwrap(), &Value::Literal(field(DIGEST_OF_ONE, vis)));
    }
}

#[test]
fn hash_capacity_boundary() {
    let at = Value::Literal(lit(LiteralData::String(vec![b'a'; 128]), Visibility::Public));
    let over = Value::Literal(lit(LiteralData::String(vec![b'a'; 129]), Visibility::Public));
    assert!(!exceeds_capacity(&at, 1024));
    assert!(exceeds_capacity(&over, 1024));
    let (r, _) = run("hash.ped1024 r0 into r2;", vec![(0, at)]);
    assert_eq!(r, Ok(()));
    let (r, registers) = run("hash.ped1024 r0 into r2;", vec![(0, over)]);
    assert_eq!(r, Err(EvalError::CapacityExceeded(1024)));
    assert!(registers.load(&reg(2)).is_err());
}

#[test]
fn hash_rejects_malformed_digest() {
    let input = Value::Literal(lit(LiteralData::Boolean(true), Visibility::Public));
    assert_eq!(Ped1024::output(&input, b"01".to_vec()), Err(EvalError::MalformedDigest));
    assert_eq!(Ped1024::output(&input, b"12x".to_vec()), Err(EvalError::MalformedDigest));
    assert_eq!(
        Ped1024::output(&input, b"12".to_vec()),
        Ok(Value::Literal(field("12", Visibility::Public)))
    );
}

#[test]
fn add_overflow_halts_and_wrapped_add_wraps() {
    let (r, registers) = run("add r0 r1 into r2;", vec![(0, u8v(2)), (1, u8v(255))]);
    assert_eq!(r, Err(EvalError::Overflow));
    assert!(registers.load(&reg(2)).is_err());
    let (r, registers) = run("add.w r0 r1 into r2;", vec![(0, u8v(2)), (1, u8v(255))]);
    assert_eq!(r, Ok(()));
    assert_eq!(registers.load(&reg(2)).unwrap(), &u8v(1));
}

#[test]
fn sub_mul_div_policies() {
    let (r, _) = run("sub r0 r1 into r2;", vec![(0, u8v(1)), (1, u8v(2))]);
    assert_eq!(r, Err(EvalError::Overflow));
    let (_, registers) = run("sub.w r0 r1 into r2;", vec![(0, u8v(1)), (1, u8v(2))]);
    assert_eq!(registers.load(&reg(2)).unwrap(), &u8v(255));
    let (r, _) = run("mul r0 r1 into r2;", vec![(0, i8v(64)), (1, i8v(2))]);
    assert_eq!(r, Err(EvalError::Overflow));
    let (_, registers) = run("mul.w r0 r1 into r2;", vec![(0, i8v(64)), (1, i8v(2))]);
    assert_eq!(registers.load(&reg(2)).unwrap(), &i8v(-128));
    let (r, _) = run("div r0 r1 into r2;", vec![(0, i8v(-128)), (1, i8v(-1))]);
    assert_eq!(r, Err(EvalError::Overflow));
    let (_, registers) = run("div.w r0 r1 into r2;", vec![(0, i8v(-128)), (1, i8v(-1))]);
    assert_eq!(registers.load(&reg(2)).unwrap(), &i8v(-128));
    let (_, registers) = run("div r0 r1 into r2;", vec![(0, i8v(-7)), (1, i8v(2))]);
    assert_eq!(registers.load(&reg(2)).unwrap(), &i8v(-3));
    for op in ["div", "div.w"] {
        let (r, _) = run(&format!("{op} r0 r1 into r2;"), vec![(0, u8v(1)), (1, u8v(0))]);
        assert_eq!(r, Err(EvalError::DivisionByZero));
    }
}

#[test]
fn arithmetic_with_immediates_and_visibility() {
    let mut registers = registers_with(vec![(0, Value::Literal(lit(LiteralData::U128(u128::MAX), Visibility::Private)))], &[2]);
    let hasher = FixedHasher::new(DIGEST_OF_ONE);
    let i = Instruction::from_str("add.w r0 3u128 into r2;").unwrap();
    i.evaluate(&mut registers, &hasher).unwrap();
    assert_eq!(
        registers.load(&reg(2)).unwrap(),
        &Value::Literal(lit(LiteralData::U128(2), Visibility::Private))
    );
}

#[test]
fn evaluation_errors() {
    let (r, _) = run("add r0 r1 into r2;", vec![(0, u8v(1))]);
    assert_eq!(r, Err(EvalError::UndefinedRegister(1)));
    let (r, _) = run("add r0 r1 into r2;", vec![(0, u8v(1)), (1, i8v(1))]);
    assert_eq!(r, Err(EvalError::TypeMismatch));
    let (r, _) = run("add r0 r1 into r7;", vec![(0, u8v(1)), (1, u8v(1))]);
    assert_eq!(r, Err(EvalError::UndefinedRegister(7)));
}

#[test]
fn output_types() {
    let add = Instruction::from_str("add r0 r1 into r2;").unwrap();
    let u8t = RegisterType::Literal(LiteralType::Integer(IntegerType::U8));
    let i8t = RegisterType::Literal(LiteralType::Integer(IntegerType::I8));
    assert_eq!(add.output_type(&vec![u8t.clone(), u8t.clone()]), Ok(u8t.clone()));
    assert_eq!(add.output_type(&vec![u8t.clone(), i8t]), Err(EvalError::TypeMismatch));
    assert_eq!(add.output_type(&vec![u8t.clone()]), Err(EvalError::ArityMismatch));
    let hash = Instruction::from_str("hash.ped1024 r0 into r1;").unwrap();
    assert_eq!(
        hash.output_type(&vec![RegisterType::Composite(b"message".to_vec())]),
        Ok(RegisterType::Literal(LiteralType::Field))
    );
    let (_, registers) = run("add r0 r1 into r2;", vec![(0, u8v(2)), (1, u8v(3))]);
    assert_eq!(registers.load(&reg(2)).unwrap(), &u8v(5));
}

#[test]
fn operands_and_destination() {
    let i = Instruction::from_str("sub r4 -5i16 into r9;").unwrap();
    assert_eq!(i.operands(), vec![Operand::Register(reg(4)), Operand::Literal(LiteralData::I16(-5))]);
    assert_eq!(i.destination(), reg(9));
}

#[test]
fn text_round_trip() {
    let texts = [
        "add r0 r1 into r2;",
        "add.w 2u8 255u8 into r3;",
        "div -128i8 -1i8 into r0;",
        "div.w r1 170141183460469231731687303715884105727i128 into r2;",
        "mul.w 340282366920938463463374607431768211455u128 r0 into r1;",
        "sub true false into r5;",
        "sub.w 7field 0group into r18446744073709551615;",
        "mul 12scalar r1 into r2;",
        "hash.ped1024 \"hello world; into r9\" into r1;",
        "hash.ped1024 aleo1d5hg2z3ma00382pngntdp68e74zv54jdxy249qhaujhks9c72yrs33ddah into r1;",
        "hash.ped1024 -170141183460469231731687303715884105728i128 into r1;",
    ];
    for t in texts {
        let i = Instruction::from_str(t).unwrap();
        assert_eq!(i.to_string(), t);
        assert_eq!(String::from_utf8(i.to_text()).unwrap(), t);
    }
}

#[test]
fn text_sanitization_and_errors() {
    let i = Instruction::from_str("  // a comment\n\t add r0 r1 into r2;").unwrap();
    assert_eq!(i.to_string(), "add r0 r1 into r2;");
    assert_eq!(Instruction::parse("add r0 r1 into r2; rest"), Ok((i.clone(), 18)));
    let j = Instruction::from_str("/* block\n comment */ // line\n/**/add r0 r1 into r2;").unwrap();
    assert_eq!(j, i);
    assert_eq!(Instruction::from_str("/* never closed add r0 r1 into r2;"), Err(ParseError::NoMatch));
    assert_eq!(Instruction::from_str("add r0 r1 into r2; rest"), Err(ParseError::TrailingCharacters(18)));
    for bad in [
        "",
        "add r0 into r2;",
        "ad r0 r1 into r2;",
        "add r0 r1 into r2",
        "add 256u8 r1 into r2;",
        "add -0i8 r1 into r2;",
        "add 01u8 r1 into r2;",
        "add -1u8 r1 into r2;",
        "add r01 r1 into r2;",
        "add -5field r1 into r2;",
        "hash.ped1024 r0 r1 into r2;",
        "add 5u9 r1 into r2;",
    ] {
        assert_eq!(Instruction::from_str(bad), Err(ParseError::NoMatch), "{bad}");
    }
}

#[test]
fn binary_round_trip() {
    let texts = [
        "add r0 r1 into r2;",
        "add.w 2u8 255u8 into r3;",
        "div.w -128i8 -1i8 into r0;",
        "mul -170141183460469231731687303715884105728i128 r0 into r1;",
        "sub true 18446744073709551615u64 into r5;",
        "sub.w 7field 0group into r18446744073709551615;",
        "hash.ped1024 \"hello\" into r1;",
        "hash.ped1024 aleo1d5hg2z3ma00382pngntdp68e74zv54jdxy249qhaujhks9c72yrs33ddah into r1;",
    ];
    for t in texts {
        let i = Instruction::from_str(t).unwrap();
        let mut bytes = i.to_bytes_le();
        let n = bytes.len();
        bytes.extend_from_slice(&[7, 7]);
        assert_eq!(Instruction::read_le(&bytes), Ok((i, n)));
    }
}

#[test]
fn binary_layout_and_errors() {
    let i = Instruction::Add(binary(Operand::Register(reg(1)), Operand::Literal(LiteralData::U8(5)), 2));
    assert_eq!(
        i.to_bytes_le(),
        vec![0, 0, 1, 1, 0, 0, 0, 0, 0, 0, 0, 0, 8, 5, 2, 0, 0, 0, 0, 0, 0, 0]
    );
    assert_eq!(Instruction::read_le(&[9, 0, 1]), Err(DecodeError::UnknownVariant(9)));
    assert_eq!(Instruction::read_le(&[0xff, 0xff]), Err(DecodeError::UnknownVariant(65535)));
    assert_eq!(Instruction::read_le(&[0]), Err(DecodeError::Malformed));
    assert_eq!(Instruction::read_le(&[0, 0, 1, 1, 0, 0]), Err(DecodeError::Malformed));
    let h = Instruction::Ped1024(Ped1024 {
        operation: UnaryOperation { first: Operand::Literal(LiteralData::Boolean(true)), destination: reg(3) },
    });
    assert_eq!(h.to_bytes_le(), vec![8, 0, 0, 0, 1, 3, 0, 0, 0, 0, 0, 0, 0]);
    let discriminants: Vec<u8> = ["add", "add.w", "div", "div.w", "mul", "mul.w", "sub", "sub.w"]
        .iter()
        .map(|op| Instruction::from_str(&format!("{op} r0 r1 into r2;")).unwrap().to_bytes_le()[0])
        .collect();
    assert_eq!(discriminants, vec![0, 1, 2, 3, 4, 5, 6, 7]);
}

fn decl(r: u64, t: LiteralType, v: Visibility) -> Declaration {
    Declaration { register: reg(r), literal_type: t, visibility: v }
}

fn u8decl(r: u64) -> Declaration {
    decl(r, LiteralType::Integer(IntegerType::U8), Visibility::Private)
}

#[test]
fn function_builds_and_evaluates() {
    let mut f = Function::new(b"compute".to_vec());
    assert_eq!(f.phase(), Phase::Empty);
    f.add_input(u8decl(0)).unwrap();
    f.add_input(u8decl(1)).unwrap();
    assert_eq!(f.phase(), Phase::CollectingInputs);
    f.add_instruction(Instruction::from_str("add.w r0 r1 into r2;").unwrap()).unwrap();
    f.add_instruction(Instruction::from_str("mul r2 3u8 into r3;").unwrap()).unwrap();
    assert_eq!(f.phase(), Phase::CollectingInstructions);
    f.add_output(u8decl(3)).unwrap();
    assert_eq!(f.phase(), Phase::CollectingOutputs);
    assert_eq!(f.name(), &b"compute".to_vec());
    assert_eq!(f.inputs(), vec![u8decl(0), u8decl(1)]);
    assert_eq!(f.outputs(), vec![u8decl(3)]);
    assert_eq!(f.instructions().len(), 2);

    let mut registers = registers_with(vec![(0, u8v(200)), (1, u8v(60))], &[2, 3]);
    let hasher = FixedHasher::new(DIGEST_OF_ONE);
    assert_eq!(f.evaluate(&mut registers, &hasher), Ok(()));
    assert_eq!(registers.load(&reg(2)).unwrap(), &u8v(4));
    assert_eq!(registers.load(&reg(3)).unwrap(), &u8v(12));
}

#[test]
fn function_stops_at_first_halt() {
    let mut f = Function::new(b"f".to_vec());
    f.add_input(u8decl(0)).unwrap();
    f.add_instruction(Instruction::from_str("add r0 1u8 into r1;").unwrap()).unwrap();
    f.add_instruction(Instruction::from_str("add r0 255u8 into r2;").unwrap()).unwrap();
    f.add_instruction(Instruction::from_str("add r0 2u8 into r3;").unwrap()).unwrap();
    let mut registers = registers_with(vec![(0, u8v(1))], &[1, 2, 3]);
    let hasher = FixedHasher::new(DIGEST_OF_ONE);
    assert_eq!(f.evaluate(&mut registers, &hasher), Err(FunctionError::Halted(EvalError::Overflow)));
    assert_eq!(registers.load(&reg(1)).unwrap(), &u8v(2));
    assert!(registers.load(&reg(2)).is_err());
    assert!(registers.load(&reg(3)).is_err());
}

#[test]
fn function_phase_discipline() {
    let add = || Instruction::from_str("add r0 r0 into r1;").unwrap();
    let mut f = Function::new(b"f".to_vec());
    let mut registers = Registers::new();
    let hasher = FixedHasher::new(DIGEST_OF_ONE);
    assert_eq!(f.evaluate(&mut registers, &hasher), Err(FunctionError::NoInputs));
    assert_eq!(f.add_instruction(add()), Err(FunctionError::InstructionBeforeInputs));
    assert_eq!(f.add_output(u8decl(1)), Err(FunctionError::OutputBeforeInputs));
    f.add_input(u8decl(0)).unwrap();
    assert_eq!(f.add_input(u8decl(0)), Err(FunctionError::DuplicateInput));
    assert_eq!(f.add_output(u8decl(1)), Err(FunctionError::OutputBeforeInstructions));
    assert_eq!(f.evaluate(&mut registers, &hasher), Err(FunctionError::NoInstructions));
    f.add_instruction(add()).unwrap();
    assert_eq!(f.add_input(u8decl(5)), Err(FunctionError::InputAfterInstructions));
    f.add_output(u8decl(1)).unwrap();
    assert_eq!(f.add_output(u8decl(1)), Ok(()));
    assert_eq!(f.outputs(), vec![u8decl(1)]);
    assert_eq!(f.add_instruction(add()), Err(FunctionError::InstructionAfterOutputs));
    assert_eq!(f.add_input(u8decl(5)), Err(FunctionError::InputAfterInstructions));
}

#[test]
fn function_limits() {
    let mut f = Function::new(b"f".to_vec());
    for r in 0..8 {
        f.add_input(u8decl(r)).unwrap();
    }
    assert_eq!(f.add_input(u8decl(8)), Err(FunctionError::TooManyInputs));
    f.add_instruction(Instruction::from_str("add r0 r0 into r9;").unwrap()).unwrap();
    for r in 0..8 {
        f.add_output(u8decl(r)).unwrap();
    }
    assert_eq!(f.add_output(u8decl(8)), Err(FunctionError::TooManyOutputs));
}
