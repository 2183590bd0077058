use vstd::prelude::*;
use crate::arith::{apply_arith, arith_view, ArithOp};
use crate::literal::{
    check_numeral, is_numeral, literal_bits, literals_view, Literal, LiteralData, LiteralType,
    LiteralView, Value, ValueView, Visibility,
};
use crate::register::{EvalError, Register, Registers};

verus! {

/// The number of bits that `hash.ped1024` accepts.
pub const PED1024_CAPACITY: u64 = 1024;

/// A source of an instruction's input: an immediate literal or a register.
#[derive(Clone, Debug, PartialEq, Eq)]
pub enum Operand {
    Literal(LiteralData),
    Register(Register),
}

pub enum OperandView {
    Literal(LiteralView),
    Register(u64),
}

impl View for Operand {
    type V = OperandView;

    open spec fn view(&self) -> OperandView {
        match self {
            Operand::Literal(l) => OperandView::Literal(l@),
            Operand::Register(r) => OperandView::Register(r.locator),
        }
    }
}

impl Operand {
    pub open spec fn wf(self) -> bool {
        match self {
            Operand::Literal(l) => l.wf(),
            Operand::Register(_) => true,
        }
    }

    /// Returns an identical copy of the operand.
    pub fn copy(&self) -> (r: Operand)
        ensures
            r@ == self@,
            r.wf() == self.wf(),
    {
        match self {
            Operand::Literal(l) => Operand::Literal(l.copy()),
            Operand::Register(r) => Operand::Register(*r),
        }
    }
}

/// Two operands and a destination.
#[derive(Clone, Debug, PartialEq, Eq)]
pub struct BinaryOperation {
    pub first: Operand,
    pub second: Operand,
    pub destination: Register,
}

/// One operand and a destination.
#[derive(Clone, Debug, PartialEq, Eq)]
pub struct UnaryOperation {
    pub first: Operand,
    pub destination: Register,
}

/// Performs a Pedersen hash taking a 1024-bit value as input.
#[derive(Clone, Debug, PartialEq, Eq)]
pub struct Ped1024 {
    pub operation: UnaryOperation,
}

/// One instruction of a function: exactly one operation is active.
#[derive(Clone, Debug, PartialEq, Eq)]
pub enum Instruction {
    /// Adds `first` with `second`, halting on overflow.
    Add(BinaryOperation),
    /// Adds `first` with `second`, wrapping around at the boundary of the type.
    AddWrapped(BinaryOperation),
    /// Divides `first` by `second`, halting on overflow.
    Div(BinaryOperation),
    /// Divides `first` by `second`, wrapping around at the boundary of the type.
    DivWrapped(BinaryOperation),
    /// Multiplies `first` with `second`, halting on overflow.
    Mul(BinaryOperation),
    /// Multiplies `first` with `second`, wrapping around at the boundary of the type.
    MulWrapped(BinaryOperation),
    /// Hashes `first` with the 1024-bit Pedersen hash.
    Ped1024(Ped1024),
    /// Computes `first - second`, halting on overflow.
    Sub(BinaryOperation),
    /// Computes `first - second`, wrapping around at the boundary of the type.
    SubWrapped(BinaryOperation),
}

/// The model of an instruction: an arithmetic operation with its overflow policy,
/// or the hash, with operands and destination.
pub enum InstructionView {
    Binary(ArithOp, bool, OperandView, OperandView, u64),
    Ped1024(OperandView, u64),
}

impl View for Instruction {
    type V = InstructionView;

    open spec fn view(&self) -> InstructionView {
        match self {
            Instruction::Add(o) => InstructionView::Binary(ArithOp::Add, false, o.first@, o.second@, o.destination.locator),
            Instruction::AddWrapped(o) => InstructionView::Binary(ArithOp::Add, true, o.first@, o.second@, o.destination.locator),
            Instruction::Div(o) => InstructionView::Binary(ArithOp::Div, false, o.first@, o.second@, o.destination.locator),
            Instruction::DivWrapped(o) => InstructionView::Binary(ArithOp::Div, true, o.first@, o.second@, o.destination.locator),
            Instruction::Mul(o) => InstructionView::Binary(ArithOp::Mul, false, o.first@, o.second@, o.destination.locator),
            Instruction::MulWrapped(o) => InstructionView::Binary(ArithOp::Mul, true, o.first@, o.second@, o.destination.locator),
            Instruction::Ped1024(h) => InstructionView::Ped1024(h.operation.first@, h.operation.destination.locator),
            Instruction::Sub(o) => InstructionView::Binary(ArithOp::Sub, false, o.first@, o.second@, o.destination.locator),
            Instruction::SubWrapped(o) => InstructionView::Binary(ArithOp::Sub, true, o.first@, o.second@, o.destination.locator),
        }
    }
}

/// The static type of what a register holds.
#[derive(Clone, Debug, PartialEq, Eq)]
pub enum RegisterType {
    Literal(LiteralType),
    /// A composite, by the name of its structure.
    Composite(Vec<u8>),
}

pub enum RegisterTypeView {
    Literal(LiteralType),
    Composite(Seq<u8>),
}

impl View for RegisterType {
    type V = RegisterTypeView;

    open spec fn view(&self) -> RegisterTypeView {
        match self {
            RegisterType::Literal(t) => RegisterTypeView::Literal(*t),
            RegisterType::Composite(n) => RegisterTypeView::Composite(n@),
        }
    }
}

/// The hash primitive that the network provides to `hash.ped1024`.
pub trait PedersenHasher {
    /// Hashes a value whose canonical encoding has at most 1024 bits, returning
    /// the resulting field element as a decimal numeral.
    fn hash_ped1024(&self, input: &Value) -> Vec<u8>;
}

impl InstructionView {
    pub open spec fn operands(self) -> Seq<OperandView> {
        match self {
            InstructionView::Binary(_, _, a, b, _) => seq![a, b],
            InstructionView::Ped1024(a, _) => seq![a],
        }
    }

    pub open spec fn destination(self) -> u64 {
        match self {
            InstructionView::Binary(_, _, _, _, d) => d,
            InstructionView::Ped1024(_, d) => d,
        }
    }
}

impl Instruction {
    pub open spec fn wf(self) -> bool {
        match self {
            Instruction::Ped1024(h) => h.operation.first.wf(),
            Instruction::Add(o) | Instruction::AddWrapped(o) | Instruction::Div(o)
            | Instruction::DivWrapped(o) | Instruction::Mul(o) | Instruction::MulWrapped(o)
            | Instruction::Sub(o) | Instruction::SubWrapped(o) => o.first.wf() && o.second.wf(),
        }
    }
}

/// Public if every part is public, private otherwise.
pub open spec fn join(a: Visibility, b: Visibility) -> Visibility {
    if a == Visibility::Private || b == Visibility::Private {
        Visibility::Private
    } else {
        Visibility::Public
    }
}

pub open spec fn members_bits(s: Seq<(LiteralView, Visibility)>) -> nat
    decreases s.len(),
{
    if s.len() == 0 {
        0
    } else {
        members_bits(s.drop_last()) + literal_bits(s.last().0)
    }
}

pub open spec fn members_visibility(s: Seq<(LiteralView, Visibility)>) -> Visibility
    decreases s.len(),
{
    if s.len() == 0 {
        Visibility::Public
    } else {
        join(members_visibility(s.drop_last()), s.last().1)
    }
}

/// Number of bits in the canonical encoding of a value: its literals' bits, in order.
pub open spec fn value_bits(v: ValueView) -> nat {
    match v {
        ValueView::Literal(l, _) => literal_bits(l),
        ValueView::Composite(_, ms) => members_bits(ms),
    }
}

/// Private if any part of the value is private.
pub open spec fn value_visibility(v: ValueView) -> Visibility {
    match v {
        ValueView::Literal(_, vis) => vis,
        ValueView::Composite(_, ms) => members_visibility(ms),
    }
}

pub open spec fn type_of(v: ValueView) -> RegisterTypeView {
    match v {
        ValueView::Literal(l, _) => RegisterTypeView::Literal(l.0),
        ValueView::Composite(name, _) => RegisterTypeView::Composite(name),
    }
}

/// The value an operand stands for in a register file; immediates are public.
pub open spec fn operand_value(o: OperandView, m: Map<u64, Option<ValueView>>) -> Result<ValueView, EvalError> {
    match o {
        OperandView::Literal(l) => Ok(ValueView::Literal(l, Visibility::Public)),
        OperandView::Register(r) => if m.contains_key(r) && m[r] is Some {
            Ok(m[r]->Some_0)
        } else {
            Err(EvalError::UndefinedRegister(r))
        },
    }
}

/// The value an instruction computes from its operands' values. The hash's
/// result is `digest`, the field element that the hash primitive returned.
pub open spec fn compute(i: InstructionView, vals: Seq<ValueView>, digest: Seq<u8>) -> Result<ValueView, EvalError> {
    match i {
        InstructionView::Binary(op, wrapped, _, _, _) => match (vals[0], vals[1]) {
            (ValueView::Literal(a, va), ValueView::Literal(b, vb)) => match arith_view(op, wrapped, a, b) {
                Ok(c) => Ok(ValueView::Literal(c, join(va, vb))),
                Err(e) => Err(e),
            },
            _ => Err(EvalError::TypeMismatch),
        },
        InstructionView::Ped1024(_, _) => if value_bits(vals[0]) > PED1024_CAPACITY {
            Err(EvalError::CapacityExceeded(PED1024_CAPACITY))
        } else if !is_numeral(digest) {
            Err(EvalError::MalformedDigest)
        } else {
            Ok(ValueView::Literal((LiteralType::Field, 0, digest), value_visibility(vals[0])))
        },
    }
}

/// The operands' values, first to last, or the first operand that cannot be resolved.
pub open spec fn resolve(i: InstructionView, m: Map<u64, Option<ValueView>>) -> Result<Seq<ValueView>, EvalError> {
    match i {
        InstructionView::Binary(_, _, a, b, _) => match operand_value(a, m) {
            Err(e) => Err(e),
            Ok(x) => match operand_value(b, m) {
                Err(e) => Err(e),
                Ok(y) => Ok(seq![x, y]),
            },
        },
        InstructionView::Ped1024(a, _) => match operand_value(a, m) {
            Err(e) => Err(e),
            Ok(x) => Ok(seq![x]),
        },
    }
}

/// One instruction's effect on a register file: the new file, or why it halts.
pub open spec fn step(i: InstructionView, m: Map<u64, Option<ValueView>>, digest: Seq<u8>) -> Result<Map<u64, Option<ValueView>>, EvalError> {
    match resolve(i, m) {
        Err(e) => Err(e),
        Ok(vals) => match compute(i, vals, digest) {
            Err(e) => Err(e),
            Ok(v) => if m.contains_key(i.destination()) {
                Ok(m.insert(i.destination(), Some(v)))
            } else {
                Err(EvalError::UndefinedRegister(i.destination()))
            },
        },
    }
}

pub open spec fn outcome(r: Result<(), EvalError>, m: Map<u64, Option<ValueView>>) -> Result<Map<u64, Option<ValueView>>, EvalError> {
    match r {
        Ok(_) => Ok(m),
        Err(e) => Err(e),
    }
}

/// The static result type of an instruction, from the types of its operands.
pub open spec fn output_type_spec(i: InstructionView, ts: Seq<RegisterTypeView>) -> Result<RegisterTypeView, EvalError> {
    if ts.len() != i.operands().len() {
        Err(EvalError::ArityMismatch)
    } else {
        match i {
            InstructionView::Binary(_, _, _, _, _) => match (ts[0], ts[1]) {
                (RegisterTypeView::Literal(a), RegisterTypeView::Literal(b)) => if a is Integer && a == b {
                    Ok(RegisterTypeView::Literal(a))
                } else {
                    Err(EvalError::TypeMismatch)
                },
                _ => Err(EvalError::TypeMismatch),
            },
            InstructionView::Ped1024(_, _) => Ok(RegisterTypeView::Literal(LiteralType::Field)),
        }
    }
}

fn resolve_operand(o: &Operand, registers: &Registers) -> (r: Result<Value, EvalError>)
    ensures
        match r {
            Ok(v) => operand_value(o@, registers@) == Ok::<ValueView, EvalError>(v@),
            Err(e) => operand_value(o@, registers@) == Err::<ValueView, EvalError>(e),
        },
{
    match o {
        Operand::Literal(l) => Ok(Value::Literal(Literal { data: l.copy(), visibility: Visibility::Public })),
        Operand::Register(reg) => match registers.load(reg) {
            Ok(v) => Ok(v.copy()),
            Err(e) => Err(e),
        },
    }
}

fn join_exec(a: Visibility, b: Visibility) -> (r: Visibility)
    ensures
        r == join(a, b),
{
    if a == Visibility::Private || b == Visibility::Private {
        Visibility::Private
    } else {
        Visibility::Public
    }
}

/// Whether the canonical encoding of the value has more than `capacity` bits.
pub fn exceeds_capacity(v: &Value, capacity: u64) -> (r: bool)
    requires
        capacity <= u32::MAX,
    ensures
        r == (value_bits(v@) > capacity),
{
    match v {
        Value::Literal(l) => l.data.bit_length() > capacity,
        Value::Composite(_, members) => {
            let mut total: u64 = 0;
            let mut i: usize = 0;
            while i < members.len()
                invariant
                    i <= members@.len(),
                    capacity <= u32::MAX,
                    total <= capacity,
                    total == members_bits(literals_view(members@.subrange(0, i as int))),
                    value_bits(v@) == members_bits(literals_view(members@)),
                decreases members@.len() - i,
            {
                let ghost pre = literals_view(members@.subrange(0, i as int));
                let ghost post = literals_view(members@.subrange(0, i as int + 1));
                assert(post.drop_last() =~= pre);
                let b = members[i].data.bit_length();
                i += 1;
                proof {
                    assert(post.last() == members@[i - 1]@);
                    assert(members_bits(post) == members_bits(pre) + literal_bits(members@[i - 1].data@));
                    assert(literals_view(members@).subrange(0, i as int) =~= post);
                    lemma_members_bits_prefix(literals_view(members@), i as int);
                }
                if b > capacity {
                    return true;
                }
                total = total + b;
                if total > capacity {
                    return true;
                }
            }
            assert(literals_view(members@.subrange(0, i as int)) =~= literals_view(members@));
            false
        },
    }
}

/// The bits of a prefix never exceed the bits of the whole.
proof fn lemma_members_bits_prefix(s: Seq<(LiteralView, Visibility)>, k: int)
    requires
        0 <= k <= s.len(),
    ensures
        members_bits(s.subrange(0, k)) <= members_bits(s),
    decreases s.len() - k,
{
    if k < s.len() {
        lemma_members_bits_prefix(s, k + 1);
        assert(s.subrange(0, k + 1).drop_last() =~= s.subrange(0, k));
    } else {
        assert(s.subrange(0, k) =~= s);
    }
}

/// Whether any part of the value is private.
pub fn visibility_of(v: &Value) -> (r: Visibility)
    ensures
        r == value_visibility(v@),
{
    match v {
        Value::Literal(l) => l.visibility,
        Value::Composite(_, members) => {
            let mut vis = Visibility::Public;
            let mut i: usize = 0;
            while i < members.len()
                invariant
                    i <= members@.len(),
                    vis == members_visibility(literals_view(members@.subrange(0, i as int))),
                decreases members@.len() - i,
            {
                let ghost pre = literals_view(members@.subrange(0, i as int));
                let ghost post = literals_view(members@.subrange(0, i as int + 1));
                assert(post.drop_last() =~= pre);
                vis = join_exec(vis, members[i].visibility);
                i += 1;
            }
            assert(literals_view(members@.subrange(0, i as int)) =~= literals_view(members@));
            vis
        },
    }
}

impl Ped1024 {
    /// The value that the hash writes, given its input and the field element
    /// (as a decimal numeral) that the hash primitive returned for it.
    pub fn output(input: &Value, digest: Vec<u8>) -> (r: Result<Value, EvalError>)
        ensures
            match r {
                Ok(v) => compute(InstructionView::Ped1024(OperandView::Register(0), 0), seq![input@], digest@) == Ok::<ValueView, EvalError>(v@),
                Err(e) => compute(InstructionView::Ped1024(OperandView::Register(0), 0), seq![input@], digest@) == Err::<ValueView, EvalError>(e),
            },
    {
        if exceeds_capacity(input, PED1024_CAPACITY) {
            return Err(EvalError::CapacityExceeded(PED1024_CAPACITY));
        }
        if !check_numeral(&digest) {
            return Err(EvalError::MalformedDigest);
        }
        Ok(Value::Literal(Literal { data: LiteralData::Field(digest), visibility: visibility_of(input) }))
    }
}

impl Instruction {
    /// Evaluates the instruction, recording the hash result it relied on.
    pub(crate) fn evaluate_recorded<H: PedersenHasher>(&self, registers: &mut Registers, hasher: &H) -> (r: (Result<(), EvalError>, Ghost<Seq<u8>>))
        ensures
            outcome(r.0, final(registers)@) == step(self@, old(registers)@, r.1@),
            r.0 is Err ==> final(registers)@ == old(registers)@,
    {
        match self {
            Instruction::Ped1024(h) => {
                let input = match resolve_operand(&h.operation.first, registers) {
                    Ok(v) => v,
                    Err(e) => return (Err(e), Ghost(Seq::empty())),
                };
                if exceeds_capacity(&input, PED1024_CAPACITY) {
                    return (Err(EvalError::CapacityExceeded(PED1024_CAPACITY)), Ghost(Seq::empty()));
                }
                let digest = hasher.hash_ped1024(&input);
                let ghost d = digest@;
                let v = match Ped1024::output(&input, digest) {
                    Ok(v) => v,
                    Err(e) => return (Err(e), Ghost(d)),
                };
                proof {
                    assert(resolve(self@, old(registers)@) == Ok::<Seq<ValueView>, EvalError>(seq![input@]));
                }
                (registers.assign(&h.operation.destination, v), Ghost(d))
            },
            Instruction::Add(o) => (Self::evaluate_binary(o, ArithOp::Add, false, registers), Ghost(Seq::empty())),
            Instruction::AddWrapped(o) => (Self::evaluate_binary(o, ArithOp::Add, true, registers), Ghost(Seq::empty())),
            Instruction::Div(o) => (Self::evaluate_binary(o, ArithOp::Div, false, registers), Ghost(Seq::empty())),
            Instruction::DivWrapped(o) => (Self::evaluate_binary(o, ArithOp::Div, true, registers), Ghost(Seq::empty())),
            Instruction::Mul(o) => (Self::evaluate_binary(o, ArithOp::Mul, false, registers), Ghost(Seq::empty())),
            Instruction::MulWrapped(o) => (Self::evaluate_binary(o, ArithOp::Mul, true, registers), Ghost(Seq::empty())),
            Instruction::Sub(o) => (Self::evaluate_binary(o, ArithOp::Sub, false, registers), Ghost(Seq::empty())),
            Instruction::SubWrapped(o) => (Self::evaluate_binary(o, ArithOp::Sub, true, registers), Ghost(Seq::empty())),
        }
    }

    /// Evaluates the instruction against the register file: resolves the
    /// operands, applies the operation, and writes the destination register.
    /// On failure no register is touched. Only a hash depends on what the
    /// hasher answers; every other instruction's effect is fixed.
    pub fn evaluate<H: PedersenHasher>(&self, registers: &mut Registers, hasher: &H) -> (r: Result<(), EvalError>)
        ensures
            exists|d: Seq<u8>| outcome(r, final(registers)@) == #[trigger] step(self@, old(registers)@, d),
            !(self@ is Ped1024) ==> outcome(r, final(registers)@) == step(self@, old(registers)@, Seq::empty()),
            r is Err ==> final(registers)@ == old(registers)@,
    {
        let (r, Ghost(d)) = self.evaluate_recorded(registers, hasher);
        assert(outcome(r, registers@) == step(self@, old(registers)@, d));
        r
    }

    fn evaluate_binary(o: &BinaryOperation, op: ArithOp, wrapped: bool, registers: &mut Registers) -> (r: Result<(), EvalError>)
        ensures
            forall|d: Seq<u8>| outcome(r, final(registers)@) == #[trigger] step(
                InstructionView::Binary(op, wrapped, o.first@, o.second@, o.destination.locator),
                old(registers)@,
                d,
            ),
            r is Err ==> final(registers)@ == old(registers)@,
    {
        let x = match resolve_operand(&o.first, registers) {
            Ok(v) => v,
            Err(e) => return Err(e),
        };
        let y = match resolve_operand(&o.second, registers) {
            Ok(v) => v,
            Err(e) => return Err(e),
        };
        let ghost vals = seq![x@, y@];
        let ghost i = InstructionView::Binary(op, wrapped, o.first@, o.second@, o.destination.locator);
        assert(resolve(i, old(registers)@) == Ok::<Seq<ValueView>, EvalError>(vals));
        match (&x, &y) {
            (Value::Literal(a), Value::Literal(b)) => {
                let c = match apply_arith(op, wrapped, &a.data, &b.data) {
                    Ok(c) => c,
                    Err(e) => return Err(e),
                };
                let vis = join_exec(a.visibility, b.visibility);
                registers.assign(&o.destination, Value::Literal(Literal { data: c, visibility: vis }))
            },
            _ => Err(EvalError::TypeMismatch),
        }
    }

    /// Returns the operands of the instruction, in order.
    pub fn operands(&self) -> (r: Vec<Operand>)
        ensures
            r@.map_values(|o: Operand| o@) == self@.operands(),
    {
        let r = match self {
            Instruction::Ped1024(h) => vec![h.operation.first.copy()],
            Instruction::Add(o) | Instruction::AddWrapped(o) | Instruction::Div(o)
            | Instruction::DivWrapped(o) | Instruction::Mul(o) | Instruction::MulWrapped(o)
            | Instruction::Sub(o) | Instruction::SubWrapped(o) => vec![o.first.copy(), o.second.copy()],
        };
        assert(r@.map_values(|o: Operand| o@) =~= self@.operands());
        r
    }

    /// Returns the destination register of the instruction.
    pub fn destination(&self) -> (r: Register)
        ensures
            r.locator == self@.destination(),
    {
        match self {
            Instruction::Ped1024(h) => h.operation.destination,
            Instruction::Add(o) | Instruction::AddWrapped(o) | Instruction::Div(o)
            | Instruction::DivWrapped(o) | Instruction::Mul(o) | Instruction::MulWrapped(o)
            | Instruction::Sub(o) | Instruction::SubWrapped(o) => o.destination,
        }
    }

    /// Returns the type of the result from the types of the operands, without evaluating.
    pub fn output_type(&self, inputs: &Vec<RegisterType>) -> (r: Result<RegisterType, EvalError>)
        ensures
            match r {
                Ok(t) => output_type_spec(self@, inputs@.map_values(|t: RegisterType| t@)) == Ok::<RegisterTypeView, EvalError>(t@),
                Err(e) => output_type_spec(self@, inputs@.map_values(|t: RegisterType| t@)) == Err::<RegisterTypeView, EvalError>(e),
            },
    {
        match self {
            Instruction::Ped1024(_) => {
                if inputs.len() != 1 {
                    return Err(EvalError::ArityMismatch);
                }
                Ok(RegisterType::Literal(LiteralType::Field))
            },
            _ => {
                if inputs.len() != 2 {
                    return Err(EvalError::ArityMismatch);
                }
                match (&inputs[0], &inputs[1]) {
                    (RegisterType::Literal(LiteralType::Integer(a)), RegisterType::Literal(LiteralType::Integer(b))) => {
                        if *a == *b {
                            Ok(RegisterType::Literal(LiteralType::Integer(*a)))
                        } else {
                            Err(EvalError::TypeMismatch)
                        }
                    },
                    _ => Err(EvalError::TypeMismatch),
                }
            },
        }
    }
}

} // verus!
