use vstd::prelude::*;
use crate::arith::{exact, ArithOp};
use crate::codec::{
    decode_instruction, encode_instruction, instruction_view_wf, lemma_instruction_round_trip,
    lemma_literal_view_wf, DecodeError,
};
use crate::text::{instruction_text, lemma_text_round_trip, parse_instruction_at};
use crate::instruction::{
    compute, join, output_type_spec, resolve, step, type_of, value_bits, value_visibility,
    Instruction, InstructionView, Operand, OperandView, RegisterTypeView, PED1024_CAPACITY,
};
use crate::literal::{is_numeral, IntegerType, LiteralType, ValueView, Visibility};
use crate::register::EvalError;
use crate::function::run;
use crate::instruction::operand_value;

verus! {

/// The static types of the operands' values in a register file.
pub open spec fn operand_types(i: InstructionView, m: Map<u64, Option<ValueView>>) -> Seq<RegisterTypeView> {
    match resolve(i, m) {
        Ok(vals) => vals.map_values(|v: ValueView| type_of(v)),
        Err(_) => Seq::empty(),
    }
}

/// Whenever an instruction evaluates, the type of the value it writes is the
/// type that `output_type` gives for the types of its operands.
pub proof fn lemma_type_agreement(i: InstructionView, m: Map<u64, Option<ValueView>>, d: Seq<u8>)
    requires
        step(i, m, d) is Ok,
    ensures
        step(i, m, d)->Ok_0.contains_key(i.destination()),
        step(i, m, d)->Ok_0[i.destination()] is Some,
        output_type_spec(i, operand_types(i, m)) == Ok::<RegisterTypeView, EvalError>(
            type_of(step(i, m, d)->Ok_0[i.destination()]->Some_0),
        ),
{
    let vals = resolve(i, m)->Ok_0;
    let ts = operand_types(i, m);
    let v = compute(i, vals, d)->Ok_0;
    assert(step(i, m, d)->Ok_0[i.destination()] == Some(v));
    match i {
        InstructionView::Binary(op, w, a, b, dst) => {
            assert(ts.len() == 2);
            assert(ts[0] == type_of(vals[0]));
            assert(ts[1] == type_of(vals[1]));
        },
        InstructionView::Ped1024(a, dst) => {
            assert(ts.len() == 1);
        },
    }
}

/// Wrapping gives a value in range that is congruent to its argument.
pub proof fn lemma_wrap_props(t: IntegerType, e: int)
    ensures
        t.in_range(t.wrap(e)),
        (t.wrap(e) - e) % t.modulus() == 0,
{
    let m = t.modulus();
    let w = t.wrap(e);
    let r = (e - t.min()) % m;
    assert(0 <= r < m);
    vstd::arithmetic::div_mod::lemma_fundamental_div_mod(e - t.min(), m);
    let q = (e - t.min()) / m;
    assert(w - e == m * (-q)) by (nonlinear_arith)
        requires e - t.min() == m * q + r, w == r + t.min();
    vstd::arithmetic::div_mod::lemma_mod_multiples_basic(-q, m);
    assert((m * (-q)) % m == 0) by (nonlinear_arith)
        requires ((-q) * m) % m == 0;
}

/// A wrapped operation on two integers of one type, into a defined register,
/// never halts on range grounds: it writes the result reduced modulo 2 to the
/// bit width. Only division by zero halts.
pub proof fn lemma_wrapped_step(
    op: ArithOp,
    t: IntegerType,
    a: OperandView,
    b: OperandView,
    d: u64,
    m: Map<u64, Option<ValueView>>,
    x: int,
    y: int,
    va: Visibility,
    vb: Visibility,
    digest: Seq<u8>,
)
    requires
        operand_value(a, m) == Ok::<ValueView, EvalError>(ValueView::Literal((LiteralType::Integer(t), x, Seq::empty()), va)),
        operand_value(b, m) == Ok::<ValueView, EvalError>(ValueView::Literal((LiteralType::Integer(t), y, Seq::empty()), vb)),
        m.contains_key(d),
    ensures
        op == ArithOp::Div && y == 0 ==> step(InstructionView::Binary(op, true, a, b, d), m, digest)
            == Err::<Map<u64, Option<ValueView>>, EvalError>(EvalError::DivisionByZero),
        !(op == ArithOp::Div && y == 0) ==> step(InstructionView::Binary(op, true, a, b, d), m, digest)
            == Ok::<Map<u64, Option<ValueView>>, EvalError>(m.insert(d, Some(ValueView::Literal(
                (LiteralType::Integer(t), t.wrap(exact(op, x, y)), Seq::empty()),
                join(va, vb),
            )))),
        t.in_range(t.wrap(exact(op, x, y))),
        (t.wrap(exact(op, x, y)) - exact(op, x, y)) % t.modulus() == 0,
{
    lemma_wrap_props(t, exact(op, x, y));
}

/// A hash whose input has at most 1024 bits, into a defined register, writes
/// the field element that the hash primitive returned (when that is a field
/// element); with more bits it halts, whatever the primitive would return.
pub proof fn lemma_hash_step(
    a: OperandView,
    d: u64,
    m: Map<u64, Option<ValueView>>,
    v: ValueView,
    digest: Seq<u8>,
)
    requires
        operand_value(a, m) == Ok::<ValueView, EvalError>(v),
        m.contains_key(d),
    ensures
        value_bits(v) <= 1024 && is_numeral(digest) ==> step(InstructionView::Ped1024(a, d), m, digest)
            == Ok::<Map<u64, Option<ValueView>>, EvalError>(m.insert(d, Some(ValueView::Literal((LiteralType::Field, 0, digest), value_visibility(v))))),
        value_bits(v) > 1024 ==> step(InstructionView::Ped1024(a, d), m, digest)
            == Err::<Map<u64, Option<ValueView>>, EvalError>(EvalError::CapacityExceeded(PED1024_CAPACITY)),
{
}

/// A register that no instruction writes keeps its contents, whatever the run gives.
pub proof fn lemma_run_frame(
    instrs: Seq<InstructionView>,
    m: Map<u64, Option<ValueView>>,
    ds: Seq<Seq<u8>>,
    r: u64,
)
    requires
        forall|j: int| 0 <= j < instrs.len() ==> (#[trigger] instrs[j]).destination() != r,
    ensures
        run(instrs, m, ds).0.contains_key(r) == m.contains_key(r),
        m.contains_key(r) ==> run(instrs, m, ds).0[r] == m[r],
    decreases instrs.len(),
{
    if instrs.len() > 0 {
        let p = instrs.drop_last();
        assert forall|j: int| 0 <= j < p.len() implies (#[trigger] p[j]).destination() != r by {
            assert(p[j] == instrs[j]);
        }
        lemma_run_frame(p, m, ds, r);
        assert(instrs[instrs.len() - 1].destination() != r);
    }
}

/// On operands of one integer type whose exact result is out of range (and
/// not a division by zero), the checked operation halts with an overflow while
/// the wrapped one yields the result reduced modulo 2 to the bit width.
pub proof fn lemma_wrapped_versus_checked(
    op: ArithOp,
    t: IntegerType,
    a: int,
    b: int,
    va: Visibility,
    vb: Visibility,
)
    requires
        t.in_range(a),
        t.in_range(b),
        !(op == ArithOp::Div && b == 0),
        !t.in_range(exact(op, a, b)),
    ensures
        ({
            let x = ValueView::Literal((LiteralType::Integer(t), a, Seq::empty()), va);
            let y = ValueView::Literal((LiteralType::Integer(t), b, Seq::empty()), vb);
            let w = t.wrap(exact(op, a, b));
            &&& compute(InstructionView::Binary(op, false, OperandView::Register(0), OperandView::Register(1), 2), seq![x, y], Seq::empty())
                == Err::<ValueView, EvalError>(EvalError::Overflow)
            &&& compute(InstructionView::Binary(op, true, OperandView::Register(0), OperandView::Register(1), 2), seq![x, y], Seq::empty())
                == Ok::<ValueView, EvalError>(ValueView::Literal((LiteralType::Integer(t), w, Seq::empty()), join(va, vb)))
            &&& t.in_range(w)
            &&& (w - exact(op, a, b)) % t.modulus() == 0
        }),
{
    lemma_wrap_props(t, exact(op, a, b));
}

/// A hash input whose canonical encoding has at most 1024 bits is hashed;
/// one with more halts with the capacity exceeded.
pub proof fn lemma_hash_capacity_boundary(v: ValueView, d: Seq<u8>)
    requires
        is_numeral(d),
    ensures
        value_bits(v) <= 1024 ==> compute(InstructionView::Ped1024(OperandView::Register(0), 1), seq![v], d)
            == Ok::<ValueView, EvalError>(ValueView::Literal((LiteralType::Field, 0, d), value_visibility(v))),
        value_bits(v) > 1024 ==> compute(InstructionView::Ped1024(OperandView::Register(0), 1), seq![v], d)
            == Err::<ValueView, EvalError>(EvalError::CapacityExceeded(PED1024_CAPACITY)),
{
}

/// The model of a well-formed instruction is well formed.
pub proof fn lemma_instruction_wf(i: Instruction)
    requires
        i.wf(),
    ensures
        instruction_view_wf(i@),
{
    match i {
        Instruction::Ped1024(h) => {
            match h.operation.first {
                Operand::Literal(l) => lemma_literal_view_wf(l),
                _ => {},
            }
        },
        Instruction::Add(o) | Instruction::AddWrapped(o) | Instruction::Div(o)
        | Instruction::DivWrapped(o) | Instruction::Mul(o) | Instruction::MulWrapped(o)
        | Instruction::Sub(o) | Instruction::SubWrapped(o) => {
            match o.first {
                Operand::Literal(l) => lemma_literal_view_wf(l),
                _ => {},
            }
            match o.second {
                Operand::Literal(l) => lemma_literal_view_wf(l),
                _ => {},
            }
        },
    }
}

/// Reading back the binary form of a well-formed instruction gives the
/// instruction, however many bytes follow.
pub proof fn lemma_binary_round_trip(i: Instruction, rest: Seq<u8>)
    requires
        i.wf(),
    ensures
        decode_instruction(encode_instruction(i@) + rest) == Ok::<(InstructionView, int), DecodeError>(
            (i@, encode_instruction(i@).len() as int),
        ),
{
    lemma_instruction_wf(i);
    lemma_instruction_round_trip(i@, rest);
}

/// Parsing the text of a well-formed instruction gives the instruction, and
/// the parse ends right after its semicolon, whatever follows.
pub proof fn lemma_text_round_trip_of(i: Instruction, rest: Seq<u8>)
    requires
        i.wf(),
    ensures
        parse_instruction_at(instruction_text(i@) + rest, 0) == Some((i@, instruction_text(i@).len() as int)),
{
    lemma_instruction_wf(i);
    lemma_text_round_trip(i@, rest);
}

} // verus!
