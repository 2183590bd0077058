use vstd::prelude::*;
use crate::arith::ArithOp;
use crate::instruction::{BinaryOperation, Instruction, InstructionView, Operand, OperandView, Ped1024, UnaryOperation};
use crate::register::Register;
use crate::literal::{
    check_address_body, check_numeral, check_string_body, is_address_body, is_numeral,
    is_string_body,
    IntegerType, LiteralData, LiteralType, LiteralView,
};

verus! {

pub open spec fn pow256(n: nat) -> nat
    decreases n,
{
    if n == 0 {
        1
    } else {
        256 * pow256((n - 1) as nat)
    }
}

/// The `n` low bytes of `x`, least significant first.
pub open spec fn le_bytes(x: nat, n: nat) -> Seq<u8>
    decreases n,
{
    if n == 0 {
        Seq::empty()
    } else {
        seq![(x % 256) as u8] + le_bytes(x / 256, (n - 1) as nat)
    }
}

/// The number that the bytes spell, least significant first.
pub open spec fn le_value(s: Seq<u8>) -> nat
    decreases s.len(),
{
    if s.len() == 0 {
        0
    } else {
        s[0] as nat + 256 * le_value(s.drop_first())
    }
}

pub proof fn lemma_le_value_bound(s: Seq<u8>)
    ensures
        le_value(s) < pow256(s.len()),
    decreases s.len(),
{
    if s.len() > 0 {
        lemma_le_value_bound(s.drop_first());
        let a = s[0] as nat;
        let b = le_value(s.drop_first());
        let p = pow256((s.len() - 1) as nat);
        assert(a + 256 * b < 256 * p) by (nonlinear_arith)
            requires a < 256, b < p;
    }
}

/// Reading back the bytes of a number that fits gives the number.
pub proof fn lemma_le_round_trip(x: nat, n: nat)
    requires
        x < pow256(n),
    ensures
        le_bytes(x, n).len() == n,
        le_value(le_bytes(x, n)) == x,
    decreases n,
{
    if n > 0 {
        let p = pow256((n - 1) as nat);
        assert(x / 256 < p) by (nonlinear_arith)
            requires x < 256 * p;
        lemma_le_round_trip(x / 256, (n - 1) as nat);
        let s = le_bytes(x, n);
        assert(s.drop_first() =~= le_bytes(x / 256, (n - 1) as nat));
        assert(x == x % 256 + 256 * (x / 256)) by (nonlinear_arith);
    }
}

proof fn lemma_pow256_values()
    ensures
        pow256(1) == 0x100,
        pow256(2) == 0x1_0000,
        pow256(4) == 0x1_0000_0000,
        pow256(8) == 0x1_0000_0000_0000_0000,
        pow256(16) == u128::MAX as int + 1,
{
    reveal_with_fuel(pow256, 17);
}

/// Appends the `n` low bytes of `x`, least significant first.
pub fn push_le(x: u128, n: usize, out: &mut Vec<u8>)
    requires
        n <= 16,
    ensures
        final(out)@ == old(out)@ + le_bytes(x as nat, n as nat),
    decreases n,
{
    if n > 0 {
        out.push((x % 256) as u8);
        push_le(x / 256, n - 1, out);
        assert(final(out)@ =~= old(out)@ + le_bytes(x as nat, n as nat));
    }
}

/// Reads the number that `n` bytes at `pos` spell, least significant first.
pub fn read_le_nat(s: &[u8], pos: usize, n: usize) -> (r: u128)
    requires
        n <= 16,
        pos + n <= s@.len(),
    ensures
        r as nat == le_value(s@.subrange(pos as int, pos + n)),
    decreases n,
{
    if n == 0 {
        0
    } else {
        let len = s.len();
        assert(pos + 1 <= len);
        let rest = read_le_nat(s, pos + 1, n - 1);
        proof {
            let t = s@.subrange(pos as int, pos + n);
            assert(t.drop_first() =~= s@.subrange(pos + 1, pos + n));
            lemma_le_value_bound(s@.subrange(pos + 1, pos + n));
            lemma_pow256_values();
            lemma_pow256_mono((n - 1) as nat, 15);
            assert(256 * (rest as nat) + 255 <= u128::MAX) by (nonlinear_arith)
                requires rest < pow256(15), pow256(16) == 256 * pow256(15), pow256(16) == u128::MAX as int + 1;
        }
        s[pos] as u128 + 256 * rest
    }
}

proof fn lemma_pow256_mono(a: nat, b: nat)
    requires
        a <= b,
    ensures
        pow256(a) <= pow256(b),
    decreases b,
{
    if a < b {
        lemma_pow256_mono(a, (b - 1) as nat);
    }
}

/// Number of bytes of an integer of type `t`.
pub open spec fn width(t: IntegerType) -> nat {
    t.bits() / 8
}

/// The two's complement bit pattern of `v` as a number.
pub open spec fn pattern(t: IntegerType, v: int) -> nat {
    if v >= 0 {
        v as nat
    } else {
        (v + t.modulus()) as nat
    }
}

/// The value of type `t` whose bit pattern is `p`.
pub open spec fn unpattern(t: IntegerType, p: nat) -> int {
    if t.is_signed() && p > t.max() {
        p - t.modulus()
    } else {
        p as int
    }
}

proof fn lemma_width(t: IntegerType)
    ensures
        pow256(width(t)) == t.modulus(),
        1 <= width(t) <= 16,
{
    lemma_pow256_values();
}

fn int_pattern(d: &LiteralData) -> (r: (u128, usize))
    requires
        d.is_integer(),
    ensures
        r.0 as nat == pattern(d.literal_type()->Integer_0, d.int_value()),
        r.1 as nat == width(d.literal_type()->Integer_0),
{
    match d {
        LiteralData::I8(v) => if *v >= 0 { ((*v) as u128, 1) } else { (((*v) as i128 + 0x100) as u128, 1) },
        LiteralData::I16(v) => if *v >= 0 { ((*v) as u128, 2) } else { (((*v) as i128 + 0x1_0000) as u128, 2) },
        LiteralData::I32(v) => if *v >= 0 { ((*v) as u128, 4) } else { (((*v) as i128 + 0x1_0000_0000) as u128, 4) },
        LiteralData::I64(v) => if *v >= 0 { ((*v) as u128, 8) } else { (((*v) as i128 + 0x1_0000_0000_0000_0000) as u128, 8) },
        LiteralData::I128(v) => if *v >= 0 { ((*v) as u128, 16) } else { (((*v + i128::MAX + 1) as u128) + 0x8000_0000_0000_0000_0000_0000_0000_0000u128, 16) },
        LiteralData::U8(v) => ((*v) as u128, 1),
        LiteralData::U16(v) => ((*v) as u128, 2),
        LiteralData::U32(v) => ((*v) as u128, 4),
        LiteralData::U64(v) => ((*v) as u128, 8),
        LiteralData::U128(v) => ((*v) as u128, 16),
        _ => (0, 0),
    }
}

fn int_from_pattern(t: IntegerType, p: u128) -> (r: LiteralData)
    requires
        (p as int) < t.modulus(),
    ensures
        r@ == (LiteralType::Integer(t), unpattern(t, p as nat), Seq::<u8>::empty()),
        r.wf(),
{
    match t {
        IntegerType::I8 => if p > i8::MAX as u128 { LiteralData::I8((p as i128 - 0x100) as i8) } else { LiteralData::I8(p as i8) },
        IntegerType::I16 => if p > i16::MAX as u128 { LiteralData::I16((p as i128 - 0x1_0000) as i16) } else { LiteralData::I16(p as i16) },
        IntegerType::I32 => if p > i32::MAX as u128 { LiteralData::I32((p as i128 - 0x1_0000_0000) as i32) } else { LiteralData::I32(p as i32) },
        IntegerType::I64 => if p > i64::MAX as u128 { LiteralData::I64((p as i128 - 0x1_0000_0000_0000_0000) as i64) } else { LiteralData::I64(p as i64) },
        IntegerType::I128 => if p > i128::MAX as u128 { LiteralData::I128((p - 0x8000_0000_0000_0000_0000_0000_0000_0000u128) as i128 - i128::MAX - 1) } else { LiteralData::I128(p as i128) },
        IntegerType::U8 => LiteralData::U8(p as u8),
        IntegerType::U16 => LiteralData::U16(p as u16),
        IntegerType::U32 => LiteralData::U32(p as u32),
        IntegerType::U64 => LiteralData::U64(p as u64),
        IntegerType::U128 => LiteralData::U128(p as u128),
    }
}

/// The text payloads a kind accepts.
pub open spec fn text_ok(t: LiteralType, b: Seq<u8>) -> bool {
    match t {
        LiteralType::Field | LiteralType::Group | LiteralType::Scalar => is_numeral(b),
        LiteralType::Address => is_address_body(b),
        LiteralType::String => is_string_body(b),
        _ => false,
    }
}

/// The models of well-formed literal payloads.
pub open spec fn literal_view_wf(l: LiteralView) -> bool {
    match l.0 {
        LiteralType::Boolean => (l.1 == 0 || l.1 == 1) && l.2 == Seq::<u8>::empty(),
        LiteralType::Integer(t) => t.in_range(l.1) && l.2 == Seq::<u8>::empty(),
        _ => l.1 == 0 && text_ok(l.0, l.2),
    }
}

pub proof fn lemma_literal_view_wf(d: LiteralData)
    requires
        d.wf(),
    ensures
        literal_view_wf(d@),
{
}

/// Binary form of a literal: its kind code, then a boolean as one byte, an
/// integer as its two's complement bytes, a text payload as a two-byte length
/// and the bytes.
pub open spec fn encode_literal(l: LiteralView) -> Seq<u8> {
    seq![l.0.code_spec()] + match l.0 {
        LiteralType::Boolean => seq![l.1 as u8],
        LiteralType::Integer(t) => le_bytes(pattern(t, l.1), width(t)),
        _ => le_bytes(l.2.len(), 2) + l.2,
    }
}

/// The literal whose binary form starts at `pos`, and the position after it.
pub open spec fn decode_literal(s: Seq<u8>, pos: int) -> Option<(LiteralView, int)> {
    if !(0 <= pos < s.len()) {
        None
    } else {
        match LiteralType::from_code_spec(s[pos]) {
            None => None,
            Some(t) => match t {
                LiteralType::Boolean => if pos + 1 < s.len() && s[pos + 1] <= 1 {
                    Some(((t, s[pos + 1] as int, Seq::empty()), pos + 2))
                } else {
                    None
                },
                LiteralType::Integer(it) => if pos + 1 + width(it) <= s.len() {
                    Some(((t, unpattern(it, le_value(s.subrange(pos + 1, pos + 1 + width(it)))), Seq::empty()), pos + 1 + width(it)))
                } else {
                    None
                },
                _ => if pos + 3 <= s.len() {
                    let n = le_value(s.subrange(pos + 1, pos + 3));
                    if pos + 3 + n <= s.len() && text_ok(t, s.subrange(pos + 3, pos + 3 + n)) {
                        Some(((t, 0, s.subrange(pos + 3, pos + 3 + n)), pos + 3 + n))
                    } else {
                        None
                    }
                } else {
                    None
                },
            },
        }
    }
}

/// Appends the binary form of a literal.
pub fn write_literal(d: &LiteralData, out: &mut Vec<u8>)
    requires
        d.wf(),
    ensures
        final(out)@ == old(out)@ + encode_literal(d@),
{
    let t = d.get_type();
    out.push(t.code());
    match d {
        LiteralData::Boolean(b) => {
            out.push(if *b { 1u8 } else { 0u8 });
        },
        LiteralData::Field(b) | LiteralData::Group(b) | LiteralData::Scalar(b)
        | LiteralData::Address(b) | LiteralData::String(b) => {
            push_le(b.len() as u128, 2, out);
            let mut i: usize = 0;
            let ghost mid = out@;
            while i < b.len()
                invariant
                    i <= b@.len(),
                    out@ == mid + b@.subrange(0, i as int),
                decreases b@.len() - i,
            {
                out.push(b[i]);
                i += 1;
                assert(out@ =~= mid + b@.subrange(0, i as int));
            }
            assert(b@.subrange(0, b@.len() as int) =~= b@);
        },
        _ => {
            let (p, w) = int_pattern(d);
            push_le(p, w, out);
        },
    }
    assert(final(out)@ =~= old(out)@ + encode_literal(d@));
}

fn width_exec(t: IntegerType) -> (r: usize)
    ensures
        r as nat == width(t),
{
    match t {
        IntegerType::I8 | IntegerType::U8 => 1,
        IntegerType::I16 | IntegerType::U16 => 2,
        IntegerType::I32 | IntegerType::U32 => 4,
        IntegerType::I64 | IntegerType::U64 => 8,
        IntegerType::I128 | IntegerType::U128 => 16,
    }
}

/// Copies `n` bytes starting at `pos`.
pub fn copy_range(s: &[u8], pos: usize, n: usize) -> (r: Vec<u8>)
    requires
        pos + n <= s@.len(),
    ensures
        r@ == s@.subrange(pos as int, pos + n),
{
    let mut r: Vec<u8> = Vec::new();
    let mut i: usize = 0;
    let len = s.len();
    while i < n
        invariant
            i <= n,
            len == s@.len(),
            pos + n <= s@.len(),
            r@ == s@.subrange(pos as int, pos + i),
        decreases n - i,
    {
        r.push(s[pos + i]);
        i += 1;
        assert(r@ =~= s@.subrange(pos as int, pos + i));
    }
    r
}

/// Reads the literal whose binary form starts at `pos`.
pub fn read_literal(s: &[u8], pos: usize) -> (r: Option<(LiteralData, usize)>)
    ensures
        match r {
            Some((d, q)) => decode_literal(s@, pos as int) == Some((d@, q as int)) && d.wf(),
            None => decode_literal(s@, pos as int) is None,
        },
{
    let len = s.len();
    if pos >= len {
        return None;
    }
    let t = match LiteralType::from_code(s[pos]) {
        Some(t) => t,
        None => return None,
    };
    match t {
        LiteralType::Boolean => {
            if pos + 1 < len && s[pos + 1] <= 1 {
                Some((LiteralData::Boolean(s[pos + 1] == 1), pos + 2))
            } else {
                None
            }
        },
        LiteralType::Integer(it) => {
            let w = width_exec(it);
            if w <= len - pos - 1 {
                let p = read_le_nat(s, pos + 1, w);
                proof {
                    lemma_le_value_bound(s@.subrange(pos + 1, pos + 1 + w));
                    lemma_width(it);
                }
                Some((int_from_pattern(it, p), pos + 1 + w))
            } else {
                None
            }
        },
        _ => {
            if len - pos < 3 {
                return None;
            }
            let n = read_le_nat(s, pos + 1, 2);
            if n > (len - pos - 3) as u128 {
                return None;
            }
            let n = n as usize;
            let b = copy_range(s, pos + 3, n);
            let ok = match t {
                LiteralType::Address => check_address_body(&b),
                LiteralType::String => check_string_body(&b),
                _ => check_numeral(&b),
            };
            if !ok {
                return None;
            }
            let d = match t {
                LiteralType::Field => LiteralData::Field(b),
                LiteralType::Group => LiteralData::Group(b),
                LiteralType::Scalar => LiteralData::Scalar(b),
                LiteralType::Address => LiteralData::Address(b),
                _ => LiteralData::String(b),
            };
            Some((d, pos + 3 + n))
        },
    }
}

/// Reading a literal back from its binary form gives the literal and the
/// position right after it.
pub proof fn lemma_literal_round_trip(l: LiteralView, s: Seq<u8>, pos: int)
    requires
        literal_view_wf(l),
        0 <= pos,
        pos + encode_literal(l).len() <= s.len(),
        s.subrange(pos, pos + encode_literal(l).len()) == encode_literal(l),
    ensures
        decode_literal(s, pos) == Some((l, pos + encode_literal(l).len())),
{
    let e = encode_literal(l);
    assert(s[pos] == e[0]);
    crate::literal::lemma_code_round_trip(l.0);
    match l.0 {
        LiteralType::Boolean => {
            assert(s[pos + 1] == e[1]);
        },
        LiteralType::Integer(t) => {
            lemma_width(t);
            let w = width(t);
            lemma_le_round_trip(pattern(t, l.1), w);
            assert(s.subrange(pos + 1, pos + 1 + w) =~= e.subrange(1, 1 + w as int));
            assert(e.subrange(1, 1 + w as int) =~= le_bytes(pattern(t, l.1), w));
        },
        _ => {
            lemma_pow256_values();
            lemma_le_round_trip(l.2.len(), 2);
            assert(s.subrange(pos + 1, pos + 3) =~= e.subrange(1, 3));
            assert(e.subrange(1, 3) =~= le_bytes(l.2.len(), 2));
            assert(e.len() == 3 + l.2.len());
            assert(e.subrange(3, 3 + l.2.len() as int) =~= l.2);
            assert(s.subrange(pos + 3, pos + 3 + l.2.len()) =~= e.subrange(3, 3 + l.2.len() as int));
        },
    }
}

/// Why bytes could not be read as an instruction.
#[derive(Clone, Copy, Debug, PartialEq, Eq, Structural)]
pub enum DecodeError {
    /// The variant index names no instruction.
    UnknownVariant(u16),
    /// The bytes end early or hold something that is not an operand or a register.
    Malformed,
}

/// Number of instruction variants; binary forms index them from zero.
pub const NUM_VARIANTS: u16 = 9;

pub open spec fn operand_view_wf(o: OperandView) -> bool {
    match o {
        OperandView::Literal(l) => literal_view_wf(l),
        OperandView::Register(_) => true,
    }
}

pub open spec fn instruction_view_wf(i: InstructionView) -> bool {
    match i {
        InstructionView::Binary(_, _, a, b, _) => operand_view_wf(a) && operand_view_wf(b),
        InstructionView::Ped1024(a, _) => operand_view_wf(a),
    }
}

/// Binary form of an operand: 0 and a literal, or 1 and a register's eight bytes.
pub open spec fn encode_operand(o: OperandView) -> Seq<u8> {
    match o {
        OperandView::Literal(l) => seq![0u8] + encode_literal(l),
        OperandView::Register(r) => seq![1u8] + le_bytes(r as nat, 8),
    }
}

pub open spec fn decode_operand(s: Seq<u8>, pos: int) -> Option<(OperandView, int)> {
    if !(0 <= pos < s.len()) {
        None
    } else if s[pos] == 0 {
        match decode_literal(s, pos + 1) {
            Some((l, q)) => Some((OperandView::Literal(l), q)),
            None => None,
        }
    } else if s[pos] == 1 && pos + 9 <= s.len() {
        Some((OperandView::Register(le_value(s.subrange(pos + 1, pos + 9)) as u64), pos + 9))
    } else {
        None
    }
}

/// The discriminant of the variant in binary form: its position in the list
/// Add, AddWrapped, Div, DivWrapped, Mul, MulWrapped, Sub, SubWrapped,
/// Ped1024.
pub open spec fn variant_index(i: InstructionView) -> nat {
    match i {
        InstructionView::Binary(ArithOp::Add, false, _, _, _) => 0,
        InstructionView::Binary(ArithOp::Add, true, _, _, _) => 1,
        InstructionView::Binary(ArithOp::Div, false, _, _, _) => 2,
        InstructionView::Binary(ArithOp::Div, true, _, _, _) => 3,
        InstructionView::Binary(ArithOp::Mul, false, _, _, _) => 4,
        InstructionView::Binary(ArithOp::Mul, true, _, _, _) => 5,
        InstructionView::Binary(ArithOp::Sub, false, _, _, _) => 6,
        InstructionView::Binary(ArithOp::Sub, true, _, _, _) => 7,
        InstructionView::Ped1024(_, _) => 8,
    }
}

/// The discriminant of the hash variant.
pub const PED1024_DISCRIMINANT: u16 = 8;

/// The arithmetic operation and overflow policy of a binary discriminant.
pub open spec fn binary_variant(tag: nat) -> (ArithOp, bool) {
    if tag == 0 {
        (ArithOp::Add, false)
    } else if tag == 1 {
        (ArithOp::Add, true)
    } else if tag == 2 {
        (ArithOp::Div, false)
    } else if tag == 3 {
        (ArithOp::Div, true)
    } else if tag == 4 {
        (ArithOp::Mul, false)
    } else if tag == 5 {
        (ArithOp::Mul, true)
    } else if tag == 6 {
        (ArithOp::Sub, false)
    } else {
        (ArithOp::Sub, true)
    }
}

/// Binary form of an instruction: the variant index in two bytes, then the
/// operands in order, then the destination register.
pub open spec fn encode_instruction(i: InstructionView) -> Seq<u8> {
    le_bytes(variant_index(i), 2) + match i {
        InstructionView::Binary(_, _, a, b, d) => encode_operand(a) + encode_operand(b) + le_bytes(d as nat, 8),
        InstructionView::Ped1024(a, d) => encode_operand(a) + le_bytes(d as nat, 8),
    }
}

/// The instruction whose binary form starts the bytes, and its length.
pub open spec fn decode_instruction(s: Seq<u8>) -> Result<(InstructionView, int), DecodeError> {
    if s.len() < 2 {
        Err(DecodeError::Malformed)
    } else {
        let tag = le_value(s.subrange(0, 2));
        if tag >= NUM_VARIANTS {
            Err(DecodeError::UnknownVariant(tag as u16))
        } else if tag == PED1024_DISCRIMINANT {
            match decode_operand(s, 2) {
                None => Err(DecodeError::Malformed),
                Some((a, q)) => if q + 8 <= s.len() {
                    Ok((InstructionView::Ped1024(a, le_value(s.subrange(q, q + 8)) as u64), q + 8))
                } else {
                    Err(DecodeError::Malformed)
                },
            }
        } else {
            match decode_operand(s, 2) {
                None => Err(DecodeError::Malformed),
                Some((a, q1)) => match decode_operand(s, q1) {
                    None => Err(DecodeError::Malformed),
                    Some((b, q2)) => if q2 + 8 <= s.len() {
                        Ok((InstructionView::Binary(binary_variant(tag).0, binary_variant(tag).1, a, b, le_value(s.subrange(q2, q2 + 8)) as u64), q2 + 8))
                    } else {
                        Err(DecodeError::Malformed)
                    },
                },
            }
        }
    }
}

/// Appends the binary form of an operand.
pub fn write_operand(o: &Operand, out: &mut Vec<u8>)
    requires
        o.wf(),
    ensures
        final(out)@ == old(out)@ + encode_operand(o@),
{
    match o {
        Operand::Literal(l) => {
            out.push(0u8);
            write_literal(l, out);
        },
        Operand::Register(r) => {
            out.push(1u8);
            push_le(r.locator as u128, 8, out);
        },
    }
    assert(final(out)@ =~= old(out)@ + encode_operand(o@));
}

/// Reads the operand whose binary form starts at `pos`.
pub fn read_operand(s: &[u8], pos: usize) -> (r: Option<(Operand, usize)>)
    ensures
        match r {
            Some((o, q)) => decode_operand(s@, pos as int) == Some((o@, q as int)) && o.wf(),
            None => decode_operand(s@, pos as int) is None,
        },
{
    let len = s.len();
    if pos >= len {
        return None;
    }
    if s[pos] == 0 {
        if pos + 1 > len {
            return None;
        }
        match read_literal(s, pos + 1) {
            Some((l, q)) => Some((Operand::Literal(l), q)),
            None => None,
        }
    } else if s[pos] == 1 && len - pos >= 9 {
        let v = read_le_nat(s, pos + 1, 8);
        proof {
            lemma_le_value_bound(s@.subrange(pos + 1, pos + 9));
            lemma_pow256_values();
        }
        Some((Operand::Register(Register { locator: v as u64 }), pos + 9))
    } else {
        None
    }
}

proof fn lemma_register_round_trip(r: u64, s: Seq<u8>, pos: int)
    requires
        0 <= pos,
        pos + 8 <= s.len(),
        s.subrange(pos, pos + 8) == le_bytes(r as nat, 8),
    ensures
        le_value(s.subrange(pos, pos + 8)) == r,
{
    lemma_pow256_values();
    lemma_le_round_trip(r as nat, 8);
}

proof fn lemma_operand_round_trip(o: OperandView, s: Seq<u8>, pos: int)
    requires
        operand_view_wf(o),
        0 <= pos,
        pos + encode_operand(o).len() <= s.len(),
        s.subrange(pos, pos + encode_operand(o).len()) == encode_operand(o),
    ensures
        decode_operand(s, pos) == Some((o, pos + encode_operand(o).len())),
{
    let e = encode_operand(o);
    assert(s[pos] == e[0]);
    match o {
        OperandView::Literal(l) => {
            let el = encode_literal(l);
            assert(s.subrange(pos + 1, pos + 1 + el.len() as int) =~= e.subrange(1, e.len() as int));
            assert(e.subrange(1, e.len() as int) =~= el);
            lemma_literal_round_trip(l, s, pos + 1);
        },
        OperandView::Register(r) => {
            lemma_pow256_values();
            lemma_le_round_trip(r as nat, 8);
            assert(s.subrange(pos + 1, pos + 9) =~= e.subrange(1, 9));
            assert(e.subrange(1, 9) =~= le_bytes(r as nat, 8));
        },
    }
}

/// Reading an instruction back from its binary form gives the instruction;
/// what follows the binary form is left unread.
pub proof fn lemma_instruction_round_trip(i: InstructionView, rest: Seq<u8>)
    requires
        instruction_view_wf(i),
    ensures
        decode_instruction(encode_instruction(i) + rest) == Ok::<(InstructionView, int), DecodeError>(
            (i, encode_instruction(i).len() as int),
        ),
{
    let s = encode_instruction(i) + rest;
    lemma_pow256_values();
    lemma_le_round_trip(variant_index(i), 2);
    assert(s.subrange(0, 2) =~= le_bytes(variant_index(i), 2));
    match i {
        InstructionView::Binary(op, w, a, b, d) => lemma_binary_round_trip(i, rest),
        InstructionView::Ped1024(a, d) => lemma_hash_round_trip(i, rest),
    }
}

proof fn lemma_binary_round_trip(i: InstructionView, rest: Seq<u8>)
    requires
        instruction_view_wf(i),
        i is Binary,
    ensures
        ({
            let s = encode_instruction(i) + rest;
            let q2: int = 2 + encode_operand(i->Binary_2).len() as int + encode_operand(i->Binary_3).len() as int;
            &&& decode_operand(s, 2) == Some((i->Binary_2, 2 + encode_operand(i->Binary_2).len() as int))
            &&& decode_operand(s, 2 + encode_operand(i->Binary_2).len() as int) == Some((i->Binary_3, q2))
            &&& q2 + 8 <= s.len()
            &&& le_value(s.subrange(q2, q2 + 8)) == i->Binary_4
            &&& encode_instruction(i).len() == q2 + 8
        }),
{
    let s = encode_instruction(i) + rest;
    let e = encode_instruction(i);
    let a = i->Binary_2;
    let b = i->Binary_3;
    let d = i->Binary_4;
    lemma_pow256_values();
    lemma_le_round_trip(variant_index(i), 2);
    lemma_le_round_trip(d as nat, 8);
    let ea = encode_operand(a);
    let eb = encode_operand(b);
    let la = ea.len() as int;
    let lb = eb.len() as int;
    assert(e =~= le_bytes(variant_index(i), 2) + ea + eb + le_bytes(d as nat, 8));
    assert(s.subrange(2, 2 + la) =~= ea);
    lemma_operand_round_trip(a, s, 2);
    assert(s.subrange(2 + la, 2 + la + lb) =~= eb);
    lemma_operand_round_trip(b, s, 2 + la);
    let q2: int = 2 + la + lb;
    assert(s.subrange(q2, q2 + 8) =~= le_bytes(d as nat, 8));
    lemma_register_round_trip(d, s, q2);
}

proof fn lemma_hash_round_trip(i: InstructionView, rest: Seq<u8>)
    requires
        instruction_view_wf(i),
        i is Ped1024,
    ensures
        ({
            let s = encode_instruction(i) + rest;
            let q: int = 2 + encode_operand(i->Ped1024_0).len() as int;
            &&& decode_operand(s, 2) == Some((i->Ped1024_0, q))
            &&& q + 8 <= s.len()
            &&& le_value(s.subrange(q, q + 8)) == i->Ped1024_1
            &&& encode_instruction(i).len() == q + 8
        }),
{
    let s = encode_instruction(i) + rest;
    let e = encode_instruction(i);
    let a = i->Ped1024_0;
    let d = i->Ped1024_1;
    lemma_pow256_values();
    lemma_le_round_trip(variant_index(i), 2);
    lemma_le_round_trip(d as nat, 8);
    let ea = encode_operand(a);
    let la = ea.len() as int;
    assert(e =~= le_bytes(variant_index(i), 2) + ea + le_bytes(d as nat, 8));
    assert(s.subrange(2, 2 + la) =~= ea);
    lemma_operand_round_trip(a, s, 2);
    let q: int = 2 + la;
    assert(s.subrange(q, q + 8) =~= le_bytes(d as nat, 8));
    lemma_register_round_trip(d, s, q);
}

impl Instruction {
    /// Appends the binary form of the instruction.
    pub fn write_le(&self, out: &mut Vec<u8>)
        requires
            self.wf(),
        ensures
            final(out)@ == old(out)@ + encode_instruction(self@),
    {
        let tag: u128 = match self {
            Instruction::Add(_) => 0,
            Instruction::AddWrapped(_) => 1,
            Instruction::Div(_) => 2,
            Instruction::DivWrapped(_) => 3,
            Instruction::Mul(_) => 4,
            Instruction::MulWrapped(_) => 5,
            Instruction::Sub(_) => 6,
            Instruction::SubWrapped(_) => 7,
            Instruction::Ped1024(_) => 8,
        };
        push_le(tag, 2, out);
        match self {
            Instruction::Ped1024(h) => {
                write_operand(&h.operation.first, out);
                push_le(h.operation.destination.locator as u128, 8, out);
            },
            Instruction::Add(o) | Instruction::AddWrapped(o) | Instruction::Div(o)
            | Instruction::DivWrapped(o) | Instruction::Mul(o) | Instruction::MulWrapped(o)
            | Instruction::Sub(o) | Instruction::SubWrapped(o) => {
                write_operand(&o.first, out);
                write_operand(&o.second, out);
                push_le(o.destination.locator as u128, 8, out);
            },
        }
        assert(final(out)@ =~= old(out)@ + encode_instruction(self@));
    }

    /// Returns the binary form of the instruction.
    pub fn to_bytes_le(&self) -> (r: Vec<u8>)
        requires
            self.wf(),
        ensures
            r@ == encode_instruction(self@),
    {
        let mut out: Vec<u8> = Vec::new();
        self.write_le(&mut out);
        assert(out@ =~= encode_instruction(self@));
        out
    }

    /// Reads an instruction from the start of the bytes; returns it with the
    /// number of bytes it took.
    pub fn read_le(bytes: &[u8]) -> (r: Result<(Instruction, usize), DecodeError>)
        ensures
            match r {
                Ok((i, n)) => decode_instruction(bytes@) == Ok::<(InstructionView, int), DecodeError>((i@, n as int)) && i.wf(),
                Err(e) => decode_instruction(bytes@) == Err::<(InstructionView, int), DecodeError>(e),
            },
    {
        let len = bytes.len();
        if len < 2 {
            return Err(DecodeError::Malformed);
        }
        let tag = read_le_nat(bytes, 0, 2);
        proof {
            lemma_le_value_bound(bytes@.subrange(0, 2));
            lemma_pow256_values();
        }
        if tag >= NUM_VARIANTS as u128 {
            return Err(DecodeError::UnknownVariant(tag as u16));
        }
        let (first, q1) = match read_operand(bytes, 2) {
            Some(x) => x,
            None => return Err(DecodeError::Malformed),
        };
        if tag == PED1024_DISCRIMINANT as u128 {
            if len - q1 < 8 {
                return Err(DecodeError::Malformed);
            }
            let d = read_le_nat(bytes, q1, 8);
            proof {
                lemma_le_value_bound(bytes@.subrange(q1 as int, q1 + 8));
            }
            let dest = Register { locator: d as u64 };
            return Ok((Instruction::Ped1024(Ped1024 { operation: UnaryOperation { first, destination: dest } }), q1 + 8));
        }
        let (second, q2) = match read_operand(bytes, q1) {
            Some(x) => x,
            None => return Err(DecodeError::Malformed),
        };
        if len - q2 < 8 {
            return Err(DecodeError::Malformed);
        }
        let d = read_le_nat(bytes, q2, 8);
        proof {
            lemma_le_value_bound(bytes@.subrange(q2 as int, q2 + 8));
        }
        let o = BinaryOperation { first, second, destination: Register { locator: d as u64 } };
        let i = if tag == 0 {
            Instruction::Add(o)
        } else if tag == 1 {
            Instruction::AddWrapped(o)
        } else if tag == 2 {
            Instruction::Div(o)
        } else if tag == 3 {
            Instruction::DivWrapped(o)
        } else if tag == 4 {
            Instruction::Mul(o)
        } else if tag == 5 {
            Instruction::MulWrapped(o)
        } else if tag == 6 {
            Instruction::Sub(o)
        } else {
            Instruction::SubWrapped(o)
        };
        Ok((i, q2 + 8))
    }
}

} // verus!
