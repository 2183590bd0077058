use vstd::prelude::*;
use vstd::string::StringSliceAdditionalSpecFns;
use crate::arith::ArithOp;
use crate::codec::{literal_view_wf, operand_view_wf, instruction_view_wf};
use crate::decimal::{canonical_digits, dec_digits, digits_value, lemma_canonical_digits, lemma_dec_digits};
use crate::instruction::{BinaryOperation, Instruction, InstructionView, Operand, OperandView, Ped1024, UnaryOperation};
use crate::register::Register;
use crate::literal::{
    LiteralData, is_address_body, is_digit, is_numeral, is_string_body, IntegerType, LiteralType, LiteralView,
};

verus! {

pub open spec fn kw_true() -> Seq<u8> { seq![116u8, 114, 117, 101] }
pub open spec fn kw_false() -> Seq<u8> { seq![102u8, 97, 108, 115, 101] }
pub open spec fn kw_field() -> Seq<u8> { seq![102u8, 105, 101, 108, 100] }
pub open spec fn kw_group() -> Seq<u8> { seq![103u8, 114, 111, 117, 112] }
pub open spec fn kw_scalar() -> Seq<u8> { seq![115u8, 99, 97, 108, 97, 114] }
pub open spec fn kw_aleo1() -> Seq<u8> { seq![97u8, 108, 101, 111, 49] }
/// ` into `
pub open spec fn kw_into() -> Seq<u8> { seq![32u8, 105, 110, 116, 111, 32] }

/// The suffix that names an integer type, such as `u8` or `i128`.
pub open spec fn int_suffix(t: IntegerType) -> Seq<u8> {
    match t {
        IntegerType::I8 => seq![105u8, 56],
        IntegerType::I16 => seq![105u8, 49, 54],
        IntegerType::I32 => seq![105u8, 51, 50],
        IntegerType::I64 => seq![105u8, 54, 52],
        IntegerType::I128 => seq![105u8, 49, 50, 56],
        IntegerType::U8 => seq![117u8, 56],
        IntegerType::U16 => seq![117u8, 49, 54],
        IntegerType::U32 => seq![117u8, 51, 50],
        IntegerType::U64 => seq![117u8, 54, 52],
        IntegerType::U128 => seq![117u8, 49, 50, 56],
    }
}

pub open spec fn suffix_type(s: Seq<u8>) -> Option<IntegerType> {
    if s == int_suffix(IntegerType::I8) { Some(IntegerType::I8) }
    else if s == int_suffix(IntegerType::I16) { Some(IntegerType::I16) }
    else if s == int_suffix(IntegerType::I32) { Some(IntegerType::I32) }
    else if s == int_suffix(IntegerType::I64) { Some(IntegerType::I64) }
    else if s == int_suffix(IntegerType::I128) { Some(IntegerType::I128) }
    else if s == int_suffix(IntegerType::U8) { Some(IntegerType::U8) }
    else if s == int_suffix(IntegerType::U16) { Some(IntegerType::U16) }
    else if s == int_suffix(IntegerType::U32) { Some(IntegerType::U32) }
    else if s == int_suffix(IntegerType::U64) { Some(IntegerType::U64) }
    else if s == int_suffix(IntegerType::U128) { Some(IntegerType::U128) }
    else { None }
}

/// The position of the variant's opcode in the list of opcodes that the
/// text form tries in turn.
pub open spec fn opcode_index(i: InstructionView) -> nat {
    match i {
        InstructionView::Binary(ArithOp::Add, false, _, _, _) => 0,
        InstructionView::Binary(ArithOp::Add, true, _, _, _) => 1,
        InstructionView::Binary(ArithOp::Div, false, _, _, _) => 2,
        InstructionView::Binary(ArithOp::Div, true, _, _, _) => 3,
        InstructionView::Binary(ArithOp::Mul, false, _, _, _) => 4,
        InstructionView::Binary(ArithOp::Mul, true, _, _, _) => 5,
        InstructionView::Ped1024(_, _) => 6,
        InstructionView::Binary(ArithOp::Sub, false, _, _, _) => 7,
        InstructionView::Binary(ArithOp::Sub, true, _, _, _) => 8,
    }
}

/// The arithmetic operation and overflow policy of an opcode index.
pub open spec fn opcode_operation(tag: nat) -> (ArithOp, bool) {
    if tag == 0 {
        (ArithOp::Add, false)
    } else if tag == 1 {
        (ArithOp::Add, true)
    } else if tag == 2 {
        (ArithOp::Div, false)
    } else if tag == 3 {
        (ArithOp::Div, true)
    } else if tag == 4 {
        (ArithOp::Mul, false)
    } else if tag == 5 {
        (ArithOp::Mul, true)
    } else if tag == 7 {
        (ArithOp::Sub, false)
    } else {
        (ArithOp::Sub, true)
    }
}

/// Number of opcodes.
pub const NUM_OPCODES: u16 = 9;

/// The opcode of each variant, by its index in the list of opcodes.
pub open spec fn opcode_text(idx: nat) -> Seq<u8> {
    if idx == 0 { seq![97u8, 100, 100] }
    else if idx == 1 { seq![97u8, 100, 100, 46, 119] }
    else if idx == 2 { seq![100u8, 105, 118] }
    else if idx == 3 { seq![100u8, 105, 118, 46, 119] }
    else if idx == 4 { seq![109u8, 117, 108] }
    else if idx == 5 { seq![109u8, 117, 108, 46, 119] }
    else if idx == 6 { seq![104u8, 97, 115, 104, 46, 112, 101, 100, 49, 48, 50, 52] }
    else if idx == 7 { seq![115u8, 117, 98] }
    else { seq![115u8, 117, 98, 46, 119] }
}

/// The index of the opcode `tok`; opcodes are tried in the order of their list.
pub open spec fn parse_opcode(tok: Seq<u8>) -> Option<nat> {
    if tok == opcode_text(0) { Some(0) }
    else if tok == opcode_text(1) { Some(1) }
    else if tok == opcode_text(2) { Some(2) }
    else if tok == opcode_text(3) { Some(3) }
    else if tok == opcode_text(4) { Some(4) }
    else if tok == opcode_text(5) { Some(5) }
    else if tok == opcode_text(6) { Some(6) }
    else if tok == opcode_text(7) { Some(7) }
    else if tok == opcode_text(8) { Some(8) }
    else { None }
}

pub open spec fn signed_value(neg: bool, mag: nat) -> int {
    if neg { -(mag as int) } else { mag as int }
}

pub open spec fn abs(x: int) -> nat {
    if x < 0 { (-x) as nat } else { x as nat }
}

/// The text of a literal, such as `true`, `-5i8`, `7field`, `aleo1...` or `"abc"`.
pub open spec fn literal_text(l: LiteralView) -> Seq<u8> {
    match l.0 {
        LiteralType::Boolean => if l.1 == 1 { kw_true() } else { kw_false() },
        LiteralType::Integer(t) => (if l.1 < 0 { seq![45u8] } else { Seq::<u8>::empty() }) + dec_digits(abs(l.1)) + int_suffix(t),
        LiteralType::Field => l.2 + kw_field(),
        LiteralType::Group => l.2 + kw_group(),
        LiteralType::Scalar => l.2 + kw_scalar(),
        LiteralType::Address => kw_aleo1() + l.2,
        LiteralType::String => seq![34u8] + l.2 + seq![34u8],
    }
}

pub open spec fn register_text(r: u64) -> Seq<u8> {
    seq![114u8] + dec_digits(r as nat)
}

pub open spec fn operand_text(o: OperandView) -> Seq<u8> {
    match o {
        OperandView::Literal(l) => literal_text(l),
        OperandView::Register(r) => register_text(r),
    }
}

/// The text of an instruction: `<opcode> <operand>[ <operand>] into <register>;`.
pub open spec fn instruction_text(i: InstructionView) -> Seq<u8> {
    opcode_text(opcode_index(i)) + seq![32u8] + match i {
        InstructionView::Binary(_, _, a, b, d) => operand_text(a) + seq![32u8] + operand_text(b) + kw_into() + register_text(d) + seq![59u8],
        InstructionView::Ped1024(a, d) => operand_text(a) + kw_into() + register_text(d) + seq![59u8],
    }
}

/// The end of the run of digits that starts at `p`.
pub open spec fn digit_run_end(s: Seq<u8>, p: int) -> int
    decreases s.len() - p,
{
    if p < 0 || p >= s.len() || !is_digit(s[p]) {
        p
    } else {
        digit_run_end(s, p + 1)
    }
}

/// A numeric literal: an optional minus sign, digits, and the kind's suffix.
pub open spec fn parse_numeric(tok: Seq<u8>) -> Option<LiteralView> {
    let neg = tok.len() > 0 && tok[0] == 45;
    let st: int = if neg { 1 } else { 0 };
    let k = digit_run_end(tok, st);
    let d = tok.subrange(st, k);
    let suf = tok.subrange(k, tok.len() as int);
    if suf == kw_field() {
        if !neg && is_numeral(d) { Some((LiteralType::Field, 0, d)) } else { None }
    } else if suf == kw_group() {
        if !neg && is_numeral(d) { Some((LiteralType::Group, 0, d)) } else { None }
    } else if suf == kw_scalar() {
        if !neg && is_numeral(d) { Some((LiteralType::Scalar, 0, d)) } else { None }
    } else {
        match suffix_type(suf) {
            None => None,
            Some(t) => if canonical_digits(d) && !(neg && digits_value(d) == 0) && t.in_range(signed_value(neg, digits_value(d))) {
                Some((LiteralType::Integer(t), signed_value(neg, digits_value(d)), Seq::empty()))
            } else {
                None
            },
        }
    }
}

/// The literal whose text is exactly `tok`.
pub open spec fn parse_literal_token(tok: Seq<u8>) -> Option<LiteralView> {
    if tok == kw_true() {
        Some((LiteralType::Boolean, 1, Seq::empty()))
    } else if tok == kw_false() {
        Some((LiteralType::Boolean, 0, Seq::empty()))
    } else if tok.len() >= 2 && tok[0] == 34 {
        if tok.last() == 34 && is_string_body(tok.subrange(1, tok.len() - 1)) {
            Some((LiteralType::String, 0, tok.subrange(1, tok.len() - 1)))
        } else {
            None
        }
    } else if tok.len() >= 5 && tok.subrange(0, 5) == kw_aleo1() {
        if is_address_body(tok.subrange(5, tok.len() as int)) {
            Some((LiteralType::Address, 0, tok.subrange(5, tok.len() as int)))
        } else {
            None
        }
    } else {
        parse_numeric(tok)
    }
}

pub open spec fn parse_register_token(tok: Seq<u8>) -> Option<u64> {
    if tok.len() >= 2 && tok[0] == 114 && canonical_digits(tok.subrange(1, tok.len() as int))
        && digits_value(tok.subrange(1, tok.len() as int)) <= u64::MAX {
        Some(digits_value(tok.subrange(1, tok.len() as int)) as u64)
    } else {
        None
    }
}

pub open spec fn parse_operand_token(tok: Seq<u8>) -> Option<OperandView> {
    if tok.len() > 0 && tok[0] == 114 {
        match parse_register_token(tok) {
            Some(r) => Some(OperandView::Register(r)),
            None => None,
        }
    } else {
        match parse_literal_token(tok) {
            Some(l) => Some(OperandView::Literal(l)),
            None => None,
        }
    }
}

/// The first position from `p` on that holds a space or a semicolon, or the end.
pub open spec fn word_end(s: Seq<u8>, p: int) -> int
    decreases s.len() - p,
{
    if p < 0 || p >= s.len() || s[p] == 32 || s[p] == 59 {
        p
    } else {
        word_end(s, p + 1)
    }
}

/// The first position from `p` on that holds a double quote, or the end.
pub open spec fn quote_end(s: Seq<u8>, p: int) -> int
    decreases s.len() - p,
{
    if p < 0 || p >= s.len() || s[p] == 34 {
        p
    } else {
        quote_end(s, p + 1)
    }
}

/// The end of the operand that starts at `p`: a quoted string ends after its
/// closing quote, anything else at the next space or semicolon.
pub open spec fn operand_end(s: Seq<u8>, p: int) -> int {
    if 0 <= p < s.len() && s[p] == 34 {
        quote_end(s, p + 1) + 1
    } else {
        word_end(s, p)
    }
}

/// Skips whitespace and comments: `//` to the end of the line, and `/* */`.
/// `mode` is 0 outside a comment, 1 inside a line comment, 2 inside a block comment.
pub open spec fn skip_ws(s: Seq<u8>, p: int, mode: u8) -> int
    decreases s.len() - p,
{
    if p < 0 || p >= s.len() {
        p
    } else if mode == 1 {
        skip_ws(s, p + 1, if s[p] == 10 { 0 } else { 1 })
    } else if mode == 2 {
        if s[p] == 42 && p + 1 < s.len() && s[p + 1] == 47 {
            skip_ws(s, p + 2, 0)
        } else {
            skip_ws(s, p + 1, 2)
        }
    } else if s[p] == 32 || s[p] == 9 || s[p] == 10 || s[p] == 13 {
        skip_ws(s, p + 1, 0)
    } else if s[p] == 47 && p + 1 < s.len() && s[p + 1] == 47 {
        skip_ws(s, p + 2, 1)
    } else if s[p] == 47 && p + 1 < s.len() && s[p + 1] == 42 {
        skip_ws(s, p + 2, 2)
    } else {
        p
    }
}

/// The operand whose text runs from `p`, and where it ends.
pub open spec fn parse_operand_at(s: Seq<u8>, p: int) -> Option<(OperandView, int)> {
    let e = operand_end(s, p);
    if 0 <= p <= e <= s.len() {
        match parse_operand_token(s.subrange(p, e)) {
            Some(o) => Some((o, e)),
            None => None,
        }
    } else {
        None
    }
}

/// The destination `into r<n>;` that starts at `k`, and the position after it.
pub open spec fn parse_destination_at(s: Seq<u8>, k: int) -> Option<(u64, int)> {
    if 0 <= k && k + 6 <= s.len() && s.subrange(k, k + 6) == kw_into() {
        let e = word_end(s, k + 6);
        if e < s.len() && s[e] == 59 {
            match parse_register_token(s.subrange(k + 6, e)) {
                Some(r) => Some((r, e + 1)),
                None => None,
            }
        } else {
            None
        }
    } else {
        None
    }
}

/// The instruction whose text starts at `p`, after whitespace and comments,
/// and the position right after its semicolon.
pub open spec fn parse_instruction_at(s: Seq<u8>, p: int) -> Option<(InstructionView, int)> {
    let p0 = skip_ws(s, p, 0);
    let e0 = word_end(s, p0);
    match parse_opcode(s.subrange(p0, e0)) {
        None => None,
        Some(idx) => if e0 < s.len() && s[e0] == 32 {
            match parse_operand_at(s, e0 + 1) {
                None => None,
                Some((a, e1)) => if idx == 6 {
                    match parse_destination_at(s, e1) {
                        Some((d, q)) => Some((InstructionView::Ped1024(a, d), q)),
                        None => None,
                    }
                } else if e1 < s.len() && s[e1] == 32 {
                    match parse_operand_at(s, e1 + 1) {
                        None => None,
                        Some((b, e2)) => match parse_destination_at(s, e2) {
                            Some((d, q)) => Some((InstructionView::Binary(opcode_operation(idx).0, opcode_operation(idx).1, a, b, d), q)),
                            None => None,
                        },
                    }
                } else {
                    None
                },
            }
        } else {
            None
        },
    }
}

fn kw_exec(which: u8) -> (r: Vec<u8>)
    ensures
        which == 0 ==> r@ == kw_true(),
        which == 1 ==> r@ == kw_false(),
        which == 2 ==> r@ == kw_field(),
        which == 3 ==> r@ == kw_group(),
        which == 4 ==> r@ == kw_scalar(),
        which == 5 ==> r@ == kw_aleo1(),
        which == 6 ==> r@ == kw_into(),
{
    let r = if which == 0 {
        vec![116u8, 114, 117, 101]
    } else if which == 1 {
        vec![102u8, 97, 108, 115, 101]
    } else if which == 2 {
        vec![102u8, 105, 101, 108, 100]
    } else if which == 3 {
        vec![103u8, 114, 111, 117, 112]
    } else if which == 4 {
        vec![115u8, 99, 97, 108, 97, 114]
    } else if which == 5 {
        vec![97u8, 108, 101, 111, 49]
    } else {
        vec![32u8, 105, 110, 116, 111, 32]
    };
    assert(which == 0 ==> r@ =~= kw_true());
    assert(which == 1 ==> r@ =~= kw_false());
    assert(which == 2 ==> r@ =~= kw_field());
    assert(which == 3 ==> r@ =~= kw_group());
    assert(which == 4 ==> r@ =~= kw_scalar());
    assert(which == 5 ==> r@ =~= kw_aleo1());
    assert(which == 6 ==> r@ =~= kw_into());
    r
}

fn int_suffix_exec(t: IntegerType) -> (r: Vec<u8>)
    ensures
        r@ == int_suffix(t),
{
    let r = match t {
        IntegerType::I8 => vec![105u8, 56],
        IntegerType::I16 => vec![105u8, 49, 54],
        IntegerType::I32 => vec![105u8, 51, 50],
        IntegerType::I64 => vec![105u8, 54, 52],
        IntegerType::I128 => vec![105u8, 49, 50, 56],
        IntegerType::U8 => vec![117u8, 56],
        IntegerType::U16 => vec![117u8, 49, 54],
        IntegerType::U32 => vec![117u8, 51, 50],
        IntegerType::U64 => vec![117u8, 54, 52],
        IntegerType::U128 => vec![117u8, 49, 50, 56],
    };
    assert(r@ =~= int_suffix(t));
    r
}

fn opcode_exec(idx: u16) -> (r: Vec<u8>)
    ensures
        r@ == opcode_text(idx as nat),
{
    let r =
    if idx == 0 { vec![97u8, 100, 100] }
    else if idx == 1 { vec![97u8, 100, 100, 46, 119] }
    else if idx == 2 { vec![100u8, 105, 118] }
    else if idx == 3 { vec![100u8, 105, 118, 46, 119] }
    else if idx == 4 { vec![109u8, 117, 108] }
    else if idx == 5 { vec![109u8, 117, 108, 46, 119] }
    else if idx == 6 { vec![104u8, 97, 115, 104, 46, 112, 101, 100, 49, 48, 50, 52] }
    else if idx == 7 { vec![115u8, 117, 98] }
    else { vec![115u8, 117, 98, 46, 119] };
    assert(r@ =~= opcode_text(idx as nat));
    r
}

/// Whether `s[lo..hi]` is exactly `kw`.
fn eq_kw(s: &[u8], lo: usize, hi: usize, kw: &Vec<u8>) -> (r: bool)
    requires
        lo <= hi <= s@.len(),
    ensures
        r == (s@.subrange(lo as int, hi as int) == kw@),
{
    if hi - lo != kw.len() {
        return false;
    }
    let mut i: usize = 0;
    while i < kw.len()
        invariant
            i <= kw@.len(),
            hi - lo == kw@.len(),
            lo <= hi <= s@.len(),
            forall|j: int| 0 <= j < i ==> s@[lo + j] == kw@[j],
        decreases kw@.len() - i,
    {
        if s[lo + i] != kw[i] {
            assert(s@.subrange(lo as int, hi as int)[i as int] != kw@[i as int]);
            return false;
        }
        i += 1;
    }
    assert(s@.subrange(lo as int, hi as int) =~= kw@);
    true
}

fn suffix_type_exec(s: &[u8], lo: usize, hi: usize) -> (r: Option<IntegerType>)
    requires
        lo <= hi <= s@.len(),
    ensures
        r == suffix_type(s@.subrange(lo as int, hi as int)),
{
    if eq_kw(s, lo, hi, &int_suffix_exec(IntegerType::I8)) {
        return Some(IntegerType::I8);
    }
    if eq_kw(s, lo, hi, &int_suffix_exec(IntegerType::I16)) {
        return Some(IntegerType::I16);
    }
    if eq_kw(s, lo, hi, &int_suffix_exec(IntegerType::I32)) {
        return Some(IntegerType::I32);
    }
    if eq_kw(s, lo, hi, &int_suffix_exec(IntegerType::I64)) {
        return Some(IntegerType::I64);
    }
    if eq_kw(s, lo, hi, &int_suffix_exec(IntegerType::I128)) {
        return Some(IntegerType::I128);
    }
    if eq_kw(s, lo, hi, &int_suffix_exec(IntegerType::U8)) {
        return Some(IntegerType::U8);
    }
    if eq_kw(s, lo, hi, &int_suffix_exec(IntegerType::U16)) {
        return Some(IntegerType::U16);
    }
    if eq_kw(s, lo, hi, &int_suffix_exec(IntegerType::U32)) {
        return Some(IntegerType::U32);
    }
    if eq_kw(s, lo, hi, &int_suffix_exec(IntegerType::U64)) {
        return Some(IntegerType::U64);
    }
    if eq_kw(s, lo, hi, &int_suffix_exec(IntegerType::U128)) {
        return Some(IntegerType::U128);
    }
    None
}

fn make_int(t: IntegerType, neg: bool, mag: u128) -> (r: Option<LiteralData>)
    requires
        !(neg && mag == 0),
    ensures
        match r {
            Some(d) => t.in_range(signed_value(neg, mag as nat)) && d@ == (LiteralType::Integer(t), signed_value(neg, mag as nat), Seq::<u8>::empty()),
            None => !t.in_range(signed_value(neg, mag as nat)),
        },
{
    match t {
        IntegerType::I8 => if neg {
            if mag <= i8::MAX as u128 {
                Some(LiteralData::I8(-(mag as i8)))
            } else if mag == i8::MAX as u128 + 1 {
                Some(LiteralData::I8(i8::MIN))
            } else {
                None
            }
        } else if mag <= i8::MAX as u128 {
            Some(LiteralData::I8(mag as i8))
        } else {
            None
        },
        IntegerType::I16 => if neg {
            if mag <= i16::MAX as u128 {
                Some(LiteralData::I16(-(mag as i16)))
            } else if mag == i16::MAX as u128 + 1 {
                Some(LiteralData::I16(i16::MIN))
            } else {
                None
            }
        } else if mag <= i16::MAX as u128 {
            Some(LiteralData::I16(mag as i16))
        } else {
            None
        },
        IntegerType::I32 => if neg {
            if mag <= i32::MAX as u128 {
                Some(LiteralData::I32(-(mag as i32)))
            } else if mag == i32::MAX as u128 + 1 {
                Some(LiteralData::I32(i32::MIN))
            } else {
                None
            }
        } else if mag <= i32::MAX as u128 {
            Some(LiteralData::I32(mag as i32))
        } else {
            None
        },
        IntegerType::I64 => if neg {
            if mag <= i64::MAX as u128 {
                Some(LiteralData::I64(-(mag as i64)))
            } else if mag == i64::MAX as u128 + 1 {
                Some(LiteralData::I64(i64::MIN))
            } else {
                None
            }
        } else if mag <= i64::MAX as u128 {
            Some(LiteralData::I64(mag as i64))
        } else {
            None
        },
        IntegerType::I128 => if neg {
            if mag <= i128::MAX as u128 {
                Some(LiteralData::I128(-(mag as i128)))
            } else if mag == i128::MAX as u128 + 1 {
                Some(LiteralData::I128(i128::MIN))
            } else {
                None
            }
        } else if mag <= i128::MAX as u128 {
            Some(LiteralData::I128(mag as i128))
        } else {
            None
        },
        IntegerType::U8 => if !neg && mag <= u8::MAX as u128 {
            Some(LiteralData::U8(mag as u8))
        } else {
            None
        },
        IntegerType::U16 => if !neg && mag <= u16::MAX as u128 {
            Some(LiteralData::U16(mag as u16))
        } else {
            None
        },
        IntegerType::U32 => if !neg && mag <= u32::MAX as u128 {
            Some(LiteralData::U32(mag as u32))
        } else {
            None
        },
        IntegerType::U64 => if !neg && mag <= u64::MAX as u128 {
            Some(LiteralData::U64(mag as u64))
        } else {
            None
        },
        IntegerType::U128 => if !neg && mag <= u128::MAX as u128 {
            Some(LiteralData::U128(mag as u128))
        } else {
            None
        },
    }
}

fn sign_and_magnitude(d: &LiteralData) -> (r: (bool, u128))
    requires
        d.is_integer(),
    ensures
        r.0 == (d.int_value() < 0),
        r.1 as nat == abs(d.int_value()),
{
    match d {
        LiteralData::I8(v) => if *v < 0 {
            (true, ((-(*v as i128 + 1)) as u128) + 1)
        } else {
            (false, *v as u128)
        },
        LiteralData::I16(v) => if *v < 0 {
            (true, ((-(*v as i128 + 1)) as u128) + 1)
        } else {
            (false, *v as u128)
        },
        LiteralData::I32(v) => if *v < 0 {
            (true, ((-(*v as i128 + 1)) as u128) + 1)
        } else {
            (false, *v as u128)
        },
        LiteralData::I64(v) => if *v < 0 {
            (true, ((-(*v as i128 + 1)) as u128) + 1)
        } else {
            (false, *v as u128)
        },
        LiteralData::I128(v) => if *v < 0 {
            (true, ((-(*v + 1)) as u128) + 1)
        } else {
            (false, *v as u128)
        },
        LiteralData::U8(v) => (false, *v as u128),
        LiteralData::U16(v) => (false, *v as u128),
        LiteralData::U32(v) => (false, *v as u128),
        LiteralData::U64(v) => (false, *v as u128),
        LiteralData::U128(v) => (false, *v as u128),
        _ => (false, 0),
    }
}

fn word_end_exec(s: &[u8], p: usize) -> (r: usize)
    requires
        p <= s@.len(),
    ensures
        r as int == word_end(s@, p as int),
        p <= r <= s@.len(),
{
    let mut i = p;
    while i < s.len() && s[i] != 32 && s[i] != 59
        invariant
            p <= i <= s@.len(),
            word_end(s@, p as int) == word_end(s@, i as int),
        decreases s@.len() - i,
    {
        i += 1;
    }
    i
}

fn quote_end_exec(s: &[u8], p: usize) -> (r: usize)
    requires
        p <= s@.len(),
    ensures
        r as int == quote_end(s@, p as int),
        p <= r <= s@.len(),
{
    let mut i = p;
    while i < s.len() && s[i] != 34
        invariant
            p <= i <= s@.len(),
            quote_end(s@, p as int) == quote_end(s@, i as int),
        decreases s@.len() - i,
    {
        i += 1;
    }
    i
}

fn skip_ws_exec(s: &[u8], p: usize) -> (r: usize)
    requires
        p <= s@.len(),
    ensures
        r as int == skip_ws(s@, p as int, 0),
        p <= r <= s@.len(),
{
    let mut i = p;
    let mut mode: u8 = 0;
    while i < s.len()
        invariant
            p <= i <= s@.len(),
            skip_ws(s@, p as int, 0) == skip_ws(s@, i as int, mode),
            mode <= 2,
        decreases s@.len() - i,
    {
        let c = s[i];
        assert(s@[i as int] == c);
        if mode == 1 {
            mode = if c == 10 { 0 } else { 1 };
            i += 1;
        } else if mode == 2 {
            if c == 42 && i + 1 < s.len() && s[i + 1] == 47 {
                mode = 0;
                i += 2;
            } else {
                i += 1;
            }
        } else if c == 32 || c == 9 || c == 10 || c == 13 {
            i += 1;
        } else if c == 47 && i + 1 < s.len() && s[i + 1] == 47 {
            mode = 1;
            i += 2;
        } else if c == 47 && i + 1 < s.len() && s[i + 1] == 42 {
            mode = 2;
            i += 2;
        } else {
            return i;
        }
    }
    i
}

fn digit_run_end_exec(s: &[u8], lo: usize, st: usize, hi: usize) -> (r: usize)
    requires
        lo <= st <= hi <= s@.len(),
    ensures
        r - lo == digit_run_end(s@.subrange(lo as int, hi as int), st - lo),
        st <= r <= hi,
        forall|j: int| st <= j < r ==> is_digit(#[trigger] s@[j]),
        r < hi ==> !is_digit(s@[r as int]),
{
    let ghost tok = s@.subrange(lo as int, hi as int);
    let mut i = st;
    while i < hi && s[i] >= 48 && s[i] <= 57
        invariant
            lo <= st <= i <= hi,
            hi <= s@.len(),
            tok == s@.subrange(lo as int, hi as int),
            digit_run_end(tok, st - lo) == digit_run_end(tok, i - lo),
            forall|j: int| st <= j < i ==> is_digit(#[trigger] s@[j]),
        decreases hi - i,
    {
        assert(tok[i - lo] == s@[i as int]);
        i += 1;
    }
    if i < hi {
        assert(tok[i - lo] == s@[i as int]);
    }
    i
}

fn parse_numeric_exec(s: &[u8], lo: usize, hi: usize) -> (r: Option<LiteralData>)
    requires
        lo <= hi <= s@.len(),
    ensures
        match r {
            Some(d) => parse_numeric(s@.subrange(lo as int, hi as int)) == Some(d@) && d.wf(),
            None => parse_numeric(s@.subrange(lo as int, hi as int)) is None,
        },
{
    let ghost tok = s@.subrange(lo as int, hi as int);
    let neg = hi > lo && s[lo] == 45;
    proof {
        if hi > lo {
            assert(tok[0] == s@[lo as int]);
        }
    }
    let st = if neg { lo + 1 } else { lo };
    let k = digit_run_end_exec(s, lo, st, hi);
    let ghost d = tok.subrange(st - lo, k - lo);
    assert(d =~= s@.subrange(st as int, k as int));
    assert(tok.subrange(k - lo, tok.len() as int) =~= s@.subrange(k as int, hi as int));
    let which: u8 = if eq_kw(s, k, hi, &kw_exec(2)) {
        2
    } else if eq_kw(s, k, hi, &kw_exec(3)) {
        3
    } else if eq_kw(s, k, hi, &kw_exec(4)) {
        4
    } else {
        0
    };
    if which != 0 {
        if neg {
            return None;
        }
        let b = crate::codec::copy_range(s, st, k - st);
        if !crate::literal::check_numeral(&b) {
            return None;
        }
        return Some(if which == 2 {
            LiteralData::Field(b)
        } else if which == 3 {
            LiteralData::Group(b)
        } else {
            LiteralData::Scalar(b)
        });
    }
    let t = match suffix_type_exec(s, k, hi) {
        Some(t) => t,
        None => return None,
    };
    if k == st || (k - st > 1 && s[st] == 48) {
        proof {
            if k > st {
                assert(d[0] == s@[st as int]);
            }
        }
        return None;
    }
    proof {
        assert(d[0] == s@[st as int]);
        assert forall|j: int| 0 <= j < d.len() implies is_digit(#[trigger] d[j]) by {
            assert(d[j] == s@[st + j]);
        }
        assert(canonical_digits(d));
    }
    let mag = match crate::decimal::read_digits(s, st, k) {
        Some(m) => m,
        None => return None,
    };
    if neg && mag == 0 {
        return None;
    }
    make_int(t, neg, mag)
}

fn parse_literal_exec(s: &[u8], lo: usize, hi: usize) -> (r: Option<LiteralData>)
    requires
        lo <= hi <= s@.len(),
    ensures
        match r {
            Some(d) => parse_literal_token(s@.subrange(lo as int, hi as int)) == Some(d@) && d.wf(),
            None => parse_literal_token(s@.subrange(lo as int, hi as int)) is None,
        },
{
    let ghost tok = s@.subrange(lo as int, hi as int);
    if eq_kw(s, lo, hi, &kw_exec(0)) {
        return Some(LiteralData::Boolean(true));
    }
    if eq_kw(s, lo, hi, &kw_exec(1)) {
        return Some(LiteralData::Boolean(false));
    }
    let n = hi - lo;
    if n >= 2 && s[lo] == 34 {
        assert(tok[0] == s@[lo as int]);
        assert(tok.last() == s@[hi - 1]);
        if s[hi - 1] != 34 {
            return None;
        }
        let b = crate::codec::copy_range(s, lo + 1, n - 2);
        assert(b@ =~= tok.subrange(1, tok.len() - 1));
        if !crate::literal::check_string_body(&b) {
            return None;
        }
        return Some(LiteralData::String(b));
    }
    if n >= 2 {
        assert(tok[0] == s@[lo as int]);
    }
    if n >= 5 && eq_kw(s, lo, lo + 5, &kw_exec(5)) {
        assert(tok.subrange(0, 5) =~= s@.subrange(lo as int, lo + 5));
        let b = crate::codec::copy_range(s, lo + 5, n - 5);
        assert(b@ =~= tok.subrange(5, tok.len() as int));
        if !crate::literal::check_address_body(&b) {
            return None;
        }
        return Some(LiteralData::Address(b));
    }
    proof {
        if n >= 5 {
            assert(tok.subrange(0, 5) =~= s@.subrange(lo as int, lo + 5));
        }
    }
    parse_numeric_exec(s, lo, hi)
}

fn parse_register_exec(s: &[u8], lo: usize, hi: usize) -> (r: Option<u64>)
    requires
        lo <= hi <= s@.len(),
    ensures
        r == parse_register_token(s@.subrange(lo as int, hi as int)),
{
    let ghost tok = s@.subrange(lo as int, hi as int);
    if hi - lo < 2 || s[lo] != 114 {
        proof {
            if hi - lo >= 2 {
                assert(tok[0] == s@[lo as int]);
            }
        }
        return None;
    }
    assert(tok[0] == s@[lo as int]);
    let k = digit_run_end_exec(s, lo, lo + 1, hi);
    let ghost d = tok.subrange(1, tok.len() as int);
    assert(d =~= s@.subrange(lo + 1, hi as int));
    if k != hi || (hi - lo > 2 && s[lo + 1] == 48) {
        proof {
            assert(d[0] == s@[lo + 1]);
            if k != hi {
                assert(d[k - lo - 1] == s@[k as int]);
                assert(tok[k - lo] == s@[k as int]);
            }
        }
        return None;
    }
    proof {
        assert(d[0] == s@[lo + 1]);
        assert forall|j: int| 0 <= j < d.len() implies is_digit(#[trigger] d[j]) by {
            assert(d[j] == s@[lo + 1 + j]);
        }
    }
    match crate::decimal::read_digits(s, lo + 1, hi) {
        Some(v) => if v <= u64::MAX as u128 {
            Some(v as u64)
        } else {
            None
        },
        None => None,
    }
}

fn parse_operand_exec(s: &[u8], p: usize) -> (r: Option<(Operand, usize)>)
    requires
        p <= s@.len(),
    ensures
        match r {
            Some((o, e)) => parse_operand_at(s@, p as int) == Some((o@, e as int)) && o.wf() && e <= s@.len(),
            None => parse_operand_at(s@, p as int) is None,
        },
{
    let e = if p < s.len() && s[p] == 34 {
        let q = quote_end_exec(s, p + 1);
        if q >= s.len() {
            return None;
        }
        q + 1
    } else {
        word_end_exec(s, p)
    };
    let ghost tok = s@.subrange(p as int, e as int);
    if e > p && s[p] == 114 {
        assert(tok[0] == s@[p as int]);
        match parse_register_exec(s, p, e) {
            Some(r) => Some((Operand::Register(Register { locator: r }), e)),
            None => None,
        }
    } else {
        proof {
            if e > p {
                assert(tok[0] == s@[p as int]);
            }
        }
        match parse_literal_exec(s, p, e) {
            Some(d) => Some((Operand::Literal(d), e)),
            None => None,
        }
    }
}

fn parse_destination_exec(s: &[u8], k: usize) -> (r: Option<(u64, usize)>)
    requires
        k <= s@.len(),
    ensures
        match r {
            Some((d, q)) => parse_destination_at(s@, k as int) == Some((d, q as int)) && q <= s@.len(),
            None => parse_destination_at(s@, k as int) is None,
        },
{
    if s.len() - k < 6 || !eq_kw(s, k, k + 6, &kw_exec(6)) {
        return None;
    }
    let e = word_end_exec(s, k + 6);
    if e >= s.len() || s[e] != 59 {
        return None;
    }
    match parse_register_exec(s, k + 6, e) {
        Some(r) => Some((r, e + 1)),
        None => None,
    }
}

fn parse_opcode_exec(s: &[u8], lo: usize, hi: usize) -> (r: Option<u16>)
    requires
        lo <= hi <= s@.len(),
    ensures
        match r {
            Some(i) => parse_opcode(s@.subrange(lo as int, hi as int)) == Some(i as nat),
            None => parse_opcode(s@.subrange(lo as int, hi as int)) is None,
        },
{
    let mut idx: u16 = 0;
    while idx < NUM_OPCODES
        invariant
            idx <= NUM_OPCODES,
            lo <= hi <= s@.len(),
            forall|j: nat| j < idx ==> s@.subrange(lo as int, hi as int) != #[trigger] opcode_text(j),
        decreases NUM_OPCODES - idx,
    {
        if eq_kw(s, lo, hi, &opcode_exec(idx)) {
            return Some(idx);
        }
        idx += 1;
    }
    None
}

/// Parses the instruction whose text starts at `p`, after whitespace and
/// comments; returns it with the position right after its semicolon.
pub fn parse_instruction(s: &[u8], p: usize) -> (r: Option<(Instruction, usize)>)
    requires
        p <= s@.len(),
    ensures
        match r {
            Some((i, q)) => parse_instruction_at(s@, p as int) == Some((i@, q as int)) && i.wf(),
            None => parse_instruction_at(s@, p as int) is None,
        },
{
    let p0 = skip_ws_exec(s, p);
    let e0 = word_end_exec(s, p0);
    let idx = match parse_opcode_exec(s, p0, e0) {
        Some(i) => i,
        None => return None,
    };
    if e0 >= s.len() || s[e0] != 32 {
        return None;
    }
    let (first, e1) = match parse_operand_exec(s, e0 + 1) {
        Some(x) => x,
        None => return None,
    };
    if idx == 6 {
        let (d, q) = match parse_destination_exec(s, e1) {
            Some(x) => x,
            None => return None,
        };
        return Some((Instruction::Ped1024(Ped1024 { operation: UnaryOperation { first, destination: Register { locator: d } } }), q));
    }
    if e1 >= s.len() || s[e1] != 32 {
        return None;
    }
    let (second, e2) = match parse_operand_exec(s, e1 + 1) {
        Some(x) => x,
        None => return None,
    };
    let (d, q) = match parse_destination_exec(s, e2) {
        Some(x) => x,
        None => return None,
    };
    let o = BinaryOperation { first, second, destination: Register { locator: d } };
    let i = if idx == 0 {
        Instruction::Add(o)
    } else if idx == 1 {
        Instruction::AddWrapped(o)
    } else if idx == 2 {
        Instruction::Div(o)
    } else if idx == 3 {
        Instruction::DivWrapped(o)
    } else if idx == 4 {
        Instruction::Mul(o)
    } else if idx == 5 {
        Instruction::MulWrapped(o)
    } else if idx == 7 {
        Instruction::Sub(o)
    } else {
        Instruction::SubWrapped(o)
    };
    Some((i, q))
}

fn push_all(out: &mut Vec<u8>, b: &Vec<u8>)
    ensures
        final(out)@ == old(out)@ + b@,
{
    let mut i: usize = 0;
    let ghost start = out@;
    while i < b.len()
        invariant
            i <= b@.len(),
            out@ == start + b@.subrange(0, i as int),
        decreases b@.len() - i,
    {
        out.push(b[i]);
        i += 1;
        assert(out@ =~= start + b@.subrange(0, i as int));
    }
    assert(b@.subrange(0, b@.len() as int) =~= b@);
}

/// Appends the text of a literal.
pub fn write_literal_text(d: &LiteralData, out: &mut Vec<u8>)
    ensures
        final(out)@ == old(out)@ + literal_text(d@),
{
    match d {
        LiteralData::Boolean(b) => {
            push_all(out, &kw_exec(if *b { 0 } else { 1 }));
        },
        LiteralData::Field(b) => {
            push_all(out, b);
            push_all(out, &kw_exec(2));
        },
        LiteralData::Group(b) => {
            push_all(out, b);
            push_all(out, &kw_exec(3));
        },
        LiteralData::Scalar(b) => {
            push_all(out, b);
            push_all(out, &kw_exec(4));
        },
        LiteralData::Address(b) => {
            push_all(out, &kw_exec(5));
            push_all(out, b);
        },
        LiteralData::String(b) => {
            out.push(34u8);
            push_all(out, b);
            out.push(34u8);
        },
        _ => {
            let (neg, mag) = sign_and_magnitude(d);
            if neg {
                out.push(45u8);
            }
            crate::decimal::push_digits(mag, out);
            let t = match d.get_type() {
                LiteralType::Integer(t) => t,
                _ => IntegerType::U8,
            };
            push_all(out, &int_suffix_exec(t));
        },
    }
    assert(final(out)@ =~= old(out)@ + literal_text(d@));
}

fn write_register_text(r: u64, out: &mut Vec<u8>)
    ensures
        final(out)@ == old(out)@ + register_text(r),
{
    out.push(114u8);
    crate::decimal::push_digits(r as u128, out);
    assert(final(out)@ =~= old(out)@ + register_text(r));
}

fn write_operand_text(o: &Operand, out: &mut Vec<u8>)
    ensures
        final(out)@ == old(out)@ + operand_text(o@),
{
    match o {
        Operand::Literal(d) => write_literal_text(d, out),
        Operand::Register(r) => write_register_text(r.locator, out),
    }
}

/// Why text could not be read as an instruction.
#[derive(Clone, Copy, Debug, PartialEq, Eq, Structural)]
pub enum ParseError {
    /// No instruction starts the text.
    NoMatch,
    /// An instruction was read, but characters follow it from this byte offset on.
    TrailingCharacters(usize),
}

/// Relies on `String::from_utf8`: ASCII bytes are valid UTF-8, each byte one character.
#[verifier::external_body]
fn ascii_string(b: Vec<u8>) -> (r: String)
    ensures
        (forall|i: int| 0 <= i < b@.len() ==> b@[i] < 128) ==> r@ == b@.map_values(|c: u8| c as char),
{
    String::from_utf8(b).unwrap_or_default()
}

impl Instruction {
    /// Appends the text of the instruction.
    pub fn write_text(&self, out: &mut Vec<u8>)
        ensures
            final(out)@ == old(out)@ + instruction_text(self@),
    {
        let idx: u16 = match self {
            Instruction::Add(_) => 0,
            Instruction::AddWrapped(_) => 1,
            Instruction::Div(_) => 2,
            Instruction::DivWrapped(_) => 3,
            Instruction::Mul(_) => 4,
            Instruction::MulWrapped(_) => 5,
            Instruction::Ped1024(_) => 6,
            Instruction::Sub(_) => 7,
            Instruction::SubWrapped(_) => 8,
        };
        push_all(out, &opcode_exec(idx));
        out.push(32u8);
        match self {
            Instruction::Ped1024(h) => {
                write_operand_text(&h.operation.first, out);
                push_all(out, &kw_exec(6));
                write_register_text(h.operation.destination.locator, out);
            },
            Instruction::Add(o) | Instruction::AddWrapped(o) | Instruction::Div(o)
            | Instruction::DivWrapped(o) | Instruction::Mul(o) | Instruction::MulWrapped(o)
            | Instruction::Sub(o) | Instruction::SubWrapped(o) => {
                write_operand_text(&o.first, out);
                out.push(32u8);
                write_operand_text(&o.second, out);
                push_all(out, &kw_exec(6));
                write_register_text(o.destination.locator, out);
            },
        }
        out.push(59u8);
        assert(final(out)@ =~= old(out)@ + instruction_text(self@));
    }

    /// Returns the text of the instruction, as bytes.
    pub fn to_text(&self) -> (r: Vec<u8>)
        ensures
            r@ == instruction_text(self@),
    {
        let mut out: Vec<u8> = Vec::new();
        self.write_text(&mut out);
        assert(out@ =~= instruction_text(self@));
        out
    }

    /// Returns the text of the instruction.
    pub fn to_string(&self) -> (r: String)
        requires
            self.wf(),
        ensures
            r@ == instruction_text(self@).map_values(|c: u8| c as char),
    {
        proof {
            crate::laws::lemma_instruction_wf(*self);
            lemma_instruction_ascii(self@);
        }
        ascii_string(self.to_text())
    }

    /// Parses the instruction that starts the text, after whitespace and
    /// comments; returns it with the number of bytes it took.
    pub fn parse(string: &str) -> (r: Result<(Instruction, usize), ParseError>)
        ensures
            match r {
                Ok((i, n)) => parse_instruction_at(string.spec_bytes(), 0) == Some((i@, n as int)) && i.wf(),
                Err(e) => e == ParseError::NoMatch && parse_instruction_at(string.spec_bytes(), 0) is None,
            },
    {
        let bytes = string.as_bytes();
        match parse_instruction(bytes, 0) {
            Some((i, n)) => Ok((i, n)),
            None => Err(ParseError::NoMatch),
        }
    }

    /// Parses text that holds exactly one instruction, with nothing after its semicolon.
    pub fn from_str(string: &str) -> (r: Result<Instruction, ParseError>)
        ensures
            match r {
                Ok(i) => parse_instruction_at(string.spec_bytes(), 0) == Some((i@, string.spec_bytes().len() as int)) && i.wf(),
                Err(ParseError::NoMatch) => parse_instruction_at(string.spec_bytes(), 0) is None,
                Err(ParseError::TrailingCharacters(n)) => parse_instruction_at(string.spec_bytes(), 0) is Some
                    && parse_instruction_at(string.spec_bytes(), 0)->Some_0.1 == n as int
                    && (n as int) < string.spec_bytes().len(),
            },
    {
        let bytes = string.as_bytes();
        match parse_instruction(bytes, 0) {
            Some((i, n)) => if n == bytes.len() {
                Ok(i)
            } else {
                Err(ParseError::TrailingCharacters(n))
            },
            None => Err(ParseError::NoMatch),
        }
    }
}

/// No space, semicolon or double quote in the bytes.
pub open spec fn plain(t: Seq<u8>) -> bool {
    forall|j: int| 0 <= j < t.len() ==> #[trigger] t[j] != 32 && t[j] != 59 && t[j] != 34
}

proof fn lemma_plain_concat(a: Seq<u8>, b: Seq<u8>)
    requires
        plain(a),
        plain(b),
    ensures
        plain(a + b),
{
    assert forall|j: int| 0 <= j < (a + b).len() implies #[trigger] (a + b)[j] != 32 && (a + b)[j] != 59 && (a + b)[j] != 34 by {
        if j < a.len() {
            assert((a + b)[j] == a[j]);
        } else {
            assert((a + b)[j] == b[j - a.len()]);
        }
    }
}

proof fn lemma_digits_plain(d: Seq<u8>)
    requires
        forall|j: int| 0 <= j < d.len() ==> is_digit(#[trigger] d[j]),
    ensures
        plain(d),
{
    assert forall|j: int| 0 <= j < d.len() implies #[trigger] d[j] != 32 && d[j] != 59 && d[j] != 34 by {
        assert(is_digit(d[j]));
    }
}

proof fn lemma_word_end(s: Seq<u8>, p: int, q: int)
    requires
        0 <= p <= q <= s.len(),
        forall|j: int| p <= j < q ==> #[trigger] s[j] != 32 && s[j] != 59,
        q == s.len() || s[q] == 32 || s[q] == 59,
    ensures
        word_end(s, p) == q,
    decreases q - p,
{
    if p < q {
        assert(s[p] != 32 && s[p] != 59);
        lemma_word_end(s, p + 1, q);
    }
}

proof fn lemma_quote_end(s: Seq<u8>, p: int, q: int)
    requires
        0 <= p <= q < s.len(),
        forall|j: int| p <= j < q ==> #[trigger] s[j] != 34,
        s[q] == 34,
    ensures
        quote_end(s, p) == q,
    decreases q - p,
{
    if p < q {
        assert(s[p] != 34);
        lemma_quote_end(s, p + 1, q);
    }
}

proof fn lemma_digit_run_end(s: Seq<u8>, p: int, q: int)
    requires
        0 <= p <= q <= s.len(),
        forall|j: int| p <= j < q ==> is_digit(#[trigger] s[j]),
        q == s.len() || !is_digit(s[q]),
    ensures
        digit_run_end(s, p) == q,
    decreases q - p,
{
    if p < q {
        assert(is_digit(s[p]));
        lemma_digit_run_end(s, p + 1, q);
    }
}

proof fn lemma_suffix_type(t: IntegerType)
    ensures
        suffix_type(int_suffix(t)) == Some(t),
        int_suffix(t) != kw_field(),
        int_suffix(t) != kw_group(),
        int_suffix(t) != kw_scalar(),
        !is_digit(int_suffix(t)[0]),
        plain(int_suffix(t)),
        int_suffix(t).len() >= 2,
{
    let s = int_suffix(t);
    assert(s[0] != kw_field()[0]);
    assert(s[0] != kw_group()[0]);
    assert(s[0] != kw_scalar()[0]);
    assert(int_suffix(IntegerType::I16)[1] != int_suffix(IntegerType::I128)[1] || int_suffix(IntegerType::I16).len() != int_suffix(IntegerType::I128).len());
    match t {
        IntegerType::I8 => {},
        IntegerType::I16 => { assert(s != int_suffix(IntegerType::I8)); },
        IntegerType::I32 => { assert(s[1] != int_suffix(IntegerType::I16)[1]); },
        IntegerType::I64 => { assert(s[1] != int_suffix(IntegerType::I16)[1]); assert(s[1] != int_suffix(IntegerType::I32)[1]); },
        IntegerType::I128 => { assert(s.len() != int_suffix(IntegerType::I16).len()); assert(s[1] != int_suffix(IntegerType::I32)[1]); assert(s[1] != int_suffix(IntegerType::I64)[1]); },
        IntegerType::U8 => { assert(s[0] != int_suffix(IntegerType::I8)[0]); assert(s[0] != int_suffix(IntegerType::I16)[0]); assert(s[0] != int_suffix(IntegerType::I32)[0]); assert(s[0] != int_suffix(IntegerType::I64)[0]); assert(s[0] != int_suffix(IntegerType::I128)[0]); },
        IntegerType::U16 => { assert(s[0] != int_suffix(IntegerType::I8)[0]); assert(s[0] != int_suffix(IntegerType::I16)[0]); assert(s[0] != int_suffix(IntegerType::I32)[0]); assert(s[0] != int_suffix(IntegerType::I64)[0]); assert(s[0] != int_suffix(IntegerType::I128)[0]); assert(s.len() != int_suffix(IntegerType::U8).len()); },
        IntegerType::U32 => { assert(s[0] != int_suffix(IntegerType::I8)[0]); assert(s[0] != int_suffix(IntegerType::I16)[0]); assert(s[0] != int_suffix(IntegerType::I32)[0]); assert(s[0] != int_suffix(IntegerType::I64)[0]); assert(s[0] != int_suffix(IntegerType::I128)[0]); assert(s.len() != int_suffix(IntegerType::U8).len()); assert(s[1] != int_suffix(IntegerType::U16)[1]); },
        IntegerType::U64 => { assert(s[0] != int_suffix(IntegerType::I8)[0]); assert(s[0] != int_suffix(IntegerType::I16)[0]); assert(s[0] != int_suffix(IntegerType::I32)[0]); assert(s[0] != int_suffix(IntegerType::I64)[0]); assert(s[0] != int_suffix(IntegerType::I128)[0]); assert(s.len() != int_suffix(IntegerType::U8).len()); assert(s[1] != int_suffix(IntegerType::U16)[1]); assert(s[1] != int_suffix(IntegerType::U32)[1]); },
        IntegerType::U128 => { assert(s[0] != int_suffix(IntegerType::I8)[0]); assert(s[0] != int_suffix(IntegerType::I16)[0]); assert(s[0] != int_suffix(IntegerType::I32)[0]); assert(s[0] != int_suffix(IntegerType::I64)[0]); assert(s[0] != int_suffix(IntegerType::I128)[0]); assert(s.len() != int_suffix(IntegerType::U8).len()); assert(s.len() != int_suffix(IntegerType::U16).len()); assert(s.len() != int_suffix(IntegerType::U32).len()); assert(s.len() != int_suffix(IntegerType::U64).len()); },
    }
}

/// The text of a well-formed literal reads back as the literal.
#[verifier::spinoff_prover]
#[verifier::rlimit(100)]
pub proof fn lemma_literal_text(l: LiteralView)
    requires
        literal_view_wf(l),
    ensures
        parse_literal_token(literal_text(l)) == Some(l),
        literal_text(l).len() > 0,
        literal_text(l)[0] != 114,
        !(l.0 is String) ==> plain(literal_text(l)),
{
    let t = literal_text(l);
    match l.0 {
        LiteralType::Boolean => {
            if l.1 == 1 {
                assert(l.2 =~= Seq::<u8>::empty());
            } else {
                assert(kw_false()[0] != kw_true()[0]);
                assert(l.2 =~= Seq::<u8>::empty());
            }
        },
        LiteralType::String => {
            assert(t[0] == 34);
            assert(t[0] != kw_true()[0]);
            assert(t[0] != kw_false()[0]);
            assert(t.subrange(1, t.len() - 1) =~= l.2);
        },
        LiteralType::Address => {
            assert(t[0] == 97);
            assert(t[0] != kw_true()[0]);
            assert(t[0] != kw_false()[0]);
            assert(t.subrange(0, 5) =~= kw_aleo1());
            assert(t.subrange(5, t.len() as int) =~= l.2);
            assert forall|j: int| 0 <= j < l.2.len() implies #[trigger] l.2[j] != 32 && l.2[j] != 59 && l.2[j] != 34 by {
                assert(crate::literal::is_address_char(l.2[j]));
            }
            lemma_plain_concat(kw_aleo1(), l.2);
        },
        LiteralType::Field | LiteralType::Group | LiteralType::Scalar => {
            let kw = if l.0 is Field { kw_field() } else if l.0 is Group { kw_group() } else { kw_scalar() };
            assert(t =~= l.2 + kw);
            assert(is_digit(l.2[0]));
            assert(t[0] == l.2[0]);
            assert(t[0] != kw_true()[0]);
            assert(t[0] != kw_false()[0]);
            assert(t[0] != 34);
            if t.len() >= 5 {
                assert(t.subrange(0, 5)[0] != kw_aleo1()[0]);
            }
            assert(t[0] != 45);
            assert forall|j: int| 0 <= j < l.2.len() implies is_digit(#[trigger] t[j]) by {
                assert(t[j] == l.2[j]);
                assert(is_digit(l.2[j]));
            }
            assert(t[l.2.len() as int] == kw[0]);
            lemma_digit_run_end(t, 0, l.2.len() as int);
            assert(t.subrange(0, l.2.len() as int) =~= l.2);
            assert(t.subrange(l.2.len() as int, t.len() as int) =~= kw);
            assert(kw_group()[0] != kw_field()[0]);
            assert(kw_scalar()[0] != kw_field()[0]);
            assert(kw_scalar()[0] != kw_group()[0]);
            assert forall|j: int| 0 <= j < l.2.len() implies is_digit(#[trigger] l.2[j]) by {}
            lemma_digits_plain(l.2);
            lemma_plain_concat(l.2, kw);
        },
        LiteralType::Integer(it) => {
            let neg = l.1 < 0;
            let sign = if neg { seq![45u8] } else { Seq::<u8>::empty() };
            let d = dec_digits(abs(l.1));
            let suf = int_suffix(it);
            lemma_dec_digits(abs(l.1));
            lemma_suffix_type(it);
            assert(t =~= sign + d + suf);
            let st: int = if neg { 1 } else { 0 };
            assert(is_digit(d[0]));
            assert(t[st] == d[0]);
            assert(t[0] == 45 || is_digit(t[0]));
            assert(t[0] != kw_true()[0]);
            assert(t[0] != kw_false()[0]);
            if t.len() >= 5 {
                assert(t.subrange(0, 5)[0] != kw_aleo1()[0]);
            }
            assert forall|j: int| st <= j < st + d.len() implies is_digit(#[trigger] t[j]) by {
                assert(t[j] == d[j - st]);
            }
            assert(t[st + d.len()] == suf[0]);
            lemma_digit_run_end(t, st, st + d.len());
            assert(t.subrange(st, st + d.len()) =~= d);
            assert(t.subrange(st + d.len(), t.len() as int) =~= suf);
            assert(signed_value(neg, digits_value(d)) == l.1);
            lemma_digits_plain(d);
            lemma_plain_concat(d, suf);
            assert(plain(sign)) by {
                assert forall|j: int| 0 <= j < sign.len() implies #[trigger] sign[j] != 32 && sign[j] != 59 && sign[j] != 34 by {}
            }
            lemma_plain_concat(sign, d + suf);
            assert(sign + d + suf =~= sign + (d + suf));
            assert(l.2 =~= Seq::<u8>::empty());
        },
    }
}

proof fn lemma_register_text(r: u64)
    ensures
        parse_register_token(register_text(r)) == Some(r),
        plain(register_text(r)),
        register_text(r)[0] == 114,
{
    let d = dec_digits(r as nat);
    lemma_dec_digits(r as nat);
    let t = register_text(r);
    assert(t.subrange(1, t.len() as int) =~= d);
    lemma_digits_plain(d);
    assert(plain(seq![114u8])) by {
        assert forall|j: int| 0 <= j < seq![114u8].len() implies #[trigger] seq![114u8][j] != 32 && seq![114u8][j] != 59 && seq![114u8][j] != 34 by {}
    }
    lemma_plain_concat(seq![114u8], d);
}

proof fn lemma_operand_text(o: OperandView)
    requires
        operand_view_wf(o),
    ensures
        parse_operand_token(operand_text(o)) == Some(o),
        operand_text(o).len() > 0,
{
    match o {
        OperandView::Literal(l) => {
            lemma_literal_text(l);
        },
        OperandView::Register(r) => {
            lemma_register_text(r);
        },
    }
}

/// An operand's text followed by a space reads back as the operand.
proof fn lemma_operand_at(o: OperandView, s: Seq<u8>, p: int)
    requires
        operand_view_wf(o),
        0 <= p,
        p + operand_text(o).len() < s.len(),
        s.subrange(p, p + operand_text(o).len()) == operand_text(o),
        s[p + operand_text(o).len()] == 32,
    ensures
        parse_operand_at(s, p) == Some((o, p + operand_text(o).len())),
{
    let t = operand_text(o);
    let q = p + t.len();
    lemma_operand_text(o);
    assert(s[p] == t[0]);
    let is_string = match o {
        OperandView::Literal(l) => l.0 is String,
        _ => false,
    };
    if is_string {
        let l = o->Literal_0;
        assert(t =~= seq![34u8] + l.2 + seq![34u8]);
        assert forall|j: int| p + 1 <= j < q - 1 implies #[trigger] s[j] != 34 by {
            assert(s[j] == t[j - p]);
            assert(t[j - p] == l.2[j - p - 1]);
            assert(crate::literal::is_string_char(l.2[j - p - 1]));
        }
        assert(s[q - 1] == t[t.len() - 1]);
        lemma_quote_end(s, p + 1, q - 1);
    } else {
        match o {
            OperandView::Literal(l) => lemma_literal_text(l),
            OperandView::Register(r) => lemma_register_text(r),
        }
        assert(plain(t));
        assert(t[0] != 34);
        assert forall|j: int| p <= j < q implies #[trigger] s[j] != 32 && s[j] != 59 by {
            assert(s[j] == t[j - p]);
        }
        lemma_word_end(s, p, q);
    }
}

proof fn lemma_opcode(idx: nat)
    requires
        idx < 9,
    ensures
        parse_opcode(opcode_text(idx)) == Some(idx),
        plain(opcode_text(idx)),
        opcode_text(idx).len() > 0,
        97 <= opcode_text(idx)[0] <= 122,
{
    let t = opcode_text(idx);
    assert(opcode_text(0)[0] != opcode_text(2)[0]);
    assert(opcode_text(0)[0] != opcode_text(4)[0]);
    assert(opcode_text(0)[0] != opcode_text(6)[0]);
    assert(opcode_text(0)[0] != opcode_text(7)[0]);
    assert(opcode_text(2)[0] != opcode_text(4)[0]);
    assert(opcode_text(2)[0] != opcode_text(6)[0]);
    assert(opcode_text(2)[0] != opcode_text(7)[0]);
    assert(opcode_text(4)[0] != opcode_text(6)[0]);
    assert(opcode_text(4)[0] != opcode_text(7)[0]);
    assert(opcode_text(6)[0] != opcode_text(7)[0]);
    assert(opcode_text(1)[0] != opcode_text(2)[0]);
    assert(opcode_text(1)[0] != opcode_text(4)[0]);
    assert(opcode_text(1)[0] != opcode_text(6)[0]);
    assert(opcode_text(1)[0] != opcode_text(7)[0]);
    assert(opcode_text(3)[0] != opcode_text(4)[0]);
    assert(opcode_text(3)[0] != opcode_text(6)[0]);
    assert(opcode_text(3)[0] != opcode_text(7)[0]);
    assert(opcode_text(5)[0] != opcode_text(6)[0]);
    assert(opcode_text(5)[0] != opcode_text(7)[0]);
    assert(opcode_text(0).len() != opcode_text(1).len());
    assert(opcode_text(2).len() != opcode_text(3).len());
    assert(opcode_text(4).len() != opcode_text(5).len());
    assert(opcode_text(7).len() != opcode_text(8).len());
    assert(opcode_text(0)[0] != opcode_text(8)[0]);
    assert(opcode_text(2)[0] != opcode_text(8)[0]);
    assert(opcode_text(4)[0] != opcode_text(8)[0]);
    assert(opcode_text(6)[0] != opcode_text(8)[0]);
    assert(opcode_text(0)[0] != opcode_text(3)[0]);
    assert(opcode_text(0)[0] != opcode_text(5)[0]);
    assert(opcode_text(2)[0] != opcode_text(5)[0]);
    assert(opcode_text(1)[0] != opcode_text(3)[0]);
    assert(opcode_text(1)[0] != opcode_text(5)[0]);
    assert(opcode_text(3)[0] != opcode_text(5)[0]);
    assert forall|j: int| 0 <= j < t.len() implies #[trigger] t[j] != 32 && t[j] != 59 && t[j] != 34 by {}
}

/// The text of a well-formed instruction reads back as the instruction, and
/// the parse ends right after its semicolon, whatever follows.
pub proof fn lemma_text_round_trip(i: InstructionView, rest: Seq<u8>)
    requires
        instruction_view_wf(i),
    ensures
        parse_instruction_at(instruction_text(i) + rest, 0) == Some((i, instruction_text(i).len() as int)),
{
    let s = instruction_text(i) + rest;
    let opc = opcode_text(opcode_index(i));
    lemma_opcode(opcode_index(i));
    assert(s[0] == opc[0]);
    assert(Seq::<u8>::empty() + instruction_text(i) + rest =~= s);
    lemma_text_after_prefix(Seq::empty(), i, rest);
}

/// Whitespace and comments before the text of a well-formed instruction
/// change nothing: it still reads back as the instruction, and the parse ends
/// right after its semicolon, whatever follows.
pub proof fn lemma_text_after_prefix(pre: Seq<u8>, i: InstructionView, rest: Seq<u8>)
    requires
        instruction_view_wf(i),
        skip_ws(pre + instruction_text(i) + rest, 0, 0) == pre.len(),
    ensures
        parse_instruction_at(pre + instruction_text(i) + rest, 0) == Some((i, pre.len() + instruction_text(i).len() as int)),
{
    lemma_opcode_at(pre, i, rest);
    match i {
        InstructionView::Binary(_, _, _, _, _) => lemma_text_binary(pre, i, rest),
        InstructionView::Ped1024(_, _) => lemma_text_hash(pre, i, rest),
    }
}

proof fn lemma_opcode_at(pre: Seq<u8>, i: InstructionView, rest: Seq<u8>)
    ensures
        ({
            let s = pre + instruction_text(i) + rest;
            let k = pre.len() as int;
            let e0 = k + opcode_text(opcode_index(i)).len();
            &&& word_end(s, k) == e0
            &&& parse_opcode(s.subrange(k, e0)) == Some(opcode_index(i))
            &&& e0 < s.len()
            &&& s[e0] == 32
        }),
{
    let s = pre + instruction_text(i) + rest;
    let k = pre.len() as int;
    let idx = opcode_index(i);
    let opc = opcode_text(idx);
    lemma_opcode(idx);
    let e0 = k + opc.len();
    assert forall|j: int| k <= j < e0 implies #[trigger] s[j] != 32 && s[j] != 59 by {
        assert(s[j] == opc[j - k]);
    }
    assert(s[e0] == 32);
    lemma_word_end(s, k, e0);
    assert(s.subrange(k, e0) =~= opc);
}

#[verifier::spinoff_prover]
#[verifier::rlimit(100)]
proof fn lemma_text_binary(pre: Seq<u8>, i: InstructionView, rest: Seq<u8>)
    requires
        instruction_view_wf(i),
        i is Binary,
        skip_ws(pre + instruction_text(i) + rest, 0, 0) == pre.len(),
        ({
            let s = pre + instruction_text(i) + rest;
            let k = pre.len() as int;
            let e0 = k + opcode_text(opcode_index(i)).len();
            &&& word_end(s, k) == e0
            &&& parse_opcode(s.subrange(k, e0)) == Some(opcode_index(i))
            &&& e0 < s.len()
            &&& s[e0] == 32
        }),
    ensures
        parse_instruction_at(pre + instruction_text(i) + rest, 0) == Some((i, pre.len() + instruction_text(i).len() as int)),
{
    let s = pre + instruction_text(i) + rest;
    let k = pre.len() as int;
    let idx = opcode_index(i);
    let opc = opcode_text(idx);
    let e0 = k + opc.len();
    let a = i->Binary_2;
    let b = i->Binary_3;
    let d = i->Binary_4;
    let ta = operand_text(a);
    let tb = operand_text(b);
    let tr = register_text(d);
    assert(s =~= pre + opc + seq![32u8] + ta + seq![32u8] + tb + kw_into() + tr + seq![59u8] + rest);
    let e1 = e0 + 1 + ta.len();
    assert(s.subrange(e0 + 1, e1) =~= ta);
    assert(s[e1] == 32);
    lemma_operand_at(a, s, e0 + 1);
    let e2 = e1 + 1 + tb.len();
    assert(s.subrange(e1 + 1, e2) =~= tb);
    assert(s[e2] == 32);
    lemma_operand_at(b, s, e1 + 1);
    assert(s.subrange(e2, e2 + 6) =~= kw_into());
    assert(s.subrange(e2 + 6, e2 + 6 + tr.len()) =~= tr);
    assert(s[e2 + 6 + tr.len()] == 59);
    lemma_destination_at(d, s, e2);
    assert(idx != 6);
    assert(opcode_operation(idx) == (i->Binary_0, i->Binary_1));
}

#[verifier::spinoff_prover]
proof fn lemma_text_hash(pre: Seq<u8>, i: InstructionView, rest: Seq<u8>)
    requires
        instruction_view_wf(i),
        i is Ped1024,
        skip_ws(pre + instruction_text(i) + rest, 0, 0) == pre.len(),
        ({
            let s = pre + instruction_text(i) + rest;
            let k = pre.len() as int;
            let e0 = k + opcode_text(opcode_index(i)).len();
            &&& word_end(s, k) == e0
            &&& parse_opcode(s.subrange(k, e0)) == Some(opcode_index(i))
            &&& e0 < s.len()
            &&& s[e0] == 32
        }),
    ensures
        parse_instruction_at(pre + instruction_text(i) + rest, 0) == Some((i, pre.len() + instruction_text(i).len() as int)),
{
    let s = pre + instruction_text(i) + rest;
    let k = pre.len() as int;
    let opc = opcode_text(opcode_index(i));
    let e0 = k + opc.len();
    let a = i->Ped1024_0;
    let d = i->Ped1024_1;
    let ta = operand_text(a);
    let tr = register_text(d);
    assert(s =~= pre + opc + seq![32u8] + ta + kw_into() + tr + seq![59u8] + rest);
    let e1 = e0 + 1 + ta.len();
    assert(s.subrange(e0 + 1, e1) =~= ta);
    assert(s[e1] == 32);
    lemma_operand_at(a, s, e0 + 1);
    assert(s.subrange(e1, e1 + 6) =~= kw_into());
    assert(s.subrange(e1 + 6, e1 + 6 + tr.len()) =~= tr);
    assert(s[e1 + 6 + tr.len()] == 59);
    lemma_destination_at(d, s, e1);
}

proof fn lemma_destination_at(d: u64, s: Seq<u8>, k: int)
    requires
        0 <= k,
        k + 6 + register_text(d).len() < s.len(),
        s.subrange(k, k + 6) == kw_into(),
        s.subrange(k + 6, k + 6 + register_text(d).len()) == register_text(d),
        s[k + 6 + register_text(d).len()] == 59,
    ensures
        parse_destination_at(s, k) == Some((d, k + 7 + register_text(d).len())),
{
    let tr = register_text(d);
    let q = k + 6 + tr.len();
    lemma_register_text(d);
    assert forall|j: int| k + 6 <= j < q implies #[trigger] s[j] != 32 && s[j] != 59 by {
        assert(s[j] == tr[j - k - 6]);
    }
    lemma_word_end(s, k + 6, q);
}

pub open spec fn ascii(t: Seq<u8>) -> bool {
    forall|j: int| 0 <= j < t.len() ==> #[trigger] t[j] < 128
}

proof fn lemma_ascii_concat(a: Seq<u8>, b: Seq<u8>)
    requires
        ascii(a),
        ascii(b),
    ensures
        ascii(a + b),
{
    assert forall|j: int| 0 <= j < (a + b).len() implies #[trigger] (a + b)[j] < 128 by {
        if j < a.len() {
            assert((a + b)[j] == a[j]);
        } else {
            assert((a + b)[j] == b[j - a.len()]);
        }
    }
}

proof fn lemma_ascii_small(t: Seq<u8>)
    requires
        forall|j: int| 0 <= j < t.len() ==> #[trigger] t[j] <= 127,
    ensures
        ascii(t),
{
}

proof fn lemma_literal_ascii(l: LiteralView)
    requires
        literal_view_wf(l),
    ensures
        ascii(literal_text(l)),
{
    assert(ascii(kw_true())) by { lemma_ascii_small(kw_true()); }
    assert(ascii(kw_false())) by { lemma_ascii_small(kw_false()); }
    assert(ascii(kw_field())) by { lemma_ascii_small(kw_field()); }
    assert(ascii(kw_group())) by { lemma_ascii_small(kw_group()); }
    assert(ascii(kw_scalar())) by { lemma_ascii_small(kw_scalar()); }
    assert(ascii(kw_aleo1())) by { lemma_ascii_small(kw_aleo1()); }
    assert(ascii(seq![34u8])) by { lemma_ascii_small(seq![34u8]); }
    assert(ascii(seq![45u8])) by { lemma_ascii_small(seq![45u8]); }
    assert(ascii(Seq::<u8>::empty())) by { lemma_ascii_small(Seq::<u8>::empty()); }
    assert(ascii(l.2)) by {
        assert forall|j: int| 0 <= j < l.2.len() implies #[trigger] l.2[j] < 128 by {
            match l.0 {
                LiteralType::Address => assert(crate::literal::is_address_char(l.2[j])),
                LiteralType::String => assert(crate::literal::is_string_char(l.2[j])),
                _ => assert(is_digit(l.2[j])),
            }
        }
    }
    match l.0 {
        LiteralType::Boolean => {},
        LiteralType::Integer(t) => {
            let d = dec_digits(abs(l.1));
            lemma_dec_digits(abs(l.1));
            assert(ascii(d)) by {
                assert forall|j: int| 0 <= j < d.len() implies #[trigger] d[j] < 128 by {
                    assert(is_digit(d[j]));
                }
            }
            assert(ascii(int_suffix(t))) by { lemma_ascii_small(int_suffix(t)); }
            let sign = if l.1 < 0 { seq![45u8] } else { Seq::<u8>::empty() };
            lemma_ascii_concat(sign, d);
            lemma_ascii_concat(sign + d, int_suffix(t));
        },
        LiteralType::Field => lemma_ascii_concat(l.2, kw_field()),
        LiteralType::Group => lemma_ascii_concat(l.2, kw_group()),
        LiteralType::Scalar => lemma_ascii_concat(l.2, kw_scalar()),
        LiteralType::Address => lemma_ascii_concat(kw_aleo1(), l.2),
        LiteralType::String => {
            lemma_ascii_concat(seq![34u8], l.2);
            lemma_ascii_concat(seq![34u8] + l.2, seq![34u8]);
        },
    }
}

proof fn lemma_operand_ascii(o: OperandView)
    requires
        operand_view_wf(o),
    ensures
        ascii(operand_text(o)),
{
    match o {
        OperandView::Literal(l) => lemma_literal_ascii(l),
        OperandView::Register(r) => lemma_register_ascii(r),
    }
}

proof fn lemma_register_ascii(r: u64)
    ensures
        ascii(register_text(r)),
{
    let d = dec_digits(r as nat);
    lemma_dec_digits(r as nat);
    assert(ascii(d)) by {
        assert forall|j: int| 0 <= j < d.len() implies #[trigger] d[j] < 128 by {
            assert(is_digit(d[j]));
        }
    }
    assert(ascii(seq![114u8])) by { lemma_ascii_small(seq![114u8]); }
    lemma_ascii_concat(seq![114u8], d);
}

/// The text of a well-formed instruction is ASCII.
pub proof fn lemma_instruction_ascii(i: InstructionView)
    requires
        instruction_view_wf(i),
    ensures
        ascii(instruction_text(i)),
{
    let opc = opcode_text(opcode_index(i));
    assert(ascii(opc)) by { lemma_ascii_small(opc); }
    assert(ascii(seq![32u8])) by { lemma_ascii_small(seq![32u8]); }
    assert(ascii(seq![59u8])) by { lemma_ascii_small(seq![59u8]); }
    assert(ascii(kw_into())) by { lemma_ascii_small(kw_into()); }
    let t = instruction_text(i);
    match i {
        InstructionView::Binary(_, _, a, b, d) => {
            lemma_operand_ascii(a);
            lemma_operand_ascii(b);
            lemma_register_ascii(d);
            let parts = operand_text(a) + seq![32u8] + operand_text(b) + kw_into() + register_text(d) + seq![59u8];
            lemma_ascii_concat(operand_text(a), seq![32u8]);
            lemma_ascii_concat(operand_text(a) + seq![32u8], operand_text(b));
            lemma_ascii_concat(operand_text(a) + seq![32u8] + operand_text(b), kw_into());
            lemma_ascii_concat(operand_text(a) + seq![32u8] + operand_text(b) + kw_into(), register_text(d));
            lemma_ascii_concat(operand_text(a) + seq![32u8] + operand_text(b) + kw_into() + register_text(d), seq![59u8]);
            lemma_ascii_concat(opc, seq![32u8]);
            lemma_ascii_concat(opc + seq![32u8], parts);
        },
        InstructionView::Ped1024(a, d) => {
            lemma_operand_ascii(a);
            lemma_register_ascii(d);
            let parts = operand_text(a) + kw_into() + register_text(d) + seq![59u8];
            lemma_ascii_concat(operand_text(a), kw_into());
            lemma_ascii_concat(operand_text(a) + kw_into(), register_text(d));
            lemma_ascii_concat(operand_text(a) + kw_into() + register_text(d), seq![59u8]);
            lemma_ascii_concat(opc, seq![32u8]);
            lemma_ascii_concat(opc + seq![32u8], parts);
        },
    }
}

/// Whatever reads as a literal is that literal's text.
proof fn lemma_literal_token_sound(tok: Seq<u8>)
    requires
        parse_literal_token(tok) is Some,
    ensures
        literal_text(parse_literal_token(tok)->Some_0) == tok,
        literal_view_wf(parse_literal_token(tok)->Some_0),
{
    let l = parse_literal_token(tok)->Some_0;
    if tok == kw_true() || tok == kw_false() {
        assert(kw_false()[0] != kw_true()[0]);
    } else if tok.len() >= 2 && tok[0] == 34 {
        assert(literal_text(l) =~= tok);
    } else if tok.len() >= 5 && tok.subrange(0, 5) == kw_aleo1() {
        assert(literal_text(l) =~= tok);
    } else {
        let neg = tok.len() > 0 && tok[0] == 45;
        let st: int = if neg { 1 } else { 0 };
        let k = digit_run_end(tok, st);
        lemma_digit_run_end_bounds(tok, st);
        let d = tok.subrange(st, k);
        let suf = tok.subrange(k, tok.len() as int);
        if neg {
            assert(tok =~= seq![45u8] + d + suf);
        } else {
            assert(tok =~= d + suf);
        }
        if suf == kw_field() || suf == kw_group() || suf == kw_scalar() {
            assert(literal_text(l) =~= tok);
        } else {
            let t = suffix_type(suf)->Some_0;
            assert(suf == int_suffix(t));
            lemma_canonical_digits(d);
            assert(abs(l.1) == digits_value(d));
            assert(literal_text(l) =~= tok);
        }
    }
}

proof fn lemma_digit_run_end_bounds(s: Seq<u8>, p: int)
    requires
        0 <= p <= s.len(),
    ensures
        p <= digit_run_end(s, p) <= s.len(),
    decreases s.len() - p,
{
    if p < s.len() && is_digit(s[p]) {
        lemma_digit_run_end_bounds(s, p + 1);
    }
}

proof fn lemma_operand_token_sound(tok: Seq<u8>)
    requires
        parse_operand_token(tok) is Some,
    ensures
        operand_text(parse_operand_token(tok)->Some_0) == tok,
        operand_view_wf(parse_operand_token(tok)->Some_0),
{
    if tok.len() > 0 && tok[0] == 114 {
        let d = tok.subrange(1, tok.len() as int);
        lemma_canonical_digits(d);
        assert(register_text(parse_register_token(tok)->Some_0) =~= tok);
    } else {
        lemma_literal_token_sound(tok);
    }
}

proof fn lemma_word_end_bounds(s: Seq<u8>, p: int)
    requires
        0 <= p <= s.len(),
    ensures
        p <= word_end(s, p) <= s.len(),
    decreases s.len() - p,
{
    if p < s.len() && s[p] != 32 && s[p] != 59 {
        lemma_word_end_bounds(s, p + 1);
    }
}

proof fn lemma_skip_ws_bounds(s: Seq<u8>, p: int, mode: u8)
    requires
        0 <= p <= s.len(),
    ensures
        p <= skip_ws(s, p, mode) <= s.len(),
    decreases s.len() - p,
{
    if p < s.len() {
        if mode == 1 {
            lemma_skip_ws_bounds(s, p + 1, if s[p] == 10 { 0 } else { 1 });
        } else if mode == 2 {
            if s[p] == 42 && p + 1 < s.len() && s[p + 1] == 47 {
                lemma_skip_ws_bounds(s, p + 2, 0);
            } else {
                lemma_skip_ws_bounds(s, p + 1, 2);
            }
        } else if s[p] == 32 || s[p] == 9 || s[p] == 10 || s[p] == 13 {
            lemma_skip_ws_bounds(s, p + 1, 0);
        } else if s[p] == 47 && p + 1 < s.len() && s[p + 1] == 47 {
            lemma_skip_ws_bounds(s, p + 2, 1);
        } else if s[p] == 47 && p + 1 < s.len() && s[p + 1] == 42 {
            lemma_skip_ws_bounds(s, p + 2, 2);
        }
    }
}

proof fn lemma_operand_at_sound(s: Seq<u8>, p: int)
    requires
        parse_operand_at(s, p) is Some,
    ensures
        ({
            let (o, e) = parse_operand_at(s, p)->Some_0;
            &&& 0 <= p <= e <= s.len()
            &&& s.subrange(p, e) == operand_text(o)
            &&& operand_view_wf(o)
        }),
{
    let e = operand_end(s, p);
    lemma_operand_token_sound(s.subrange(p, e));
}

proof fn lemma_destination_sound(s: Seq<u8>, k: int)
    requires
        parse_destination_at(s, k) is Some,
    ensures
        ({
            let (d, q) = parse_destination_at(s, k)->Some_0;
            &&& 0 <= k <= q <= s.len()
            &&& s.subrange(k, q) == kw_into() + register_text(d) + seq![59u8]
        }),
{
    let (d, q) = parse_destination_at(s, k)->Some_0;
    let e = word_end(s, k + 6);
    lemma_word_end_bounds(s, k + 6);
    let tok = s.subrange(k + 6, e);
    lemma_canonical_digits(tok.subrange(1, tok.len() as int));
    assert(register_text(d) =~= tok);
    assert(s.subrange(k, q) =~= s.subrange(k, k + 6) + tok + seq![59u8]);
}

/// Whatever parses from `p` on is, after the skipped whitespace and comments,
/// exactly the text that the parsed instruction prints as.
#[verifier::rlimit(100)]
pub proof fn lemma_text_sound(s: Seq<u8>, p: int)
    requires
        0 <= p <= s.len(),
        parse_instruction_at(s, p) is Some,
    ensures
        ({
            let (i, q) = parse_instruction_at(s, p)->Some_0;
            &&& instruction_view_wf(i)
            &&& skip_ws(s, p, 0) <= q <= s.len()
            &&& s.subrange(skip_ws(s, p, 0), q) == instruction_text(i)
        }),
{
    let (i, q) = parse_instruction_at(s, p)->Some_0;
    let p0 = skip_ws(s, p, 0);
    lemma_skip_ws_bounds(s, p, 0);
    let e0 = word_end(s, p0);
    lemma_word_end_bounds(s, p0);
    let idx = parse_opcode(s.subrange(p0, e0))->Some_0;
    assert(s.subrange(p0, e0) == opcode_text(idx));
    let (a, e1) = parse_operand_at(s, e0 + 1)->Some_0;
    lemma_operand_at_sound(s, e0 + 1);
    if idx == 6 {
        let (d, q1) = parse_destination_at(s, e1)->Some_0;
        lemma_destination_sound(s, e1);
        assert(s.subrange(p0, q) =~= s.subrange(p0, e0) + seq![32u8] + s.subrange(e0 + 1, e1) + s.subrange(e1, q));
        assert(s.subrange(p0, q) =~= instruction_text(i));
    } else {
        let (b, e2) = parse_operand_at(s, e1 + 1)->Some_0;
        lemma_operand_at_sound(s, e1 + 1);
        let (d, q1) = parse_destination_at(s, e2)->Some_0;
        lemma_destination_sound(s, e2);
        assert(idx < 9);
        assert(opcode_index(i) == idx);
        assert(s.subrange(p0, q) =~= s.subrange(p0, e0) + seq![32u8] + s.subrange(e0 + 1, e1) + seq![32u8] + s.subrange(e1 + 1, e2) + s.subrange(e2, q));
        assert(s.subrange(p0, q) =~= instruction_text(i));
    }
}
/// Skipping again from where skipping stopped stays put.
proof fn lemma_skip_ws_fixpoint(s: Seq<u8>, p: int, mode: u8)
    requires
        0 <= p <= s.len(),
    ensures
        skip_ws(s, skip_ws(s, p, mode), 0) == skip_ws(s, p, mode),
    decreases s.len() - p,
{
    if p < s.len() {
        if mode == 1 {
            lemma_skip_ws_fixpoint(s, p + 1, if s[p] == 10 { 0 } else { 1 });
        } else if mode == 2 {
            if s[p] == 42 && p + 1 < s.len() && s[p + 1] == 47 {
                lemma_skip_ws_fixpoint(s, p + 2, 0);
            } else {
                lemma_skip_ws_fixpoint(s, p + 1, 2);
            }
        } else if s[p] == 32 || s[p] == 9 || s[p] == 10 || s[p] == 13 {
            lemma_skip_ws_fixpoint(s, p + 1, 0);
        } else if s[p] == 47 && p + 1 < s.len() && s[p + 1] == 47 {
            lemma_skip_ws_fixpoint(s, p + 2, 1);
        } else if s[p] == 47 && p + 1 < s.len() && s[p + 1] == 42 {
            lemma_skip_ws_fixpoint(s, p + 2, 2);
        }
    }
}

/// Whitespace and comments before an instruction change nothing: parsing from
/// `p` gives what parsing from the end of the skipped text gives.
pub proof fn lemma_leading_whitespace(s: Seq<u8>, p: int)
    requires
        0 <= p <= s.len(),
    ensures
        parse_instruction_at(s, p) == parse_instruction_at(s, skip_ws(s, p, 0)),
{
    lemma_skip_ws_fixpoint(s, p, 0);
}

} // verus!
