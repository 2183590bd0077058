use vstd::prelude::*;

verus! {

/// Whether a value is visible to everyone or only to its owner.
#[derive(Clone, Copy, Debug, PartialEq, Eq, Structural)]
pub enum Visibility {
    Public,
    Private,
}

/// The fixed-width integer kinds.
#[derive(Clone, Copy, Debug, PartialEq, Eq, Structural)]
pub enum IntegerType {
    I8,
    I16,
    I32,
    I64,
    I128,
    U8,
    U16,
    U32,
    U64,
    U128,
}

/// The kind of a literal.
#[derive(Clone, Copy, Debug, PartialEq, Eq, Structural)]
pub enum LiteralType {
    Boolean,
    Field,
    Group,
    Integer(IntegerType),
    Scalar,
    Address,
    String,
}

/// The payload of a literal, tagged by its kind.
///
/// Field, group and scalar elements are held as canonical decimal numerals,
/// an address as the characters that follow its `aleo1` prefix, and a string
/// as its bytes.
#[derive(Clone, Debug, PartialEq, Eq)]
pub enum LiteralData {
    Boolean(bool),
    Field(Vec<u8>),
    Group(Vec<u8>),
    I8(i8),
    I16(i16),
    I32(i32),
    I64(i64),
    I128(i128),
    U8(u8),
    U16(u16),
    U32(u32),
    U64(u64),
    U128(u128),
    Scalar(Vec<u8>),
    Address(Vec<u8>),
    String(Vec<u8>),
}

/// A literal together with its visibility.
#[derive(Clone, Debug, PartialEq, Eq)]
pub struct Literal {
    pub data: LiteralData,
    pub visibility: Visibility,
}

/// What a register can hold: a single literal, or a named structure of literals.
#[derive(Clone, Debug, PartialEq, Eq)]
pub enum Value {
    Literal(Literal),
    Composite(Vec<u8>, Vec<Literal>),
}

/// Number of characters in the body of an address.
pub const ADDRESS_BODY_LEN: usize = 58;

/// Longest numeral accepted for a field, group or scalar element.
pub const MAX_NUMERAL_LEN: usize = 78;

/// Longest string literal, in bytes.
pub const MAX_STRING_LEN: usize = 255;

pub open spec fn is_digit(c: u8) -> bool {
    48 <= c <= 57
}

pub open spec fn is_address_char(c: u8) -> bool {
    is_digit(c) || (97 <= c <= 122)
}

pub open spec fn is_string_char(c: u8) -> bool {
    32 <= c <= 126 && c != 34 && c != 92
}

/// A decimal numeral without superfluous leading zeros.
pub open spec fn is_numeral(s: Seq<u8>) -> bool {
    &&& 0 < s.len() <= MAX_NUMERAL_LEN
    &&& forall|i: int| 0 <= i < s.len() ==> is_digit(#[trigger] s[i])
    &&& (s.len() > 1 ==> s[0] != 48)
}

pub open spec fn is_address_body(s: Seq<u8>) -> bool {
    &&& s.len() == ADDRESS_BODY_LEN
    &&& forall|i: int| 0 <= i < s.len() ==> is_address_char(#[trigger] s[i])
}

pub open spec fn is_string_body(s: Seq<u8>) -> bool {
    &&& s.len() <= MAX_STRING_LEN
    &&& forall|i: int| 0 <= i < s.len() ==> is_string_char(#[trigger] s[i])
}

/// Number of bits in the canonical encoding of a literal.
pub open spec fn literal_bits(l: LiteralView) -> nat {
    match l.0 {
        LiteralType::Boolean => 1,
        LiteralType::Field => 253,
        LiteralType::Group => 253,
        LiteralType::Integer(t) => t.bits(),
        LiteralType::Scalar => 251,
        LiteralType::Address => 253,
        LiteralType::String => 8 * l.2.len(),
    }
}

/// Whether the bytes are a decimal numeral without superfluous leading zeros.
pub fn check_numeral(d: &Vec<u8>) -> (r: bool)
    ensures
        r == is_numeral(d@),
{
    if d.len() == 0 || d.len() > MAX_NUMERAL_LEN {
        return false;
    }
    if d.len() > 1 && d[0] == 48 {
        return false;
    }
    let mut i: usize = 0;
    while i < d.len()
        invariant
            i <= d@.len(),
            forall|j: int| 0 <= j < i ==> is_digit(#[trigger] d@[j]),
        decreases d@.len() - i,
    {
        if d[i] < 48 || d[i] > 57 {
            return false;
        }
        i += 1;
    }
    true
}

/// Whether the bytes are the body of an address.
pub fn check_address_body(d: &Vec<u8>) -> (r: bool)
    ensures
        r == is_address_body(d@),
{
    if d.len() != ADDRESS_BODY_LEN {
        return false;
    }
    let mut i: usize = 0;
    while i < d.len()
        invariant
            i <= d@.len(),
            forall|j: int| 0 <= j < i ==> is_address_char(#[trigger] d@[j]),
        decreases d@.len() - i,
    {
        let c = d[i];
        if !((48 <= c && c <= 57) || (97 <= c && c <= 122)) {
            return false;
        }
        i += 1;
    }
    true
}

/// Whether the bytes can stand between the quotes of a string literal.
pub fn check_string_body(d: &Vec<u8>) -> (r: bool)
    ensures
        r == is_string_body(d@),
{
    if d.len() > MAX_STRING_LEN {
        return false;
    }
    let mut i: usize = 0;
    while i < d.len()
        invariant
            i <= d@.len(),
            forall|j: int| 0 <= j < i ==> is_string_char(#[trigger] d@[j]),
        decreases d@.len() - i,
    {
        let c = d[i];
        if !(32 <= c && c <= 126 && c != 34 && c != 92) {
            return false;
        }
        i += 1;
    }
    true
}

impl IntegerType {
    pub open spec fn bits(self) -> nat {
        match self {
            IntegerType::I8 | IntegerType::U8 => 8,
            IntegerType::I16 | IntegerType::U16 => 16,
            IntegerType::I32 | IntegerType::U32 => 32,
            IntegerType::I64 | IntegerType::U64 => 64,
            IntegerType::I128 | IntegerType::U128 => 128,
        }
    }

    pub open spec fn is_signed(self) -> bool {
        match self {
            IntegerType::I8 | IntegerType::I16 | IntegerType::I32 | IntegerType::I64
            | IntegerType::I128 => true,
            _ => false,
        }
    }

    /// 2 to the power of the bit width.
    pub open spec fn modulus(self) -> int {
        match self {
            IntegerType::I8 | IntegerType::U8 => 0x100,
            IntegerType::I16 | IntegerType::U16 => 0x1_0000,
            IntegerType::I32 | IntegerType::U32 => 0x1_0000_0000,
            IntegerType::I64 | IntegerType::U64 => 0x1_0000_0000_0000_0000,
            IntegerType::I128 | IntegerType::U128 => u128::MAX as int + 1,
        }
    }

    pub open spec fn min(self) -> int {
        if self.is_signed() {
            -(self.modulus() / 2)
        } else {
            0
        }
    }

    pub open spec fn max(self) -> int {
        if self.is_signed() {
            self.modulus() / 2 - 1
        } else {
            self.modulus() - 1
        }
    }

    pub open spec fn in_range(self, x: int) -> bool {
        self.min() <= x <= self.max()
    }

    /// The one value of the type that is congruent to `x` modulo 2 to the bit width.
    pub open spec fn wrap(self, x: int) -> int {
        (x - self.min()) % self.modulus() + self.min()
    }
}

impl LiteralData {
    pub open spec fn literal_type(self) -> LiteralType {
        match self {
            LiteralData::Boolean(_) => LiteralType::Boolean,
            LiteralData::Field(_) => LiteralType::Field,
            LiteralData::Group(_) => LiteralType::Group,
            LiteralData::I8(_) => LiteralType::Integer(IntegerType::I8),
            LiteralData::I16(_) => LiteralType::Integer(IntegerType::I16),
            LiteralData::I32(_) => LiteralType::Integer(IntegerType::I32),
            LiteralData::I64(_) => LiteralType::Integer(IntegerType::I64),
            LiteralData::I128(_) => LiteralType::Integer(IntegerType::I128),
            LiteralData::U8(_) => LiteralType::Integer(IntegerType::U8),
            LiteralData::U16(_) => LiteralType::Integer(IntegerType::U16),
            LiteralData::U32(_) => LiteralType::Integer(IntegerType::U32),
            LiteralData::U64(_) => LiteralType::Integer(IntegerType::U64),
            LiteralData::U128(_) => LiteralType::Integer(IntegerType::U128),
            LiteralData::Scalar(_) => LiteralType::Scalar,
            LiteralData::Address(_) => LiteralType::Address,
            LiteralData::String(_) => LiteralType::String,
        }
    }

    /// The mathematical value of an integer literal.
    pub open spec fn int_value(self) -> int {
        match self {
            LiteralData::I8(v) => v as int,
            LiteralData::I16(v) => v as int,
            LiteralData::I32(v) => v as int,
            LiteralData::I64(v) => v as int,
            LiteralData::I128(v) => v as int,
            LiteralData::U8(v) => v as int,
            LiteralData::U16(v) => v as int,
            LiteralData::U32(v) => v as int,
            LiteralData::U64(v) => v as int,
            LiteralData::U128(v) => v as int,
            _ => 0,
        }
    }

    pub open spec fn is_integer(self) -> bool {
        self.literal_type() is Integer
    }

    /// The payload is in canonical form for its kind.
    pub open spec fn wf(self) -> bool {
        match self {
            LiteralData::Field(d) => is_numeral(d@),
            LiteralData::Group(d) => is_numeral(d@),
            LiteralData::Scalar(d) => is_numeral(d@),
            LiteralData::Address(d) => is_address_body(d@),
            LiteralData::String(d) => is_string_body(d@),
            _ => true,
        }
    }

    /// Returns the kind of the literal.
    pub fn get_type(&self) -> (r: LiteralType)
        ensures
            r == self.literal_type(),
    {
        match self {
            LiteralData::Boolean(_) => LiteralType::Boolean,
            LiteralData::Field(_) => LiteralType::Field,
            LiteralData::Group(_) => LiteralType::Group,
            LiteralData::I8(_) => LiteralType::Integer(IntegerType::I8),
            LiteralData::I16(_) => LiteralType::Integer(IntegerType::I16),
            LiteralData::I32(_) => LiteralType::Integer(IntegerType::I32),
            LiteralData::I64(_) => LiteralType::Integer(IntegerType::I64),
            LiteralData::I128(_) => LiteralType::Integer(IntegerType::I128),
            LiteralData::U8(_) => LiteralType::Integer(IntegerType::U8),
            LiteralData::U16(_) => LiteralType::Integer(IntegerType::U16),
            LiteralData::U32(_) => LiteralType::Integer(IntegerType::U32),
            LiteralData::U64(_) => LiteralType::Integer(IntegerType::U64),
            LiteralData::U128(_) => LiteralType::Integer(IntegerType::U128),
            LiteralData::Scalar(_) => LiteralType::Scalar,
            LiteralData::Address(_) => LiteralType::Address,
            LiteralData::String(_) => LiteralType::String,
        }
    }

    /// Returns the number of bits in the canonical encoding of the payload,
    /// or some number above `u32::MAX` where that number is larger still.
    pub fn bit_length(&self) -> (r: u64)
        ensures
            r == literal_bits(self@) || (literal_bits(self@) > u32::MAX && r > u32::MAX),
    {
        match self {
            LiteralData::Boolean(_) => 1,
            LiteralData::Field(_) => 253,
            LiteralData::Group(_) => 253,
            LiteralData::Scalar(_) => 251,
            LiteralData::Address(_) => 253,
            LiteralData::String(d) => if d.len() >= 0x2000_0000 {
                u64::MAX
            } else {
                8 * (d.len() as u64)
            },
            LiteralData::I8(_) | LiteralData::U8(_) => 8,
            LiteralData::I16(_) | LiteralData::U16(_) => 16,
            LiteralData::I32(_) | LiteralData::U32(_) => 32,
            LiteralData::I64(_) | LiteralData::U64(_) => 64,
            LiteralData::I128(_) | LiteralData::U128(_) => 128,
        }
    }
}

impl Literal {
    pub open spec fn wf(self) -> bool {
        self.data.wf()
    }
}

impl Value {
    pub open spec fn wf(self) -> bool {
        match self {
            Value::Literal(l) => l.wf(),
            Value::Composite(_, members) => forall|i: int|
                0 <= i < members@.len() ==> (#[trigger] members@[i]).wf(),
        }
    }
}

} // verus!

verus! {

/// The model of a literal's payload: its kind, its value as an integer (booleans
/// as 0 or 1), and its bytes (for the kinds held as text).
pub type LiteralView = (LiteralType, int, Seq<u8>);

/// The model of a value.
pub enum ValueView {
    Literal(LiteralView, Visibility),
    Composite(Seq<u8>, Seq<(LiteralView, Visibility)>),
}

impl View for LiteralData {
    type V = LiteralView;

    open spec fn view(&self) -> LiteralView {
        match self {
            LiteralData::Boolean(b) => (LiteralType::Boolean, if *b { 1int } else { 0int }, Seq::empty()),
            LiteralData::Field(d) => (LiteralType::Field, 0, d@),
            LiteralData::Group(d) => (LiteralType::Group, 0, d@),
            LiteralData::Scalar(d) => (LiteralType::Scalar, 0, d@),
            LiteralData::Address(d) => (LiteralType::Address, 0, d@),
            LiteralData::String(d) => (LiteralType::String, 0, d@),
            _ => (self.literal_type(), self.int_value(), Seq::empty()),
        }
    }
}

impl View for Literal {
    type V = (LiteralView, Visibility);

    open spec fn view(&self) -> (LiteralView, Visibility) {
        (self.data@, self.visibility)
    }
}

pub open spec fn literals_view(s: Seq<Literal>) -> Seq<(LiteralView, Visibility)> {
    s.map_values(|l: Literal| l@)
}

impl View for Value {
    type V = ValueView;

    open spec fn view(&self) -> ValueView {
        match self {
            Value::Literal(l) => ValueView::Literal(l.data@, l.visibility),
            Value::Composite(name, members) => ValueView::Composite(name@, literals_view(members@)),
        }
    }
}

fn copy_bytes(v: &Vec<u8>) -> (r: Vec<u8>)
    ensures
        r@ == v@,
{
    let r = v.clone();
    assert(r@ =~= v@);
    r
}

impl LiteralData {
    /// Returns an identical copy of the payload.
    pub fn copy(&self) -> (r: LiteralData)
        ensures
            r@ == self@,
            r.wf() == self.wf(),
            r.literal_type() == self.literal_type(),
    {
        match self {
            LiteralData::Boolean(b) => LiteralData::Boolean(*b),
            LiteralData::Field(d) => LiteralData::Field(copy_bytes(d)),
            LiteralData::Group(d) => LiteralData::Group(copy_bytes(d)),
            LiteralData::I8(v) => LiteralData::I8(*v),
            LiteralData::I16(v) => LiteralData::I16(*v),
            LiteralData::I32(v) => LiteralData::I32(*v),
            LiteralData::I64(v) => LiteralData::I64(*v),
            LiteralData::I128(v) => LiteralData::I128(*v),
            LiteralData::U8(v) => LiteralData::U8(*v),
            LiteralData::U16(v) => LiteralData::U16(*v),
            LiteralData::U32(v) => LiteralData::U32(*v),
            LiteralData::U64(v) => LiteralData::U64(*v),
            LiteralData::U128(v) => LiteralData::U128(*v),
            LiteralData::Scalar(d) => LiteralData::Scalar(copy_bytes(d)),
            LiteralData::Address(d) => LiteralData::Address(copy_bytes(d)),
            LiteralData::String(d) => LiteralData::String(copy_bytes(d)),
        }
    }
}

impl Literal {
    /// Returns an identical copy of the literal.
    pub fn copy(&self) -> (r: Literal)
        ensures
            r@ == self@,
            r.wf() == self.wf(),
    {
        Literal { data: self.data.copy(), visibility: self.visibility }
    }
}

impl Value {
    /// Returns an identical copy of the value.
    pub fn copy(&self) -> (r: Value)
        ensures
            r@ == self@,
    {
        match self {
            Value::Literal(l) => Value::Literal(l.copy()),
            Value::Composite(name, members) => {
                let mut out: Vec<Literal> = Vec::new();
                let mut i: usize = 0;
                while i < members.len()
                    invariant
                        i <= members@.len(),
                        out@.len() == i,
                        forall|j: int| 0 <= j < i ==> (#[trigger] out@[j])@ == members@[j]@,
                    decreases members@.len() - i,
                {
                    out.push(members[i].copy());
                    i += 1;
                }
                assert(literals_view(out@) =~= literals_view(members@));
                Value::Composite(copy_bytes(name), out)
            },
        }
    }
}

} // verus!

verus! {

impl LiteralType {
    /// The one-byte code of the kind, in binary encodings.
    pub open spec fn code_spec(self) -> u8 {
        match self {
            LiteralType::Boolean => 0,
            LiteralType::Field => 1,
            LiteralType::Group => 2,
            LiteralType::Integer(IntegerType::I8) => 3,
            LiteralType::Integer(IntegerType::I16) => 4,
            LiteralType::Integer(IntegerType::I32) => 5,
            LiteralType::Integer(IntegerType::I64) => 6,
            LiteralType::Integer(IntegerType::I128) => 7,
            LiteralType::Integer(IntegerType::U8) => 8,
            LiteralType::Integer(IntegerType::U16) => 9,
            LiteralType::Integer(IntegerType::U32) => 10,
            LiteralType::Integer(IntegerType::U64) => 11,
            LiteralType::Integer(IntegerType::U128) => 12,
            LiteralType::Scalar => 13,
            LiteralType::Address => 14,
            LiteralType::String => 15,
        }
    }

    pub open spec fn from_code_spec(c: u8) -> Option<LiteralType> {
        if c == 0 { Some(LiteralType::Boolean) }
        else if c == 1 { Some(LiteralType::Field) }
        else if c == 2 { Some(LiteralType::Group) }
        else if c == 3 { Some(LiteralType::Integer(IntegerType::I8)) }
        else if c == 4 { Some(LiteralType::Integer(IntegerType::I16)) }
        else if c == 5 { Some(LiteralType::Integer(IntegerType::I32)) }
        else if c == 6 { Some(LiteralType::Integer(IntegerType::I64)) }
        else if c == 7 { Some(LiteralType::Integer(IntegerType::I128)) }
        else if c == 8 { Some(LiteralType::Integer(IntegerType::U8)) }
        else if c == 9 { Some(LiteralType::Integer(IntegerType::U16)) }
        else if c == 10 { Some(LiteralType::Integer(IntegerType::U32)) }
        else if c == 11 { Some(LiteralType::Integer(IntegerType::U64)) }
        else if c == 12 { Some(LiteralType::Integer(IntegerType::U128)) }
        else if c == 13 { Some(LiteralType::Scalar) }
        else if c == 14 { Some(LiteralType::Address) }
        else if c == 15 { Some(LiteralType::String) }
        else { None }
    }

    /// Returns the one-byte code of the kind.
    pub fn code(&self) -> (r: u8)
        ensures
            r == self.code_spec(),
    {
        match self {
            LiteralType::Boolean => 0,
            LiteralType::Field => 1,
            LiteralType::Group => 2,
            LiteralType::Integer(IntegerType::I8) => 3,
            LiteralType::Integer(IntegerType::I16) => 4,
            LiteralType::Integer(IntegerType::I32) => 5,
            LiteralType::Integer(IntegerType::I64) => 6,
            LiteralType::Integer(IntegerType::I128) => 7,
            LiteralType::Integer(IntegerType::U8) => 8,
            LiteralType::Integer(IntegerType::U16) => 9,
            LiteralType::Integer(IntegerType::U32) => 10,
            LiteralType::Integer(IntegerType::U64) => 11,
            LiteralType::Integer(IntegerType::U128) => 12,
            LiteralType::Scalar => 13,
            LiteralType::Address => 14,
            LiteralType::String => 15,
        }
    }

    /// Returns the kind with the given code, if any.
    pub fn from_code(c: u8) -> (r: Option<LiteralType>)
        ensures
            r == Self::from_code_spec(c),
    {
        if c == 0 { Some(LiteralType::Boolean) }
        else if c == 1 { Some(LiteralType::Field) }
        else if c == 2 { Some(LiteralType::Group) }
        else if c == 3 { Some(LiteralType::Integer(IntegerType::I8)) }
        else if c == 4 { Some(LiteralType::Integer(IntegerType::I16)) }
        else if c == 5 { Some(LiteralType::Integer(IntegerType::I32)) }
        else if c == 6 { Some(LiteralType::Integer(IntegerType::I64)) }
        else if c == 7 { Some(LiteralType::Integer(IntegerType::I128)) }
        else if c == 8 { Some(LiteralType::Integer(IntegerType::U8)) }
        else if c == 9 { Some(LiteralType::Integer(IntegerType::U16)) }
        else if c == 10 { Some(LiteralType::Integer(IntegerType::U32)) }
        else if c == 11 { Some(LiteralType::Integer(IntegerType::U64)) }
        else if c == 12 { Some(LiteralType::Integer(IntegerType::U128)) }
        else if c == 13 { Some(LiteralType::Scalar) }
        else if c == 14 { Some(LiteralType::Address) }
        else if c == 15 { Some(LiteralType::String) }
        else { None }
    }
}

/// Decoding the code of a kind gives the kind back.
pub proof fn lemma_code_round_trip(t: LiteralType)
    ensures
        LiteralType::from_code_spec(t.code_spec()) == Some(t),
{
}

} // verus!
