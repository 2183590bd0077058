use vstd::prelude::*;
use std::collections::HashMap;
use crate::literal::{Value, ValueView};

verus! {

broadcast use vstd::std_specs::hash::group_hash_axioms;

/// The address of a register, `r<locator>`.
#[derive(Clone, Copy, Debug, PartialEq, Eq, Structural)]
pub struct Register {
    pub locator: u64,
}

/// Why the evaluation of an instruction halted.
#[derive(Clone, Copy, Debug, PartialEq, Eq, Structural)]
pub enum EvalError {
    /// The register was never defined, or holds no value yet.
    UndefinedRegister(u64),
    /// The operands are not integers of one type.
    TypeMismatch,
    /// The divisor is zero.
    DivisionByZero,
    /// The exact result does not fit the operands' type.
    Overflow,
    /// The hash input has more bits than the given capacity.
    CapacityExceeded(u64),
    /// The hash primitive returned something that is not a field element.
    MalformedDigest,
    /// The instruction was given the wrong number of operand types.
    ArityMismatch,
}

/// The register file of one evaluation: each defined register holds a value or nothing yet.
pub struct Registers {
    slots: HashMap<u64, Option<Value>>,
}

pub open spec fn slot_view(o: Option<Value>) -> Option<ValueView> {
    match o {
        Some(v) => Some(v@),
        None => None,
    }
}

impl View for Registers {
    type V = Map<u64, Option<ValueView>>;

    closed spec fn view(&self) -> Map<u64, Option<ValueView>> {
        self.slots@.map_values(|o: Option<Value>| slot_view(o))
    }
}

impl Registers {
    /// An empty register file.
    pub fn new() -> (r: Registers)
        ensures
            r@ == Map::<u64, Option<ValueView>>::empty(),
    {
        let r = Registers { slots: HashMap::new() };
        assert(r@ =~= Map::<u64, Option<ValueView>>::empty());
        r
    }

    /// Defines the register, leaving it empty; a defined register is left as it is.
    pub fn define(&mut self, register: &Register)
        ensures
            final(self)@ == if old(self)@.contains_key(register.locator) {
                old(self)@
            } else {
                old(self)@.insert(register.locator, None)
            },
    {
        if !self.slots.contains_key(&register.locator) {
            self.slots.insert(register.locator, None);
            assert(self@ =~= old(self)@.insert(register.locator, None));
        }
    }

    /// Stores the value in a defined register.
    pub fn assign(&mut self, register: &Register, value: Value) -> (r: Result<(), EvalError>)
        ensures
            old(self)@.contains_key(register.locator) ==> r is Ok && final(self)@ == old(self)@.insert(
                register.locator,
                Some(value@),
            ),
            !old(self)@.contains_key(register.locator) ==> r == Err::<(), EvalError>(
                EvalError::UndefinedRegister(register.locator),
            ) && final(self)@ == old(self)@,
    {
        if self.slots.contains_key(&register.locator) {
            let ghost v = value;
            self.slots.insert(register.locator, Some(value));
            assert(self@ =~= old(self)@.insert(register.locator, Some(v@)));
            Ok(())
        } else {
            Err(EvalError::UndefinedRegister(register.locator))
        }
    }

    /// The value that the register holds.
    pub fn load(&self, register: &Register) -> (r: Result<&Value, EvalError>)
        ensures
            match r {
                Ok(v) => self@.contains_key(register.locator) && self@[register.locator] == Some(v@),
                Err(e) => e == EvalError::UndefinedRegister(register.locator) && !(
                    self@.contains_key(register.locator) && self@[register.locator] is Some),
            },
    {
        match self.slots.get(&register.locator) {
            Some(Some(v)) => Ok(v),
            _ => Err(EvalError::UndefinedRegister(register.locator)),
        }
    }
}

} // verus!
