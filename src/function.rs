use vstd::prelude::*;
use indexmap::IndexSet;
use crate::instruction::{step, Instruction, InstructionView, PedersenHasher};
use crate::literal::{LiteralType, ValueView, Visibility};
use crate::register::{EvalError, Register, Registers};

verus! {

#[verifier::external_type_specification]
#[verifier::external_body]
#[verifier::reject_recursive_types(T)]
#[verifier::reject_recursive_types(S)]
pub struct ExIndexSet<T, S>(IndexSet<T, S>);

/// A declaration in binary form: register locator, kind code, visibility code.
pub type DeclKey = (u64, u8, u8);

/// The declarations an `IndexSet` holds, in insertion order.
pub uninterp spec fn set_items(s: IndexSet<DeclKey>) -> Seq<DeclKey>;

/// Relies on `IndexSet::new`: the new set is empty.
#[verifier::external_body]
fn set_new() -> (r: IndexSet<DeclKey>)
    ensures
        set_items(r) == Seq::<DeclKey>::empty(),
{
    IndexSet::new()
}

/// Relies on `IndexSet::len`: the number of items.
#[verifier::external_body]
fn set_len(s: &IndexSet<DeclKey>) -> (r: usize)
    ensures
        r == set_items(*s).len(),
{
    s.len()
}

/// Relies on `IndexSet::contains`: whether an equal item is present.
#[verifier::external_body]
fn set_contains(s: &IndexSet<DeclKey>, k: &DeclKey) -> (r: bool)
    ensures
        r == set_items(*s).contains(*k),
{
    s.contains(k)
}

/// Relies on `IndexSet::insert`: a new item goes to the end; an equal item
/// already present leaves the set as it was.
#[verifier::external_body]
fn set_insert(s: &mut IndexSet<DeclKey>, k: DeclKey) -> (r: bool)
    ensures
        set_items(*old(s)).contains(k) ==> !r && set_items(*final(s)) == set_items(*old(s)),
        !set_items(*old(s)).contains(k) ==> r && set_items(*final(s)) == set_items(*old(s)).push(k),
{
    s.insert(k)
}

/// Relies on `IndexSet::get_index`: the item at that position, if there is one.
#[verifier::external_body]
fn set_get(s: &IndexSet<DeclKey>, i: usize) -> (r: Option<DeclKey>)
    ensures
        i < set_items(*s).len() ==> r == Some(set_items(*s)[i as int]),
        i >= set_items(*s).len() ==> r is None,
{
    s.get_index(i).copied()
}

/// The most inputs a function may declare.
pub const MAX_FUNCTION_INPUTS: usize = 8;

/// The most instructions a function may hold.
pub const MAX_FUNCTION_INSTRUCTIONS: usize = 65535;

/// The most outputs a function may declare.
pub const MAX_FUNCTION_OUTPUTS: usize = 8;

/// A declaration of a function input or output: a register and the kind and
/// visibility of the literal it holds.
#[derive(Clone, Copy, Debug, PartialEq, Eq, Structural)]
pub struct Declaration {
    pub register: Register,
    pub literal_type: LiteralType,
    pub visibility: Visibility,
}

pub open spec fn visibility_code(v: Visibility) -> u8 {
    match v {
        Visibility::Public => 0,
        Visibility::Private => 1,
    }
}

impl Declaration {
    pub open spec fn key(self) -> DeclKey {
        (self.register.locator, self.literal_type.code_spec(), visibility_code(self.visibility))
    }

    fn to_key(&self) -> (r: DeclKey)
        ensures
            r == self.key(),
    {
        let v: u8 = match self.visibility {
            Visibility::Public => 0,
            Visibility::Private => 1,
        };
        (self.register.locator, self.literal_type.code(), v)
    }

    fn from_key(k: DeclKey) -> (r: Option<Declaration>)
        ensures
            match r {
                Some(d) => d.key() == k,
                None => forall|d: Declaration| d.key() != k,
            },
    {
        let t = match LiteralType::from_code(k.1) {
            Some(t) => t,
            None => {
                proof {
                    assert forall|d: Declaration| d.key() != k by {
                        crate::literal::lemma_code_round_trip(d.literal_type);
                    }
                }
                return None;
            },
        };
        let v = if k.2 == 0 {
            Visibility::Public
        } else if k.2 == 1 {
            Visibility::Private
        } else {
            return None;
        };
        let r = Declaration { register: Register { locator: k.0 }, literal_type: t, visibility: v };
        proof {
            assert(t.code_spec() == k.1) by {
                crate::literal::lemma_code_round_trip(t);
                assert(LiteralType::from_code_spec(k.1) == Some(t));
                assert(LiteralType::from_code_spec(t.code_spec()) == Some(t));
                lemma_code_injective(t, k.1);
            }
        }
        Some(r)
    }
}

proof fn lemma_code_injective(t: LiteralType, c: u8)
    requires
        LiteralType::from_code_spec(c) == Some(t),
    ensures
        t.code_spec() == c,
{
}

/// The key of some declaration.
pub open spec fn key_valid(k: DeclKey) -> bool {
    LiteralType::from_code_spec(k.1) is Some && k.2 <= 1
}

proof fn lemma_key_valid(d: Declaration)
    ensures
        key_valid(d.key()),
{
    crate::literal::lemma_code_round_trip(d.literal_type);
}

/// The declarations that the keys of a set stand for, in order.
fn declarations(s: &IndexSet<DeclKey>) -> (r: Vec<Declaration>)
    requires
        forall|j: int| 0 <= j < set_items(*s).len() ==> key_valid(#[trigger] set_items(*s)[j]),
    ensures
        r@.map_values(|d: Declaration| d.key()) == set_items(*s),
{
    let n = set_len(s);
    let mut r: Vec<Declaration> = Vec::new();
    let mut i: usize = 0;
    while i < n
        invariant
            i <= n,
            n == set_items(*s).len(),
            forall|j: int| 0 <= j < set_items(*s).len() ==> key_valid(#[trigger] set_items(*s)[j]),
            r@.len() == i,
            forall|j: int| 0 <= j < i ==> (#[trigger] r@[j]).key() == set_items(*s)[j],
        decreases n - i,
    {
        let k = match set_get(s, i) {
            Some(k) => k,
            None => {
                assert(false);
                return r;
            },
        };
        assert(key_valid(set_items(*s)[i as int]));
        match Declaration::from_key(k) {
            Some(d) => r.push(d),
            None => {
                proof {
                    let t = LiteralType::from_code_spec(k.1)->Some_0;
                    let v = if k.2 == 0 { Visibility::Public } else { Visibility::Private };
                    let d = Declaration { register: Register { locator: k.0 }, literal_type: t, visibility: v };
                    lemma_code_injective(t, k.1);
                    assert(d.key() == k);
                }
                return r;
            },
        }
        i += 1;
    }
    assert(r@.map_values(|d: Declaration| d.key()) =~= set_items(*s));
    r
}

/// The stage a function is in while it is built.
#[derive(Clone, Copy, Debug, PartialEq, Eq, Structural)]
pub enum Phase {
    Empty,
    CollectingInputs,
    CollectingInstructions,
    CollectingOutputs,
}

/// Why building or evaluating a function failed.
#[derive(Clone, Copy, Debug, PartialEq, Eq, Structural)]
pub enum FunctionError {
    InputAfterInstructions,
    InputAfterOutputs,
    TooManyInputs,
    DuplicateInput,
    InstructionBeforeInputs,
    InstructionAfterOutputs,
    TooManyInstructions,
    OutputBeforeInputs,
    OutputBeforeInstructions,
    TooManyOutputs,
    NoInputs,
    NoInstructions,
    /// An instruction halted.
    Halted(EvalError),
}

/// A named function: inputs, then instructions, then outputs.
pub struct Function {
    name: Vec<u8>,
    inputs: IndexSet<DeclKey>,
    instructions: Vec<Instruction>,
    outputs: IndexSet<DeclKey>,
}

/// Effect of running the instructions in order, each with the hash result in
/// `ds` at its position: the registers after the last instruction, or the
/// registers just before the first instruction that halts, with its error.
pub open spec fn run(
    instrs: Seq<InstructionView>,
    m: Map<u64, Option<ValueView>>,
    ds: Seq<Seq<u8>>,
) -> (Map<u64, Option<ValueView>>, Option<EvalError>)
    decreases instrs.len(),
{
    if instrs.len() == 0 {
        (m, None)
    } else {
        let (m1, e1) = run(instrs.drop_last(), m, ds);
        if e1 is Some {
            (m1, e1)
        } else {
            match step(instrs.last(), m1, ds[instrs.len() - 1]) {
                Ok(m2) => (m2, None),
                Err(e) => (m1, Some(e)),
            }
        }
    }
}

/// A run reads only the hash results at the positions of its instructions.
pub proof fn lemma_run_reads_prefix(
    instrs: Seq<InstructionView>,
    m: Map<u64, Option<ValueView>>,
    ds1: Seq<Seq<u8>>,
    ds2: Seq<Seq<u8>>,
)
    requires
        forall|j: int| 0 <= j < instrs.len() ==> ds1[j] == ds2[j],
    ensures
        run(instrs, m, ds1) == run(instrs, m, ds2),
    decreases instrs.len(),
{
    if instrs.len() > 0 {
        lemma_run_reads_prefix(instrs.drop_last(), m, ds1, ds2);
    }
}

/// No instruction of the sequence is a hash.
pub open spec fn hash_free(instrs: Seq<InstructionView>) -> bool {
    forall|j: int| 0 <= j < instrs.len() ==> !(#[trigger] instrs[j] is Ped1024)
}

/// Without a hash instruction a run does not depend on hash results: two
/// evaluations of one function on equal register files end equal, with the
/// same result.
pub proof fn lemma_run_deterministic(
    instrs: Seq<InstructionView>,
    m: Map<u64, Option<ValueView>>,
    ds1: Seq<Seq<u8>>,
    ds2: Seq<Seq<u8>>,
)
    requires
        hash_free(instrs),
    ensures
        run(instrs, m, ds1) == run(instrs, m, ds2),
    decreases instrs.len(),
{
    if instrs.len() > 0 {
        let p = instrs.drop_last();
        assert(hash_free(p)) by {
            assert forall|j: int| 0 <= j < p.len() implies !(#[trigger] p[j] is Ped1024) by {
                assert(p[j] == instrs[j]);
            }
        }
        lemma_run_deterministic(p, m, ds1, ds2);
        assert(!(instrs[instrs.len() - 1] is Ped1024));
    }
}

/// The error of an evaluation that got past its preconditions.
pub open spec fn halt_of(r: Result<(), FunctionError>) -> Option<EvalError> {
    match r {
        Err(FunctionError::Halted(e)) => Some(e),
        _ => None,
    }
}

/// Once an instruction halts, the instructions after it change nothing.
pub proof fn lemma_run_stops(
    instrs: Seq<InstructionView>,
    m: Map<u64, Option<ValueView>>,
    ds: Seq<Seq<u8>>,
    k: int,
    j: int,
)
    requires
        0 <= k <= j <= instrs.len(),
        run(instrs.take(k), m, ds).1 is Some,
    ensures
        run(instrs.take(j), m, ds) == run(instrs.take(k), m, ds),
    decreases j - k,
{
    if j > k {
        lemma_run_stops(instrs, m, ds, k, j - 1);
        assert(instrs.take(j).drop_last() =~= instrs.take(j - 1));
    }
}

impl Function {
    pub closed spec fn name_view(&self) -> Seq<u8> {
        self.name@
    }

    pub closed spec fn input_keys(&self) -> Seq<DeclKey> {
        set_items(self.inputs)
    }

    pub closed spec fn instruction_views(&self) -> Seq<InstructionView> {
        self.instructions@.map_values(|i: Instruction| i@)
    }

    pub closed spec fn output_keys(&self) -> Seq<DeclKey> {
        set_items(self.outputs)
    }

    /// The stage the function is in.
    pub open spec fn phase_spec(&self) -> Phase {
        if self.output_keys().len() > 0 {
            Phase::CollectingOutputs
        } else if self.instruction_views().len() > 0 {
            Phase::CollectingInstructions
        } else if self.input_keys().len() > 0 {
            Phase::CollectingInputs
        } else {
            Phase::Empty
        }
    }

    /// Inputs come before instructions, instructions before outputs; no
    /// declaration appears twice; no collection exceeds its maximum.
    pub open spec fn wf(&self) -> bool {
        &&& self.input_keys().no_duplicates()
        &&& self.output_keys().no_duplicates()
        &&& self.input_keys().len() <= MAX_FUNCTION_INPUTS
        &&& self.instruction_views().len() <= MAX_FUNCTION_INSTRUCTIONS
        &&& self.output_keys().len() <= MAX_FUNCTION_OUTPUTS
        &&& self.instruction_views().len() > 0 ==> self.input_keys().len() > 0
        &&& self.output_keys().len() > 0 ==> self.instruction_views().len() > 0
        &&& forall|j: int| 0 <= j < self.input_keys().len() ==> key_valid(#[trigger] self.input_keys()[j])
        &&& forall|j: int| 0 <= j < self.output_keys().len() ==> key_valid(#[trigger] self.output_keys()[j])
    }

    /// A new function with the given name and nothing in it.
    pub fn new(name: Vec<u8>) -> (r: Function)
        ensures
            r.wf(),
            r.name_view() == name@,
            r.input_keys() == Seq::<DeclKey>::empty(),
            r.instruction_views() == Seq::<InstructionView>::empty(),
            r.output_keys() == Seq::<DeclKey>::empty(),
            r.phase_spec() == Phase::Empty,
    {
        let r = Function { name, inputs: set_new(), instructions: Vec::new(), outputs: set_new() };
        assert(r.instruction_views() =~= Seq::<InstructionView>::empty());
        r
    }

    /// Returns the name of the function.
    pub fn name(&self) -> (r: &Vec<u8>)
        ensures
            r@ == self.name_view(),
    {
        &self.name
    }

    /// Returns the input declarations, in order.
    pub fn inputs(&self) -> (r: Vec<Declaration>)
        requires
            self.wf(),
        ensures
            r@.map_values(|d: Declaration| d.key()) == self.input_keys(),
    {
        declarations(&self.inputs)
    }

    /// Returns the output declarations, in order.
    pub fn outputs(&self) -> (r: Vec<Declaration>)
        requires
            self.wf(),
        ensures
            r@.map_values(|d: Declaration| d.key()) == self.output_keys(),
    {
        declarations(&self.outputs)
    }

    /// Returns the instructions, in order.
    pub fn instructions(&self) -> (r: &Vec<Instruction>)
        ensures
            r@.map_values(|i: Instruction| i@) == self.instruction_views(),
    {
        &self.instructions
    }

    /// Returns the stage the function is in.
    pub fn phase(&self) -> (r: Phase)
        ensures
            r == self.phase_spec(),
    {
        if set_len(&self.outputs) > 0 {
            Phase::CollectingOutputs
        } else if self.instructions.len() > 0 {
            Phase::CollectingInstructions
        } else if set_len(&self.inputs) > 0 {
            Phase::CollectingInputs
        } else {
            Phase::Empty
        }
    }

    /// Adds an input declaration.
    ///
    /// Fails once an instruction or an output has been added, when the inputs
    /// are at their maximum, or when the same declaration is already there.
    pub fn add_input(&mut self, input: Declaration) -> (r: Result<(), FunctionError>)
        requires
            old(self).wf(),
        ensures
            final(self).wf(),
            r == (if old(self).instruction_views().len() > 0 {
                Err(FunctionError::InputAfterInstructions)
            } else if old(self).output_keys().len() > 0 {
                Err(FunctionError::InputAfterOutputs)
            } else if old(self).input_keys().len() >= MAX_FUNCTION_INPUTS {
                Err(FunctionError::TooManyInputs)
            } else if old(self).input_keys().contains(input.key()) {
                Err(FunctionError::DuplicateInput)
            } else {
                Ok(())
            }),
            final(self).name_view() == old(self).name_view(),
            final(self).instruction_views() == old(self).instruction_views(),
            final(self).output_keys() == old(self).output_keys(),
            final(self).input_keys() == if r is Ok {
                old(self).input_keys().push(input.key())
            } else {
                old(self).input_keys()
            },
    {
        if self.instructions.len() > 0 {
            return Err(FunctionError::InputAfterInstructions);
        }
        if set_len(&self.outputs) > 0 {
            return Err(FunctionError::InputAfterOutputs);
        }
        if set_len(&self.inputs) >= MAX_FUNCTION_INPUTS {
            return Err(FunctionError::TooManyInputs);
        }
        let key = input.to_key();
        if set_contains(&self.inputs, &key) {
            return Err(FunctionError::DuplicateInput);
        }
        set_insert(&mut self.inputs, key);
        proof {
            lemma_push_no_duplicates(old(self).input_keys(), key);
            lemma_key_valid(input);
        }
        Ok(())
    }

    /// Adds an instruction.
    ///
    /// Fails before any input has been added, once an output has been added,
    /// or when the instructions are at their maximum.
    pub fn add_instruction(&mut self, instruction: Instruction) -> (r: Result<(), FunctionError>)
        requires
            old(self).wf(),
        ensures
            final(self).wf(),
            r == (if old(self).input_keys().len() == 0 {
                Err(FunctionError::InstructionBeforeInputs)
            } else if old(self).output_keys().len() > 0 {
                Err(FunctionError::InstructionAfterOutputs)
            } else if old(self).instruction_views().len() >= MAX_FUNCTION_INSTRUCTIONS {
                Err(FunctionError::TooManyInstructions)
            } else {
                Ok(())
            }),
            final(self).name_view() == old(self).name_view(),
            final(self).input_keys() == old(self).input_keys(),
            final(self).output_keys() == old(self).output_keys(),
            final(self).instruction_views() == if r is Ok {
                old(self).instruction_views().push(instruction@)
            } else {
                old(self).instruction_views()
            },
    {
        if set_len(&self.inputs) == 0 {
            return Err(FunctionError::InstructionBeforeInputs);
        }
        if set_len(&self.outputs) > 0 {
            return Err(FunctionError::InstructionAfterOutputs);
        }
        if self.instructions.len() >= MAX_FUNCTION_INSTRUCTIONS {
            return Err(FunctionError::TooManyInstructions);
        }
        let ghost v = instruction@;
        self.instructions.push(instruction);
        assert(self.instruction_views() =~= old(self).instruction_views().push(v));
        Ok(())
    }

    /// Adds an output declaration.
    ///
    /// Fails before any input or instruction has been added, or when the
    /// outputs are at their maximum. A declaration that is already there is
    /// kept where it is, and the call succeeds.
    pub fn add_output(&mut self, output: Declaration) -> (r: Result<(), FunctionError>)
        requires
            old(self).wf(),
        ensures
            final(self).wf(),
            r == (if old(self).input_keys().len() == 0 {
                Err(FunctionError::OutputBeforeInputs)
            } else if old(self).instruction_views().len() == 0 {
                Err(FunctionError::OutputBeforeInstructions)
            } else if old(self).output_keys().len() >= MAX_FUNCTION_OUTPUTS {
                Err(FunctionError::TooManyOutputs)
            } else {
                Ok(())
            }),
            final(self).name_view() == old(self).name_view(),
            final(self).input_keys() == old(self).input_keys(),
            final(self).instruction_views() == old(self).instruction_views(),
            final(self).output_keys() == if r is Ok && !old(self).output_keys().contains(output.key()) {
                old(self).output_keys().push(output.key())
            } else {
                old(self).output_keys()
            },
    {
        if set_len(&self.inputs) == 0 {
            return Err(FunctionError::OutputBeforeInputs);
        }
        if self.instructions.len() == 0 {
            return Err(FunctionError::OutputBeforeInstructions);
        }
        if set_len(&self.outputs) >= MAX_FUNCTION_OUTPUTS {
            return Err(FunctionError::TooManyOutputs);
        }
        let key = output.to_key();
        let added = set_insert(&mut self.outputs, key);
        proof {
            if added {
                lemma_push_no_duplicates(old(self).output_keys(), key);
                lemma_key_valid(output);
            }
        }
        Ok(())
    }

    /// Evaluates the instructions in order against the register file.
    ///
    /// Fails when there is no input or no instruction. Otherwise runs every
    /// instruction and succeeds, or stops at the first instruction that halts
    /// with its error; registers written before it stay written.
    pub fn evaluate<H: PedersenHasher>(&self, registers: &mut Registers, hasher: &H) -> (r: Result<(), FunctionError>)
        ensures
            self.input_keys().len() == 0 ==> r == Err::<(), FunctionError>(FunctionError::NoInputs)
                && final(registers)@ == old(registers)@,
            self.input_keys().len() > 0 && self.instruction_views().len() == 0 ==> r == Err::<(), FunctionError>(
                FunctionError::NoInstructions,
            ) && final(registers)@ == old(registers)@,
            self.input_keys().len() > 0 && self.instruction_views().len() > 0 ==> {
                &&& (r is Ok || r->Err_0 is Halted)
                &&& exists|ds: Seq<Seq<u8>>| #[trigger] run(self.instruction_views(), old(registers)@, ds) == (final(registers)@, halt_of(r))
                &&& hash_free(self.instruction_views()) ==> run(self.instruction_views(), old(registers)@, Seq::empty()) == (final(registers)@, halt_of(r))
            },
    {
        if set_len(&self.inputs) == 0 {
            return Err(FunctionError::NoInputs);
        }
        if self.instructions.len() == 0 {
            return Err(FunctionError::NoInstructions);
        }
        let ghost instrs = self.instruction_views();
        let ghost m0 = registers@;
        let ghost mut ds: Seq<Seq<u8>> = Seq::empty();
        let mut i: usize = 0;
        assert(instrs.take(0) =~= Seq::<InstructionView>::empty());
        while i < self.instructions.len()
            invariant
                instrs == self.instruction_views(),
                i <= instrs.len(),
                ds.len() == i,
                run(instrs.take(i as int), m0, ds) == (registers@, None::<EvalError>),
                m0 == old(registers)@,
                self.input_keys().len() > 0,
            decreases instrs.len() - i,
        {
            let (res, Ghost(d)) = self.instructions[i].evaluate_recorded(registers, hasher);
            let ghost ds2 = ds.push(d);
            proof {
                assert(self.instructions@[i as int]@ == instrs[i as int]);
                lemma_run_reads_prefix(instrs.take(i as int), m0, ds, ds2);
                assert(instrs.take(i as int + 1).drop_last() =~= instrs.take(i as int));
            }
            match res {
                Ok(()) => {
                    proof {
                        ds = ds2;
                    }
                    i += 1;
                },
                Err(e) => {
                    proof {
                        assert(run(instrs.take(i as int + 1), m0, ds2) == (registers@, Some(e)));
                        lemma_run_stops(instrs, m0, ds2, i as int + 1, instrs.len() as int);
                        assert(instrs.take(instrs.len() as int) =~= instrs);
                        if hash_free(instrs) {
                            lemma_run_deterministic(instrs, m0, ds2, Seq::empty());
                        }
                    }
                    return Err(FunctionError::Halted(e));
                },
            }
        }
        assert(instrs.take(i as int) =~= instrs);
        proof {
            if hash_free(instrs) {
                lemma_run_deterministic(instrs, m0, ds, Seq::empty());
            }
        }
        Ok(())
    }
}

proof fn lemma_push_no_duplicates(s: Seq<DeclKey>, k: DeclKey)
    requires
        s.no_duplicates(),
        !s.contains(k),
    ensures
        s.push(k).no_duplicates(),
{
    assert forall|a: int, b: int| 0 <= a < b < s.push(k).len() implies s.push(k)[a] != s.push(k)[b] by {
        if b == s.len() {
            assert(s.push(k)[a] == s[a]);
            assert(s.contains(s[a]));
        }
    }
}

} // verus!
