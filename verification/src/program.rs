//! The compiled program model: functions, call instructions, closures and
//! record types, together with the lookups a stack performs on them.

use vstd::prelude::*;

use crate::errors::Error;
use crate::ident::{
    check_ident_bytes, ident_eq, ident_wf, locator_wf, pid_eq, pid_wf, Identifier, Locator,
    LocatorV, ProgramID, ProgramIdV,
};

verus! {

/// Largest number of imports, functions, closures, records or
/// instructions a program may declare; counts must fit the canonical
/// byte form's two-byte fields.
pub const MAX_SECTION_LEN: usize = 0xFFFF;

/// The mathematical shape of a call operator.
#[verifier::ext_equal]
pub enum CallOperatorV {
    /// A resource of an external program.
    Locator(LocatorV),
    /// A resource of the calling program.
    Resource(Seq<u8>),
}

/// The operand of a `call` instruction: either a locator into an
/// external program or a resource name of the calling program.
#[derive(Debug, PartialEq, Eq)]
pub enum CallOperator {
    /// A resource of an external program.
    Locator(Locator),
    /// A resource of the calling program.
    Resource(Identifier),
}

impl View for CallOperator {
    type V = CallOperatorV;

    open spec fn view(&self) -> CallOperatorV {
        match self {
            CallOperator::Locator(l) => CallOperatorV::Locator(l@),
            CallOperator::Resource(r) => CallOperatorV::Resource(r@),
        }
    }
}

impl Clone for CallOperator {
    fn clone(&self) -> (r: Self)
        ensures
            r@ == self@,
    {
        match self {
            CallOperator::Locator(l) => CallOperator::Locator(l.clone()),
            CallOperator::Resource(id) => CallOperator::Resource(id.clone()),
        }
    }
}

/// A well-formed call operator.
pub open spec fn call_op_wf(op: CallOperatorV) -> bool {
    match op {
        CallOperatorV::Locator(l) => locator_wf(l),
        CallOperatorV::Resource(r) => ident_wf(r),
    }
}

/// The mathematical shape of an instruction.
#[verifier::ext_equal]
pub enum InstructionV {
    /// A call into a function or closure.
    Call(CallOperatorV),
    /// Any other instruction, carried by its mnemonic.
    Operation(Seq<u8>),
}

/// One instruction of a function body.  Call-graph accounting reads only
/// whether an instruction is a `call` and what it calls, so every other
/// instruction is carried by its mnemonic alone.
#[derive(Debug, PartialEq, Eq)]
pub enum Instruction {
    /// A call into a function or closure.
    Call(CallOperator),
    /// Any other instruction, carried by its mnemonic.
    Operation(Identifier),
}

impl View for Instruction {
    type V = InstructionV;

    open spec fn view(&self) -> InstructionV {
        match self {
            Instruction::Call(op) => InstructionV::Call(op@),
            Instruction::Operation(m) => InstructionV::Operation(m@),
        }
    }
}

impl Clone for Instruction {
    fn clone(&self) -> (r: Self)
        ensures
            r@ == self@,
    {
        match self {
            Instruction::Call(op) => Instruction::Call(op.clone()),
            Instruction::Operation(m) => Instruction::Operation(m.clone()),
        }
    }
}

/// A well-formed instruction.
pub open spec fn instr_wf(i: InstructionV) -> bool {
    match i {
        InstructionV::Call(op) => call_op_wf(op),
        InstructionV::Operation(m) => ident_wf(m),
    }
}

/// The mathematical shape of a function.
#[verifier::ext_equal]
pub struct FunctionV {
    /// The function's name.
    pub name: Seq<u8>,
    /// The function's instructions, in order.
    pub instructions: Seq<InstructionV>,
}

/// A named function with its ordered instructions.
#[derive(Debug, PartialEq, Eq)]
pub struct Function {
    /// The function's name.
    pub name: Identifier,
    /// The function's instructions, in order.
    pub instructions: Vec<Instruction>,
}

impl View for Function {
    type V = FunctionV;

    open spec fn view(&self) -> FunctionV {
        FunctionV {
            name: self.name@,
            instructions: self.instructions@.map_values(|i: Instruction| i@),
        }
    }
}

impl Clone for Function {
    fn clone(&self) -> (r: Self)
        ensures
            r@ == self@,
    {
        let mut instrs: Vec<Instruction> = Vec::new();
        let mut i: usize = 0;
        while i < self.instructions.len()
            invariant
                i <= self.instructions@.len(),
                instrs@.len() == i,
                forall|j: int| 0 <= j < i ==> (#[trigger] instrs@[j])@ == self.instructions@[j]@,
            decreases self.instructions@.len() - i,
        {
            instrs.push(self.instructions[i].clone());
            i = i + 1;
        }
        let r = Function { name: self.name.clone(), instructions: instrs };
        proof {
            assert(r@.instructions =~= self@.instructions);
            assert(r@ =~= self@);
        }
        r
    }
}

/// A well-formed function: valid name, bounded body, valid instructions.
pub open spec fn function_wf(f: FunctionV) -> bool {
    &&& ident_wf(f.name)
    &&& f.instructions.len() <= MAX_SECTION_LEN
    &&& forall|i: int| 0 <= i < f.instructions.len() ==> instr_wf(#[trigger] f.instructions[i])
}

/// A record type declaration, carried by its name.
#[derive(Debug, PartialEq, Eq)]
pub struct RecordType {
    /// The record type's name.
    pub name: Identifier,
}

impl View for RecordType {
    type V = Seq<u8>;

    open spec fn view(&self) -> Seq<u8> {
        self.name@
    }
}

impl Clone for RecordType {
    fn clone(&self) -> (r: Self)
        ensures
            r@ == self@,
    {
        RecordType { name: self.name.clone() }
    }
}

/// The mathematical shape of a program.
#[verifier::ext_equal]
pub struct ProgramV {
    /// The program identifier.
    pub id: ProgramIdV,
    /// The identifiers of the imported programs, in order.
    pub imports: Seq<ProgramIdV>,
    /// The declared functions, in order.
    pub functions: Seq<FunctionV>,
    /// The names of the declared closures, in order.
    pub closures: Seq<Seq<u8>>,
    /// The names of the declared record types, in order.
    pub records: Seq<Seq<u8>>,
}

/// An immutable compiled unit: identifier, imports, functions, closures
/// and record type declarations.  A stack owns exactly one program and
/// never mutates it.
#[derive(Debug, PartialEq, Eq)]
pub struct Program {
    /// The program identifier.
    pub id: ProgramID,
    /// The identifiers of the imported programs, in order.
    pub imports: Vec<ProgramID>,
    /// The declared functions, in order.
    pub functions: Vec<Function>,
    /// The names of the declared closures, in order.
    pub closures: Vec<Identifier>,
    /// The declared record types, in order.
    pub records: Vec<RecordType>,
}

impl View for Program {
    type V = ProgramV;

    open spec fn view(&self) -> ProgramV {
        ProgramV {
            id: self.id@,
            imports: self.imports@.map_values(|p: ProgramID| p@),
            functions: self.functions@.map_values(|f: Function| f@),
            closures: self.closures@.map_values(|c: Identifier| c@),
            records: self.records@.map_values(|r: RecordType| r@),
        }
    }
}

/// True when no two elements of the sequence are equal.
pub open spec fn seq_distinct<T>(s: Seq<T>) -> bool {
    forall|i: int, j: int| 0 <= i < j < s.len() ==> #[trigger] s[i] != #[trigger] s[j]
}

/// The names of a program's functions, in declaration order.
pub open spec fn fn_names(p: ProgramV) -> Seq<Seq<u8>> {
    p.functions.map_values(|f: FunctionV| f.name)
}

/// All names a program declares: functions, then closures, then records.
pub open spec fn declared_names(p: ProgramV) -> Seq<Seq<u8>> {
    fn_names(p) + p.closures + p.records
}

/// A well-formed program: a valid identifier, bounded and valid sections,
/// distinct imports none of which is the program itself, and distinct
/// declared names.
pub open spec fn prog_wf(p: ProgramV) -> bool {
    &&& pid_wf(p.id)
    &&& p.imports.len() <= MAX_SECTION_LEN
    &&& forall|i: int| 0 <= i < p.imports.len() ==> pid_wf(#[trigger] p.imports[i])
    &&& seq_distinct(p.imports)
    &&& forall|i: int| 0 <= i < p.imports.len() ==> #[trigger] p.imports[i] != p.id
    &&& p.functions.len() <= MAX_SECTION_LEN
    &&& forall|i: int| 0 <= i < p.functions.len() ==> function_wf(#[trigger] p.functions[i])
    &&& p.closures.len() <= MAX_SECTION_LEN
    &&& forall|i: int| 0 <= i < p.closures.len() ==> ident_wf(#[trigger] p.closures[i])
    &&& p.records.len() <= MAX_SECTION_LEN
    &&& forall|i: int| 0 <= i < p.records.len() ==> ident_wf(#[trigger] p.records[i])
    &&& seq_distinct(declared_names(p))
}

/// True when the program declares a function with the given name.
pub open spec fn contains_fn(p: ProgramV, name: Seq<u8>) -> bool {
    exists|i: int| 0 <= i < p.functions.len() && (#[trigger] p.functions[i]).name == name
}

/// The first function with the given name, if any.
pub open spec fn find_fn_in(fns: Seq<FunctionV>, name: Seq<u8>) -> Option<FunctionV>
    decreases fns.len(),
{
    if fns.len() == 0 {
        None
    } else if fns[0].name == name {
        Some(fns[0])
    } else {
        find_fn_in(fns.drop_first(), name)
    }
}

/// The function the program declares under the given name, if any.
pub open spec fn find_fn(p: ProgramV, name: Seq<u8>) -> Option<FunctionV> {
    find_fn_in(p.functions, name)
}

/// Relates [`find_fn_in`] to membership: a search succeeds exactly when
/// some function bears the name, and it returns such a function.
pub proof fn lemma_find_fn_in_membership(fns: Seq<FunctionV>, name: Seq<u8>)
    ensures
        find_fn_in(fns, name) is Some <==> exists|i: int|
            0 <= i < fns.len() && (#[trigger] fns[i]).name == name,
        find_fn_in(fns, name) matches Some(f) ==> f.name == name && exists|i: int|
            0 <= i < fns.len() && #[trigger] fns[i] == f,
    decreases fns.len(),
{
    if fns.len() == 0 {
    } else if fns[0].name == name {
        assert(fns[0].name == name);
    } else {
        lemma_find_fn_in_membership(fns.drop_first(), name);
        if find_fn_in(fns.drop_first(), name) is Some {
            let i = choose|i: int|
                0 <= i < fns.drop_first().len() && (#[trigger] fns.drop_first()[i]).name == name;
            assert(fns[i + 1].name == name);
            let f = find_fn_in(fns.drop_first(), name).unwrap();
            let j = choose|j: int|
                0 <= j < fns.drop_first().len() && #[trigger] fns.drop_first()[j] == f;
            assert(fns[j + 1] == f);
        } else {
            assert forall|i: int| 0 <= i < fns.len() implies (#[trigger] fns[i]).name != name by {
                if i > 0 {
                    assert(fns.drop_first()[i - 1] == fns[i]);
                }
            }
        }
    }
}

/// True when the name occurs in the sequence.
pub open spec fn seq_contains_name(names: Seq<Seq<u8>>, name: Seq<u8>) -> bool {
    exists|i: int| 0 <= i < names.len() && #[trigger] names[i] == name
}

/// Compares two locators by contents.
pub fn locator_eq(a: &Locator, b: &Locator) -> (r: bool)
    ensures
        r == (a@ == b@),
{
    let r = pid_eq(&a.program_id, &b.program_id) && ident_eq(&a.resource, &b.resource);
    proof {
        if r {
            assert(a@ =~= b@);
        }
    }
    r
}

/// Compares two call operators by contents.
pub fn call_op_eq(a: &CallOperator, b: &CallOperator) -> (r: bool)
    ensures
        r == (a@ == b@),
{
    match (a, b) {
        (CallOperator::Locator(x), CallOperator::Locator(y)) => locator_eq(x, y),
        (CallOperator::Resource(x), CallOperator::Resource(y)) => ident_eq(x, y),
        _ => false,
    }
}

/// Compares two instructions by contents.
pub fn instr_eq(a: &Instruction, b: &Instruction) -> (r: bool)
    ensures
        r == (a@ == b@),
{
    match (a, b) {
        (Instruction::Call(x), Instruction::Call(y)) => call_op_eq(x, y),
        (Instruction::Operation(x), Instruction::Operation(y)) => ident_eq(x, y),
        _ => false,
    }
}

/// Compares two functions by contents.
pub fn function_eq(a: &Function, b: &Function) -> (r: bool)
    ensures
        r == (a@ == b@),
{
    if !ident_eq(&a.name, &b.name) {
        return false;
    }
    if a.instructions.len() != b.instructions.len() {
        proof {
            assert(a@.instructions.len() != b@.instructions.len());
        }
        return false;
    }
    let mut i: usize = 0;
    while i < a.instructions.len()
        invariant
            i <= a.instructions@.len(),
            a.instructions@.len() == b.instructions@.len(),
            a@.name == b@.name,
            forall|j: int| 0 <= j < i ==> a@.instructions[j] == #[trigger] b@.instructions[j],
        decreases a.instructions@.len() - i,
    {
        if !instr_eq(&a.instructions[i], &b.instructions[i]) {
            proof {
                assert(a@.instructions[i as int] != b@.instructions[i as int]);
            }
            return false;
        }
        i = i + 1;
    }
    proof {
        assert(a@.instructions =~= b@.instructions);
        assert(a@ =~= b@);
    }
    true
}

/// Compares two import lists by contents.
fn pid_list_eq(a: &Vec<ProgramID>, b: &Vec<ProgramID>) -> (r: bool)
    ensures
        r == (a@.map_values(|p: ProgramID| p@) == b@.map_values(|p: ProgramID| p@)),
{
    if a.len() != b.len() {
        proof {
            assert(a@.map_values(|p: ProgramID| p@).len() != b@.map_values(
                |p: ProgramID| p@,
            ).len());
        }
        return false;
    }
    let mut i: usize = 0;
    while i < a.len()
        invariant
            i <= a@.len(),
            a@.len() == b@.len(),
            forall|j: int| 0 <= j < i ==> (#[trigger] a@[j])@ == b@[j]@,
        decreases a@.len() - i,
    {
        if !pid_eq(&a[i], &b[i]) {
            proof {
                assert(a@.map_values(|p: ProgramID| p@)[i as int] != b@.map_values(
                    |p: ProgramID| p@,
                )[i as int]);
            }
            return false;
        }
        i = i + 1;
    }
    proof {
        assert(a@.map_values(|p: ProgramID| p@) =~= b@.map_values(|p: ProgramID| p@));
    }
    true
}

/// Compares two name lists by contents.
fn ident_list_eq(a: &Vec<Identifier>, b: &Vec<Identifier>) -> (r: bool)
    ensures
        r == (a@.map_values(|x: Identifier| x@) == b@.map_values(|x: Identifier| x@)),
{
    if a.len() != b.len() {
        proof {
            assert(a@.map_values(|x: Identifier| x@).len() != b@.map_values(
                |x: Identifier| x@,
            ).len());
        }
        return false;
    }
    let mut i: usize = 0;
    while i < a.len()
        invariant
            i <= a@.len(),
            a@.len() == b@.len(),
            forall|j: int| 0 <= j < i ==> (#[trigger] a@[j])@ == b@[j]@,
        decreases a@.len() - i,
    {
        if !ident_eq(&a[i], &b[i]) {
            proof {
                assert(a@.map_values(|x: Identifier| x@)[i as int] != b@.map_values(
                    |x: Identifier| x@,
                )[i as int]);
            }
            return false;
        }
        i = i + 1;
    }
    proof {
        assert(a@.map_values(|x: Identifier| x@) =~= b@.map_values(|x: Identifier| x@));
    }
    true
}

/// Compares two record type lists by contents.
fn record_list_eq(a: &Vec<RecordType>, b: &Vec<RecordType>) -> (r: bool)
    ensures
        r == (a@.map_values(|x: RecordType| x@) == b@.map_values(|x: RecordType| x@)),
{
    if a.len() != b.len() {
        proof {
            assert(a@.map_values(|x: RecordType| x@).len() != b@.map_values(
                |x: RecordType| x@,
            ).len());
        }
        return false;
    }
    let mut i: usize = 0;
    while i < a.len()
        invariant
            i <= a@.len(),
            a@.len() == b@.len(),
            forall|j: int| 0 <= j < i ==> (#[trigger] a@[j])@ == b@[j]@,
        decreases a@.len() - i,
    {
        if !ident_eq(&a[i].name, &b[i].name) {
            proof {
                assert(a@.map_values(|x: RecordType| x@)[i as int] != b@.map_values(
                    |x: RecordType| x@,
                )[i as int]);
            }
            return false;
        }
        i = i + 1;
    }
    proof {
        assert(a@.map_values(|x: RecordType| x@) =~= b@.map_values(|x: RecordType| x@));
    }
    true
}

/// Compares two function lists by contents.
fn function_list_eq(a: &Vec<Function>, b: &Vec<Function>) -> (r: bool)
    ensures
        r == (a@.map_values(|x: Function| x@) == b@.map_values(|x: Function| x@)),
{
    if a.len() != b.len() {
        proof {
            assert(a@.map_values(|x: Function| x@).len() != b@.map_values(
                |x: Function| x@,
            ).len());
        }
        return false;
    }
    let mut i: usize = 0;
    while i < a.len()
        invariant
            i <= a@.len(),
            a@.len() == b@.len(),
            forall|j: int| 0 <= j < i ==> (#[trigger] a@[j])@ == b@[j]@,
        decreases a@.len() - i,
    {
        if !function_eq(&a[i], &b[i]) {
            proof {
                assert(a@.map_values(|x: Function| x@)[i as int] != b@.map_values(
                    |x: Function| x@,
                )[i as int]);
            }
            return false;
        }
        i = i + 1;
    }
    proof {
        assert(a@.map_values(|x: Function| x@) =~= b@.map_values(|x: Function| x@));
    }
    true
}

/// Compares two programs by contents.
pub fn program_eq(a: &Program, b: &Program) -> (r: bool)
    ensures
        r == (a@ == b@),
{
    if !pid_eq(&a.id, &b.id) {
        return false;
    }
    if !pid_list_eq(&a.imports, &b.imports) {
        return false;
    }
    if !function_list_eq(&a.functions, &b.functions) {
        return false;
    }
    if !ident_list_eq(&a.closures, &b.closures) {
        return false;
    }
    if !record_list_eq(&a.records, &b.records) {
        return false;
    }
    proof {
        assert(a@ =~= b@);
    }
    true
}

/// Copies an import list.
fn clone_pid_list(v: &Vec<ProgramID>) -> (r: Vec<ProgramID>)
    ensures
        r@.map_values(|p: ProgramID| p@) == v@.map_values(|p: ProgramID| p@),
{
    let mut out: Vec<ProgramID> = Vec::new();
    let mut i: usize = 0;
    while i < v.len()
        invariant
            i <= v@.len(),
            out@.len() == i,
            forall|j: int| 0 <= j < i ==> (#[trigger] out@[j])@ == v@[j]@,
        decreases v@.len() - i,
    {
        out.push(v[i].clone());
        i = i + 1;
    }
    proof {
        assert(out@.map_values(|p: ProgramID| p@) =~= v@.map_values(|p: ProgramID| p@));
    }
    out
}

/// Copies a name list.
fn clone_ident_list(v: &Vec<Identifier>) -> (r: Vec<Identifier>)
    ensures
        r@.map_values(|x: Identifier| x@) == v@.map_values(|x: Identifier| x@),
{
    let mut out: Vec<Identifier> = Vec::new();
    let mut i: usize = 0;
    while i < v.len()
        invariant
            i <= v@.len(),
            out@.len() == i,
            forall|j: int| 0 <= j < i ==> (#[trigger] out@[j])@ == v@[j]@,
        decreases v@.len() - i,
    {
        out.push(v[i].clone());
        i = i + 1;
    }
    proof {
        assert(out@.map_values(|x: Identifier| x@) =~= v@.map_values(|x: Identifier| x@));
    }
    out
}

/// Copies a record type list.
fn clone_record_list(v: &Vec<RecordType>) -> (r: Vec<RecordType>)
    ensures
        r@.map_values(|x: RecordType| x@) == v@.map_values(|x: RecordType| x@),
{
    let mut out: Vec<RecordType> = Vec::new();
    let mut i: usize = 0;
    while i < v.len()
        invariant
            i <= v@.len(),
            out@.len() == i,
            forall|j: int| 0 <= j < i ==> (#[trigger] out@[j])@ == v@[j]@,
        decreases v@.len() - i,
    {
        out.push(v[i].clone());
        i = i + 1;
    }
    proof {
        assert(out@.map_values(|x: RecordType| x@) =~= v@.map_values(|x: RecordType| x@));
    }
    out
}

/// Copies a function list.
fn clone_function_list(v: &Vec<Function>) -> (r: Vec<Function>)
    ensures
        r@.map_values(|x: Function| x@) == v@.map_values(|x: Function| x@),
{
    let mut out: Vec<Function> = Vec::new();
    let mut i: usize = 0;
    while i < v.len()
        invariant
            i <= v@.len(),
            out@.len() == i,
            forall|j: int| 0 <= j < i ==> (#[trigger] out@[j])@ == v@[j]@,
        decreases v@.len() - i,
    {
        out.push(v[i].clone());
        i = i + 1;
    }
    proof {
        assert(out@.map_values(|x: Function| x@) =~= v@.map_values(|x: Function| x@));
    }
    out
}

impl Clone for Program {
    fn clone(&self) -> (r: Self)
        ensures
            r@ == self@,
    {
        let r = Program {
            id: self.id.clone(),
            imports: clone_pid_list(&self.imports),
            functions: clone_function_list(&self.functions),
            closures: clone_ident_list(&self.closures),
            records: clone_record_list(&self.records),
        };
        proof {
            assert(r@ =~= self@);
        }
        r
    }
}

/// Decides whether the mapped views of a name list are pairwise distinct.
fn ident_list_distinct(v: &Vec<Identifier>) -> (r: bool)
    ensures
        r == seq_distinct(v@.map_values(|x: Identifier| x@)),
{
    let ghost names = v@.map_values(|x: Identifier| x@);
    let mut i: usize = 0;
    while i < v.len()
        invariant
            i <= v@.len(),
            names == v@.map_values(|x: Identifier| x@),
            forall|a: int, b: int| 0 <= a < b < i ==> #[trigger] names[a] != #[trigger] names[b],
        decreases v@.len() - i,
    {
        let mut j: usize = 0;
        while j < i
            invariant
                j <= i < v@.len(),
                names == v@.map_values(|x: Identifier| x@),
                forall|b: int| 0 <= b < j ==> #[trigger] names[b] != names[i as int],
            decreases i - j,
        {
            if ident_eq(&v[j], &v[i]) {
                proof {
                    assert(names[j as int] == names[i as int]);
                }
                return false;
            }
            j = j + 1;
        }
        i = i + 1;
    }
    true
}

/// Decides whether the mapped views of an import list are pairwise
/// distinct.
fn pid_list_distinct(v: &Vec<ProgramID>) -> (r: bool)
    ensures
        r == seq_distinct(v@.map_values(|x: ProgramID| x@)),
{
    let ghost pids = v@.map_values(|x: ProgramID| x@);
    let mut i: usize = 0;
    while i < v.len()
        invariant
            i <= v@.len(),
            pids == v@.map_values(|x: ProgramID| x@),
            forall|a: int, b: int| 0 <= a < b < i ==> #[trigger] pids[a] != #[trigger] pids[b],
        decreases v@.len() - i,
    {
        let mut j: usize = 0;
        while j < i
            invariant
                j <= i < v@.len(),
                pids == v@.map_values(|x: ProgramID| x@),
                forall|b: int| 0 <= b < j ==> #[trigger] pids[b] != pids[i as int],
            decreases i - j,
        {
            if pid_eq(&v[j], &v[i]) {
                proof {
                    assert(pids[j as int] == pids[i as int]);
                }
                return false;
            }
            j = j + 1;
        }
        i = i + 1;
    }
    true
}

/// Decides [`instr_wf`] on an instruction.
fn check_instruction(ins: &Instruction) -> (r: bool)
    ensures
        r == instr_wf(ins@),
{
    match ins {
        Instruction::Call(CallOperator::Locator(l)) => {
            l.program_id.is_valid() && l.resource.is_valid()
        },
        Instruction::Call(CallOperator::Resource(res)) => res.is_valid(),
        Instruction::Operation(m) => m.is_valid(),
    }
}

/// Decides [`function_wf`] on a function.
fn check_function(f: &Function) -> (r: bool)
    ensures
        r == function_wf(f@),
{
    if !f.name.is_valid() {
        return false;
    }
    if f.instructions.len() > MAX_SECTION_LEN {
        proof {
            assert(f@.instructions.len() > MAX_SECTION_LEN);
        }
        return false;
    }
    let mut i: usize = 0;
    while i < f.instructions.len()
        invariant
            i <= f.instructions@.len(),
            forall|j: int| 0 <= j < i ==> instr_wf(#[trigger] f@.instructions[j]),
        decreases f.instructions@.len() - i,
    {
        if !check_instruction(&f.instructions[i]) {
            proof {
                assert(!instr_wf(f@.instructions[i as int]));
            }
            return false;
        }
        proof {
            assert(instr_wf(f@.instructions[i as int]));
        }
        i = i + 1;
    }
    true
}

impl Program {
    /// Decides [`prog_wf`]: whether the program meets every
    /// well-formedness rule of the canonical forms.
    pub fn is_well_formed(&self) -> (r: bool)
        ensures
            r == prog_wf(self@),
    {
        if !self.id.is_valid() {
            return false;
        }
        if self.imports.len() > MAX_SECTION_LEN {
            proof {
                assert(self@.imports.len() > MAX_SECTION_LEN);
            }
            return false;
        }
        let mut i: usize = 0;
        while i < self.imports.len()
            invariant
                i <= self.imports@.len(),
                forall|j: int| 0 <= j < i ==> pid_wf(#[trigger] self@.imports[j]),
                forall|j: int| 0 <= j < i ==> #[trigger] self@.imports[j] != self@.id,
            decreases self.imports@.len() - i,
        {
            if !self.imports[i].is_valid() {
                proof {
                    assert(!pid_wf(self@.imports[i as int]));
                }
                return false;
            }
            if pid_eq(&self.imports[i], &self.id) {
                proof {
                    assert(self@.imports[i as int] == self@.id);
                }
                return false;
            }
            proof {
                assert(pid_wf(self@.imports[i as int]));
                assert(self@.imports[i as int] != self@.id);
            }
            i = i + 1;
        }
        if !pid_list_distinct(&self.imports) {
            return false;
        }
        if self.functions.len() > MAX_SECTION_LEN {
            proof {
                assert(self@.functions.len() > MAX_SECTION_LEN);
            }
            return false;
        }
        let mut i: usize = 0;
        while i < self.functions.len()
            invariant
                i <= self.functions@.len(),
                forall|j: int| 0 <= j < i ==> function_wf(#[trigger] self@.functions[j]),
            decreases self.functions@.len() - i,
        {
            if !check_function(&self.functions[i]) {
                proof {
                    assert(!function_wf(self@.functions[i as int]));
                }
                return false;
            }
            proof {
                assert(function_wf(self@.functions[i as int]));
            }
            i = i + 1;
        }
        if self.closures.len() > MAX_SECTION_LEN {
            proof {
                assert(self@.closures.len() > MAX_SECTION_LEN);
            }
            return false;
        }
        let mut i: usize = 0;
        while i < self.closures.len()
            invariant
                i <= self.closures@.len(),
                forall|j: int| 0 <= j < i ==> ident_wf(#[trigger] self@.closures[j]),
            decreases self.closures@.len() - i,
        {
            if !self.closures[i].is_valid() {
                proof {
                    assert(!ident_wf(self@.closures[i as int]));
                }
                return false;
            }
            proof {
                assert(ident_wf(self@.closures[i as int]));
            }
            i = i + 1;
        }
        if self.records.len() > MAX_SECTION_LEN {
            proof {
                assert(self@.records.len() > MAX_SECTION_LEN);
            }
            return false;
        }
        let mut i: usize = 0;
        while i < self.records.len()
            invariant
                i <= self.records@.len(),
                forall|j: int| 0 <= j < i ==> ident_wf(#[trigger] self@.records[j]),
            decreases self.records@.len() - i,
        {
            if !self.records[i].name.is_valid() {
                proof {
                    assert(!ident_wf(self@.records[i as int]));
                }
                return false;
            }
            proof {
                assert(ident_wf(self@.records[i as int]));
            }
            i = i + 1;
        }
        // Gather every declared name and test pairwise distinctness.
        let mut names: Vec<Identifier> = Vec::new();
        let mut i: usize = 0;
        while i < self.functions.len()
            invariant
                i <= self.functions@.len(),
                names@.len() == i,
                forall|j: int| 0 <= j < i ==> (#[trigger] names@[j])@ == self@.functions[j].name,
            decreases self.functions@.len() - i,
        {
            names.push(self.functions[i].name.clone());
            i = i + 1;
        }
        let flen = self.functions.len();
        let mut i: usize = 0;
        while i < self.closures.len()
            invariant
                i <= self.closures@.len(),
                flen == self.functions@.len(),
                names@.len() == flen + i,
                forall|j: int|
                    0 <= j < flen ==> (#[trigger] names@[j])@ == self@.functions[j].name,
                forall|j: int|
                    0 <= j < i ==> (#[trigger] names@[flen + j])@ == self@.closures[j],
            decreases self.closures@.len() - i,
        {
            names.push(self.closures[i].clone());
            i = i + 1;
        }
        let clen = self.closures.len();
        let mut i: usize = 0;
        while i < self.records.len()
            invariant
                i <= self.records@.len(),
                flen == self.functions@.len(),
                clen == self.closures@.len(),
                names@.len() == flen + clen + i,
                forall|j: int|
                    0 <= j < flen ==> (#[trigger] names@[j])@ == self@.functions[j].name,
                forall|j: int|
                    0 <= j < clen ==> (#[trigger] names@[flen + j])@ == self@.closures[j],
                forall|j: int|
                    0 <= j < i ==> (#[trigger] names@[flen + clen + j])@ == self@.records[j],
            decreases self.records@.len() - i,
        {
            names.push(self.records[i].name.clone());
            i = i + 1;
        }
        proof {
            let nview = names@.map_values(|x: Identifier| x@);
            let dview = declared_names(self@);
            assert forall|k: int| 0 <= k < nview.len() implies nview[k] == dview[k] by {
                if k < flen {
                    assert(fn_names(self@)[k] == self@.functions[k].name);
                } else if k < flen + clen {
                    assert(names@[flen + (k - flen)]@ == self@.closures[k - flen]);
                } else {
                    assert(names@[flen + clen + (k - flen - clen)]@ == self@.records[k - flen
                        - clen]);
                }
            }
            assert(nview =~= dview);
        }
        ident_list_distinct(&names)
    }
}

impl Program {
    /// Returns the program identifier.
    pub fn id(&self) -> (r: &ProgramID)
        ensures
            r@ == self@.id,
    {
        &self.id
    }

    /// True when the program declares a function with the given name.
    pub fn contains_function(&self, name: &Identifier) -> (r: bool)
        ensures
            r == contains_fn(self@, name@),
    {
        let mut i: usize = 0;
        while i < self.functions.len()
            invariant
                i <= self.functions@.len(),
                forall|j: int| 0 <= j < i ==> (#[trigger] self.functions@[j])@.name != name@,
            decreases self.functions@.len() - i,
        {
            if ident_eq(&self.functions[i].name, name) {
                proof {
                    assert((#[trigger] self@.functions[i as int]).name == name@);
                }
                return true;
            }
            i = i + 1;
        }
        proof {
            assert forall|j: int|
                0 <= j < self@.functions.len() implies (#[trigger] self@.functions[j]).name
                != name@ by {
                assert(self@.functions[j] == self.functions@[j]@);
            }
        }
        false
    }

    /// Returns the function declared under the given name, or
    /// [`Error::UnknownFunction`] when there is none.
    pub fn get_function(&self, name: &Identifier) -> (r: Result<Function, Error>)
        ensures
            contains_fn(self@, name@) ==> (r matches Ok(f) && Some(f@) == find_fn(self@, name@)),
            !contains_fn(self@, name@) ==> r == Err::<Function, Error>(Error::UnknownFunction),
    {
        proof {
            lemma_find_fn_in_membership(self@.functions, name@);
            assert(self@.functions.skip(0) =~= self@.functions);
        }
        let mut i: usize = 0;
        while i < self.functions.len()
            invariant
                i <= self.functions@.len(),
                forall|j: int| 0 <= j < i ==> (#[trigger] self.functions@[j])@.name != name@,
                find_fn_in(self@.functions.skip(i as int), name@) == find_fn(self@, name@),
            decreases self.functions@.len() - i,
        {
            proof {
                assert(self@.functions.skip(i as int)[0] == self.functions@[i as int]@);
            }
            if ident_eq(&self.functions[i].name, name) {
                let f = self.functions[i].clone();
                proof {
                    assert(find_fn_in(self@.functions.skip(i as int), name@)
                        == Some(self.functions@[i as int]@));
                    assert(contains_fn(self@, name@)) by {
                        assert((#[trigger] self@.functions[i as int]).name == name@);
                    }
                }
                return Ok(f);
            }
            proof {
                assert(self@.functions.skip(i as int).drop_first() =~= self@.functions.skip(
                    i as int + 1,
                ));
            }
            i = i + 1;
        }
        proof {
            assert forall|j: int|
                0 <= j < self@.functions.len() implies (#[trigger] self@.functions[j]).name
                != name@ by {
                assert(self@.functions[j] == self.functions@[j]@);
            }
        }
        Err(Error::UnknownFunction)
    }

    /// True when the program declares a record type with the given name.
    pub fn contains_record(&self, name: &Identifier) -> (r: bool)
        ensures
            r == seq_contains_name(self@.records, name@),
    {
        let mut i: usize = 0;
        while i < self.records.len()
            invariant
                i <= self.records@.len(),
                forall|j: int| 0 <= j < i ==> (#[trigger] self.records@[j])@ != name@,
            decreases self.records@.len() - i,
        {
            if ident_eq(&self.records[i].name, name) {
                proof {
                    assert(#[trigger] self@.records[i as int] == name@);
                }
                return true;
            }
            i = i + 1;
        }
        proof {
            assert forall|j: int|
                0 <= j < self@.records.len() implies #[trigger] self@.records[j] != name@ by {
                assert(self@.records[j] == self.records@[j]@);
            }
        }
        false
    }

    /// Returns the record type declared under the given name, or
    /// [`Error::UnknownRecord`] when there is none.
    pub fn get_record(&self, name: &Identifier) -> (r: Result<RecordType, Error>)
        ensures
            seq_contains_name(self@.records, name@) ==> (r matches Ok(rec) && rec@ == name@),
            !seq_contains_name(self@.records, name@) ==> r == Err::<RecordType, Error>(
                Error::UnknownRecord,
            ),
    {
        let mut i: usize = 0;
        while i < self.records.len()
            invariant
                i <= self.records@.len(),
                forall|j: int| 0 <= j < i ==> (#[trigger] self.records@[j])@ != name@,
            decreases self.records@.len() - i,
        {
            if ident_eq(&self.records[i].name, name) {
                proof {
                    assert(#[trigger] self@.records[i as int] == name@);
                }
                return Ok(self.records[i].clone());
            }
            i = i + 1;
        }
        proof {
            assert forall|j: int|
                0 <= j < self@.records.len() implies #[trigger] self@.records[j] != name@ by {
                assert(self@.records[j] == self.records@[j]@);
            }
        }
        Err(Error::UnknownRecord)
    }
}

} // verus!
