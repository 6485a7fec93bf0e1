//! The canonical text form of a program: one declaration per line.
//!
//! The form is line-based ASCII.  Every line is a keyword, one space,
//! and a payload: `program name.network`, `import name.network`,
//! `function name`, `call target` (a local name or
//! `name.network/resource`), `op mnemonic`, `closure name` and
//! `record name`, in that section order.

use vstd::prelude::*;

use crate::errors::Error;
use crate::ident::{check_ident_bytes, ident_wf, Identifier, Locator, LocatorV, ProgramID,
    ProgramIdV};
use crate::program::{
    prog_wf, CallOperator, CallOperatorV, Function, FunctionV, Instruction, InstructionV, Program,
    ProgramV, RecordType,
};

verus! {

/// The bytes of the keyword `program`.
pub open spec fn kw_program() -> Seq<u8> {
    seq![112u8, 114u8, 111u8, 103u8, 114u8, 97u8, 109u8]
}

/// The bytes of the keyword `import`.
pub open spec fn kw_import() -> Seq<u8> {
    seq![105u8, 109u8, 112u8, 111u8, 114u8, 116u8]
}

/// The bytes of the keyword `function`.
pub open spec fn kw_function() -> Seq<u8> {
    seq![102u8, 117u8, 110u8, 99u8, 116u8, 105u8, 111u8, 110u8]
}

/// The bytes of the keyword `call`.
pub open spec fn kw_call() -> Seq<u8> {
    seq![99u8, 97u8, 108u8, 108u8]
}

/// The bytes of the keyword `op`.
pub open spec fn kw_op() -> Seq<u8> {
    seq![111u8, 112u8]
}

/// The bytes of the keyword `closure`.
pub open spec fn kw_closure() -> Seq<u8> {
    seq![99u8, 108u8, 111u8, 115u8, 117u8, 114u8, 101u8]
}

/// The bytes of the keyword `record`.
pub open spec fn kw_record() -> Seq<u8> {
    seq![114u8, 101u8, 99u8, 111u8, 114u8, 100u8]
}

/// One line: keyword, space, payload, newline.
pub open spec fn fmt_line(kw: Seq<u8>, payload: Seq<u8>) -> Seq<u8> {
    kw + seq![32u8] + payload + seq![10u8]
}

/// A program identifier as written: `name.network`.
pub open spec fn fmt_pid(p: ProgramIdV) -> Seq<u8> {
    p.name + seq![46u8] + p.network
}

/// A call target as written: a local name or `name.network/resource`.
pub open spec fn fmt_call_target(c: CallOperatorV) -> Seq<u8> {
    match c {
        CallOperatorV::Resource(r) => r,
        CallOperatorV::Locator(l) => fmt_pid(l.program_id) + seq![47u8] + l.resource,
    }
}

/// One instruction line.
pub open spec fn fmt_instr(i: InstructionV) -> Seq<u8> {
    match i {
        InstructionV::Operation(m) => fmt_line(kw_op(), m),
        InstructionV::Call(c) => fmt_line(kw_call(), fmt_call_target(c)),
    }
}

/// The instruction lines of a body, in order.
pub open spec fn fmt_instr_list(s: Seq<InstructionV>) -> Seq<u8>
    decreases s.len(),
{
    if s.len() == 0 {
        Seq::empty()
    } else {
        fmt_instr(s[0]) + fmt_instr_list(s.drop_first())
    }
}

/// A function: its header line, then its instruction lines.
pub open spec fn fmt_function(f: FunctionV) -> Seq<u8> {
    fmt_line(kw_function(), f.name) + fmt_instr_list(f.instructions)
}

/// The function blocks, in order.
pub open spec fn fmt_function_list(s: Seq<FunctionV>) -> Seq<u8>
    decreases s.len(),
{
    if s.len() == 0 {
        Seq::empty()
    } else {
        fmt_function(s[0]) + fmt_function_list(s.drop_first())
    }
}

/// The import lines, in order.
pub open spec fn fmt_import_list(s: Seq<ProgramIdV>) -> Seq<u8>
    decreases s.len(),
{
    if s.len() == 0 {
        Seq::empty()
    } else {
        fmt_line(kw_import(), fmt_pid(s[0])) + fmt_import_list(s.drop_first())
    }
}

/// Name lines under one keyword, in order.
pub open spec fn fmt_name_list(kw: Seq<u8>, s: Seq<Seq<u8>>) -> Seq<u8>
    decreases s.len(),
{
    if s.len() == 0 {
        Seq::empty()
    } else {
        fmt_line(kw, s[0]) + fmt_name_list(kw, s.drop_first())
    }
}

/// A whole program in its canonical text form.
pub open spec fn fmt_program(p: ProgramV) -> Seq<u8> {
    fmt_line(kw_program(), fmt_pid(p.id)) + fmt_import_list(p.imports) + fmt_function_list(
        p.functions,
    ) + fmt_name_list(kw_closure(), p.closures) + fmt_name_list(kw_record(), p.records)
}

/// True for bytes that may stand inside a word: anything but space and
/// newline.
pub open spec fn is_word_byte(b: u8) -> bool {
    b != 32 && b != 10
}

/// The first position at or after `pos` that ends a word.
pub open spec fn word_end(s: Seq<u8>, pos: int) -> int
    decreases s.len() - pos,
{
    if pos < 0 || pos >= s.len() {
        pos
    } else if is_word_byte(s[pos]) {
        word_end(s, pos + 1)
    } else {
        pos
    }
}

/// One line of the text form: two nonempty words joined by one space
/// and closed by one newline.  Yields both words and the position after
/// the newline.
pub open spec fn parse_line(s: Seq<u8>, pos: int) -> Option<(Seq<u8>, Seq<u8>, int)> {
    let e1 = word_end(s, pos);
    if e1 == pos || e1 >= s.len() || s[e1] != 32 {
        None
    } else {
        let e2 = word_end(s, e1 + 1);
        if e2 == e1 + 1 || e2 >= s.len() || s[e2] != 10 {
            None
        } else {
            Some((s.subrange(pos, e1), s.subrange(e1 + 1, e2), e2 + 1))
        }
    }
}

/// The first position at or after `pos` holding the byte, or the length.
pub open spec fn find_byte(w: Seq<u8>, pos: int, b: u8) -> int
    decreases w.len() - pos,
{
    if pos < 0 || pos >= w.len() {
        w.len() as int
    } else if w[pos] == b {
        pos
    } else {
        find_byte(w, pos + 1, b)
    }
}

/// A program identifier read from one word: `name.network`, both parts
/// well-formed identifiers.
pub open spec fn parse_pid_word(w: Seq<u8>) -> Option<ProgramIdV> {
    let d = find_byte(w, 0, 46);
    if d < w.len() {
        let name = w.subrange(0, d);
        let network = w.subrange(d + 1, w.len() as int);
        if ident_wf(name) && ident_wf(network) {
            Some(ProgramIdV { name, network })
        } else {
            None
        }
    } else {
        None
    }
}

/// A call target read from one word: `name.network/resource` or a local
/// resource name.
pub open spec fn parse_call_word(w: Seq<u8>) -> Option<CallOperatorV> {
    let sl = find_byte(w, 0, 47);
    if sl < w.len() {
        match parse_pid_word(w.subrange(0, sl)) {
            None => None,
            Some(pid) => {
                let res = w.subrange(sl + 1, w.len() as int);
                if ident_wf(res) {
                    Some(CallOperatorV::Locator(LocatorV { program_id: pid, resource: res }))
                } else {
                    None
                }
            },
        }
    } else {
        if ident_wf(w) {
            Some(CallOperatorV::Resource(w))
        } else {
            None
        }
    }
}

/// The import lines from `pos` on: every leading line whose keyword is
/// `import`, each carrying a program identifier.
pub open spec fn parse_import_lines(s: Seq<u8>, pos: int, fuel: nat) -> Option<(
    Seq<ProgramIdV>,
    int,
)>
    decreases fuel,
{
    if fuel == 0 {
        None
    } else {
        match parse_line(s, pos) {
            None => Some((Seq::empty(), pos)),
            Some((w1, w2, np)) => {
                if w1 == kw_import() {
                    match parse_pid_word(w2) {
                        None => None,
                        Some(pid) => match parse_import_lines(s, np, (fuel - 1) as nat) {
                            None => None,
                            Some((rest, e)) => Some((seq![pid] + rest, e)),
                        },
                    }
                } else {
                    Some((Seq::empty(), pos))
                }
            },
        }
    }
}

/// The instruction lines from `pos` on: every leading `call` or `op`
/// line.
pub open spec fn parse_instr_lines(s: Seq<u8>, pos: int, fuel: nat) -> Option<(
    Seq<InstructionV>,
    int,
)>
    decreases fuel,
{
    if fuel == 0 {
        None
    } else {
        match parse_line(s, pos) {
            None => Some((Seq::empty(), pos)),
            Some((w1, w2, np)) => {
                if w1 == kw_call() {
                    match parse_call_word(w2) {
                        None => None,
                        Some(c) => match parse_instr_lines(s, np, (fuel - 1) as nat) {
                            None => None,
                            Some((rest, e)) => Some(
                                (seq![InstructionV::Call(c)] + rest, e),
                            ),
                        },
                    }
                } else if w1 == kw_op() {
                    if ident_wf(w2) {
                        match parse_instr_lines(s, np, (fuel - 1) as nat) {
                            None => None,
                            Some((rest, e)) => Some(
                                (seq![InstructionV::Operation(w2)] + rest, e),
                            ),
                        }
                    } else {
                        None
                    }
                } else {
                    Some((Seq::empty(), pos))
                }
            },
        }
    }
}

/// The function blocks from `pos` on: every leading `function` header
/// with its instruction lines.
pub open spec fn parse_function_blocks(s: Seq<u8>, pos: int, fuel: nat) -> Option<(
    Seq<FunctionV>,
    int,
)>
    decreases fuel,
{
    if fuel == 0 {
        None
    } else {
        match parse_line(s, pos) {
            None => Some((Seq::empty(), pos)),
            Some((w1, w2, np)) => {
                if w1 == kw_function() {
                    if ident_wf(w2) {
                        match parse_instr_lines(s, np, (fuel - 1) as nat) {
                            None => None,
                            Some((instrs, p2)) => match parse_function_blocks(
                                s,
                                p2,
                                (fuel - 1) as nat,
                            ) {
                                None => None,
                                Some((rest, e)) => Some(
                                    (
                                        seq![FunctionV { name: w2, instructions: instrs }] + rest,
                                        e,
                                    ),
                                ),
                            },
                        }
                    } else {
                        None
                    }
                } else {
                    Some((Seq::empty(), pos))
                }
            },
        }
    }
}

/// The name lines under one keyword from `pos` on.
pub open spec fn parse_name_lines(kw: Seq<u8>, s: Seq<u8>, pos: int, fuel: nat) -> Option<(
    Seq<Seq<u8>>,
    int,
)>
    decreases fuel,
{
    if fuel == 0 {
        None
    } else {
        match parse_line(s, pos) {
            None => Some((Seq::empty(), pos)),
            Some((w1, w2, np)) => {
                if w1 == kw {
                    if ident_wf(w2) {
                        match parse_name_lines(kw, s, np, (fuel - 1) as nat) {
                            None => None,
                            Some((rest, e)) => Some((seq![w2] + rest, e)),
                        }
                    } else {
                        None
                    }
                } else {
                    Some((Seq::empty(), pos))
                }
            },
        }
    }
}

/// What the text parser accepts: a program whose sections read back in
/// order, consume the whole text, and form a well-formed program.
pub open spec fn parse_program_text(s: Seq<u8>) -> Option<ProgramV> {
    let fuel = (s.len() + 1) as nat;
    match parse_line(s, 0) {
        None => None,
        Some((w1, w2, p1)) => {
            if w1 != kw_program() {
                None
            } else {
                match parse_pid_word(w2) {
                    None => None,
                    Some(id) => match parse_import_lines(s, p1, fuel) {
                        None => None,
                        Some((imports, p2)) => match parse_function_blocks(s, p2, fuel) {
                            None => None,
                            Some((functions, p3)) => match parse_name_lines(
                                kw_closure(),
                                s,
                                p3,
                                fuel,
                            ) {
                                None => None,
                                Some((closures, p4)) => match parse_name_lines(
                                    kw_record(),
                                    s,
                                    p4,
                                    fuel,
                                ) {
                                    None => None,
                                    Some((records, p5)) => {
                                        let p = ProgramV {
                                            id,
                                            imports,
                                            functions,
                                            closures,
                                            records,
                                        };
                                        if p5 == s.len() && prog_wf(p) {
                                            Some(p)
                                        } else {
                                            None
                                        }
                                    },
                                },
                            },
                        },
                    },
                }
            }
        },
    }
}

/// Concatenation of byte sequences is associative.
proof fn lemma_text_cat_assoc(a: Seq<u8>, b: Seq<u8>, c: Seq<u8>)
    ensures
        (a + b) + c == a + (b + c),
{
    assert((a + b) + c =~= a + (b + c));
}

/// Appends the keyword `program`.
fn push_kw_program(out: &mut Vec<u8>)
    ensures
        final(out)@ == old(out)@ + kw_program(),
{
    out.push(112);
    out.push(114);
    out.push(111);
    out.push(103);
    out.push(114);
    out.push(97);
    out.push(109);
    proof {
        assert(final(out)@ =~= old(out)@ + kw_program());
    }
}

/// Appends the keyword `import`.
fn push_kw_import(out: &mut Vec<u8>)
    ensures
        final(out)@ == old(out)@ + kw_import(),
{
    out.push(105);
    out.push(109);
    out.push(112);
    out.push(111);
    out.push(114);
    out.push(116);
    proof {
        assert(final(out)@ =~= old(out)@ + kw_import());
    }
}

/// Appends the keyword `function`.
fn push_kw_function(out: &mut Vec<u8>)
    ensures
        final(out)@ == old(out)@ + kw_function(),
{
    out.push(102);
    out.push(117);
    out.push(110);
    out.push(99);
    out.push(116);
    out.push(105);
    out.push(111);
    out.push(110);
    proof {
        assert(final(out)@ =~= old(out)@ + kw_function());
    }
}

/// Appends the keyword `call`.
fn push_kw_call(out: &mut Vec<u8>)
    ensures
        final(out)@ == old(out)@ + kw_call(),
{
    out.push(99);
    out.push(97);
    out.push(108);
    out.push(108);
    proof {
        assert(final(out)@ =~= old(out)@ + kw_call());
    }
}

/// Appends the keyword `op`.
fn push_kw_op(out: &mut Vec<u8>)
    ensures
        final(out)@ == old(out)@ + kw_op(),
{
    out.push(111);
    out.push(112);
    proof {
        assert(final(out)@ =~= old(out)@ + kw_op());
    }
}

/// Appends the keyword `closure`.
fn push_kw_closure(out: &mut Vec<u8>)
    ensures
        final(out)@ == old(out)@ + kw_closure(),
{
    out.push(99);
    out.push(108);
    out.push(111);
    out.push(115);
    out.push(117);
    out.push(114);
    out.push(101);
    proof {
        assert(final(out)@ =~= old(out)@ + kw_closure());
    }
}

/// Appends the keyword `record`.
fn push_kw_record(out: &mut Vec<u8>)
    ensures
        final(out)@ == old(out)@ + kw_record(),
{
    out.push(114);
    out.push(101);
    out.push(99);
    out.push(111);
    out.push(114);
    out.push(100);
    proof {
        assert(final(out)@ =~= old(out)@ + kw_record());
    }
}

/// Appends an identifier's bytes.
fn push_ident(out: &mut Vec<u8>, id: &Identifier)
    ensures
        final(out)@ == old(out)@ + id@,
{
    let mut i: usize = 0;
    while i < id.bytes.len()
        invariant
            i <= id.bytes@.len(),
            out@ == old(out)@ + id.bytes@.subrange(0, i as int),
        decreases id.bytes@.len() - i,
    {
        out.push(id.bytes[i]);
        proof {
            assert(out@ =~= old(out)@ + id.bytes@.subrange(0, i + 1));
        }
        i = i + 1;
    }
    proof {
        assert(out@ =~= old(out)@ + id@);
    }
}

/// Appends a program identifier as `name.network`.
fn push_pid(out: &mut Vec<u8>, pid: &ProgramID)
    ensures
        final(out)@ == old(out)@ + fmt_pid(pid@),
{
    push_ident(out, &pid.name);
    out.push(46);
    push_ident(out, &pid.network);
    proof {
        assert(final(out)@ =~= old(out)@ + fmt_pid(pid@));
    }
}

/// Appends one instruction line.
fn push_instr(out: &mut Vec<u8>, ins: &Instruction)
    ensures
        final(out)@ == old(out)@ + fmt_instr(ins@),
{
    match ins {
        Instruction::Operation(m) => {
            push_kw_op(out);
            out.push(32);
            push_ident(out, m);
            out.push(10);
        },
        Instruction::Call(CallOperator::Resource(r)) => {
            push_kw_call(out);
            out.push(32);
            push_ident(out, r);
            out.push(10);
        },
        Instruction::Call(CallOperator::Locator(l)) => {
            push_kw_call(out);
            out.push(32);
            push_pid(out, &l.program_id);
            out.push(47);
            push_ident(out, &l.resource);
            out.push(10);
        },
    }
    proof {
        assert(final(out)@ =~= old(out)@ + fmt_instr(ins@));
    }
}

/// Appends one function block.
fn push_function(out: &mut Vec<u8>, f: &Function)
    ensures
        final(out)@ == old(out)@ + fmt_function(f@),
{
    push_kw_function(out);
    out.push(32);
    push_ident(out, &f.name);
    out.push(10);
    let ghost base = out@;
    let ghost iv = f@.instructions;
    proof {
        assert(iv.skip(0) =~= iv);
        assert(base =~= old(out)@ + fmt_line(kw_function(), f@.name));
    }
    let mut i: usize = 0;
    while i < f.instructions.len()
        invariant
            i <= f.instructions@.len(),
            iv == f@.instructions,
            base + fmt_instr_list(iv) == out@ + fmt_instr_list(iv.skip(i as int)),
        decreases f.instructions@.len() - i,
    {
        proof {
            assert(iv.skip(i as int)[0] == iv[i as int]);
            assert(iv.skip(i as int).drop_first() =~= iv.skip(i as int + 1));
        }
        let ghost prev = out@;
        push_instr(out, &f.instructions[i]);
        proof {
            lemma_text_cat_assoc(prev, fmt_instr(iv[i as int]), fmt_instr_list(iv.skip(i as int
                + 1)));
        }
        i = i + 1;
    }
    proof {
        assert(fmt_instr_list(iv.skip(iv.len() as int)) =~= Seq::<u8>::empty());
        assert(out@ + Seq::<u8>::empty() =~= out@);
        assert(final(out)@ =~= old(out)@ + fmt_function(f@));
    }
}

impl Program {
    /// Serializes the program into its canonical text form, or fails
    /// with [`Error::MalformedProgram`] when the program breaks a
    /// well-formedness rule.
    pub fn to_text(&self) -> (r: Result<Vec<u8>, Error>)
        ensures
            prog_wf(self@) ==> (r matches Ok(b) && b@ == fmt_program(self@)),
            !prog_wf(self@) ==> r == Err::<Vec<u8>, Error>(Error::MalformedProgram),
    {
        if !self.is_well_formed() {
            return Err(Error::MalformedProgram);
        }
        let mut out: Vec<u8> = Vec::new();
        push_kw_program(&mut out);
        out.push(32);
        push_pid(&mut out, &self.id);
        out.push(10);
        proof {
            assert(out@ =~= fmt_line(kw_program(), fmt_pid(self@.id)));
        }
        let ghost base1 = out@;
        let ghost pv = self@.imports;
        proof {
            assert(pv.skip(0) =~= pv);
        }
        let mut i: usize = 0;
        while i < self.imports.len()
            invariant
                i <= self.imports@.len(),
                pv == self@.imports,
                base1 + fmt_import_list(pv) == out@ + fmt_import_list(pv.skip(i as int)),
            decreases self.imports@.len() - i,
        {
            proof {
                assert(pv.skip(i as int)[0] == pv[i as int]);
                assert(pv.skip(i as int).drop_first() =~= pv.skip(i as int + 1));
            }
            let ghost prev = out@;
            push_kw_import(&mut out);
            out.push(32);
            push_pid(&mut out, &self.imports[i]);
            out.push(10);
            proof {
                assert(out@ =~= prev + fmt_line(kw_import(), fmt_pid(pv[i as int])));
                lemma_text_cat_assoc(
                    prev,
                    fmt_line(kw_import(), fmt_pid(pv[i as int])),
                    fmt_import_list(pv.skip(i as int + 1)),
                );
            }
            i = i + 1;
        }
        proof {
            assert(fmt_import_list(pv.skip(pv.len() as int)) =~= Seq::<u8>::empty());
            assert(out@ + Seq::<u8>::empty() =~= out@);
        }
        let ghost base2 = out@;
        let ghost fv = self@.functions;
        proof {
            assert(fv.skip(0) =~= fv);
        }
        let mut i: usize = 0;
        while i < self.functions.len()
            invariant
                i <= self.functions@.len(),
                fv == self@.functions,
                base2 + fmt_function_list(fv) == out@ + fmt_function_list(fv.skip(i as int)),
            decreases self.functions@.len() - i,
        {
            proof {
                assert(fv.skip(i as int)[0] == fv[i as int]);
                assert(fv.skip(i as int).drop_first() =~= fv.skip(i as int + 1));
            }
            let ghost prev = out@;
            push_function(&mut out, &self.functions[i]);
            proof {
                lemma_text_cat_assoc(
                    prev,
                    fmt_function(fv[i as int]),
                    fmt_function_list(fv.skip(i as int + 1)),
                );
            }
            i = i + 1;
        }
        proof {
            assert(fmt_function_list(fv.skip(fv.len() as int)) =~= Seq::<u8>::empty());
            assert(out@ + Seq::<u8>::empty() =~= out@);
        }
        let ghost base3 = out@;
        let ghost cv = self@.closures;
        proof {
            assert(cv.skip(0) =~= cv);
        }
        let mut i: usize = 0;
        while i < self.closures.len()
            invariant
                i <= self.closures@.len(),
                cv == self@.closures,
                base3 + fmt_name_list(kw_closure(), cv) == out@ + fmt_name_list(
                    kw_closure(),
                    cv.skip(i as int),
                ),
            decreases self.closures@.len() - i,
        {
            proof {
                assert(cv.skip(i as int)[0] == cv[i as int]);
                assert(cv.skip(i as int).drop_first() =~= cv.skip(i as int + 1));
            }
            let ghost prev = out@;
            push_kw_closure(&mut out);
            out.push(32);
            push_ident(&mut out, &self.closures[i]);
            out.push(10);
            proof {
                assert(out@ =~= prev + fmt_line(kw_closure(), cv[i as int]));
                lemma_text_cat_assoc(
                    prev,
                    fmt_line(kw_closure(), cv[i as int]),
                    fmt_name_list(kw_closure(), cv.skip(i as int + 1)),
                );
            }
            i = i + 1;
        }
        proof {
            assert(fmt_name_list(kw_closure(), cv.skip(cv.len() as int)) =~= Seq::<u8>::empty());
            assert(out@ + Seq::<u8>::empty() =~= out@);
        }
        let ghost base4 = out@;
        let ghost rv = self@.records;
        proof {
            assert(rv.skip(0) =~= rv);
        }
        let mut i: usize = 0;
        while i < self.records.len()
            invariant
                i <= self.records@.len(),
                rv == self@.records,
                base4 + fmt_name_list(kw_record(), rv) == out@ + fmt_name_list(
                    kw_record(),
                    rv.skip(i as int),
                ),
            decreases self.records@.len() - i,
        {
            proof {
                assert(rv.skip(i as int)[0] == rv[i as int]);
                assert(rv.skip(i as int).drop_first() =~= rv.skip(i as int + 1));
            }
            let ghost prev = out@;
            push_kw_record(&mut out);
            out.push(32);
            push_ident(&mut out, &self.records[i].name);
            out.push(10);
            proof {
                assert(out@ =~= prev + fmt_line(kw_record(), rv[i as int]));
                lemma_text_cat_assoc(
                    prev,
                    fmt_line(kw_record(), rv[i as int]),
                    fmt_name_list(kw_record(), rv.skip(i as int + 1)),
                );
            }
            i = i + 1;
        }
        proof {
            assert(fmt_name_list(kw_record(), rv.skip(rv.len() as int)) =~= Seq::<u8>::empty());
            assert(out@ + Seq::<u8>::empty() =~= out@);
            assert(out@ =~= fmt_program(self@));
        }
        Ok(out)
    }
}

/// Finds the end of the word starting at `pos`.
fn word_end_exec(s: &Vec<u8>, pos: usize) -> (r: usize)
    requires
        pos <= s@.len(),
    ensures
        r as int == word_end(s@, pos as int),
        pos <= r <= s@.len(),
{
    let mut j: usize = pos;
    while j < s.len() && s[j] != 32 && s[j] != 10
        invariant
            pos <= j <= s@.len(),
            word_end(s@, j as int) == word_end(s@, pos as int),
        decreases s@.len() - j,
    {
        j = j + 1;
    }
    j
}

/// Reads one two-word line; yields the end of the first word, the end
/// of the second, and the position after the newline.
fn parse_line_exec(s: &Vec<u8>, pos: usize) -> (r: Option<(usize, usize, usize)>)
    requires
        pos <= s@.len(),
    ensures
        match parse_line(s@, pos as int) {
            None => r is None,
            Some((w1, w2, np)) => (r matches Some((e1, e2, npx)) && pos < e1 && e1 + 1 < e2 && e2
                + 1 == npx && npx as int == np && npx <= s@.len() && w1 == s@.subrange(
                pos as int,
                e1 as int,
            ) && w2 == s@.subrange(e1 as int + 1, e2 as int)),
        },
{
    let e1 = word_end_exec(s, pos);
    if e1 == pos || e1 >= s.len() {
        return None;
    }
    if s[e1] != 32 {
        return None;
    }
    let e2 = word_end_exec(s, e1 + 1);
    if e2 == e1 + 1 || e2 >= s.len() {
        return None;
    }
    if s[e2] != 10 {
        return None;
    }
    Some((e1, e2, e2 + 1))
}

/// Copies the bytes between two positions.
fn copy_range(s: &Vec<u8>, a: usize, b: usize) -> (r: Vec<u8>)
    requires
        a <= b <= s@.len(),
    ensures
        r@ == s@.subrange(a as int, b as int),
{
    let mut out: Vec<u8> = Vec::new();
    let mut i: usize = a;
    while i < b
        invariant
            a <= i <= b <= s@.len(),
            out@ == s@.subrange(a as int, i as int),
        decreases b - i,
    {
        out.push(s[i]);
        proof {
            assert(out@ =~= s@.subrange(a as int, i + 1));
        }
        i = i + 1;
    }
    out
}

/// True when the range holds exactly the keyword `program`.
fn range_is_program(s: &Vec<u8>, a: usize, b: usize) -> (r: bool)
    requires
        a <= b <= s@.len(),
    ensures
        r == (s@.subrange(a as int, b as int) == kw_program()),
{
    let r = b - a == 7 && s[a] == 112 && s[a + 1] == 114 && s[a + 2] == 111 && s[a + 3] == 103
        && s[a + 4] == 114 && s[a + 5] == 97 && s[a + 6] == 109;
    proof {
        if r {
            assert(s@.subrange(a as int, b as int) =~= kw_program());
        } else if s@.subrange(a as int, b as int) == kw_program() {
            assert(s@.subrange(a as int, b as int).len() == 7);
                assert(s@.subrange(a as int, b as int)[0] == s@[a as int + 0]);
                assert(s@.subrange(a as int, b as int)[1] == s@[a as int + 1]);
                assert(s@.subrange(a as int, b as int)[2] == s@[a as int + 2]);
                assert(s@.subrange(a as int, b as int)[3] == s@[a as int + 3]);
                assert(s@.subrange(a as int, b as int)[4] == s@[a as int + 4]);
                assert(s@.subrange(a as int, b as int)[5] == s@[a as int + 5]);
                assert(s@.subrange(a as int, b as int)[6] == s@[a as int + 6]);
            assert(false);
        }
    }
    r
}

/// True when the range holds exactly the keyword `import`.
fn range_is_import(s: &Vec<u8>, a: usize, b: usize) -> (r: bool)
    requires
        a <= b <= s@.len(),
    ensures
        r == (s@.subrange(a as int, b as int) == kw_import()),
{
    let r = b - a == 6 && s[a] == 105 && s[a + 1] == 109 && s[a + 2] == 112 && s[a + 3] == 111
        && s[a + 4] == 114 && s[a + 5] == 116;
    proof {
        if r {
            assert(s@.subrange(a as int, b as int) =~= kw_import());
        } else if s@.subrange(a as int, b as int) == kw_import() {
            assert(s@.subrange(a as int, b as int).len() == 6);
                assert(s@.subrange(a as int, b as int)[0] == s@[a as int + 0]);
                assert(s@.subrange(a as int, b as int)[1] == s@[a as int + 1]);
                assert(s@.subrange(a as int, b as int)[2] == s@[a as int + 2]);
                assert(s@.subrange(a as int, b as int)[3] == s@[a as int + 3]);
                assert(s@.subrange(a as int, b as int)[4] == s@[a as int + 4]);
                assert(s@.subrange(a as int, b as int)[5] == s@[a as int + 5]);
            assert(false);
        }
    }
    r
}

/// True when the range holds exactly the keyword `function`.
fn range_is_function(s: &Vec<u8>, a: usize, b: usize) -> (r: bool)
    requires
        a <= b <= s@.len(),
    ensures
        r == (s@.subrange(a as int, b as int) == kw_function()),
{
    let r = b - a == 8 && s[a] == 102 && s[a + 1] == 117 && s[a + 2] == 110 && s[a + 3] == 99
        && s[a + 4] == 116 && s[a + 5] == 105 && s[a + 6] == 111 && s[a + 7] == 110;
    proof {
        if r {
            assert(s@.subrange(a as int, b as int) =~= kw_function());
        } else if s@.subrange(a as int, b as int) == kw_function() {
            assert(s@.subrange(a as int, b as int).len() == 8);
                assert(s@.subrange(a as int, b as int)[0] == s@[a as int + 0]);
                assert(s@.subrange(a as int, b as int)[1] == s@[a as int + 1]);
                assert(s@.subrange(a as int, b as int)[2] == s@[a as int + 2]);
                assert(s@.subrange(a as int, b as int)[3] == s@[a as int + 3]);
                assert(s@.subrange(a as int, b as int)[4] == s@[a as int + 4]);
                assert(s@.subrange(a as int, b as int)[5] == s@[a as int + 5]);
                assert(s@.subrange(a as int, b as int)[6] == s@[a as int + 6]);
                assert(s@.subrange(a as int, b as int)[7] == s@[a as int + 7]);
            assert(false);
        }
    }
    r
}

/// True when the range holds exactly the keyword `call`.
fn range_is_call(s: &Vec<u8>, a: usize, b: usize) -> (r: bool)
    requires
        a <= b <= s@.len(),
    ensures
        r == (s@.subrange(a as int, b as int) == kw_call()),
{
    let r = b - a == 4 && s[a] == 99 && s[a + 1] == 97 && s[a + 2] == 108 && s[a + 3] == 108;
    proof {
        if r {
            assert(s@.subrange(a as int, b as int) =~= kw_call());
        } else if s@.subrange(a as int, b as int) == kw_call() {
            assert(s@.subrange(a as int, b as int).len() == 4);
                assert(s@.subrange(a as int, b as int)[0] == s@[a as int + 0]);
                assert(s@.subrange(a as int, b as int)[1] == s@[a as int + 1]);
                assert(s@.subrange(a as int, b as int)[2] == s@[a as int + 2]);
                assert(s@.subrange(a as int, b as int)[3] == s@[a as int + 3]);
            assert(false);
        }
    }
    r
}

/// True when the range holds exactly the keyword `op`.
fn range_is_op(s: &Vec<u8>, a: usize, b: usize) -> (r: bool)
    requires
        a <= b <= s@.len(),
    ensures
        r == (s@.subrange(a as int, b as int) == kw_op()),
{
    let r = b - a == 2 && s[a] == 111 && s[a + 1] == 112;
    proof {
        if r {
            assert(s@.subrange(a as int, b as int) =~= kw_op());
        } else if s@.subrange(a as int, b as int) == kw_op() {
            assert(s@.subrange(a as int, b as int).len() == 2);
                assert(s@.subrange(a as int, b as int)[0] == s@[a as int + 0]);
                assert(s@.subrange(a as int, b as int)[1] == s@[a as int + 1]);
            assert(false);
        }
    }
    r
}

/// True when the range holds exactly the keyword `closure`.
fn range_is_closure(s: &Vec<u8>, a: usize, b: usize) -> (r: bool)
    requires
        a <= b <= s@.len(),
    ensures
        r == (s@.subrange(a as int, b as int) == kw_closure()),
{
    let r = b - a == 7 && s[a] == 99 && s[a + 1] == 108 && s[a + 2] == 111 && s[a + 3] == 115
        && s[a + 4] == 117 && s[a + 5] == 114 && s[a + 6] == 101;
    proof {
        if r {
            assert(s@.subrange(a as int, b as int) =~= kw_closure());
        } else if s@.subrange(a as int, b as int) == kw_closure() {
            assert(s@.subrange(a as int, b as int).len() == 7);
                assert(s@.subrange(a as int, b as int)[0] == s@[a as int + 0]);
                assert(s@.subrange(a as int, b as int)[1] == s@[a as int + 1]);
                assert(s@.subrange(a as int, b as int)[2] == s@[a as int + 2]);
                assert(s@.subrange(a as int, b as int)[3] == s@[a as int + 3]);
                assert(s@.subrange(a as int, b as int)[4] == s@[a as int + 4]);
                assert(s@.subrange(a as int, b as int)[5] == s@[a as int + 5]);
                assert(s@.subrange(a as int, b as int)[6] == s@[a as int + 6]);
            assert(false);
        }
    }
    r
}

/// True when the range holds exactly the keyword `record`.
fn range_is_record(s: &Vec<u8>, a: usize, b: usize) -> (r: bool)
    requires
        a <= b <= s@.len(),
    ensures
        r == (s@.subrange(a as int, b as int) == kw_record()),
{
    let r = b - a == 6 && s[a] == 114 && s[a + 1] == 101 && s[a + 2] == 99 && s[a + 3] == 111
        && s[a + 4] == 114 && s[a + 5] == 100;
    proof {
        if r {
            assert(s@.subrange(a as int, b as int) =~= kw_record());
        } else if s@.subrange(a as int, b as int) == kw_record() {
            assert(s@.subrange(a as int, b as int).len() == 6);
                assert(s@.subrange(a as int, b as int)[0] == s@[a as int + 0]);
                assert(s@.subrange(a as int, b as int)[1] == s@[a as int + 1]);
                assert(s@.subrange(a as int, b as int)[2] == s@[a as int + 2]);
                assert(s@.subrange(a as int, b as int)[3] == s@[a as int + 3]);
                assert(s@.subrange(a as int, b as int)[4] == s@[a as int + 4]);
                assert(s@.subrange(a as int, b as int)[5] == s@[a as int + 5]);
            assert(false);
        }
    }
    r
}

/// Builds a validated identifier from a range.
fn ident_from_range(s: &Vec<u8>, a: usize, b: usize) -> (r: Option<Identifier>)
    requires
        a <= b <= s@.len(),
    ensures
        ident_wf(s@.subrange(a as int, b as int)) ==> (r matches Some(id) && id@ == s@.subrange(
            a as int,
            b as int,
        )),
        !ident_wf(s@.subrange(a as int, b as int)) ==> r is None,
{
    let bytes = copy_range(s, a, b);
    if check_ident_bytes(&bytes) {
        Some(Identifier { bytes })
    } else {
        None
    }
}

/// Finds the first position of a byte in a range, relating it to
/// [`find_byte`] on the subrange.
fn find_byte_in_range(s: &Vec<u8>, a: usize, b: usize, t: u8) -> (r: usize)
    requires
        a <= b <= s@.len(),
    ensures
        r as int - a as int == find_byte(s@.subrange(a as int, b as int), 0, t),
        a <= r <= b,
{
    let ghost w = s@.subrange(a as int, b as int);
    let mut j: usize = a;
    while j < b && s[j] != t
        invariant
            a <= j <= b,
            b <= s@.len(),
            w == s@.subrange(a as int, b as int),
            find_byte(w, j as int - a as int, t) == find_byte(w, 0, t),
        decreases b - j,
    {
        proof {
            assert(w[j as int - a as int] == s@[j as int]);
        }
        j = j + 1;
    }
    proof {
        if j < b {
            assert(w[j as int - a as int] == s@[j as int]);
        }
    }
    j
}

/// Builds a program identifier from a `name.network` range.
fn pid_from_range(s: &Vec<u8>, a: usize, b: usize) -> (r: Option<ProgramID>)
    requires
        a <= b <= s@.len(),
    ensures
        match parse_pid_word(s@.subrange(a as int, b as int)) {
            None => r is None,
            Some(pv) => (r matches Some(pid) && pid@ == pv),
        },
{
    let ghost w = s@.subrange(a as int, b as int);
    let d = find_byte_in_range(s, a, b, 46);
    if d >= b {
        return None;
    }
    let name = match ident_from_range(s, a, d) {
        Some(x) => x,
        None => {
            proof {
                assert(w.subrange(0, d as int - a as int) =~= s@.subrange(a as int, d as int));
            }
            return None;
        },
    };
    let network = match ident_from_range(s, d + 1, b) {
        Some(x) => x,
        None => {
            proof {
                assert(w.subrange(0, d as int - a as int) =~= s@.subrange(a as int, d as int));
                assert(w.subrange(d as int - a as int + 1, w.len() as int) =~= s@.subrange(
                    d as int + 1,
                    b as int,
                ));
            }
            return None;
        },
    };
    proof {
        assert(w.subrange(0, d as int - a as int) =~= s@.subrange(a as int, d as int));
        assert(w.subrange(d as int - a as int + 1, w.len() as int) =~= s@.subrange(
            d as int + 1,
            b as int,
        ));
        assert(parse_pid_word(w).unwrap() =~= ProgramIdV { name: name@, network: network@ });
    }
    Some(ProgramID { name, network })
}

/// Builds a call operator from a call-target range.
fn call_from_range(s: &Vec<u8>, a: usize, b: usize) -> (r: Option<CallOperator>)
    requires
        a <= b <= s@.len(),
    ensures
        match parse_call_word(s@.subrange(a as int, b as int)) {
            None => r is None,
            Some(cv) => (r matches Some(c) && c@ == cv),
        },
{
    let ghost w = s@.subrange(a as int, b as int);
    let sl = find_byte_in_range(s, a, b, 47);
    if sl < b {
        proof {
            assert(w.subrange(0, sl as int - a as int) =~= s@.subrange(a as int, sl as int));
            assert(w.subrange(sl as int - a as int + 1, w.len() as int) =~= s@.subrange(
                sl as int + 1,
                b as int,
            ));
        }
        let pid = match pid_from_range(s, a, sl) {
            Some(x) => x,
            None => {
                return None;
            },
        };
        let res = match ident_from_range(s, sl + 1, b) {
            Some(x) => x,
            None => {
                return None;
            },
        };
        proof {
            assert(parse_call_word(w).unwrap() =~= CallOperatorV::Locator(
                LocatorV { program_id: pid@, resource: res@ },
            ));
        }
        Some(CallOperator::Locator(Locator { program_id: pid, resource: res }))
    } else {
        match ident_from_range(s, a, b) {
            Some(resource) => Some(CallOperator::Resource(resource)),
            None => None,
        }
    }
}

/// Reads the import lines, mirroring [`parse_import_lines`].
fn parse_imports_exec(s: &Vec<u8>, pos: usize, Ghost(fuel): Ghost<nat>) -> (r: Option<(
    Vec<ProgramID>,
    usize,
)>)
    requires
        pos <= s@.len(),
        fuel >= s@.len() - pos + 1,
    ensures
        match parse_import_lines(s@, pos as int, fuel) {
            None => r is None,
            Some((v, np)) => (r matches Some((list, npx)) && list@.map_values(|x: ProgramID| x@)
                == v && npx as int == np && pos <= npx <= s@.len()),
        },
    decreases fuel,
{
    let line = match parse_line_exec(s, pos) {
        Some(x) => x,
        None => {
            let empty: Vec<ProgramID> = Vec::new();
            proof {
                assert(empty@.map_values(|x: ProgramID| x@) =~= Seq::<ProgramIdV>::empty());
            }
            return Some((empty, pos));
        },
    };
    let (e1, e2, np) = line;
    if !range_is_import(s, pos, e1) {
        let empty: Vec<ProgramID> = Vec::new();
        proof {
            assert(empty@.map_values(|x: ProgramID| x@) =~= Seq::<ProgramIdV>::empty());
        }
        return Some((empty, pos));
    }
    let pid = match pid_from_range(s, e1 + 1, e2) {
        Some(x) => x,
        None => {
            return None;
        },
    };
    let (mut rest, end) = match parse_imports_exec(s, np, Ghost((fuel - 1) as nat)) {
        Some(x) => x,
        None => {
            return None;
        },
    };
    rest.insert(0, pid);
    proof {
        assert(rest@.map_values(|x: ProgramID| x@) =~= parse_import_lines(
            s@,
            pos as int,
            fuel,
        ).unwrap().0);
    }
    Some((rest, end))
}

/// Reads the instruction lines, mirroring [`parse_instr_lines`].
fn parse_instrs_exec(s: &Vec<u8>, pos: usize, Ghost(fuel): Ghost<nat>) -> (r: Option<(
    Vec<Instruction>,
    usize,
)>)
    requires
        pos <= s@.len(),
        fuel >= s@.len() - pos + 1,
    ensures
        match parse_instr_lines(s@, pos as int, fuel) {
            None => r is None,
            Some((v, np)) => (r matches Some((list, npx)) && list@.map_values(
                |x: Instruction| x@,
            ) == v && npx as int == np && pos <= npx <= s@.len()),
        },
    decreases fuel,
{
    let line = match parse_line_exec(s, pos) {
        Some(x) => x,
        None => {
            let empty: Vec<Instruction> = Vec::new();
            proof {
                assert(empty@.map_values(|x: Instruction| x@) =~= Seq::<InstructionV>::empty());
            }
            return Some((empty, pos));
        },
    };
    let (e1, e2, np) = line;
    if range_is_call(s, pos, e1) {
        let c = match call_from_range(s, e1 + 1, e2) {
            Some(x) => x,
            None => {
                return None;
            },
        };
        let (mut rest, end) = match parse_instrs_exec(s, np, Ghost((fuel - 1) as nat)) {
            Some(x) => x,
            None => {
                return None;
            },
        };
        rest.insert(0, Instruction::Call(c));
        proof {
            assert(rest@.map_values(|x: Instruction| x@) =~= parse_instr_lines(
                s@,
                pos as int,
                fuel,
            ).unwrap().0);
        }
        Some((rest, end))
    } else if range_is_op(s, pos, e1) {
        let m = match ident_from_range(s, e1 + 1, e2) {
            Some(x) => x,
            None => {
                return None;
            },
        };
        let (mut rest, end) = match parse_instrs_exec(s, np, Ghost((fuel - 1) as nat)) {
            Some(x) => x,
            None => {
                return None;
            },
        };
        rest.insert(0, Instruction::Operation(m));
        proof {
            assert(rest@.map_values(|x: Instruction| x@) =~= parse_instr_lines(
                s@,
                pos as int,
                fuel,
            ).unwrap().0);
        }
        Some((rest, end))
    } else {
        let empty: Vec<Instruction> = Vec::new();
        proof {
            assert(empty@.map_values(|x: Instruction| x@) =~= Seq::<InstructionV>::empty());
        }
        Some((empty, pos))
    }
}

/// Reads the function blocks, mirroring [`parse_function_blocks`].
fn parse_functions_exec(s: &Vec<u8>, pos: usize, Ghost(fuel): Ghost<nat>) -> (r: Option<(
    Vec<Function>,
    usize,
)>)
    requires
        pos <= s@.len(),
        fuel >= s@.len() - pos + 1,
    ensures
        match parse_function_blocks(s@, pos as int, fuel) {
            None => r is None,
            Some((v, np)) => (r matches Some((list, npx)) && list@.map_values(|x: Function| x@)
                == v && npx as int == np && pos <= npx <= s@.len()),
        },
    decreases fuel,
{
    let line = match parse_line_exec(s, pos) {
        Some(x) => x,
        None => {
            let empty: Vec<Function> = Vec::new();
            proof {
                assert(empty@.map_values(|x: Function| x@) =~= Seq::<FunctionV>::empty());
            }
            return Some((empty, pos));
        },
    };
    let (e1, e2, np) = line;
    if !range_is_function(s, pos, e1) {
        let empty: Vec<Function> = Vec::new();
        proof {
            assert(empty@.map_values(|x: Function| x@) =~= Seq::<FunctionV>::empty());
        }
        return Some((empty, pos));
    }
    let name = match ident_from_range(s, e1 + 1, e2) {
        Some(x) => x,
        None => {
            return None;
        },
    };
    let (instrs, p2) = match parse_instrs_exec(s, np, Ghost((fuel - 1) as nat)) {
        Some(x) => x,
        None => {
            return None;
        },
    };
    let (mut rest, end) = match parse_functions_exec(s, p2, Ghost((fuel - 1) as nat)) {
        Some(x) => x,
        None => {
            return None;
        },
    };
    let f = Function { name, instructions: instrs };
    proof {
        assert(f@ =~= parse_function_blocks(s@, pos as int, fuel).unwrap().0[0]);
    }
    rest.insert(0, f);
    proof {
        assert(rest@.map_values(|x: Function| x@) =~= parse_function_blocks(
            s@,
            pos as int,
            fuel,
        ).unwrap().0);
    }
    Some((rest, end))
}

/// Reads the name lines under `closure` or `record`, mirroring
/// [`parse_name_lines`].
fn parse_names_exec(s: &Vec<u8>, pos: usize, records: bool, Ghost(fuel): Ghost<nat>) -> (r: Option<
    (Vec<Identifier>, usize),
>)
    requires
        pos <= s@.len(),
        fuel >= s@.len() - pos + 1,
    ensures
        ({
            let kw = if records {
                kw_record()
            } else {
                kw_closure()
            };
            match parse_name_lines(kw, s@, pos as int, fuel) {
                None => r is None,
                Some((v, np)) => (r matches Some((list, npx)) && list@.map_values(
                    |x: Identifier| x@,
                ) == v && npx as int == np && pos <= npx <= s@.len()),
            }
        }),
    decreases fuel,
{
    let ghost kw = if records {
        kw_record()
    } else {
        kw_closure()
    };
    let line = match parse_line_exec(s, pos) {
        Some(x) => x,
        None => {
            let empty: Vec<Identifier> = Vec::new();
            proof {
                assert(empty@.map_values(|x: Identifier| x@) =~= Seq::<Seq<u8>>::empty());
            }
            return Some((empty, pos));
        },
    };
    let (e1, e2, np) = line;
    let matches_kw = if records {
        range_is_record(s, pos, e1)
    } else {
        range_is_closure(s, pos, e1)
    };
    if !matches_kw {
        let empty: Vec<Identifier> = Vec::new();
        proof {
            assert(empty@.map_values(|x: Identifier| x@) =~= Seq::<Seq<u8>>::empty());
        }
        return Some((empty, pos));
    }
    let name = match ident_from_range(s, e1 + 1, e2) {
        Some(x) => x,
        None => {
            return None;
        },
    };
    let (mut rest, end) = match parse_names_exec(s, np, records, Ghost((fuel - 1) as nat)) {
        Some(x) => x,
        None => {
            return None;
        },
    };
    rest.insert(0, name);
    proof {
        assert(rest@.map_values(|x: Identifier| x@) =~= parse_name_lines(
            kw,
            s@,
            pos as int,
            fuel,
        ).unwrap().0);
    }
    Some((rest, end))
}

impl Program {
    /// Deserializes a program from its canonical text form, or fails
    /// with [`Error::MalformedProgram`] when the text is not the
    /// complete canonical form of a well-formed program.
    pub fn from_text(text: &Vec<u8>) -> (r: Result<Program, Error>)
        ensures
            match parse_program_text(text@) {
                Some(pv) => (r matches Ok(p) && p@ == pv),
                None => r == Err::<Program, Error>(Error::MalformedProgram),
            },
    {
        let ghost fuel = (text@.len() + 1) as nat;
        let line = match parse_line_exec(text, 0) {
            Some(x) => x,
            None => {
                return Err(Error::MalformedProgram);
            },
        };
        let (e1, e2, p1) = line;
        if !range_is_program(text, 0, e1) {
            return Err(Error::MalformedProgram);
        }
        let id = match pid_from_range(text, e1 + 1, e2) {
            Some(x) => x,
            None => {
                return Err(Error::MalformedProgram);
            },
        };
        let (imports, p2) = match parse_imports_exec(text, p1, Ghost(fuel)) {
            Some(x) => x,
            None => {
                return Err(Error::MalformedProgram);
            },
        };
        let (functions, p3) = match parse_functions_exec(text, p2, Ghost(fuel)) {
            Some(x) => x,
            None => {
                return Err(Error::MalformedProgram);
            },
        };
        let (closures, p4) = match parse_names_exec(text, p3, false, Ghost(fuel)) {
            Some(x) => x,
            None => {
                return Err(Error::MalformedProgram);
            },
        };
        let (record_names, p5) = match parse_names_exec(text, p4, true, Ghost(fuel)) {
            Some(x) => x,
            None => {
                return Err(Error::MalformedProgram);
            },
        };
        if p5 != text.len() {
            return Err(Error::MalformedProgram);
        }
        let mut records: Vec<RecordType> = Vec::new();
        let mut i: usize = 0;
        while i < record_names.len()
            invariant
                i <= record_names@.len(),
                records@.len() == i,
                forall|j: int| 0 <= j < i ==> (#[trigger] records@[j])@ == record_names@[j]@,
            decreases record_names@.len() - i,
        {
            records.push(RecordType { name: record_names[i].clone() });
            i = i + 1;
        }
        let program = Program { id, imports, functions, closures, records };
        proof {
            assert(program@.records =~= record_names@.map_values(|x: Identifier| x@));
        }
        if program.is_well_formed() {
            proof {
                assert(program@ =~= parse_program_text(text@).unwrap());
            }
            Ok(program)
        } else {
            Err(Error::MalformedProgram)
        }
    }
}

/// True when every byte of the sequence may stand inside a word.
pub open spec fn all_word_bytes(s: Seq<u8>) -> bool {
    forall|k: int| 0 <= k < s.len() ==> is_word_byte(#[trigger] s[k])
}

/// A well-formed identifier consists of word bytes.
proof fn lemma_ident_word_bytes(s: Seq<u8>)
    requires
        ident_wf(s),
    ensures
        all_word_bytes(s),
{
    assert forall|k: int| 0 <= k < s.len() implies is_word_byte(#[trigger] s[k]) by {
        assert(crate::ident::is_ident_byte(s[k]));
    }
}

/// Every keyword consists of word bytes.
proof fn lemma_kw_word_bytes()
    ensures
        all_word_bytes(kw_program()),
        all_word_bytes(kw_import()),
        all_word_bytes(kw_function()),
        all_word_bytes(kw_call()),
        all_word_bytes(kw_op()),
        all_word_bytes(kw_closure()),
        all_word_bytes(kw_record()),
{
}

/// The end of a word delimited at `e` is `e`.
proof fn lemma_word_end_at(s: Seq<u8>, pos: int, e: int)
    requires
        0 <= pos <= e <= s.len(),
        forall|k: int| pos <= k < e ==> is_word_byte(#[trigger] s[k]),
        e == s.len() || !is_word_byte(s[e]),
    ensures
        word_end(s, pos) == e,
    decreases e - pos,
{
    if pos < e {
        lemma_word_end_at(s, pos + 1, e);
    }
}

/// A formatted line surrounded by anything parses to its two words.
proof fn lemma_parse_line_frame(pre: Seq<u8>, kw: Seq<u8>, payload: Seq<u8>, suf: Seq<u8>)
    requires
        kw.len() > 0,
        payload.len() > 0,
        all_word_bytes(kw),
        all_word_bytes(payload),
    ensures
        parse_line(pre + fmt_line(kw, payload) + suf, pre.len() as int) == Some(
            (kw, payload, pre.len() as int + fmt_line(kw, payload).len()),
        ),
{
    let s = pre + fmt_line(kw, payload) + suf;
    let pos = pre.len() as int;
    let e1 = pos + kw.len();
    assert forall|k: int| pos <= k < e1 implies is_word_byte(#[trigger] s[k]) by {
        assert(s[k] == kw[k - pos]);
    }
    assert(s[e1] == 32);
    lemma_word_end_at(s, pos, e1);
    let e2 = e1 + 1 + payload.len();
    assert forall|k: int| e1 + 1 <= k < e2 implies is_word_byte(#[trigger] s[k]) by {
        assert(s[k] == payload[k - (e1 + 1)]);
    }
    assert(s[e2] == 10);
    lemma_word_end_at(s, e1 + 1, e2);
    assert(s.subrange(pos, e1) =~= kw);
    assert(s.subrange(e1 + 1, e2) =~= payload);
}

/// No byte of the sequence is the given byte, so the search runs to the
/// given end.
proof fn lemma_find_byte_at(w: Seq<u8>, pos: int, e: int, b: u8)
    requires
        0 <= pos <= e <= w.len(),
        forall|k: int| pos <= k < e ==> #[trigger] w[k] != b,
        e == w.len() || w[e] == b,
    ensures
        find_byte(w, pos, b) == e,
    decreases e - pos,
{
    if pos < e {
        lemma_find_byte_at(w, pos + 1, e, b);
    }
}

/// A well-formed identifier holds neither a dot nor a slash.
proof fn lemma_ident_no_sep(s: Seq<u8>)
    requires
        ident_wf(s),
    ensures
        forall|k: int| 0 <= k < s.len() ==> #[trigger] s[k] != 46,
        forall|k: int| 0 <= k < s.len() ==> #[trigger] s[k] != 47,
{
    assert forall|k: int| 0 <= k < s.len() implies #[trigger] s[k] != 46 && s[k] != 47 by {
        assert(crate::ident::is_ident_byte(s[k]));
    }
}

/// A formatted program identifier word reads back to it.
proof fn lemma_parse_pid_word(p: ProgramIdV)
    requires
        crate::ident::pid_wf(p),
    ensures
        parse_pid_word(fmt_pid(p)) == Some(p),
{
    let w = fmt_pid(p);
    lemma_ident_no_sep(p.name);
    assert forall|k: int| 0 <= k < p.name.len() implies #[trigger] w[k] != 46 by {
        assert(w[k] == p.name[k]);
    }
    assert(w[p.name.len() as int] == 46);
    lemma_find_byte_at(w, 0, p.name.len() as int, 46);
    assert(w.subrange(0, p.name.len() as int) =~= p.name);
    assert(w.subrange(p.name.len() as int + 1, w.len() as int) =~= p.network);
}

/// A formatted call target word reads back to it.
proof fn lemma_parse_call_word(c: CallOperatorV)
    requires
        crate::program::call_op_wf(c),
    ensures
        parse_call_word(fmt_call_target(c)) == Some(c),
{
    let w = fmt_call_target(c);
    match c {
        CallOperatorV::Resource(r) => {
            lemma_ident_no_sep(r);
            lemma_find_byte_at(w, 0, w.len() as int, 47);
        },
        CallOperatorV::Locator(l) => {
            let d = fmt_pid(l.program_id).len() as int;
            lemma_ident_no_sep(l.program_id.name);
            lemma_ident_no_sep(l.program_id.network);
            lemma_ident_no_sep(l.resource);
            assert forall|k: int| 0 <= k < d implies #[trigger] w[k] != 47 by {
                assert(w[k] == fmt_pid(l.program_id)[k]);
                if k < l.program_id.name.len() {
                    assert(fmt_pid(l.program_id)[k] == l.program_id.name[k]);
                } else if k == l.program_id.name.len() {
                    assert(fmt_pid(l.program_id)[k] == 46);
                } else {
                    assert(fmt_pid(l.program_id)[k] == l.program_id.network[k
                        - l.program_id.name.len() - 1]);
                }
            }
            assert(w[d] == 47);
            lemma_find_byte_at(w, 0, d, 47);
            assert(w.subrange(0, d) =~= fmt_pid(l.program_id));
            lemma_parse_pid_word(l.program_id);
            assert(w.subrange(d + 1, w.len() as int) =~= l.resource);
            assert(parse_call_word(w).unwrap() =~= c);
        },
    }
}

/// True when the position opens no line, or a line whose keyword is
/// none of the given three (an empty third set is passed as the first).
pub open spec fn next_kw_not_in(s: Seq<u8>, pos: int, k1: Seq<u8>, k2: Seq<u8>, k3: Seq<u8>)
    -> bool {
    match parse_line(s, pos) {
        None => true,
        Some((w1, w2, np)) => w1 != k1 && w1 != k2 && w1 != k3,
    }
}

/// Formatted import lines followed by anything other than an import
/// line read back to the imports.
#[verifier::rlimit(100)]
#[verifier::spinoff_prover]
proof fn lemma_parse_imports_frame(pre: Seq<u8>, items: Seq<ProgramIdV>, suf: Seq<u8>, fuel: nat)
    requires
        forall|i: int| 0 <= i < items.len() ==> crate::ident::pid_wf(#[trigger] items[i]),
        fuel >= fmt_import_list(items).len() + 1,
        next_kw_not_in(
            pre + fmt_import_list(items) + suf,
            pre.len() as int + fmt_import_list(items).len(),
            kw_import(),
            kw_import(),
            kw_import(),
        ),
    ensures
        parse_import_lines(pre + fmt_import_list(items) + suf, pre.len() as int, fuel) == Some(
            (items, pre.len() as int + fmt_import_list(items).len()),
        ),
    decreases items.len(),
{
    let s = pre + fmt_import_list(items) + suf;
    lemma_kw_word_bytes();
    if items.len() == 0 {
        assert(s.subrange(pre.len() as int, pre.len() as int) =~= Seq::<u8>::empty());
    } else {
        let head = items[0];
        let rest = items.drop_first();
        let line = fmt_line(kw_import(), fmt_pid(head));
        assert(fmt_import_list(items) == line + fmt_import_list(rest));
        assert(s =~= pre + line + (fmt_import_list(rest) + suf));
        lemma_ident_word_bytes(head.name);
        lemma_ident_word_bytes(head.network);
        assert(all_word_bytes(fmt_pid(head))) by {
            assert forall|k: int|
                0 <= k < fmt_pid(head).len() implies is_word_byte(#[trigger] fmt_pid(head)[k]) by {
                if k < head.name.len() {
                    assert(fmt_pid(head)[k] == head.name[k]);
                } else if k == head.name.len() {
                    assert(fmt_pid(head)[k] == 46);
                } else {
                    assert(fmt_pid(head)[k] == head.network[k - head.name.len() - 1]);
                }
            }
        }
        lemma_parse_line_frame(pre, kw_import(), fmt_pid(head), fmt_import_list(rest) + suf);
        lemma_parse_pid_word(head);
        assert(s =~= (pre + line) + fmt_import_list(rest) + suf);
        assert forall|i: int|
            0 <= i < rest.len() implies crate::ident::pid_wf(#[trigger] rest[i]) by {
            assert(rest[i] == items[i + 1]);
        }
        lemma_parse_imports_frame(pre + line, rest, suf, (fuel - 1) as nat);
        assert(seq![head] + rest =~= items);
    }
}

/// Formatted name lines followed by anything other than such a line
/// read back to the names.
#[verifier::rlimit(100)]
#[verifier::spinoff_prover]
proof fn lemma_parse_names_frame(
    kw: Seq<u8>,
    pre: Seq<u8>,
    items: Seq<Seq<u8>>,
    suf: Seq<u8>,
    fuel: nat,
)
    requires
        kw.len() > 0,
        all_word_bytes(kw),
        forall|i: int| 0 <= i < items.len() ==> ident_wf(#[trigger] items[i]),
        fuel >= fmt_name_list(kw, items).len() + 1,
        next_kw_not_in(
            pre + fmt_name_list(kw, items) + suf,
            pre.len() as int + fmt_name_list(kw, items).len(),
            kw,
            kw,
            kw,
        ),
    ensures
        parse_name_lines(kw, pre + fmt_name_list(kw, items) + suf, pre.len() as int, fuel)
            == Some((items, pre.len() as int + fmt_name_list(kw, items).len())),
    decreases items.len(),
{
    let s = pre + fmt_name_list(kw, items) + suf;
    if items.len() == 0 {
    } else {
        let head = items[0];
        let rest = items.drop_first();
        let line = fmt_line(kw, head);
        assert(fmt_name_list(kw, items) == line + fmt_name_list(kw, rest));
        assert(s =~= pre + line + (fmt_name_list(kw, rest) + suf));
        lemma_ident_word_bytes(head);
        lemma_parse_line_frame(pre, kw, head, fmt_name_list(kw, rest) + suf);
        assert(s =~= (pre + line) + fmt_name_list(kw, rest) + suf);
        assert forall|i: int| 0 <= i < rest.len() implies ident_wf(#[trigger] rest[i]) by {
            assert(rest[i] == items[i + 1]);
        }
        lemma_parse_names_frame(kw, pre + line, rest, suf, (fuel - 1) as nat);
        assert(seq![head] + rest =~= items);
    }
}

/// Formatted instruction lines followed by anything other than a call
/// or operation line read back to the instructions.
#[verifier::rlimit(100)]
#[verifier::spinoff_prover]
proof fn lemma_parse_instrs_frame(
    pre: Seq<u8>,
    items: Seq<InstructionV>,
    suf: Seq<u8>,
    fuel: nat,
)
    requires
        forall|i: int| 0 <= i < items.len() ==> crate::program::instr_wf(#[trigger] items[i]),
        fuel >= fmt_instr_list(items).len() + 1,
        next_kw_not_in(
            pre + fmt_instr_list(items) + suf,
            pre.len() as int + fmt_instr_list(items).len(),
            kw_call(),
            kw_op(),
            kw_op(),
        ),
    ensures
        parse_instr_lines(pre + fmt_instr_list(items) + suf, pre.len() as int, fuel) == Some(
            (items, pre.len() as int + fmt_instr_list(items).len()),
        ),
    decreases items.len(),
{
    let s = pre + fmt_instr_list(items) + suf;
    lemma_kw_word_bytes();
    if items.len() == 0 {
    } else {
        let head = items[0];
        let rest = items.drop_first();
        let line = fmt_instr(head);
        assert(fmt_instr_list(items) == line + fmt_instr_list(rest));
        assert(s =~= pre + line + (fmt_instr_list(rest) + suf));
        match head {
            InstructionV::Operation(m) => {
                lemma_ident_word_bytes(m);
                lemma_parse_line_frame(pre, kw_op(), m, fmt_instr_list(rest) + suf);
                assert(kw_op() != kw_call()) by {
                    assert(kw_op().len() != kw_call().len());
                }
            },
            InstructionV::Call(c) => {
                let target = fmt_call_target(c);
                assert(all_word_bytes(target) && target.len() > 0) by {
                    match c {
                        CallOperatorV::Resource(r) => {
                            lemma_ident_word_bytes(r);
                        },
                        CallOperatorV::Locator(l) => {
                            lemma_ident_word_bytes(l.program_id.name);
                            lemma_ident_word_bytes(l.program_id.network);
                            lemma_ident_word_bytes(l.resource);
                            let fp = fmt_pid(l.program_id);
                            assert forall|k: int|
                                0 <= k < target.len() implies is_word_byte(
                                #[trigger] target[k],
                            ) by {
                                if k < fp.len() {
                                    assert(target[k] == fp[k]);
                                    if k < l.program_id.name.len() {
                                        assert(fp[k] == l.program_id.name[k]);
                                    } else if k == l.program_id.name.len() {
                                        assert(fp[k] == 46);
                                    } else {
                                        assert(fp[k] == l.program_id.network[k - l.program_id.name.len() - 1]);
                                    }
                                } else if k == fp.len() {
                                    assert(target[k] == 47);
                                } else {
                                    assert(target[k] == l.resource[k - fp.len() - 1]);
                                }
                            }
                        },
                    }
                }
                lemma_parse_line_frame(pre, kw_call(), target, fmt_instr_list(rest) + suf);
                lemma_parse_call_word(c);
            },
        }
        assert(s =~= (pre + line) + fmt_instr_list(rest) + suf);
        assert forall|i: int|
            0 <= i < rest.len() implies crate::program::instr_wf(#[trigger] rest[i]) by {
            assert(rest[i] == items[i + 1]);
        }
        lemma_parse_instrs_frame(pre + line, rest, suf, (fuel - 1) as nat);
        assert(seq![head] + rest =~= items);
    }
}

/// Formatted function blocks followed by anything other than a
/// function, call or operation line read back to the functions.
#[verifier::rlimit(100)]
#[verifier::spinoff_prover]
proof fn lemma_parse_functions_frame(
    pre: Seq<u8>,
    items: Seq<FunctionV>,
    suf: Seq<u8>,
    fuel: nat,
)
    requires
        forall|i: int| 0 <= i < items.len() ==> crate::program::function_wf(#[trigger] items[i]),
        fuel >= fmt_function_list(items).len() + 1,
        next_kw_not_in(
            pre + fmt_function_list(items) + suf,
            pre.len() as int + fmt_function_list(items).len(),
            kw_function(),
            kw_call(),
            kw_op(),
        ),
    ensures
        parse_function_blocks(pre + fmt_function_list(items) + suf, pre.len() as int, fuel)
            == Some((items, pre.len() as int + fmt_function_list(items).len())),
    decreases items.len(),
{
    let s = pre + fmt_function_list(items) + suf;
    lemma_kw_word_bytes();
    if items.len() == 0 {
    } else {
        let head = items[0];
        let rest = items.drop_first();
        let block = fmt_function(head);
        let header = fmt_line(kw_function(), head.name);
        assert(fmt_function_list(items) == block + fmt_function_list(rest));
        assert(s =~= pre + header + (fmt_instr_list(head.instructions) + (fmt_function_list(rest)
            + suf)));
        lemma_ident_word_bytes(head.name);
        lemma_parse_line_frame(
            pre,
            kw_function(),
            head.name,
            fmt_instr_list(head.instructions) + (fmt_function_list(rest) + suf),
        );
        let pre2 = pre + header;
        assert(s =~= pre2 + fmt_instr_list(head.instructions) + (fmt_function_list(rest) + suf));
        // The line after this body is the next function header, the
        // suffix's first line, or nothing; never a call or op line.
        let body_end = pre2.len() + fmt_instr_list(head.instructions).len();
        assert(next_kw_not_in(s, body_end as int, kw_call(), kw_op(), kw_op())) by {
            if rest.len() > 0 {
                assert(fmt_function_list(rest) == fmt_function(rest[0]) + fmt_function_list(
                    rest.drop_first(),
                ));
                assert(s =~= (pre2 + fmt_instr_list(head.instructions)) + fmt_line(
                    kw_function(),
                    rest[0].name,
                ) + (fmt_instr_list(rest[0].instructions) + (fmt_function_list(rest.drop_first())
                    + suf)));
                lemma_ident_word_bytes(rest[0].name);
                lemma_parse_line_frame(
                    pre2 + fmt_instr_list(head.instructions),
                    kw_function(),
                    rest[0].name,
                    fmt_instr_list(rest[0].instructions) + (fmt_function_list(rest.drop_first())
                        + suf),
                );
                assert(kw_function() != kw_call()) by {
                    assert(kw_function().len() != kw_call().len());
                }
                assert(kw_function() != kw_op()) by {
                    assert(kw_function().len() != kw_op().len());
                }
            } else {
                assert(fmt_function_list(rest) =~= Seq::<u8>::empty());
                assert(body_end == pre.len() + fmt_function_list(items).len());
            }
        }
        assert forall|i: int|
            0 <= i < head.instructions.len() implies crate::program::instr_wf(
            #[trigger] head.instructions[i],
        ) by {
            assert(crate::program::function_wf(head));
        }
        lemma_parse_instrs_frame(
            pre2,
            head.instructions,
            fmt_function_list(rest) + suf,
            (fuel - 1) as nat,
        );
        let pre3 = pre2 + fmt_instr_list(head.instructions);
        assert(s =~= pre3 + fmt_function_list(rest) + suf);
        assert forall|i: int|
            0 <= i < rest.len() implies crate::program::function_wf(#[trigger] rest[i]) by {
            assert(rest[i] == items[i + 1]);
        }
        assert(next_kw_not_in(s, pre3.len() as int + fmt_function_list(rest).len(), kw_function(),
            kw_call(), kw_op()));
        lemma_parse_functions_frame(pre3, rest, suf, (fuel - 1) as nat);
        assert(seq![head] + rest =~= items);
    }
}

/// A formatted program identifier consists of word bytes.
proof fn lemma_pid_word_bytes(p: ProgramIdV)
    requires
        crate::ident::pid_wf(p),
    ensures
        all_word_bytes(fmt_pid(p)),
        fmt_pid(p).len() > 0,
{
    lemma_ident_word_bytes(p.name);
    lemma_ident_word_bytes(p.network);
    assert forall|k: int|
        0 <= k < fmt_pid(p).len() implies is_word_byte(#[trigger] fmt_pid(p)[k]) by {
        if k < p.name.len() {
            assert(fmt_pid(p)[k] == p.name[k]);
        } else if k == p.name.len() {
            assert(fmt_pid(p)[k] == 46);
        } else {
            assert(fmt_pid(p)[k] == p.network[k - p.name.len() - 1]);
        }
    }
}

/// Nothing parses as a line at the end of the text.
proof fn lemma_parse_line_at_end(s: Seq<u8>)
    ensures
        parse_line(s, s.len() as int) is None,
{
    assert(word_end(s, s.len() as int) == s.len());
}

/// The keywords are pairwise distinct.
proof fn lemma_kw_distinct()
    ensures
        kw_program() != kw_import(),
        kw_function() != kw_import(),
        kw_closure() != kw_import(),
        kw_record() != kw_import(),
        kw_function() != kw_call(),
        kw_function() != kw_op(),
        kw_closure() != kw_function(),
        kw_closure() != kw_call(),
        kw_closure() != kw_op(),
        kw_record() != kw_function(),
        kw_record() != kw_call(),
        kw_record() != kw_op(),
        kw_record() != kw_closure(),
{
    assert(kw_record()[0] != kw_import()[0]);
    assert(kw_program().len() != kw_import().len());
    assert(kw_function().len() != kw_import().len());
    assert(kw_closure().len() != kw_import().len());
    assert(kw_function().len() != kw_call().len());
    assert(kw_function().len() != kw_op().len());
    assert(kw_closure().len() != kw_function().len());
    assert(kw_closure().len() != kw_call().len());
    assert(kw_closure().len() != kw_op().len());
    assert(kw_record().len() != kw_function().len());
    assert(kw_record().len() != kw_call().len());
    assert(kw_record().len() != kw_op().len());
    assert(kw_record().len() != kw_closure().len());
}

/// Offset of the import lines inside a formatted program.
spec fn txt_off1(p: ProgramV) -> int {
    fmt_line(kw_program(), fmt_pid(p.id)).len() as int
}

/// Offset of the function blocks inside a formatted program.
spec fn txt_off2(p: ProgramV) -> int {
    txt_off1(p) + fmt_import_list(p.imports).len() as int
}

/// Offset of the closure lines inside a formatted program.
spec fn txt_off3(p: ProgramV) -> int {
    txt_off2(p) + fmt_function_list(p.functions).len() as int
}

/// Offset of the record lines inside a formatted program.
spec fn txt_off4(p: ProgramV) -> int {
    txt_off3(p) + fmt_name_list(kw_closure(), p.closures).len() as int
}

/// The record section's first line reads as a record line.
#[verifier::rlimit(100)]
#[verifier::spinoff_prover]
proof fn lemma_text_record_opener(p: ProgramV)
    requires
        prog_wf(p),
        p.records.len() > 0,
    ensures
        parse_line(fmt_program(p), txt_off4(p)) matches Some((w1, w2, np)) && w1 == kw_record(),
{
    let s = fmt_program(p);
    let header = fmt_line(kw_program(), fmt_pid(p.id));
    let li = fmt_import_list(p.imports);
    let lf = fmt_function_list(p.functions);
    let lc = fmt_name_list(kw_closure(), p.closures);
    let lr = fmt_name_list(kw_record(), p.records);
    lemma_kw_word_bytes();
    assert(lr == fmt_line(kw_record(), p.records[0]) + fmt_name_list(
        kw_record(),
        p.records.drop_first(),
    ));
    assert(s =~= (header + li + lf + lc) + fmt_line(kw_record(), p.records[0]) + fmt_name_list(
        kw_record(),
        p.records.drop_first(),
    ));
    lemma_ident_word_bytes(p.records[0]);
    lemma_parse_line_frame(
        header + li + lf + lc,
        kw_record(),
        p.records[0],
        fmt_name_list(kw_record(), p.records.drop_first()),
    );
}

/// The closure section's first line reads as a closure line.
#[verifier::rlimit(100)]
#[verifier::spinoff_prover]
proof fn lemma_text_closure_opener(p: ProgramV)
    requires
        prog_wf(p),
        p.closures.len() > 0,
    ensures
        parse_line(fmt_program(p), txt_off3(p)) matches Some((w1, w2, np)) && w1 == kw_closure(),
{
    let s = fmt_program(p);
    let header = fmt_line(kw_program(), fmt_pid(p.id));
    let li = fmt_import_list(p.imports);
    let lf = fmt_function_list(p.functions);
    let lc = fmt_name_list(kw_closure(), p.closures);
    let lr = fmt_name_list(kw_record(), p.records);
    lemma_kw_word_bytes();
    assert(lc == fmt_line(kw_closure(), p.closures[0]) + fmt_name_list(
        kw_closure(),
        p.closures.drop_first(),
    ));
    assert(s =~= (header + li + lf) + fmt_line(kw_closure(), p.closures[0]) + (fmt_name_list(
        kw_closure(),
        p.closures.drop_first(),
    ) + lr));
    lemma_ident_word_bytes(p.closures[0]);
    lemma_parse_line_frame(
        header + li + lf,
        kw_closure(),
        p.closures[0],
        fmt_name_list(kw_closure(), p.closures.drop_first()) + lr,
    );
}

/// The function section's first line reads as a function header.
#[verifier::rlimit(100)]
#[verifier::spinoff_prover]
proof fn lemma_text_function_opener(p: ProgramV)
    requires
        prog_wf(p),
        p.functions.len() > 0,
    ensures
        parse_line(fmt_program(p), txt_off2(p)) matches Some((w1, w2, np)) && w1 == kw_function(),
{
    let s = fmt_program(p);
    let header = fmt_line(kw_program(), fmt_pid(p.id));
    let li = fmt_import_list(p.imports);
    let lf = fmt_function_list(p.functions);
    let lc = fmt_name_list(kw_closure(), p.closures);
    let lr = fmt_name_list(kw_record(), p.records);
    lemma_kw_word_bytes();
    assert(lf == fmt_function(p.functions[0]) + fmt_function_list(p.functions.drop_first()));
    assert(s =~= (header + li) + fmt_line(kw_function(), p.functions[0].name) + (fmt_instr_list(
        p.functions[0].instructions,
    ) + (fmt_function_list(p.functions.drop_first()) + (lc + lr))));
    lemma_ident_word_bytes(p.functions[0].name);
    lemma_parse_line_frame(
        header + li,
        kw_function(),
        p.functions[0].name,
        fmt_instr_list(p.functions[0].instructions) + (fmt_function_list(
            p.functions.drop_first(),
        ) + (lc + lr)),
    );
}

/// What the first line of each section of a formatted program reads as,
/// for the parsers' stop conditions.
#[verifier::rlimit(100)]
#[verifier::spinoff_prover]
proof fn lemma_text_section_openers(p: ProgramV)
    requires
        prog_wf(p),
    ensures
        parse_line(fmt_program(p), 0) == Some((kw_program(), fmt_pid(p.id), txt_off1(p))),
        parse_line(fmt_program(p), fmt_program(p).len() as int) is None,
        p.records.len() > 0 ==> (parse_line(fmt_program(p), txt_off4(p)) matches Some((
            w1,
            w2,
            np,
        )) && w1 == kw_record()),
        p.closures.len() > 0 ==> (parse_line(fmt_program(p), txt_off3(p)) matches Some((
            w1,
            w2,
            np,
        )) && w1 == kw_closure()),
        p.functions.len() > 0 ==> (parse_line(fmt_program(p), txt_off2(p)) matches Some((
            w1,
            w2,
            np,
        )) && w1 == kw_function()),
        p.records.len() == 0 ==> txt_off4(p) == fmt_program(p).len(),
        p.closures.len() == 0 ==> txt_off3(p) == txt_off4(p),
        p.functions.len() == 0 ==> txt_off2(p) == txt_off3(p),
{
    let s = fmt_program(p);
    let header = fmt_line(kw_program(), fmt_pid(p.id));
    let li = fmt_import_list(p.imports);
    let lf = fmt_function_list(p.functions);
    let lc = fmt_name_list(kw_closure(), p.closures);
    let lr = fmt_name_list(kw_record(), p.records);
    let empty = Seq::<u8>::empty();
    lemma_kw_word_bytes();
    lemma_pid_word_bytes(p.id);
    assert(s =~= empty + header + (li + (lf + (lc + lr))));
    lemma_parse_line_frame(empty, kw_program(), fmt_pid(p.id), li + (lf + (lc + lr)));
    lemma_parse_line_at_end(s);
    if p.records.len() > 0 {
        lemma_text_record_opener(p);
    }
    if p.closures.len() > 0 {
        lemma_text_closure_opener(p);
    }
    if p.functions.len() > 0 {
        lemma_text_function_opener(p);
    }
}

/// Each section of a formatted program parses back to its part.
#[verifier::rlimit(100)]
#[verifier::spinoff_prover]
proof fn lemma_text_sections(p: ProgramV)
    requires
        prog_wf(p),
    ensures
        parse_import_lines(fmt_program(p), txt_off1(p), (fmt_program(p).len() + 1) as nat)
            == Some((p.imports, txt_off2(p))),
        parse_function_blocks(fmt_program(p), txt_off2(p), (fmt_program(p).len() + 1) as nat)
            == Some((p.functions, txt_off3(p))),
        parse_name_lines(
            kw_closure(),
            fmt_program(p),
            txt_off3(p),
            (fmt_program(p).len() + 1) as nat,
        ) == Some((p.closures, txt_off4(p))),
        parse_name_lines(
            kw_record(),
            fmt_program(p),
            txt_off4(p),
            (fmt_program(p).len() + 1) as nat,
        ) == Some((p.records, fmt_program(p).len() as int)),
{
    let s = fmt_program(p);
    let fuel = (s.len() + 1) as nat;
    let header = fmt_line(kw_program(), fmt_pid(p.id));
    let li = fmt_import_list(p.imports);
    let lf = fmt_function_list(p.functions);
    let lc = fmt_name_list(kw_closure(), p.closures);
    let lr = fmt_name_list(kw_record(), p.records);
    let empty = Seq::<u8>::empty();
    lemma_kw_word_bytes();
    lemma_kw_distinct();
    lemma_text_section_openers(p);
    assert(parse_import_lines(s, txt_off1(p), fuel) == Some((p.imports, txt_off2(p)))) by {
        assert(next_kw_not_in(s, txt_off2(p), kw_import(), kw_import(), kw_import()));
        assert(s =~= header + li + (lf + (lc + lr)));
        lemma_parse_imports_frame(header, p.imports, lf + (lc + lr), fuel);
    }
    assert(parse_function_blocks(s, txt_off2(p), fuel) == Some((p.functions, txt_off3(p)))) by {
        assert(next_kw_not_in(s, txt_off3(p), kw_function(), kw_call(), kw_op()));
        assert(s =~= (header + li) + lf + (lc + lr));
        lemma_parse_functions_frame(header + li, p.functions, lc + lr, fuel);
    }
    assert(parse_name_lines(kw_closure(), s, txt_off3(p), fuel) == Some(
        (p.closures, txt_off4(p)),
    )) by {
        assert(next_kw_not_in(s, txt_off4(p), kw_closure(), kw_closure(), kw_closure()));
        assert(s =~= (header + li + lf) + lc + lr);
        lemma_parse_names_frame(kw_closure(), header + li + lf, p.closures, lr, fuel);
    }
    assert(parse_name_lines(kw_record(), s, txt_off4(p), fuel) == Some(
        (p.records, s.len() as int),
    )) by {
        assert(next_kw_not_in(s, s.len() as int, kw_record(), kw_record(), kw_record()));
        assert(s =~= (header + li + lf + lc) + lr + empty);
        lemma_parse_names_frame(kw_record(), header + li + lf + lc, p.records, empty, fuel);
    }
}

/// Round trip of the canonical text form: parsing the rendering of any
/// well-formed program yields that program back, having consumed the
/// whole text.
#[verifier::rlimit(100)]
#[verifier::spinoff_prover]
pub proof fn lemma_text_round_trip(p: ProgramV)
    requires
        prog_wf(p),
    ensures
        parse_program_text(fmt_program(p)) == Some(p),
{
    let s = fmt_program(p);
    lemma_text_section_openers(p);
    lemma_parse_pid_word(p.id);
    lemma_text_sections(p);
    assert(parse_program_text(s).unwrap() =~= p);
}


} // verus!
