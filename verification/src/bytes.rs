//! The canonical byte form of a program, and its proved round trip.
//!
//! Every piece is length-prefixed: identifiers carry a one-byte length,
//! sections a two-byte little-endian count.  Decoding validates every
//! identifier and the whole program, so only well-formed programs read
//! back.

use vstd::prelude::*;

use crate::errors::Error;
use crate::ident::{check_ident_bytes, ident_wf, Identifier, Locator, ProgramID, ProgramIdV};
use crate::program::{
    function_wf, instr_wf, prog_wf, CallOperator, CallOperatorV, Function, FunctionV, Instruction,
    InstructionV, Program, ProgramV, RecordType,
};

verus! {

/// The two little-endian bytes of a section count.
pub open spec fn enc_u16(n: nat) -> Seq<u8> {
    seq![(n % 256) as u8, ((n / 256) % 256) as u8]
}

/// An identifier: its length in one byte, then its bytes.
pub open spec fn enc_ident(s: Seq<u8>) -> Seq<u8> {
    seq![s.len() as u8] + s
}

/// A program identifier: name, then network.
pub open spec fn enc_pid(p: ProgramIdV) -> Seq<u8> {
    enc_ident(p.name) + enc_ident(p.network)
}

/// One instruction: a tag byte, then its payload.
pub open spec fn enc_instr(i: InstructionV) -> Seq<u8> {
    match i {
        InstructionV::Operation(m) => seq![0u8] + enc_ident(m),
        InstructionV::Call(CallOperatorV::Resource(r)) => seq![1u8] + enc_ident(r),
        InstructionV::Call(CallOperatorV::Locator(l)) => seq![2u8] + enc_pid(l.program_id)
            + enc_ident(l.resource),
    }
}

/// A list of instructions, in order.
pub open spec fn enc_instr_list(s: Seq<InstructionV>) -> Seq<u8>
    decreases s.len(),
{
    if s.len() == 0 {
        Seq::empty()
    } else {
        enc_instr(s[0]) + enc_instr_list(s.drop_first())
    }
}

/// A function: its name, then its counted instructions.
pub open spec fn enc_function(f: FunctionV) -> Seq<u8> {
    enc_ident(f.name) + enc_u16(f.instructions.len() as nat) + enc_instr_list(f.instructions)
}

/// A list of functions, in order.
pub open spec fn enc_function_list(s: Seq<FunctionV>) -> Seq<u8>
    decreases s.len(),
{
    if s.len() == 0 {
        Seq::empty()
    } else {
        enc_function(s[0]) + enc_function_list(s.drop_first())
    }
}

/// A list of program identifiers, in order.
pub open spec fn enc_pid_list(s: Seq<ProgramIdV>) -> Seq<u8>
    decreases s.len(),
{
    if s.len() == 0 {
        Seq::empty()
    } else {
        enc_pid(s[0]) + enc_pid_list(s.drop_first())
    }
}

/// A list of plain names, in order.
pub open spec fn enc_name_list(s: Seq<Seq<u8>>) -> Seq<u8>
    decreases s.len(),
{
    if s.len() == 0 {
        Seq::empty()
    } else {
        enc_ident(s[0]) + enc_name_list(s.drop_first())
    }
}

/// A whole program: identifier, then each counted section.
pub open spec fn enc_program(p: ProgramV) -> Seq<u8> {
    enc_pid(p.id) + enc_u16(p.imports.len() as nat) + enc_pid_list(p.imports) + enc_u16(
        p.functions.len() as nat,
    ) + enc_function_list(p.functions) + enc_u16(p.closures.len() as nat) + enc_name_list(
        p.closures,
    ) + enc_u16(p.records.len() as nat) + enc_name_list(p.records)
}

/// Reads one byte.
pub open spec fn dec_u8(s: Seq<u8>, pos: int) -> Option<(u8, int)> {
    if 0 <= pos < s.len() {
        Some((s[pos], pos + 1))
    } else {
        None
    }
}

/// Reads a two-byte little-endian count.
pub open spec fn dec_u16(s: Seq<u8>, pos: int) -> Option<(nat, int)> {
    if 0 <= pos && pos + 2 <= s.len() {
        Some(((s[pos] + 256 * s[pos + 1]) as nat, pos + 2))
    } else {
        None
    }
}

/// Reads a length-prefixed, well-formed identifier.
pub open spec fn dec_ident(s: Seq<u8>, pos: int) -> Option<(Seq<u8>, int)> {
    match dec_u8(s, pos) {
        None => None,
        Some((len, p1)) => if p1 + len <= s.len() && ident_wf(s.subrange(p1, p1 + len)) {
            Some((s.subrange(p1, p1 + len), p1 + len))
        } else {
            None
        },
    }
}

/// Reads a program identifier.
pub open spec fn dec_pid(s: Seq<u8>, pos: int) -> Option<(ProgramIdV, int)> {
    match dec_ident(s, pos) {
        None => None,
        Some((name, p1)) => match dec_ident(s, p1) {
            None => None,
            Some((network, p2)) => Some((ProgramIdV { name, network }, p2)),
        },
    }
}

/// Reads one tagged instruction.
pub open spec fn dec_instr(s: Seq<u8>, pos: int) -> Option<(InstructionV, int)> {
    match dec_u8(s, pos) {
        None => None,
        Some((tag, p1)) => if tag == 0 {
            match dec_ident(s, p1) {
                None => None,
                Some((m, p2)) => Some((InstructionV::Operation(m), p2)),
            }
        } else if tag == 1 {
            match dec_ident(s, p1) {
                None => None,
                Some((r, p2)) => Some((InstructionV::Call(CallOperatorV::Resource(r)), p2)),
            }
        } else if tag == 2 {
            match dec_pid(s, p1) {
                None => None,
                Some((pid, p2)) => match dec_ident(s, p2) {
                    None => None,
                    Some((r, p3)) => Some(
                        (
                            InstructionV::Call(
                                CallOperatorV::Locator(
                                    crate::ident::LocatorV { program_id: pid, resource: r },
                                ),
                            ),
                            p3,
                        ),
                    ),
                },
            }
        } else {
            None
        },
    }
}

/// Reads a counted list of instructions.
pub open spec fn dec_instr_list(s: Seq<u8>, pos: int, count: nat) -> Option<(
    Seq<InstructionV>,
    int,
)>
    decreases count,
{
    if count == 0 {
        Some((Seq::empty(), pos))
    } else {
        match dec_instr(s, pos) {
            None => None,
            Some((i, p1)) => match dec_instr_list(s, p1, (count - 1) as nat) {
                None => None,
                Some((rest, p2)) => Some((seq![i] + rest, p2)),
            },
        }
    }
}

/// Reads a function.
pub open spec fn dec_function(s: Seq<u8>, pos: int) -> Option<(FunctionV, int)> {
    match dec_ident(s, pos) {
        None => None,
        Some((name, p1)) => match dec_u16(s, p1) {
            None => None,
            Some((count, p2)) => match dec_instr_list(s, p2, count) {
                None => None,
                Some((instrs, p3)) => Some((FunctionV { name, instructions: instrs }, p3)),
            },
        },
    }
}

/// Reads a counted list of functions.
pub open spec fn dec_function_list(s: Seq<u8>, pos: int, count: nat) -> Option<(
    Seq<FunctionV>,
    int,
)>
    decreases count,
{
    if count == 0 {
        Some((Seq::empty(), pos))
    } else {
        match dec_function(s, pos) {
            None => None,
            Some((f, p1)) => match dec_function_list(s, p1, (count - 1) as nat) {
                None => None,
                Some((rest, p2)) => Some((seq![f] + rest, p2)),
            },
        }
    }
}

/// Reads a counted list of program identifiers.
pub open spec fn dec_pid_list(s: Seq<u8>, pos: int, count: nat) -> Option<(Seq<ProgramIdV>, int)>
    decreases count,
{
    if count == 0 {
        Some((Seq::empty(), pos))
    } else {
        match dec_pid(s, pos) {
            None => None,
            Some((p, p1)) => match dec_pid_list(s, p1, (count - 1) as nat) {
                None => None,
                Some((rest, p2)) => Some((seq![p] + rest, p2)),
            },
        }
    }
}

/// Reads a counted list of plain names.
pub open spec fn dec_name_list(s: Seq<u8>, pos: int, count: nat) -> Option<(Seq<Seq<u8>>, int)>
    decreases count,
{
    if count == 0 {
        Some((Seq::empty(), pos))
    } else {
        match dec_ident(s, pos) {
            None => None,
            Some((n, p1)) => match dec_name_list(s, p1, (count - 1) as nat) {
                None => None,
                Some((rest, p2)) => Some((seq![n] + rest, p2)),
            },
        }
    }
}

/// Reads a whole program, without the trailing-bytes or well-formedness
/// checks of [`dec_program_full`].
pub open spec fn dec_program(s: Seq<u8>, pos: int) -> Option<(ProgramV, int)> {
    match dec_pid(s, pos) {
        None => None,
        Some((id, p1)) => match dec_u16(s, p1) {
            None => None,
            Some((ni, p2)) => match dec_pid_list(s, p2, ni) {
                None => None,
                Some((imports, p3)) => match dec_u16(s, p3) {
                    None => None,
                    Some((nf, p4)) => match dec_function_list(s, p4, nf) {
                        None => None,
                        Some((functions, p5)) => match dec_u16(s, p5) {
                            None => None,
                            Some((nc, p6)) => match dec_name_list(s, p6, nc) {
                                None => None,
                                Some((closures, p7)) => match dec_u16(s, p7) {
                                    None => None,
                                    Some((nr, p8)) => match dec_name_list(s, p8, nr) {
                                        None => None,
                                        Some((records, p9)) => Some(
                                            (
                                                ProgramV {
                                                    id,
                                                    imports,
                                                    functions,
                                                    closures,
                                                    records,
                                                },
                                                p9,
                                            ),
                                        ),
                                    },
                                },
                            },
                        },
                    },
                },
            },
        },
    }
}

/// What the byte decoder accepts: a program that reads back exactly,
/// consumes every byte, and is well-formed.
pub open spec fn dec_program_full(s: Seq<u8>) -> Option<ProgramV> {
    match dec_program(s, 0) {
        None => None,
        Some((p, pos)) => if pos == s.len() && prog_wf(p) {
            Some(p)
        } else {
            None
        },
    }
}

/// Appends a two-byte little-endian count.
fn emit_u16(out: &mut Vec<u8>, n: u16)
    ensures
        final(out)@ == old(out)@ + enc_u16(n as nat),
{
    out.push((n % 256) as u8);
    out.push((n / 256) as u8);
    proof {
        assert((n as nat) / 256 < 256);
        assert(((n as nat) / 256) % 256 == (n as nat) / 256);
        assert(final(out)@ =~= old(out)@ + enc_u16(n as nat));
    }
}

/// Appends a length-prefixed identifier.
fn emit_ident(out: &mut Vec<u8>, id: &Identifier)
    requires
        ident_wf(id@),
    ensures
        final(out)@ == old(out)@ + enc_ident(id@),
{
    out.push(id.bytes.len() as u8);
    let mut i: usize = 0;
    while i < id.bytes.len()
        invariant
            i <= id.bytes@.len(),
            out@ == old(out)@ + seq![id.bytes@.len() as u8] + id.bytes@.subrange(0, i as int),
        decreases id.bytes@.len() - i,
    {
        out.push(id.bytes[i]);
        proof {
            assert(out@ =~= old(out)@ + seq![id.bytes@.len() as u8] + id.bytes@.subrange(
                0,
                i + 1,
            ));
        }
        i = i + 1;
    }
    proof {
        assert(out@ =~= old(out)@ + enc_ident(id@));
    }
}

/// Appends a program identifier.
fn emit_pid(out: &mut Vec<u8>, pid: &ProgramID)
    requires
        crate::ident::pid_wf(pid@),
    ensures
        final(out)@ == old(out)@ + enc_pid(pid@),
{
    emit_ident(out, &pid.name);
    emit_ident(out, &pid.network);
    proof {
        assert(final(out)@ =~= old(out)@ + enc_pid(pid@));
    }
}

/// Appends one tagged instruction.
fn emit_instr(out: &mut Vec<u8>, ins: &Instruction)
    requires
        instr_wf(ins@),
    ensures
        final(out)@ == old(out)@ + enc_instr(ins@),
{
    match ins {
        Instruction::Operation(m) => {
            out.push(0);
            emit_ident(out, m);
        },
        Instruction::Call(CallOperator::Resource(r)) => {
            out.push(1);
            emit_ident(out, r);
        },
        Instruction::Call(CallOperator::Locator(l)) => {
            out.push(2);
            emit_pid(out, &l.program_id);
            emit_ident(out, &l.resource);
        },
    }
    proof {
        assert(final(out)@ =~= old(out)@ + enc_instr(ins@));
    }
}

/// Appends a function: name, instruction count, instructions.
fn emit_function(out: &mut Vec<u8>, f: &Function)
    requires
        function_wf(f@),
    ensures
        final(out)@ == old(out)@ + enc_function(f@),
{
    emit_ident(out, &f.name);
    emit_u16(out, f.instructions.len() as u16);
    let ghost base = out@;
    let ghost iv = f@.instructions;
    proof {
        assert(iv.skip(0) =~= iv);
    }
    let mut i: usize = 0;
    while i < f.instructions.len()
        invariant
            i <= f.instructions@.len(),
            iv == f@.instructions,
            function_wf(f@),
            base + enc_instr_list(iv) == out@ + enc_instr_list(iv.skip(i as int)),
        decreases f.instructions@.len() - i,
    {
        proof {
            assert(iv.skip(i as int)[0] == iv[i as int]);
            assert(iv.skip(i as int).drop_first() =~= iv.skip(i as int + 1));
            assert(instr_wf(iv[i as int]));
        }
        let ghost prev = out@;
        emit_instr(out, &f.instructions[i]);
        proof {
            lemma_cat_assoc(prev, enc_instr(iv[i as int]), enc_instr_list(iv.skip(i as int + 1)));
        }
        i = i + 1;
    }
    proof {
        assert(iv.skip(iv.len() as int) =~= Seq::<InstructionV>::empty());
        assert(enc_instr_list(iv.skip(iv.len() as int)) =~= Seq::<u8>::empty());
        assert(out@ + Seq::<u8>::empty() =~= out@);
        assert(final(out)@ =~= old(out)@ + enc_function(f@));
    }
}

impl Program {
    /// Serializes the program into its canonical byte form, or fails
    /// with [`Error::MalformedProgram`] when the program breaks a
    /// well-formedness rule.
    pub fn to_bytes(&self) -> (r: Result<Vec<u8>, Error>)
        ensures
            prog_wf(self@) ==> (r matches Ok(b) && b@ == enc_program(self@)),
            !prog_wf(self@) ==> r == Err::<Vec<u8>, Error>(Error::MalformedProgram),
    {
        if !self.is_well_formed() {
            return Err(Error::MalformedProgram);
        }
        let mut out: Vec<u8> = Vec::new();
        emit_pid(&mut out, &self.id);
        emit_u16(&mut out, self.imports.len() as u16);
        let ghost base1 = out@;
        let ghost pv = self@.imports;
        proof {
            assert(pv.skip(0) =~= pv);
        }
        let mut i: usize = 0;
        while i < self.imports.len()
            invariant
                i <= self.imports@.len(),
                pv == self@.imports,
                prog_wf(self@),
                base1 + enc_pid_list(pv) == out@ + enc_pid_list(pv.skip(i as int)),
            decreases self.imports@.len() - i,
        {
            proof {
                assert(pv.skip(i as int)[0] == pv[i as int]);
                assert(pv.skip(i as int).drop_first() =~= pv.skip(i as int + 1));
                assert(crate::ident::pid_wf(pv[i as int]));
            }
            let ghost prev = out@;
            emit_pid(&mut out, &self.imports[i]);
            proof {
                lemma_cat_assoc(prev, enc_pid(pv[i as int]), enc_pid_list(pv.skip(i as int + 1)));
            }
            i = i + 1;
        }
        proof {
            assert(enc_pid_list(pv.skip(pv.len() as int)) =~= Seq::<u8>::empty());
            assert(out@ + Seq::<u8>::empty() =~= out@);
        }
        emit_u16(&mut out, self.functions.len() as u16);
        let ghost base2 = out@;
        let ghost fv = self@.functions;
        proof {
            assert(fv.skip(0) =~= fv);
        }
        let mut i: usize = 0;
        while i < self.functions.len()
            invariant
                i <= self.functions@.len(),
                fv == self@.functions,
                prog_wf(self@),
                base2 + enc_function_list(fv) == out@ + enc_function_list(fv.skip(i as int)),
            decreases self.functions@.len() - i,
        {
            proof {
                assert(fv.skip(i as int)[0] == fv[i as int]);
                assert(fv.skip(i as int).drop_first() =~= fv.skip(i as int + 1));
                assert(function_wf(fv[i as int]));
            }
            let ghost prev = out@;
            emit_function(&mut out, &self.functions[i]);
            proof {
                lemma_cat_assoc(
                    prev,
                    enc_function(fv[i as int]),
                    enc_function_list(fv.skip(i as int + 1)),
                );
            }
            i = i + 1;
        }
        proof {
            assert(enc_function_list(fv.skip(fv.len() as int)) =~= Seq::<u8>::empty());
            assert(out@ + Seq::<u8>::empty() =~= out@);
        }
        emit_u16(&mut out, self.closures.len() as u16);
        let ghost base3 = out@;
        let ghost cv = self@.closures;
        proof {
            assert(cv.skip(0) =~= cv);
        }
        let mut i: usize = 0;
        while i < self.closures.len()
            invariant
                i <= self.closures@.len(),
                cv == self@.closures,
                prog_wf(self@),
                base3 + enc_name_list(cv) == out@ + enc_name_list(cv.skip(i as int)),
            decreases self.closures@.len() - i,
        {
            proof {
                assert(cv.skip(i as int)[0] == cv[i as int]);
                assert(cv.skip(i as int).drop_first() =~= cv.skip(i as int + 1));
                assert(ident_wf(cv[i as int]));
            }
            let ghost prev = out@;
            emit_ident(&mut out, &self.closures[i]);
            proof {
                lemma_cat_assoc(prev, enc_ident(cv[i as int]), enc_name_list(cv.skip(i as int + 1)));
            }
            i = i + 1;
        }
        proof {
            assert(enc_name_list(cv.skip(cv.len() as int)) =~= Seq::<u8>::empty());
            assert(out@ + Seq::<u8>::empty() =~= out@);
        }
        emit_u16(&mut out, self.records.len() as u16);
        let ghost base4 = out@;
        let ghost rv = self@.records;
        proof {
            assert(rv.skip(0) =~= rv);
        }
        let mut i: usize = 0;
        while i < self.records.len()
            invariant
                i <= self.records@.len(),
                rv == self@.records,
                prog_wf(self@),
                base4 + enc_name_list(rv) == out@ + enc_name_list(rv.skip(i as int)),
            decreases self.records@.len() - i,
        {
            proof {
                assert(rv.skip(i as int)[0] == rv[i as int]);
                assert(rv.skip(i as int).drop_first() =~= rv.skip(i as int + 1));
                assert(ident_wf(rv[i as int]));
            }
            let ghost prev = out@;
            emit_ident(&mut out, &self.records[i].name);
            proof {
                lemma_cat_assoc(prev, enc_ident(rv[i as int]), enc_name_list(rv.skip(i as int + 1)));
            }
            i = i + 1;
        }
        proof {
            assert(enc_name_list(rv.skip(rv.len() as int)) =~= Seq::<u8>::empty());
            assert(out@ + Seq::<u8>::empty() =~= out@);
            assert(out@ =~= enc_program(self@));
        }
        Ok(out)
    }
}

/// Reads a two-byte little-endian count.
fn parse_u16(s: &Vec<u8>, pos: usize) -> (r: Option<(u16, usize)>)
    requires
        pos <= s@.len(),
    ensures
        match dec_u16(s@, pos as int) {
            None => r is None,
            Some((n, np)) => (r matches Some((m, mp)) && m as nat == n && mp as int == np),
        },
{
    if s.len() - pos < 2 {
        return None;
    }
    let lo = s[pos];
    let hi = s[pos + 1];
    Some((lo as u16 + 256 * (hi as u16), pos + 2))
}

/// Reads a length-prefixed identifier, validating it.
fn parse_ident(s: &Vec<u8>, pos: usize) -> (r: Option<(Identifier, usize)>)
    requires
        pos <= s@.len(),
    ensures
        match dec_ident(s@, pos as int) {
            None => r is None,
            Some((v, np)) => (r matches Some((id, mp)) && id@ == v && mp as int == np
                && mp <= s@.len()),
        },
{
    if pos >= s.len() {
        return None;
    }
    let l = s[pos] as usize;
    let p1 = pos + 1;
    if s.len() - p1 < l {
        return None;
    }
    let slen = s.len();
    let mut bytes: Vec<u8> = Vec::new();
    let mut i: usize = 0;
    while i < l
        invariant
            i <= l,
            p1 + l <= slen,
            slen == s@.len(),
            bytes@ == s@.subrange(p1 as int, p1 + i as int),
        decreases l - i,
    {
        bytes.push(s[p1 + i]);
        proof {
            assert(bytes@ =~= s@.subrange(p1 as int, p1 + i + 1 as int));
        }
        i = i + 1;
    }
    if check_ident_bytes(&bytes) {
        Some((Identifier { bytes }, p1 + l))
    } else {
        None
    }
}

/// Reads a program identifier.
fn parse_pid(s: &Vec<u8>, pos: usize) -> (r: Option<(ProgramID, usize)>)
    requires
        pos <= s@.len(),
    ensures
        match dec_pid(s@, pos as int) {
            None => r is None,
            Some((v, np)) => (r matches Some((pid, mp)) && pid@ == v && mp as int == np
                && mp <= s@.len()),
        },
{
    let (name, p1) = match parse_ident(s, pos) {
        Some(x) => x,
        None => {
            return None;
        },
    };
    let (network, p2) = match parse_ident(s, p1) {
        Some(x) => x,
        None => {
            return None;
        },
    };
    proof {
        assert(dec_pid(s@, pos as int).unwrap().0 =~= ProgramIdV { name: name@, network: network@ });
    }
    Some((ProgramID { name, network }, p2))
}

/// Reads one tagged instruction.
fn parse_instr(s: &Vec<u8>, pos: usize) -> (r: Option<(Instruction, usize)>)
    requires
        pos <= s@.len(),
    ensures
        match dec_instr(s@, pos as int) {
            None => r is None,
            Some((v, np)) => (r matches Some((ins, mp)) && ins@ == v && mp as int == np
                && mp <= s@.len()),
        },
{
    if pos >= s.len() {
        return None;
    }
    let tag = s[pos];
    let p1 = pos + 1;
    if tag == 0 {
        match parse_ident(s, p1) {
            Some((m, p2)) => Some((Instruction::Operation(m), p2)),
            None => None,
        }
    } else if tag == 1 {
        match parse_ident(s, p1) {
            Some((res, p2)) => Some((Instruction::Call(CallOperator::Resource(res)), p2)),
            None => None,
        }
    } else if tag == 2 {
        let (pid, p2) = match parse_pid(s, p1) {
            Some(x) => x,
            None => {
                return None;
            },
        };
        let (res, p3) = match parse_ident(s, p2) {
            Some(x) => x,
            None => {
                return None;
            },
        };
        proof {
            assert(dec_instr(s@, pos as int).unwrap().0 =~= InstructionV::Call(
                CallOperatorV::Locator(
                    crate::ident::LocatorV { program_id: pid@, resource: res@ },
                ),
            ));
        }
        Some((Instruction::Call(CallOperator::Locator(Locator { program_id: pid, resource: res })), p3))
    } else {
        None
    }
}

/// Reads a counted list of instructions.
fn parse_instr_list(s: &Vec<u8>, pos: usize, count: u16) -> (r: Option<(Vec<Instruction>, usize)>)
    requires
        pos <= s@.len(),
    ensures
        match dec_instr_list(s@, pos as int, count as nat) {
            None => r is None,
            Some((v, np)) => (r matches Some((list, mp)) && list@.map_values(
                |x: Instruction| x@,
            ) == v && mp as int == np && mp <= s@.len()),
        },
    decreases count,
{
    if count == 0 {
        let empty: Vec<Instruction> = Vec::new();
        proof {
            assert(empty@.map_values(|x: Instruction| x@) =~= Seq::<InstructionV>::empty());
        }
        return Some((empty, pos));
    }
    let (head, p1) = match parse_instr(s, pos) {
        Some(x) => x,
        None => {
            return None;
        },
    };
    let (mut rest, p2) = match parse_instr_list(s, p1, count - 1) {
        Some(x) => x,
        None => {
            return None;
        },
    };
    rest.insert(0, head);
    proof {
        assert(rest@.map_values(|x: Instruction| x@) =~= dec_instr_list(
            s@,
            pos as int,
            count as nat,
        ).unwrap().0);
    }
    Some((rest, p2))
}

/// Reads a function.
fn parse_function(s: &Vec<u8>, pos: usize) -> (r: Option<(Function, usize)>)
    requires
        pos <= s@.len(),
    ensures
        match dec_function(s@, pos as int) {
            None => r is None,
            Some((v, np)) => (r matches Some((f, mp)) && f@ == v && mp as int == np
                && mp <= s@.len()),
        },
{
    let (name, p1) = match parse_ident(s, pos) {
        Some(x) => x,
        None => {
            return None;
        },
    };
    let (count, p2) = match parse_u16(s, p1) {
        Some(x) => x,
        None => {
            return None;
        },
    };
    let (instrs, p3) = match parse_instr_list(s, p2, count) {
        Some(x) => x,
        None => {
            return None;
        },
    };
    let f = Function { name, instructions: instrs };
    proof {
        assert(f@ =~= dec_function(s@, pos as int).unwrap().0);
    }
    Some((f, p3))
}

/// Reads a counted list of functions.
fn parse_function_list(s: &Vec<u8>, pos: usize, count: u16) -> (r: Option<(Vec<Function>, usize)>)
    requires
        pos <= s@.len(),
    ensures
        match dec_function_list(s@, pos as int, count as nat) {
            None => r is None,
            Some((v, np)) => (r matches Some((list, mp)) && list@.map_values(|x: Function| x@)
                == v && mp as int == np && mp <= s@.len()),
        },
    decreases count,
{
    if count == 0 {
        let empty: Vec<Function> = Vec::new();
        proof {
            assert(empty@.map_values(|x: Function| x@) =~= Seq::<FunctionV>::empty());
        }
        return Some((empty, pos));
    }
    let (head, p1) = match parse_function(s, pos) {
        Some(x) => x,
        None => {
            return None;
        },
    };
    let (mut rest, p2) = match parse_function_list(s, p1, count - 1) {
        Some(x) => x,
        None => {
            return None;
        },
    };
    rest.insert(0, head);
    proof {
        assert(rest@.map_values(|x: Function| x@) =~= dec_function_list(
            s@,
            pos as int,
            count as nat,
        ).unwrap().0);
    }
    Some((rest, p2))
}

/// Reads a counted list of program identifiers.
fn parse_pid_list(s: &Vec<u8>, pos: usize, count: u16) -> (r: Option<(Vec<ProgramID>, usize)>)
    requires
        pos <= s@.len(),
    ensures
        match dec_pid_list(s@, pos as int, count as nat) {
            None => r is None,
            Some((v, np)) => (r matches Some((list, mp)) && list@.map_values(|x: ProgramID| x@)
                == v && mp as int == np && mp <= s@.len()),
        },
    decreases count,
{
    if count == 0 {
        let empty: Vec<ProgramID> = Vec::new();
        proof {
            assert(empty@.map_values(|x: ProgramID| x@) =~= Seq::<ProgramIdV>::empty());
        }
        return Some((empty, pos));
    }
    let (head, p1) = match parse_pid(s, pos) {
        Some(x) => x,
        None => {
            return None;
        },
    };
    let (mut rest, p2) = match parse_pid_list(s, p1, count - 1) {
        Some(x) => x,
        None => {
            return None;
        },
    };
    rest.insert(0, head);
    proof {
        assert(rest@.map_values(|x: ProgramID| x@) =~= dec_pid_list(
            s@,
            pos as int,
            count as nat,
        ).unwrap().0);
    }
    Some((rest, p2))
}

/// Reads a counted list of plain names.
fn parse_name_list(s: &Vec<u8>, pos: usize, count: u16) -> (r: Option<(Vec<Identifier>, usize)>)
    requires
        pos <= s@.len(),
    ensures
        match dec_name_list(s@, pos as int, count as nat) {
            None => r is None,
            Some((v, np)) => (r matches Some((list, mp)) && list@.map_values(|x: Identifier| x@)
                == v && mp as int == np && mp <= s@.len()),
        },
    decreases count,
{
    if count == 0 {
        let empty: Vec<Identifier> = Vec::new();
        proof {
            assert(empty@.map_values(|x: Identifier| x@) =~= Seq::<Seq<u8>>::empty());
        }
        return Some((empty, pos));
    }
    let (head, p1) = match parse_ident(s, pos) {
        Some(x) => x,
        None => {
            return None;
        },
    };
    let (mut rest, p2) = match parse_name_list(s, p1, count - 1) {
        Some(x) => x,
        None => {
            return None;
        },
    };
    rest.insert(0, head);
    proof {
        assert(rest@.map_values(|x: Identifier| x@) =~= dec_name_list(
            s@,
            pos as int,
            count as nat,
        ).unwrap().0);
    }
    Some((rest, p2))
}

impl Program {
    /// Deserializes a program from its canonical byte form, or fails
    /// with [`Error::MalformedProgram`] when the bytes are not the
    /// complete canonical form of a well-formed program.
    pub fn from_bytes(bytes: &Vec<u8>) -> (r: Result<Program, Error>)
        ensures
            match dec_program_full(bytes@) {
                Some(pv) => (r matches Ok(p) && p@ == pv),
                None => r == Err::<Program, Error>(Error::MalformedProgram),
            },
    {
        let (id, p1) = match parse_pid(bytes, 0) {
            Some(x) => x,
            None => {
                return Err(Error::MalformedProgram);
            },
        };
        let (ni, p2) = match parse_u16(bytes, p1) {
            Some(x) => x,
            None => {
                return Err(Error::MalformedProgram);
            },
        };
        let (imports, p3) = match parse_pid_list(bytes, p2, ni) {
            Some(x) => x,
            None => {
                return Err(Error::MalformedProgram);
            },
        };
        let (nf, p4) = match parse_u16(bytes, p3) {
            Some(x) => x,
            None => {
                return Err(Error::MalformedProgram);
            },
        };
        let (functions, p5) = match parse_function_list(bytes, p4, nf) {
            Some(x) => x,
            None => {
                return Err(Error::MalformedProgram);
            },
        };
        let (nc, p6) = match parse_u16(bytes, p5) {
            Some(x) => x,
            None => {
                return Err(Error::MalformedProgram);
            },
        };
        let (closures, p7) = match parse_name_list(bytes, p6, nc) {
            Some(x) => x,
            None => {
                return Err(Error::MalformedProgram);
            },
        };
        let (nr, p8) = match parse_u16(bytes, p7) {
            Some(x) => x,
            None => {
                return Err(Error::MalformedProgram);
            },
        };
        let (record_names, p9) = match parse_name_list(bytes, p8, nr) {
            Some(x) => x,
            None => {
                return Err(Error::MalformedProgram);
            },
        };
        if p9 != bytes.len() {
            return Err(Error::MalformedProgram);
        }
        let mut records: Vec<RecordType> = Vec::new();
        let mut i: usize = 0;
        while i < record_names.len()
            invariant
                i <= record_names@.len(),
                records@.len() == i,
                forall|j: int| 0 <= j < i ==> (#[trigger] records@[j])@ == record_names@[j]@,
            decreases record_names@.len() - i,
        {
            records.push(RecordType { name: record_names[i].clone() });
            i = i + 1;
        }
        let program = Program { id, imports, functions, closures, records };
        proof {
            assert(program@.records =~= record_names@.map_values(|x: Identifier| x@));
            assert(program@ =~= dec_program(bytes@, 0).unwrap().0);
        }
        if program.is_well_formed() {
            Ok(program)
        } else {
            Err(Error::MalformedProgram)
        }
    }
}

/// Reading two count bytes back yields the count.
proof fn lemma_dec_enc_u16(pre: Seq<u8>, n: nat, suf: Seq<u8>)
    requires
        n <= 0xFFFF,
    ensures
        dec_u16(pre + enc_u16(n) + suf, pre.len() as int) == Some((n, pre.len() as int + 2)),
{
    let s = pre + enc_u16(n) + suf;
    let pos = pre.len() as int;
    assert(s[pos] == enc_u16(n)[0]);
    assert(s[pos + 1] == enc_u16(n)[1]);
    assert(n / 256 < 256) by {
        assert(n <= 0xFFFF);
    }
    assert((n / 256) % 256 == n / 256);
    assert(s[pos] == (n % 256) as u8);
    assert(s[pos + 1] == (n / 256) as u8);
    assert(n % 256 + 256 * (n / 256) == n);
}

/// Reading an encoded identifier back yields the identifier.
proof fn lemma_dec_enc_ident(pre: Seq<u8>, v: Seq<u8>, suf: Seq<u8>)
    requires
        ident_wf(v),
    ensures
        dec_ident(pre + enc_ident(v) + suf, pre.len() as int) == Some(
            (v, pre.len() as int + 1 + v.len()),
        ),
{
    let s = pre + enc_ident(v) + suf;
    let pos = pre.len() as int;
    assert(s[pos] == enc_ident(v)[0]);
    assert(enc_ident(v)[0] == v.len() as u8);
    let p1 = pos + 1;
    assert(p1 + v.len() <= s.len());
    assert(s.subrange(p1, p1 + v.len() as int) =~= v);
}

/// Reading an encoded program identifier back yields it.
proof fn lemma_dec_enc_pid(pre: Seq<u8>, p: ProgramIdV, suf: Seq<u8>)
    requires
        ident_wf(p.name),
        ident_wf(p.network),
    ensures
        dec_pid(pre + enc_pid(p) + suf, pre.len() as int) == Some(
            (p, pre.len() as int + enc_pid(p).len()),
        ),
{
    let s = pre + enc_pid(p) + suf;
    assert(s =~= pre + enc_ident(p.name) + (enc_ident(p.network) + suf));
    lemma_dec_enc_ident(pre, p.name, enc_ident(p.network) + suf);
    let p1 = pre.len() + 1 + p.name.len();
    assert(s =~= (pre + enc_ident(p.name)) + enc_ident(p.network) + suf);
    lemma_dec_enc_ident(pre + enc_ident(p.name), p.network, suf);
    assert((pre + enc_ident(p.name)).len() == p1);
}

/// Reading an encoded instruction back yields it.
#[verifier::rlimit(100)]
#[verifier::spinoff_prover]
proof fn lemma_dec_enc_instr(pre: Seq<u8>, i: InstructionV, suf: Seq<u8>)
    requires
        instr_wf(i),
    ensures
        dec_instr(pre + enc_instr(i) + suf, pre.len() as int) == Some(
            (i, pre.len() as int + enc_instr(i).len()),
        ),
{
    let s = pre + enc_instr(i) + suf;
    let pos = pre.len() as int;
    match i {
        InstructionV::Operation(m) => {
            assert(s[pos] == enc_instr(i)[0]);
            assert(s =~= (pre + seq![0u8]) + enc_ident(m) + suf);
            lemma_dec_enc_ident(pre + seq![0u8], m, suf);
        },
        InstructionV::Call(CallOperatorV::Resource(r)) => {
            assert(s[pos] == enc_instr(i)[0]);
            assert(s =~= (pre + seq![1u8]) + enc_ident(r) + suf);
            lemma_dec_enc_ident(pre + seq![1u8], r, suf);
        },
        InstructionV::Call(CallOperatorV::Locator(l)) => {
            assert(s[pos] == enc_instr(i)[0]);
            assert(s =~= (pre + seq![2u8]) + enc_pid(l.program_id) + (enc_ident(l.resource)
                + suf));
            lemma_dec_enc_pid(pre + seq![2u8], l.program_id, enc_ident(l.resource) + suf);
            assert(s =~= ((pre + seq![2u8]) + enc_pid(l.program_id)) + enc_ident(l.resource)
                + suf);
            lemma_dec_enc_ident((pre + seq![2u8]) + enc_pid(l.program_id), l.resource, suf);
        },
    }
}

/// Reading an encoded instruction list back yields the list.
#[verifier::rlimit(100)]
#[verifier::spinoff_prover]
proof fn lemma_dec_enc_instr_list(pre: Seq<u8>, items: Seq<InstructionV>, suf: Seq<u8>)
    requires
        forall|k: int| 0 <= k < items.len() ==> instr_wf(#[trigger] items[k]),
    ensures
        dec_instr_list(pre + enc_instr_list(items) + suf, pre.len() as int, items.len() as nat)
            == Some((items, pre.len() as int + enc_instr_list(items).len())),
    decreases items.len(),
{
    if items.len() == 0 {
        assert(pre + enc_instr_list(items) + suf =~= pre + suf);
        assert(items =~= Seq::<InstructionV>::empty());
    } else {
        let s = pre + enc_instr_list(items) + suf;
        let head = items[0];
        let rest = items.drop_first();
        assert(enc_instr_list(items) == enc_instr(head) + enc_instr_list(rest));
        assert(s =~= pre + enc_instr(head) + (enc_instr_list(rest) + suf));
        lemma_dec_enc_instr(pre, head, enc_instr_list(rest) + suf);
        assert(s =~= (pre + enc_instr(head)) + enc_instr_list(rest) + suf);
        lemma_dec_enc_instr_list(pre + enc_instr(head), rest, suf);
        assert(seq![head] + rest =~= items);
    }
}

/// Reading an encoded function back yields it.
#[verifier::rlimit(100)]
#[verifier::spinoff_prover]
proof fn lemma_dec_enc_function(pre: Seq<u8>, f: FunctionV, suf: Seq<u8>)
    requires
        function_wf(f),
    ensures
        dec_function(pre + enc_function(f) + suf, pre.len() as int) == Some(
            (f, pre.len() as int + enc_function(f).len()),
        ),
{
    let s = pre + enc_function(f) + suf;
    let n = f.instructions.len() as nat;
    assert(s =~= pre + enc_ident(f.name) + (enc_u16(n) + enc_instr_list(f.instructions) + suf));
    lemma_dec_enc_ident(pre, f.name, enc_u16(n) + enc_instr_list(f.instructions) + suf);
    let pre1 = pre + enc_ident(f.name);
    assert(s =~= pre1 + enc_u16(n) + (enc_instr_list(f.instructions) + suf));
    lemma_dec_enc_u16(pre1, n, enc_instr_list(f.instructions) + suf);
    let pre2 = pre1 + enc_u16(n);
    assert(s =~= pre2 + enc_instr_list(f.instructions) + suf);
    lemma_dec_enc_instr_list(pre2, f.instructions, suf);
}

/// Reading an encoded function list back yields the list.
#[verifier::rlimit(100)]
#[verifier::spinoff_prover]
proof fn lemma_dec_enc_function_list(pre: Seq<u8>, items: Seq<FunctionV>, suf: Seq<u8>)
    requires
        forall|k: int| 0 <= k < items.len() ==> function_wf(#[trigger] items[k]),
    ensures
        dec_function_list(pre + enc_function_list(items) + suf, pre.len() as int, items.len()
            as nat) == Some((items, pre.len() as int + enc_function_list(items).len())),
    decreases items.len(),
{
    if items.len() == 0 {
        assert(pre + enc_function_list(items) + suf =~= pre + suf);
        assert(items =~= Seq::<FunctionV>::empty());
    } else {
        let s = pre + enc_function_list(items) + suf;
        let head = items[0];
        let rest = items.drop_first();
        assert(enc_function_list(items) == enc_function(head) + enc_function_list(rest));
        assert(s =~= pre + enc_function(head) + (enc_function_list(rest) + suf));
        lemma_dec_enc_function(pre, head, enc_function_list(rest) + suf);
        assert(s =~= (pre + enc_function(head)) + enc_function_list(rest) + suf);
        lemma_dec_enc_function_list(pre + enc_function(head), rest, suf);
        assert(seq![head] + rest =~= items);
    }
}

/// Reading an encoded program identifier list back yields the list.
#[verifier::rlimit(100)]
#[verifier::spinoff_prover]
proof fn lemma_dec_enc_pid_list(pre: Seq<u8>, items: Seq<ProgramIdV>, suf: Seq<u8>)
    requires
        forall|k: int| 0 <= k < items.len() ==> crate::ident::pid_wf(#[trigger] items[k]),
    ensures
        dec_pid_list(pre + enc_pid_list(items) + suf, pre.len() as int, items.len() as nat)
            == Some((items, pre.len() as int + enc_pid_list(items).len())),
    decreases items.len(),
{
    if items.len() == 0 {
        assert(pre + enc_pid_list(items) + suf =~= pre + suf);
        assert(items =~= Seq::<ProgramIdV>::empty());
    } else {
        let s = pre + enc_pid_list(items) + suf;
        let head = items[0];
        let rest = items.drop_first();
        assert(enc_pid_list(items) == enc_pid(head) + enc_pid_list(rest));
        assert(s =~= pre + enc_pid(head) + (enc_pid_list(rest) + suf));
        lemma_dec_enc_pid(pre, head, enc_pid_list(rest) + suf);
        assert(s =~= (pre + enc_pid(head)) + enc_pid_list(rest) + suf);
        lemma_dec_enc_pid_list(pre + enc_pid(head), rest, suf);
        assert(seq![head] + rest =~= items);
    }
}

/// Reading an encoded name list back yields the list.
#[verifier::rlimit(100)]
#[verifier::spinoff_prover]
proof fn lemma_dec_enc_name_list(pre: Seq<u8>, items: Seq<Seq<u8>>, suf: Seq<u8>)
    requires
        forall|k: int| 0 <= k < items.len() ==> ident_wf(#[trigger] items[k]),
    ensures
        dec_name_list(pre + enc_name_list(items) + suf, pre.len() as int, items.len() as nat)
            == Some((items, pre.len() as int + enc_name_list(items).len())),
    decreases items.len(),
{
    if items.len() == 0 {
        assert(pre + enc_name_list(items) + suf =~= pre + suf);
        assert(items =~= Seq::<Seq<u8>>::empty());
    } else {
        let s = pre + enc_name_list(items) + suf;
        let head = items[0];
        let rest = items.drop_first();
        assert(enc_name_list(items) == enc_ident(head) + enc_name_list(rest));
        assert(s =~= pre + enc_ident(head) + (enc_name_list(rest) + suf));
        lemma_dec_enc_ident(pre, head, enc_name_list(rest) + suf);
        assert(s =~= (pre + enc_ident(head)) + enc_name_list(rest) + suf);
        lemma_dec_enc_name_list(pre + enc_ident(head), rest, suf);
        assert(seq![head] + rest =~= items);
    }
}

/// Concatenation of byte sequences is associative.
proof fn lemma_cat_assoc(a: Seq<u8>, b: Seq<u8>, c: Seq<u8>)
    ensures
        (a + b) + c == a + (b + c),
{
    assert((a + b) + c =~= a + (b + c));
}

/// Offset just after the program identifier inside an encoded program.
spec fn byte_off1(p: ProgramV) -> int {
    enc_pid(p.id).len() as int
}

/// Offset of the import list inside an encoded program.
spec fn byte_off2(p: ProgramV) -> int {
    byte_off1(p) + 2
}

/// Offset of the function-count bytes inside an encoded program.
spec fn byte_off3(p: ProgramV) -> int {
    byte_off2(p) + enc_pid_list(p.imports).len() as int
}

/// Offset of the function list inside an encoded program.
spec fn byte_off4(p: ProgramV) -> int {
    byte_off3(p) + 2
}

/// Offset of the closure-count bytes inside an encoded program.
spec fn byte_off5(p: ProgramV) -> int {
    byte_off4(p) + enc_function_list(p.functions).len() as int
}

/// Offset of the record-count bytes inside an encoded program.
spec fn byte_off7(p: ProgramV) -> int {
    byte_off5(p) + 2 + enc_name_list(p.closures).len()
}

/// Reading the closure and record sections of an encoded program back
/// yields them.
#[verifier::rlimit(100)]
#[verifier::spinoff_prover]
proof fn lemma_bytes_round_trip_tail(p: ProgramV)
    requires
        prog_wf(p),
    ensures
        dec_u16(enc_program(p), byte_off5(p)) == Some((p.closures.len() as nat, byte_off5(p) + 2)),
        dec_name_list(enc_program(p), byte_off5(p) + 2, p.closures.len() as nat) == Some(
            (p.closures, byte_off7(p)),
        ),
        dec_u16(enc_program(p), byte_off7(p)) == Some((p.records.len() as nat, byte_off7(p) + 2)),
        dec_name_list(enc_program(p), byte_off7(p) + 2, p.records.len() as nat) == Some(
            (p.records, enc_program(p).len() as int),
        ),
{
    let e = enc_program(p);
    let empty = Seq::<u8>::empty();
    let s0 = enc_pid(p.id);
    let s1 = enc_u16(p.imports.len() as nat);
    let s2 = enc_pid_list(p.imports);
    let s3 = enc_u16(p.functions.len() as nat);
    let s4 = enc_function_list(p.functions);
    let s5 = enc_u16(p.closures.len() as nat);
    let s6 = enc_name_list(p.closures);
    let s7 = enc_u16(p.records.len() as nat);
    let s8 = enc_name_list(p.records);
    let pre1 = s0;
    let pre2 = pre1 + s1;
    let pre3 = pre2 + s2;
    let pre4 = pre3 + s3;
    let pre5 = pre4 + s4;
    let pre6 = pre5 + s5;
    let pre7 = pre6 + s6;
    let pre8 = pre7 + s7;
    let t8 = s8;
    let t7 = s7 + t8;
    let t6 = s6 + t7;
    assert(e == pre8 + t8);
    lemma_cat_assoc(pre7, s7, t8);
    assert(e == pre7 + t7);
    lemma_cat_assoc(pre6, s6, t7);
    assert(e == pre6 + t6);
    lemma_dec_enc_u16(pre5, p.closures.len() as nat, t6);
    lemma_cat_assoc(pre5, s5, t6);
    lemma_dec_enc_name_list(pre6, p.closures, t7);
    lemma_dec_enc_u16(pre7, p.records.len() as nat, t8);
    assert((pre8 + s8) + empty =~= pre8 + s8);
    lemma_dec_enc_name_list(pre8, p.records, empty);
}

/// Reading the header, import and function sections of an encoded
/// program back yields them.
#[verifier::rlimit(100)]
#[verifier::spinoff_prover]
proof fn lemma_bytes_decode_head(p: ProgramV)
    requires
        prog_wf(p),
    ensures
        dec_pid(enc_program(p), 0) == Some((p.id, byte_off1(p))),
        dec_u16(enc_program(p), byte_off1(p)) == Some((p.imports.len() as nat, byte_off2(p))),
        dec_pid_list(enc_program(p), byte_off2(p), p.imports.len() as nat) == Some(
            (p.imports, byte_off3(p)),
        ),
        dec_u16(enc_program(p), byte_off3(p)) == Some((p.functions.len() as nat, byte_off4(p))),
        dec_function_list(enc_program(p), byte_off4(p), p.functions.len() as nat) == Some(
            (p.functions, byte_off5(p)),
        ),
{
    let e = enc_program(p);
    let empty = Seq::<u8>::empty();
    let s0 = enc_pid(p.id);
    let s1 = enc_u16(p.imports.len() as nat);
    let s2 = enc_pid_list(p.imports);
    let s3 = enc_u16(p.functions.len() as nat);
    let s4 = enc_function_list(p.functions);
    let s5 = enc_u16(p.closures.len() as nat);
    let s6 = enc_name_list(p.closures);
    let s7 = enc_u16(p.records.len() as nat);
    let s8 = enc_name_list(p.records);
    let pre1 = s0;
    let pre2 = pre1 + s1;
    let pre3 = pre2 + s2;
    let pre4 = pre3 + s3;
    let pre5 = pre4 + s4;
    let pre6 = pre5 + s5;
    let pre7 = pre6 + s6;
    let pre8 = pre7 + s7;
    let t8 = s8;
    let t7 = s7 + t8;
    let t6 = s6 + t7;
    let t5 = s5 + t6;
    let t4 = s4 + t5;
    let t3 = s3 + t4;
    let t2 = s2 + t3;
    let t1 = s1 + t2;
    assert(e == pre8 + t8);
    lemma_cat_assoc(pre7, s7, t8);
    assert(e == pre7 + t7);
    lemma_cat_assoc(pre6, s6, t7);
    assert(e == pre6 + t6);
    lemma_cat_assoc(pre5, s5, t6);
    assert(e == pre5 + t5);
    lemma_cat_assoc(pre4, s4, t5);
    assert(e == pre4 + t4);
    lemma_cat_assoc(pre3, s3, t4);
    assert(e == pre3 + t3);
    lemma_cat_assoc(pre2, s2, t3);
    assert(e == pre2 + t2);
    lemma_cat_assoc(pre1, s1, t2);
    assert(e == pre1 + t1);
    assert(empty + s0 =~= s0);
    lemma_dec_enc_pid(empty, p.id, t1);
    assert(dec_pid(e, 0) == Some((p.id, s0.len() as int)));
    lemma_dec_enc_u16(pre1, p.imports.len() as nat, t2);
    lemma_dec_enc_pid_list(pre2, p.imports, t3);
    lemma_dec_enc_u16(pre3, p.functions.len() as nat, t4);
    lemma_dec_enc_function_list(pre4, p.functions, t5);
}

/// Round trip of the canonical byte form: decoding the encoding of any
/// well-formed program yields that program back, having consumed every
/// byte.
#[verifier::rlimit(100)]
#[verifier::spinoff_prover]
pub proof fn lemma_bytes_round_trip(p: ProgramV)
    requires
        prog_wf(p),
    ensures
        dec_program_full(enc_program(p)) == Some(p),
{
    let e = enc_program(p);
    lemma_bytes_decode_head(p);
    lemma_bytes_round_trip_tail(p);
    assert(e.len() == byte_off7(p) + 2 + enc_name_list(p.records).len());
    let q = dec_program(e, 0).unwrap().0;
    assert(q =~= p);
    assert(dec_program(e, 0).unwrap().1 == e.len());
}

} // verus!
