//! Identifiers, program identifiers and locators.
//!
//! An identifier is a short ASCII name: a lowercase letter followed by
//! lowercase letters, digits or underscores.  A program identifier joins
//! a program name with the network-level domain it belongs to, and a
//! locator qualifies a resource name with the external program that
//! declares it.

use vstd::prelude::*;

use crate::errors::Error;

verus! {

/// Longest identifier the canonical forms accept, in bytes.
pub const MAX_IDENT_LEN: usize = 31;

/// True for `a` through `z`.
pub open spec fn is_lower_letter(b: u8) -> bool {
    97 <= b <= 122
}

/// True for `0` through `9`.
pub open spec fn is_digit_byte(b: u8) -> bool {
    48 <= b <= 57
}

/// True for the bytes an identifier may contain after its first.
pub open spec fn is_ident_byte(b: u8) -> bool {
    is_lower_letter(b) || is_digit_byte(b) || b == 95
}

/// A well-formed identifier: nonempty, at most [`MAX_IDENT_LEN`] bytes,
/// starting with a lowercase letter, containing only lowercase letters,
/// digits and underscores.
pub open spec fn ident_wf(s: Seq<u8>) -> bool {
    &&& 1 <= s.len() <= MAX_IDENT_LEN
    &&& is_lower_letter(s[0])
    &&& forall|i: int| 0 <= i < s.len() ==> is_ident_byte(#[trigger] s[i])
}

/// The bytes of the network-level domain this library accepts: `aleo`.
pub open spec fn network_domain() -> Seq<u8> {
    seq![97u8, 108u8, 101u8, 111u8]
}

/// The name of a function, closure, record type or network domain.
#[derive(Debug, PartialEq, Eq)]
pub struct Identifier {
    /// The ASCII bytes of the name.
    pub bytes: Vec<u8>,
}

impl View for Identifier {
    type V = Seq<u8>;

    open spec fn view(&self) -> Seq<u8> {
        self.bytes@
    }
}

/// Copies a byte vector.
fn copy_bytes(v: &Vec<u8>) -> (r: Vec<u8>)
    ensures
        r@ == v@,
{
    let mut out: Vec<u8> = Vec::new();
    let mut i: usize = 0;
    while i < v.len()
        invariant
            i <= v@.len(),
            out@ == v@.subrange(0, i as int),
        decreases v@.len() - i,
    {
        out.push(v[i]);
        i = i + 1;
    }
    proof {
        assert(out@ == v@);
    }
    out
}

impl Clone for Identifier {
    fn clone(&self) -> (r: Self)
        ensures
            r@ == self@,
    {
        Identifier { bytes: copy_bytes(&self.bytes) }
    }
}

impl Identifier {
    /// Builds an identifier after validating its bytes.
    pub fn new(bytes: Vec<u8>) -> (r: Result<Identifier, Error>)
        ensures
            ident_wf(bytes@) ==> (r matches Ok(id) && id@ == bytes@),
            !ident_wf(bytes@) ==> r == Err::<Identifier, Error>(Error::MalformedProgram),
    {
        if check_ident_bytes(&bytes) {
            Ok(Identifier { bytes })
        } else {
            Err(Error::MalformedProgram)
        }
    }

    /// True when the identifier is well-formed.
    pub fn is_valid(&self) -> (r: bool)
        ensures
            r == ident_wf(self@),
    {
        check_ident_bytes(&self.bytes)
    }
}

/// Decides [`ident_wf`] on a byte vector.
pub fn check_ident_bytes(v: &Vec<u8>) -> (r: bool)
    ensures
        r == ident_wf(v@),
{
    if v.len() < 1 || v.len() > MAX_IDENT_LEN {
        return false;
    }
    let b0 = v[0];
    if !(97 <= b0 && b0 <= 122) {
        return false;
    }
    let mut i: usize = 1;
    while i < v.len()
        invariant
            1 <= i <= v@.len(),
            forall|j: int| 0 <= j < i ==> is_ident_byte(#[trigger] v@[j]),
            is_lower_letter(v@[0]),
        decreases v@.len() - i,
    {
        let b = v[i];
        if !((97 <= b && b <= 122) || (48 <= b && b <= 57) || b == 95) {
            return false;
        }
        i = i + 1;
    }
    true
}

/// Compares two identifiers by their bytes.
pub fn ident_eq(a: &Identifier, b: &Identifier) -> (r: bool)
    ensures
        r == (a@ == b@),
{
    bytes_eq(&a.bytes, &b.bytes)
}

/// Compares two byte vectors by contents.
pub fn bytes_eq(a: &Vec<u8>, b: &Vec<u8>) -> (r: bool)
    ensures
        r == (a@ == b@),
{
    if a.len() != b.len() {
        proof {
            assert(a@.len() != b@.len());
        }
        return false;
    }
    let mut i: usize = 0;
    while i < a.len()
        invariant
            i <= a@.len(),
            a@.len() == b@.len(),
            forall|j: int| 0 <= j < i ==> a@[j] == b@[j],
        decreases a@.len() - i,
    {
        if a[i] != b[i] {
            return false;
        }
        i = i + 1;
    }
    proof {
        assert(a@ =~= b@);
    }
    true
}

/// The mathematical shape of a program identifier.
#[verifier::ext_equal]
pub struct ProgramIdV {
    /// The program name.
    pub name: Seq<u8>,
    /// The network-level domain.
    pub network: Seq<u8>,
}

/// A well-formed program identifier: both parts are identifiers.
pub open spec fn pid_wf(p: ProgramIdV) -> bool {
    ident_wf(p.name) && ident_wf(p.network)
}

/// A program identifier: a name and the network-level domain it is
/// registered under, written `name.network`.
#[derive(Debug, PartialEq, Eq)]
pub struct ProgramID {
    /// The program name.
    pub name: Identifier,
    /// The network-level domain.
    pub network: Identifier,
}

impl View for ProgramID {
    type V = ProgramIdV;

    open spec fn view(&self) -> ProgramIdV {
        ProgramIdV { name: self.name@, network: self.network@ }
    }
}

impl Clone for ProgramID {
    fn clone(&self) -> (r: Self)
        ensures
            r@ == self@,
    {
        ProgramID { name: self.name.clone(), network: self.network.clone() }
    }
}

impl ProgramID {
    /// True when the network-level domain marks this network.
    pub fn is_aleo(&self) -> (r: bool)
        ensures
            r == (self@.network == network_domain()),
    {
        let n = &self.network.bytes;
        let r = n.len() == 4 && n[0] == 97 && n[1] == 108 && n[2] == 101 && n[3] == 111;
        proof {
            if r {
                assert(self@.network =~= network_domain());
            } else {
                assert(self@.network != network_domain());
            }
        }
        r
    }

    /// True when both parts are well-formed identifiers.
    pub fn is_valid(&self) -> (r: bool)
        ensures
            r == pid_wf(self@),
    {
        self.name.is_valid() && self.network.is_valid()
    }
}

/// Compares two program identifiers by contents.
pub fn pid_eq(a: &ProgramID, b: &ProgramID) -> (r: bool)
    ensures
        r == (a@ == b@),
{
    let r = ident_eq(&a.name, &b.name) && ident_eq(&a.network, &b.network);
    proof {
        if r {
            assert(a@ =~= b@);
        }
    }
    r
}

/// The mathematical shape of a locator.
#[verifier::ext_equal]
pub struct LocatorV {
    /// The external program the resource belongs to.
    pub program_id: ProgramIdV,
    /// The name of the resource inside that program.
    pub resource: Seq<u8>,
}

/// A well-formed locator: a well-formed program identifier and resource.
pub open spec fn locator_wf(l: LocatorV) -> bool {
    pid_wf(l.program_id) && ident_wf(l.resource)
}

/// A reference to a resource of an external program, written
/// `program_id/resource`.
#[derive(Debug, PartialEq, Eq)]
pub struct Locator {
    /// The external program the resource belongs to.
    pub program_id: ProgramID,
    /// The name of the resource inside that program.
    pub resource: Identifier,
}

impl View for Locator {
    type V = LocatorV;

    open spec fn view(&self) -> LocatorV {
        LocatorV { program_id: self.program_id@, resource: self.resource@ }
    }
}

impl Clone for Locator {
    fn clone(&self) -> (r: Self)
        ensures
            r@ == self@,
    {
        Locator { program_id: self.program_id.clone(), resource: self.resource.clone() }
    }
}

} // verus!
