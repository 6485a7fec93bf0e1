//! The stack: the linked, key-cached representation of one loaded
//! program and its resolved imports, inside a process of loaded
//! programs.
//!
//! A stack owns its program, a map of external stacks keyed by imported
//! program identifier, one register-types entry per declared function
//! and closure, a shared universal-parameters handle, and two
//! independent per-function key caches.  Equality of stacks is defined
//! by program, external stacks and register types alone: the key caches
//! are deliberately excluded from identity.

use vstd::prelude::*;

use crate::errors::Error;
use crate::ident::{ident_eq, pid_eq, Identifier, Locator, LocatorV, ProgramID, ProgramIdV};
use crate::program::{
    contains_fn, find_fn, fn_names, prog_wf, program_eq, seq_contains_name, seq_distinct,
    CallOperator, CallOperatorV, Function, FunctionV, Instruction, InstructionV, Program, ProgramV,
    RecordType,
};

verus! {

/// The static register-type information stored for one closure or
/// function.  It is computed by the register-type checker, an external
/// collaborator; the stack only stores one entry per declared name.
#[derive(Clone, Copy, Debug, PartialEq, Eq, Structural)]
pub struct RegisterTypes {
    /// True when the entry belongs to a closure rather than a function.
    pub is_closure: bool,
}

/// A per-function proving key produced by the proof system and stored
/// verbatim; no internal structure is inspected here.
#[derive(Clone, Copy, Debug, PartialEq, Eq, Structural)]
pub struct ProvingKey {
    /// The opaque handle of the key.
    pub key_id: u64,
}

/// A per-function verifying key produced by the proof system and stored
/// verbatim; no internal structure is inspected here.
#[derive(Clone, Copy, Debug, PartialEq, Eq, Structural)]
pub struct VerifyingKey {
    /// The opaque handle of the key.
    pub key_id: u64,
}

/// The shared, read-only universal parameters; one instance may back
/// every stack of a process.
#[derive(Clone, Copy, Debug, PartialEq, Eq, Structural)]
pub struct UniversalSRS {
    /// The supported circuit degree.
    pub degree: u64,
}

/// The first value stored under a key, if any.
pub open spec fn map_find<K, V>(s: Seq<(K, V)>, k: K) -> Option<V>
    decreases s.len(),
{
    if s.len() == 0 {
        None
    } else if s[0].0 == k {
        Some(s[0].1)
    } else {
        map_find(s.drop_first(), k)
    }
}

/// True when some entry carries the key.
pub open spec fn map_has<K, V>(s: Seq<(K, V)>, k: K) -> bool {
    map_find(s, k) is Some
}

/// Relates [`map_find`] to membership.
pub proof fn lemma_map_find_membership<K, V>(s: Seq<(K, V)>, k: K)
    ensures
        map_find(s, k) is Some <==> exists|i: int| 0 <= i < s.len() && (#[trigger] s[i]).0 == k,
        map_find(s, k) matches Some(v) ==> exists|i: int|
            0 <= i < s.len() && #[trigger] s[i] == (k, v),
    decreases s.len(),
{
    if s.len() == 0 {
    } else if s[0].0 == k {
        assert(s[0].0 == k);
        assert(s[0] == (k, s[0].1));
    } else {
        lemma_map_find_membership(s.drop_first(), k);
        if map_find(s.drop_first(), k) is Some {
            let i = choose|i: int|
                0 <= i < s.drop_first().len() && (#[trigger] s.drop_first()[i]).0 == k;
            assert(s[i + 1].0 == k);
            let v = map_find(s.drop_first(), k).unwrap();
            let j = choose|j: int|
                0 <= j < s.drop_first().len() && #[trigger] s.drop_first()[j] == (k, v);
            assert(s[j + 1] == (k, v));
        } else {
            assert forall|i: int| 0 <= i < s.len() implies (#[trigger] s[i]).0 != k by {
                if i > 0 {
                    assert(s.drop_first()[i - 1] == s[i]);
                }
            }
        }
    }
}

/// The mathematical shape of a stack.
#[verifier::ext_equal]
pub struct StackV {
    /// The owned program.
    pub program: ProgramV,
    /// The external stacks, keyed by imported program identifier.
    pub external_stacks: Seq<(ProgramIdV, StackV)>,
    /// The register types, keyed by closure or function name.
    pub program_types: Seq<(Seq<u8>, RegisterTypes)>,
    /// The shared universal parameters.
    pub universal_srs: UniversalSRS,
    /// The cached proving keys, keyed by function name.
    pub proving_keys: Seq<(Seq<u8>, ProvingKey)>,
    /// The cached verifying keys, keyed by function name.
    pub verifying_keys: Seq<(Seq<u8>, VerifyingKey)>,
}

/// The linked, key-cached runtime representation of one loaded program.
#[derive(Debug)]
pub struct Stack {
    /// The owned program.
    pub program: Program,
    /// The external stacks, keyed by imported program identifier.
    pub external_stacks: Vec<(ProgramID, Stack)>,
    /// The register types, keyed by closure or function name.
    pub program_types: Vec<(Identifier, RegisterTypes)>,
    /// The shared universal parameters.
    pub universal_srs: UniversalSRS,
    /// The cached proving keys, keyed by function name.
    pub proving_keys: Vec<(Identifier, ProvingKey)>,
    /// The cached verifying keys, keyed by function name.
    pub verifying_keys: Vec<(Identifier, VerifyingKey)>,
}

/// The mathematical shape of a name-keyed entry list.
pub open spec fn entries_view<V>(s: Seq<(Identifier, V)>) -> Seq<(Seq<u8>, V)> {
    s.map_values(|e: (Identifier, V)| (e.0@, e.1))
}

/// The mathematical shape of a stack value.
pub open spec fn stack_view(s: &Stack) -> StackV
    decreases s,
{
    StackV {
        program: s.program@,
        external_stacks: Seq::new(
            s.external_stacks@.len(),
            |i: int|
                if 0 <= i < s.external_stacks@.len() {
                    (s.external_stacks@[i].0@, stack_view(&s.external_stacks@[i].1))
                } else {
                    (arbitrary(), arbitrary())
                },
        ),
        program_types: entries_view(s.program_types@),
        universal_srs: s.universal_srs,
        proving_keys: entries_view(s.proving_keys@),
        verifying_keys: entries_view(s.verifying_keys@),
    }
}

impl View for Stack {
    type V = StackV;

    open spec fn view(&self) -> StackV {
        stack_view(self)
    }
}

/// The register-type entries a freshly linked stack stores: one per
/// declared function, then one per declared closure.
pub open spec fn declared_types(p: ProgramV) -> Seq<(Seq<u8>, RegisterTypes)> {
    p.functions.map_values(
        |f: FunctionV| (f.name, RegisterTypes { is_closure: false }),
    ) + p.closures.map_values(|c: Seq<u8>| (c, RegisterTypes { is_closure: true }))
}

/// True when every entry of a key cache names a declared function and no
/// key name repeats.
pub open spec fn key_cache_wf<V>(cache: Seq<(Seq<u8>, V)>, p: ProgramV) -> bool {
    &&& seq_distinct(cache.map_values(|e: (Seq<u8>, V)| e.0))
    &&& forall|i: int|
        0 <= i < cache.len() ==> seq_contains_name(fn_names(p), (#[trigger] cache[i]).0)
}

/// The stack invariant: a well-formed program with at least one
/// function, one external stack per import in order, each itself
/// well-formed and registered under its own identifier, register types
/// exactly as linked, and key caches confined to declared functions.
pub open spec fn stack_wf(v: StackV) -> bool
    decreases v,
{
    &&& prog_wf(v.program)
    &&& v.program.functions.len() >= 1
    &&& v.external_stacks.len() == v.program.imports.len()
    &&& forall|i: int|
        0 <= i < v.external_stacks.len() ==> (#[trigger] v.external_stacks[i]).0
            == v.program.imports[i]
    &&& forall|i: int|
        0 <= i < v.external_stacks.len() ==> (#[trigger] v.external_stacks[i]).1.program.id
            == v.external_stacks[i].0
    &&& forall|i: int|
        0 <= i < v.external_stacks.len() ==> stack_wf((#[trigger] v.external_stacks[i]).1)
    &&& v.program_types == declared_types(v.program)
    &&& key_cache_wf(v.proving_keys, v.program)
    &&& key_cache_wf(v.verifying_keys, v.program)
}

/// The cache-independent identity of a stack: its program, the
/// identities of its external stacks, and its register types.
#[verifier::ext_equal]
pub struct StackIdV {
    /// The owned program.
    pub program: ProgramV,
    /// The identities of the external stacks, keyed as stored.
    pub external_stacks: Seq<(ProgramIdV, StackIdV)>,
    /// The register types, keyed by closure or function name.
    pub program_types: Seq<(Seq<u8>, RegisterTypes)>,
}

/// What stack equality compares: everything but the key caches and the
/// shared parameters, recursively.
pub open spec fn stack_identity(v: StackV) -> StackIdV
    decreases v,
{
    StackIdV {
        program: v.program,
        external_stacks: Seq::new(
            v.external_stacks.len(),
            |i: int|
                if 0 <= i < v.external_stacks.len() {
                    (v.external_stacks[i].0, stack_identity(v.external_stacks[i].1))
                } else {
                    (arbitrary(), arbitrary())
                },
        ),
        program_types: v.program_types,
    }
}

/// Two stacks with the same program, external stacks and register types
/// have the same identity, whatever their key caches and parameters
/// hold: the caches never take part in equality.
pub proof fn lemma_equality_ignores_key_caches(a: StackV, b: StackV)
    requires
        a.program == b.program,
        a.external_stacks == b.external_stacks,
        a.program_types == b.program_types,
    ensures
        stack_identity(a) == stack_identity(b),
{
    assert(stack_identity(a).external_stacks =~= stack_identity(b).external_stacks);
    assert(stack_identity(a) =~= stack_identity(b));
}

/// Finds the index of the entry stored under a name.
fn find_entry_index<V>(entries: &Vec<(Identifier, V)>, name: &Identifier) -> (r: Option<usize>)
    ensures
        r is Some <==> map_has(entries_view(entries@), name@),
        r matches Some(i) ==> 0 <= i < entries@.len() && entries@[i as int].0@ == name@
            && map_find(entries_view(entries@), name@) == Some(entries@[i as int].1),
{
    let ghost ev = entries_view(entries@);
    proof {
        assert(ev.skip(0) =~= ev);
    }
    let mut i: usize = 0;
    while i < entries.len()
        invariant
            i <= entries@.len(),
            ev == entries_view(entries@),
            forall|j: int| 0 <= j < i ==> (#[trigger] entries@[j]).0@ != name@,
            map_find(ev.skip(i as int), name@) == map_find(ev, name@),
        decreases entries@.len() - i,
    {
        proof {
            assert(ev.skip(i as int)[0] == ev[i as int]);
            assert(ev[i as int] == (entries@[i as int].0@, entries@[i as int].1));
        }
        if ident_eq(&entries[i].0, name) {
            proof {
                assert(map_find(ev.skip(i as int), name@) == Some(entries@[i as int].1));
            }
            return Some(i);
        }
        proof {
            assert(ev.skip(i as int).drop_first() =~= ev.skip(i as int + 1));
        }
        i = i + 1;
    }
    proof {
        assert(ev.skip(entries@.len() as int) =~= Seq::<(Seq<u8>, V)>::empty());
    }
    None
}

/// After overwriting the entry at a key's index, a lookup sees the new
/// value there and every other key unchanged.
proof fn lemma_map_find_update<K, V>(s: Seq<(K, V)>, i: int, k: K, v: V, q: K)
    requires
        0 <= i < s.len(),
        s[i].0 == k,
        seq_distinct(s.map_values(|e: (K, V)| e.0)),
    ensures
        map_find(s.update(i, (k, v)), q) == (if q == k {
            Some(v)
        } else {
            map_find(s, q)
        }),
    decreases s.len(),
{
    let names = s.map_values(|e: (K, V)| e.0);
    if i == 0 {
        assert(s.update(0, (k, v))[0] == (k, v));
        assert(s.update(0, (k, v)).drop_first() =~= s.drop_first());
        if q != k {
        } else {
            if s[0].0 != q {
            }
        }
    } else {
        assert(s.update(i, (k, v))[0] == s[0]);
        assert(s.update(i, (k, v)).drop_first() =~= s.drop_first().update(i - 1, (k, v)));
        assert(s.drop_first().map_values(|e: (K, V)| e.0) =~= names.drop_first());
        assert(seq_distinct(names.drop_first())) by {
            assert forall|a: int, b: int|
                0 <= a < b < names.drop_first().len() implies #[trigger] names.drop_first()[a]
                != #[trigger] names.drop_first()[b] by {
                assert(names[a + 1] != names[b + 1]);
            }
        }
        assert(s.drop_first()[i - 1].0 == k);
        lemma_map_find_update(s.drop_first(), i - 1, k, v, q);
        if s[0].0 == q {
            if q == k {
                assert(names[0] == q);
                assert(names[i] == k);
                assert(false);
            }
        }
    }
}

/// After pushing a new entry, a lookup sees the new value only where no
/// earlier entry carried the key.
proof fn lemma_map_find_push<K, V>(s: Seq<(K, V)>, k: K, v: V, q: K)
    ensures
        map_find(s.push((k, v)), q) == (if map_find(s, q) is Some {
            map_find(s, q)
        } else if q == k {
            Some(v)
        } else {
            None::<V>
        }),
    decreases s.len(),
{
    if s.len() == 0 {
        assert(s.push((k, v))[0] == (k, v));
        assert(s.push((k, v)).drop_first() =~= Seq::<(K, V)>::empty());
    } else {
        assert(s.push((k, v))[0] == s[0]);
        assert(s.push((k, v)).drop_first() =~= s.drop_first().push((k, v)));
        lemma_map_find_push(s.drop_first(), k, v, q);
    }
}

/// After removing a key's entry, a lookup fails on that key and sees
/// every other key unchanged.
proof fn lemma_map_find_remove<K, V>(s: Seq<(K, V)>, i: int, q: K)
    requires
        0 <= i < s.len(),
        seq_distinct(s.map_values(|e: (K, V)| e.0)),
    ensures
        map_find(s.remove(i), q) == (if q == s[i].0 {
            None::<V>
        } else {
            map_find(s, q)
        }),
    decreases s.len(),
{
    let names = s.map_values(|e: (K, V)| e.0);
    if i == 0 {
        assert(s.remove(0) =~= s.drop_first());
        if q == s[0].0 {
            lemma_map_find_membership(s.drop_first(), q);
            if map_find(s.drop_first(), q) is Some {
                let j = choose|j: int|
                    0 <= j < s.drop_first().len() && (#[trigger] s.drop_first()[j]).0 == q;
                assert(names[j + 1] == q);
                assert(names[0] == q);
                assert(false);
            }
        }
    } else {
        assert(s.remove(i)[0] == s[0]);
        assert(s.remove(i).drop_first() =~= s.drop_first().remove(i - 1));
        assert(s.drop_first().map_values(|e: (K, V)| e.0) =~= names.drop_first());
        assert(seq_distinct(names.drop_first())) by {
            assert forall|a: int, b: int|
                0 <= a < b < names.drop_first().len() implies #[trigger] names.drop_first()[a]
                != #[trigger] names.drop_first()[b] by {
                assert(names[a + 1] != names[b + 1]);
            }
        }
        lemma_map_find_remove(s.drop_first(), i - 1, q);
        if s[0].0 == q && q == s[i].0 {
            assert(names[0] == q);
            assert(names[i] == q);
            assert(false);
        }
    }
}

impl Stack {
    /// Returns the program.
    pub fn program(&self) -> (r: &Program)
        ensures
            r@ == self@.program,
    {
        &self.program
    }

    /// Returns the program identifier.
    pub fn program_id(&self) -> (r: &ProgramID)
        ensures
            r@ == self@.program.id,
    {
        &self.program.id
    }

    /// Returns the external stack linked under the given program
    /// identifier, or [`Error::UnknownExternalProgram`] when none is.
    pub fn get_external_stack(&self, program_id: &ProgramID) -> (r: Result<&Stack, Error>)
        ensures
            match map_find(self@.external_stacks, program_id@) {
                Some(st) => (r matches Ok(x) && x@ == st),
                None => r == Err::<&Stack, Error>(Error::UnknownExternalProgram),
            },
    {
        let ghost ev = self@.external_stacks;
        proof {
            assert(ev.skip(0) =~= ev);
        }
        let mut i: usize = 0;
        while i < self.external_stacks.len()
            invariant
                i <= self.external_stacks@.len(),
                ev == self@.external_stacks,
                ev.len() == self.external_stacks@.len(),
                forall|j: int|
                    0 <= j < ev.len() ==> #[trigger] ev[j] == (
                        self.external_stacks@[j].0@,
                        stack_view(&self.external_stacks@[j].1),
                    ),
                map_find(ev.skip(i as int), program_id@) == map_find(ev, program_id@),
            decreases self.external_stacks@.len() - i,
        {
            proof {
                assert(ev.skip(i as int)[0] == ev[i as int]);
            }
            if pid_eq(&self.external_stacks[i].0, program_id) {
                return Ok(&self.external_stacks[i].1);
            }
            proof {
                assert(ev.skip(i as int).drop_first() =~= ev.skip(i as int + 1));
            }
            i = i + 1;
        }
        proof {
            assert(ev.skip(ev.len() as int) =~= Seq::<(ProgramIdV, StackV)>::empty());
        }
        Err(Error::UnknownExternalProgram)
    }

    /// Returns the external program linked under the given identifier.
    /// Fails with [`Error::SelfReferentialExternal`] when the stack's
    /// own program is requested — a program is never external to itself,
    /// whatever else is loaded — and with
    /// [`Error::UnknownExternalProgram`] when no import matches.
    pub fn get_external_program(&self, program_id: &ProgramID) -> (r: Result<&Program, Error>)
        ensures
            program_id@ == self@.program.id ==> r == Err::<&Program, Error>(
                Error::SelfReferentialExternal,
            ),
            program_id@ != self@.program.id ==> match map_find(
                self@.external_stacks,
                program_id@,
            ) {
                Some(st) => (r matches Ok(p) && p@ == st.program),
                None => r == Err::<&Program, Error>(Error::UnknownExternalProgram),
            },
    {
        if pid_eq(&self.program.id, program_id) {
            return Err(Error::SelfReferentialExternal);
        }
        match self.get_external_stack(program_id) {
            Ok(stack) => Ok(&stack.program),
            Err(e) => Err(e),
        }
    }

    /// True when the resolved external program declares the record type
    /// the locator names.  Any resolution failure — the stack's own
    /// program, or an unknown external program — yields `false`, never
    /// an error: record containment is a predicate.
    pub fn contains_external_record(&self, locator: &Locator) -> (r: bool)
        ensures
            r == spec_contains_external_record(self@, locator@),
    {
        match self.get_external_program(&locator.program_id) {
            Ok(external_program) => external_program.contains_record(&locator.resource),
            Err(_) => false,
        }
    }

    /// Returns the record type the locator names in its external
    /// program; fails like `get_external_program`, or with
    /// [`Error::UnknownRecord`] when the program lacks the record.
    pub fn get_external_record(&self, locator: &Locator) -> (r: Result<RecordType, Error>)
        ensures
            locator@.program_id == self@.program.id ==> r == Err::<RecordType, Error>(
                Error::SelfReferentialExternal,
            ),
            locator@.program_id != self@.program.id ==> match map_find(
                self@.external_stacks,
                locator@.program_id,
            ) {
                None => r == Err::<RecordType, Error>(Error::UnknownExternalProgram),
                Some(st) => if seq_contains_name(st.program.records, locator@.resource) {
                    r matches Ok(rec) && rec@ == locator@.resource
                } else {
                    r == Err::<RecordType, Error>(Error::UnknownRecord)
                },
            },
    {
        let external_program = match self.get_external_program(&locator.program_id) {
            Ok(p) => p,
            Err(e) => {
                return Err(e);
            },
        };
        external_program.get_record(&locator.resource)
    }

    /// Returns the function declared under the given name, or
    /// [`Error::UnknownFunction`] when the program does not declare it.
    pub fn get_function(&self, function_name: &Identifier) -> (r: Result<Function, Error>)
        ensures
            contains_fn(self@.program, function_name@) ==> (r matches Ok(f) && Some(f@) == find_fn(
                self@.program,
                function_name@,
            )),
            !contains_fn(self@.program, function_name@) ==> r == Err::<Function, Error>(
                Error::UnknownFunction,
            ),
    {
        self.program.get_function(function_name)
    }

    /// Returns the register types stored for the given closure or
    /// function name, or [`Error::UnknownRegisterTypes`] when none were.
    pub fn get_register_types(&self, name: &Identifier) -> (r: Result<RegisterTypes, Error>)
        ensures
            match map_find(self@.program_types, name@) {
                Some(t) => r == Ok::<RegisterTypes, Error>(t),
                None => r == Err::<RegisterTypes, Error>(Error::UnknownRegisterTypes),
            },
    {
        match find_entry_index(&self.program_types, name) {
            Some(i) => Ok(self.program_types[i].1),
            None => Err(Error::UnknownRegisterTypes),
        }
    }

    /// True when a proving key is cached for the function name.
    pub fn contains_proving_key(&self, function_name: &Identifier) -> (r: bool)
        ensures
            r == map_has(self@.proving_keys, function_name@),
    {
        find_entry_index(&self.proving_keys, function_name).is_some()
    }

    /// True when a verifying key is cached for the function name.
    pub fn contains_verifying_key(&self, function_name: &Identifier) -> (r: bool)
        ensures
            r == map_has(self@.verifying_keys, function_name@),
    {
        find_entry_index(&self.verifying_keys, function_name).is_some()
    }

    /// Returns the cached proving key for the function name, or
    /// [`Error::ProvingKeyNotFound`] when none is cached.
    pub fn get_proving_key(&self, function_name: &Identifier) -> (r: Result<ProvingKey, Error>)
        ensures
            match map_find(self@.proving_keys, function_name@) {
                Some(k) => r == Ok::<ProvingKey, Error>(k),
                None => r == Err::<ProvingKey, Error>(Error::ProvingKeyNotFound),
            },
    {
        match find_entry_index(&self.proving_keys, function_name) {
            Some(i) => Ok(self.proving_keys[i].1),
            None => Err(Error::ProvingKeyNotFound),
        }
    }

    /// Returns the cached verifying key for the function name, or
    /// [`Error::VerifyingKeyNotFound`] when none is cached.
    pub fn get_verifying_key(&self, function_name: &Identifier) -> (r: Result<VerifyingKey, Error>)
        ensures
            match map_find(self@.verifying_keys, function_name@) {
                Some(k) => r == Ok::<VerifyingKey, Error>(k),
                None => r == Err::<VerifyingKey, Error>(Error::VerifyingKeyNotFound),
            },
    {
        match find_entry_index(&self.verifying_keys, function_name) {
            Some(i) => Ok(self.verifying_keys[i].1),
            None => Err(Error::VerifyingKeyNotFound),
        }
    }
}

impl Stack {
    /// Caches the proving key under the function name, overwriting any
    /// cached one.  Fails with [`Error::UnknownFunction`], leaving every
    /// cache unchanged, when the program does not declare the function.
    /// The verifying-key cache, the program, the external stacks and the
    /// register types are never affected.
    pub fn insert_proving_key(&mut self, function_name: &Identifier, proving_key: ProvingKey) -> (r:
        Result<(), Error>)
        requires
            stack_wf(old(self)@),
        ensures
            stack_wf(final(self)@),
            final(self)@.program == old(self)@.program,
            final(self)@.external_stacks == old(self)@.external_stacks,
            final(self)@.program_types == old(self)@.program_types,
            final(self)@.universal_srs == old(self)@.universal_srs,
            final(self)@.verifying_keys == old(self)@.verifying_keys,
            stack_identity(final(self)@) == stack_identity(old(self)@),
            contains_fn(old(self)@.program, function_name@) ==> r == Ok::<(), Error>(())
                && forall|n: Seq<u8>| #[trigger]
                map_find(final(self)@.proving_keys, n) == (if n == function_name@ {
                    Some(proving_key)
                } else {
                    map_find(old(self)@.proving_keys, n)
                }),
            !contains_fn(old(self)@.program, function_name@) ==> r == Err::<(), Error>(
                Error::UnknownFunction,
            ) && final(self)@ == old(self)@,
    {
        let ghost oldv = old(self)@;
        if !self.program.contains_function(function_name) {
            return Err(Error::UnknownFunction);
        }
        let ghost oldkeys = entries_view(self.proving_keys@);
        match find_entry_index(&self.proving_keys, function_name) {
            Some(i) => {
                self.proving_keys[i] = (function_name.clone(), proving_key);
                proof {
                    let newkeys = entries_view(self.proving_keys@);
                    assert(newkeys =~= oldkeys.update(i as int, (function_name@, proving_key)));
                    lemma_map_find_membership(oldkeys, function_name@);
                    assert forall|n: Seq<u8>| #[trigger]
                        map_find(newkeys, n) == (if n == function_name@ {
                            Some(proving_key)
                        } else {
                            map_find(oldkeys, n)
                        }) by {
                        lemma_map_find_update(
                            oldkeys,
                            i as int,
                            function_name@,
                            proving_key,
                            n,
                        );
                    }
                    assert(newkeys.map_values(|e: (Seq<u8>, ProvingKey)| e.0) =~= oldkeys
                        .map_values(|e: (Seq<u8>, ProvingKey)| e.0));
                }
            },
            None => {
                self.proving_keys.push((function_name.clone(), proving_key));
                proof {
                    let newkeys = entries_view(self.proving_keys@);
                    assert(newkeys =~= oldkeys.push((function_name@, proving_key)));
                    assert forall|n: Seq<u8>| #[trigger]
                        map_find(newkeys, n) == (if n == function_name@ {
                            Some(proving_key)
                        } else {
                            map_find(oldkeys, n)
                        }) by {
                        lemma_map_find_push(oldkeys, function_name@, proving_key, n);
                    }
                    lemma_map_find_membership(oldkeys, function_name@);
                    let oldnames = oldkeys.map_values(|e: (Seq<u8>, ProvingKey)| e.0);
                    let newnames = newkeys.map_values(|e: (Seq<u8>, ProvingKey)| e.0);
                    assert(newnames =~= oldnames.push(function_name@));
                    assert(seq_distinct(newnames)) by {
                        assert forall|a: int, b: int|
                            0 <= a < b < newnames.len() implies #[trigger] newnames[a]
                            != #[trigger] newnames[b] by {
                            if b == newnames.len() - 1 {
                                assert(oldkeys[a].0 == oldnames[a]);
                            }
                        }
                    }
                    let j = choose|j: int|
                        0 <= j < oldv.program.functions.len() && (#[trigger] oldv
                            .program
                            .functions[j]).name == function_name@;
                    assert(fn_names(oldv.program)[j] == function_name@);
                }
            },
        }
        proof {
            assert(final(self)@.external_stacks =~= oldv.external_stacks);
            assert(final(self)@.program_types =~= oldv.program_types);
            assert(final(self)@.verifying_keys =~= oldv.verifying_keys);
            lemma_equality_ignores_key_caches(final(self)@, oldv);
        }
        Ok(())
    }

    /// Caches the verifying key under the function name, overwriting any
    /// cached one.  Fails with [`Error::UnknownFunction`], leaving every
    /// cache unchanged, when the program does not declare the function.
    /// The proving-key cache, the program, the external stacks and the
    /// register types are never affected.
    pub fn insert_verifying_key(
        &mut self,
        function_name: &Identifier,
        verifying_key: VerifyingKey,
    ) -> (r: Result<(), Error>)
        requires
            stack_wf(old(self)@),
        ensures
            stack_wf(final(self)@),
            final(self)@.program == old(self)@.program,
            final(self)@.external_stacks == old(self)@.external_stacks,
            final(self)@.program_types == old(self)@.program_types,
            final(self)@.universal_srs == old(self)@.universal_srs,
            final(self)@.proving_keys == old(self)@.proving_keys,
            stack_identity(final(self)@) == stack_identity(old(self)@),
            contains_fn(old(self)@.program, function_name@) ==> r == Ok::<(), Error>(())
                && forall|n: Seq<u8>| #[trigger]
                map_find(final(self)@.verifying_keys, n) == (if n == function_name@ {
                    Some(verifying_key)
                } else {
                    map_find(old(self)@.verifying_keys, n)
                }),
            !contains_fn(old(self)@.program, function_name@) ==> r == Err::<(), Error>(
                Error::UnknownFunction,
            ) && final(self)@ == old(self)@,
    {
        let ghost oldv = old(self)@;
        if !self.program.contains_function(function_name) {
            return Err(Error::UnknownFunction);
        }
        let ghost oldkeys = entries_view(self.verifying_keys@);
        match find_entry_index(&self.verifying_keys, function_name) {
            Some(i) => {
                self.verifying_keys[i] = (function_name.clone(), verifying_key);
                proof {
                    let newkeys = entries_view(self.verifying_keys@);
                    assert(newkeys =~= oldkeys.update(i as int, (function_name@, verifying_key)));
                    lemma_map_find_membership(oldkeys, function_name@);
                    assert forall|n: Seq<u8>| #[trigger]
                        map_find(newkeys, n) == (if n == function_name@ {
                            Some(verifying_key)
                        } else {
                            map_find(oldkeys, n)
                        }) by {
                        lemma_map_find_update(
                            oldkeys,
                            i as int,
                            function_name@,
                            verifying_key,
                            n,
                        );
                    }
                    assert(newkeys.map_values(|e: (Seq<u8>, VerifyingKey)| e.0) =~= oldkeys
                        .map_values(|e: (Seq<u8>, VerifyingKey)| e.0));
                }
            },
            None => {
                self.verifying_keys.push((function_name.clone(), verifying_key));
                proof {
                    let newkeys = entries_view(self.verifying_keys@);
                    assert(newkeys =~= oldkeys.push((function_name@, verifying_key)));
                    assert forall|n: Seq<u8>| #[trigger]
                        map_find(newkeys, n) == (if n == function_name@ {
                            Some(verifying_key)
                        } else {
                            map_find(oldkeys, n)
                        }) by {
                        lemma_map_find_push(oldkeys, function_name@, verifying_key, n);
                    }
                    lemma_map_find_membership(oldkeys, function_name@);
                    let oldnames = oldkeys.map_values(|e: (Seq<u8>, VerifyingKey)| e.0);
                    let newnames = newkeys.map_values(|e: (Seq<u8>, VerifyingKey)| e.0);
                    assert(newnames =~= oldnames.push(function_name@));
                    assert(seq_distinct(newnames)) by {
                        assert forall|a: int, b: int|
                            0 <= a < b < newnames.len() implies #[trigger] newnames[a]
                            != #[trigger] newnames[b] by {
                            if b == newnames.len() - 1 {
                                assert(oldkeys[a].0 == oldnames[a]);
                            }
                        }
                    }
                    let j = choose|j: int|
                        0 <= j < oldv.program.functions.len() && (#[trigger] oldv
                            .program
                            .functions[j]).name == function_name@;
                    assert(fn_names(oldv.program)[j] == function_name@);
                }
            },
        }
        proof {
            assert(final(self)@.external_stacks =~= oldv.external_stacks);
            assert(final(self)@.program_types =~= oldv.program_types);
            assert(final(self)@.proving_keys =~= oldv.proving_keys);
            lemma_equality_ignores_key_caches(final(self)@, oldv);
        }
        Ok(())
    }

    /// Drops the cached proving key for the function name; removing an
    /// absent key is not an error.  Nothing else is affected.
    pub fn remove_proving_key(&mut self, function_name: &Identifier)
        requires
            stack_wf(old(self)@),
        ensures
            stack_wf(final(self)@),
            final(self)@.program == old(self)@.program,
            final(self)@.external_stacks == old(self)@.external_stacks,
            final(self)@.program_types == old(self)@.program_types,
            final(self)@.universal_srs == old(self)@.universal_srs,
            final(self)@.verifying_keys == old(self)@.verifying_keys,
            stack_identity(final(self)@) == stack_identity(old(self)@),
            forall|n: Seq<u8>| #[trigger]
                map_find(final(self)@.proving_keys, n) == (if n == function_name@ {
                    None::<ProvingKey>
                } else {
                    map_find(old(self)@.proving_keys, n)
                }),
    {
        let ghost oldv = old(self)@;
        let ghost oldkeys = entries_view(self.proving_keys@);
        match find_entry_index(&self.proving_keys, function_name) {
            Some(i) => {
                self.proving_keys.remove(i);
                proof {
                    let newkeys = entries_view(self.proving_keys@);
                    assert(newkeys =~= oldkeys.remove(i as int));
                    assert forall|n: Seq<u8>| #[trigger]
                        map_find(newkeys, n) == (if n == function_name@ {
                            None::<ProvingKey>
                        } else {
                            map_find(oldkeys, n)
                        }) by {
                        lemma_map_find_remove(oldkeys, i as int, n);
                    }
                    let oldnames = oldkeys.map_values(|e: (Seq<u8>, ProvingKey)| e.0);
                    let newnames = newkeys.map_values(|e: (Seq<u8>, ProvingKey)| e.0);
                    assert(newnames =~= oldnames.remove(i as int));
                    assert(seq_distinct(newnames)) by {
                        assert forall|a: int, b: int|
                            0 <= a < b < newnames.len() implies #[trigger] newnames[a]
                            != #[trigger] newnames[b] by {
                            let a2: int = if a < i { a } else { a + 1 };
                            let b2: int = if b < i { b } else { b + 1 };
                            assert(oldnames[a2] != oldnames[b2]);
                        }
                    }
                    assert forall|k: int|
                        0 <= k < newkeys.len() implies seq_contains_name(
                        fn_names(oldv.program),
                        (#[trigger] newkeys[k]).0,
                    ) by {
                        let k2: int = if k < i { k } else { k + 1 };
                        assert(oldkeys[k2].0 == newkeys[k].0);
                    }
                }
            },
            None => {
                proof {
                    lemma_map_find_membership(oldkeys, function_name@);
                    assert(entries_view(self.proving_keys@) =~= oldkeys);
                }
            },
        }
        proof {
            assert(final(self)@.external_stacks =~= oldv.external_stacks);
            assert(final(self)@.program_types =~= oldv.program_types);
            assert(final(self)@.verifying_keys =~= oldv.verifying_keys);
            lemma_equality_ignores_key_caches(final(self)@, oldv);
        }
    }

    /// Drops the cached verifying key for the function name; removing an
    /// absent key is not an error.  Nothing else is affected.
    pub fn remove_verifying_key(&mut self, function_name: &Identifier)
        requires
            stack_wf(old(self)@),
        ensures
            stack_wf(final(self)@),
            final(self)@.program == old(self)@.program,
            final(self)@.external_stacks == old(self)@.external_stacks,
            final(self)@.program_types == old(self)@.program_types,
            final(self)@.universal_srs == old(self)@.universal_srs,
            final(self)@.proving_keys == old(self)@.proving_keys,
            stack_identity(final(self)@) == stack_identity(old(self)@),
            forall|n: Seq<u8>| #[trigger]
                map_find(final(self)@.verifying_keys, n) == (if n == function_name@ {
                    None::<VerifyingKey>
                } else {
                    map_find(old(self)@.verifying_keys, n)
                }),
    {
        let ghost oldv = old(self)@;
        let ghost oldkeys = entries_view(self.verifying_keys@);
        match find_entry_index(&self.verifying_keys, function_name) {
            Some(i) => {
                self.verifying_keys.remove(i);
                proof {
                    let newkeys = entries_view(self.verifying_keys@);
                    assert(newkeys =~= oldkeys.remove(i as int));
                    assert forall|n: Seq<u8>| #[trigger]
                        map_find(newkeys, n) == (if n == function_name@ {
                            None::<VerifyingKey>
                        } else {
                            map_find(oldkeys, n)
                        }) by {
                        lemma_map_find_remove(oldkeys, i as int, n);
                    }
                    let oldnames = oldkeys.map_values(|e: (Seq<u8>, VerifyingKey)| e.0);
                    let newnames = newkeys.map_values(|e: (Seq<u8>, VerifyingKey)| e.0);
                    assert(newnames =~= oldnames.remove(i as int));
                    assert(seq_distinct(newnames)) by {
                        assert forall|a: int, b: int|
                            0 <= a < b < newnames.len() implies #[trigger] newnames[a]
                            != #[trigger] newnames[b] by {
                            let a2: int = if a < i { a } else { a + 1 };
                            let b2: int = if b < i { b } else { b + 1 };
                            assert(oldnames[a2] != oldnames[b2]);
                        }
                    }
                    assert forall|k: int|
                        0 <= k < newkeys.len() implies seq_contains_name(
                        fn_names(oldv.program),
                        (#[trigger] newkeys[k]).0,
                    ) by {
                        let k2: int = if k < i { k } else { k + 1 };
                        assert(oldkeys[k2].0 == newkeys[k].0);
                    }
                }
            },
            None => {
                proof {
                    lemma_map_find_membership(oldkeys, function_name@);
                    assert(entries_view(self.verifying_keys@) =~= oldkeys);
                }
            },
        }
        proof {
            assert(final(self)@.external_stacks =~= oldv.external_stacks);
            assert(final(self)@.program_types =~= oldv.program_types);
            assert(final(self)@.proving_keys =~= oldv.proving_keys);
            lemma_equality_ignores_key_caches(final(self)@, oldv);
        }
    }
}

/// Inserting a proving key for one function never affects the cached
/// verifying keys, nor any other function's cached proving key: the
/// caches are isolated from each other and between functions.
pub proof fn lemma_key_cache_isolation(
    pre: StackV,
    post: StackV,
    name: Seq<u8>,
    key: ProvingKey,
)
    requires
        post.verifying_keys == pre.verifying_keys,
        forall|n: Seq<u8>| #[trigger]
            map_find(post.proving_keys, n) == (if n == name {
                Some(key)
            } else {
                map_find(pre.proving_keys, n)
            }),
    ensures
        forall|g: Seq<u8>| #[trigger]
            map_has(post.verifying_keys, g) == map_has(pre.verifying_keys, g),
        forall|g: Seq<u8>|
            g != name ==> #[trigger] map_has(post.proving_keys, g) == map_has(
                pre.proving_keys,
                g,
            ),
        map_find(post.proving_keys, name) == Some(key),
{
}

/// Two inserts into distinct function-key slots never lose each other:
/// after caching a key for one name and then a key for another, both
/// lookups succeed with the key each insert stored.
pub proof fn lemma_distinct_slots_keep_both(
    m0: Seq<(Seq<u8>, ProvingKey)>,
    m1: Seq<(Seq<u8>, ProvingKey)>,
    m2: Seq<(Seq<u8>, ProvingKey)>,
    f1: Seq<u8>,
    k1: ProvingKey,
    f2: Seq<u8>,
    k2: ProvingKey,
)
    requires
        f1 != f2,
        forall|n: Seq<u8>| #[trigger]
            map_find(m1, n) == (if n == f1 {
                Some(k1)
            } else {
                map_find(m0, n)
            }),
        forall|n: Seq<u8>| #[trigger]
            map_find(m2, n) == (if n == f2 {
                Some(k2)
            } else {
                map_find(m1, n)
            }),
    ensures
        map_find(m2, f1) == Some(k1),
        map_find(m2, f2) == Some(k2),
{
}

/// Deep-copies a stack, external stacks included.
fn clone_stack(s: &Stack) -> (r: Stack)
    ensures
        r@ == s@,
    decreases s,
{
    let mut externals: Vec<(ProgramID, Stack)> = Vec::new();
    let mut i: usize = 0;
    while i < s.external_stacks.len()
        invariant
            i <= s.external_stacks@.len(),
            externals@.len() == i,
            forall|j: int|
                0 <= j < i ==> (#[trigger] externals@[j]).0@ == s.external_stacks@[j].0@
                    && externals@[j].1@ == s.external_stacks@[j].1@,
        decreases s.external_stacks@.len() - i,
    {
        let entry = &s.external_stacks[i];
        externals.push((entry.0.clone(), clone_stack(&entry.1)));
        i = i + 1;
    }
    let mut types: Vec<(Identifier, RegisterTypes)> = Vec::new();
    let mut i: usize = 0;
    while i < s.program_types.len()
        invariant
            i <= s.program_types@.len(),
            types@.len() == i,
            forall|j: int|
                0 <= j < i ==> (#[trigger] types@[j]).0@ == s.program_types@[j].0@
                    && types@[j].1 == s.program_types@[j].1,
        decreases s.program_types@.len() - i,
    {
        types.push((s.program_types[i].0.clone(), s.program_types[i].1));
        i = i + 1;
    }
    let mut pkeys: Vec<(Identifier, ProvingKey)> = Vec::new();
    let mut i: usize = 0;
    while i < s.proving_keys.len()
        invariant
            i <= s.proving_keys@.len(),
            pkeys@.len() == i,
            forall|j: int|
                0 <= j < i ==> (#[trigger] pkeys@[j]).0@ == s.proving_keys@[j].0@
                    && pkeys@[j].1 == s.proving_keys@[j].1,
        decreases s.proving_keys@.len() - i,
    {
        pkeys.push((s.proving_keys[i].0.clone(), s.proving_keys[i].1));
        i = i + 1;
    }
    let mut vkeys: Vec<(Identifier, VerifyingKey)> = Vec::new();
    let mut i: usize = 0;
    while i < s.verifying_keys.len()
        invariant
            i <= s.verifying_keys@.len(),
            vkeys@.len() == i,
            forall|j: int|
                0 <= j < i ==> (#[trigger] vkeys@[j]).0@ == s.verifying_keys@[j].0@
                    && vkeys@[j].1 == s.verifying_keys@[j].1,
        decreases s.verifying_keys@.len() - i,
    {
        vkeys.push((s.verifying_keys[i].0.clone(), s.verifying_keys[i].1));
        i = i + 1;
    }
    let r = Stack {
        program: s.program.clone(),
        external_stacks: externals,
        program_types: types,
        universal_srs: s.universal_srs,
        proving_keys: pkeys,
        verifying_keys: vkeys,
    };
    proof {
        assert(r@.external_stacks =~= s@.external_stacks);
        assert(r@.program_types =~= s@.program_types);
        assert(r@.proving_keys =~= s@.proving_keys);
        assert(r@.verifying_keys =~= s@.verifying_keys);
        assert(r@ =~= s@);
    }
    r
}

impl Clone for Stack {
    fn clone(&self) -> (r: Self)
        ensures
            r@ == self@,
    {
        clone_stack(self)
    }
}

/// Compares the cache-independent identities of two stacks.
fn stack_identity_eq(a: &Stack, b: &Stack) -> (r: bool)
    ensures
        r == (stack_identity(a@) == stack_identity(b@)),
    decreases a,
{
    if !program_eq(&a.program, &b.program) {
        return false;
    }
    if a.external_stacks.len() != b.external_stacks.len() {
        proof {
            assert(stack_identity(a@).external_stacks.len() != stack_identity(
                b@,
            ).external_stacks.len());
        }
        return false;
    }
    let mut i: usize = 0;
    while i < a.external_stacks.len()
        invariant
            i <= a.external_stacks@.len(),
            a.external_stacks@.len() == b.external_stacks@.len(),
            a@.program == b@.program,
            forall|j: int|
                0 <= j < i ==> #[trigger] stack_identity(a@).external_stacks[j] == stack_identity(
                    b@,
                ).external_stacks[j],
        decreases a.external_stacks@.len() - i,
    {
        let ea = &a.external_stacks[i];
        let eb = &b.external_stacks[i];
        if !pid_eq(&ea.0, &eb.0) {
            proof {
                assert(stack_identity(a@).external_stacks[i as int].0 != stack_identity(
                    b@,
                ).external_stacks[i as int].0);
            }
            return false;
        }
        if !stack_identity_eq(&ea.1, &eb.1) {
            proof {
                assert(stack_identity(a@).external_stacks[i as int].1 != stack_identity(
                    b@,
                ).external_stacks[i as int].1);
            }
            return false;
        }
        proof {
            assert(stack_identity(a@).external_stacks[i as int] == stack_identity(
                b@,
            ).external_stacks[i as int]);
        }
        i = i + 1;
    }
    if a.program_types.len() != b.program_types.len() {
        proof {
            assert(a@.program_types.len() != b@.program_types.len());
        }
        return false;
    }
    let mut i: usize = 0;
    while i < a.program_types.len()
        invariant
            i <= a.program_types@.len(),
            a.program_types@.len() == b.program_types@.len(),
            a@.program == b@.program,
            a.external_stacks@.len() == b.external_stacks@.len(),
            forall|j: int|
                0 <= j < a.external_stacks@.len() ==> #[trigger] stack_identity(
                    a@,
                ).external_stacks[j] == stack_identity(b@).external_stacks[j],
            forall|j: int| 0 <= j < i ==> #[trigger] a@.program_types[j] == b@.program_types[j],
        decreases a.program_types@.len() - i,
    {
        if !ident_eq(&a.program_types[i].0, &b.program_types[i].0) {
            proof {
                assert(a@.program_types[i as int] != b@.program_types[i as int]);
            }
            return false;
        }
        if a.program_types[i].1 != b.program_types[i].1 {
            proof {
                assert(a@.program_types[i as int] != b@.program_types[i as int]);
            }
            return false;
        }
        proof {
            assert(a@.program_types[i as int] == b@.program_types[i as int]);
        }
        i = i + 1;
    }
    proof {
        assert(stack_identity(a@).external_stacks =~= stack_identity(b@).external_stacks);
        assert(a@.program_types =~= b@.program_types);
        assert(stack_identity(a@) =~= stack_identity(b@));
    }
    true
}

impl PartialEq for Stack {
    /// Stack equality: program, external stacks and register types,
    /// recursively; the key caches and shared parameters are excluded.
    fn eq(&self, other: &Self) -> (r: bool)
        ensures
            r == (stack_identity(self@) == stack_identity(other@)),
    {
        stack_identity_eq(self, other)
    }
}

impl vstd::std_specs::cmp::PartialEqSpecImpl for Stack {
    open spec fn obeys_eq_spec() -> bool {
        true
    }

    open spec fn eq_spec(&self, other: &Stack) -> bool {
        stack_identity(self@) == stack_identity(other@)
    }
}

impl Eq for Stack {

}

/// The mathematical shape of a process.
#[verifier::ext_equal]
pub struct ProcessV {
    /// The shared universal parameters the process hands to new stacks.
    pub universal_srs: UniversalSRS,
    /// The loaded stacks, in load order.
    pub stacks: Seq<StackV>,
}

/// The registry of loaded programs: one stack per program, plus the
/// universal parameters every stack shares.
#[derive(Debug)]
pub struct Process {
    /// The shared universal parameters the process hands to new stacks.
    pub universal_srs: UniversalSRS,
    /// The loaded stacks, in load order.
    pub stacks: Vec<Stack>,
}

impl View for Process {
    type V = ProcessV;

    open spec fn view(&self) -> ProcessV {
        ProcessV {
            universal_srs: self.universal_srs,
            stacks: Seq::new(
                self.stacks@.len(),
                |i: int|
                    if 0 <= i < self.stacks@.len() {
                        stack_view(&self.stacks@[i])
                    } else {
                        arbitrary()
                    },
            ),
        }
    }
}

/// The first loaded stack whose program bears the identifier, if any.
pub open spec fn find_stack_v(ss: Seq<StackV>, id: ProgramIdV) -> Option<StackV>
    decreases ss.len(),
{
    if ss.len() == 0 {
        None
    } else if ss[0].program.id == id {
        Some(ss[0])
    } else {
        find_stack_v(ss.drop_first(), id)
    }
}

/// The process invariant: every loaded stack is well-formed and no two
/// carry the same program identifier.
pub open spec fn process_wf(v: ProcessV) -> bool {
    &&& forall|i: int| 0 <= i < v.stacks.len() ==> stack_wf(#[trigger] v.stacks[i])
    &&& seq_distinct(v.stacks.map_values(|s: StackV| s.program.id))
}

/// In a well-formed process, a found stack is well-formed and bears the
/// identifier it was found under.
pub proof fn lemma_find_stack_wf(ss: Seq<StackV>, id: ProgramIdV)
    requires
        forall|i: int| 0 <= i < ss.len() ==> stack_wf(#[trigger] ss[i]),
    ensures
        find_stack_v(ss, id) matches Some(st) ==> stack_wf(st) && st.program.id == id,
    decreases ss.len(),
{
    if ss.len() == 0 {
    } else if ss[0].program.id == id {
        assert(stack_wf(ss[0]));
    } else {
        assert forall|i: int| 0 <= i < ss.drop_first().len() implies stack_wf(
            #[trigger] ss.drop_first()[i],
        ) by {
            assert(ss.drop_first()[i] == ss[i + 1]);
        }
        lemma_find_stack_wf(ss.drop_first(), id);
    }
}

impl Process {
    /// A process with no programs loaded yet.
    pub fn new(universal_srs: UniversalSRS) -> (r: Process)
        ensures
            r@.universal_srs == universal_srs,
            r@.stacks == Seq::<StackV>::empty(),
            process_wf(r@),
    {
        let r = Process { universal_srs, stacks: Vec::new() };
        proof {
            assert(r@.stacks =~= Seq::<StackV>::empty());
            assert(r@.stacks.map_values(|s: StackV| s.program.id) =~= Seq::<
                ProgramIdV,
            >::empty());
        }
        r
    }

    /// True when a program with the identifier is already loaded.
    pub fn contains_program(&self, program_id: &ProgramID) -> (r: bool)
        ensures
            r == (find_stack_v(self@.stacks, program_id@) is Some),
    {
        let ghost sv = self@.stacks;
        proof {
            assert(sv.skip(0) =~= sv);
        }
        let mut i: usize = 0;
        while i < self.stacks.len()
            invariant
                i <= self.stacks@.len(),
                sv == self@.stacks,
                sv.len() == self.stacks@.len(),
                forall|j: int|
                    0 <= j < sv.len() ==> #[trigger] sv[j] == stack_view(&self.stacks@[j]),
                find_stack_v(sv.skip(i as int), program_id@) == find_stack_v(sv, program_id@),
            decreases self.stacks@.len() - i,
        {
            proof {
                assert(sv.skip(i as int)[0] == sv[i as int]);
            }
            if pid_eq(&self.stacks[i].program.id, program_id) {
                return true;
            }
            proof {
                assert(sv.skip(i as int).drop_first() =~= sv.skip(i as int + 1));
            }
            i = i + 1;
        }
        proof {
            assert(sv.skip(sv.len() as int) =~= Seq::<StackV>::empty());
        }
        false
    }

    /// Returns the loaded stack for the program identifier, or
    /// [`Error::UnknownExternalProgram`] when none is loaded.
    pub fn get_stack(&self, program_id: &ProgramID) -> (r: Result<&Stack, Error>)
        ensures
            match find_stack_v(self@.stacks, program_id@) {
                Some(st) => (r matches Ok(x) && x@ == st),
                None => r == Err::<&Stack, Error>(Error::UnknownExternalProgram),
            },
    {
        let ghost sv = self@.stacks;
        proof {
            assert(sv.skip(0) =~= sv);
        }
        let mut i: usize = 0;
        while i < self.stacks.len()
            invariant
                i <= self.stacks@.len(),
                sv == self@.stacks,
                sv.len() == self.stacks@.len(),
                forall|j: int|
                    0 <= j < sv.len() ==> #[trigger] sv[j] == stack_view(&self.stacks@[j]),
                find_stack_v(sv.skip(i as int), program_id@) == find_stack_v(sv, program_id@),
            decreases self.stacks@.len() - i,
        {
            proof {
                assert(sv.skip(i as int)[0] == sv[i as int]);
            }
            if pid_eq(&self.stacks[i].program.id, program_id) {
                return Ok(&self.stacks[i]);
            }
            proof {
                assert(sv.skip(i as int).drop_first() =~= sv.skip(i as int + 1));
            }
            i = i + 1;
        }
        proof {
            assert(sv.skip(sv.len() as int) =~= Seq::<StackV>::empty());
        }
        Err(Error::UnknownExternalProgram)
    }

    /// Links a validated stack into the program table; fails with
    /// [`Error::ProgramAlreadyExists`] when its identifier is taken.
    pub fn add_stack(&mut self, stack: Stack) -> (r: Result<(), Error>)
        requires
            process_wf(old(self)@),
            stack_wf(stack@),
        ensures
            process_wf(final(self)@),
            final(self)@.universal_srs == old(self)@.universal_srs,
            find_stack_v(old(self)@.stacks, stack@.program.id) is Some ==> r == Err::<(), Error>(
                Error::ProgramAlreadyExists,
            ) && final(self)@ == old(self)@,
            find_stack_v(old(self)@.stacks, stack@.program.id) is None ==> r == Ok::<(), Error>(())
                && final(self)@.stacks == old(self)@.stacks.push(stack@),
    {
        let ghost oldstacks = old(self)@.stacks;
        if self.contains_program(&stack.program.id) {
            proof {
                assert(final(self)@ =~= old(self)@);
            }
            return Err(Error::ProgramAlreadyExists);
        }
        proof {
            lemma_find_stack_none_no_id(oldstacks, stack@.program.id);
        }
        self.stacks.push(stack);
        proof {
            assert(final(self)@.stacks =~= oldstacks.push(stack@));
            let oldids = oldstacks.map_values(|s: StackV| s.program.id);
            let newids = final(self)@.stacks.map_values(|s: StackV| s.program.id);
            assert(newids =~= oldids.push(stack@.program.id));
            assert(seq_distinct(newids)) by {
                assert forall|a: int, b: int|
                    0 <= a < b < newids.len() implies #[trigger] newids[a] != #[trigger] newids[b] by {
                    if b == newids.len() - 1 {
                        assert(oldstacks[a].program.id == oldids[a]);
                    }
                }
            }
        }
        Ok(())
    }
}

/// When no stack is found under an identifier, no loaded stack bears it.
proof fn lemma_find_stack_none_no_id(ss: Seq<StackV>, id: ProgramIdV)
    requires
        find_stack_v(ss, id) is None,
    ensures
        forall|i: int| 0 <= i < ss.len() ==> (#[trigger] ss[i]).program.id != id,
    decreases ss.len(),
{
    if ss.len() > 0 && ss[0].program.id != id {
        lemma_find_stack_none_no_id(ss.drop_first(), id);
        assert forall|i: int| 0 <= i < ss.len() implies (#[trigger] ss[i]).program.id != id by {
            if i > 0 {
                assert(ss.drop_first()[i - 1] == ss[i]);
            }
        }
    }
}

/// The static number of calls a named function accounts for, with a
/// recursion-depth fuel: the function itself counts one, and every
/// `call` whose target is a declared function adds that function's own
/// count, resolved locally or through the named external stack.
pub open spec fn calls_count(v: StackV, name: Seq<u8>, fuel: nat) -> Result<nat, Error>
    decreases fuel, 0int,
{
    if fuel == 0 {
        Err(Error::CallDepthExceeded)
    } else {
        match find_fn(v.program, name) {
            None => Err(Error::UnknownFunction),
            Some(f) => match count_instr_calls(v, f.instructions, (fuel - 1) as nat) {
                Err(e) => Err(e),
                Ok(extra) => Ok(1 + extra),
            },
        }
    }
}

/// The calls one instruction adds: zero unless it is a `call` whose
/// target is a declared function, in which case the callee's own count;
/// a locator that cannot be resolved is an error.
pub open spec fn instr_contribution(v: StackV, ins: InstructionV, fuel: nat) -> Result<nat, Error>
    decreases fuel, 1int,
{
    match ins {
        InstructionV::Operation(_) => Ok(0),
        InstructionV::Call(CallOperatorV::Resource(res)) => {
            if contains_fn(v.program, res) {
                calls_count(v, res, fuel)
            } else {
                Ok(0)
            }
        },
        InstructionV::Call(CallOperatorV::Locator(l)) => {
            if l.program_id == v.program.id {
                Err(Error::SelfReferentialExternal)
            } else {
                match map_find(v.external_stacks, l.program_id) {
                    None => Err(Error::UnknownExternalProgram),
                    Some(ext) => if contains_fn(ext.program, l.resource) {
                        calls_count(ext, l.resource, fuel)
                    } else {
                        Ok(0)
                    },
                }
            }
        },
    }
}

/// The calls the given instructions add, under the stack's resolution
/// rules, with the given fuel for nested counts.  The first failing
/// instruction's error wins.
pub open spec fn count_instr_calls(v: StackV, instrs: Seq<InstructionV>, fuel: nat) -> Result<
    nat,
    Error,
>
    decreases fuel, instrs.len() + 2,
{
    if instrs.len() == 0 {
        Ok(0)
    } else {
        match (
            instr_contribution(v, instrs[0], fuel),
            count_instr_calls(v, instrs.drop_first(), fuel),
        ) {
            (Err(e), _) => Err(e),
            (Ok(c), Err(e)) => Err(e),
            (Ok(c), Ok(r)) => Ok(c + r),
        }
    }
}

/// Addition capped at the largest machine word.
pub open spec fn sat_add(a: nat, b: nat) -> nat {
    if a + b > u64::MAX {
        u64::MAX as nat
    } else {
        a + b
    }
}

/// The recursion fuel a stack affords: one more than the number of
/// functions of this stack and, recursively, of every external stack,
/// capped at the largest machine word.  Any acyclic chain of calls is
/// shorter than this.
pub open spec fn stack_fuel(v: StackV) -> nat
    decreases v, 0int,
{
    sat_add(sat_add(1, v.program.functions.len() as nat), externals_fuel(v.external_stacks, 0))
}

/// The combined fuel of the external stacks from index `i` on.
pub open spec fn externals_fuel(es: Seq<(ProgramIdV, StackV)>, i: int) -> nat
    decreases es, es.len() - i + 1,
{
    if i < 0 || i >= es.len() {
        0
    } else {
        sat_add(stack_fuel(es[i].1), externals_fuel(es, i + 1))
    }
}

/// Addition capped at the largest machine word.
fn sat_add_u64(a: u64, b: u64) -> (r: u64)
    ensures
        r as nat == sat_add(a as nat, b as nat),
{
    if a > u64::MAX - b {
        u64::MAX
    } else {
        a + b
    }
}

/// Computes [`stack_fuel`].
fn stack_fuel_exec(s: &Stack) -> (r: u64)
    ensures
        r as nat == stack_fuel(s@),
    decreases s,
{
    let ghost es = s@.external_stacks;
    let mut acc: u64 = 0;
    let mut i: usize = s.external_stacks.len();
    proof {
        assert(es.len() == s.external_stacks@.len());
    }
    while i > 0
        invariant
            i <= s.external_stacks@.len(),
            es == s@.external_stacks,
            es.len() == s.external_stacks@.len(),
            forall|j: int|
                0 <= j < es.len() ==> #[trigger] es[j] == (
                    s.external_stacks@[j].0@,
                    stack_view(&s.external_stacks@[j].1),
                ),
            acc as nat == externals_fuel(es, i as int),
        decreases i,
    {
        i = i - 1;
        let sub = stack_fuel_exec(&s.external_stacks[i].1);
        acc = sat_add_u64(sub, acc);
    }
    sat_add_u64(sat_add_u64(1, self_fn_count(s)), acc)
}

/// The number of functions the stack's program declares, capped at the
/// largest machine word.
fn self_fn_count(s: &Stack) -> (r: u64)
    ensures
        r as nat == s@.program.functions.len(),
{
    proof {
        assert(s@.program.functions.len() == s.program.functions@.len());
    }
    let n = s.program.functions.len();
    n as u64
}

/// Call counting never reports the machine-word overflow error: that
/// error belongs to the executable counter alone.
proof fn lemma_calls_count_not_toomany(v: StackV, name: Seq<u8>, fuel: nat)
    ensures
        calls_count(v, name, fuel) != Err::<nat, Error>(Error::TooManyCalls),
    decreases fuel, 0int,
{
    if fuel > 0 {
        match find_fn(v.program, name) {
            None => {},
            Some(f) => {
                lemma_count_instrs_not_toomany(v, f.instructions, (fuel - 1) as nat);
            },
        }
    }
}

/// Instruction counting never reports the machine-word overflow error.
proof fn lemma_count_instrs_not_toomany(v: StackV, instrs: Seq<InstructionV>, fuel: nat)
    ensures
        count_instr_calls(v, instrs, fuel) != Err::<nat, Error>(Error::TooManyCalls),
    decreases fuel, instrs.len() + 2,
{
    if instrs.len() > 0 {
        lemma_contribution_not_toomany(v, instrs[0], fuel);
        lemma_count_instrs_not_toomany(v, instrs.drop_first(), fuel);
    }
}

/// One instruction's contribution never reports the machine-word
/// overflow error.
proof fn lemma_contribution_not_toomany(v: StackV, ins: InstructionV, fuel: nat)
    ensures
        instr_contribution(v, ins, fuel) != Err::<nat, Error>(Error::TooManyCalls),
    decreases fuel, 1int,
{
    match ins {
        InstructionV::Operation(_) => {},
        InstructionV::Call(CallOperatorV::Resource(res)) => {
            if contains_fn(v.program, res) {
                lemma_calls_count_not_toomany(v, res, fuel);
            }
        },
        InstructionV::Call(CallOperatorV::Locator(l)) => {
            if l.program_id != v.program.id {
                match map_find(v.external_stacks, l.program_id) {
                    None => {},
                    Some(ext) => {
                        if contains_fn(ext.program, l.resource) {
                            lemma_calls_count_not_toomany(ext, l.resource, fuel);
                        }
                    },
                }
            }
        },
    }
}

/// Counts calls with explicit fuel, mirroring [`calls_count`]; a count
/// that does not fit in a machine word is [`Error::TooManyCalls`].
fn count_calls_fueled(s: &Stack, function_name: &Identifier, fuel: u64) -> (r: Result<u64, Error>)
    ensures
        match calls_count(s@, function_name@, fuel as nat) {
            Ok(n) => if n <= u64::MAX {
                r == Ok::<u64, Error>(n as u64)
            } else {
                r == Err::<u64, Error>(Error::TooManyCalls)
            },
            Err(e) => r == Err::<u64, Error>(e),
        },
    decreases fuel,
{
    if fuel == 0 {
        return Err(Error::CallDepthExceeded);
    }
    proof {
        crate::program::lemma_find_fn_in_membership(s@.program.functions, function_name@);
    }
    let f = match s.program.get_function(function_name) {
        Ok(f) => f,
        Err(_) => {
            return Err(Error::UnknownFunction);
        },
    };
    let ghost f1n = (fuel - 1) as nat;
    let ghost iv = f@.instructions;
    proof {
        assert(iv.skip(0) =~= iv);
    }
    let mut acc: u64 = 1;
    let mut overflowed: bool = false;
    let ghost mut done: nat = 0nat;
    let mut i: usize = 0;
    while i < f.instructions.len()
        invariant
            i <= f.instructions@.len(),
            iv == f@.instructions,
            fuel >= 1,
            f1n == (fuel - 1) as nat,
            find_fn(s@.program, function_name@) == Some(f@),
            count_instr_calls(s@, iv, f1n) == (match count_instr_calls(
                s@,
                iv.skip(i as int),
                f1n,
            ) {
                Ok(rem) => Ok((done + rem) as nat),
                Err(e) => Err::<nat, Error>(e),
            }),
            !overflowed ==> acc as nat == 1 + done,
            overflowed ==> 1 + done > u64::MAX,
        decreases f.instructions@.len() - i,
    {
        proof {
            assert(iv.skip(i as int)[0] == iv[i as int]);
            assert(iv.skip(i as int).drop_first() =~= iv.skip(i as int + 1));
            assert(iv[i as int] == f.instructions@[i as int]@);
        }
        let ghost contribution = instr_contribution(s@, iv[i as int], f1n);
        let mut sub: u64 = 0;
        let ghost mut sub_spec: nat = 0nat;
        let mut sub_overflowed: bool = false;
        match &f.instructions[i] {
            Instruction::Operation(_) => {
                proof {
                    assert(contribution == Ok::<nat, Error>(0nat));
                }
            },
            Instruction::Call(CallOperator::Resource(res)) => {
                if s.program.contains_function(res) {
                    proof {
                        assert(contribution == calls_count(s@, res@, f1n));
                    }
                    match count_calls_fueled(s, res, fuel - 1) {
                        Ok(c) => {
                            sub = c;
                            proof {
                                sub_spec = calls_count(s@, res@, f1n).unwrap();
                            }
                        },
                        Err(e) => {
                            if e == Error::TooManyCalls {
                                sub_overflowed = true;
                                proof {
                                    lemma_calls_count_not_toomany(s@, res@, f1n);
                                    sub_spec = calls_count(s@, res@, f1n).unwrap();
                                }
                            } else {
                                proof {
                                    assert(contribution == Err::<nat, Error>(e));
                                    assert(count_instr_calls(s@, iv.skip(i as int), f1n) == Err::<
                                        nat,
                                        Error,
                                    >(e));
                                    assert(count_instr_calls(s@, iv, f1n) == Err::<nat, Error>(e));
                                    reveal_with_fuel(calls_count, 2);
                                    assert(calls_count(s@, function_name@, fuel as nat) == Err::<
                                        nat,
                                        Error,
                                    >(e));
                                }
                                return Err(e);
                            }
                        },
                    }
                } else {
                    proof {
                        assert(contribution == Ok::<nat, Error>(0nat));
                    }
                }
            },
            Instruction::Call(CallOperator::Locator(l)) => {
                if pid_eq(&l.program_id, &s.program.id) {
                    proof {
                        assert(contribution == Err::<nat, Error>(Error::SelfReferentialExternal));
                        assert(count_instr_calls(s@, iv.skip(i as int), f1n) == Err::<nat, Error>(
                            Error::SelfReferentialExternal,
                        ));
                        assert(count_instr_calls(s@, iv, f1n) == Err::<nat, Error>(
                            Error::SelfReferentialExternal,
                        ));
                        assert(calls_count(s@, function_name@, fuel as nat) == Err::<nat, Error>(
                            Error::SelfReferentialExternal,
                        ));
                    }
                    return Err(Error::SelfReferentialExternal);
                }
                let ext = match s.get_external_stack(&l.program_id) {
                    Ok(ext) => ext,
                    Err(_) => {
                        proof {
                            assert(contribution == Err::<nat, Error>(
                                Error::UnknownExternalProgram,
                            ));
                            assert(count_instr_calls(s@, iv.skip(i as int), f1n) == Err::<
                                nat,
                                Error,
                            >(Error::UnknownExternalProgram));
                            assert(count_instr_calls(s@, iv, f1n) == Err::<nat, Error>(
                                Error::UnknownExternalProgram,
                            ));
                            assert(calls_count(s@, function_name@, fuel as nat) == Err::<
                                nat,
                                Error,
                            >(Error::UnknownExternalProgram));
                        }
                        return Err(Error::UnknownExternalProgram);
                    },
                };
                if ext.program.contains_function(&l.resource) {
                    proof {
                        assert(contribution == calls_count(ext@, l@.resource, f1n));
                    }
                    match count_calls_fueled(ext, &l.resource, fuel - 1) {
                        Ok(c) => {
                            sub = c;
                            proof {
                                sub_spec = calls_count(ext@, l@.resource, f1n).unwrap();
                            }
                        },
                        Err(e) => {
                            if e == Error::TooManyCalls {
                                sub_overflowed = true;
                                proof {
                                    lemma_calls_count_not_toomany(ext@, l@.resource, f1n);
                                    sub_spec = calls_count(ext@, l@.resource, f1n).unwrap();
                                }
                            } else {
                                proof {
                                    assert(contribution == Err::<nat, Error>(e));
                                    assert(count_instr_calls(s@, iv.skip(i as int), f1n) == Err::<
                                        nat,
                                        Error,
                                    >(e));
                                    assert(count_instr_calls(s@, iv, f1n) == Err::<nat, Error>(e));
                                    reveal_with_fuel(calls_count, 2);
                                    assert(calls_count(s@, function_name@, fuel as nat) == Err::<
                                        nat,
                                        Error,
                                    >(e));
                                }
                                return Err(e);
                            }
                        },
                    }
                } else {
                    proof {
                        assert(contribution == Ok::<nat, Error>(0nat));
                    }
                }
            },
        }
        proof {
            assert(contribution == Ok::<nat, Error>(sub_spec));
            assert(sub_overflowed ==> sub_spec > u64::MAX);
            assert(!sub_overflowed ==> sub as nat == sub_spec);
            assert(count_instr_calls(s@, iv.skip(i as int), f1n) == (match count_instr_calls(
                s@,
                iv.skip(i as int + 1),
                f1n,
            ) {
                Ok(rem) => Ok::<nat, Error>((sub_spec + rem) as nat),
                Err(e) => Err::<nat, Error>(e),
            }));
            done = done + sub_spec;
        }
        if sub_overflowed {
            overflowed = true;
        } else if !overflowed {
            if acc > u64::MAX - sub {
                overflowed = true;
            } else {
                acc = acc + sub;
            }
        }
        i = i + 1;
    }
    proof {
        assert(iv.skip(iv.len() as int) =~= Seq::<InstructionV>::empty());
        assert(count_instr_calls(s@, iv, f1n) == Ok::<nat, Error>(done));
        assert(calls_count(s@, function_name@, fuel as nat) == Ok::<nat, Error>((1 + done) as nat));
    }
    if overflowed {
        Err(Error::TooManyCalls)
    } else {
        Ok(acc)
    }
}

impl Stack {
    /// Returns the static number of calls the named function accounts
    /// for: the function itself, plus, for every `call` whose target is
    /// a declared function, the callee's own count, resolved locally or
    /// through the named external stack.  The recursion fuel
    /// [`stack_fuel`] exceeds the depth of any acyclic call chain, so
    /// [`Error::CallDepthExceeded`] can only mean a cyclic import or
    /// call graph, which upstream loading must rule out.
    pub fn get_number_of_calls(&self, function_name: &Identifier) -> (r: Result<u64, Error>)
        ensures
            match calls_count(self@, function_name@, stack_fuel(self@)) {
                Ok(n) => if n <= u64::MAX {
                    r == Ok::<u64, Error>(n as u64)
                } else {
                    r == Err::<u64, Error>(Error::TooManyCalls)
                },
                Err(e) => r == Err::<u64, Error>(e),
            },
    {
        let fuel = stack_fuel_exec(self);
        count_calls_fueled(self, function_name, fuel)
    }
}

/// A sequence of instructions none of which is a `call` adds no calls.
pub proof fn lemma_count_ops_only(v: StackV, instrs: Seq<InstructionV>, fuel: nat)
    requires
        forall|j: int|
            0 <= j < instrs.len() ==> (#[trigger] instrs[j]) matches InstructionV::Operation(_),
    ensures
        count_instr_calls(v, instrs, fuel) == Ok::<nat, Error>(0nat),
    decreases instrs.len(),
{
    if instrs.len() > 0 {
        assert(instrs[0] matches InstructionV::Operation(_));
        assert(instr_contribution(v, instrs[0], fuel) == Ok::<nat, Error>(0nat));
        assert forall|j: int|
            0 <= j < instrs.drop_first().len() implies (#[trigger] instrs.drop_first()[j]) matches
            InstructionV::Operation(_) by {
            assert(instrs.drop_first()[j] == instrs[j + 1]);
        }
        lemma_count_ops_only(v, instrs.drop_first(), fuel);
        assert(count_instr_calls(v, instrs.drop_first(), fuel) == Ok::<nat, Error>(0nat));
        assert(count_instr_calls(v, instrs, fuel) == Ok::<nat, Error>(0nat));
    }
}

/// A function with no `call` instructions accounts for exactly one
/// call: itself.
pub proof fn lemma_count_no_calls(v: StackV, name: Seq<u8>, f: FunctionV, fuel: nat)
    requires
        fuel >= 1,
        find_fn(v.program, name) == Some(f),
        forall|j: int|
            0 <= j < f.instructions.len() ==> (#[trigger] f.instructions[j]) matches
                InstructionV::Operation(_),
    ensures
        calls_count(v, name, fuel) == Ok::<nat, Error>(1nat),
{
    lemma_count_ops_only(v, f.instructions, (fuel - 1) as nat);
}

/// Instructions that are all operations except a single `call` add
/// exactly that call's contribution.
pub proof fn lemma_count_single_call_instrs(
    v: StackV,
    instrs: Seq<InstructionV>,
    k: int,
    n: nat,
    fuel: nat,
)
    requires
        0 <= k < instrs.len(),
        instr_contribution(v, instrs[k], fuel) == Ok::<nat, Error>(n),
        forall|j: int|
            0 <= j < instrs.len() && j != k ==> (#[trigger] instrs[j]) matches
                InstructionV::Operation(_),
    ensures
        count_instr_calls(v, instrs, fuel) == Ok::<nat, Error>(n),
    decreases instrs.len(),
{
    if k == 0 {
        assert forall|j: int|
            0 <= j < instrs.drop_first().len() implies (#[trigger] instrs.drop_first()[j]) matches
            InstructionV::Operation(_) by {
            assert(instrs.drop_first()[j] == instrs[j + 1]);
        }
        lemma_count_ops_only(v, instrs.drop_first(), fuel);
        assert(count_instr_calls(v, instrs.drop_first(), fuel) == Ok::<nat, Error>(0nat));
        assert(count_instr_calls(v, instrs, fuel) == Ok::<nat, Error>((n + 0) as nat));
    } else {
        assert(instrs[0] matches InstructionV::Operation(_));
        assert(instr_contribution(v, instrs[0], fuel) == Ok::<nat, Error>(0nat));
        assert(instrs.drop_first()[k - 1] == instrs[k]);
        assert forall|j: int|
            0 <= j < instrs.drop_first().len() && j != k - 1 implies (
        #[trigger] instrs.drop_first()[j]) matches InstructionV::Operation(_) by {
            assert(instrs.drop_first()[j] == instrs[j + 1]);
        }
        lemma_count_single_call_instrs(v, instrs.drop_first(), k - 1, n, fuel);
        assert(count_instr_calls(v, instrs, fuel) == Ok::<nat, Error>((0 + n) as nat));
    }
}

/// A function whose only `call` targets a declared local function with
/// count `n` accounts for `n + 1` calls.
pub proof fn lemma_count_single_local_call(
    v: StackV,
    name: Seq<u8>,
    f: FunctionV,
    k: int,
    callee: Seq<u8>,
    n: nat,
    fuel: nat,
)
    requires
        fuel >= 1,
        find_fn(v.program, name) == Some(f),
        0 <= k < f.instructions.len(),
        f.instructions[k] == InstructionV::Call(CallOperatorV::Resource(callee)),
        forall|j: int|
            0 <= j < f.instructions.len() && j != k ==> (#[trigger] f.instructions[j]) matches
                InstructionV::Operation(_),
        contains_fn(v.program, callee),
        calls_count(v, callee, (fuel - 1) as nat) == Ok::<nat, Error>(n),
    ensures
        calls_count(v, name, fuel) == Ok::<nat, Error>((n + 1) as nat),
{
    lemma_count_single_call_instrs(v, f.instructions, k, n, (fuel - 1) as nat);
}

/// A function whose only `call` targets, through an external stack, a
/// declared function with count `n` accounts for `n + 1` calls.
pub proof fn lemma_count_single_external_call(
    v: StackV,
    name: Seq<u8>,
    f: FunctionV,
    k: int,
    target: LocatorV,
    ext: StackV,
    n: nat,
    fuel: nat,
)
    requires
        fuel >= 1,
        find_fn(v.program, name) == Some(f),
        0 <= k < f.instructions.len(),
        f.instructions[k] == InstructionV::Call(CallOperatorV::Locator(target)),
        forall|j: int|
            0 <= j < f.instructions.len() && j != k ==> (#[trigger] f.instructions[j]) matches
                InstructionV::Operation(_),
        target.program_id != v.program.id,
        map_find(v.external_stacks, target.program_id) == Some(ext),
        contains_fn(ext.program, target.resource),
        calls_count(ext, target.resource, (fuel - 1) as nat) == Ok::<nat, Error>(n),
    ensures
        calls_count(v, name, fuel) == Ok::<nat, Error>((n + 1) as nat),
{
    lemma_count_single_call_instrs(v, f.instructions, k, n, (fuel - 1) as nat);
}

/// The conditions under which a stack can be built: no program with
/// this identifier is loaded yet, the identifier carries this network's
/// domain, at least one function is declared, the program is
/// well-formed — which makes both serialization round trips succeed —
/// and every import is already loaded.
pub open spec fn new_checks_pass(proc: ProcessV, p: ProgramV) -> bool {
    &&& find_stack_v(proc.stacks, p.id) is None
    &&& p.id.network == crate::ident::network_domain()
    &&& p.functions.len() >= 1
    &&& prog_wf(p)
    &&& forall|i: int|
        0 <= i < p.imports.len() ==> find_stack_v(proc.stacks, #[trigger] p.imports[i]) is Some
}

/// The error stack construction reports, by the first failing check.
pub open spec fn new_error(proc: ProcessV, p: ProgramV) -> Error {
    if find_stack_v(proc.stacks, p.id) is Some {
        Error::ProgramAlreadyExists
    } else if p.id.network != crate::ident::network_domain() {
        Error::IncorrectNetworkDomain
    } else if p.functions.len() == 0 {
        Error::NoFunctions
    } else if !prog_wf(p) {
        Error::MalformedProgram
    } else {
        Error::UnknownExternalProgram
    }
}

impl Stack {
    /// Builds and links a stack for the program within the process.
    /// The program must not already be loaded, must carry this
    /// network's domain, must declare a function, and must survive a
    /// byte and a text serialization round trip — the guard against a
    /// deployed program's canonical bytes diverging from the object
    /// being proved over.  Only then are the external stacks resolved
    /// from the process, one per import; the key caches start empty.
    #[verifier::rlimit(100)]
    #[verifier::spinoff_prover]
    pub fn new(process: &Process, program: &Program) -> (r: Result<Stack, Error>)
        requires
            process_wf(process@),
        ensures
            new_checks_pass(process@, program@) ==> (r matches Ok(st) && stack_wf(st@)
                && st@.program == program@ && st@.universal_srs == process@.universal_srs
                && st@.proving_keys.len() == 0 && st@.verifying_keys.len() == 0
                && st@.program_types == declared_types(program@) && st@.external_stacks.len()
                == program@.imports.len() && forall|i: int|
                0 <= i < program@.imports.len() ==> #[trigger] st@.external_stacks[i] == (
                    program@.imports[i],
                    find_stack_v(process@.stacks, program@.imports[i]).unwrap(),
                )),
            !new_checks_pass(process@, program@) ==> r == Err::<Stack, Error>(
                new_error(process@, program@),
            ),
    {
        if process.contains_program(&program.id) {
            return Err(Error::ProgramAlreadyExists);
        }
        if !program.id.is_aleo() {
            return Err(Error::IncorrectNetworkDomain);
        }
        if program.functions.len() == 0 {
            proof {
                assert(program@.functions.len() == 0);
            }
            return Err(Error::NoFunctions);
        }
        proof {
            assert(program@.functions.len() >= 1);
        }
        // Canonical byte form: serialize, reread, compare.
        let bytes = match program.to_bytes() {
            Ok(b) => b,
            Err(e) => {
                return Err(Error::MalformedProgram);
            },
        };
        proof {
            crate::bytes::lemma_bytes_round_trip(program@);
        }
        let decoded = match Program::from_bytes(&bytes) {
            Ok(p) => p,
            Err(_) => {
                return Err(Error::MalformedProgram);
            },
        };
        if !program_eq(program, &decoded) {
            return Err(Error::MalformedProgram);
        }
        // Canonical text form: serialize, reread, compare.
        proof {
            crate::text::lemma_text_round_trip(program@);
        }
        let text = match program.to_text() {
            Ok(t) => t,
            Err(_) => {
                return Err(Error::MalformedProgram);
            },
        };
        let reparsed = match Program::from_text(&text) {
            Ok(p) => p,
            Err(_) => {
                return Err(Error::MalformedProgram);
            },
        };
        if !program_eq(program, &reparsed) {
            return Err(Error::MalformedProgram);
        }
        // Resolve one external stack per import, in declaration order.
        let mut externals: Vec<(ProgramID, Stack)> = Vec::new();
        let mut i: usize = 0;
        while i < program.imports.len()
            invariant
                i <= program.imports@.len(),
                process_wf(process@),
                find_stack_v(process@.stacks, program@.id) is None,
                program@.id.network == crate::ident::network_domain(),
                program@.functions.len() >= 1,
                prog_wf(program@),
                externals@.len() == i,
                forall|j: int|
                    0 <= j < i ==> find_stack_v(
                        process@.stacks,
                        #[trigger] program@.imports[j],
                    ) is Some,
                forall|j: int|
                    0 <= j < i ==> (#[trigger] externals@[j]).0@ == program@.imports[j]
                        && externals@[j].1@ == find_stack_v(
                        process@.stacks,
                        program@.imports[j],
                    ).unwrap(),
            decreases program.imports@.len() - i,
        {
            let import_id = &program.imports[i];
            let source = match process.get_stack(import_id) {
                Ok(st) => st,
                Err(_) => {
                    proof {
                        assert(find_stack_v(process@.stacks, program@.imports[i as int])
                            is None);
                    }
                    return Err(Error::UnknownExternalProgram);
                },
            };
            externals.push((import_id.clone(), source.clone()));
            i = i + 1;
        }
        // One register-types entry per declared function, then closure.
        let mut types: Vec<(Identifier, RegisterTypes)> = Vec::new();
        let mut i: usize = 0;
        while i < program.functions.len()
            invariant
                i <= program.functions@.len(),
                types@.len() == i,
                forall|j: int|
                    0 <= j < i ==> (#[trigger] types@[j]).0@ == program@.functions[j].name
                        && types@[j].1 == (RegisterTypes { is_closure: false }),
            decreases program.functions@.len() - i,
        {
            types.push((program.functions[i].name.clone(), RegisterTypes { is_closure: false }));
            i = i + 1;
        }
        let flen = program.functions.len();
        let mut i: usize = 0;
        while i < program.closures.len()
            invariant
                i <= program.closures@.len(),
                flen == program.functions@.len(),
                types@.len() == flen + i,
                forall|j: int|
                    0 <= j < flen ==> (#[trigger] types@[j]).0@ == program@.functions[j].name
                        && types@[j].1 == (RegisterTypes { is_closure: false }),
                forall|j: int|
                    0 <= j < i ==> (#[trigger] types@[flen + j]).0@ == program@.closures[j]
                        && types@[flen + j].1 == (RegisterTypes { is_closure: true }),
            decreases program.closures@.len() - i,
        {
            types.push((program.closures[i].clone(), RegisterTypes { is_closure: true }));
            i = i + 1;
        }
        let stack = Stack {
            program: program.clone(),
            external_stacks: externals,
            program_types: types,
            universal_srs: process.universal_srs,
            proving_keys: Vec::new(),
            verifying_keys: Vec::new(),
        };
        proof {
            let sv = stack@;
            assert(sv.program == program@);
            assert forall|j: int|
                0 <= j < sv.program_types.len() implies #[trigger] sv.program_types[j]
                == declared_types(program@)[j] by {
                if j < flen {
                    assert(types@[j].0@ == program@.functions[j].name);
                } else {
                    assert(types@[flen + (j - flen)].0@ == program@.closures[j - flen]);
                }
            }
            assert(sv.program_types =~= declared_types(program@));
            assert(sv.proving_keys =~= Seq::<(Seq<u8>, ProvingKey)>::empty());
            assert(sv.verifying_keys =~= Seq::<(Seq<u8>, VerifyingKey)>::empty());
            assert(sv.proving_keys.map_values(|e: (Seq<u8>, ProvingKey)| e.0) =~= Seq::<
                Seq<u8>,
            >::empty());
            assert(sv.verifying_keys.map_values(|e: (Seq<u8>, VerifyingKey)| e.0) =~= Seq::<
                Seq<u8>,
            >::empty());
            assert forall|j: int| 0 <= j < sv.external_stacks.len() implies {
                &&& (#[trigger] sv.external_stacks[j]).0 == sv.program.imports[j]
                &&& sv.external_stacks[j].1.program.id == sv.external_stacks[j].0
                &&& stack_wf(sv.external_stacks[j].1)
            } by {
                assert(sv.external_stacks[j] == (externals@[j].0@, stack_view(&externals@[j].1)));
                lemma_find_stack_wf(process@.stacks, program@.imports[j]);
            }
            assert(stack_wf(sv));
        }
        Ok(stack)
    }
}

/// True when the resolved external program of the locator declares its
/// record type; false on any resolution failure.
pub open spec fn spec_contains_external_record(v: StackV, l: LocatorV) -> bool {
    if l.program_id == v.program.id {
        false
    } else {
        match map_find(v.external_stacks, l.program_id) {
            None => false,
            Some(st) => seq_contains_name(st.program.records, l.resource),
        }
    }
}

} // verus!
