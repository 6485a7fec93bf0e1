use program_stack::errors::Error;
use program_stack::ident::Identifier;
use program_stack::ident::Locator;
use program_stack::ident::ProgramID;
use program_stack::program::CallOperator;
use program_stack::program::Function;
use program_stack::program::Instruction;
use program_stack::program::Program;
use program_stack::program::RecordType;
use program_stack::stack::Process;
use program_stack::stack::ProvingKey;
use program_stack::stack::Stack;
use program_stack::stack::UniversalSRS;
use program_stack::stack::VerifyingKey;

fn ident(s: &str) -> Identifier {
    Identifier { bytes: s.as_bytes().to_vec() }
}

fn pid(name: &str, network: &str) -> ProgramID {
    ProgramID { name: ident(name), network: ident(network) }
}

fn srs() -> UniversalSRS {
    UniversalSRS { degree: 1024 }
}

fn no_call_function(name: &str) -> Function {
    Function { name: ident(name), instructions: vec![Instruction::Operation(ident("seal"))] }
}

fn local_call(callee: &str) -> Instruction {
    Instruction::Call(CallOperator::Resource(ident(callee)))
}

fn external_call(program: &str, resource: &str) -> Instruction {
    Instruction::Call(CallOperator::Locator(Locator {
        program_id: pid(program, "aleo"),
        resource: ident(resource),
    }))
}

/// A program named `bar.aleo` with functions `h` (count 1) and
/// `h2` (calls `h`, count 2), a closure and a record type.
fn bar_program() -> Program {
    Program {
        id: pid("bar", "aleo"),
        imports: vec![],
        functions: vec![
            no_call_function("h"),
            Function { name: ident("h2"), instructions: vec![local_call("h")] },
        ],
        closures: vec![ident("fold")],
        records: vec![RecordType { name: ident("token") }],
    }
}

/// A program named `foo.aleo` importing `bar.aleo`.
fn foo_program() -> Program {
    Program {
        id: pid("foo", "aleo"),
        imports: vec![pid("bar", "aleo")],
        functions: vec![
            no_call_function("f"),
            // Two calls of `f`: count 3.
            Function {
                name: ident("three"),
                instructions: vec![local_call("f"), local_call("f")],
            },
            // One call of `three`: count 4.
            Function { name: ident("four"), instructions: vec![local_call("three")] },
            // One call through the import of `h2` (count 2): count 3.
            Function {
                name: ident("crossing"),
                instructions: vec![external_call("bar", "h2")],
            },
            // A call of a closure adds nothing.
            Function {
                name: ident("uses_closure"),
                instructions: vec![Instruction::Call(CallOperator::Resource(ident("fold_here")))],
            },
        ],
        closures: vec![ident("fold_here")],
        records: vec![],
    }
}

fn loaded_process() -> Process {
    let mut process = Process::new(srs());
    let bar = Stack::new(&process, &bar_program()).unwrap();
    process.add_stack(bar).unwrap();
    process
}

#[test]
fn construction_validates_its_preconditions() {
    let mut process = loaded_process();
    // Duplicate program identifier.
    assert_eq!(
        Stack::new(&process, &bar_program()).unwrap_err(),
        Error::ProgramAlreadyExists
    );
    // Wrong network-level domain.
    let mut wrong = bar_program();
    wrong.id = pid("bar2", "mainnet");
    assert_eq!(Stack::new(&process, &wrong).unwrap_err(), Error::IncorrectNetworkDomain);
    // No functions.
    let empty = Program {
        id: pid("empty", "aleo"),
        imports: vec![],
        functions: vec![],
        closures: vec![],
        records: vec![],
    };
    assert_eq!(Stack::new(&process, &empty).unwrap_err(), Error::NoFunctions);
    // Malformed: duplicate declared names break the canonical forms.
    let mut malformed = foo_program();
    malformed.id = pid("dup", "aleo");
    malformed.closures.push(ident("f"));
    assert_eq!(Stack::new(&process, &malformed).unwrap_err(), Error::MalformedProgram);
    // Missing import.
    let mut orphan = foo_program();
    orphan.id = pid("orphan", "aleo");
    orphan.imports = vec![pid("absent", "aleo")];
    assert_eq!(Stack::new(&process, &orphan).unwrap_err(), Error::UnknownExternalProgram);
    // The well-formed program links.
    let foo = Stack::new(&process, &foo_program()).unwrap();
    assert_eq!(foo.program_id(), &pid("foo", "aleo"));
    process.add_stack(foo).unwrap();
}

#[test]
fn lookups_resolve_or_fail_cleanly() {
    let process = loaded_process();
    let foo = Stack::new(&process, &foo_program()).unwrap();
    assert!(foo.program().contains_function(&ident("f")));
    assert_eq!(foo.get_function(&ident("f")).unwrap().name, ident("f"));
    assert_eq!(foo.get_function(&ident("absent")).unwrap_err(), Error::UnknownFunction);
    // Register types exist for every declared function and closure.
    assert!(!foo.get_register_types(&ident("f")).unwrap().is_closure);
    assert!(foo.get_register_types(&ident("fold_here")).unwrap().is_closure);
    assert_eq!(
        foo.get_register_types(&ident("absent")).unwrap_err(),
        Error::UnknownRegisterTypes
    );
    // External resolution.
    let bar_id = pid("bar", "aleo");
    assert_eq!(foo.get_external_stack(&bar_id).unwrap().program_id(), &bar_id);
    assert_eq!(foo.get_external_program(&bar_id).unwrap().id(), &bar_id);
    assert_eq!(
        foo.get_external_stack(&pid("nope", "aleo")).unwrap_err(),
        Error::UnknownExternalProgram
    );
    let token = Locator { program_id: bar_id.clone(), resource: ident("token") };
    assert!(foo.contains_external_record(&token));
    assert_eq!(foo.get_external_record(&token).unwrap().name, ident("token"));
    let missing = Locator { program_id: bar_id, resource: ident("nope") };
    assert!(!foo.contains_external_record(&missing));
    assert_eq!(foo.get_external_record(&missing).unwrap_err(), Error::UnknownRecord);
}

#[test]
fn own_program_is_never_external() {
    let process = loaded_process();
    let foo = Stack::new(&process, &foo_program()).unwrap();
    let own = pid("foo", "aleo");
    assert_eq!(
        foo.get_external_program(&own).unwrap_err(),
        Error::SelfReferentialExternal
    );
    let own_locator = Locator { program_id: pid("foo", "aleo"), resource: ident("token") };
    assert!(!foo.contains_external_record(&own_locator));
}

#[test]
fn call_graph_counting() {
    let process = loaded_process();
    let foo = Stack::new(&process, &foo_program()).unwrap();
    assert_eq!(foo.get_number_of_calls(&ident("f")).unwrap(), 1);
    assert_eq!(foo.get_number_of_calls(&ident("three")).unwrap(), 3);
    assert_eq!(foo.get_number_of_calls(&ident("four")).unwrap(), 4);
    assert_eq!(foo.get_number_of_calls(&ident("crossing")).unwrap(), 3);
    assert_eq!(foo.get_number_of_calls(&ident("uses_closure")).unwrap(), 1);
    assert_eq!(
        foo.get_number_of_calls(&ident("absent")).unwrap_err(),
        Error::UnknownFunction
    );
}

#[test]
fn stack_equality_ignores_key_caches() {
    let process = loaded_process();
    let mut one = Stack::new(&process, &foo_program()).unwrap();
    let two = Stack::new(&process, &foo_program()).unwrap();
    assert!(one == two);
    one.insert_proving_key(&ident("f"), ProvingKey { key_id: 9 }).unwrap();
    one.insert_verifying_key(&ident("f"), VerifyingKey { key_id: 10 }).unwrap();
    assert!(one == two);
    // A different program is a different stack.
    let other = Stack::new(&process, &bar_program());
    assert_eq!(other.unwrap_err(), Error::ProgramAlreadyExists);
}

#[test]
fn key_caches_are_isolated() {
    let process = loaded_process();
    let mut foo = Stack::new(&process, &foo_program()).unwrap();
    foo.insert_proving_key(&ident("f"), ProvingKey { key_id: 1 }).unwrap();
    // The verifying-key cache and other functions are untouched.
    assert!(foo.contains_proving_key(&ident("f")));
    assert!(!foo.contains_verifying_key(&ident("f")));
    assert!(!foo.contains_proving_key(&ident("three")));
    // Distinct slots keep both keys.
    foo.insert_proving_key(&ident("three"), ProvingKey { key_id: 2 }).unwrap();
    assert_eq!(foo.get_proving_key(&ident("f")).unwrap(), ProvingKey { key_id: 1 });
    assert_eq!(foo.get_proving_key(&ident("three")).unwrap(), ProvingKey { key_id: 2 });
    // Overwrite semantics.
    foo.insert_proving_key(&ident("f"), ProvingKey { key_id: 3 }).unwrap();
    assert_eq!(foo.get_proving_key(&ident("f")).unwrap(), ProvingKey { key_id: 3 });
}

#[test]
fn key_insertion_rejects_unknown_functions() {
    let process = loaded_process();
    let mut foo = Stack::new(&process, &foo_program()).unwrap();
    assert_eq!(
        foo.insert_proving_key(&ident("absent"), ProvingKey { key_id: 1 }).unwrap_err(),
        Error::UnknownFunction
    );
    assert!(!foo.contains_proving_key(&ident("absent")));
    assert_eq!(
        foo.insert_verifying_key(&ident("fold_here"), VerifyingKey { key_id: 1 }).unwrap_err(),
        Error::UnknownFunction
    );
}

#[test]
fn key_removal_is_idempotent() {
    let process = loaded_process();
    let mut foo = Stack::new(&process, &foo_program()).unwrap();
    foo.insert_proving_key(&ident("f"), ProvingKey { key_id: 1 }).unwrap();
    foo.insert_verifying_key(&ident("f"), VerifyingKey { key_id: 2 }).unwrap();
    foo.remove_proving_key(&ident("f"));
    assert!(!foo.contains_proving_key(&ident("f")));
    assert!(foo.contains_verifying_key(&ident("f")));
    foo.remove_proving_key(&ident("f"));
    foo.remove_verifying_key(&ident("f"));
    assert!(!foo.contains_verifying_key(&ident("f")));
    assert_eq!(foo.get_proving_key(&ident("f")).unwrap_err(), Error::ProvingKeyNotFound);
    assert_eq!(
        foo.get_verifying_key(&ident("f")).unwrap_err(),
        Error::VerifyingKeyNotFound
    );
}

#[test]
fn counting_reports_resolution_failures() {
    let process = loaded_process();
    let mut selfish = foo_program();
    selfish.id = pid("selfish", "aleo");
    selfish.functions.push(Function {
        name: ident("loopback"),
        instructions: vec![external_call("selfish", "f")],
    });
    let stack = Stack::new(&process, &selfish).unwrap();
    assert_eq!(
        stack.get_number_of_calls(&ident("loopback")).unwrap_err(),
        Error::SelfReferentialExternal
    );
    let mut dangling = foo_program();
    dangling.id = pid("dangling", "aleo");
    dangling.functions.push(Function {
        name: ident("nowhere"),
        instructions: vec![external_call("ghost", "f")],
    });
    let stack = Stack::new(&process, &dangling).unwrap();
    assert_eq!(
        stack.get_number_of_calls(&ident("nowhere")).unwrap_err(),
        Error::UnknownExternalProgram
    );
}
