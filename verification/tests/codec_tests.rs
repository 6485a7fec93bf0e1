use program_stack::errors::Error;
use program_stack::ident::Identifier;
use program_stack::ident::ProgramID;
use program_stack::program::CallOperator;
use program_stack::program::Function;
use program_stack::program::Instruction;
use program_stack::program::Program;
use program_stack::program::RecordType;

fn ident(s: &str) -> Identifier {
    Identifier { bytes: s.as_bytes().to_vec() }
}

fn pid(name: &str, network: &str) -> ProgramID {
    ProgramID { name: ident(name), network: ident(network) }
}

fn sample_program() -> Program {
    Program {
        id: pid("foo", "aleo"),
        imports: vec![pid("bar", "aleo")],
        functions: vec![
            Function { name: ident("f"), instructions: vec![Instruction::Operation(ident("seal"))] },
            Function {
                name: ident("g"),
                instructions: vec![
                    Instruction::Call(CallOperator::Resource(ident("f"))),
                    Instruction::Call(CallOperator::Locator(program_stack::ident::Locator {
                        program_id: pid("bar", "aleo"),
                        resource: ident("h"),
                    })),
                ],
            },
        ],
        closures: vec![ident("c")],
        records: vec![RecordType { name: ident("token") }],
    }
}

#[test]
fn bytes_round_trip() {
    let p = sample_program();
    let bytes = p.to_bytes().unwrap();
    let q = Program::from_bytes(&bytes).unwrap();
    assert_eq!(p, q);
}

#[test]
fn text_round_trip() {
    let p = sample_program();
    let text = p.to_text().unwrap();
    let q = Program::from_text(&text).unwrap();
    assert_eq!(p, q);
}

#[test]
fn text_form_is_canonical() {
    let p = Program {
        id: pid("foo", "aleo"),
        imports: vec![],
        functions: vec![Function {
            name: ident("f"),
            instructions: vec![
                Instruction::Operation(ident("seal")),
                Instruction::Call(CallOperator::Resource(ident("f2"))),
            ],
        }, Function { name: ident("f2"), instructions: vec![] }],
        closures: vec![],
        records: vec![RecordType { name: ident("token") }],
    };
    let text = p.to_text().unwrap();
    let expected = "program foo.aleo\nfunction f\nop seal\ncall f2\nfunction f2\nrecord token\n";
    assert_eq!(text, expected.as_bytes().to_vec());
}

#[test]
fn from_bytes_rejects_garbage() {
    let garbage: Vec<u8> = vec![255, 0, 17, 3];
    assert_eq!(Program::from_bytes(&garbage), Err(Error::MalformedProgram));
}

#[test]
fn from_text_rejects_garbage() {
    let garbage = "nothing to see here".as_bytes().to_vec();
    assert_eq!(Program::from_text(&garbage), Err(Error::MalformedProgram));
}

#[test]
fn duplicate_names_are_malformed() {
    let mut p = sample_program();
    p.closures.push(ident("f"));
    assert_eq!(p.to_bytes(), Err(Error::MalformedProgram));
    assert_eq!(p.to_text(), Err(Error::MalformedProgram));
}

#[test]
fn identifier_validation() {
    assert!(Identifier::new("valid_name0".as_bytes().to_vec()).is_ok());
    assert_eq!(
        Identifier::new("9starts_with_digit".as_bytes().to_vec()),
        Err(Error::MalformedProgram)
    );
    assert_eq!(Identifier::new(Vec::new()), Err(Error::MalformedProgram));
    assert_eq!(
        Identifier::new("Upper".as_bytes().to_vec()),
        Err(Error::MalformedProgram)
    );
}

#[test]
fn trailing_bytes_are_rejected() {
    let p = sample_program();
    let mut bytes = p.to_bytes().unwrap();
    bytes.push(0);
    assert_eq!(Program::from_bytes(&bytes), Err(Error::MalformedProgram));
}
