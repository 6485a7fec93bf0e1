use program_stack::call_stack::Assignment;
use program_stack::call_stack::Authorization;
use program_stack::call_stack::CallStack;
use program_stack::call_stack::Execution;
use program_stack::call_stack::PrivateKey;
use program_stack::call_stack::Request;
use program_stack::errors::Error;
use program_stack::ident::Identifier;
use program_stack::ident::ProgramID;

fn ident(s: &str) -> Identifier {
    Identifier { bytes: s.as_bytes().to_vec() }
}

fn pid(name: &str, network: &str) -> ProgramID {
    ProgramID { name: ident(name), network: ident(network) }
}

fn request(nonce: u64) -> Request {
    Request { program_id: pid("foo", "aleo"), function_name: ident("f"), nonce }
}

fn key() -> PrivateKey {
    PrivateKey { sk: 11 }
}

#[test]
fn evaluate_pops_first_in_first_out() {
    let mut cs = CallStack::evaluate(Authorization::new()).unwrap();
    cs.push(request(1)).unwrap();
    cs.push(request(2)).unwrap();
    cs.push(request(3)).unwrap();
    assert_eq!(cs.pop().unwrap().nonce, 1);
    assert_eq!(cs.pop().unwrap().nonce, 2);
    assert_eq!(cs.pop().unwrap().nonce, 3);
    assert_eq!(cs.pop(), Err(Error::NoMoreRequests));
}

#[test]
fn execute_pops_first_in_first_out() {
    let mut cs = CallStack::execute(Authorization::new(), Execution::new()).unwrap();
    cs.push(request(1)).unwrap();
    cs.push(request(2)).unwrap();
    cs.push(request(3)).unwrap();
    assert_eq!(cs.pop().unwrap().nonce, 1);
    assert_eq!(cs.pop().unwrap().nonce, 2);
    assert_eq!(cs.pop().unwrap().nonce, 3);
}

#[test]
fn authorize_pops_last_in_first_out() {
    let mut cs = CallStack::Authorize(Vec::new(), key(), Authorization::new());
    cs.push(request(1)).unwrap();
    cs.push(request(2)).unwrap();
    cs.push(request(3)).unwrap();
    assert_eq!(cs.pop().unwrap().nonce, 3);
    assert_eq!(cs.pop().unwrap().nonce, 2);
    assert_eq!(cs.pop().unwrap().nonce, 1);
    assert_eq!(cs.pop(), Err(Error::NoMoreRequests));
}

#[test]
fn synthesize_pops_last_in_first_out() {
    let mut cs = CallStack::Synthesize(Vec::new(), key(), Authorization::new());
    cs.push(request(7)).unwrap();
    cs.push(request(8)).unwrap();
    assert_eq!(cs.pop().unwrap().nonce, 8);
    assert_eq!(cs.pop().unwrap().nonce, 7);
}

#[test]
fn check_deployment_pops_last_in_first_out() {
    let mut cs = CallStack::CheckDeployment(Vec::new(), key(), Vec::new());
    cs.push(request(7)).unwrap();
    cs.push(request(8)).unwrap();
    assert_eq!(cs.pop().unwrap().nonce, 8);
    assert_eq!(cs.pop().unwrap().nonce, 7);
}

#[test]
fn empty_authorize_underflows_without_panicking() {
    let mut cs = CallStack::Authorize(Vec::new(), key(), Authorization::new());
    assert_eq!(cs.pop(), Err(Error::NoMoreRequests));
    assert_eq!(cs.peek(), Err(Error::NoMoreRequests));
}

#[test]
fn peek_mirrors_pop_without_removal() {
    let mut lifo = CallStack::Authorize(Vec::new(), key(), Authorization::new());
    lifo.push(request(1)).unwrap();
    lifo.push(request(2)).unwrap();
    assert_eq!(lifo.peek().unwrap().nonce, 2);
    assert_eq!(lifo.pop().unwrap().nonce, 2);
    let mut fifo = CallStack::evaluate(Authorization::new()).unwrap();
    fifo.push(request(1)).unwrap();
    fifo.push(request(2)).unwrap();
    assert_eq!(fifo.peek().unwrap().nonce, 1);
    assert_eq!(fifo.pop().unwrap().nonce, 1);
}

#[test]
fn replicate_is_independent() {
    let mut original = CallStack::CheckDeployment(Vec::new(), key(), Vec::new());
    original.push(request(1)).unwrap();
    let mut replica = original.replicate();
    replica.push(request(2)).unwrap();
    if let CallStack::CheckDeployment(_, _, assignments) = &mut replica {
        assignments.push(Assignment { num_constraints: 5, num_variables: 9 });
    }
    // The replica gained a request and an assignment; the original kept
    // exactly its one request and no assignments.
    assert_eq!(replica.pop().unwrap().nonce, 2);
    assert_eq!(original.pop().unwrap().nonce, 1);
    assert_eq!(original.pop(), Err(Error::NoMoreRequests));
    if let CallStack::CheckDeployment(_, _, assignments) = &original {
        assert_eq!(assignments.len(), 0);
    } else {
        panic!("variant changed");
    }
}

#[test]
fn authorization_is_a_cursor_queue() {
    let mut auth = Authorization::new();
    assert!(auth.is_empty());
    auth.push(request(1));
    auth.push(request(2));
    assert_eq!(auth.len(), 2);
    assert_eq!(auth.peek_next().unwrap().nonce, 1);
    let twin = auth.replicate();
    assert_eq!(auth.next().unwrap().nonce, 1);
    assert_eq!(auth.next().unwrap().nonce, 2);
    assert_eq!(auth.next(), Err(Error::NoMoreRequests));
    assert_eq!(twin.len(), 2);
}
