//! The call stack: the phase state machine that drives one top-level
//! call, and its nested sub-calls, through a single execution mode.
//!
//! Three variants carry an explicit pending list with last-in first-out
//! discipline; the two variants backed by an [`Authorization`] hand out
//! requests in the order they were enqueued, first-in first-out.  The
//! asymmetry is deliberate and load-bearing: callers must know which
//! variant they hold before relying on an ordering.

use vstd::prelude::*;

use crate::errors::Error;
use crate::ident::{Identifier, ProgramID, ProgramIdV};

verus! {

/// The signing key a proof-producing phase carries.
#[derive(Clone, Copy, Debug, PartialEq, Eq, Structural)]
pub struct PrivateKey {
    /// The scalar seed of the key.
    pub sk: u64,
}

/// The mathematical shape of a request.
#[verifier::ext_equal]
pub struct RequestV {
    /// The program the call enters.
    pub program_id: ProgramIdV,
    /// The function the call invokes.
    pub function_name: Seq<u8>,
    /// Distinguishes otherwise identical calls.
    pub nonce: u64,
}

/// The input of one function invocation within a call.
#[derive(Debug, PartialEq, Eq)]
pub struct Request {
    /// The program the call enters.
    pub program_id: ProgramID,
    /// The function the call invokes.
    pub function_name: Identifier,
    /// Distinguishes otherwise identical calls.
    pub nonce: u64,
}

impl View for Request {
    type V = RequestV;

    open spec fn view(&self) -> RequestV {
        RequestV {
            program_id: self.program_id@,
            function_name: self.function_name@,
            nonce: self.nonce,
        }
    }
}

impl Clone for Request {
    fn clone(&self) -> (r: Self)
        ensures
            r@ == self@,
    {
        let r = Request {
            program_id: self.program_id.clone(),
            function_name: self.function_name.clone(),
            nonce: self.nonce,
        };
        proof {
            assert(r@ =~= self@);
        }
        r
    }
}

/// One synthesized circuit assignment gathered while checking a
/// deployment.
#[derive(Clone, Copy, Debug, PartialEq, Eq, Structural)]
pub struct Assignment {
    /// The number of constraints the assignment satisfies.
    pub num_constraints: u64,
    /// The number of variables the assignment binds.
    pub num_variables: u64,
}

/// The execution under construction while proving: the ordered
/// transitions produced so far, carried by their identifiers.
#[derive(Debug, PartialEq, Eq)]
pub struct Execution {
    /// The transition identifiers, in order.
    pub transitions: Vec<u64>,
}

impl View for Execution {
    type V = Seq<u64>;

    open spec fn view(&self) -> Seq<u64> {
        self.transitions@
    }
}

/// Copies a vector of transition identifiers.
fn copy_u64_list(v: &Vec<u64>) -> (r: Vec<u64>)
    ensures
        r@ == v@,
{
    let mut out: Vec<u64> = Vec::new();
    let mut i: usize = 0;
    while i < v.len()
        invariant
            i <= v@.len(),
            out@ == v@.subrange(0, i as int),
        decreases v@.len() - i,
    {
        out.push(v[i]);
        i = i + 1;
    }
    proof {
        assert(out@ == v@);
    }
    out
}

impl Clone for Execution {
    fn clone(&self) -> (r: Self)
        ensures
            r@ == self@,
    {
        Execution { transitions: copy_u64_list(&self.transitions) }
    }
}

impl Execution {
    /// An execution with no transitions yet.
    pub fn new() -> (r: Execution)
        ensures
            r@ == Seq::<u64>::empty(),
    {
        Execution { transitions: Vec::new() }
    }
}

/// Copies a list of requests.
fn clone_request_list(v: &Vec<Request>) -> (r: Vec<Request>)
    ensures
        r@.map_values(|x: Request| x@) == v@.map_values(|x: Request| x@),
{
    let mut out: Vec<Request> = Vec::new();
    let mut i: usize = 0;
    while i < v.len()
        invariant
            i <= v@.len(),
            out@.len() == i,
            forall|j: int| 0 <= j < i ==> (#[trigger] out@[j])@ == v@[j]@,
        decreases v@.len() - i,
    {
        out.push(v[i].clone());
        i = i + 1;
    }
    proof {
        assert(out@.map_values(|x: Request| x@) =~= v@.map_values(|x: Request| x@));
    }
    out
}

/// Copies a list of assignments.
fn copy_assignment_list(v: &Vec<Assignment>) -> (r: Vec<Assignment>)
    ensures
        r@ == v@,
{
    let mut out: Vec<Assignment> = Vec::new();
    let mut i: usize = 0;
    while i < v.len()
        invariant
            i <= v@.len(),
            out@ == v@.subrange(0, i as int),
        decreases v@.len() - i,
    {
        out.push(v[i]);
        i = i + 1;
    }
    proof {
        assert(out@ == v@);
    }
    out
}

/// An ordered, cursor-bearing queue of pending requests.  Pushing
/// appends; `next` yields requests in the order they were enqueued.
#[derive(Debug, PartialEq, Eq)]
pub struct Authorization {
    /// The pending requests, earliest first.
    pub requests: Vec<Request>,
}

impl View for Authorization {
    type V = Seq<RequestV>;

    open spec fn view(&self) -> Seq<RequestV> {
        self.requests@.map_values(|x: Request| x@)
    }
}

impl Authorization {
    /// An authorization with no pending requests.
    pub fn new() -> (r: Authorization)
        ensures
            r@ == Seq::<RequestV>::empty(),
    {
        let r = Authorization { requests: Vec::new() };
        proof {
            assert(r@ =~= Seq::<RequestV>::empty());
        }
        r
    }

    /// The number of pending requests.
    pub fn len(&self) -> (r: usize)
        ensures
            r == self@.len(),
    {
        self.requests.len()
    }

    /// True when no request is pending.
    pub fn is_empty(&self) -> (r: bool)
        ensures
            r == (self@.len() == 0),
    {
        self.requests.len() == 0
    }

    /// Appends a request behind every pending one.
    pub fn push(&mut self, request: Request)
        ensures
            final(self)@ == old(self)@.push(request@),
    {
        self.requests.push(request);
        proof {
            assert(final(self)@ =~= old(self)@.push(request@));
        }
    }

    /// Removes and returns the request enqueued earliest, or
    /// [`Error::NoMoreRequests`] when none is pending.
    pub fn next(&mut self) -> (r: Result<Request, Error>)
        ensures
            old(self)@.len() == 0 ==> r == Err::<Request, Error>(Error::NoMoreRequests)
                && final(self)@ == old(self)@,
            old(self)@.len() > 0 ==> (r matches Ok(req) && req@ == old(self)@[0] && final(self)@
                == old(self)@.drop_first()),
    {
        if self.requests.len() == 0 {
            return Err(Error::NoMoreRequests);
        }
        let req = self.requests.remove(0);
        proof {
            assert(final(self)@ =~= old(self)@.drop_first());
        }
        Ok(req)
    }

    /// Returns the request `next` would yield, without removing it.
    pub fn peek_next(&self) -> (r: Result<Request, Error>)
        ensures
            self@.len() == 0 ==> r == Err::<Request, Error>(Error::NoMoreRequests),
            self@.len() > 0 ==> (r matches Ok(req) && req@ == self@[0]),
    {
        if self.requests.len() == 0 {
            return Err(Error::NoMoreRequests);
        }
        Ok(self.requests[0].clone())
    }

    /// Returns an independent replica with the same pending requests.
    pub fn replicate(&self) -> (r: Authorization)
        ensures
            r@ == self@,
    {
        Authorization { requests: clone_request_list(&self.requests) }
    }
}

/// The mathematical shape of a call stack.
#[verifier::ext_equal]
pub enum CallStackV {
    /// Authorizing: gathering signed requests.
    Authorize(Seq<RequestV>, PrivateKey, Seq<RequestV>),
    /// Synthesizing circuit keys.
    Synthesize(Seq<RequestV>, PrivateKey, Seq<RequestV>),
    /// Checking a deployment against synthesized assignments.
    CheckDeployment(Seq<RequestV>, PrivateKey, Seq<Assignment>),
    /// Evaluating without proving.
    Evaluate(Seq<RequestV>),
    /// Executing and building the proof transitions.
    Execute(Seq<RequestV>, Seq<u64>),
}

/// The phase state machine driving one call: three variants carry an
/// explicit pending list (last-in first-out), two delegate to an
/// [`Authorization`] cursor (first-in first-out).
#[derive(Debug, PartialEq, Eq)]
pub enum CallStack {
    /// Authorizing: gathering signed requests.
    Authorize(Vec<Request>, PrivateKey, Authorization),
    /// Synthesizing circuit keys.
    Synthesize(Vec<Request>, PrivateKey, Authorization),
    /// Checking a deployment against synthesized assignments.
    CheckDeployment(Vec<Request>, PrivateKey, Vec<Assignment>),
    /// Evaluating without proving.
    Evaluate(Authorization),
    /// Executing and building the proof transitions.
    Execute(Authorization, Execution),
}

impl View for CallStack {
    type V = CallStackV;

    open spec fn view(&self) -> CallStackV {
        match self {
            CallStack::Authorize(reqs, key, auth) => CallStackV::Authorize(
                reqs@.map_values(|x: Request| x@),
                *key,
                auth@,
            ),
            CallStack::Synthesize(reqs, key, auth) => CallStackV::Synthesize(
                reqs@.map_values(|x: Request| x@),
                *key,
                auth@,
            ),
            CallStack::CheckDeployment(reqs, key, asgs) => CallStackV::CheckDeployment(
                reqs@.map_values(|x: Request| x@),
                *key,
                asgs@,
            ),
            CallStack::Evaluate(auth) => CallStackV::Evaluate(auth@),
            CallStack::Execute(auth, exec) => CallStackV::Execute(auth@, exec@),
        }
    }
}

/// The requests the call stack still holds, in storage order.
pub open spec fn cs_pending(v: CallStackV) -> Seq<RequestV> {
    match v {
        CallStackV::Authorize(reqs, _, _) => reqs,
        CallStackV::Synthesize(reqs, _, _) => reqs,
        CallStackV::CheckDeployment(reqs, _, _) => reqs,
        CallStackV::Evaluate(auth) => auth,
        CallStackV::Execute(auth, _) => auth,
    }
}

/// True for the variants that delegate to an authorization cursor and
/// therefore hand requests out first-in first-out.
pub open spec fn cs_queue_backed(v: CallStackV) -> bool {
    match v {
        CallStackV::Evaluate(_) => true,
        CallStackV::Execute(_, _) => true,
        _ => false,
    }
}

/// The state after pushing a request: the pending requests gain the
/// request at their back; everything else is unchanged.
pub open spec fn cs_push(v: CallStackV, r: RequestV) -> CallStackV {
    match v {
        CallStackV::Authorize(reqs, key, auth) => CallStackV::Authorize(reqs.push(r), key, auth),
        CallStackV::Synthesize(reqs, key, auth) => CallStackV::Synthesize(reqs.push(r), key, auth),
        CallStackV::CheckDeployment(reqs, key, asgs) => CallStackV::CheckDeployment(
            reqs.push(r),
            key,
            asgs,
        ),
        CallStackV::Evaluate(auth) => CallStackV::Evaluate(auth.push(r)),
        CallStackV::Execute(auth, exec) => CallStackV::Execute(auth.push(r), exec),
    }
}

/// The request a pop yields and the state it leaves: the last pending
/// request for the explicit-list variants, the earliest for the
/// queue-backed ones; `None` when nothing is pending.
pub open spec fn cs_pop(v: CallStackV) -> Option<(RequestV, CallStackV)> {
    if cs_pending(v).len() == 0 {
        None
    } else {
        match v {
            CallStackV::Authorize(reqs, key, auth) => Some(
                (reqs.last(), CallStackV::Authorize(reqs.drop_last(), key, auth)),
            ),
            CallStackV::Synthesize(reqs, key, auth) => Some(
                (reqs.last(), CallStackV::Synthesize(reqs.drop_last(), key, auth)),
            ),
            CallStackV::CheckDeployment(reqs, key, asgs) => Some(
                (reqs.last(), CallStackV::CheckDeployment(reqs.drop_last(), key, asgs)),
            ),
            CallStackV::Evaluate(auth) => Some(
                (auth[0], CallStackV::Evaluate(auth.drop_first())),
            ),
            CallStackV::Execute(auth, exec) => Some(
                (auth[0], CallStackV::Execute(auth.drop_first(), exec)),
            ),
        }
    }
}

/// The request a peek yields: what a pop would yield, without removal.
pub open spec fn cs_peek(v: CallStackV) -> Option<RequestV> {
    match cs_pop(v) {
        None => None,
        Some((r, _)) => Some(r),
    }
}

impl CallStack {
    /// Initializes a call stack in the evaluation phase.
    pub fn evaluate(authorization: Authorization) -> (r: Result<CallStack, Error>)
        ensures
            r matches Ok(cs) && cs@ == CallStackV::Evaluate(authorization@),
    {
        Ok(CallStack::Evaluate(authorization))
    }

    /// Initializes a call stack in the execution phase.
    pub fn execute(authorization: Authorization, execution: Execution) -> (r: Result<
        CallStack,
        Error,
    >)
        ensures
            r matches Ok(cs) && cs@ == CallStackV::Execute(authorization@, execution@),
    {
        Ok(CallStack::Execute(authorization, execution))
    }

    /// Returns a new and independent replica: the pending requests and
    /// every payload are deep-copied, so mutations on the replica never
    /// affect the original and vice versa.
    pub fn replicate(&self) -> (r: CallStack)
        ensures
            r@ == self@,
    {
        let r = match self {
            CallStack::Authorize(reqs, key, auth) => CallStack::Authorize(
                clone_request_list(reqs),
                *key,
                auth.replicate(),
            ),
            CallStack::Synthesize(reqs, key, auth) => CallStack::Synthesize(
                clone_request_list(reqs),
                *key,
                auth.replicate(),
            ),
            CallStack::CheckDeployment(reqs, key, asgs) => CallStack::CheckDeployment(
                clone_request_list(reqs),
                *key,
                copy_assignment_list(asgs),
            ),
            CallStack::Evaluate(auth) => CallStack::Evaluate(auth.replicate()),
            CallStack::Execute(auth, exec) => CallStack::Execute(auth.replicate(), exec.clone()),
        };
        proof {
            assert(r@ =~= self@);
        }
        r
    }

    /// Pushes the request onto the stack; never fails.
    pub fn push(&mut self, request: Request) -> (r: Result<(), Error>)
        ensures
            r == Ok::<(), Error>(()),
            final(self)@ == cs_push(old(self)@, request@),
    {
        match self {
            CallStack::Authorize(reqs, _, _) => reqs.push(request),
            CallStack::Synthesize(reqs, _, _) => reqs.push(request),
            CallStack::CheckDeployment(reqs, _, _) => reqs.push(request),
            CallStack::Evaluate(auth) => auth.push(request),
            CallStack::Execute(auth, _) => auth.push(request),
        }
        proof {
            assert(final(self)@ =~= cs_push(old(self)@, request@));
        }
        Ok(())
    }

    /// Pops the next request: the most recently pushed one for the
    /// explicit-list variants, the earliest enqueued one for the
    /// queue-backed variants.  Fails with [`Error::NoMoreRequests`] when
    /// nothing is pending, leaving the stack unchanged.
    pub fn pop(&mut self) -> (r: Result<Request, Error>)
        ensures
            match cs_pop(old(self)@) {
                None => r == Err::<Request, Error>(Error::NoMoreRequests) && final(self)@ == old(
                    self,
                )@,
                Some((req, next)) => (r matches Ok(x) && x@ == req && final(self)@ == next),
            },
    {
        let r = match self {
            CallStack::Authorize(reqs, _, _) => match reqs.pop() {
                Some(req) => Ok(req),
                None => Err(Error::NoMoreRequests),
            },
            CallStack::Synthesize(reqs, _, _) => match reqs.pop() {
                Some(req) => Ok(req),
                None => Err(Error::NoMoreRequests),
            },
            CallStack::CheckDeployment(reqs, _, _) => match reqs.pop() {
                Some(req) => Ok(req),
                None => Err(Error::NoMoreRequests),
            },
            CallStack::Evaluate(auth) => auth.next(),
            CallStack::Execute(auth, _) => auth.next(),
        };
        proof {
            match cs_pop(old(self)@) {
                None => {
                    assert(final(self)@ =~= old(self)@);
                },
                Some((req, next)) => {
                    assert(final(self)@ =~= next);
                },
            }
        }
        r
    }

    /// Returns the request `pop` would yield, without removing it.
    /// Fails with [`Error::NoMoreRequests`] when nothing is pending.
    pub fn peek(&mut self) -> (r: Result<Request, Error>)
        ensures
            final(self)@ == old(self)@,
            match cs_peek(old(self)@) {
                None => r == Err::<Request, Error>(Error::NoMoreRequests),
                Some(req) => (r matches Ok(x) && x@ == req),
            },
    {
        match self {
            CallStack::Authorize(reqs, _, _) => {
                if reqs.len() == 0 {
                    Err(Error::NoMoreRequests)
                } else {
                    Ok(reqs[reqs.len() - 1].clone())
                }
            },
            CallStack::Synthesize(reqs, _, _) => {
                if reqs.len() == 0 {
                    Err(Error::NoMoreRequests)
                } else {
                    Ok(reqs[reqs.len() - 1].clone())
                }
            },
            CallStack::CheckDeployment(reqs, _, _) => {
                if reqs.len() == 0 {
                    Err(Error::NoMoreRequests)
                } else {
                    Ok(reqs[reqs.len() - 1].clone())
                }
            },
            CallStack::Evaluate(auth) => auth.peek_next(),
            CallStack::Execute(auth, _) => auth.peek_next(),
        }
    }
}

/// Pushing three requests onto an empty call stack and popping three
/// times yields them back in enqueue order for the queue-backed
/// variants, and in reverse order for the explicit-list variants.
pub proof fn lemma_pop_order_three(cs: CallStackV, r1: RequestV, r2: RequestV, r3: RequestV)
    requires
        cs_pending(cs).len() == 0,
    ensures
        ({
            let s3 = cs_push(cs_push(cs_push(cs, r1), r2), r3);
            let (a, s2) = cs_pop(s3).unwrap();
            let (b, s1) = cs_pop(s2).unwrap();
            let (c, s0) = cs_pop(s1).unwrap();
            &&& cs_pop(s3) is Some
            &&& cs_pop(s2) is Some
            &&& cs_pop(s1) is Some
            &&& cs_pending(s0).len() == 0
            &&& cs_queue_backed(cs) ==> (a, b, c) == (r1, r2, r3)
            &&& !cs_queue_backed(cs) ==> (a, b, c) == (r3, r2, r1)
        }),
{
    let pushed = cs_pending(cs).push(r1).push(r2).push(r3);
    assert(pushed =~= seq![r1, r2, r3]);
    let s3 = cs_push(cs_push(cs_push(cs, r1), r2), r3);
    assert(cs_pending(s3) =~= seq![r1, r2, r3]);
    let (a, s2) = cs_pop(s3).unwrap();
    assert(cs_pending(s2) =~= if cs_queue_backed(cs) {
        seq![r2, r3]
    } else {
        seq![r1, r2]
    });
    let (b, s1) = cs_pop(s2).unwrap();
    assert(cs_pending(s1) =~= if cs_queue_backed(cs) {
        seq![r3]
    } else {
        seq![r1]
    });
    let (c, s0) = cs_pop(s1).unwrap();
    assert(cs_pending(s0).len() == 0);
}

} // verus!
