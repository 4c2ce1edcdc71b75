//! Small runtime-facing pieces kept for the callers around the engine: a
//! per-workspace context, the runtime's error kind, and its trivial success
//! helper.

use vstd::prelude::*;
use vstd::string::StringExecFns;

verus! {

/// The runtime's error kind.
#[derive(Debug)]
pub enum Error {
    Stub,
    /// A plan step could not be executed; the message says why.
    Execution(String),
}

/// Per-workspace runtime context.
pub struct RuntimeContext {
    pub ws: String,
}

impl RuntimeContext {
    pub fn new(ws_id: String) -> (r: Self)
        ensures
            r.ws@ == ws_id@,
    {
        RuntimeContext { ws: ws_id }
    }
}

/// The outcome of one executed plan step: the command that was issued and
/// the response that came back.
#[derive(Debug)]
pub struct ExecutionResult {
    pub command: String,
    pub response: String,
}

/// The command the plan's first step issues. An empty plan is an execution
/// error, never a silent no-op.
pub fn plan_first_step(plan: &Vec<String>) -> (r: Result<String, Error>)
    ensures
        match r {
            Result::Ok(c) => plan@.len() > 0 && c@ == plan@[0]@,
            Result::Err(e) => plan@.len() == 0 && (e matches Error::Execution(m) && m@
                == "plan has no steps"@),
        },
{
    if plan.len() == 0 {
        Result::Err(Error::Execution(String::from_str("plan has no steps")))
    } else {
        proof {
            assert(plan@[0]@ == plan@[0 as int]@);
        }
        Result::Ok(plan[0].clone())
    }
}

/// Completes one plan step from what the command's carrier reported: a
/// response yields the step's result, a carrier failure its message as an
/// execution error.
pub fn execute(command: String, outcome: Result<String, String>) -> (r: Result<
    ExecutionResult,
    Error,
>)
    ensures
        match outcome {
            Result::Ok(resp) => (r matches Result::Ok(x) && x.command == command && x.response
                == resp),
            Result::Err(m) => (r matches Result::Err(e) && e matches Error::Execution(mm) && mm
                == m),
        },
{
    match outcome {
        Result::Ok(resp) => Result::Ok(ExecutionResult { command, response: resp }),
        Result::Err(m) => Result::Err(Error::Execution(m)),
    }
}

/// Wraps a value as a successful runtime result.
pub fn ok<T>(v: T) -> (r: Result<T, Error>)
    ensures
        r == Result::<T, Error>::Ok(v),
{
    Result::Ok(v)
}

} // verus!
