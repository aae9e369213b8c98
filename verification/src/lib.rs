//! A verified front-end and executor for an eight-instruction byte-tape language.
//!
//! [`parse`] turns a program text into a tree of [`Command`]s, and an [`Interpreter`]
//! executes such a tree on a circular tape of byte cells, one step at a time: it tells its
//! driver what the next step needs ([`Action`]), and the driver tells it what came of that
//! ([`Event`]). [`Interpreter::run`] and [`run`] drive it against streams held in memory.

use vstd::prelude::*;

pub mod error;
pub mod interpreter;
pub mod lexer;
pub mod machine;
pub mod memory;
pub mod semantics;
pub mod syntax;
pub mod util;

pub use error::Error;
pub use interpreter::Interpreter;
pub use lexer::{parse, parse_interrupted, Command, Commands};
pub use machine::{Action, Event, Outcome};

verus! {

/// Parses `program` and runs it on a fresh tape of the default capacity against `input`,
/// appending what it writes to `output`, for at most `limit` steps. Returns whether the
/// run is complete and how many bytes of `input` it has read, or the error that parsing
/// ends with; nothing runs in that case.
pub fn run(program: &str, input: &[u8], output: &mut Vec<u8>, limit: usize) -> (r: Result<
    Outcome,
    Error,
>)
    ensures
        match syntax::parse_spec(program@) {
            Err(e) => r == Err::<Outcome, Error>(e) && final(output)@ == old(output)@,
            Ok(code) => {
                let end = machine::Machine::fresh(memory::DEFAULT_MEM_SIZE as nat).started(
                    code,
                ).session(input@, old(output)@).run(limit as nat);
                &&& r matches Ok(outcome)
                &&& outcome.halted == end.machine.halted()
                &&& outcome.consumed <= input@.len()
                &&& end.input == input@.skip(outcome.consumed as int)
                &&& final(output)@ == end.output
            },
        },
{
    match parse(program) {
        Err(e) => Err(e),
        Ok(commands) => {
            let mut interpreter = Interpreter::new(&commands);
            Ok(interpreter.run(input, output, limit))
        },
    }
}

} // verus!
