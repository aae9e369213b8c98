use crate::error::Error;
use crate::lexer::{Command, Commands};
use crate::machine::{Action, Event, Frame, Machine, Outcome};
use crate::memory::{Memory, DEFAULT_MEM_SIZE};
use crate::syntax::Instr;
use vstd::prelude::*;

verus! {

/// An executor for one parsed program, which it borrows and never changes.
#[derive(Debug)]
pub struct Interpreter<'a> {
    program: &'a Commands,
    stack: Vec<(&'a Commands, usize)>,
    mem: Memory,
}

impl<'a> View for Interpreter<'a> {
    type V = Machine;

    closed spec fn view(&self) -> Machine {
        Machine {
            tape: self.mem.tape(),
            pointer: self.mem.pointer(),
            stack: Seq::new(
                self.stack.len() as nat,
                |i: int| Frame { code: self.stack[i].0@, pos: self.stack[i].1 as nat },
            ),
        }
    }
}

impl<'a> Interpreter<'a> {
    /// The program that this interpreter executes.
    pub closed spec fn program(&self) -> Seq<Instr> {
        self.program@
    }

    /// An interpreter for `program` with a tape of the default capacity.
    pub fn new(program: &'a Commands) -> (r: Self)
        ensures
            r@ == Machine::fresh(DEFAULT_MEM_SIZE as nat),
            r.program() == program@,
    {
        let r = Self { program, stack: Vec::new(), mem: Memory::new() };
        assert(r@.stack =~= Seq::<Frame>::empty());
        r
    }

    /// An interpreter for `program` with a tape of `capacity` cells.
    pub fn with_size(program: &'a Commands, capacity: usize) -> (r: Self)
        requires
            capacity > 0,
        ensures
            r@ == Machine::fresh(capacity as nat),
            r.program() == program@,
    {
        let r = Self { program, stack: Vec::new(), mem: Memory::with_size(capacity) };
        assert(r@.stack =~= Seq::<Frame>::empty());
        r
    }

    /// Opens a run on a tape as new: zeroes every cell, puts the pointer on the first cell
    /// and leaves on the stack the frame of the whole program alone, at its first command.
    /// Nothing of an earlier run stays.
    pub fn start(&mut self)
        ensures
            final(self)@ == Machine::fresh(old(self)@.tape.len()).started(old(self).program()),
            final(self).program() == old(self).program(),
    {
        self.mem.reset();
        self.stack.clear();
        self.stack.push((self.program, 0));
        assert(self@.stack =~= Machine::fresh(old(self)@.tape.len()).started(
            old(self).program(),
        ).stack);
    }

    /// What the next step needs from the outside world.
    pub fn action(&self) -> (a: Action)
        ensures
            a == self@.action(),
            self@.wf(),
    {
        proof {
            use_type_invariant(&self.mem);
            self.mem.lemma_pointer_in_range();
        }
        let depth = self.stack.len();
        if depth == 0 {
            return Action::Halt;
        }
        let (code, pos) = self.stack[depth - 1];
        if pos < code.len() {
            match code.get(pos) {
                Command::Input => Action::Read,
                Command::Output => Action::Write(*self.mem.get()),
                _ => Action::Proceed,
            }
        } else {
            Action::Proceed
        }
    }

    /// Executes one step, `event` being what the outside world reports for it.
    pub fn step(&mut self, event: Event) -> (r: Result<(), Error>)
        ensures
            final(self)@ == old(self)@.next(event),
            final(self).program() == old(self).program(),
            r == match old(self)@.fault(event) {
                Some(e) => Err::<(), Error>(e),
                None => Ok(()),
            },
    {
        proof {
            use_type_invariant(&self.mem);
            self.mem.lemma_pointer_in_range();
        }
        let depth = self.stack.len();
        if depth == 0 {
            return Ok(());
        }
        let (code, pos) = self.stack[depth - 1];
        if pos < code.len() {
            self.stack.set(depth - 1, (code, pos + 1));
            assert(self@.stack =~= old(self)@.at((pos + 1) as nat).stack);
            match code.get(pos) {
                Command::Increment => {
                    let v = *self.mem.get();
                    *self.mem.get_mut() = v.wrapping_add(1);
                },
                Command::Decrement => {
                    let v = *self.mem.get();
                    *self.mem.get_mut() = v.wrapping_sub(1);
                },
                Command::Left => self.mem.left(),
                Command::Right => self.mem.right(),
                Command::Output => {
                    if let Event::OutputFailed = event {
                        return Err(Error::OutputFailure);
                    }
                },
                Command::Input => {
                    match event {
                        Event::Byte(b) => {
                            *self.mem.get_mut() = b;
                        },
                        Event::InputFailed => {
                            return Err(Error::InputFailure);
                        },
                        _ => {},
                    }
                },
                Command::Loop(body) => {
                    if *self.mem.get() != 0 {
                        self.stack.push((body, 0));
                        assert(self@.stack =~= old(self)@.next(event).stack);
                    }
                },
            }
        } else {
            if depth > 1 && *self.mem.get() != 0 {
                self.stack.set(depth - 1, (code, 0));
                assert(self@.stack =~= old(self)@.at(0).stack);
            } else {
                self.stack.pop();
                assert(self@.stack =~= old(self)@.stack.drop_last());
            }
        }
        Ok(())
    }

    /// Runs the program from its first command, on a tape as new, against `input`,
    /// appending what it writes to `output`, for at most `limit` steps. Tells whether the
    /// run is complete and how many bytes of `input` it has read, one for each input
    /// command executed while `input` had a byte left.
    ///
    /// Reading past the end of `input` leaves the cell as it is and the run goes on.
    pub fn run(&mut self, input: &[u8], output: &mut Vec<u8>, limit: usize) -> (r: Outcome)
        ensures
            ({
                let end = Machine::fresh(old(self)@.tape.len()).started(
                    old(self).program(),
                ).session(input@, old(output)@).run(limit as nat);
                &&& final(self)@ == end.machine
                &&& final(output)@ == end.output
                &&& r.halted == end.machine.halted()
                &&& r.consumed <= input@.len()
                &&& end.input == input@.skip(r.consumed as int)
            }),
            final(self).program() == old(self).program(),
    {
        let ghost end = Machine::fresh(self@.tape.len()).started(self.program()).session(
            input@,
            output@,
        ).run(limit as nat);
        self.start();
        let mut consumed: usize = 0;
        let mut steps: usize = 0;
        assert(input@.skip(0) =~= input@);
        while steps < limit
            invariant
                steps <= limit,
                consumed <= input.len(),
                self.program() == old(self).program(),
                end == Machine::fresh(old(self)@.tape.len()).started(
                    old(self).program(),
                ).session(input@, old(output)@).run(limit as nat),
                self@.session(input@.skip(consumed as int), output@).run((limit - steps) as nat)
                    == end,
            decreases limit - steps,
        {
            let ghost now = self@.session(input@.skip(consumed as int), output@);
            let event = match self.action() {
                Action::Halt => {
                    return Outcome { halted: true, consumed };
                },
                Action::Read => if consumed < input.len() {
                    let b = input[consumed];
                    consumed = consumed + 1;
                    Event::Byte(b)
                } else {
                    Event::EndOfInput
                },
                Action::Write(b) => {
                    output.push(b);
                    Event::Written
                },
                Action::Proceed => Event::Idle,
            };
            let _ = self.step(event);
            steps = steps + 1;
            proof {
                assert(input@.skip(consumed as int) =~= now.step().input);
            }
        }
        Outcome { halted: self.stack.len() == 0, consumed }
    }
}

} // verus!
