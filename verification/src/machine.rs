use crate::error::Error;
use crate::memory::{left_of, right_of};
use crate::syntax::Instr;
use vstd::prelude::*;

verus! {

/// What the outside world reports to the machine with one step.
#[derive(Debug, Clone, Copy, PartialEq, Eq, Structural)]
pub enum Event {
    /// Nothing was asked for.
    Idle,
    /// The input stream gave this byte.
    Byte(u8),
    /// The input stream is exhausted.
    EndOfInput,
    /// Reading failed for another reason than the end of the stream.
    InputFailed,
    /// The output stream took the byte.
    Written,
    /// Writing failed.
    OutputFailed,
}

/// What the machine needs from the outside world for its next step.
#[derive(Debug, Clone, Copy, PartialEq, Eq, Structural)]
pub enum Action {
    /// The run is complete: no step is left.
    Halt,
    /// The next step needs nothing from outside.
    Proceed,
    /// The next step stores one byte read from the input stream.
    Read,
    /// The next step emits this byte to the output stream.
    Write(u8),
}

/// How a run against streams held in memory ended.
#[derive(Debug, Clone, Copy, PartialEq, Eq, Structural)]
pub struct Outcome {
    /// Whether the run is complete; if not, the step limit came first.
    pub halted: bool,
    /// The number of input bytes that the run has read.
    pub consumed: usize,
}

/// One entry of the execution stack: a command sequence and the position of its next command.
pub struct Frame {
    pub code: Seq<Instr>,
    pub pos: nat,
}

/// The state of a run: the tape, the pointer and the execution stack, innermost frame last.
pub struct Machine {
    pub tape: Seq<u8>,
    pub pointer: int,
    pub stack: Seq<Frame>,
}

/// The cell value after one increment: 255 wraps to 0.
pub open spec fn incremented(v: u8) -> u8 {
    if v == 255 {
        0
    } else {
        (v + 1) as u8
    }
}

/// The cell value after one decrement: 0 wraps to 255.
pub open spec fn decremented(v: u8) -> u8 {
    if v == 0 {
        255
    } else {
        (v - 1) as u8
    }
}

impl Machine {
    /// A machine that has not started: `capacity` zeroed cells, the pointer on the first, no frame.
    pub open spec fn fresh(capacity: nat) -> Machine {
        Machine { tape: Seq::new(capacity, |i: int| 0u8), pointer: 0, stack: Seq::empty() }
    }

    /// The tape has a cell and the pointer names one.
    pub open spec fn wf(self) -> bool {
        0 <= self.pointer < self.tape.len()
    }

    /// No frame is left: the run is complete, or has not started.
    pub open spec fn halted(self) -> bool {
        self.stack.len() == 0
    }

    /// The value of the cell under the pointer.
    pub open spec fn cell(self) -> u8 {
        self.tape[self.pointer]
    }

    /// The command that the innermost frame executes next, if it has one left.
    pub open spec fn current(self) -> Option<Instr> {
        if self.halted() {
            None
        } else {
            let top = self.stack.last();
            if top.pos < top.code.len() {
                Some(top.code[top.pos as int])
            } else {
                None
            }
        }
    }

    /// What the next step needs from the outside world.
    pub open spec fn action(self) -> Action {
        if self.halted() {
            Action::Halt
        } else {
            match self.current() {
                Some(Instr::Input) => Action::Read,
                Some(Instr::Output) => Action::Write(self.cell()),
                _ => Action::Proceed,
            }
        }
    }

    /// The same machine with a frame for `program` pushed, at its first command.
    pub open spec fn started(self, program: Seq<Instr>) -> Machine {
        Machine { stack: self.stack.push(Frame { code: program, pos: 0 }), ..self }
    }

    /// The same machine with another value in the cell under the pointer.
    pub open spec fn with_cell(self, v: u8) -> Machine {
        Machine { tape: self.tape.update(self.pointer, v), ..self }
    }

    /// The same machine with the innermost frame moved to position `pos`.
    pub open spec fn at(self, pos: nat) -> Machine {
        Machine {
            stack: self.stack.update(
                self.stack.len() - 1,
                Frame { code: self.stack.last().code, pos },
            ),
            ..self
        }
    }

    /// The machine after one step, `event` being what the outside world reports for it.
    ///
    /// A frame with a command left consumes it. A byte that was read goes into the current
    /// cell; at the end of the input the cell keeps its value. A loop whose cell is nonzero
    /// gets a frame for its body; one whose cell is zero is passed over. An exhausted frame
    /// that is not the outermost starts over while the cell is nonzero, and is dropped
    /// otherwise. A halted machine stays as it is. An event that the step has no use for
    /// is ignored.
    pub open spec fn next(self, event: Event) -> Machine {
        if self.halted() {
            self
        } else {
            let top = self.stack.last();
            match self.current() {
                None => if self.stack.len() > 1 && self.cell() != 0 {
                    self.at(0)
                } else {
                    Machine { stack: self.stack.drop_last(), ..self }
                },
                Some(instr) => {
                    let m = self.at(top.pos + 1);
                    match instr {
                        Instr::Increment => m.with_cell(incremented(self.cell())),
                        Instr::Decrement => m.with_cell(decremented(self.cell())),
                        Instr::Left => Machine {
                            pointer: left_of(self.pointer, self.tape.len() as int),
                            ..m
                        },
                        Instr::Right => Machine {
                            pointer: right_of(self.pointer, self.tape.len() as int),
                            ..m
                        },
                        Instr::Output => m,
                        Instr::Input => match event {
                            Event::Byte(b) => m.with_cell(b),
                            _ => m,
                        },
                        Instr::Loop(body) => if self.cell() != 0 {
                            Machine { stack: m.stack.push(Frame { code: body, pos: 0 }), ..m }
                        } else {
                            m
                        },
                    }
                },
            }
        }
    }

    /// A run of this machine with `input` left to read and `output` already written.
    pub open spec fn session(self, input: Seq<u8>, output: Seq<u8>) -> Session {
        Session { machine: self, input, output }
    }

    /// The error that aborts the run at the next step, if `event` reports a failure of the
    /// stream that this step uses.
    pub open spec fn fault(self, event: Event) -> Option<Error> {
        match (self.current(), event) {
            (Some(Instr::Input), Event::InputFailed) => Some(Error::InputFailure),
            (Some(Instr::Output), Event::OutputFailed) => Some(Error::OutputFailure),
            _ => None,
        }
    }
}

/// A run against streams held in memory: the machine, the input not yet read and the
/// output written so far.
pub struct Session {
    pub machine: Machine,
    pub input: Seq<u8>,
    pub output: Seq<u8>,
}

impl Session {
    /// What the streams report for the machine's next step: the next input byte while there
    /// is one, the end of the input after that; a write always succeeds.
    pub open spec fn event(self) -> Event {
        match self.machine.action() {
            Action::Read => if self.input.len() > 0 {
                Event::Byte(self.input[0])
            } else {
                Event::EndOfInput
            },
            Action::Write(_) => Event::Written,
            _ => Event::Idle,
        }
    }

    /// The session after one step of its machine: a byte that was read leaves the input, a
    /// byte that was written joins the output.
    pub open spec fn step(self) -> Session {
        Session {
            machine: self.machine.next(self.event()),
            input: match self.event() {
                Event::Byte(_) => self.input.drop_first(),
                _ => self.input,
            },
            output: match self.machine.action() {
                Action::Write(b) => self.output.push(b),
                _ => self.output,
            },
        }
    }

    /// The session after `steps` steps, or at the halt of its machine if that comes first.
    pub open spec fn run(self, steps: nat) -> Session
        decreases steps,
    {
        if steps == 0 || self.machine.halted() {
            self
        } else {
            self.step().run((steps - 1) as nat)
        }
    }
}

/// A step keeps the tape's length and leaves the pointer on the tape.
pub proof fn lemma_next_wf(m: Machine, event: Event)
    requires
        m.wf(),
    ensures
        m.next(event).wf(),
        m.next(event).tape.len() == m.tape.len(),
{
    crate::memory::lemma_left_of(m.pointer, m.tape.len() as int);
    crate::memory::lemma_right_of(m.pointer, m.tape.len() as int);
}

/// A run of at least one step on a machine that has not halted is one step, then the rest.
pub proof fn lemma_run_unfold(s: Session, steps: nat)
    requires
        steps > 0,
        !s.machine.halted(),
    ensures
        s.run(steps) == s.step().run((steps - 1) as nat),
{
}

/// A run of `a + b` steps is a run of `a` steps, then one of `b`.
pub proof fn lemma_run_split(s: Session, a: nat, b: nat)
    ensures
        s.run(a + b) == s.run(a).run(b),
    decreases a,
{
    if a > 0 && !s.machine.halted() {
        lemma_run_split(s.step(), (a - 1) as nat, b);
    } else {
        assert(s.run(a) == s);
    }
}

/// The program `[-]`.
pub open spec fn clear_loop() -> Seq<Instr> {
    seq![Instr::Loop(seq![Instr::Decrement])]
}

/// The program `[]`.
pub open spec fn empty_loop() -> Seq<Instr> {
    seq![Instr::Loop(Seq::empty())]
}

/// Inside `[-]`, at the start of the body: two steps for each unit of the cell lead out of
/// the loop with the cell at zero.
proof fn lemma_clear_loop_body(s: Session)
    requires
        s.machine.wf(),
        s.machine.cell() != 0,
        s.machine.stack == seq![
            Frame { code: clear_loop(), pos: 1 },
            Frame { code: seq![Instr::Decrement], pos: 0 },
        ],
    ensures
        s.run((2 * s.machine.cell()) as nat) == (Session {
            machine: Machine {
                stack: seq![Frame { code: clear_loop(), pos: 1 }],
                ..s.machine.with_cell(0)
            },
            ..s
        }),
    decreases s.machine.cell(),
{
    let v = s.machine.cell();
    let one = s.step();
    let two = one.step();
    lemma_run_unfold(s, (2 * v) as nat);
    lemma_run_unfold(one, (2 * v - 1) as nat);
    if v == 1 {
        assert(two.machine.stack =~= seq![Frame { code: clear_loop(), pos: 1 }]);
    } else {
        assert(two.machine.stack =~= s.machine.stack);
        lemma_clear_loop_body(two);
        assert(two.machine.with_cell(0).tape =~= s.machine.with_cell(0).tape);
    }
}

/// `[-]` on a nonzero cell halts with that cell at zero, and with nothing else changed:
/// nothing is read and nothing written.
pub proof fn lemma_clear_loop(m: Machine, input: Seq<u8>, output: Seq<u8>, steps: nat)
    requires
        m.wf(),
        m.halted(),
        m.cell() != 0,
        steps >= 2 * m.cell() + 2,
    ensures
        m.started(clear_loop()).session(input, output).run(steps) == m.with_cell(0).session(
            input,
            output,
        ),
{
    let v = m.cell();
    let s = m.started(clear_loop()).session(input, output);
    let entered = s.step();
    assert(entered.machine.stack =~= seq![
        Frame { code: clear_loop(), pos: 1 },
        Frame { code: seq![Instr::Decrement], pos: 0 },
    ]);
    lemma_clear_loop_body(entered);
    let left = entered.run((2 * v) as nat);
    let done = left.step();
    assert(done.machine.stack =~= m.stack);
    let rest = (steps - 2 * v - 2) as nat;
    lemma_run_split(s, (2 * v + 2) as nat, rest);
    lemma_run_split(s, 1, (2 * v + 1) as nat);
    lemma_run_split(entered, (2 * v) as nat, 1);
    lemma_run_unfold(s, 1);
    lemma_run_unfold(left, 1);
}

/// `[]` on a cell at zero halts without entering the loop and changes nothing: the tape
/// and the pointer stay, nothing is read and nothing written.
pub proof fn lemma_empty_loop(m: Machine, input: Seq<u8>, output: Seq<u8>, steps: nat)
    requires
        m.wf(),
        m.halted(),
        m.cell() == 0,
        steps >= 2,
    ensures
        m.started(empty_loop()).session(input, output).run(steps) == m.session(input, output),
{
    let s = m.started(empty_loop()).session(input, output);
    let passed = s.step();
    let done = passed.step();
    assert(done.machine.stack =~= m.stack);
    lemma_run_split(s, 2, (steps - 2) as nat);
    lemma_run_unfold(s, 2);
    lemma_run_unfold(passed, 1);
}

} // verus!
