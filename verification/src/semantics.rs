use crate::machine::{
    decremented, incremented, lemma_next_wf, lemma_run_split, lemma_run_unfold, Frame, Machine,
    Session,
};
use crate::memory::{left_of, right_of};
use crate::syntax::Instr;
use vstd::prelude::*;

verus! {

/// What a program sees and changes: the tape, the pointer, the input not yet read and the
/// output written so far.
pub struct Store {
    pub tape: Seq<u8>,
    pub pointer: int,
    pub input: Seq<u8>,
    pub output: Seq<u8>,
}

impl Store {
    /// The tape has a cell and the pointer names one.
    pub open spec fn wf(self) -> bool {
        0 <= self.pointer < self.tape.len()
    }

    /// The value of the cell under the pointer.
    pub open spec fn cell(self) -> u8 {
        self.tape[self.pointer]
    }

    /// The same store with another value in the cell under the pointer.
    pub open spec fn with_cell(self, v: u8) -> Store {
        Store { tape: self.tape.update(self.pointer, v), ..self }
    }

    /// The store after one command that is no loop.
    pub open spec fn apply(self, instr: Instr) -> Store {
        match instr {
            Instr::Increment => self.with_cell(incremented(self.cell())),
            Instr::Decrement => self.with_cell(decremented(self.cell())),
            Instr::Left => Store { pointer: left_of(self.pointer, self.tape.len() as int), ..self },
            Instr::Right => Store {
                pointer: right_of(self.pointer, self.tape.len() as int),
                ..self
            },
            Instr::Output => Store { output: self.output.push(self.cell()), ..self },
            Instr::Input => if self.input.len() > 0 {
                Store { input: self.input.drop_first(), ..self.with_cell(self.input[0]) }
            } else {
                self
            },
            Instr::Loop(_) => self,
        }
    }

    /// What the program sees of the session `x`: all of it but the execution stack.
    pub open spec fn of(x: Session) -> Store {
        Store {
            tape: x.machine.tape,
            pointer: x.machine.pointer,
            input: x.input,
            output: x.output,
        }
    }

    /// The session in which a machine with the execution stack `stack` works on this store.
    pub open spec fn on(self, stack: Seq<Frame>) -> Session {
        Session {
            machine: Machine { tape: self.tape, pointer: self.pointer, stack },
            input: self.input,
            output: self.output,
        }
    }
}

/// The store after the commands of `code`, executed in order, each loop as often as its
/// cell is nonzero on entry and after its body. `fuel` bounds how deep the repetitions of
/// loops may nest; `None` tells that it did not suffice.
pub open spec fn eval(code: Seq<Instr>, s: Store, fuel: nat) -> Option<Store>
    decreases fuel, code.len() + 1,
{
    if code.len() == 0 {
        Some(s)
    } else {
        let first = match code[0] {
            Instr::Loop(body) => eval_loop(body, s, fuel),
            instr => Some(s.apply(instr)),
        };
        match first {
            Some(t) => eval(code.drop_first(), t, fuel),
            None => None,
        }
    }
}

/// The store after a loop with the commands `body`: the store as it is where the cell is
/// zero, and else the store after the body and then the loop again.
pub open spec fn eval_loop(body: Seq<Instr>, s: Store, fuel: nat) -> Option<Store>
    decreases fuel, 0nat,
{
    if s.cell() == 0 {
        Some(s)
    } else if fuel == 0 {
        None
    } else {
        match eval(body, s, (fuel - 1) as nat) {
            Some(t) => eval_loop(body, t, (fuel - 1) as nat),
            None => None,
        }
    }
}

/// One step of a session whose machine has not halted.
proof fn lemma_one_step(s: Session)
    requires
        !s.machine.halted(),
    ensures
        s.run(1) == s.step(),
{
    lemma_run_unfold(s, 1);
}

/// A frame at position `pos` of `code`, whatever lies under it on the stack, reaches the
/// end of `code` with the store that the rest of `code` evaluates to.
proof fn lemma_frame(
    under: Seq<Frame>,
    code: Seq<Instr>,
    pos: nat,
    s: Store,
    fuel: nat,
) -> (steps: nat)
    requires
        pos <= code.len(),
        s.wf(),
        eval(code.skip(pos as int), s, fuel) is Some,
    ensures
        s.on(under.push(Frame { code, pos })).run(steps) == eval(
            code.skip(pos as int),
            s,
            fuel,
        )->Some_0.on(under.push(Frame { code, pos: code.len() })),
        eval(code.skip(pos as int), s, fuel)->Some_0.wf(),
    decreases fuel, code.len() - pos + 1,
{
    if pos == code.len() {
        0
    } else {
        let rest = code.skip(pos as int);
        let start = s.on(under.push(Frame { code, pos }));
        let instr = code[pos as int];
        let here = under.push(Frame { code, pos: pos + 1 });
        assert(rest.drop_first() =~= code.skip(pos as int + 1));
        assert(start.machine.at(pos + 1).stack =~= here);
        lemma_next_wf(start.machine, start.event());
        lemma_one_step(start);
        match instr {
            Instr::Loop(body) => {
                let after = eval_loop(body, s, fuel)->Some_0;
                if s.cell() == 0 {
                    let more = lemma_frame(under, code, pos + 1, s, fuel);
                    lemma_run_split(start, 1, more);
                    1 + more
                } else {
                    let turns = lemma_loop(here, body, s, fuel);
                    let more = lemma_frame(under, code, pos + 1, after, fuel);
                    lemma_run_split(start, 1, turns + more);
                    lemma_run_split(start.step(), turns, more);
                    1 + turns + more
                }
            },
            _ => {
                let more = lemma_frame(under, code, pos + 1, s.apply(instr), fuel);
                lemma_run_split(start, 1, more);
                1 + more
            },
        }
    }
}

/// The frame of a loop's body, entered with the cell nonzero, leaves the stack with the
/// store that the loop evaluates to.
proof fn lemma_loop(under: Seq<Frame>, body: Seq<Instr>, s: Store, fuel: nat) -> (steps: nat)
    requires
        under.len() >= 1,
        s.wf(),
        s.cell() != 0,
        eval_loop(body, s, fuel) is Some,
    ensures
        s.on(under.push(Frame { code: body, pos: 0 })).run(steps) == eval_loop(
            body,
            s,
            fuel,
        )->Some_0.on(under),
        eval_loop(body, s, fuel)->Some_0.wf(),
    decreases fuel, 0nat,
{
    let start = s.on(under.push(Frame { code: body, pos: 0 }));
    let once = eval(body, s, (fuel - 1) as nat)->Some_0;
    assert(body.skip(0) =~= body);
    let through = lemma_frame(under, body, 0, s, (fuel - 1) as nat);
    let end = once.on(under.push(Frame { code: body, pos: body.len() }));
    lemma_one_step(end);
    lemma_run_split(start, through, 1);
    if once.cell() == 0 {
        assert(end.step().machine.stack =~= under);
        through + 1
    } else {
        assert(end.step().machine.stack =~= under.push(Frame { code: body, pos: 0 }));
        let again = lemma_loop(under, body, once, (fuel - 1) as nat);
        lemma_run_split(start, through + 1, again);
        through + 1 + again
    }
}

/// The stack machine computes what the program means: where `program` evaluates to a
/// store, a machine started on it halts after some number of steps, and then holds that
/// store's tape and pointer, has read what the store lacks of the input and has written
/// the store's output. No greater number of steps changes that.
pub proof fn lemma_run_computes_eval(
    program: Seq<Instr>,
    m: Machine,
    input: Seq<u8>,
    output: Seq<u8>,
    fuel: nat,
) -> (steps: nat)
    requires
        m.wf(),
        m.halted(),
        eval(program, Store::of(m.session(input, output)), fuel) is Some,
    ensures
        forall|limit: nat|
            limit >= steps ==> #[trigger] m.started(program).session(input, output).run(limit)
                == eval(program, Store::of(m.session(input, output)), fuel)->Some_0.on(m.stack),
{
    let s = Store::of(m.session(input, output));
    let start = m.started(program).session(input, output);
    let result = eval(program, s, fuel)->Some_0;
    assert(program.skip(0) =~= program);
    let through = lemma_frame(m.stack, program, 0, s, fuel);
    let end = result.on(m.stack.push(Frame { code: program, pos: program.len() }));
    lemma_one_step(end);
    assert(end.step().machine.stack =~= m.stack);
    lemma_run_split(start, through, 1);
    let steps = through + 1;
    assert forall|limit: nat| limit >= steps implies #[trigger] start.run(limit) == result.on(
        m.stack,
    ) by {
        lemma_run_split(start, steps, (limit - steps) as nat);
    }
    steps
}

/// The store with which the frame at position `pos` of `code` leaves the stack: that of
/// the rest of `code`, and for a frame that is not the outermost, which is a loop's body,
/// that of the loop after it.
spec fn frame_eval(code: Seq<Instr>, pos: nat, s: Store, fuel: nat, outermost: bool) -> Option<
    Store,
> {
    match eval(code.skip(pos as int), s, fuel) {
        Some(t) => if outermost {
            Some(t)
        } else {
            eval_loop(code, t, fuel)
        },
        None => None,
    }
}

/// Within `steps` steps the stack of `x` comes down to `depth` frames.
spec fn leaves(x: Session, depth: nat, steps: nat) -> bool
    decreases steps,
{
    x.machine.stack.len() <= depth || (steps > 0 && leaves(x.step(), depth, (steps - 1) as nat))
}

/// For the first `steps` steps the stack of `x` holds more than `depth` frames.
spec fn above(x: Session, depth: nat, steps: nat) -> bool {
    forall|i: nat| i < steps ==> (#[trigger] x.run(i)).machine.stack.len() > depth
}

/// A stack that is above some depth, and stays so for some steps after its next step,
/// stays so for one step more.
proof fn lemma_above_after_step(x: Session, depth: nat, more: nat)
    requires
        x.machine.stack.len() > depth,
        above(x.step(), depth, more),
    ensures
        above(x, depth, 1 + more),
{
    assert forall|i: nat| i < 1 + more implies (#[trigger] x.run(i)).machine.stack.len()
        > depth by {
        if i > 0 {
            lemma_run_unfold(x, i);
        }
    }
}

/// A stack that stays above some depth for `a` steps, and for `b` steps after those, stays
/// so for `a + b` steps.
proof fn lemma_above_join(x: Session, depth: nat, a: nat, b: nat)
    requires
        above(x, depth, a),
        above(x.run(a), depth, b),
    ensures
        above(x, depth, a + b),
{
    assert forall|i: nat| i < a + b implies (#[trigger] x.run(i)).machine.stack.len() > depth by {
        if i >= a {
            lemma_run_split(x, a, (i - a) as nat);
        }
    }
}

/// A stack that stays above some depth stays above any smaller one.
proof fn lemma_above_lower(x: Session, depth: nat, lower: nat, steps: nat)
    requires
        above(x, depth, steps),
        lower <= depth,
    ensures
        above(x, lower, steps),
{
    assert forall|i: nat| i < steps implies (#[trigger] x.run(i)).machine.stack.len() > lower by {
        assert(x.run(i).machine.stack.len() > depth);
    }
}

/// What evaluates with some fuel evaluates to the same with more.
proof fn lemma_eval_more_fuel(code: Seq<Instr>, s: Store, fuel: nat, more: nat)
    requires
        eval(code, s, fuel) is Some,
        fuel <= more,
    ensures
        eval(code, s, more) == eval(code, s, fuel),
    decreases fuel, code.len() + 1,
{
    if code.len() > 0 {
        match code[0] {
            Instr::Loop(body) => {
                lemma_loop_more_fuel(body, s, fuel, more);
                lemma_eval_more_fuel(code.drop_first(), eval_loop(body, s, fuel)->Some_0, fuel, more);
            },
            instr => {
                lemma_eval_more_fuel(code.drop_first(), s.apply(instr), fuel, more);
            },
        }
    }
}

/// A loop that evaluates with some fuel evaluates to the same with more.
proof fn lemma_loop_more_fuel(body: Seq<Instr>, s: Store, fuel: nat, more: nat)
    requires
        eval_loop(body, s, fuel) is Some,
        fuel <= more,
    ensures
        eval_loop(body, s, more) == eval_loop(body, s, fuel),
    decreases fuel, 0nat,
{
    if s.cell() != 0 {
        let once = eval(body, s, (fuel - 1) as nat)->Some_0;
        lemma_eval_more_fuel(body, s, (fuel - 1) as nat, (more - 1) as nat);
        lemma_loop_more_fuel(body, once, (fuel - 1) as nat, (more - 1) as nat);
    }
}

/// A frame that evaluates with some fuel evaluates to the same with more.
proof fn lemma_frame_more_fuel(
    code: Seq<Instr>,
    pos: nat,
    s: Store,
    fuel: nat,
    more: nat,
    outermost: bool,
)
    requires
        frame_eval(code, pos, s, fuel, outermost) is Some,
        fuel <= more,
    ensures
        frame_eval(code, pos, s, more, outermost) == frame_eval(code, pos, s, fuel, outermost),
{
    lemma_eval_more_fuel(code.skip(pos as int), s, fuel, more);
    if !outermost {
        lemma_loop_more_fuel(code, eval(code.skip(pos as int), s, fuel)->Some_0, fuel, more);
    }
}

/// A stack that comes down to some depth comes down to any greater depth.
proof fn lemma_leaves_deeper(x: Session, depth: nat, deeper: nat, steps: nat)
    requires
        leaves(x, depth, steps),
        depth <= deeper,
    ensures
        leaves(x, deeper, steps),
    decreases steps,
{
    if x.machine.stack.len() > depth {
        lemma_leaves_deeper(x.step(), depth, deeper, (steps - 1) as nat);
    }
}

/// A stack that comes down within `steps` steps, and has not after `done` of them, comes
/// down within the steps that are left.
proof fn lemma_leaves_later(x: Session, depth: nat, steps: nat, done: nat)
    requires
        leaves(x, depth, steps),
        done <= steps,
        above(x, depth, done),
    ensures
        leaves(x.run(done), depth, (steps - done) as nat),
    decreases done,
{
    if done > 0 {
        assert(x.run(0) == x);
        lemma_run_unfold(x, done);
        assert forall|i: nat| i < done - 1 implies (#[trigger] x.step().run(
            i,
        )).machine.stack.len() > depth by {
            lemma_run_unfold(x, i + 1);
            assert(x.run(i + 1).machine.stack.len() > depth);
        }
        lemma_leaves_later(x.step(), depth, (steps - 1) as nat, (done - 1) as nat);
    }
}

/// A session that has halted after `steps` steps has come down to an empty stack.
proof fn lemma_halt_leaves(x: Session, steps: nat)
    requires
        x.run(steps).machine.halted(),
    ensures
        leaves(x, 0, steps),
    decreases steps,
{
    if !x.machine.halted() {
        lemma_halt_leaves(x.step(), (steps - 1) as nat);
    }
}

/// A frame that leaves the stack within `steps` steps does so with the store that it
/// evaluates to, for some fuel, and not before. Gives that fuel and the number of steps
/// taken.
proof fn lemma_frame_left(
    under: Seq<Frame>,
    code: Seq<Instr>,
    pos: nat,
    s: Store,
    steps: nat,
) -> (r: (nat, nat))
    requires
        pos <= code.len(),
        s.wf(),
        leaves(s.on(under.push(Frame { code, pos })), under.len(), steps),
    ensures
        1 <= r.1 <= steps,
        frame_eval(code, pos, s, r.0, under.len() == 0) is Some,
        frame_eval(code, pos, s, r.0, under.len() == 0)->Some_0.wf(),
        s.on(under.push(Frame { code, pos })).run(r.1) == frame_eval(
            code,
            pos,
            s,
            r.0,
            under.len() == 0,
        )->Some_0.on(under),
        above(s.on(under.push(Frame { code, pos })), under.len(), r.1),
    decreases steps,
{
    let outermost = under.len() == 0;
    let start = s.on(under.push(Frame { code, pos }));
    let next = start.step();
    let left = (steps - 1) as nat;
    lemma_one_step(start);
    lemma_next_wf(start.machine, start.event());
    if pos == code.len() {
        if outermost || s.cell() == 0 {
            assert(next.machine.stack =~= under);
            assert(start.run(0) == start);
            (0, 1)
        } else {
            assert(next.machine.stack =~= under.push(Frame { code, pos: 0 }));
            let (fuel, more) = lemma_frame_left(under, code, 0, s, left);
            assert(code.skip(0) =~= code);
            lemma_run_split(start, 1, more);
            lemma_above_after_step(start, under.len(), more);
            (fuel + 1, 1 + more)
        }
    } else {
        let here = under.push(Frame { code, pos: pos + 1 });
        assert(code.skip(pos as int).drop_first() =~= code.skip(pos as int + 1));
        assert(start.machine.at(pos + 1).stack =~= here);
        match code[pos as int] {
            Instr::Loop(body) => {
                if s.cell() == 0 {
                    let (fuel, more) = lemma_frame_left(under, code, pos + 1, s, left);
                    assert(eval_loop(body, s, fuel) == Some(s));
                    lemma_run_split(start, 1, more);
                    lemma_above_after_step(start, under.len(), more);
                    (fuel, 1 + more)
                } else {
                    lemma_leaves_deeper(next, under.len(), here.len(), left);
                    let (inner_fuel, turns) = lemma_frame_left(here, body, 0, s, left);
                    assert(body.skip(0) =~= body);
                    let after = frame_eval(body, 0, s, inner_fuel, false)->Some_0;
                    lemma_above_lower(next, here.len(), under.len(), turns);
                    lemma_leaves_later(next, under.len(), left, turns);
                    let (outer_fuel, more) = lemma_frame_left(
                        under,
                        code,
                        pos + 1,
                        after,
                        (left - turns) as nat,
                    );
                    let fuel = if inner_fuel + 1 >= outer_fuel {
                        inner_fuel + 1
                    } else {
                        outer_fuel
                    };
                    lemma_loop_more_fuel(body, s, inner_fuel + 1, fuel);
                    lemma_frame_more_fuel(code, pos + 1, after, outer_fuel, fuel, outermost);
                    lemma_run_split(start, 1, turns + more);
                    lemma_run_split(next, turns, more);
                    lemma_above_join(next, under.len(), turns, more);
                    lemma_above_after_step(start, under.len(), turns + more);
                    (fuel, 1 + turns + more)
                }
            },
            instr => {
                let (fuel, more) = lemma_frame_left(under, code, pos + 1, s.apply(instr), left);
                lemma_run_split(start, 1, more);
                lemma_above_after_step(start, under.len(), more);
                (fuel, 1 + more)
            },
        }
    }
}

/// A run that halts has computed what the program means: where a machine started on
/// `program` has halted after `limit` steps, `program` evaluates with some fuel, and the
/// machine holds the tape and the pointer of the store that it evaluates to, has read what
/// that store lacks of the input and has written its output. Gives that fuel.
pub proof fn lemma_halt_gives_eval(
    program: Seq<Instr>,
    m: Machine,
    input: Seq<u8>,
    output: Seq<u8>,
    limit: nat,
) -> (fuel: nat)
    requires
        m.wf(),
        m.halted(),
        m.started(program).session(input, output).run(limit).machine.halted(),
    ensures
        eval(program, Store::of(m.session(input, output)), fuel) is Some,
        m.started(program).session(input, output).run(limit) == eval(
            program,
            Store::of(m.session(input, output)),
            fuel,
        )->Some_0.on(m.stack),
{
    let s = Store::of(m.session(input, output));
    let start = m.started(program).session(input, output);
    lemma_halt_leaves(start, limit);
    let (fuel, steps) = lemma_frame_left(m.stack, program, 0, s, limit);
    assert(program.skip(0) =~= program);
    let result = eval(program, s, fuel)->Some_0;
    lemma_run_split(start, steps, (limit - steps) as nat);
    fuel
}

} // verus!
