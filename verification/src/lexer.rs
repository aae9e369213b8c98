use crate::error::Error;
use crate::syntax::{
    balanced, closes_matched, lemma_balanced_loop, lemma_closes_matched_add,
    lemma_closes_matched_push, lemma_depth_push, lemma_render_push, lemma_scan_push,
    lemma_scan_stuck, parse_spec, render, render_one, scan, Instr,
};
use crate::util::IntoChars;
use vstd::prelude::*;
use vstd::std_specs::iter::IteratorSpec;
use vstd::string::StringExecFns;

verus! {

/// One node of a parsed program.
#[derive(Debug, PartialEq, Eq)]
pub enum Command {
    Increment,
    Decrement,
    Left,
    Right,
    Output,
    Input,
    Loop(Commands),
}

/// An ordered sequence of commands: a whole program, or the body of one loop.
#[derive(Debug, PartialEq, Eq)]
pub struct Commands {
    body: Vec<Command>,
}

impl View for Command {
    type V = Instr;

    open spec fn view(&self) -> Instr
        decreases self,
    {
        match self {
            Command::Increment => Instr::Increment,
            Command::Decrement => Instr::Decrement,
            Command::Left => Instr::Left,
            Command::Right => Instr::Right,
            Command::Output => Instr::Output,
            Command::Input => Instr::Input,
            Command::Loop(body) => Instr::Loop(body.view()),
        }
    }
}

impl View for Commands {
    type V = Seq<Instr>;

    closed spec fn view(&self) -> Seq<Instr>
        decreases self,
    {
        Seq::new(
            self.body.len() as nat,
            |i: int|
                if 0 <= i < self.body.len() {
                    self.body[i].view()
                } else {
                    Instr::Increment
                },
        )
    }
}

impl Command {
    /// The text of the command in operator characters.
    pub fn to_string(&self) -> (text: String)
        ensures
            text@ == render_one(self@),
    {
        let mut text = String::new();
        self.write_to(&mut text);
        text
    }

    /// Appends the text of the command to `out`.
    fn write_to(&self, out: &mut String)
        ensures
            final(out)@ == old(out)@ + render_one(self@),
        decreases self,
    {
        proof {
            reveal_strlit("+");
            reveal_strlit("-");
            reveal_strlit("<");
            reveal_strlit(">");
            reveal_strlit(".");
            reveal_strlit(",");
            reveal_strlit("[");
            reveal_strlit("]");
        }
        match self {
            Command::Increment => out.append("+"),
            Command::Decrement => out.append("-"),
            Command::Left => out.append("<"),
            Command::Right => out.append(">"),
            Command::Output => out.append("."),
            Command::Input => out.append(","),
            Command::Loop(body) => {
                out.append("[");
                body.write_to(out);
                out.append("]");
            },
        }
    }
}

impl Commands {
    /// An empty sequence.
    pub fn new() -> (r: Self)
        ensures
            r@ == Seq::<Instr>::empty(),
    {
        let r = Self { body: Vec::new() };
        r
    }

    /// Appends `c` as the last command.
    pub fn add(&mut self, c: Command)
        ensures
            final(self)@ == old(self)@.push(c@),
    {
        self.body.push(c);
    }

    /// The number of commands, nested ones not counted.
    pub fn len(&self) -> (n: usize)
        ensures
            n == self@.len(),
    {
        self.body.len()
    }

    /// The command at position `i`.
    pub fn get(&self, i: usize) -> (c: &Command)
        requires
            i < self@.len(),
        ensures
            c@ == self@[i as int],
    {
        &self.body[i]
    }

    /// An iterator that yields the commands in execution order.
    pub fn iter(&self) -> (it: std::slice::Iter<'_, Command>)
        ensures
            it.remaining().len() == self@.len(),
            forall|i: int| 0 <= i < self@.len() ==> (#[trigger] it.remaining()[i])@ == self@[i],
    {
        self.body.iter()
    }

    /// The text of the commands in operator characters.
    pub fn to_string(&self) -> (text: String)
        ensures
            text@ == render(self@),
    {
        let mut text = String::new();
        self.write_to(&mut text);
        text
    }

    /// Appends the text of the commands to `out`.
    fn write_to(&self, out: &mut String)
        ensures
            final(out)@ == old(out)@ + render(self@),
        decreases self,
    {
        let mut i: usize = 0;
        while i < self.body.len()
            invariant
                i <= self.body.len(),
                out@ == old(out)@ + render(self@.take(i as int)),
            decreases self.body.len() - i,
        {
            proof {
                lemma_render_push(self@.take(i as int), self@[i as int]);
                assert(self@.take(i + 1) =~= self@.take(i as int).push(self@[i as int]));
            }
            self.body[i].write_to(out);
            i = i + 1;
        }
        assert(self@.take(i as int) =~= self@);
    }
}

/// Parses a program text: the commands in order, each loop holding its body.
/// Every character but `+ - < > . , [ ]` is commentary and is passed over.
pub fn parse(source: &str) -> (r: Result<Commands, Error>)
    ensures
        match r {
            Ok(commands) => parse_spec(source@) == Ok::<Seq<Instr>, Error>(commands@),
            Err(e) => parse_spec(source@) == Err::<Seq<Instr>, Error>(e),
        },
{
    let mut chars = IntoChars::new(source.to_owned());
    parse_next(&mut chars, false, Ghost(Seq::empty()), Ghost(Seq::empty()))
}

/// The error that parsing ends with when reading the text fails after `source`: the `]`
/// that came unmatched before the failure, if there is one, and else the failure itself.
pub fn parse_interrupted(source: &str) -> (e: Error)
    ensures
        e == if scan(source@) is None {
            Error::UnexpectedClosingBracket
        } else {
            Error::InputFailure
        },
{
    match parse(source) {
        Err(Error::UnexpectedClosingBracket) => Error::UnexpectedClosingBracket,
        _ => Error::InputFailure,
    }
}

/// Reads one scope from `iter`: up to the first `]` that no `[` of the scope matches, or
/// up to the end of the text where there is none, and no further. That `]` closes the
/// scope where `inner` is set, and is an error where it is not; the end of the text is an
/// error where `inner` is set. `seen` is the text before the scope, and `open` holds the
/// commands read so far in each scope around it.
fn parse_next(
    iter: &mut IntoChars,
    inner: bool,
    Ghost(seen): Ghost<Seq<char>>,
    Ghost(open): Ghost<Seq<Seq<Instr>>>,
) -> (r: Result<Commands, Error>)
    requires
        scan(seen) == Some(open.push(Seq::empty())),
        inner <==> open.len() > 0,
    ensures
        ({
            let source = old(iter).remaining();
            let used = source.len() - final(iter).remaining().len();
            &&& used >= 0
            &&& final(iter).remaining() == source.skip(used)
            &&& r matches Err(e) ==> parse_spec(seen + source) == Err::<Seq<Instr>, Error>(e)
            &&& if closes_matched(source) {
                &&& used == source.len()
                &&& if inner {
                    r == Err::<Commands, Error>(Error::MissingClosingBracket)
                } else {
                    r matches Ok(commands) ==> parse_spec(seen + source) == Ok::<
                        Seq<Instr>,
                        Error,
                    >(commands@)
                }
            } else {
                &&& used >= 1
                &&& source[used - 1] == ']'
                &&& balanced(source.take(used - 1))
                &&& if inner {
                    r matches Ok(commands) && scan(seen + source.take(used - 1)) == Some(
                        open.push(commands@),
                    )
                } else {
                    r == Err::<Commands, Error>(Error::UnexpectedClosingBracket)
                }
            }
        }),
    decreases old(iter).remaining().len(),
{
    let ghost whole = iter.remaining();
    let ghost mut used = Seq::<char>::empty();
    let mut ret = Commands::new();
    assert(used.take(0) =~= used);
    loop
        invariant
            whole == old(iter).remaining(),
            whole == used + iter.remaining(),
            scan(seen + used) == Some(open.push(ret@)),
            balanced(used),
            inner <==> open.len() > 0,
        decreases iter.remaining().len(),
    {
        let ghost level = open.push(ret@);
        match iter.next() {
            None => {
                assert(whole =~= used);
                return if inner {
                    Err(Error::MissingClosingBracket)
                } else {
                    Ok(ret)
                };
            },
            Some(c) => {
                proof {
                    lemma_scan_push(seen + used, c);
                    lemma_closes_matched_push(used, c);
                    lemma_depth_push(used, c);
                }
                if c == '+' {
                    ret.add(Command::Increment);
                } else if c == '-' {
                    ret.add(Command::Decrement);
                } else if c == '<' {
                    ret.add(Command::Left);
                } else if c == '>' {
                    ret.add(Command::Right);
                } else if c == '.' {
                    ret.add(Command::Output);
                } else if c == ',' {
                    ret.add(Command::Input);
                } else if c == '[' {
                    let ghost inside = iter.remaining();
                    let ghost prefix = seen + used.push(c);
                    assert(prefix + inside =~= seen + whole);
                    assert(used.push(c) + inside =~= whole);
                    match parse_next(iter, true, Ghost(prefix), Ghost(level)) {
                        Err(e) => {
                            proof {
                                lemma_closes_matched_add(used.push(c), inside);
                                assert(whole.skip(whole.len() as int) =~= inside.skip(
                                    inside.len() as int,
                                ));
                            }
                            return Err(e);
                        },
                        Ok(body) => {
                            proof {
                                let n = inside.len() - iter.remaining().len();
                                let text = inside.take(n - 1);
                                lemma_scan_push(prefix + text, ']');
                                lemma_balanced_loop(used, text);
                                assert(used.push(c) + inside.take(n) =~= (used.push(c)
                                    + text).push(']'));
                                assert(seen + (used.push(c) + inside.take(n)) =~= (prefix
                                    + text).push(']'));
                                used = used.push(c) + inside.take(n);
                            }
                            ret.add(Command::Loop(body));
                            continue;
                        },
                    }
                } else if c == ']' {
                    proof {
                        assert(whole.take(used.len() as int) =~= used);
                        assert(whole.take(used.len() as int + 1) =~= used.push(c));
                        assert(whole.skip(used.len() as int + 1) =~= iter.remaining());
                    }
                    return if !inner {
                        proof {
                            lemma_scan_stuck(seen + used.push(c), iter.remaining());
                            assert(seen + used.push(c) + iter.remaining() =~= seen + whole);
                        }
                        Err(Error::UnexpectedClosingBracket)
                    } else {
                        Ok(ret)
                    };
                }
                proof {
                    used = used.push(c);
                }
            },
        }
    }
}

} // verus!
