use crate::error::Error;
use vstd::prelude::*;

verus! {

/// The mathematical form of one command: what contracts and laws speak of.
pub enum Instr {
    Increment,
    Decrement,
    Left,
    Right,
    Output,
    Input,
    Loop(Seq<Instr>),
}

/// The command that a character stands for by itself, if it is one of `+ - < > . ,`.
pub open spec fn simple(c: char) -> Option<Instr> {
    if c == '+' {
        Some(Instr::Increment)
    } else if c == '-' {
        Some(Instr::Decrement)
    } else if c == '<' {
        Some(Instr::Left)
    } else if c == '>' {
        Some(Instr::Right)
    } else if c == '.' {
        Some(Instr::Output)
    } else if c == ',' {
        Some(Instr::Input)
    } else {
        None
    }
}

/// Whether `c` is one of the eight characters with a meaning; every other one is commentary.
pub open spec fn is_operator(c: char) -> bool {
    c == '[' || c == ']' || simple(c) is Some
}

/// The scopes that are open after one more character. `open` holds the commands read so far
/// in each open scope, the outermost first; its last entry is the scope being read.
/// `None` tells that `]` came while only the outermost scope was open.
pub open spec fn feed(open: Seq<Seq<Instr>>, c: char) -> Option<Seq<Seq<Instr>>> {
    if c == '[' {
        Some(open.push(Seq::empty()))
    } else if c == ']' {
        if open.len() < 2 {
            None
        } else {
            let body = open.last();
            let outer = open[open.len() - 2];
            Some(open.take(open.len() - 2).push(outer.push(Instr::Loop(body))))
        }
    } else {
        match simple(c) {
            Some(instr) => Some(open.drop_last().push(open.last().push(instr))),
            None => Some(open),
        }
    }
}

/// The scopes that are open after the text `s`, read from an empty outermost scope.
pub open spec fn scan(s: Seq<char>) -> Option<Seq<Seq<Instr>>>
    decreases s.len(),
{
    if s.len() == 0 {
        Some(seq![Seq::<Instr>::empty()])
    } else {
        match scan(s.drop_last()) {
            Some(open) => feed(open, s.last()),
            None => None,
        }
    }
}

/// What parsing the text `s` gives: the commands of the outermost scope when every `[` has
/// its `]`, and else the error of the first bracket that has no partner.
pub open spec fn parse_spec(s: Seq<char>) -> Result<Seq<Instr>, Error> {
    match scan(s) {
        None => Err(Error::UnexpectedClosingBracket),
        Some(open) => if open.len() == 1 {
            Ok(open[0])
        } else {
            Err(Error::MissingClosingBracket)
        },
    }
}

/// The text of one command in operator characters.
pub open spec fn render_one(instr: Instr) -> Seq<char>
    decreases instr,
{
    match instr {
        Instr::Increment => seq!['+'],
        Instr::Decrement => seq!['-'],
        Instr::Left => seq!['<'],
        Instr::Right => seq!['>'],
        Instr::Output => seq!['.'],
        Instr::Input => seq![','],
        Instr::Loop(body) => seq!['['] + render(body) + seq![']'],
    }
}

/// The text of a command sequence in operator characters.
pub open spec fn render(code: Seq<Instr>) -> Seq<char>
    decreases code,
{
    if code.len() == 0 {
        Seq::empty()
    } else {
        render(code.drop_last()) + render_one(code.last())
    }
}

/// The text `s` without its commentary: the operator characters alone, in their order.
pub open spec fn strip(s: Seq<char>) -> Seq<char> {
    s.filter(|c: char| is_operator(c))
}

/// By how much a character changes the number of open loops.
pub open spec fn delta(c: char) -> int {
    if c == '[' {
        1
    } else if c == ']' {
        -1
    } else {
        0
    }
}

/// The number of `[` in `s` less the number of `]`.
pub open spec fn depth(s: Seq<char>) -> int
    decreases s.len(),
{
    if s.len() == 0 {
        0
    } else {
        depth(s.drop_last()) + delta(s.last())
    }
}

/// No `]` in `s` comes without a `[` before it that is still open.
pub open spec fn closes_matched(s: Seq<char>) -> bool {
    forall|k: int| 0 <= k <= s.len() ==> depth(#[trigger] s.take(k)) >= 0
}

/// Every `[` in `s` has its `]` and every `]` its `[`.
pub open spec fn balanced(s: Seq<char>) -> bool {
    closes_matched(s) && depth(s) == 0
}

/// The text of the scopes in `open`: each scope's commands, and `[` between two scopes.
pub open spec fn render_open(open: Seq<Seq<Instr>>) -> Seq<char>
    decreases open.len(),
{
    if open.len() == 0 {
        Seq::empty()
    } else if open.len() == 1 {
        render(open[0])
    } else {
        render_open(open.drop_last()) + seq!['['] + render(open.last())
    }
}

/// At least the outermost scope is open after any text that scans.
pub proof fn lemma_scan_nonempty(s: Seq<char>)
    ensures
        scan(s) matches Some(open) ==> open.len() >= 1,
    decreases s.len(),
{
    if s.len() > 0 {
        lemma_scan_nonempty(s.drop_last());
    }
}

/// Scanning one more character feeds it to the scopes open so far.
pub proof fn lemma_scan_push(s: Seq<char>, c: char)
    ensures
        scan(s.push(c)) == match scan(s) {
            Some(open) => feed(open, c),
            None => None,
        },
{
    assert(s.push(c).drop_last() =~= s);
}

/// Once `]` has come with no scope to close, no further text mends it.
pub proof fn lemma_scan_stuck(s: Seq<char>, t: Seq<char>)
    requires
        scan(s) is None,
    ensures
        scan(s + t) is None,
    decreases t.len(),
{
    if t.len() == 0 {
    } else {
        lemma_scan_stuck(s, t.drop_last());
        assert((s + t).drop_last() =~= s + t.drop_last());
    }
}

/// The text of a sequence with one more command is the text of the sequence, then that of
/// the command.
pub proof fn lemma_render_push(code: Seq<Instr>, instr: Instr)
    ensures
        render(code.push(instr)) == render(code) + render_one(instr),
{
    assert(code.push(instr).drop_last() =~= code);
}

/// One more character changes the depth by what it opens or closes.
pub proof fn lemma_depth_push(s: Seq<char>, c: char)
    ensures
        depth(s.push(c)) == depth(s) + delta(c),
{
    assert(s.push(c).drop_last() =~= s);
}

/// A text with one more character has no unmatched `]` exactly if the text had none and
/// the character is not one.
pub proof fn lemma_closes_matched_push(s: Seq<char>, c: char)
    ensures
        closes_matched(s.push(c)) <==> closes_matched(s) && depth(s) + delta(c) >= 0,
{
    let t = s.push(c);
    lemma_depth_push(s, c);
    assert(t.take(t.len() as int) =~= t);
    assert forall|k: int| 0 <= k <= s.len() implies #[trigger] t.take(k) == s.take(k) by {
        assert(t.take(k) =~= s.take(k));
    }
    if closes_matched(t) {
        assert forall|k: int| 0 <= k <= s.len() implies depth(#[trigger] s.take(k)) >= 0 by {
            assert(depth(t.take(k)) >= 0);
        }
    }
    if closes_matched(s) && depth(s) + delta(c) >= 0 {
        assert forall|k: int| 0 <= k <= t.len() implies depth(#[trigger] t.take(k)) >= 0 by {
            if k <= s.len() {
                assert(depth(s.take(k)) >= 0);
            }
        }
    }
}

/// The depth of two texts in a row is the sum of their depths.
pub proof fn lemma_depth_add(a: Seq<char>, b: Seq<char>)
    ensures
        depth(a + b) == depth(a) + depth(b),
    decreases b.len(),
{
    if b.len() == 0 {
        assert(a + b =~= a);
    } else {
        lemma_depth_add(a, b.drop_last());
        assert((a + b).drop_last() =~= a + b.drop_last());
    }
}

/// After a text with no unmatched `]`, a text with none of its own leaves none.
pub proof fn lemma_closes_matched_add(a: Seq<char>, b: Seq<char>)
    requires
        closes_matched(a),
        closes_matched(b),
    ensures
        closes_matched(a + b),
{
    assert(a.take(a.len() as int) =~= a);
    assert forall|k: int| 0 <= k <= (a + b).len() implies depth(#[trigger] (a + b).take(k))
        >= 0 by {
        if k <= a.len() {
            assert((a + b).take(k) =~= a.take(k));
            assert(depth(a.take(k)) >= 0);
        } else {
            assert((a + b).take(k) =~= a + b.take(k - a.len()));
            lemma_depth_add(a, b.take(k - a.len()));
            assert(depth(b.take(k - a.len())) >= 0);
        }
    }
}

/// A balanced text, then a loop with a balanced text inside, is a balanced text.
pub proof fn lemma_balanced_loop(a: Seq<char>, b: Seq<char>)
    requires
        balanced(a),
        balanced(b),
    ensures
        balanced((a.push('[') + b).push(']')),
{
    lemma_depth_push(a, '[');
    lemma_closes_matched_push(a, '[');
    lemma_closes_matched_add(a.push('['), b);
    lemma_depth_add(a.push('['), b);
    lemma_depth_push(a.push('[') + b, ']');
    lemma_closes_matched_push(a.push('[') + b, ']');
}

/// Commentary changes nothing: a text scans as its operator characters do.
pub proof fn lemma_scan_strip(s: Seq<char>)
    ensures
        scan(strip(s)) == scan(s),
    decreases s.len(),
{
    reveal(Seq::filter);
    if s.len() > 0 {
        lemma_scan_strip(s.drop_last());
        if is_operator(s.last()) {
            lemma_scan_push(strip(s.drop_last()), s.last());
        }
    }
}

/// A text scans as long as no `]` comes unmatched, and then one scope is open for each
/// `[` that is not closed yet, beside the outermost.
pub proof fn lemma_scan_depth(s: Seq<char>)
    ensures
        scan(s) is Some <==> closes_matched(s),
        scan(s) matches Some(open) ==> open.len() == depth(s) + 1,
    decreases s.len(),
{
    assert(s.take(s.len() as int) =~= s);
    if s.len() > 0 {
        let front = s.drop_last();
        lemma_scan_depth(front);
        assert forall|k: int| 0 <= k <= front.len() implies #[trigger] s.take(k) == front.take(
            k,
        ) by {}
        if closes_matched(s) {
            assert forall|k: int| 0 <= k <= front.len() implies depth(#[trigger] front.take(k))
                >= 0 by {
                assert(depth(s.take(k)) >= 0);
            }
        }
        if scan(s) is Some {
            assert forall|k: int| 0 <= k <= s.len() implies depth(#[trigger] s.take(k)) >= 0 by {}
        }
    }
}

/// What has been scanned is, commentary apart, the text of the open scopes.
pub proof fn lemma_scan_render(s: Seq<char>)
    ensures
        scan(s) matches Some(open) ==> render_open(open) == strip(s),
    decreases s.len(),
{
    reveal(Seq::filter);
    if s.len() > 0 {
        let front = s.drop_last();
        let c = s.last();
        lemma_scan_render(front);
        lemma_scan_nonempty(front);
        if let Some(open) = scan(front) {
            if let Some(after) = feed(open, c) {
                if c == '[' {
                    assert(after.drop_last() =~= open);
                } else if c == ']' {
                    let outer = open[open.len() - 2];
                    let base = open.take(open.len() - 2);
                    let mid = open.drop_last();
                    lemma_render_push(outer, Instr::Loop(open.last()));
                    assert(after.drop_last() =~= base);
                    if base.len() == 0 {
                        assert(render_open(mid) == render(outer));
                    } else {
                        assert(mid.drop_last() =~= base);
                    }
                    assert(render_open(after) =~= render_open(open).push(c));
                } else if let Some(instr) = simple(c) {
                    lemma_render_push(open.last(), instr);
                    assert(render_one(instr) =~= seq![c]);
                    assert(render(open.last().push(instr)) =~= render(open.last()).push(c));
                    assert(after.drop_last() =~= open.drop_last());
                }
            }
        }
    }
}

/// Scanning the text of one command adds that command to the innermost open scope.
pub proof fn lemma_scan_render_one(before: Seq<char>, open: Seq<Seq<Instr>>, instr: Instr)
    requires
        scan(before) == Some(open),
        open.len() >= 1,
    ensures
        scan(before + render_one(instr)) == Some(open.drop_last().push(open.last().push(instr))),
    decreases instr, 0nat,
{
    match instr {
        Instr::Loop(body) => {
            let inside = before.push('[');
            let level = open.push(Seq::<Instr>::empty());
            lemma_scan_push(before, '[');
            lemma_scan_render_code(inside, level, body);
            lemma_scan_push(inside + render(body), ']');
            assert(before + render_one(instr) =~= (inside + render(body)).push(']'));
        },
        _ => {
            let c = render_one(instr)[0];
            lemma_scan_push(before, c);
            assert(before + render_one(instr) =~= before.push(c));
        },
    }
}

/// Scanning the text of a command sequence adds its commands to the innermost open scope.
pub proof fn lemma_scan_render_code(before: Seq<char>, open: Seq<Seq<Instr>>, code: Seq<Instr>)
    requires
        scan(before) == Some(open),
        open.len() >= 1,
    ensures
        scan(before + render(code)) == Some(open.drop_last().push(open.last() + code)),
    decreases code, 1nat,
{
    if code.len() > 0 {
        let front = code.drop_last();
        let grown = open.drop_last().push(open.last() + front);
        lemma_scan_render_code(before, open, front);
        lemma_scan_render_one(before + render(front), grown, code.last());
        assert((open.last() + front).push(code.last()) =~= open.last() + code);
        assert(before + render(code) =~= before + render(front) + render_one(code.last()));
    }
}

/// A text parses exactly as its operator characters alone do, and it parses to commands
/// if its brackets are balanced.
pub proof fn lemma_commentary_ignored(s: Seq<char>)
    ensures
        parse_spec(s) == parse_spec(strip(s)),
        balanced(s) ==> parse_spec(s) is Ok,
{
    lemma_scan_strip(s);
    lemma_scan_depth(s);
}

/// How parsing ends is a matter of the brackets alone: commands where they are balanced,
/// `UnexpectedClosingBracket` where a `]` comes unmatched, `MissingClosingBracket` where
/// none does and a `[` stays open.
pub proof fn lemma_parse_outcome(s: Seq<char>)
    ensures
        parse_spec(s) is Ok <==> balanced(s),
        parse_spec(s) == Err::<Seq<Instr>, Error>(Error::UnexpectedClosingBracket)
            <==> !closes_matched(s),
        parse_spec(s) == Err::<Seq<Instr>, Error>(Error::MissingClosingBracket) <==> closes_matched(
            s,
        ) && depth(s) > 0,
{
    lemma_scan_depth(s);
    lemma_scan_nonempty(s);
}

/// The commands that a text parses to have, as their own text, the operator characters of
/// that text.
pub proof fn lemma_parse_render(s: Seq<char>)
    ensures
        parse_spec(s) matches Ok(code) ==> render(code) == strip(s),
{
    lemma_scan_render(s);
}

/// The text of a command sequence parses back to that sequence.
pub proof fn lemma_round_trip(code: Seq<Instr>)
    ensures
        parse_spec(render(code)) == Ok::<Seq<Instr>, Error>(code),
{
    lemma_scan_render_code(Seq::empty(), seq![Seq::<Instr>::empty()], code);
}

/// Two command sequences with the same text are the same sequence.
pub proof fn lemma_render_injective(a: Seq<Instr>, b: Seq<Instr>)
    requires
        render(a) == render(b),
    ensures
        a == b,
{
    lemma_round_trip(a);
    lemma_round_trip(b);
}

} // verus!
