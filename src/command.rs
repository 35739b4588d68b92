//! The authoring syntax of calculation commands: `input(name)` and
//! `output(name)` tokens become positional placeholders `$i_k` and `$o_k`.

use vstd::prelude::*;
use vstd::string::*;
use crate::model::ids_view;
use crate::text::{decimal, push_char, push_decimal};

verus! {

/// `w` stands in `s` at position `i`.
pub open spec fn word_at(s: Seq<char>, i: int, w: Seq<char>) -> bool {
    0 <= i && i + w.len() <= s.len() && s.subrange(i, i + w.len()) == w
}

/// Position of the first `)` at or after `p`, or -1.
pub open spec fn close_from(s: Seq<char>, p: int) -> int
    decreases s.len() - p,
{
    if p < 0 || p >= s.len() {
        -1
    } else if s[p] == ')' {
        p
    } else {
        close_from(s, p + 1)
    }
}

/// The text `input(`.
pub open spec fn input_word() -> Seq<char> {
    seq!['i', 'n', 'p', 'u', 't', '(']
}

/// The text `output(`.
pub open spec fn output_word() -> Seq<char> {
    seq!['o', 'u', 't', 'p', 'u', 't', '(']
}

/// Position of the `)` that closes a token `w name)` starting at `i`, where
/// the name is not empty and holds no `)`; -1 when no such token starts there.
pub open spec fn token_close(s: Seq<char>, i: int, w: Seq<char>) -> int {
    if word_at(s, i, w) && close_from(s, i + w.len()) > i + w.len() && close_from(s, i + w.len())
        < s.len() {
        close_from(s, i + w.len())
    } else {
        -1
    }
}

/// Placeholder text: `$` then a kind letter, `_` and the position.
pub open spec fn placeholder(kind: char, k: nat) -> Seq<char> {
    seq!['$', kind, '_'] + decimal(k)
}

/// A parsed command: the text with placeholders, and the data template bound
/// at each input and output position.
pub struct ParsedCommand {
    pub command: Seq<char>,
    pub inputs: Seq<Seq<char>>,
    pub outputs: Seq<Seq<char>>,
}

/// Parse of `s` from position `i` on, with `ni` inputs and `no` outputs
/// already numbered before it. Tokens are taken leftmost first.
pub open spec fn parse_from(s: Seq<char>, i: int, ni: nat, no: nat) -> ParsedCommand
    decreases s.len() - i,
{
    if i < 0 || i >= s.len() {
        ParsedCommand { command: Seq::empty(), inputs: Seq::empty(), outputs: Seq::empty() }
    } else if token_close(s, i, input_word()) >= 0 {
        let c = token_close(s, i, input_word());
        let rest = parse_from(s, c + 1, ni + 1, no);
        ParsedCommand {
            command: placeholder('i', ni) + rest.command,
            inputs: seq![s.subrange(i + 6, c)] + rest.inputs,
            outputs: rest.outputs,
        }
    } else if token_close(s, i, output_word()) >= 0 {
        let c = token_close(s, i, output_word());
        let rest = parse_from(s, c + 1, ni, no + 1);
        ParsedCommand {
            command: placeholder('o', no) + rest.command,
            inputs: rest.inputs,
            outputs: seq![s.subrange(i + 7, c)] + rest.outputs,
        }
    } else {
        let rest = parse_from(s, i + 1, ni, no);
        ParsedCommand { command: seq![s[i]] + rest.command, inputs: rest.inputs, outputs: rest.outputs }
    }
}

/// Parse of a whole command.
pub open spec fn parse_spec(s: Seq<char>) -> ParsedCommand {
    parse_from(s, 0, 0, 0)
}

pub(crate) fn chars_of(s: &String) -> (r: Vec<char>)
    ensures
        r@ == s@,
{
    let n = s.as_str().unicode_len();
    let mut r: Vec<char> = Vec::new();
    let mut i: usize = 0;
    while i < n
        invariant
            n == s@.len(),
            i <= n,
            r@ == s@.subrange(0, i as int),
        decreases n - i,
    {
        r.push(s.as_str().get_char(i));
        i = i + 1;
        assert(r@ =~= s@.subrange(0, i as int));
    }
    assert(r@ =~= s@);
    r
}

fn word_input() -> (w: Vec<char>)
    ensures
        w@ == input_word(),
{
    let mut w: Vec<char> = Vec::new();
    w.push('i');
    w.push('n');
    w.push('p');
    w.push('u');
    w.push('t');
    w.push('(');
    assert(w@ =~= input_word());
    w
}

fn word_output() -> (w: Vec<char>)
    ensures
        w@ == output_word(),
{
    let mut w: Vec<char> = Vec::new();
    w.push('o');
    w.push('u');
    w.push('t');
    w.push('p');
    w.push('u');
    w.push('t');
    w.push('(');
    assert(w@ =~= output_word());
    w
}

pub(crate) fn is_word_at(s: &Vec<char>, i: usize, w: &Vec<char>) -> (r: bool)
    ensures
        r == word_at(s@, i as int, w@),
{
    if i > s.len() || w.len() > s.len() - i {
        return false;
    }
    let mut k: usize = 0;
    while k < w.len()
        invariant
            i + w@.len() <= s@.len(),
            s@.len() <= usize::MAX,
            k <= w@.len(),
            forall|j: int| 0 <= j < k ==> s@[i + j] == w@[j],
        decreases w@.len() - k,
    {
        if s[i + k] != w[k] {
            assert(s@.subrange(i as int, i + w@.len())[k as int] != w@[k as int]);
            return false;
        }
        k = k + 1;
    }
    assert(s@.subrange(i as int, i + w@.len()) =~= w@);
    true
}

fn find_close(s: &Vec<char>, p: usize) -> (r: Option<usize>)
    ensures
        match r {
            Some(c) => c as int == close_from(s@, p as int),
            None => close_from(s@, p as int) == -1,
        },
    decreases s@.len() - p,
{
    if p >= s.len() {
        None
    } else if s[p] == ')' {
        Some(p)
    } else {
        find_close(s, p + 1)
    }
}

proof fn lemma_close_from_bounds(s: Seq<char>, p: int)
    ensures
        close_from(s, p) == -1 || (p <= close_from(s, p) < s.len() && s[close_from(s, p)] == ')'),
    decreases s.len() - p,
{
    if p >= 0 && p < s.len() && s[p] != ')' {
        lemma_close_from_bounds(s, p + 1);
    }
}

pub(crate) fn token_end(s: &Vec<char>, i: usize, w: &Vec<char>) -> (r: Option<usize>)
    requires
        i < s@.len(),
        w@.len() > 0,
    ensures
        match r {
            Some(c) => c as int == token_close(s@, i as int, w@) && c > i + w@.len() && c
                < s@.len(),
            None => token_close(s@, i as int, w@) == -1,
        },
{
    if !is_word_at(s, i, w) {
        return None;
    }
    let n = s.len();
    assert(i + w@.len() <= n);
    proof {
        lemma_close_from_bounds(s@, i + w@.len());
    }
    match find_close(s, i + w.len()) {
        Some(c) => {
            if c > i + w.len() {
                Some(c)
            } else {
                None
            }
        },
        None => None,
    }
}

pub(crate) fn text_of(s: &Vec<char>, from: usize, to: usize) -> (r: String)
    requires
        from <= to <= s@.len(),
    ensures
        r@ == s@.subrange(from as int, to as int),
{
    let mut r = String::new();
    let mut k: usize = from;
    while k < to
        invariant
            from <= k <= to <= s@.len(),
            r@ == s@.subrange(from as int, k as int),
        decreases to - k,
    {
        push_char(&mut r, s[k]);
        k = k + 1;
        assert(r@ =~= s@.subrange(from as int, k as int));
    }
    r
}

/// Parses a command: each `input(name)` / `output(name)`, leftmost first,
/// becomes `$i_k` / `$o_k` with `k` its position among the inputs / outputs,
/// and `name` is recorded at that position.
pub fn parse_command(command: &String) -> (r: (String, Vec<String>, Vec<String>))
    ensures
        r.0@ == parse_spec(command@).command,
        ids_view(r.1@) == parse_spec(command@).inputs,
        ids_view(r.2@) == parse_spec(command@).outputs,
{
    let s = chars_of(command);
    let win = word_input();
    let wout = word_output();
    let mut out = String::new();
    let mut inputs: Vec<String> = Vec::new();
    let mut outputs: Vec<String> = Vec::new();
    let mut i: usize = 0;
    let ghost whole = parse_spec(s@);
    assert(input_word().len() == 6);
    assert(output_word().len() == 7);
    while i < s.len()
        invariant
            s@ == command@,
            win@ == input_word(),
            wout@ == output_word(),
            whole == parse_spec(s@),
            i <= s@.len(),
            inputs@.len() < i + 1,
            outputs@.len() < i + 1,
            ({
                let rest = parse_from(s@, i as int, inputs@.len(), outputs@.len());
                &&& whole.command == out@ + rest.command
                &&& whole.inputs == ids_view(inputs@) + rest.inputs
                &&& whole.outputs == ids_view(outputs@) + rest.outputs
            }),
        decreases s@.len() - i,
    {
        let ghost ni = inputs@.len();
        let ghost no = outputs@.len();
        let ghost before = parse_from(s@, i as int, ni, no);
        let ti = token_end(&s, i, &win);
        match ti {
            Some(c) => {
                let name = text_of(&s, i + 6, c);
                push_char(&mut out, '$');
                push_char(&mut out, 'i');
                push_char(&mut out, '_');
                push_decimal(&mut out, inputs.len() as u64);
                let ghost old_in = ids_view(inputs@);
                inputs.push(name);
                assert(ids_view(inputs@) =~= old_in.push(name@));
                i = c + 1;
                let ghost rest = parse_from(s@, i as int, inputs@.len(), outputs@.len());
                assert(before.command == placeholder('i', ni) + rest.command);
                assert(whole.command =~= out@ + rest.command);
                assert(whole.inputs =~= ids_view(inputs@) + rest.inputs);
            },
            None => {
                let to = token_end(&s, i, &wout);
                match to {
                    Some(c) => {
                        let name = text_of(&s, i + 7, c);
                        push_char(&mut out, '$');
                        push_char(&mut out, 'o');
                        push_char(&mut out, '_');
                        push_decimal(&mut out, outputs.len() as u64);
                        let ghost old_out = ids_view(outputs@);
                        outputs.push(name);
                        assert(ids_view(outputs@) =~= old_out.push(name@));
                        i = c + 1;
                        let ghost rest = parse_from(s@, i as int, inputs@.len(), outputs@.len());
                        assert(before.command == placeholder('o', no) + rest.command);
                        assert(whole.command =~= out@ + rest.command);
                        assert(whole.outputs =~= ids_view(outputs@) + rest.outputs);
                    },
                    None => {
                        push_char(&mut out, s[i]);
                        i = i + 1;
                        let ghost rest = parse_from(s@, i as int, inputs@.len(), outputs@.len());
                        assert(whole.command =~= out@ + rest.command);
                    },
                }
            },
        }
    }
    assert(whole.command =~= out@);
    assert(whole.inputs =~= ids_view(inputs@));
    assert(whole.outputs =~= ids_view(outputs@));
    (out, inputs, outputs)
}

} // verus!
