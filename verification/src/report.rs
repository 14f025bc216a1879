//! The lines that report a run: one for each completed task, one at the end.

use vstd::prelude::*;
use crate::stage::Outcome;
use crate::text::{append_chars, chars_of, string_of};

verus! {

/// How loudly a line is reported.
#[derive(Debug, Clone, Copy, PartialEq, Eq, Structural)]
pub enum Level {
    Info,
    Warn,
    Error,
}

/// The level of the line for a task that ended with `outcome`.
pub open spec fn level_for(outcome: Outcome) -> Level {
    match outcome {
        Outcome::Converted => Level::Info,
        Outcome::Skipped => Level::Warn,
        Outcome::DirectoryFailed => Level::Error,
        Outcome::TranscodeFailed => Level::Error,
    }
}

/// The character for the digit `d`.
pub open spec fn digit_char(d: int) -> char {
    if d == 0 {
        '0'
    } else if d == 1 {
        '1'
    } else if d == 2 {
        '2'
    } else if d == 3 {
        '3'
    } else if d == 4 {
        '4'
    } else if d == 5 {
        '5'
    } else if d == 6 {
        '6'
    } else if d == 7 {
        '7'
    } else if d == 8 {
        '8'
    } else {
        '9'
    }
}

/// `n` in decimal digits, without leading zeros.
pub open spec fn decimal(n: nat) -> Seq<char>
    decreases n,
{
    if n < 10 {
        seq![digit_char(n as int)]
    } else {
        decimal(n / 10).push(digit_char((n % 10) as int))
    }
}

/// `s` with spaces put in front until it is `width` long; `s` itself where
/// it is that long already.
pub open spec fn right_aligned(s: Seq<char>, width: nat) -> Seq<char> {
    if s.len() >= width {
        s
    } else {
        Seq::new((width - s.len()) as nat, |i: int| ' ') + s
    }
}

/// What follows the name on the line of a skipped task.
pub open spec fn skipped_mark() -> Seq<char> {
    seq![' ', '<', '*', '*', ' ', 's', 'k', 'i', 'p', 'p', 'e', 'd', ' ', '*', '*', '>']
}

/// How far a run has come, in brackets: the count of completed tasks,
/// right-aligned to four places, and the total.
pub open spec fn counts_text(current: nat, total: nat) -> Seq<char> {
    seq!['['] + right_aligned(decimal(current), 4) + seq![' ', '/', ' '] + decimal(total) + seq![
        ']',
    ]
}

/// The line for the task that completed as number `current` of `total`: the
/// counts, the name of the output file, and the mark of a skipped task where
/// it was skipped.
pub open spec fn progress_text(current: nat, total: nat, name: Seq<char>, outcome: Outcome) -> Seq<
    char,
> {
    counts_text(current, total) + seq![' ', ':', ' '] + name + if outcome == Outcome::Skipped {
        skipped_mark()
    } else {
        Seq::empty()
    }
}

/// The line at the end of a run in which `processed` tasks completed.
pub open spec fn summary_text(processed: nat) -> Seq<char> {
    seq!['C', 'o', 'n', 'v', 'e', 'r', 't', 'e', 'd', ' '] + decimal(processed) + seq![
        ' ',
        'f',
        'i',
        'l',
        'e',
        's',
    ]
}

/// The level of the line for a task that ended with `outcome`.
pub fn level_of(outcome: Outcome) -> (level: Level)
    ensures
        level == level_for(outcome),
{
    match outcome {
        Outcome::Converted => Level::Info,
        Outcome::Skipped => Level::Warn,
        Outcome::DirectoryFailed => Level::Error,
        Outcome::TranscodeFailed => Level::Error,
    }
}

fn digit(d: usize) -> (c: char)
    requires
        d < 10,
    ensures
        c == digit_char(d as int),
{
    if d == 0 {
        '0'
    } else if d == 1 {
        '1'
    } else if d == 2 {
        '2'
    } else if d == 3 {
        '3'
    } else if d == 4 {
        '4'
    } else if d == 5 {
        '5'
    } else if d == 6 {
        '6'
    } else if d == 7 {
        '7'
    } else if d == 8 {
        '8'
    } else {
        '9'
    }
}

/// Appends `n` in decimal digits.
pub fn push_decimal(out: &mut Vec<char>, n: usize)
    ensures
        final(out)@ == old(out)@ + decimal(n as nat),
    decreases n,
{
    if n >= 10 {
        push_decimal(out, n / 10);
    }
    out.push(digit(n % 10));
    assert(out@ =~= old(out)@ + decimal(n as nat));
}

/// Appends `s`, with spaces before it where it is shorter than `width`.
pub fn push_right_aligned(out: &mut Vec<char>, s: &[char], width: usize)
    ensures
        final(out)@ == old(out)@ + right_aligned(s@, width as nat),
{
    let mut k: usize = s.len();
    while k < width
        invariant
            s.len() <= k,
            k <= width || k == s.len(),
            out@ == old(out)@ + Seq::new((k - s.len()) as nat, |i: int| ' '),
        decreases width - k,
    {
        out.push(' ');
        k += 1;
        assert(out@ =~= old(out)@ + Seq::new((k - s.len()) as nat, |i: int| ' '));
    }
    append_chars(out, s);
    assert(out@ =~= old(out)@ + right_aligned(s@, width as nat));
}

/// Appends the counts of a run in which `current` of `total` tasks have
/// completed.
pub fn push_counts(out: &mut Vec<char>, current: usize, total: usize)
    ensures
        final(out)@ == old(out)@ + counts_text(current as nat, total as nat),
{
    let mut count: Vec<char> = Vec::new();
    push_decimal(&mut count, current);
    out.push('[');
    push_right_aligned(out, count.as_slice(), 4);
    out.push(' ');
    out.push('/');
    out.push(' ');
    push_decimal(out, total);
    out.push(']');
    assert(out@ =~= old(out)@ + counts_text(current as nat, total as nat));
}

/// The line after a batch, when `completed` of `total` tasks have completed.
pub fn batch_line(completed: usize, total: usize) -> (line: String)
    ensures
        line@ == counts_text(completed as nat, total as nat),
{
    let mut out: Vec<char> = Vec::new();
    push_counts(&mut out, completed, total);
    string_of(out.as_slice())
}

/// The line for the task that completed as number `current` of `total`,
/// whose output file is named `name`.
pub fn progress_line(current: usize, total: usize, name: &str, outcome: Outcome) -> (line: String)
    ensures
        line@ == progress_text(current as nat, total as nat, name@, outcome),
{
    let name_chars = chars_of(name);
    let mut out: Vec<char> = Vec::new();
    push_counts(&mut out, current, total);
    out.push(' ');
    out.push(':');
    out.push(' ');
    append_chars(&mut out, name_chars.as_slice());
    match outcome {
        Outcome::Skipped => {
            let mark: [char; 16] = [
                ' ',
                '<',
                '*',
                '*',
                ' ',
                's',
                'k',
                'i',
                'p',
                'p',
                'e',
                'd',
                ' ',
                '*',
                '*',
                '>',
            ];
            assert(mark@ =~= skipped_mark());
            append_chars(&mut out, mark.as_slice());
        },
        _ => {},
    }
    assert(out@ =~= progress_text(current as nat, total as nat, name@, outcome));
    string_of(out.as_slice())
}

/// The line at the end of a run in which `processed` tasks completed.
pub fn summary_line(processed: usize) -> (line: String)
    ensures
        line@ == summary_text(processed as nat),
{
    let head: [char; 10] = ['C', 'o', 'n', 'v', 'e', 'r', 't', 'e', 'd', ' '];
    let tail: [char; 6] = [' ', 'f', 'i', 'l', 'e', 's'];
    let mut out: Vec<char> = Vec::new();
    append_chars(&mut out, head.as_slice());
    push_decimal(&mut out, processed);
    append_chars(&mut out, tail.as_slice());
    assert(head@ =~= seq!['C', 'o', 'n', 'v', 'e', 'r', 't', 'e', 'd', ' ']);
    assert(tail@ =~= seq![' ', 'f', 'i', 'l', 'e', 's']);
    assert(out@ =~= summary_text(processed as nat));
    string_of(out.as_slice())
}

} // verus!
