//! Text rendering of tasks: one line per task in the shape
//! `[<mark>] <title> (ID: <id>)`, where the mark is a check mark for a done
//! task and a space otherwise.

use vstd::prelude::*;
use vstd::string::StringExecFns;
use crate::model::TaskModel;

verus! {

/// The decimal digit character for a value below ten.
pub open spec fn digit_char(d: int) -> char {
    if d == 0 {
        '0'
    } else if d == 1 {
        '1'
    } else if d == 2 {
        '2'
    } else if d == 3 {
        '3'
    } else if d == 4 {
        '4'
    } else if d == 5 {
        '5'
    } else if d == 6 {
        '6'
    } else if d == 7 {
        '7'
    } else if d == 8 {
        '8'
    } else {
        '9'
    }
}

/// The decimal representation of `n`, most significant digit first, with no
/// leading zero except for zero itself.
pub open spec fn dec_rep(n: nat) -> Seq<char>
    decreases n,
{
    if n < 10 {
        seq![digit_char(n as int)]
    } else {
        dec_rep(n / 10).push(digit_char((n % 10) as int))
    }
}

/// The mark between the brackets: a check mark when done, a space otherwise.
pub open spec fn done_mark(done: bool) -> Seq<char> {
    if done {
        seq!['✔']
    } else {
        seq![' ']
    }
}

/// The full rendered line for one task.
pub open spec fn render_line(t: TaskModel) -> Seq<char> {
    seq!['['] + done_mark(t.done) + seq![']', ' '] + t.title + seq![' ', '(', 'I', 'D', ':', ' ']
        + dec_rep(t.id as nat) + seq![')']
}

fn digit_str(d: u32) -> (r: &'static str)
    requires
        d < 10,
    ensures
        r@ == seq![digit_char(d as int)],
{
    let r: &'static str = match d {
        0 => "0",
        1 => "1",
        2 => "2",
        3 => "3",
        4 => "4",
        5 => "5",
        6 => "6",
        7 => "7",
        8 => "8",
        _ => "9",
    };
    proof {
        reveal_strlit("0");
        reveal_strlit("1");
        reveal_strlit("2");
        reveal_strlit("3");
        reveal_strlit("4");
        reveal_strlit("5");
        reveal_strlit("6");
        reveal_strlit("7");
        reveal_strlit("8");
        reveal_strlit("9");
        assert(r@ =~= seq![digit_char(d as int)]);
    }
    r
}

/// The decimal numeral of `n` as a string.
pub fn u32_to_dec(n: u32) -> (s: String)
    ensures
        s@ == dec_rep(n as nat),
    decreases n,
{
    if n < 10 {
        String::from_str(digit_str(n))
    } else {
        let mut s = u32_to_dec(n / 10);
        s.append(digit_str(n % 10));
        proof {
            assert(s@ =~= dec_rep(n as nat));
        }
        s
    }
}

/// Renders one task as its listing line.
pub fn render_task(id: u32, title: &String, done: bool) -> (line: String)
    ensures
        line@ == render_line(TaskModel { id: id, title: title@, done: done }),
{
    let mut line = String::from_str("[");
    if done {
        line.append("✔");
    } else {
        line.append(" ");
    }
    line.append("] ");
    line.append(title.as_str());
    line.append(" (ID: ");
    let num = u32_to_dec(id);
    line.append(num.as_str());
    line.append(")");
    proof {
        reveal_strlit("[");
        reveal_strlit("✔");
        reveal_strlit(" ");
        reveal_strlit("] ");
        reveal_strlit(" (ID: ");
        reveal_strlit(")");
        assert(line@ =~= render_line(TaskModel { id: id, title: title@, done: done }));
    }
    line
}

} // verus!
