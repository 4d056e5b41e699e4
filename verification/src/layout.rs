//! Names inside a profile directory.
//!
//! A run lives in `hip-<unix seconds>` below the configured directory, with
//! one file `events/events-<thread tag>` and one file
//! `backtraces/bt-<tracker id>` per local tracker.

use vstd::prelude::*;
use vstd::string::*;

verus! {

/// The character of the decimal digit `d`.
pub open spec fn digit(d: nat) -> char {
    if d == 0 {
        '0'
    } else if d == 1 {
        '1'
    } else if d == 2 {
        '2'
    } else if d == 3 {
        '3'
    } else if d == 4 {
        '4'
    } else if d == 5 {
        '5'
    } else if d == 6 {
        '6'
    } else if d == 7 {
        '7'
    } else if d == 8 {
        '8'
    } else {
        '9'
    }
}

/// The decimal numeral of `n`, without leading zeros.
pub open spec fn decimal(n: nat) -> Seq<char>
    decreases n,
{
    if n < 10 {
        seq![digit(n)]
    } else {
        decimal(n / 10).push(digit(n % 10))
    }
}

/// The name of the directory of the run that started at `unix_seconds`.
pub open spec fn run_dir_name(unix_seconds: u64) -> Seq<char> {
    seq!['h', 'i', 'p', '-'] + decimal(unix_seconds as nat)
}

/// The name of the event file of the tracker that the thread tagged `tag`
/// created.
pub open spec fn events_file_name(tag: u64) -> Seq<char> {
    seq!['e', 'v', 'e', 'n', 't', 's', '-'] + decimal(tag as nat)
}

/// The name of the backtrace file of the tracker with id `id`.
pub open spec fn backtraces_file_name(id: usize) -> Seq<char> {
    seq!['b', 't', '-'] + decimal(id as nat)
}

/// The numeral of one digit.
fn digit_text(d: u64) -> (text: &'static str)
    requires
        d < 10,
    ensures
        text@ == seq![digit(d as nat)],
{
    proof {
        reveal_strlit("0");
        reveal_strlit("1");
        reveal_strlit("2");
        reveal_strlit("3");
        reveal_strlit("4");
        reveal_strlit("5");
        reveal_strlit("6");
        reveal_strlit("7");
        reveal_strlit("8");
        reveal_strlit("9");
    }
    let text = if d == 0 {
        "0"
    } else if d == 1 {
        "1"
    } else if d == 2 {
        "2"
    } else if d == 3 {
        "3"
    } else if d == 4 {
        "4"
    } else if d == 5 {
        "5"
    } else if d == 6 {
        "6"
    } else if d == 7 {
        "7"
    } else if d == 8 {
        "8"
    } else {
        "9"
    };
    assert(text@ =~= seq![digit(d as nat)]);
    text
}

/// Appends the decimal numeral of `n` to `text`.
fn push_decimal(text: &mut String, n: u64)
    ensures
        final(text)@ == old(text)@ + decimal(n as nat),
    decreases n,
{
    if n >= 10 {
        push_decimal(text, n / 10);
    }
    text.append(digit_text(n % 10));
    assert(text@ =~= old(text)@ + decimal(n as nat));
}

/// Names the directory of the run that started at `unix_seconds`:
/// `hip-<unix_seconds>`.
pub fn run_dir(unix_seconds: u64) -> (name: String)
    ensures
        name@ == run_dir_name(unix_seconds),
{
    proof {
        reveal_strlit("hip-");
    }
    let mut name = String::from_str("hip-");
    assert(name@ =~= seq!['h', 'i', 'p', '-']);
    push_decimal(&mut name, unix_seconds);
    name
}

/// Names the event file of the tracker that the thread tagged `tag`
/// created: `events-<tag>`. The file lives in [`events_dir`].
pub fn events_file(tag: u64) -> (name: String)
    ensures
        name@ == events_file_name(tag),
{
    proof {
        reveal_strlit("events-");
    }
    let mut name = String::from_str("events-");
    assert(name@ =~= seq!['e', 'v', 'e', 'n', 't', 's', '-']);
    push_decimal(&mut name, tag);
    name
}

/// Names the backtrace file of the tracker with id `id`: `bt-<id>`. The
/// file lives in [`backtraces_dir`].
pub fn backtraces_file(id: usize) -> (name: String)
    ensures
        name@ == backtraces_file_name(id),
{
    proof {
        reveal_strlit("bt-");
    }
    let mut name = String::from_str("bt-");
    assert(name@ =~= seq!['b', 't', '-']);
    push_decimal(&mut name, id as u64);
    name
}

/// Names the directory of the event files inside a run directory.
pub fn events_dir() -> (name: &'static str)
    ensures
        name@ == seq!['e', 'v', 'e', 'n', 't', 's'],
{
    proof {
        reveal_strlit("events");
    }
    let name = "events";
    assert(name@ =~= seq!['e', 'v', 'e', 'n', 't', 's']);
    name
}

/// Names the directory of the backtrace files inside a run directory.
pub fn backtraces_dir() -> (name: &'static str)
    ensures
        name@ == seq!['b', 'a', 'c', 'k', 't', 'r', 'a', 'c', 'e', 's'],
{
    proof {
        reveal_strlit("backtraces");
    }
    let name = "backtraces";
    assert(name@ =~= seq!['b', 'a', 'c', 'k', 't', 'r', 'a', 'c', 'e', 's']);
    name
}

/// A numeral has at least one digit.
proof fn lemma_decimal_len(n: nat)
    ensures
        decimal(n).len() >= 1,
    decreases n,
{
    if n >= 10 {
        lemma_decimal_len(n / 10);
    }
}

/// Different numbers have different numerals.
pub proof fn lemma_decimal_injective(a: nat, b: nat)
    requires
        decimal(a) == decimal(b),
    ensures
        a == b,
    decreases a,
{
    if a < 10 && b < 10 {
        assert(decimal(a)[0] == digit(a));
        assert(decimal(b)[0] == digit(b));
        assert(a == b);
    } else if a < 10 {
        lemma_decimal_len(b / 10);
        assert(decimal(a).len() == 1);
        assert(decimal(b).len() >= 2);
    } else if b < 10 {
        lemma_decimal_len(a / 10);
        assert(decimal(b).len() == 1);
        assert(decimal(a).len() >= 2);
    } else {
        let front_a = decimal(a / 10);
        let front_b = decimal(b / 10);
        assert(decimal(a).last() == digit(a % 10));
        assert(decimal(b).last() == digit(b % 10));
        assert(decimal(a).drop_last() =~= front_a);
        assert(decimal(b).drop_last() =~= front_b);
        lemma_decimal_injective(a / 10, b / 10);
        assert(digit(a % 10) == digit(b % 10));
        assert(a % 10 == b % 10);
        assert(a / 10 == b / 10);
    }
}

/// Different trackers have different backtrace files, and trackers created
/// by differently tagged threads have different event files.
pub proof fn lemma_file_names_differ(a: u64, b: u64, c: usize, d: usize)
    ensures
        events_file_name(a) == events_file_name(b) ==> a == b,
        backtraces_file_name(c) == backtraces_file_name(d) ==> c == d,
        run_dir_name(a) == run_dir_name(b) ==> a == b,
{
    if events_file_name(a) == events_file_name(b) {
        assert(events_file_name(a).skip(7) =~= decimal(a as nat));
        assert(events_file_name(b).skip(7) =~= decimal(b as nat));
        lemma_decimal_injective(a as nat, b as nat);
    }
    if backtraces_file_name(c) == backtraces_file_name(d) {
        assert(backtraces_file_name(c).skip(3) =~= decimal(c as nat));
        assert(backtraces_file_name(d).skip(3) =~= decimal(d as nat));
        lemma_decimal_injective(c as nat, d as nat);
    }
    if run_dir_name(a) == run_dir_name(b) {
        assert(run_dir_name(a).skip(4) =~= decimal(a as nat));
        assert(run_dir_name(b).skip(4) =~= decimal(b as nat));
        lemma_decimal_injective(a as nat, b as nat);
    }
}

} // verus!
