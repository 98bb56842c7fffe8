//! The prompt's command language: trimming the raw line, matching a
//! command case-insensitively, and parsing the id typed for a delete.

use vstd::prelude::*;
use crate::digits::digit_val;
use crate::digits::digits_run;
use crate::digits::digits_val;
use crate::digits::is_digit;
use crate::digits::lemma_digits_run_position;
use crate::errors::ParseError;
use crate::strutil::str_eq;

verus! {

/// The commands the prompt understands; anything else is `Unknown`.
#[derive(Clone, Copy, PartialEq, Eq, Structural, Debug)]
pub enum Command {
    Add,
    View,
    Delete,
    Help,
    Quit,
    Unknown,
}

/// ASCII lower-casing of one character; anything but 'A'..='Z' is kept.
pub open spec fn lower_char(c: char) -> char {
    if c == 'A' { 'a' }
    else if c == 'B' { 'b' }
    else if c == 'C' { 'c' }
    else if c == 'D' { 'd' }
    else if c == 'E' { 'e' }
    else if c == 'F' { 'f' }
    else if c == 'G' { 'g' }
    else if c == 'H' { 'h' }
    else if c == 'I' { 'i' }
    else if c == 'J' { 'j' }
    else if c == 'K' { 'k' }
    else if c == 'L' { 'l' }
    else if c == 'M' { 'm' }
    else if c == 'N' { 'n' }
    else if c == 'O' { 'o' }
    else if c == 'P' { 'p' }
    else if c == 'Q' { 'q' }
    else if c == 'R' { 'r' }
    else if c == 'S' { 's' }
    else if c == 'T' { 't' }
    else if c == 'U' { 'u' }
    else if c == 'V' { 'v' }
    else if c == 'W' { 'w' }
    else if c == 'X' { 'x' }
    else if c == 'Y' { 'y' }
    else if c == 'Z' { 'z' }
    else { c }
}

/// ASCII lower-casing of a whole string.
pub open spec fn lower(s: Seq<char>) -> Seq<char> {
    s.map_values(|c: char| lower_char(c))
}

/// The command named by an already trimmed line, compared
/// case-insensitively.
pub open spec fn spec_command(s: Seq<char>) -> Command {
    if lower(s) == "quit"@ { Command::Quit }
    else if lower(s) == "help"@ { Command::Help }
    else if lower(s) == "add"@ { Command::Add }
    else if lower(s) == "view"@ { Command::View }
    else if lower(s) == "delete"@ { Command::Delete }
    else { Command::Unknown }
}

/// Whitespace as trimming understands it.
pub open spec fn is_space(c: char) -> bool {
    c == ' ' || c == '\t' || c == '\r' || c == '\n'
}

/// The string without its leading whitespace.
pub open spec fn trim_front(s: Seq<char>) -> Seq<char>
    decreases s.len(),
{
    if s.len() > 0 && is_space(s[0]) {
        trim_front(s.drop_first())
    } else {
        s
    }
}

/// The string without its trailing whitespace.
pub open spec fn trim_back(s: Seq<char>) -> Seq<char>
    decreases s.len(),
{
    if s.len() > 0 && is_space(s.last()) {
        trim_back(s.drop_last())
    } else {
        s
    }
}

/// The string without leading and trailing whitespace.
pub open spec fn spec_trim(s: Seq<char>) -> Seq<char> {
    trim_back(trim_front(s))
}

/// The integer a whole string denotes: an optional minus sign, then one
/// or more base-10 digits, and nothing else; the value must fit an i32.
pub open spec fn spec_parse_id(s: Seq<char>) -> Option<int> {
    let neg = s.len() > 0 && s[0] == '-';
    let t = if neg { s.drop_first() } else { s };
    if t.len() == 0 || digits_run(t) != t.len() {
        None
    } else {
        let v = if neg { -digits_val(t) } else { digits_val(t) };
        if i32::MIN <= v <= i32::MAX {
            Some(v)
        } else {
            None
        }
    }
}

fn exec_lower_char(c: char) -> (r: char)
    ensures
        r == lower_char(c),
{
    match c {
        'A' => 'a',
        'B' => 'b',
        'C' => 'c',
        'D' => 'd',
        'E' => 'e',
        'F' => 'f',
        'G' => 'g',
        'H' => 'h',
        'I' => 'i',
        'J' => 'j',
        'K' => 'k',
        'L' => 'l',
        'M' => 'm',
        'N' => 'n',
        'O' => 'o',
        'P' => 'p',
        'Q' => 'q',
        'R' => 'r',
        'S' => 's',
        'T' => 't',
        'U' => 'u',
        'V' => 'v',
        'W' => 'w',
        'X' => 'x',
        'Y' => 'y',
        'Z' => 'z',
        _ => c,
    }
}

/// ASCII-lower-cases a string.
fn lower_str(s: &str) -> (r: String)
    ensures
        r@ == lower(s@),
{
    let n = s.unicode_len();
    let mut r = String::new();
    let mut i: usize = 0;
    while i < n
        invariant
            0 <= i <= n,
            n == s@.len(),
            r@ == lower(s@.take(i as int)),
        decreases n - i,
    {
        let c = exec_lower_char(s.get_char(i));
        crate::strutil::push_char(&mut r, c);
        proof {
            assert(lower(s@.take(i + 1)) =~= lower(s@.take(i as int)).push(lower_char(s@[i as int])));
        }
        i += 1;
    }
    proof {
        assert(s@.take(n as int) =~= s@);
    }
    r
}

/// Matches an already trimmed line against the known commands,
/// case-insensitively.
pub fn parse_command(s: &str) -> (c: Command)
    ensures
        c == spec_command(s@),
{
    let low = lower_str(s);
    if str_eq(low.as_str(), "quit") {
        Command::Quit
    } else if str_eq(low.as_str(), "help") {
        Command::Help
    } else if str_eq(low.as_str(), "add") {
        Command::Add
    } else if str_eq(low.as_str(), "view") {
        Command::View
    } else if str_eq(low.as_str(), "delete") {
        Command::Delete
    } else {
        Command::Unknown
    }
}

fn exec_is_space(c: char) -> (r: bool)
    ensures
        r == is_space(c),
{
    c == ' ' || c == '\t' || c == '\r' || c == '\n'
}

proof fn lemma_trim_front_position(s: Seq<char>, m: int)
    requires
        0 <= m <= s.len(),
        forall|j: int| 0 <= j < m ==> is_space(s[j]),
        m < s.len() ==> !is_space(s[m]),
    ensures
        trim_front(s) =~= s.skip(m),
    decreases m,
{
    if m == 0 {
        assert(s.skip(0) =~= s);
    } else {
        assert(is_space(s[0]));
        lemma_trim_front_position(s.drop_first(), m - 1);
        assert(s.drop_first().skip(m - 1) =~= s.skip(m));
    }
}

proof fn lemma_trim_back_position(s: Seq<char>, m: int)
    requires
        0 <= m <= s.len(),
        forall|j: int| m <= j < s.len() ==> is_space(s[j]),
        m > 0 ==> !is_space(s[m - 1]),
    ensures
        trim_back(s) =~= s.take(m),
    decreases s.len() - m,
{
    if m == s.len() {
        if s.len() == 0 || !is_space(s.last()) {
            assert(s.take(m) =~= s);
        } else {
            assert(m > 0 && is_space(s[m - 1]));
        }
    } else {
        assert(is_space(s.last()));
        lemma_trim_back_position(s.drop_last(), m);
        assert(s.drop_last().take(m) =~= s.take(m));
    }
}

/// Strips leading and trailing whitespace.
pub fn trim(s: &str) -> (r: String)
    ensures
        r@ == spec_trim(s@),
{
    let n = s.unicode_len();
    let mut start: usize = 0;
    while start < n && exec_is_space(s.get_char(start))
        invariant
            0 <= start <= n,
            n == s@.len(),
            forall|j: int| 0 <= j < start ==> is_space(s@[j]),
        decreases n - start,
    {
        start += 1;
    }
    proof {
        lemma_trim_front_position(s@, start as int);
    }
    let mut end: usize = n;
    while end > start && exec_is_space(s.get_char(end - 1))
        invariant
            start <= end <= n,
            n == s@.len(),
            forall|j: int| end <= j < n ==> is_space(s@[j]),
        decreases end,
    {
        end -= 1;
    }
    proof {
        assert(forall|j: int| end - start <= j < s@.skip(start as int).len()
            ==> is_space(s@.skip(start as int)[j]));
        lemma_trim_back_position(s@.skip(start as int), end - start);
        assert(s@.skip(start as int).take(end - start) =~= s@.subrange(start as int, end as int));
    }
    let r = s.substring_char(start, end);
    String::from_str(r)
}

/// Parses the id typed for a delete: `Ok` exactly when the whole string
/// is an optionally negated run of digits whose value fits an i32.
pub fn parse_id(s: &str) -> (r: Result<i32, ParseError>)
    ensures
        match r {
            Ok(v) => spec_parse_id(s@) == Some(v as int),
            Err(_) => spec_parse_id(s@) is None,
        },
{
    let n = s.unicode_len();
    let neg = n > 0 && s.get_char(0) == '-';
    let start: usize = if neg { 1 } else { 0 };
    let ghost t = if neg { s@.drop_first() } else { s@ };
    proof {
        assert(t =~= s@.skip(start as int));
    }
    if n == start {
        return Err(ParseError);
    }
    let mut i: usize = start;
    let mut acc: u64 = 0;
    let mut too_big = false;
    while i < n
        invariant
            start <= i <= n,
            n == s@.len(),
            neg == (s@.len() > 0 && s@[0] == '-'),
            start == (if neg { 1int } else { 0int }),
            t == (if neg { s@.drop_first() } else { s@ }),
            t == s@.skip(start as int),
            forall|j: int| 0 <= j < i - start ==> is_digit(t[j]),
            !too_big ==> acc as int == digits_val(t.take(i - start)) && acc <= 2147483648,
            too_big ==> digits_val(t.take(i - start)) > 2147483648,
        decreases n - i,
    {
        let c = s.get_char(i);
        if !(c >= '0' && c <= '9') {
            proof {
                assert(t[i - start] == s@[i as int]);
                lemma_digits_run_position(t, i - start);
            }
            return Err(ParseError);
        }
        let d: u64 = (c as u32 as u64) - 48;
        proof {
            assert(t[i - start] == s@[i as int]);
            assert(d as int == digit_val(t[i - start]));
            assert(t.take(i - start + 1).drop_last() =~= t.take(i - start));
            assert(digits_val(t.take(i - start + 1))
                == digits_val(t.take(i - start)) * 10 + digit_val(t[i - start]));
        }
        if too_big {
            proof {
                assert(digits_val(t.take(i - start)) * 10 > 2147483648);
            }
        } else {
            let next = acc * 10 + d;
            if next > 2147483648 {
                too_big = true;
            } else {
                acc = next;
            }
        }
        i += 1;
    }
    proof {
        lemma_digits_run_position(t, n - start);
        assert(t.take(n - start) =~= t);
    }
    if too_big {
        return Err(ParseError);
    }
    if neg {
        if acc == 2147483648 {
            Ok(i32::MIN)
        } else {
            Ok(-(acc as i32))
        }
    } else {
        if acc > 2147483647 {
            Err(ParseError)
        } else {
            Ok(acc as i32)
        }
    }
}

} // verus!
