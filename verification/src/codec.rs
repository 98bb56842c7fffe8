//! The record store's file format: a comma-delimited table with the
//! header row `id,text` and one `id,text` row per reminder, text
//! quoted and inner quotes doubled whenever it holds a comma, a quote
//! or a line break. Encoding and decoding are specified as functions
//! on character sequences and proved inverse on every encodable
//! collection.

use vstd::prelude::*;
use crate::digits::dec_digits;
use crate::digits::dec_int;
use crate::digits::digit_val;
use crate::digits::digits_run;
use crate::digits::digits_val;
use crate::digits::is_digit;
use crate::digits::lemma_dec_digits_are_digits;
use crate::digits::lemma_digits_run_exact;
use crate::digits::lemma_digits_run_le_len;
use crate::digits::lemma_digits_run_position;
use crate::digits::lemma_digits_val_of_dec;
use crate::digits::push_dec_i32;
use crate::errors::ParseError;
use crate::reminder::Reminder;
use crate::reminder::ReminderModel;
use crate::reminder::models;

verus! {

/// A character that forces the text field into quotes.
pub open spec fn is_special(c: char) -> bool {
    c == ',' || c == '"' || c == '\n' || c == '\r'
}

/// The field must be quoted to survive the trip through the file.
pub open spec fn needs_quoting(t: Seq<char>) -> bool {
    exists|i: int| 0 <= i < t.len() && is_special(t[i])
}

/// The text with every quote doubled, the body of a quoted field.
pub open spec fn escape_quotes(t: Seq<char>) -> Seq<char>
    decreases t.len(),
{
    if t.len() == 0 {
        Seq::empty()
    } else if t[0] == '"' {
        seq!['"', '"'] + escape_quotes(t.drop_first())
    } else {
        seq![t[0]] + escape_quotes(t.drop_first())
    }
}

/// The text field as written to the file.
pub open spec fn enc_field(t: Seq<char>) -> Seq<char> {
    if needs_quoting(t) {
        seq!['"'] + escape_quotes(t) + seq!['"']
    } else {
        t
    }
}

/// One row: the id in base 10, a comma, the encoded text, a newline.
pub open spec fn enc_record(r: ReminderModel) -> Seq<char> {
    dec_int(r.id) + seq![','] + enc_field(r.text) + seq!['\n']
}

/// All rows in collection order.
pub open spec fn enc_records(s: Seq<ReminderModel>) -> Seq<char>
    decreases s.len(),
{
    if s.len() == 0 {
        Seq::empty()
    } else {
        enc_record(s[0]) + enc_records(s.drop_first())
    }
}

/// The header row.
pub open spec fn header() -> Seq<char> {
    seq!['i', 'd', ',', 't', 'e', 'x', 't', '\n']
}

/// The whole file: the header row, then one row per reminder.
pub open spec fn spec_encode(s: Seq<ReminderModel>) -> Seq<char> {
    header() + enc_records(s)
}

/// Reads a quoted field after its opening quote: the field's text and
/// the number of characters consumed, the closing quote included.
/// `None` when the input ends before a closing quote.
pub open spec fn parse_quoted(s: Seq<char>) -> Option<(Seq<char>, nat)>
    decreases s.len(),
{
    if s.len() == 0 {
        None
    } else if s[0] == '"' {
        if s.len() >= 2 && s[1] == '"' {
            match parse_quoted(s.skip(2)) {
                None => None,
                Some((t, k)) => Some((seq!['"'] + t, (k + 2) as nat)),
            }
        } else {
            Some((Seq::empty(), 1))
        }
    } else {
        match parse_quoted(s.skip(1)) {
            None => None,
            Some((t, k)) => Some((seq![s[0]] + t, (k + 1) as nat)),
        }
    }
}

/// The length of the longest prefix free of special characters.
pub open spec fn plain_run(s: Seq<char>) -> nat
    decreases s.len(),
{
    if s.len() == 0 || is_special(s[0]) {
        0
    } else {
        1 + plain_run(s.drop_first())
    }
}

/// Reads a text field and its terminating newline: the field's text
/// and the number of characters consumed, the newline included.
pub open spec fn parse_field(s: Seq<char>) -> Option<(Seq<char>, nat)> {
    if s.len() > 0 && s[0] == '"' {
        match parse_quoted(s.skip(1)) {
            None => None,
            Some((t, k)) => {
                if 1 + k < s.len() && s[1 + k as int] == '\n' {
                    Some((t, (k + 2) as nat))
                } else {
                    None
                }
            },
        }
    } else {
        let e = plain_run(s);
        if e < s.len() && s[e as int] == '\n' {
            Some((s.take(e as int), (e + 1) as nat))
        } else {
            None
        }
    }
}

/// Reads one row: the record and the number of characters consumed.
/// `None` for a malformed row: no digits where the id should be, an id
/// out of range, a missing comma, or a broken text field.
pub open spec fn parse_record(s: Seq<char>) -> Option<(ReminderModel, nat)> {
    let neg = s.len() > 0 && s[0] == '-';
    let off: int = if neg { 1 } else { 0 };
    let d = digits_run(s.skip(off));
    if d == 0 {
        None
    } else {
        let n = digits_val(s.skip(off).take(d as int));
        let idv = if neg { -n } else { n };
        if !(i32::MIN <= idv <= i32::MAX) {
            None
        } else if off + d < s.len() && s[off + d] == ',' {
            match parse_field(s.skip(off + d + 1)) {
                None => None,
                Some((t, k)) => Some(
                    (ReminderModel { id: idv, text: t }, (off + d + 1 + k) as nat),
                ),
            }
        } else {
            None
        }
    }
}

/// A quoted field consumes at least its closing quote and never more
/// than the input.
pub proof fn lemma_parse_quoted_consumed(s: Seq<char>)
    ensures
        match parse_quoted(s) {
            Some((t, k)) => 1 <= k <= s.len(),
            None => true,
        },
    decreases s.len(),
{
    if s.len() == 0 {
    } else if s[0] == '"' {
        if s.len() >= 2 && s[1] == '"' {
            lemma_parse_quoted_consumed(s.skip(2));
        }
    } else {
        lemma_parse_quoted_consumed(s.skip(1));
    }
}

/// A plain run never reaches past the end of the string.
pub proof fn lemma_plain_run_le_len(s: Seq<char>)
    ensures
        plain_run(s) <= s.len(),
    decreases s.len(),
{
    if s.len() > 0 && !is_special(s[0]) {
        lemma_plain_run_le_len(s.drop_first());
    }
}

/// A field consumes at least its newline and never more than the input.
pub proof fn lemma_parse_field_consumed(s: Seq<char>)
    ensures
        match parse_field(s) {
            Some((t, k)) => 1 <= k <= s.len(),
            None => true,
        },
{
    if s.len() > 0 && s[0] == '"' {
        lemma_parse_quoted_consumed(s.skip(1));
    } else {
        lemma_plain_run_le_len(s);
    }
}

/// A row consumes at least one character and never more than the input.
pub proof fn lemma_parse_record_consumed(s: Seq<char>)
    ensures
        match parse_record(s) {
            Some((r, k)) => 1 <= k <= s.len(),
            None => true,
        },
{
    let neg = s.len() > 0 && s[0] == '-';
    let off: int = if neg { 1 } else { 0 };
    lemma_digits_run_le_len(s.skip(off));
    let d = digits_run(s.skip(off));
    if d > 0 && off + d < s.len() && s[off + d] == ',' {
        lemma_parse_field_consumed(s.skip(off + d + 1));
    }
}

/// Reads the rows after the header, one record each, to the end of the
/// input. `None` as soon as a row is malformed.
pub open spec fn parse_records(s: Seq<char>) -> Option<Seq<ReminderModel>>
    decreases s.len(),
{
    if s.len() == 0 {
        Some(Seq::empty())
    } else {
        match parse_record(s) {
            None => None,
            Some((r, k)) => {
                proof {
                    lemma_parse_record_consumed(s);
                }
                match parse_records(s.skip(k as int)) {
                    None => None,
                    Some(rest) => Some(seq![r] + rest),
                }
            },
        }
    }
}

/// The collection a whole file denotes: an empty file is an empty
/// collection; otherwise the header row must be present, followed by
/// well-formed rows.
pub open spec fn spec_decode(s: Seq<char>) -> Option<Seq<ReminderModel>> {
    if s.len() == 0 {
        Some(Seq::empty())
    } else if s.len() >= 8 && s.take(8) == header() {
        parse_records(s.skip(8))
    } else {
        None
    }
}

proof fn lemma_parse_quoted_of_escaped(t: Seq<char>, rest: Seq<char>)
    requires
        rest.len() > 0 ==> rest[0] != '"',
    ensures
        parse_quoted(escape_quotes(t) + seq!['"'] + rest) == Some(
            (t, (escape_quotes(t).len() + 1) as nat),
        ),
    decreases t.len(),
{
    let s = escape_quotes(t) + seq!['"'] + rest;
    if t.len() == 0 {
        assert(s =~= seq!['"'] + rest);
        assert(s[0] == '"');
        if s.len() >= 2 {
            assert(s[1] == rest[0]);
        }
        assert(parse_quoted(s) == Some((Seq::<char>::empty(), 1nat)));
        assert(t =~= Seq::<char>::empty());
    } else if t[0] == '"' {
        assert(escape_quotes(t) == seq!['"', '"'] + escape_quotes(t.drop_first()));
        assert(s[0] == '"');
        assert(s[1] == '"');
        assert(s.len() >= 2);
        assert(s.skip(2) =~= escape_quotes(t.drop_first()) + seq!['"'] + rest);
        lemma_parse_quoted_of_escaped(t.drop_first(), rest);
        assert(seq!['"'] + t.drop_first() =~= t);
    } else {
        assert(escape_quotes(t) == seq![t[0]] + escape_quotes(t.drop_first()));
        assert(s[0] == t[0]);
        assert(s[0] != '"');
        assert(s.skip(1) =~= escape_quotes(t.drop_first()) + seq!['"'] + rest);
        lemma_parse_quoted_of_escaped(t.drop_first(), rest);
        assert(seq![s[0]] + t.drop_first() =~= t);
    }
}

proof fn lemma_plain_run_exact(t: Seq<char>, rest: Seq<char>)
    requires
        forall|i: int| 0 <= i < t.len() ==> !is_special(t[i]),
        rest.len() > 0,
        is_special(rest[0]),
    ensures
        plain_run(t + rest) == t.len(),
    decreases t.len(),
{
    if t.len() == 0 {
        assert(t + rest =~= rest);
    } else {
        assert((t + rest)[0] == t[0]);
        assert((t + rest).drop_first() =~= t.drop_first() + rest);
        lemma_plain_run_exact(t.drop_first(), rest);
    }
}

proof fn lemma_parse_field_of_enc(t: Seq<char>, rest: Seq<char>)
    ensures
        parse_field(enc_field(t) + seq!['\n'] + rest) == Some(
            (t, (enc_field(t).len() + 1) as nat),
        ),
{
    let s = enc_field(t) + seq!['\n'] + rest;
    if needs_quoting(t) {
        let esc = escape_quotes(t);
        assert(enc_field(t) == seq!['"'] + esc + seq!['"']);
        assert(s[0] == '"');
        assert(s.skip(1) =~= esc + seq!['"'] + (seq!['\n'] + rest));
        assert((seq!['\n'] + rest)[0] == '\n');
        lemma_parse_quoted_of_escaped(t, seq!['\n'] + rest);
        let k = (esc.len() + 1) as nat;
        assert(parse_quoted(s.skip(1)) == Some((t, k)));
        assert(s.len() == esc.len() + 3 + rest.len());
        assert(1 + k < s.len());
        assert(s[1 + k as int] == '\n');
        assert(parse_field(s) == Some((t, (k + 2) as nat)));
        assert(enc_field(t).len() + 1 == k + 2);
    } else {
        assert(enc_field(t) == t);
        assert(s =~= t + (seq!['\n'] + rest));
        assert(forall|i: int| 0 <= i < t.len() ==> !is_special(t[i]));
        assert(is_special((seq!['\n'] + rest)[0]));
        lemma_plain_run_exact(t, seq!['\n'] + rest);
        let e = plain_run(s);
        assert(e == t.len());
        if t.len() > 0 {
            assert(s[0] == t[0]);
            assert(s[0] != '"');
        } else {
            assert(s[0] == '\n');
        }
        assert(e < s.len());
        assert(s[e as int] == '\n');
        assert(s.take(e as int) =~= t);
    }
}

proof fn lemma_parse_record_of_enc(r: ReminderModel, rest: Seq<char>)
    requires
        i32::MIN <= r.id <= i32::MAX,
    ensures
        parse_record(enc_record(r) + rest) == Some((r, enc_record(r).len() as nat)),
{
    let s = enc_record(r) + rest;
    let tailfield = enc_field(r.text) + seq!['\n'] + rest;
    if r.id < 0 {
        let mag = -r.id;
        let dd = dec_digits(mag);
        assert(dec_int(r.id) == seq!['-'] + dd);
        lemma_dec_digits_are_digits(mag);
        lemma_digits_val_of_dec(mag);
        assert(s[0] == '-');
        let after = seq![','] + enc_field(r.text) + seq!['\n'] + rest;
        assert(s.skip(1) =~= dd + after);
        assert(!is_digit(after[0]));
        lemma_digits_run_exact(dd, after);
        let d = digits_run(s.skip(1));
        assert(d == dd.len());
        assert(d > 0);
        assert(s.skip(1).take(d as int) =~= dd);
        assert(digits_val(s.skip(1).take(d as int)) == mag);
        assert(1 + d < s.len());
        assert(s[1 + d as int] == after[0]);
        assert(s[1 + d as int] == ',');
        assert(s.skip(1 + d as int + 1) =~= tailfield);
        lemma_parse_field_of_enc(r.text, rest);
        assert(parse_field(s.skip(1 + d as int + 1)) == Some(
            (r.text, (enc_field(r.text).len() + 1) as nat),
        ));
        assert((ReminderModel { id: -digits_val(s.skip(1).take(d as int)), text: r.text }) == r);
        assert(1 + d + 1 + enc_field(r.text).len() + 1 == enc_record(r).len());
    } else {
        let dd = dec_digits(r.id);
        assert(dec_int(r.id) == dd);
        lemma_dec_digits_are_digits(r.id);
        lemma_digits_val_of_dec(r.id);
        assert(s[0] == dd[0]);
        assert(is_digit(s[0]));
        assert(s[0] != '-');
        let after = seq![','] + enc_field(r.text) + seq!['\n'] + rest;
        assert(s.skip(0) =~= dd + after);
        assert(!is_digit(after[0]));
        lemma_digits_run_exact(dd, after);
        let d = digits_run(s.skip(0));
        assert(d == dd.len());
        assert(d > 0);
        assert(s.skip(0).take(d as int) =~= dd);
        assert(digits_val(s.skip(0).take(d as int)) == r.id);
        assert(d < s.len());
        assert(s[d as int] == after[0]);
        assert(s[d as int] == ',');
        assert(s.skip(d as int + 1) =~= tailfield);
        lemma_parse_field_of_enc(r.text, rest);
        assert(parse_field(s.skip(d as int + 1)) == Some(
            (r.text, (enc_field(r.text).len() + 1) as nat),
        ));
        assert((ReminderModel { id: digits_val(s.skip(0).take(d as int)), text: r.text }) == r);
        assert(d + 1 + enc_field(r.text).len() + 1 == enc_record(r).len());
    }
}

proof fn lemma_parse_records_of_enc(s: Seq<ReminderModel>)
    requires
        forall|i: int| 0 <= i < s.len() ==> i32::MIN <= #[trigger] s[i].id <= i32::MAX,
    ensures
        parse_records(enc_records(s)) == Some(s),
    decreases s.len(),
{
    if s.len() == 0 {
        assert(enc_records(s).len() == 0);
        assert(parse_records(enc_records(s)) == Some(Seq::<ReminderModel>::empty()));
        assert(s =~= Seq::<ReminderModel>::empty());
    } else {
        let u = enc_records(s);
        let first = enc_record(s[0]);
        assert(u == first + enc_records(s.drop_first()));
        lemma_parse_record_of_enc(s[0], enc_records(s.drop_first()));
        assert(u.len() > 0);
        assert(parse_record(u) == Some((s[0], first.len() as nat)));
        assert(u.skip(first.len() as int) =~= enc_records(s.drop_first()));
        assert(forall|i: int| 0 <= i < s.drop_first().len()
            ==> i32::MIN <= #[trigger] s.drop_first()[i].id <= i32::MAX);
        lemma_parse_records_of_enc(s.drop_first());
        assert(parse_records(u) == Some(seq![s[0]] + s.drop_first()));
        assert(seq![s[0]] + s.drop_first() =~= s);
    }
}

/// Law: writing a collection to the file and reading it back yields
/// the same (id, text) pairs in the same order. Holds for every
/// collection whose ids fit an i32, which every `Reminder` collection
/// does by construction.
pub proof fn lemma_round_trip(s: Seq<ReminderModel>)
    requires
        forall|i: int| 0 <= i < s.len() ==> i32::MIN <= #[trigger] s[i].id <= i32::MAX,
    ensures
        spec_decode(spec_encode(s)) == Some(s),
{
    let u = spec_encode(s);
    assert(u.len() >= 8);
    assert(u.take(8) =~= header());
    assert(u.skip(8) =~= enc_records(s));
    lemma_parse_records_of_enc(s);
}

proof fn lemma_enc_records_snoc(s: Seq<ReminderModel>, r: ReminderModel)
    ensures
        enc_records(s.push(r)) == enc_records(s) + enc_record(r),
    decreases s.len(),
{
    if s.len() == 0 {
        assert(s.push(r)[0] == r);
        assert(s.push(r).drop_first() =~= Seq::<ReminderModel>::empty());
        assert(enc_records(s.push(r)) == enc_record(r) + enc_records(Seq::<ReminderModel>::empty()));
        assert(enc_records(s.push(r)) =~= enc_records(s) + enc_record(r));
    } else {
        assert(s.push(r)[0] == s[0]);
        assert(s.push(r).drop_first() =~= s.drop_first().push(r));
        assert(enc_records(s.push(r)) == enc_record(s[0]) + enc_records(s.drop_first().push(r)));
        lemma_enc_records_snoc(s.drop_first(), r);
        assert(enc_records(s.push(r)) == enc_record(s[0]) + (enc_records(s.drop_first()) + enc_record(r)));
        assert(enc_records(s.push(r)) =~= enc_records(s) + enc_record(r));
    }
}

proof fn lemma_escape_snoc(t: Seq<char>, c: char)
    ensures
        escape_quotes(t.push(c)) == escape_quotes(t) + (if c == '"' {
            seq!['"', '"']
        } else {
            seq![c]
        }),
    decreases t.len(),
{
    let tail = if c == '"' { seq!['"', '"'] } else { seq![c] };
    if t.len() == 0 {
        assert(t.push(c)[0] == c);
        assert(t.push(c).drop_first() =~= Seq::<char>::empty());
        assert(escape_quotes(t.push(c)) == (if c == '"' {
            seq!['"', '"'] + escape_quotes(Seq::<char>::empty())
        } else {
            seq![c] + escape_quotes(Seq::<char>::empty())
        }));
        assert(escape_quotes(t.push(c)) =~= escape_quotes(t) + tail);
    } else {
        assert(t.push(c)[0] == t[0]);
        assert(t.push(c).drop_first() =~= t.drop_first().push(c));
        assert(escape_quotes(t.push(c)) == (if t[0] == '"' {
            seq!['"', '"'] + escape_quotes(t.drop_first().push(c))
        } else {
            seq![t[0]] + escape_quotes(t.drop_first().push(c))
        }));
        lemma_escape_snoc(t.drop_first(), c);
        assert(escape_quotes(t.push(c)) =~= escape_quotes(t) + tail);
    }
}

fn exec_is_special(c: char) -> (r: bool)
    ensures
        r == is_special(c),
{
    c == ',' || c == '"' || c == '\n' || c == '\r'
}

/// Whether the text holds a character that forces quoting.
fn has_special(text: &str) -> (b: bool)
    ensures
        b == needs_quoting(text@),
{
    let n = text.unicode_len();
    let mut i: usize = 0;
    while i < n
        invariant
            0 <= i <= n,
            n == text@.len(),
            forall|j: int| 0 <= j < i ==> !is_special(text@[j]),
        decreases n - i,
    {
        if exec_is_special(text.get_char(i)) {
            return true;
        }
        i += 1;
    }
    false
}

/// Appends the encoded form of one text field.
fn push_field(out: &mut String, text: &str)
    ensures
        final(out)@ == old(out)@ + enc_field(text@),
{
    if has_special(text) {
        crate::strutil::push_char(out, '"');
        let n = text.unicode_len();
        let mut i: usize = 0;
        while i < n
            invariant
                0 <= i <= n,
                n == text@.len(),
                needs_quoting(text@),
                out@ == old(out)@ + seq!['"'] + escape_quotes(text@.take(i as int)),
            decreases n - i,
        {
            let c = text.get_char(i);
            proof {
                assert(text@.take(i + 1).drop_last() =~= text@.take(i as int));
                assert(text@.take(i + 1) =~= text@.take(i as int).push(text@[i as int]));
                lemma_escape_snoc(text@.take(i as int), text@[i as int]);
            }
            if c == '"' {
                crate::strutil::push_char(out, '"');
                crate::strutil::push_char(out, '"');
                proof {
                    assert(out@ =~= old(out)@ + seq!['"'] + escape_quotes(text@.take(i + 1)));
                }
            } else {
                crate::strutil::push_char(out, c);
                proof {
                    assert(out@ =~= old(out)@ + seq!['"'] + escape_quotes(text@.take(i + 1)));
                }
            }
            i += 1;
        }
        crate::strutil::push_char(out, '"');
        proof {
            assert(text@.take(n as int) =~= text@);
            assert(out@ =~= old(out)@ + enc_field(text@));
        }
    } else {
        out.append(text);
        proof {
            assert(out@ =~= old(out)@ + enc_field(text@));
        }
    }
}

/// A parse result carried across an already consumed prefix: the text
/// found so far goes in front, the characters consumed are added.
spec fn pq_shift(r: Option<(Seq<char>, nat)>, pre: Seq<char>, off: nat) -> Option<(Seq<char>, nat)> {
    match r {
        None => None,
        Some((t, k)) => Some((pre + t, (k + off) as nat)),
    }
}

fn exec_is_digit(c: char) -> (r: bool)
    ensures
        r == is_digit(c),
{
    c >= '0' && c <= '9'
}

/// Reads a quoted field, the cursor standing just after the opening
/// quote.
fn parse_quoted_at(s: &str, pos: usize) -> (r: Option<(String, usize)>)
    requires
        pos <= s@.len(),
    ensures
        match r {
            Some((t, k)) => parse_quoted(s@.skip(pos as int)) == Some((t@, k as nat)) && 1 <= k
                && pos + k <= s@.len(),
            None => parse_quoted(s@.skip(pos as int)) is None,
        },
{
    let n = s.unicode_len();
    let mut acc = String::new();
    let mut i: usize = pos;
    loop
        invariant
            pos <= i <= n,
            n == s@.len(),
            parse_quoted(s@.skip(pos as int)) == pq_shift(
                parse_quoted(s@.skip(i as int)),
                acc@,
                (i - pos) as nat,
            ),
        decreases n - i,
    {
        if i == n {
            proof {
                assert(s@.skip(i as int).len() == 0);
            }
            return None;
        }
        let c = s.get_char(i);
        proof {
            assert(s@.skip(i as int)[0] == s@[i as int]);
        }
        if c == '"' {
            if i + 1 < n && s.get_char(i + 1) == '"' {
                proof {
                    let u = s@.skip(i as int);
                    assert(u[1] == s@[i + 1]);
                    assert(u.skip(2) =~= s@.skip(i + 2));
                    match parse_quoted(s@.skip(i + 2)) {
                        None => {
                            assert(parse_quoted(u) is None);
                        },
                        Some((t, k)) => {
                            assert(parse_quoted(u) == Some((seq!['"'] + t, (k + 2) as nat)));
                            assert(acc@ + (seq!['"'] + t) =~= acc@.push('"') + t);
                        },
                    }
                }
                crate::strutil::push_char(&mut acc, '"');
                i = i + 2;
            } else {
                proof {
                    let u = s@.skip(i as int);
                    if i + 1 < n {
                        assert(u[1] == s@[i + 1]);
                    } else {
                        assert(u.len() == 1);
                    }
                    assert(parse_quoted(u) == Some((Seq::<char>::empty(), 1nat)));
                    assert(acc@ + Seq::<char>::empty() =~= acc@);
                }
                return Some((acc, i + 1 - pos));
            }
        } else {
            proof {
                let u = s@.skip(i as int);
                assert(u.skip(1) =~= s@.skip(i + 1));
                match parse_quoted(s@.skip(i + 1)) {
                    None => {
                        assert(parse_quoted(u) is None);
                    },
                    Some((t, k)) => {
                        assert(parse_quoted(u) == Some((seq![s@[i as int]] + t, (k + 1) as nat)));
                        assert(acc@ + (seq![s@[i as int]] + t) =~= acc@.push(s@[i as int]) + t);
                    },
                }
            }
            crate::strutil::push_char(&mut acc, c);
            i = i + 1;
        }
    }
}

proof fn lemma_plain_run_position(s: Seq<char>, m: int)
    requires
        0 <= m <= s.len(),
        forall|j: int| 0 <= j < m ==> !is_special(s[j]),
        m < s.len() ==> is_special(s[m]),
    ensures
        plain_run(s) == m,
    decreases m,
{
    if m == 0 {
    } else {
        assert(!is_special(s[0]));
        lemma_plain_run_position(s.drop_first(), m - 1);
    }
}

/// Reads one text field and its terminating newline.
fn parse_field_at(s: &str, pos: usize) -> (r: Option<(String, usize)>)
    requires
        pos <= s@.len(),
    ensures
        match r {
            Some((t, k)) => parse_field(s@.skip(pos as int)) == Some((t@, k as nat)) && 1 <= k
                && pos + k <= s@.len(),
            None => parse_field(s@.skip(pos as int)) is None,
        },
{
    let n = s.unicode_len();
    let ghost u = s@.skip(pos as int);
    if pos < n && s.get_char(pos) == '"' {
        proof {
            assert(u[0] == s@[pos as int]);
            assert(u.skip(1) =~= s@.skip(pos + 1));
        }
        match parse_quoted_at(s, pos + 1) {
            None => None,
            Some((t, qk)) => {
                if pos + 1 + qk < n && s.get_char(pos + 1 + qk) == '\n' {
                    proof {
                        assert(u[1 + qk as int] == s@[pos + 1 + qk]);
                    }
                    Some((t, qk + 2))
                } else {
                    proof {
                        if pos + 1 + qk < n {
                            assert(u[1 + qk as int] == s@[pos + 1 + qk]);
                        } else {
                            assert(1 + qk >= u.len());
                        }
                    }
                    None
                }
            },
        }
    } else {
        proof {
            if pos < n {
                assert(u[0] == s@[pos as int]);
            }
        }
        let mut i: usize = pos;
        while i < n && !exec_is_special(s.get_char(i))
            invariant
                pos <= i <= n,
                n == s@.len(),
                u == s@.skip(pos as int),
                forall|j: int| pos <= j < i ==> !is_special(s@[j]),
            decreases n - i,
        {
            i += 1;
        }
        proof {
            assert(forall|j: int| 0 <= j < i - pos ==> u[j] == s@[pos + j]);
            if i < n {
                assert(u[i - pos] == s@[i as int]);
            }
            lemma_plain_run_position(u, i - pos);
        }
        if i < n && s.get_char(i) == '\n' {
            let sub = s.substring_char(pos, i);
            proof {
                assert(u.take(i - pos) =~= s@.subrange(pos as int, i as int));
                assert(u[i - pos] == s@[i as int]);
            }
            Some((String::from_str(sub), i - pos + 1))
        } else {
            proof {
                if i < n {
                    assert(u[i - pos] == s@[i as int]);
                }
            }
            None
        }
    }
}

/// Reads one row: the reminder and the characters consumed.
fn parse_record_at(s: &str, pos: usize) -> (r: Option<(Reminder, usize)>)
    requires
        pos <= s@.len(),
    ensures
        match r {
            Some((rem, k)) => parse_record(s@.skip(pos as int)) == Some((rem@, k as nat)) && 1 <= k
                && pos + k <= s@.len(),
            None => parse_record(s@.skip(pos as int)) is None,
        },
{
    let n = s.unicode_len();
    let ghost u = s@.skip(pos as int);
    let neg = pos < n && s.get_char(pos) == '-';
    let start: usize = if neg { pos + 1 } else { pos };
    let ghost off: int = if neg { 1 } else { 0 };
    let ghost t = s@.skip(start as int);
    proof {
        if pos < n {
            assert(u[0] == s@[pos as int]);
        }
        assert(neg == (u.len() > 0 && u[0] == '-'));
        assert(u.skip(off) =~= t);
    }
    let mut i: usize = start;
    let mut acc: u64 = 0;
    let mut too_big = false;
    while i < n && exec_is_digit(s.get_char(i))
        invariant
            start <= i <= n,
            n == s@.len(),
            t == s@.skip(start as int),
            forall|j: int| 0 <= j < i - start ==> is_digit(t[j]),
            !too_big ==> acc as int == digits_val(t.take(i - start)) && acc <= 2147483648,
            too_big ==> digits_val(t.take(i - start)) > 2147483648,
        decreases n - i,
    {
        let c = s.get_char(i);
        let d: u64 = (c as u32 as u64) - 48;
        proof {
            assert(t[i - start] == s@[i as int]);
            assert(d as int == digit_val(t[i - start]));
            assert(t.take(i - start + 1).drop_last() =~= t.take(i - start));
            assert(digits_val(t.take(i - start + 1)) == digits_val(t.take(i - start)) * 10
                + digit_val(t[i - start]));
        }
        if too_big {
            proof {
                assert(digits_val(t.take(i - start)) * 10 > 2147483648);
            }
        } else {
            let next = acc * 10 + d;
            if next > 2147483648 {
                too_big = true;
            } else {
                acc = next;
            }
        }
        i += 1;
    }
    proof {
        if i < n {
            assert(t[i - start] == s@[i as int]);
            assert(!is_digit(t[i - start]));
        }
        lemma_digits_run_position(t, i - start);
        assert(digits_run(u.skip(off)) == i - start);
    }
    let d = i - start;
    if d == 0 {
        return None;
    }
    proof {
        assert(t.take(i - start) =~= u.skip(off).take(i - start));
    }
    let id: i32 = if neg {
        if too_big {
            proof {
                assert(-digits_val(u.skip(off).take(d as int)) < i32::MIN);
            }
            return None;
        }
        if acc == 2147483648 {
            i32::MIN
        } else {
            -(acc as i32)
        }
    } else {
        if too_big || acc > 2147483647 {
            proof {
                assert(digits_val(u.skip(off).take(d as int)) > i32::MAX);
            }
            return None;
        }
        acc as i32
    };
    if !(i < n) {
        proof {
            assert(off + d >= u.len());
        }
        return None;
    }
    let comma = s.get_char(i);
    proof {
        assert(u[off + d] == s@[i as int]);
    }
    if comma != ',' {
        return None;
    }
    proof {
        assert(u.skip(off + d + 1) =~= s@.skip(i + 1));
    }
    match parse_field_at(s, i + 1) {
        None => None,
        Some((text, fk)) => {
            let rem = Reminder { id, text };
            proof {
                assert(rem@ == (ReminderModel { id: id as int, text: rem.text@ }));
            }
            Some((rem, d + 1 + fk + (if neg { 1 } else { 0 })))
        },
    }
}

/// Reads every row from the cursor to the end of the input.
fn parse_records_at(s: &str, pos: usize) -> (r: Option<Vec<Reminder>>)
    requires
        pos <= s@.len(),
    ensures
        match r {
            Some(v) => parse_records(s@.skip(pos as int)) == Some(models(v@)),
            None => parse_records(s@.skip(pos as int)) is None,
        },
{
    let n = s.unicode_len();
    let mut acc: Vec<Reminder> = Vec::new();
    let mut i: usize = pos;
    loop
        invariant
            pos <= i <= n,
            n == s@.len(),
            (match parse_records(s@.skip(i as int)) {
                Some(rest) => parse_records(s@.skip(pos as int)) == Some(models(acc@) + rest),
                None => parse_records(s@.skip(pos as int)) is None,
            }),
        decreases n - i,
    {
        if i == n {
            proof {
                assert(s@.skip(i as int).len() == 0);
                assert(models(acc@) + Seq::<ReminderModel>::empty() =~= models(acc@));
            }
            return Some(acc);
        }
        match parse_record_at(s, i) {
            None => {
                proof {
                    assert(s@.skip(i as int).len() > 0);
                }
                return None;
            },
            Some((rem, k)) => {
                proof {
                    let w = s@.skip(i as int);
                    assert(w.len() > 0);
                    assert(w.skip(k as int) =~= s@.skip(i + k));
                    assert(models(acc@.push(rem)) =~= models(acc@).push(rem@));
                    match parse_records(s@.skip(i + k)) {
                        None => {
                            assert(parse_records(w) is None);
                        },
                        Some(rest) => {
                            assert(parse_records(w) == Some(seq![rem@] + rest));
                            assert(models(acc@) + (seq![rem@] + rest) =~= models(acc@).push(rem@)
                                + rest);
                        },
                    }
                }
                acc.push(rem);
                i = i + k;
            },
        }
    }
}

/// Reads a whole file back into a collection: `Ok` exactly when the
/// file is empty or holds the header row followed by well-formed rows.
pub fn decode(s: &str) -> (r: Result<Vec<Reminder>, ParseError>)
    ensures
        match r {
            Ok(v) => spec_decode(s@) == Some(models(v@)),
            Err(_) => spec_decode(s@) is None,
        },
{
    let n = s.unicode_len();
    if n == 0 {
        let v: Vec<Reminder> = Vec::new();
        proof {
            assert(models(v@) =~= Seq::<ReminderModel>::empty());
        }
        return Ok(v);
    }
    if n < 8 {
        return Err(ParseError);
    }
    let head = s.substring_char(0, 8);
    proof {
        reveal_strlit("id,text\n");
        assert("id,text\n"@ =~= header());
        assert(s@.take(8) =~= s@.subrange(0, 8));
    }
    if crate::strutil::str_eq(head, "id,text\n") {
        match parse_records_at(s, 8) {
            Some(v) => Ok(v),
            None => Err(ParseError),
        }
    } else {
        Err(ParseError)
    }
}

/// Writes the whole collection as one file: the header row, then every
/// reminder as one row, in collection order.
pub fn encode(reminders: &Vec<Reminder>) -> (out: String)
    ensures
        out@ == spec_encode(models(reminders@)),
{
    let ghost all = models(reminders@);
    let mut out = String::new();
    out.append("id,text\n");
    proof {
        reveal_strlit("id,text\n");
        assert(out@ =~= header());
        assert(all.take(0) =~= Seq::<ReminderModel>::empty());
        assert(out@ =~= header() + enc_records(all.take(0)));
    }
    let mut i: usize = 0;
    while i < reminders.len()
        invariant
            0 <= i <= reminders@.len(),
            all == models(reminders@),
            out@ == header() + enc_records(all.take(i as int)),
        decreases reminders@.len() - i,
    {
        push_dec_i32(&mut out, reminders[i].id);
        crate::strutil::push_char(&mut out, ',');
        push_field(&mut out, reminders[i].text.as_str());
        crate::strutil::push_char(&mut out, '\n');
        proof {
            assert(all.take(i + 1) =~= all.take(i as int).push(all[i as int]));
            lemma_enc_records_snoc(all.take(i as int), all[i as int]);
            assert(out@ =~= header() + enc_records(all.take(i + 1)));
        }
        i += 1;
    }
    proof {
        assert(all.take(reminders@.len() as int) =~= all);
    }
    out
}

} // verus!
