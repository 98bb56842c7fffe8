//! The operations on the in-memory collection: computing the next id,
//! adding, deleting, and rendering reminders for display.

use vstd::prelude::*;
use crate::digits::dec_int;
use crate::digits::push_dec_i32;
use crate::reminder::Reminder;
use crate::reminder::ReminderModel;
use crate::reminder::models;

verus! {

/// The largest id present, or 0 for an empty collection.
pub open spec fn spec_max_id(s: Seq<ReminderModel>) -> int
    decreases s.len(),
{
    if s.len() == 0 {
        0
    } else {
        let m = spec_max_id(s.drop_last());
        if s.last().id > m {
            s.last().id
        } else {
            m
        }
    }
}

/// The collection after adding a reminder with the given text: the new
/// record carries the current maximum id plus one and goes at the end.
pub open spec fn spec_add(s: Seq<ReminderModel>, text: Seq<char>) -> Seq<ReminderModel> {
    s.push(ReminderModel { id: spec_max_id(s) + 1, text })
}

/// Some record of the collection carries this id.
pub open spec fn has_id(s: Seq<ReminderModel>, id: int) -> bool {
    exists|i: int| 0 <= i < s.len() && s[i].id == id
}

/// The position of the first record with this id (meaningful only when
/// `has_id` holds).
pub open spec fn first_idx(s: Seq<ReminderModel>, id: int) -> int
    decreases s.len(),
{
    if s.len() == 0 {
        0
    } else if s[0].id == id {
        0
    } else {
        1 + first_idx(s.drop_first(), id)
    }
}

/// One display line: the id in base 10, a colon and a space, the text.
pub open spec fn spec_line(r: ReminderModel) -> Seq<char> {
    dec_int(r.id) + seq![':', ' '] + r.text
}

/// The collection obtained by adding each text in turn, starting from
/// an empty collection.
pub open spec fn add_all(texts: Seq<Seq<char>>) -> Seq<ReminderModel>
    decreases texts.len(),
{
    if texts.len() == 0 {
        Seq::empty()
    } else {
        spec_add(add_all(texts.drop_last()), texts.last())
    }
}

/// Law: adds performed on an initially empty collection hand out the
/// ids 1, 2, 3, ... in order — the Nth add yields id N — and afterwards
/// the maximum id equals the number of adds.
pub proof fn lemma_add_ids_sequential(texts: Seq<Seq<char>>)
    ensures
        add_all(texts).len() == texts.len(),
        spec_max_id(add_all(texts)) == texts.len(),
        forall|i: int| 0 <= i < texts.len()
            ==> add_all(texts)[i] == (ReminderModel { id: i + 1, text: texts[i] }),
    decreases texts.len(),
{
    if texts.len() > 0 {
        lemma_add_ids_sequential(texts.drop_last());
        let prev = add_all(texts.drop_last());
        let all = add_all(texts);
        assert(all == prev.push(ReminderModel { id: prev.len() as int + 1, text: texts.last() }));
        assert(all.drop_last() =~= prev);
        assert(forall|i: int| 0 <= i < prev.len() ==> all[i] == prev[i]);
    }
}

/// The maximum id is never negative and bounds every id present.
pub proof fn lemma_max_id_bounds(s: Seq<ReminderModel>)
    ensures
        spec_max_id(s) >= 0,
        forall|i: int| 0 <= i < s.len() ==> s[i].id <= spec_max_id(s),
    decreases s.len(),
{
    if s.len() > 0 {
        lemma_max_id_bounds(s.drop_last());
        assert(forall|i: int| 0 <= i < s.len() - 1 ==> s[i] == s.drop_last()[i]);
    }
}

/// A position that carries the id, with no match before it, is exactly
/// `first_idx`.
proof fn lemma_first_idx_at(s: Seq<ReminderModel>, id: int, i: int)
    requires
        0 <= i < s.len(),
        s[i].id == id,
        forall|j: int| 0 <= j < i ==> s[j].id != id,
    ensures
        first_idx(s, id) == i,
        has_id(s, id),
    decreases i,
{
    if s[0].id == id {
        assert(i == 0);
    } else {
        assert(i > 0);
        assert(forall|j: int| 0 <= j < i - 1 ==> s.drop_first()[j].id != id);
        lemma_first_idx_at(s.drop_first(), id, i - 1);
    }
}

/// Scans the collection for its largest id; 0 when it is empty.
pub fn max_id(reminders: &Vec<Reminder>) -> (m: i32)
    ensures
        m as int == spec_max_id(models(reminders@)),
{
    let ghost all = models(reminders@);
    let mut m: i32 = 0;
    let mut i: usize = 0;
    while i < reminders.len()
        invariant
            0 <= i <= reminders@.len(),
            all == models(reminders@),
            m as int == spec_max_id(all.take(i as int)),
        decreases reminders@.len() - i,
    {
        proof {
            assert(all.take(i + 1).drop_last() =~= all.take(i as int));
            assert(all.take(i + 1).last() == reminders@[i as int]@);
        }
        if reminders[i].id > m {
            m = reminders[i].id;
        }
        i += 1;
    }
    proof {
        assert(all.take(reminders@.len() as int) =~= all);
    }
    m
}

/// Appends a new reminder whose id is the current maximum plus one;
/// the new id is strictly greater than every id already present.
pub fn add_reminder(reminders: &mut Vec<Reminder>, text: String) -> (id: i32)
    requires
        spec_max_id(models(old(reminders)@)) < i32::MAX as int,
    ensures
        id as int == spec_max_id(models(old(reminders)@)) + 1,
        models(final(reminders)@) == spec_add(models(old(reminders)@), text@),
        forall|i: int| 0 <= i < old(reminders)@.len()
            ==> models(old(reminders)@)[i].id < id as int,
{
    proof {
        lemma_max_id_bounds(models(reminders@));
    }
    let m = max_id(reminders);
    let id = m + 1;
    let new_reminder = Reminder { id, text };
    reminders.push(new_reminder);
    proof {
        assert(models(reminders@) =~= spec_add(models(old(reminders)@), new_reminder@.text));
    }
    id
}

/// Removes the first reminder with the given id, if any; an absent id
/// leaves the collection exactly as it was, never touching its length
/// or an unrelated record.
pub fn delete_reminder(reminders: &mut Vec<Reminder>, id: i32) -> (found: bool)
    ensures
        found == has_id(models(old(reminders)@), id as int),
        found ==> ({
            let s = models(old(reminders)@);
            let idx = first_idx(s, id as int);
            &&& 0 <= idx < s.len()
            &&& s[idx].id == id as int
            &&& forall|j: int| 0 <= j < idx ==> s[j].id != id as int
            &&& models(final(reminders)@) == s.remove(idx)
        }),
        !found ==> final(reminders)@ == old(reminders)@,
{
    let ghost all = models(reminders@);
    let mut i: usize = 0;
    while i < reminders.len()
        invariant
            0 <= i <= reminders@.len(),
            all == models(reminders@),
            reminders@ == old(reminders)@,
            forall|j: int| 0 <= j < i ==> all[j].id != id as int,
        decreases reminders@.len() - i,
    {
        if reminders[i].id == id {
            proof {
                lemma_first_idx_at(all, id as int, i as int);
            }
            reminders.remove(i);
            proof {
                assert(models(reminders@) =~= all.remove(i as int));
            }
            return true;
        }
        i += 1;
    }
    proof {
        assert(!has_id(all, id as int));
    }
    false
}

/// Renders one reminder as its display line.
pub fn format_reminder(r: &Reminder) -> (line: String)
    ensures
        line@ == spec_line(r@),
{
    let mut line = String::new();
    push_dec_i32(&mut line, r.id);
    crate::strutil::push_char(&mut line, ':');
    crate::strutil::push_char(&mut line, ' ');
    line.append(r.text.as_str());
    proof {
        assert(line@ =~= spec_line(r@));
    }
    line
}

/// Renders the whole collection, one line per reminder, in collection
/// order. Takes the collection by shared borrow and returns a value
/// determined by its contents alone, so viewing never changes the
/// collection, however often it is repeated.
pub fn view_reminders(reminders: &Vec<Reminder>) -> (lines: Vec<String>)
    ensures
        lines@.len() == reminders@.len(),
        forall|i: int| 0 <= i < lines@.len() ==> lines@[i]@ == spec_line(models(reminders@)[i]),
{
    let mut lines: Vec<String> = Vec::new();
    let mut i: usize = 0;
    while i < reminders.len()
        invariant
            0 <= i <= reminders@.len(),
            lines@.len() == i,
            forall|j: int| 0 <= j < i ==> lines@[j]@ == spec_line(models(reminders@)[j]),
        decreases reminders@.len() - i,
    {
        let line = format_reminder(&reminders[i]);
        lines.push(line);
        i += 1;
    }
    lines
}

/// The fixed usage summary shown by the help command.
pub fn help_lines() -> (lines: Vec<String>)
    ensures
        lines@.len() == 7,
        lines@[0]@ == "Welcome to the reminder CLI app!"@,
        lines@[1]@ == "Available commands are:"@,
        lines@[2]@ == "'add': add a new reminder"@,
        lines@[3]@ == "'view': view your reminders"@,
        lines@[4]@ == "'delete': delete a selected reminder"@,
        lines@[5]@ == "'help': show this summary"@,
        lines@[6]@ == "'quit': exit the app"@,
{
    let mut lines: Vec<String> = Vec::new();
    lines.push(String::from_str("Welcome to the reminder CLI app!"));
    lines.push(String::from_str("Available commands are:"));
    lines.push(String::from_str("'add': add a new reminder"));
    lines.push(String::from_str("'view': view your reminders"));
    lines.push(String::from_str("'delete': delete a selected reminder"));
    lines.push(String::from_str("'help': show this summary"));
    lines.push(String::from_str("'quit': exit the app"));
    lines
}

} // verus!
