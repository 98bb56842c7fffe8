//! The reminder record and its mathematical model.

use vstd::prelude::*;

verus! {

/// Mathematical model of a reminder: an unbounded integer id and the
/// text as a sequence of characters.
pub ghost struct ReminderModel {
    pub id: int,
    pub text: Seq<char>,
}

/// A single reminder: a caller-visible integer id, unique within a
/// collection, and free-form text.
pub struct Reminder {
    pub id: i32,
    pub text: String,
}

impl View for Reminder {
    type V = ReminderModel;

    open spec fn view(&self) -> ReminderModel {
        ReminderModel { id: self.id as int, text: self.text@ }
    }
}

/// The models of a sequence of reminders, in the same order.
pub open spec fn models(s: Seq<Reminder>) -> Seq<ReminderModel> {
    s.map_values(|r: Reminder| r@)
}

impl Reminder {
    /// Builds a reminder from its id and text.
    pub fn new(id: i32, text: String) -> (r: Reminder)
        ensures
            r@ == (ReminderModel { id: id as int, text: text@ }),
    {
        Reminder { id, text }
    }

    pub fn get_id(&self) -> (id: &i32)
        ensures
            *id as int == self@.id,
    {
        &self.id
    }

    pub fn get_text(&self) -> (text: &String)
        ensures
            text@ == self@.text,
    {
        &self.text
    }
}

} // verus!
