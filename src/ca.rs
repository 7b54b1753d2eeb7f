//! One day's figures: a row of the table.
use vstd::prelude::*;
use crate::date::Date;
use crate::table::{CaTable, updated, deleted};

verus! {

/// The mathematical value of a [`Ca`].
pub ghost struct CaView {
    pub date: Date,
    pub ca: int,
    pub hours: int,
    pub hsup: int,
    pub comment: Option<Seq<char>>,
}

/// One calendar day's figures. Amounts are in hundredths: `ca` is the
/// revenue, `hours` the hours worked, `hsup` the overtime hours among them.
/// A day without a note has no comment (not an empty one).
#[derive(Debug)]
pub struct Ca {
    pub date: Date,
    pub ca: i64,
    pub hours: i64,
    pub hsup: i64,
    pub comment: Option<String>,
}

pub open spec fn comment_view(c: Option<String>) -> Option<Seq<char>> {
    match c {
        Some(s) => Some(s@),
        None => None,
    }
}

/// The record that a day starts with: all figures zero, no comment.
pub open spec fn blank(date: Date) -> CaView {
    CaView { date, ca: 0, hours: 0, hsup: 0, comment: None }
}

impl View for Ca {
    type V = CaView;

    open spec fn view(&self) -> CaView {
        CaView {
            date: self.date,
            ca: self.ca as int,
            hours: self.hours as int,
            hsup: self.hsup as int,
            comment: comment_view(self.comment),
        }
    }
}

impl Ca {
    /// The blank record of `day`: zero revenue, hours and overtime, no comment.
    pub fn new(day: &Date) -> (r: Ca)
        ensures
            r@ == blank(*day),
    {
        Ca { date: *day, ca: 0, hours: 0, hsup: 0, comment: None }
    }

    /// Writes the record's figures and comment over its row of `table`;
    /// does nothing where the table has no row of its date.
    pub fn save(&self, table: &mut CaTable)
        requires
            old(table).wf(),
        ensures
            final(table).wf(),
            final(table)@ == updated(old(table)@, self@),
    {
        table.update(self);
    }

    /// Removes the record's row from `table`; does nothing where there is
    /// none.
    pub fn delete(self, table: &mut CaTable)
        requires
            old(table).wf(),
        ensures
            final(table).wf(),
            final(table)@ == deleted(old(table)@, self.date),
    {
        table.del(&self.date);
    }

    /// A copy of the record, equal to it in every field.
    pub fn duplicate(&self) -> (r: Ca)
        ensures
            r@ == self@,
    {
        let comment = match &self.comment {
            Some(s) => Some(s.clone()),
            None => None,
        };
        Ca { date: self.date, ca: self.ca, hours: self.hours, hsup: self.hsup, comment }
    }
}

} // verus!
