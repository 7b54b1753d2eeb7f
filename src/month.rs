//! A month's activity: its totals and its days, and the bonus rule of the
//! monthly report.
use vstd::prelude::*;
use crate::date::Date;
use crate::ca::Ca;
use crate::table::{CaTable, Field, month_rows, month_total, views};

verus! {

/// The totals and the daily records of the month that contains `day`.
/// Totals are in hundredths; `datas` is in ascending date order.
pub struct CaMonth {
    pub day: Date,
    pub ca: i128,
    pub hours: i128,
    pub hsup: i128,
    pub datas: Vec<Ca>,
}

impl CaMonth {
    /// The month of `day`, before its figures are read: zero totals, no days.
    pub fn new(day: &Date) -> (r: CaMonth)
        ensures
            r.day == *day,
            r.ca == 0 && r.hours == 0 && r.hsup == 0,
            r.datas@.len() == 0,
    {
        CaMonth { day: *day, ca: 0, hours: 0, hsup: 0, datas: Vec::new() }
    }

    /// Fills the totals and the daily records of the month of `self.day`
    /// from `table`.
    pub fn retrieve_datas(&mut self, table: &CaTable)
        requires
            table.wf(),
        ensures
            final(self).day == old(self).day,
            final(self).ca == month_total(table@, old(self).day.year as int, old(self).day.month as int, Field::Ca),
            final(self).hours == month_total(table@, old(self).day.year as int, old(self).day.month as int, Field::Hours),
            final(self).hsup == month_total(table@, old(self).day.year as int, old(self).day.month as int, Field::Hsup),
            views(final(self).datas@) == month_rows(table@, old(self).day.year as int, old(self).day.month as int),
    {
        self.ca = table.ca_for_month(&self.day);
        self.hours = table.hours_for_month(&self.day);
        self.hsup = table.hsup_for_month(&self.day);
        self.datas = table.datas_for_month(&self.day);
    }
}

/// The monthly revenue, in hundredths, above which a bonus is earned.
pub const THRESHOLD: i128 = 342115;

/// How far the month's revenue lies above the threshold (negative below it).
pub open spec fn delta_of(ca: int) -> int {
    ca - THRESHOLD
}

/// The bonus: two percent of the revenue, rounded down to the hundredth,
/// where the revenue lies strictly above the threshold; else nothing.
pub open spec fn prime_of(ca: int) -> int {
    if delta_of(ca) > 0 {
        ca * 2 / 100
    } else {
        0
    }
}

/// The terminal dialogue's report rules.
pub struct Dialog {}

impl Dialog {
    /// The revenue's distance above the threshold, in hundredths.
    pub fn delta(ca: i128) -> (r: i128)
        requires
            ca >= i128::MIN + THRESHOLD,
        ensures
            r == delta_of(ca as int),
    {
        ca - THRESHOLD
    }

    /// The bonus that a month's revenue earns, in hundredths.
    pub fn prime(ca: i128) -> (r: i128)
        ensures
            r == prime_of(ca as int),
    {
        if ca > THRESHOLD {
            assert(ca * 2 / 100 == ca / 50) by (nonlinear_arith)
                requires
                    ca > 0,
            ;
            ca / 50
        } else {
            0
        }
    }
}

} // verus!
