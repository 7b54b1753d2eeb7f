//! The table of records: one row per date, kept in ascending date order,
//! with the create-on-read lookup and the monthly queries.
use vstd::prelude::*;
use crate::date::Date;
use crate::ca::{Ca, CaView, blank};

verus! {

/// Why a table operation did not take place.
#[derive(Clone, Copy, Debug, PartialEq, Eq, Structural)]
pub enum StoreError {
    /// The storage could not be reached or queried.
    Storage,
    /// No row has the requested date.
    NotFound,
    /// A row with that date is already there.
    Conflict,
}

/// Which figure of a record a sum is taken over.
#[derive(Clone, Copy, Debug, PartialEq, Eq, Structural)]
pub enum Field {
    Ca,
    Hours,
    Hsup,
}

pub open spec fn field_of(r: CaView, f: Field) -> int {
    match f {
        Field::Ca => r.ca,
        Field::Hours => r.hours,
        Field::Hsup => r.hsup,
    }
}

/// Rows in strictly ascending date order, each with a real date: so no two
/// rows share a date.
pub open spec fn table_wf(s: Seq<CaView>) -> bool {
    &&& forall|i: int| 0 <= i < s.len() ==> (#[trigger] s[i]).date.wf()
    &&& forall|i: int, j: int| 0 <= i < j < s.len() ==> (#[trigger] s[i]).date.key() < (
    #[trigger] s[j]).date.key()
}

pub open spec fn has_date(s: Seq<CaView>, d: Date) -> bool {
    exists|i: int| 0 <= i < s.len() && (#[trigger] s[i]).date == d
}

/// The position of the row of date `d` (meaningful where there is one).
pub open spec fn index_of(s: Seq<CaView>, d: Date) -> int {
    choose|i: int| 0 <= i < s.len() && (#[trigger] s[i]).date == d
}

/// The row of date `d` (meaningful where there is one).
pub open spec fn row_of(s: Seq<CaView>, d: Date) -> CaView {
    s[index_of(s, d)]
}

/// Where a row of date `d` goes to keep the order: after every earlier
/// date, before every later one.
pub open spec fn slot_for(s: Seq<CaView>, d: Date, k: int) -> bool {
    &&& 0 <= k <= s.len()
    &&& forall|j: int| 0 <= j < k ==> (#[trigger] s[j]).date.key() < d.key()
    &&& forall|j: int| k <= j < s.len() ==> (#[trigger] s[j]).date.key() > d.key()
}

pub open spec fn insert_pos(s: Seq<CaView>, d: Date) -> int {
    choose|k: int| slot_for(s, d, k)
}

/// The table after adding `c`: unchanged where its date is taken.
pub open spec fn added(s: Seq<CaView>, c: CaView) -> Seq<CaView> {
    if has_date(s, c.date) {
        s
    } else {
        s.insert(insert_pos(s, c.date), c)
    }
}

/// The table after overwriting the row of `c`'s date: unchanged where there
/// is none.
pub open spec fn updated(s: Seq<CaView>, c: CaView) -> Seq<CaView> {
    if has_date(s, c.date) {
        s.update(index_of(s, c.date), c)
    } else {
        s
    }
}

/// The table after removing the row of date `d`: unchanged where there is
/// none.
pub open spec fn deleted(s: Seq<CaView>, d: Date) -> Seq<CaView> {
    if has_date(s, d) {
        s.remove(index_of(s, d))
    } else {
        s
    }
}

/// What the create-on-read lookup of `d` returns: the stored row, or the
/// blank record of `d`.
pub open spec fn looked_up(s: Seq<CaView>, d: Date) -> CaView {
    if has_date(s, d) {
        row_of(s, d)
    } else {
        blank(d)
    }
}

/// The rows of `s` dated in month `m` of year `y`, in the order of `s`.
pub open spec fn month_rows(s: Seq<CaView>, y: int, m: int) -> Seq<CaView>
    decreases s.len(),
{
    if s.len() == 0 {
        s
    } else if s.last().date.in_month(y, m) {
        month_rows(s.drop_last(), y, m).push(s.last())
    } else {
        month_rows(s.drop_last(), y, m)
    }
}

/// The number of rows of `s` dated in month `m` of year `y`.
pub open spec fn month_count(s: Seq<CaView>, y: int, m: int) -> nat
    decreases s.len(),
{
    if s.len() == 0 {
        0
    } else {
        month_count(s.drop_last(), y, m) + if s.last().date.in_month(y, m) {
            1nat
        } else {
            0nat
        }
    }
}

/// The sum of figure `f` over `s`.
pub open spec fn sum_field(s: Seq<CaView>, f: Field) -> int
    decreases s.len(),
{
    if s.len() == 0 {
        0
    } else {
        sum_field(s.drop_last(), f) + field_of(s.last(), f)
    }
}

/// The sum of figure `f` over the rows dated in month `m` of year `y`.
pub open spec fn month_total(s: Seq<CaView>, y: int, m: int, f: Field) -> int {
    sum_field(month_rows(s, y, m), f)
}

/// Two real dates with the same key are the same date.
pub proof fn lemma_key_injective(a: Date, b: Date)
    requires
        a.wf(),
        b.wf(),
        a.key() == b.key(),
    ensures
        a == b,
{
}

/// Putting a row in its slot keeps the table ordered.
pub(crate) proof fn lemma_insert_wf(s: Seq<CaView>, c: CaView, k: int)
    requires
        table_wf(s),
        c.date.wf(),
        slot_for(s, c.date, k),
    ensures
        table_wf(s.insert(k, c)),
        !has_date(s, c.date),
{
    let t = s.insert(k, c);
    assert forall|i: int, j: int| 0 <= i < j < t.len() implies (#[trigger] t[i]).date.key() < (
    #[trigger] t[j]).date.key() by {
        if j < k {
        } else if j == k {
        } else if i < k {
        } else if i == k {
        } else {
            assert(t[i] == s[i - 1] && t[j] == s[j - 1]);
        }
    }
    assert forall|i: int| 0 <= i < t.len() implies (#[trigger] t[i]).date.wf() by {
        if i > k {
            assert(t[i] == s[i - 1]);
        }
    }
    assert forall|i: int| 0 <= i < s.len() implies (#[trigger] s[i]).date != c.date by {
        if i < k {
        } else {
        }
    }
}

/// The slot of a date that the table lacks is the one `insert_pos` names.
proof fn lemma_slot_unique(s: Seq<CaView>, d: Date, k: int)
    requires
        slot_for(s, d, k),
    ensures
        insert_pos(s, d) == k,
{
    let k2 = insert_pos(s, d);
    assert(slot_for(s, d, k2));
    if k2 < k {
        assert(s[k2].date.key() < d.key());
    } else if k2 > k {
        assert(s[k].date.key() < d.key());
    }
}

/// The next step of the create-on-read lookup against a store that is asked
/// one question at a time.
pub enum DayStep {
    /// Read the stored row of this day.
    Fetch(Date),
    /// Insert this blank record; it is then the day's record.
    Insert(Ca),
}

/// Decides the create-on-read lookup of `day` once the store has said
/// whether the day exists: read it where it does, else insert its blank
/// record.
pub fn plan_lookup(day: &Date, exists: bool) -> (r: DayStep)
    ensures
        match r {
            DayStep::Fetch(d) => exists && d == *day,
            DayStep::Insert(c) => !exists && c@ == blank(*day),
        },
{
    if exists {
        DayStep::Fetch(*day)
    } else {
        DayStep::Insert(Ca::new(day))
    }
}

/// The values of a sequence of records.
pub open spec fn views(v: Seq<Ca>) -> Seq<CaView> {
    v.map_values(|c: Ca| c@)
}

/// The table of records, one per date.
pub struct CaTable {
    rows: Vec<Ca>,
}

impl View for CaTable {
    type V = Seq<CaView>;

    closed spec fn view(&self) -> Seq<CaView> {
        views(self.rows@)
    }
}

impl CaTable {
    pub open spec fn wf(&self) -> bool {
        table_wf(self@)
    }

    /// An empty table.
    pub fn new() -> (r: CaTable)
        ensures
            r.wf(),
            r@ == Seq::<CaView>::empty(),
    {
        let r = CaTable { rows: Vec::new() };
        assert(r@ =~= Seq::<CaView>::empty());
        r
    }

    /// The number of rows.
    pub fn len(&self) -> (r: usize)
        ensures
            r == self@.len(),
    {
        self.rows.len()
    }

    /// The position of the row of date `d`, if there is one.
    fn find(&self, d: &Date) -> (r: Option<usize>)
        requires
            self.wf(),
        ensures
            match r {
                Some(i) => has_date(self@, *d) && i == index_of(self@, *d) && i < self@.len(),
                None => !has_date(self@, *d),
            },
    {
        let n = self.rows.len();
        let mut i: usize = 0;
        while i < n
            invariant
                self.wf(),
                n == self.rows@.len(),
                n == self@.len(),
                i <= n,
                forall|j: int| 0 <= j < i ==> (#[trigger] self@[j]).date != *d,
            decreases n - i,
        {
            assert(self@[i as int] == self.rows@[i as int]@);
            if self.rows[i].date == *d {
                proof {
                    let k = index_of(self@, *d);
                    assert(0 <= k < self@.len() && self@[k].date == *d);
                    if k != i {
                        assert(self@[i as int].date.key() < self@[k].date.key());
                    }
                }
                return Some(i);
            }
            i = i + 1;
        }
        None
    }

    /// The row of date `d`; `NotFound` where there is none.
    pub fn get(&self, d: &Date) -> (r: Result<Ca, StoreError>)
        requires
            self.wf(),
        ensures
            match r {
                Ok(c) => has_date(self@, *d) && c@ == row_of(self@, *d),
                Err(e) => !has_date(self@, *d) && e == StoreError::NotFound,
            },
    {
        match self.find(d) {
            Some(i) => {
                assert(self@[i as int] == self.rows@[i as int]@);
                Ok(self.rows[i].duplicate())
            },
            None => Err(StoreError::NotFound),
        }
    }

    /// Inserts `c` as a new row, in date order; `Conflict`, with the table
    /// unchanged, where its date is taken.
    pub fn add(&mut self, c: &Ca) -> (r: Result<(), StoreError>)
        requires
            old(self).wf(),
            c.date.wf(),
        ensures
            final(self).wf(),
            final(self)@ == added(old(self)@, c@),
            r == (if has_date(old(self)@, c.date) {
                Err::<(), StoreError>(StoreError::Conflict)
            } else {
                Ok(())
            }),
    {
        let n = self.rows.len();
        let mut k: usize = 0;
        assert forall|j: int| 0 <= j < n implies (#[trigger] self.rows@[j]).date.wf() by {
            assert(self@[j] == self.rows@[j]@);
        }
        while k < n && self.rows[k].date.is_before(&c.date)
            invariant
                self.wf(),
                forall|j: int| 0 <= j < n ==> (#[trigger] self.rows@[j]).date.wf(),
                c.date.wf(),
                n == self@.len(),
                n == self.rows@.len(),
                k <= n,
                forall|j: int| 0 <= j < k ==> (#[trigger] self@[j]).date.key() < c.date.key(),
            decreases n - k,
        {
            assert(self@[k as int] == self.rows@[k as int]@);
            k = k + 1;
        }
        if k < n {
            assert(self@[k as int] == self.rows@[k as int]@);
        }
        if k < n && self.rows[k].date == c.date {
            assert(self@[k as int].date == c.date);
            return Err(StoreError::Conflict);
        }
        proof {
            if k < n {
                let d0 = self@[k as int].date;
                if d0.key() == c.date.key() {
                    lemma_key_injective(d0, c.date);
                }
                assert forall|j: int| k <= j < self@.len() implies (#[trigger] self@[j]).date.key()
                    > c.date.key() by {
                    if j > k {
                        assert(self@[k as int].date.key() < self@[j].date.key());
                    }
                }
            }
            assert(slot_for(self@, c.date, k as int));
            lemma_insert_wf(self@, c@, k as int);
            lemma_slot_unique(self@, c.date, k as int);
        }
        let ghost before = self@;
        self.rows.insert(k, c.duplicate());
        assert(self@ =~= before.insert(k as int, c@));
        Ok(())
    }

    /// Overwrites the figures and comment of the row of `c`'s date; does
    /// nothing where there is no such row.
    pub fn update(&mut self, c: &Ca)
        requires
            old(self).wf(),
        ensures
            final(self).wf(),
            final(self)@ == updated(old(self)@, c@),
    {
        match self.find(&c.date) {
            Some(i) => {
                let ghost before = self@;
                assert(before[i as int].date == c.date);
                self.rows[i] = c.duplicate();
                assert(self@ =~= before.update(i as int, c@));
                assert forall|j: int| 0 <= j < self@.len() implies (#[trigger] self@[j]).date
                    == before[j].date by {}
            },
            None => {},
        }
    }

    /// Removes the row of date `d`; does nothing where there is none.
    pub fn del(&mut self, d: &Date)
        requires
            old(self).wf(),
        ensures
            final(self).wf(),
            final(self)@ == deleted(old(self)@, *d),
    {
        match self.find(d) {
            Some(i) => {
                let ghost before = self@;
                self.rows.remove(i);
                assert(self@ =~= before.remove(i as int));
                assert forall|a: int, b: int| 0 <= a < b < self@.len() implies (
                #[trigger] self@[a]).date.key() < (#[trigger] self@[b]).date.key() by {
                    let a0 = if a < i { a } else { a + 1 };
                    let b0 = if b < i { b } else { b + 1 };
                    assert(self@[a] == before[a0] && self@[b] == before[b0]);
                }
                assert forall|a: int| 0 <= a < self@.len() implies (#[trigger] self@[a]).date.wf() by {
                    let a0 = if a < i { a } else { a + 1 };
                    assert(self@[a] == before[a0]);
                }
            },
            None => {},
        }
    }

    /// The record of day `d`: the stored row where there is one, with the
    /// table unchanged; else the blank record of `d`, which is added first.
    pub fn lookup_or_create(&mut self, d: &Date) -> (r: Ca)
        requires
            old(self).wf(),
            d.wf(),
        ensures
            final(self).wf(),
            final(self)@ == added(old(self)@, blank(*d)),
            r@ == looked_up(old(self)@, *d),
    {
        match self.get(d) {
            Ok(c) => c,
            Err(_) => {
                let c = Ca::new(d);
                let _ = self.add(&c);
                c
            },
        }
    }

    /// The rows dated in the month of `d`, in ascending date order.
    pub fn datas_for_month(&self, d: &Date) -> (r: Vec<Ca>)
        requires
            self.wf(),
        ensures
            views(r@) == month_rows(self@, d.year as int, d.month as int),
    {
        let ghost s = self@;
        let ghost (y, m) = (d.year as int, d.month as int);
        let n = self.rows.len();
        let mut out: Vec<Ca> = Vec::new();
        let mut i: usize = 0;
        while i < n
            invariant
                s == self@,
                y == d.year,
                m == d.month,
                n == s.len(),
                n == self.rows@.len(),
                i <= n,
                views(out@) == month_rows(s.subrange(0, i as int), y, m),
            decreases n - i,
        {
            assert(s.subrange(0, i + 1).drop_last() =~= s.subrange(0, i as int));
            assert(s[i as int] == self.rows@[i as int]@);
            if self.rows[i].date.is_in_month(d.year, d.month) {
                let ghost before = out@;
                out.push(self.rows[i].duplicate());
                assert(views(out@) =~= views(before).push(s[i as int]));
            }
            i = i + 1;
        }
        assert(s.subrange(0, n as int) =~= s);
        out
    }

    /// The sum of figure `f` over the rows dated in month `month` of year
    /// `year`.
    fn month_sum(&self, year: u32, month: u32, f: Field) -> (r: i128)
        requires
            self.wf(),
        ensures
            r == month_total(self@, year as int, month as int, f),
    {
        let ghost s = self@;
        let n = self.rows.len();
        let mut sum: i128 = 0;
        let mut i: usize = 0;
        while i < n
            invariant
                s == self@,
                n == s.len(),
                n == self.rows@.len(),
                i <= n,
                sum == month_total(s.subrange(0, i as int), year as int, month as int, f),
                -(i as int) * 0x8000_0000_0000_0000 <= sum <= (i as int) * 0x8000_0000_0000_0000,
            decreases n - i,
        {
            let ghost sub = s.subrange(0, i + 1);
            assert(sub.drop_last() =~= s.subrange(0, i as int));
            assert(s[i as int] == self.rows@[i as int]@);
            assert(sub.last() == s[i as int]);
            let row = &self.rows[i];
            if row.date.is_in_month(year, month) {
                let x: i64 = match f {
                    Field::Ca => row.ca,
                    Field::Hours => row.hours,
                    Field::Hsup => row.hsup,
                };
                let ghost p = month_rows(s.subrange(0, i as int), year as int, month as int);
                assert(p.push(s[i as int]).drop_last() =~= p);
                sum = sum + x as i128;
            }
            i = i + 1;
        }
        assert(s.subrange(0, n as int) =~= s);
        sum
    }

    /// The revenue of the month of `d`, in hundredths: the sum over exactly
    /// the rows dated in that month, zero where there are none.
    pub fn ca_for_month(&self, d: &Date) -> (r: i128)
        requires
            self.wf(),
        ensures
            r == month_total(self@, d.year as int, d.month as int, Field::Ca),
    {
        self.month_sum(d.year, d.month, Field::Ca)
    }

    /// The hours worked in the month of `d`, in hundredths.
    pub fn hours_for_month(&self, d: &Date) -> (r: i128)
        requires
            self.wf(),
        ensures
            r == month_total(self@, d.year as int, d.month as int, Field::Hours),
    {
        self.month_sum(d.year, d.month, Field::Hours)
    }

    /// The overtime hours of the month of `d`, in hundredths.
    pub fn hsup_for_month(&self, d: &Date) -> (r: i128)
        requires
            self.wf(),
        ensures
            r == month_total(self@, d.year as int, d.month as int, Field::Hsup),
    {
        self.month_sum(d.year, d.month, Field::Hsup)
    }

    /// Whether a row has date `d`.
    pub fn exist(&self, d: &Date) -> (r: bool)
        requires
            self.wf(),
        ensures
            r == has_date(self@, *d),
    {
        self.find(d).is_some()
    }
}

} // verus!
