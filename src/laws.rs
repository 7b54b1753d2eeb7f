//! What holds across the table's operations.
use vstd::prelude::*;
use crate::date::Date;
use crate::ca::{CaView, blank};
use crate::table::{
    table_wf, has_date, index_of, row_of, slot_for, insert_pos, added, updated, deleted, looked_up,
    month_rows, month_count, month_total, Field, lemma_insert_wf,
};

verus! {

/// In an ordered table, a date names at most one row.
pub proof fn lemma_unique(s: Seq<CaView>, i: int, j: int)
    requires
        table_wf(s),
        0 <= i < s.len(),
        0 <= j < s.len(),
        s[i].date == s[j].date,
    ensures
        i == j,
{
    if i < j {
        assert(s[i].date.key() < s[j].date.key());
    } else if j < i {
        assert(s[j].date.key() < s[i].date.key());
    }
}

/// A date that an ordered table lacks has a slot in it.
proof fn lemma_slot_exists(s: Seq<CaView>, d: Date)
    requires
        table_wf(s),
        d.wf(),
        !has_date(s, d),
    ensures
        slot_for(s, d, insert_pos(s, d)),
    decreases s.len(),
{
    if s.len() == 0 {
        assert(slot_for(s, d, 0));
    } else {
        let p = s.drop_last();
        assert forall|i: int| 0 <= i < p.len() implies (#[trigger] p[i]).date != d by {
            assert(p[i] == s[i]);
        }
        lemma_slot_exists(p, d);
        let k = insert_pos(p, d);
        let last = s.last();
        assert(last == s[s.len() - 1]);
        if last.date.key() < d.key() {
            assert(slot_for(s, d, s.len() as int));
        } else {
            if last.date.key() == d.key() {
                crate::table::lemma_key_injective(last.date, d);
            }
            assert forall|j: int| k <= j < s.len() implies (#[trigger] s[j]).date.key() > d.key() by {
                if j < s.len() - 1 {
                    assert(s[j] == p[j]);
                }
            }
            assert forall|j: int| 0 <= j < k implies (#[trigger] s[j]).date.key() < d.key() by {
                assert(s[j] == p[j]);
            }
            assert(slot_for(s, d, k));
        }
    }
}

/// Adding a record to an ordered table leaves it ordered, with a row of that
/// date; where the date was free, that row is the record.
pub proof fn lemma_added(s: Seq<CaView>, c: CaView)
    requires
        table_wf(s),
        c.date.wf(),
    ensures
        table_wf(added(s, c)),
        has_date(added(s, c), c.date),
        !has_date(s, c.date) ==> row_of(added(s, c), c.date) == c,
{
    if !has_date(s, c.date) {
        lemma_slot_exists(s, c.date);
        let k = insert_pos(s, c.date);
        lemma_insert_wf(s, c, k);
        let t = s.insert(k, c);
        assert(t[k] == c);
        let i = index_of(t, c.date);
        lemma_unique(t, i, k);
    }
}

/// Looking up a day that has no row creates one: afterwards the day exists,
/// and its row is the blank record (zero figures, no comment), which is also
/// what the lookup returns.
pub proof fn law_lookup_creates(s: Seq<CaView>, d: Date)
    requires
        table_wf(s),
        d.wf(),
        !has_date(s, d),
    ensures
        has_date(added(s, blank(d)), d),
        row_of(added(s, blank(d)), d) == blank(d),
        looked_up(s, d) == blank(d),
{
    lemma_added(s, blank(d));
}

/// Looking up a day that has a row returns exactly that row and writes
/// nothing.
pub proof fn law_lookup_present(s: Seq<CaView>, d: Date)
    requires
        has_date(s, d),
    ensures
        added(s, blank(d)) == s,
        looked_up(s, d) == row_of(s, d),
{
}

/// After one `add`, a second `add` of the same date finds it taken (and so
/// fails with a conflict) and changes nothing; the table holds exactly one
/// row of that date.
pub proof fn law_add_twice(s: Seq<CaView>, c: CaView)
    requires
        table_wf(s),
        c.date.wf(),
    ensures
        has_date(added(s, c), c.date),
        added(added(s, c), c) == added(s, c),
        forall|i: int, j: int|
            0 <= i < added(s, c).len() && 0 <= j < added(s, c).len() && (#[trigger] added(
                s,
                c,
            )[i]).date == c.date && (#[trigger] added(s, c)[j]).date == c.date ==> i == j,
{
    lemma_added(s, c);
    let t = added(s, c);
    assert forall|i: int, j: int|
        0 <= i < t.len() && 0 <= j < t.len() && (#[trigger] t[i]).date == c.date && (
        #[trigger] t[j]).date == c.date implies i == j by {
        lemma_unique(t, i, j);
    }
}

/// Overwriting the row of a date that has one, then reading that date,
/// gives back the record written, in every field.
pub proof fn law_update_then_get(s: Seq<CaView>, c: CaView)
    requires
        table_wf(s),
        has_date(s, c.date),
    ensures
        table_wf(updated(s, c)),
        has_date(updated(s, c), c.date),
        row_of(updated(s, c), c.date) == c,
{
    let i = index_of(s, c.date);
    let t = s.update(i, c);
    assert forall|a: int| 0 <= a < t.len() implies (#[trigger] t[a]).date == s[a].date by {}
    assert(table_wf(t));
    assert(t[i] == c);
    let j = index_of(t, c.date);
    lemma_unique(t, i, j);
}

/// After removing a date it no longer exists, and removing it again changes
/// nothing.
pub proof fn law_delete(s: Seq<CaView>, d: Date)
    requires
        table_wf(s),
    ensures
        !has_date(deleted(s, d), d),
        deleted(deleted(s, d), d) == deleted(s, d),
{
    if has_date(s, d) {
        let i = index_of(s, d);
        let t = s.remove(i);
        assert forall|a: int| 0 <= a < t.len() implies (#[trigger] t[a]).date != d by {
            let a0 = if a < i { a } else { a + 1 };
            assert(t[a] == s[a0]);
            if s[a0].date == d {
                lemma_unique(s, a0, i);
            }
        }
    }
}

/// The rows that the month query keeps are exactly those of the table
/// dated in that month, each taken from the table.
pub proof fn law_month_rows_members(s: Seq<CaView>, y: int, m: int)
    ensures
        forall|k: int|
            0 <= k < month_rows(s, y, m).len() ==> (#[trigger] month_rows(s, y, m)[k]).date.in_month(
                y,
                m,
            ) && s.contains(month_rows(s, y, m)[k]),
        forall|i: int|
            0 <= i < s.len() && (#[trigger] s[i]).date.in_month(y, m) ==> month_rows(
                s,
                y,
                m,
            ).contains(s[i]),
    decreases s.len(),
{
    if s.len() > 0 {
        let p = s.drop_last();
        law_month_rows_members(p, y, m);
        let r = month_rows(s, y, m);
        let rp = month_rows(p, y, m);
        assert forall|k: int| 0 <= k < r.len() implies (#[trigger] r[k]).date.in_month(y, m)
            && s.contains(r[k]) by {
            if k < rp.len() {
                assert(r[k] == rp[k]);
                let j = choose|j: int| 0 <= j < p.len() && p[j] == rp[k];
                assert(s[j] == p[j]);
            } else {
                assert(s[s.len() - 1] == s.last());
            }
        }
        assert forall|i: int| 0 <= i < s.len() && (#[trigger] s[i]).date.in_month(y, m) implies r.contains(
            s[i],
        ) by {
            if i < s.len() - 1 {
                assert(s[i] == p[i]);
                let k = choose|k: int| 0 <= k < rp.len() && rp[k] == p[i];
                assert(r[k] == rp[k]);
            } else {
                assert(r[r.len() - 1] == s.last());
            }
        }
    }
}

/// A month without rows totals zero, whatever the figure.
pub proof fn law_empty_month(s: Seq<CaView>, y: int, m: int, f: Field)
    requires
        forall|i: int| 0 <= i < s.len() ==> !(#[trigger] s[i]).date.in_month(y, m),
    ensures
        month_rows(s, y, m).len() == 0,
        month_total(s, y, m, f) == 0,
    decreases s.len(),
{
    if s.len() > 0 {
        let p = s.drop_last();
        assert forall|i: int| 0 <= i < p.len() implies !(#[trigger] p[i]).date.in_month(y, m) by {
            assert(p[i] == s[i]);
        }
        law_empty_month(p, y, m, f);
        assert(s.last() == s[s.len() - 1]);
    }
}

/// The rows of a month come in strictly ascending date order, and there are
/// as many of them as the table has rows dated in that month.
pub proof fn law_month_rows_sorted(s: Seq<CaView>, y: int, m: int)
    requires
        table_wf(s),
    ensures
        table_wf(month_rows(s, y, m)),
        month_rows(s, y, m).len() == month_count(s, y, m),
    decreases s.len(),
{
    if s.len() > 0 {
        let p = s.drop_last();
        assert(table_wf(p)) by {
            assert forall|i: int, j: int| 0 <= i < j < p.len() implies (#[trigger] p[i]).date.key()
                < (#[trigger] p[j]).date.key() by {
                assert(p[i] == s[i] && p[j] == s[j]);
            }
            assert forall|i: int| 0 <= i < p.len() implies (#[trigger] p[i]).date.wf() by {
                assert(p[i] == s[i]);
            }
        }
        law_month_rows_sorted(p, y, m);
        law_month_rows_members(p, y, m);
        let rp = month_rows(p, y, m);
        let last = s.last();
        assert(last == s[s.len() - 1]);
        if last.date.in_month(y, m) {
            let r = rp.push(last);
            assert forall|k: int| 0 <= k < rp.len() implies (#[trigger] rp[k]).date.key()
                < last.date.key() by {
                let j = choose|j: int| 0 <= j < p.len() && p[j] == rp[k];
                assert(s[j] == p[j]);
            }
            assert forall|i: int, j: int| 0 <= i < j < r.len() implies (#[trigger] r[i]).date.key()
                < (#[trigger] r[j]).date.key() by {
                if j < rp.len() {
                    assert(r[i] == rp[i] && r[j] == rp[j]);
                } else {
                    assert(r[i] == rp[i]);
                }
            }
            assert forall|i: int| 0 <= i < r.len() implies (#[trigger] r[i]).date.wf() by {
                if i < rp.len() {
                    assert(r[i] == rp[i]);
                }
            }
        }
    }
}

} // verus!
