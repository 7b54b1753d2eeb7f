use fde::ca::Ca;
use fde::date::{Date, extract_date, parse_day_arg};
use fde::month::{CaMonth, Dialog};
use fde::table::{CaTable, DayStep, StoreError, plan_lookup};

fn day(y: i32, m: u32, d: u32) -> Date {
    Date::new(y, m, d).unwrap()
}

fn rec(date: Date, ca: i64, hours: i64, hsup: i64, comment: Option<&str>) -> Ca {
    Ca { date, ca, hours, hsup, comment: comment.map(|s| s.to_string()) }
}

fn same(a: &Ca, b: &Ca) -> bool {
    a.date == b.date && a.ca == b.ca && a.hours == b.hours && a.hsup == b.hsup && a.comment == b.comment
}

#[test]
fn lookup_creates_missing_day() {
    let mut t = CaTable::new();
    let d = day(2023, 4, 24);
    let c = t.lookup_or_create(&d);
    assert!(same(&c, &rec(d, 0, 0, 0, None)));
    assert!(t.exist(&d));
    let g = t.get(&d).unwrap();
    assert_eq!((g.ca, g.hours, g.hsup), (0, 0, 0));
    assert!(g.comment.is_none());
    assert_eq!(t.len(), 1);
}

#[test]
fn lookup_present_day_writes_nothing() {
    let mut t = CaTable::new();
    let d = day(2023, 4, 2);
    let r = rec(d, 20000, 750, 100, Some("busy"));
    t.add(&r).unwrap();
    let c = t.lookup_or_create(&d);
    assert!(same(&c, &r));
    assert_eq!(t.len(), 1);
    assert!(same(&t.get(&d).unwrap(), &r));
}

#[test]
fn add_twice_conflicts() {
    let mut t = CaTable::new();
    let d = day(2023, 4, 1);
    assert_eq!(t.add(&rec(d, 100, 0, 0, None)), Ok(()));
    assert_eq!(t.add(&rec(d, 999, 1, 1, None)), Err(StoreError::Conflict));
    assert_eq!(t.len(), 1);
    assert_eq!(t.get(&d).unwrap().ca, 100);
}

#[test]
fn update_then_get() {
    let mut t = CaTable::new();
    let d = day(2024, 2, 29);
    t.add(&Ca::new(&d)).unwrap();
    let r = rec(d, 12345, 800, 50, Some("note"));
    t.update(&r);
    assert!(same(&t.get(&d).unwrap(), &r));
}

#[test]
fn update_missing_is_noop() {
    let mut t = CaTable::new();
    t.update(&rec(day(2023, 1, 1), 5, 5, 5, None));
    assert_eq!(t.len(), 0);
    assert_eq!(t.get(&day(2023, 1, 1)).unwrap_err(), StoreError::NotFound);
}

#[test]
fn save_and_delete_through_record() {
    let mut t = CaTable::new();
    let d = day(2023, 5, 3);
    let mut c = t.lookup_or_create(&d);
    c.ca = 4200;
    c.save(&mut t);
    assert_eq!(t.get(&d).unwrap().ca, 4200);
    c.delete(&mut t);
    assert!(!t.exist(&d));
}

#[test]
fn delete_twice() {
    let mut t = CaTable::new();
    let d = day(2023, 4, 1);
    t.add(&Ca::new(&d)).unwrap();
    t.add(&Ca::new(&day(2023, 4, 2))).unwrap();
    t.del(&d);
    assert!(!t.exist(&d));
    t.del(&d);
    assert!(!t.exist(&d));
    assert_eq!(t.len(), 1);
}

#[test]
fn monthly_sums_cover_exactly_the_month() {
    let mut t = CaTable::new();
    t.add(&rec(day(2023, 3, 31), 1000, 100, 0, None)).unwrap();
    t.add(&rec(day(2023, 4, 15), 2500, 300, 10, None)).unwrap();
    t.add(&rec(day(2023, 4, 30), 500, 200, 20, None)).unwrap();
    t.add(&rec(day(2023, 5, 1), 7000, 400, 0, None)).unwrap();
    t.add(&rec(day(2022, 4, 10), 9000, 400, 0, None)).unwrap();
    let a = day(2023, 4, 9);
    assert_eq!(t.ca_for_month(&a), 3000);
    assert_eq!(t.hours_for_month(&a), 500);
    assert_eq!(t.hsup_for_month(&a), 30);
    let empty = day(2023, 6, 1);
    assert_eq!(t.ca_for_month(&empty), 0);
    assert_eq!(t.hours_for_month(&empty), 0);
    assert_eq!(t.hsup_for_month(&empty), 0);
    assert!(t.datas_for_month(&empty).is_empty());
}

#[test]
fn month_records_sorted_and_counted() {
    let mut t = CaTable::new();
    for d in [20u32, 3, 11, 28, 1] {
        t.add(&Ca::new(&day(2023, 4, d))).unwrap();
    }
    t.add(&Ca::new(&day(2023, 3, 15))).unwrap();
    let v = t.datas_for_month(&day(2023, 4, 1));
    let days: Vec<u32> = v.iter().map(|c| c.date.day).collect();
    assert_eq!(days, vec![1, 3, 11, 20, 28]);
}

#[test]
fn april_scenario() {
    let mut t = CaTable::new();
    t.add(&rec(day(2023, 4, 2), 20000, 750, 100, None)).unwrap();
    t.add(&rec(day(2023, 4, 1), 10000, 800, 0, None)).unwrap();
    let a = day(2023, 4, 1);
    assert_eq!(t.ca_for_month(&a), 30000);
    assert_eq!(t.hours_for_month(&a), 1550);
    assert_eq!(t.hsup_for_month(&a), 100);
    let v = t.datas_for_month(&a);
    assert_eq!(v.len(), 2);
    assert!(same(&v[0], &rec(day(2023, 4, 1), 10000, 800, 0, None)));
    assert!(same(&v[1], &rec(day(2023, 4, 2), 20000, 750, 100, None)));
    let mut m = CaMonth::new(&day(2023, 4, 17));
    m.retrieve_datas(&t);
    assert_eq!((m.ca, m.hours, m.hsup, m.datas.len()), (30000, 1550, 100, 2));
}

#[test]
fn bonus_at_threshold() {
    assert_eq!(Dialog::delta(342115), 0);
    assert_eq!(Dialog::prime(342115), 0);
}

#[test]
fn bonus_above_threshold() {
    assert_eq!(Dialog::delta(400000), 57885);
    assert_eq!(Dialog::prime(400000), 8000);
}

#[test]
fn bonus_rounds_down_and_none_below() {
    assert_eq!(Dialog::prime(342116), 6842);
    assert_eq!(Dialog::delta(100000), -242115);
    assert_eq!(Dialog::prime(100000), 0);
}

#[test]
fn lookup_plan() {
    let d = day(2023, 4, 24);
    assert!(matches!(plan_lookup(&d, true), DayStep::Fetch(x) if x == d));
    match plan_lookup(&d, false) {
        DayStep::Insert(c) => assert!(same(&c, &Ca::new(&d))),
        DayStep::Fetch(_) => panic!("expected an insert"),
    }
}

#[test]
fn dates() {
    assert!(Date::new(2023, 2, 29).is_none());
    assert!(Date::new(2024, 2, 29).is_some());
    assert!(Date::new(1900, 2, 29).is_none());
    assert!(Date::new(2000, 2, 29).is_some());
    assert!(Date::new(2023, 4, 31).is_none());
    assert!(Date::new(2023, 13, 1).is_none());
    assert!(Date::new(10000, 1, 1).is_none());
    assert_eq!(day(2023, 4, 1).to_iso(), "2023-04-01");
    assert_eq!(day(987, 12, 31).to_iso(), "0987-12-31");
    assert_eq!(Date::parse_iso("2023-04-24"), Some(day(2023, 4, 24)));
    assert_eq!(Date::parse_iso("2023-02-30"), None);
    assert_eq!(Date::parse_iso("2023/04/24"), None);
    assert_eq!(Date::parse_iso("2023-4-24"), None);
    assert!(day(2023, 4, 1).is_before(&day(2023, 4, 2)));
    assert!(!day(2023, 4, 2).is_before(&day(2023, 4, 2)));
    assert!(day(2022, 12, 31).is_before(&day(2023, 1, 1)));
}

#[test]
fn iso_round_trip() {
    for d in [day(0, 1, 1), day(2023, 4, 24), day(2024, 2, 29), day(9999, 12, 31)] {
        assert_eq!(Date::parse_iso(&d.to_iso()), Some(d));
    }
}

#[test]
fn arguments() {
    assert_eq!(extract_date("--day=24/04/2023"), "24/04/2023");
    assert_eq!(extract_date("-m=01/05/2023"), "01/05/2023");
    assert_eq!(extract_date("a=b=c"), "b=c");
    assert_eq!(extract_date("--help"), "--help");
    assert_eq!(parse_day_arg("--day=24/04/2023"), Some(day(2023, 4, 24)));
    assert_eq!(parse_day_arg("-m=29/02/2024"), Some(day(2024, 2, 29)));
    assert_eq!(parse_day_arg("-d=29/02/2023"), None);
    assert_eq!(parse_day_arg("--day=2023-04-24"), None);
    assert_eq!(parse_day_arg("--day"), None);
}
