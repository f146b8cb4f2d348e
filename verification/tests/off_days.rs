use presence::date::Date;
use presence::off_days::{
    add, check_loaded, load_expanded, normalized, remove_by_start, OffDaysError, OffEntry,
};

fn d(y: i32, m: u32, day: u32) -> Date {
    Date::from_ymd_opt(y, m, day).unwrap()
}

fn single(date: Date) -> OffEntry {
    OffEntry::range(date, date).unwrap()
}

#[test]
fn single_entry_expands_to_one_date() {
    let e = single(d(2026, 5, 15));
    assert_eq!(e.dates(), vec![d(2026, 5, 15)]);
}

#[test]
fn range_rejects_end_before_start() {
    assert!(OffEntry::range(d(2026, 7, 15), d(2026, 7, 1)).is_err());
}

#[test]
fn range_dates_expand_inclusive() {
    let e = OffEntry::range(d(2026, 7, 1), d(2026, 7, 3)).unwrap();
    assert_eq!(e.dates(), vec![d(2026, 7, 1), d(2026, 7, 2), d(2026, 7, 3)]);
}

#[test]
fn range_error_names_both_dates() {
    assert_eq!(
        OffEntry::range(d(2026, 7, 15), d(2026, 7, 1)),
        Err(OffDaysError::EndBeforeStart { start: d(2026, 7, 15), end: d(2026, 7, 1) })
    );
}

#[test]
fn range_across_year_end() {
    let e = OffEntry::range(d(2026, 12, 30), d(2027, 1, 2)).unwrap();
    assert_eq!(
        e.dates(),
        vec![d(2026, 12, 30), d(2026, 12, 31), d(2027, 1, 1), d(2027, 1, 2)]
    );
}

#[test]
fn add_new_entry_returns_true() {
    let mut entries = Vec::new();
    let e = single(d(2026, 5, 15));
    assert!(add(&mut entries, e));
    assert_eq!(entries, vec![e]);
}

#[test]
fn add_duplicate_entry_returns_false() {
    let mut entries = Vec::new();
    let e = single(d(2026, 5, 15));
    assert!(add(&mut entries, e));
    assert!(!add(&mut entries, e));
    assert_eq!(entries.len(), 1);
}

#[test]
fn normalized_sorts_by_start_and_drops_repeats() {
    let entries = vec![
        single(d(2026, 7, 1)),
        single(d(2026, 5, 15)),
        OffEntry::range(d(2026, 6, 1), d(2026, 6, 10)).unwrap(),
        single(d(2026, 5, 15)),
        OffEntry::range(d(2026, 6, 1), d(2026, 6, 3)).unwrap(),
    ];
    let stored = normalized(&entries);
    assert_eq!(
        stored,
        vec![
            single(d(2026, 5, 15)),
            OffEntry::range(d(2026, 6, 1), d(2026, 6, 3)).unwrap(),
            OffEntry::range(d(2026, 6, 1), d(2026, 6, 10)).unwrap(),
            single(d(2026, 7, 1)),
        ]
    );
    assert_eq!(normalized(&stored), stored);
}

#[test]
fn remove_by_start_existing_entry() {
    let mut entries = vec![OffEntry::range(d(2026, 7, 1), d(2026, 7, 15)).unwrap()];
    assert!(remove_by_start(&mut entries, d(2026, 7, 1)));
    assert!(entries.is_empty());
}

#[test]
fn remove_by_start_missing_entry() {
    let mut entries = vec![single(d(2026, 5, 15))];
    assert!(!remove_by_start(&mut entries, d(2026, 6, 1)));
    assert_eq!(entries.len(), 1);
}

#[test]
fn remove_by_start_removes_every_entry_with_that_start() {
    let mut entries = vec![
        single(d(2026, 7, 1)),
        single(d(2026, 5, 15)),
        OffEntry::range(d(2026, 7, 1), d(2026, 7, 4)).unwrap(),
    ];
    assert!(remove_by_start(&mut entries, d(2026, 7, 1)));
    assert_eq!(entries, vec![single(d(2026, 5, 15))]);
}

#[test]
fn check_loaded_accepts_valid_and_refuses_reversed() {
    let good = vec![single(d(2026, 5, 15))];
    assert_eq!(check_loaded(good.clone()), Ok(good));
    let reversed = OffEntry { start: d(2026, 7, 15), end: d(2026, 7, 1) };
    assert_eq!(
        check_loaded(vec![single(d(2026, 5, 15)), reversed]),
        Err(OffDaysError::EndBeforeStart { start: d(2026, 7, 15), end: d(2026, 7, 1) })
    );
}

#[test]
fn load_expanded_concatenates_ranges() {
    let entries = vec![
        OffEntry::range(d(2026, 7, 30), d(2026, 8, 1)).unwrap(),
        single(d(2026, 5, 15)),
    ];
    assert_eq!(
        load_expanded(&entries),
        vec![d(2026, 7, 30), d(2026, 7, 31), d(2026, 8, 1), d(2026, 5, 15)]
    );
}
