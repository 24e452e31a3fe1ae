use job_tracker::date::{parse_date, Date};

#[test]
fn parse_valid_dates() {
    assert_eq!(
        parse_date("2024-03-15"),
        Some(Date { year: 2024, month: 3, day: 15 })
    );
    assert_eq!(
        parse_date("0000-01-01"),
        Some(Date { year: 0, month: 1, day: 1 })
    );
    assert_eq!(
        parse_date("9999-12-31"),
        Some(Date { year: 9999, month: 12, day: 31 })
    );
    assert_eq!(
        parse_date("2024-02-29"),
        Some(Date { year: 2024, month: 2, day: 29 })
    );
    assert_eq!(
        parse_date("2000-02-29"),
        Some(Date { year: 2000, month: 2, day: 29 })
    );
}

#[test]
fn parse_rejects_invalid_dates() {
    for bad in [
        "2024-13-40",
        "not-a-date",
        "2023-02-29",
        "1900-02-29",
        "2024-04-31",
        "2024-00-10",
        "2024-01-00",
        "2024-01-32",
        "2024-3-15",
        "24-03-15",
        "2024-03-15x",
        " 2024-03-15",
        "2024/03/15",
        "",
    ] {
        assert_eq!(parse_date(bad), None, "accepted {:?}", bad);
    }
}

#[test]
fn before_orders_chronologically() {
    let a = Date { year: 2023, month: 12, day: 31 };
    let b = Date { year: 2024, month: 1, day: 1 };
    let c = Date { year: 2024, month: 1, day: 2 };
    assert!(a.before(&b));
    assert!(b.before(&c));
    assert!(a.before(&c));
    assert!(!b.before(&a));
    assert!(!a.before(&a));
}

#[test]
fn validity_follows_the_calendar() {
    assert!(Date { year: 2024, month: 2, day: 29 }.is_valid());
    assert!(!Date { year: 2023, month: 2, day: 29 }.is_valid());
    assert!(!Date { year: 2024, month: 13, day: 1 }.is_valid());
    assert!(!Date { year: 10000, month: 1, day: 1 }.is_valid());
    assert!(Date { year: 2024, month: 4, day: 30 }.is_valid());
    assert!(!Date { year: 2024, month: 4, day: 31 }.is_valid());
}
