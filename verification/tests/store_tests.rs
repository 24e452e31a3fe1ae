use job_tracker::date::Date;
use job_tracker::store::ApplicationStore;

fn date(y: u32, m: u32, d: u32) -> Date {
    Date { year: y, month: m, day: d }
}

#[test]
fn new_store_is_empty() {
    let store = ApplicationStore::new();
    assert_eq!(store.job_count(), 0);
    let store = ApplicationStore::default();
    assert_eq!(store.job_count(), 0);
}

#[test]
fn add_applications_grow_in_call_order() {
    let mut store = ApplicationStore::new();
    store.add_application("Acme".to_string(), "Engineer".to_string(), "Applied".to_string());
    assert_eq!(store.job_count(), 1);
    store.add_application("Globex".to_string(), "Analyst".to_string(), "Phone Screen".to_string());
    assert_eq!(store.job_count(), 2);
    store.add_application("Initech".to_string(), "Manager".to_string(), "Rejected".to_string());
    assert_eq!(store.job_count(), 3);
    assert_eq!(store.job(0).company, "Acme");
    assert_eq!(store.job(1).company, "Globex");
    assert_eq!(store.job(2).company, "Initech");
    assert_eq!(store.job(2).position, "Manager");
    assert_eq!(store.job(2).status, "Rejected");
    assert!(store.job(2).interview_dates.is_empty());
}

#[test]
fn scenario_add_application_and_dates() {
    let mut store = ApplicationStore::new();
    store.add_application("Acme".to_string(), "Engineer".to_string(), "Applied".to_string());
    assert_eq!(store.job_count(), 1);
    assert_eq!(store.job(0).company, "Acme");
    assert_eq!(store.job(0).position, "Engineer");
    assert_eq!(store.job(0).status, "Applied");
    assert!(store.job(0).interview_dates.is_empty());

    assert!(store.add_interview_date(0, "2024-03-15"));
    assert_eq!(store.job(0).interview_dates, vec![date(2024, 3, 15)]);

    assert!(store.add_interview_date(0, "2024-01-10"));
    assert_eq!(
        store.job(0).interview_dates,
        vec![date(2024, 1, 10), date(2024, 3, 15)]
    );

    assert!(!store.add_interview_date(0, "2024-03-15"));
    assert_eq!(
        store.job(0).interview_dates,
        vec![date(2024, 1, 10), date(2024, 3, 15)]
    );
}

#[test]
fn add_interview_date_is_idempotent() {
    let mut store = ApplicationStore::new();
    store.add_application("Acme".to_string(), "Engineer".to_string(), "Applied".to_string());
    assert!(store.add_interview_date(0, "2025-06-01"));
    let once = store.job(0).interview_dates.clone();
    assert!(!store.add_interview_date(0, "2025-06-01"));
    assert_eq!(store.job(0).interview_dates, once);
}

#[test]
fn malformed_date_text_changes_nothing() {
    let mut store = ApplicationStore::new();
    store.add_application("Acme".to_string(), "Engineer".to_string(), "Applied".to_string());
    assert!(store.add_interview_date(0, "2024-05-20"));
    let before = store.job(0).interview_dates.clone();
    for bad in [
        "2024-13-40",
        "not-a-date",
        "2023-02-29",
        "2024-3-15",
        "2024-03-15 ",
        "",
        "2024-00-01",
        "2024-04-31",
    ] {
        assert!(!store.add_interview_date(0, bad), "accepted {:?}", bad);
        assert_eq!(store.job(0).interview_dates, before);
    }
}

#[test]
fn dates_stay_sorted_and_unique() {
    let mut store = ApplicationStore::new();
    store.add_application("Acme".to_string(), "Engineer".to_string(), "Applied".to_string());
    for text in [
        "2024-07-04",
        "2023-12-31",
        "2024-07-04",
        "2024-02-29",
        "2025-01-01",
        "2023-12-31",
        "2024-01-01",
    ] {
        store.add_interview_date(0, text);
    }
    assert_eq!(
        store.job(0).interview_dates,
        vec![
            date(2023, 12, 31),
            date(2024, 1, 1),
            date(2024, 2, 29),
            date(2024, 7, 4),
            date(2025, 1, 1),
        ]
    );
}

#[test]
fn set_status_overwrites_only_that_record() {
    let mut store = ApplicationStore::new();
    store.add_application("Acme".to_string(), "Engineer".to_string(), "Applied".to_string());
    store.add_application("Globex".to_string(), "Analyst".to_string(), "Applied".to_string());
    store.set_status(1, "Offer Received".to_string());
    assert_eq!(store.job(0).status, "Applied");
    assert_eq!(store.job(1).status, "Offer Received");
    store.set_status(1, "Offer Received".to_string());
    assert_eq!(store.job(1).status, "Offer Received");
    store.set_status(0, "Withdrawn".to_string());
    assert_eq!(store.job(0).status, "Withdrawn");
}

#[test]
fn add_interview_date_targets_the_indexed_record() {
    let mut store = ApplicationStore::new();
    store.add_application("Acme".to_string(), "Engineer".to_string(), "Applied".to_string());
    store.add_application("Globex".to_string(), "Analyst".to_string(), "Applied".to_string());
    assert!(store.add_interview_date(1, "2024-11-05"));
    assert!(store.job(0).interview_dates.is_empty());
    assert_eq!(store.job(1).interview_dates, vec![date(2024, 11, 5)]);
}
