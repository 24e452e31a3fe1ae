use job_tracker::store::ApplicationStore;

fn sample_store() -> ApplicationStore {
    let mut store = ApplicationStore::new();
    store.add_application("Acme".to_string(), "Engineer".to_string(), "Applied".to_string());
    store.add_application(
        "Globex \"Intl\"".to_string(),
        "C:\\Analyst".to_string(),
        "Phone Screen".to_string(),
    );
    store.add_application("Zürich ☃".to_string(), "Dev".to_string(), "line\nbreak".to_string());
    store.add_interview_date(0, "2024-03-15");
    store.add_interview_date(0, "2024-01-10");
    store.add_interview_date(1, "2025-02-28");
    store
}

#[test]
fn empty_store_serializes_exactly() {
    let store = ApplicationStore::new();
    assert_eq!(store.to_json(), "{\"jobs\":[]}");
}

#[test]
fn one_record_serializes_exactly() {
    let mut store = ApplicationStore::new();
    store.add_application("Acme".to_string(), "Engineer".to_string(), "Applied".to_string());
    store.add_interview_date(0, "2024-03-15");
    assert_eq!(
        store.to_json(),
        "{\"jobs\":[{\"company\":\"Acme\",\"position\":\"Engineer\",\"status\":\"Applied\",\
         \"interview_dates\":[\"2024-03-15\"]}]}"
    );
}

#[test]
fn control_characters_are_escaped() {
    let mut store = ApplicationStore::new();
    store.add_application("a\u{1}b".to_string(), "p".to_string(), "s\tt".to_string());
    let text = store.to_json();
    assert!(text.contains("a\\u0001b"));
    assert!(text.contains("s\\u0009t"));
    let loaded = ApplicationStore::from_json(&text).expect("reload");
    assert_eq!(loaded, store);
}

#[test]
fn round_trip_restores_the_collection() {
    let store = sample_store();
    let text = store.to_json();
    let loaded = ApplicationStore::from_json(&text).expect("round trip parses");
    assert_eq!(loaded, store);
}

#[test]
fn round_trip_of_empty_collection() {
    let store = ApplicationStore::new();
    let loaded = ApplicationStore::from_json(&store.to_json()).expect("parses");
    assert_eq!(loaded, store);
}

#[test]
fn scenario_invalid_content_loads_nothing() {
    for bad in [
        "",
        "not json",
        "{",
        "{\"jobs\":",
        "{\"jobs\":[}",
        "{\"jobs\":[{\"company\":\"A\"}]}",
        "{\"other\":[]}",
        "[]",
        "{\"jobs\":[]} trailing",
        "{\"jobs\":[{\"company\":\"A\",\"position\":\"P\",\"status\":\"S\",\
         \"interview_dates\":[\"2024-13-01\"]}]}",
    ] {
        assert!(ApplicationStore::from_json(bad).is_none(), "accepted {:?}", bad);
        // the caller keeps its collection as it was; starting fresh it stays empty
        let store = ApplicationStore::from_json(bad).unwrap_or_else(ApplicationStore::new);
        assert_eq!(store.job_count(), 0);
    }
}

#[test]
fn whitespace_and_escapes_are_accepted() {
    let text = "{\n  \"jobs\": [\n    {\n      \"company\": \"\\u0041cme\",\n      \
        \"position\": \"Eng\\nineer\",\n      \"status\": \"App\\\"lied\\\"\",\n      \
        \"interview_dates\": [\n        \"2024-01-10\",\n        \"2024-03-15\"\n      ]\n    }\n  ]\n}\n";
    let store = ApplicationStore::from_json(text).expect("pretty text parses");
    assert_eq!(store.job_count(), 1);
    assert_eq!(store.job(0).company, "Acme");
    assert_eq!(store.job(0).position, "Eng\nineer");
    assert_eq!(store.job(0).status, "App\"lied\"");
    assert_eq!(store.job(0).interview_dates.len(), 2);
}

#[test]
fn unsorted_or_duplicate_dates_are_not_a_valid_collection() {
    let unsorted = "{\"jobs\":[{\"company\":\"A\",\"position\":\"P\",\"status\":\"S\",\
        \"interview_dates\":[\"2024-03-15\",\"2024-01-10\"]}]}";
    assert!(ApplicationStore::from_json(unsorted).is_none());
    let duplicated = "{\"jobs\":[{\"company\":\"A\",\"position\":\"P\",\"status\":\"S\",\
        \"interview_dates\":[\"2024-03-15\",\"2024-03-15\"]}]}";
    assert!(ApplicationStore::from_json(duplicated).is_none());
}

#[test]
fn mutations_survive_a_save_and_load() {
    let mut store = sample_store();
    store.set_status(2, "Interviewed".to_string());
    store.add_interview_date(2, "2026-12-24");
    let loaded = ApplicationStore::from_json(&store.to_json()).expect("parses");
    assert_eq!(loaded, store);
    assert_eq!(loaded.job(2).status, "Interviewed");
}
