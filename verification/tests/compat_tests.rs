//! Checks of the library's date handling and persisted format against the
//! chrono and serde_json crates.

use chrono::Datelike;
use job_tracker::date::parse_date;
use job_tracker::store::ApplicationStore;

#[test]
fn date_parsing_agrees_with_chrono() {
    for text in [
        "2024-03-15",
        "2024-02-29",
        "2023-02-29",
        "2024-13-40",
        "not-a-date",
        "0000-01-01",
        "9999-12-31",
        "2024-04-31",
        "2024-01-00",
        "1600-02-29",
        "1700-02-29",
    ] {
        let ours = parse_date(text);
        let chronos = chrono::NaiveDate::parse_from_str(text, "%Y-%m-%d");
        assert_eq!(ours.is_some(), chronos.is_ok(), "disagree on {:?}", text);
        if let (Some(d), Ok(c)) = (ours, chronos) {
            assert_eq!(d.year as i32, c.year());
            assert_eq!(d.month, c.month());
            assert_eq!(d.day, c.day());
        }
    }
}

#[test]
fn serialized_text_is_json_with_the_expected_shape() {
    let mut store = ApplicationStore::new();
    store.add_application("Acme \"Intl\"".to_string(), "Eng\\ineer".to_string(), "App\nlied".to_string());
    store.add_interview_date(0, "2024-03-15");
    let text = store.to_json();
    let value: serde_json::Value = serde_json::from_str(&text).expect("valid JSON");
    let jobs = value.get("jobs").expect("jobs key").as_array().expect("array");
    assert_eq!(jobs.len(), 1);
    let job = &jobs[0];
    assert_eq!(job.get("company").unwrap().as_str().unwrap(), "Acme \"Intl\"");
    assert_eq!(job.get("position").unwrap().as_str().unwrap(), "Eng\\ineer");
    assert_eq!(job.get("status").unwrap().as_str().unwrap(), "App\nlied");
    let dates = job.get("interview_dates").unwrap().as_array().unwrap();
    assert_eq!(dates.len(), 1);
    assert_eq!(dates[0].as_str().unwrap(), "2024-03-15");
}

#[test]
fn serde_escaped_strings_load_back() {
    // serde_json writes control characters with short escapes such as \n;
    // the library's parser reads them back
    let company: &str = "a\nb\t\"q\"\\";
    let escaped = serde_json::to_string(company).expect("string encodes");
    let text = format!(
        "{{\"jobs\":[{{\"company\":{},\"position\":\"P\",\"status\":\"S\",\"interview_dates\":[]}}]}}",
        escaped
    );
    let store = ApplicationStore::from_json(&text).expect("parses");
    assert_eq!(store.job(0).company, company);
}
