use edu_links::codec::DecodeError;
use edu_links::date::Date;
use edu_links::meta::suggested_description;
use edu_links::record::Link;
use edu_links::validate::{
    validate, validate_entries, validate_entry, EntryStatus, Validation, Violation,
};

fn record(title: &str, link: &str, desc: &str) -> Link {
    let d = Date::from_ymd(2024, 3, 1).unwrap();
    Link {
        title: String::from(title),
        link: String::from(link),
        desc: String::from(desc),
        added: d,
        accessed: d,
        tags: None,
    }
}

#[test]
fn validate_reports_every_violation() {
    let v = validate(&record("", "", ""), false);
    assert_eq!(v.violations, vec![Violation::TitleEmpty, Violation::UrlEmpty]);
    assert!(v.description_warning);
    assert!(!v.is_valid());
    let v = validate(&record("", "", ""), true);
    assert_eq!(
        v.violations,
        vec![Violation::TitleEmpty, Violation::UrlEmpty, Violation::DescriptionEmpty]
    );
    assert!(!v.description_warning);
}

#[test]
fn validate_description_policy() {
    let v = validate(&record("T", "U", ""), false);
    assert!(v.is_valid());
    assert!(v.description_warning);
    let v = validate(&record("T", "U", ""), true);
    assert_eq!(v.violations, vec![Violation::DescriptionEmpty]);
    let v = validate(&record("T", "U", "D"), true);
    assert!(v.is_valid());
    assert!(!v.description_warning);
}

#[test]
fn validate_batch_keeps_going() {
    let bad = "title = \"\"\nlink = \"https://a.org\"\ndesc = \"d\"\nadded = \"2024-01-01\"\naccessed = \"2024-01-01\"\n";
    let good = "title = \"Good\"\nlink = \"https://b.org\"\ndesc = \"d\"\nadded = \"2024-01-01\"\naccessed = \"2024-01-01\"\n";
    let entries = vec![
        (String::from("bad.toml"), String::from(bad)),
        (String::from("good.toml"), String::from(good)),
    ];
    let reports = validate_entries(&entries, false);
    assert_eq!(reports.len(), 2);
    assert_eq!(reports[0].source, "bad.toml");
    assert_eq!(
        reports[0].status,
        EntryStatus::Checked(Validation {
            violations: vec![Violation::TitleEmpty],
            description_warning: false,
        })
    );
    assert_eq!(reports[1].source, "good.toml");
    assert_eq!(
        reports[1].status,
        EntryStatus::Checked(Validation { violations: vec![], description_warning: false })
    );
    let total: usize = reports
        .iter()
        .map(|r| match &r.status {
            EntryStatus::Checked(v) => v.violations.len(),
            EntryStatus::Unreadable(_) => 1,
        })
        .sum();
    assert_eq!(total, 1);
}

#[test]
fn validate_entry_unreadable() {
    assert_eq!(
        validate_entry("nonsense", false),
        EntryStatus::Unreadable(DecodeError::Malformed(0))
    );
    let entries = vec![
        (String::from("x.toml"), String::from("nonsense")),
        (String::from("y.toml"), String::from("title = \"T\"\nlink = \"U\"\ndesc = \"\"\nadded = \"2024-01-01\"\naccessed = \"2024-01-01\"\n")),
    ];
    let reports = validate_entries(&entries, false);
    assert_eq!(reports[0].status, EntryStatus::Unreadable(DecodeError::Malformed(0)));
    assert_eq!(
        reports[1].status,
        EntryStatus::Checked(Validation { violations: vec![], description_warning: true })
    );
}

#[test]
fn suggested_description_from_page() {
    let page = String::from(
        "<html><head><meta name=\"description\" content=\"Learn Rust\"><title>t</title></head><body></body></html>",
    );
    assert_eq!(suggested_description(&Some(page)), "Learn Rust");
    let bare = String::from("<html><head><title>t</title></head></html>");
    assert_eq!(suggested_description(&Some(bare)), "");
    assert_eq!(suggested_description(&None), "");
}
