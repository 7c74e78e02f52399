use edu_links::date::Date;
use edu_links::record::{
    normalize, parse_tags, resolve_date, today_marker, DateField, JsonLink, Link,
};

fn day(year: i32, month: u32, day: u32) -> Date {
    Date::from_ymd(year, month, day).unwrap()
}

fn sorted(tags: &Option<Vec<String>>) -> Option<Vec<String>> {
    tags.as_ref().map(|t| {
        let mut t = t.clone();
        t.sort();
        t
    })
}

#[test]
fn normalize_empty_dates_use_today() {
    let today = day(2024, 3, 1);
    let n = normalize("X", "Y", "", "", "", "", today);
    assert_eq!(n.link.title, "X");
    assert_eq!(n.link.link, "Y");
    assert_eq!(n.link.desc, "");
    assert_eq!(n.link.added, today);
    assert_eq!(n.link.accessed, today);
    assert_eq!(n.link.tags, None);
    assert!(n.warnings.is_empty());
}

#[test]
fn normalize_invalid_date_warns_and_uses_today() {
    let today = day(2024, 3, 1);
    let n = normalize("X", "Y", "d", "2023-13-40", "2023-05-06", "", today);
    assert_eq!(n.link.added, today);
    assert_eq!(n.link.accessed, day(2023, 5, 6));
    assert_eq!(n.warnings, vec![DateField::Added]);
}

#[test]
fn normalize_tags_collapse_and_drop_empty() {
    let today = day(2024, 3, 1);
    let n = normalize("X", "Y", "", "", "", "rust, , go,go", today);
    assert_eq!(
        sorted(&n.link.tags),
        Some(vec![String::from("go"), String::from("rust")])
    );
    assert_eq!(n.link.tags.as_ref().unwrap().len(), 2);
}

#[test]
fn normalize_marker_is_independent_per_field() {
    let today = day(2024, 3, 1);
    let n = normalize("X", "Y", "", "  X ", "nonsense", "", today);
    assert_eq!(n.link.added, today);
    assert_eq!(n.link.accessed, today);
    assert_eq!(n.warnings, vec![DateField::Accessed]);
    let n = normalize("X", "Y", "", "x", "2020-02-29", "", today);
    assert_eq!(n.link.added, today);
    assert_eq!(n.link.accessed, day(2020, 2, 29));
    assert!(n.warnings.is_empty());
}

#[test]
fn normalize_both_dates_bad() {
    let today = day(2024, 3, 1);
    let n = normalize("X", "Y", "", "2023-02-29", "yesterday", "", today);
    assert_eq!(n.link.added, today);
    assert_eq!(n.link.accessed, today);
    assert_eq!(n.warnings, vec![DateField::Added, DateField::Accessed]);
}

#[test]
fn resolve_date_cases() {
    let today = day(2024, 3, 1);
    let other = day(1999, 12, 31);
    assert_eq!(resolve_date("", Some(other), today), (today, false));
    assert_eq!(resolve_date("X", None, today), (today, false));
    assert_eq!(resolve_date("1999-12-31", Some(other), today), (other, false));
    assert_eq!(resolve_date("garbage", None, today), (today, true));
}

#[test]
fn today_marker_cases() {
    assert!(today_marker(""));
    assert!(today_marker("   "));
    assert!(today_marker(" x\t"));
    assert!(today_marker("X"));
    assert!(!today_marker("xx"));
    assert!(!today_marker("2024-01-01"));
}

#[test]
fn parse_tags_cases() {
    assert_eq!(parse_tags(""), None);
    assert_eq!(parse_tags(" , ,"), Some(vec![]));
    assert_eq!(parse_tags(","), Some(vec![]));
    assert_eq!(parse_tags("   "), Some(vec![]));
    assert_eq!(parse_tags("a,"), Some(vec![String::from("a")]));
    assert_eq!(
        parse_tags(" a ,b, a,c "),
        Some(vec![String::from("a"), String::from("b"), String::from("c")])
    );
    assert_eq!(parse_tags("one"), Some(vec![String::from("one")]));
}

#[test]
fn date_from_ymd_checks_calendar() {
    assert!(Date::from_ymd(2024, 2, 29).is_some());
    assert!(Date::from_ymd(2023, 2, 29).is_none());
    assert!(Date::from_ymd(1900, 2, 29).is_none());
    assert!(Date::from_ymd(2000, 2, 29).is_some());
    assert!(Date::from_ymd(2023, 13, 1).is_none());
    assert!(Date::from_ymd(2023, 4, 31).is_none());
    assert!(Date::from_ymd(-4, 2, 29).is_some());
    assert!(Date::from_ymd(262143, 1, 1).is_none());
}

#[test]
fn link_new_parses_dates_and_keeps_tags_once() {
    let tags = Some(vec![
        String::from("rust"),
        String::from("go"),
        String::from("rust"),
    ]);
    let l = Link::new("T", "U", "D", "2021-07-04", "2022-01-02", &tags);
    assert_eq!(l.title, "T");
    assert_eq!(l.link, "U");
    assert_eq!(l.desc, "D");
    assert_eq!(l.added, day(2021, 7, 4));
    assert_eq!(l.accessed, day(2022, 1, 2));
    assert_eq!(l.tags, Some(vec![String::from("rust"), String::from("go")]));
}

#[test]
fn link_new_falls_back_to_a_real_today() {
    let l = Link::new("T", "U", "D", "", "not a date", &None);
    assert_eq!(l.added, l.accessed);
    assert!(Date::from_ymd(l.added.year, l.added.month, l.added.day).is_some());
    assert_eq!(l.tags, None);
}

#[test]
fn json_link_new_and_import() {
    let tags = Some(vec![String::from("a"), String::from("a"), String::from("b")]);
    let j = JsonLink::new("Title", "https://x.org", "About", "books", 2019, &tags, true);
    assert_eq!(j.title, "Title");
    assert_eq!(j.url, "https://x.org");
    assert_eq!(j.description, "About");
    assert_eq!(j.category, "books");
    assert_eq!(j.year, 2019);
    assert_eq!(j.tags, Some(vec![String::from("a"), String::from("b")]));
    assert!(j.free);
    let today = day(2024, 3, 1);
    let l = j.to_link(today);
    assert_eq!(l.title, "Title");
    assert_eq!(l.link, "https://x.org");
    assert_eq!(l.desc, "About");
    assert_eq!(l.added, today);
    assert_eq!(l.accessed, today);
    assert_eq!(l.tags, Some(vec![String::from("a"), String::from("b")]));
}

#[test]
fn normalize_blank_tag_input_is_an_empty_set() {
    let today = day(2024, 3, 1);
    let n = normalize("X", "Y", "", "", "", " , ", today);
    assert_eq!(n.link.tags, Some(vec![]));
}

#[test]
fn link_new_with_warnings_reports_bad_dates() {
    let r = Link::new_with_warnings("T", "U", "D", "2023-13-40", "2022-01-02", &None);
    assert_eq!(r.warnings, vec![DateField::Added]);
    assert_eq!(r.link.accessed, day(2022, 1, 2));
    assert!(Date::from_ymd(r.link.added.year, r.link.added.month, r.link.added.day).is_some());
    let r = Link::new_with_warnings("T", "U", "D", "x", "", &None);
    assert!(r.warnings.is_empty());
    assert_eq!(r.link.added, r.link.accessed);
    let r = Link::new_with_warnings("T", "U", "D", "soon", "later", &None);
    assert_eq!(r.warnings, vec![DateField::Added, DateField::Accessed]);
}
