use edu_links::codec::{decode, encode, format_tags, DecodeError, Field};
use edu_links::date::Date;
use edu_links::record::Link;

fn day(year: i32, month: u32, day: u32) -> Date {
    Date::from_ymd(year, month, day).unwrap()
}

fn sample(tags: Option<Vec<String>>) -> Link {
    Link {
        title: String::from("Rust Book"),
        link: String::from("https://doc.rust-lang.org/book/"),
        desc: String::from("The official book"),
        added: day(2024, 3, 1),
        accessed: day(2024, 3, 2),
        tags,
    }
}

#[test]
fn encode_exact_text() {
    let l = sample(Some(vec![String::from("rust"), String::from("books")]));
    assert_eq!(
        encode(&l),
        "title = \"Rust Book\"\nlink = \"https://doc.rust-lang.org/book/\"\ndesc = \"The official book\"\nadded = \"2024-03-01\"\naccessed = \"2024-03-02\"\ntags = [\"rust\", \"books\"]\n"
    );
    let l = sample(None);
    assert_eq!(
        encode(&l),
        "title = \"Rust Book\"\nlink = \"https://doc.rust-lang.org/book/\"\ndesc = \"The official book\"\nadded = \"2024-03-01\"\naccessed = \"2024-03-02\"\n"
    );
}

#[test]
fn encode_escapes_quotes_and_backslashes() {
    let mut l = sample(None);
    l.title = String::from("A \"quoted\" \\ title\nline");
    let text = encode(&l);
    assert!(text.starts_with("title = \"A \\\"quoted\\\" \\\\ title\\nline\"\n"));
    assert_eq!(decode(&text), Ok(l));
}

#[test]
fn round_trip_plain_record() {
    for tags in [
        None,
        Some(vec![]),
        Some(vec![String::from("one")]),
        Some(vec![String::from("a"), String::from("b c"), String::from("d,e")]),
    ] {
        let l = sample(tags);
        assert_eq!(decode(&encode(&l)), Ok(l));
    }
}

#[test]
fn round_trip_unusual_dates() {
    let mut l = sample(None);
    l.added = day(12, 1, 9);
    l.accessed = day(-44, 3, 15);
    let text = encode(&l);
    assert!(text.contains("added = \"0012-01-09\""));
    assert!(text.contains("accessed = \"-0044-03-15\""));
    assert_eq!(decode(&text), Ok(l.clone()));
    l.added = day(262142, 12, 31);
    l.accessed = day(-262143, 1, 1);
    let text = encode(&l);
    assert!(text.contains("added = \"+262142-12-31\""));
    assert!(text.contains("accessed = \"-262143-01-01\""));
    assert_eq!(decode(&text), Ok(l));
}

#[test]
fn decode_skips_unknown_keys_and_blank_lines() {
    let text = "\ntitle = \"T\"\ncategory = whatever\nlink = \"U\"\n\ndesc = \"\"\nadded = \"2020-01-01\"\naccessed = \"2020-01-02\"";
    let l = decode(text).unwrap();
    assert_eq!(l.title, "T");
    assert_eq!(l.link, "U");
    assert_eq!(l.desc, "");
    assert_eq!(l.added, day(2020, 1, 1));
    assert_eq!(l.accessed, day(2020, 1, 2));
    assert_eq!(l.tags, None);
}

#[test]
fn decode_collapses_duplicate_tags() {
    let text = "title = \"T\"\nlink = \"U\"\ndesc = \"D\"\nadded = \"2020-01-01\"\naccessed = \"2020-01-02\"\ntags = [\"x\", \"y\", \"x\"]\n";
    let l = decode(text).unwrap();
    assert_eq!(l.tags, Some(vec![String::from("x"), String::from("y")]));
}

#[test]
fn decode_errors() {
    let good = "title = \"T\"\nlink = \"U\"\ndesc = \"D\"\nadded = \"2020-01-01\"\naccessed = \"2020-01-02\"\n";
    assert!(decode(good).is_ok());
    assert_eq!(
        decode("title = \"T\"\nthis is not a field\n"),
        Err(DecodeError::Malformed(1))
    );
    assert_eq!(
        decode("title=\"T\"\n"),
        Err(DecodeError::Malformed(0))
    );
    assert_eq!(
        decode("title = \"T\"\ntitle = \"U\"\n"),
        Err(DecodeError::Duplicate(1))
    );
    assert_eq!(
        decode("title = \"T\nlink = \"U\"\n"),
        Err(DecodeError::BadValue(0))
    );
    assert_eq!(
        decode("title = \"T\"\nlink = \"U\"\ndesc = \"D\"\nadded = \"2020-02-30\"\n"),
        Err(DecodeError::BadValue(3))
    );
    assert_eq!(
        decode("title = \"T\"\ntags = [\"a\",\"b\"]\n"),
        Err(DecodeError::BadValue(1))
    );
    assert_eq!(
        decode("title = \"T\"\nlink = \"U\"\n"),
        Err(DecodeError::Missing(Field::Desc))
    );
    assert_eq!(decode(""), Err(DecodeError::Missing(Field::Title)));
    assert_eq!(
        decode("title = \"T\"\nlink = \"U\"\ndesc = \"D\"\nadded = \"2020-01-01\"\n"),
        Err(DecodeError::Missing(Field::Accessed))
    );
}

#[test]
fn format_tags_quotes_and_joins() {
    assert_eq!(format_tags(&vec![]), "");
    assert_eq!(format_tags(&vec![String::from("a")]), "\"a\"");
    assert_eq!(
        format_tags(&vec![String::from("a"), String::from("b\"c")]),
        "\"a\", \"b\\\"c\""
    );
}

#[test]
fn encoded_text_is_toml_with_the_same_values() {
    let mut l = sample(Some(vec![String::from("x\"y"), String::from("z")]));
    l.desc = String::from("back\\slash\ttab");
    let text = encode(&l);
    let table: toml::Table = text.parse().unwrap();
    assert_eq!(table["title"].as_str(), Some("Rust Book"));
    assert_eq!(table["link"].as_str(), Some("https://doc.rust-lang.org/book/"));
    assert_eq!(table["desc"].as_str(), Some("back\\slash\ttab"));
    assert_eq!(table["added"].as_str(), Some("2024-03-01"));
    assert_eq!(table["accessed"].as_str(), Some("2024-03-02"));
    let tags = table["tags"].as_array().unwrap();
    assert_eq!(tags.len(), 2);
    assert_eq!(tags[0].as_str(), Some("x\"y"));
    assert_eq!(tags[1].as_str(), Some("z"));
}
