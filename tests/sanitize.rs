use edu_links::sanitize::{file_name, sanitize, sanitize_ascii};

fn in_alphabet(s: &str) -> bool {
    s.chars().all(|c| c.is_ascii_lowercase() || c.is_ascii_digit() || c == '-') && !s.contains("--")
}

#[test]
fn sanitize_keeps_to_the_alphabet() {
    let titles = [
        "Hello, World! (2024)",
        "C++ & Rust: a/b\\c *?\"<>|",
        "Æneid — étude № 5",
        "北亰 lectures",
        "  __..~~[]{}  ",
        "tab\tand\nnewline",
        "control\u{1}char",
        "",
    ];
    for t in titles.iter() {
        let id = sanitize(t);
        assert!(in_alphabet(&id), "{:?} -> {:?}", t, id);
    }
}

#[test]
fn sanitize_is_deterministic() {
    let t = "Ünïcödé Title: Part 2 (draft)";
    let a = sanitize(t);
    let b = sanitize(t);
    let c = sanitize(&String::from(t));
    assert_eq!(a, b);
    assert_eq!(a, c);
}

#[test]
fn sanitize_hello_world() {
    let id = sanitize("Hello, World! (2024)");
    assert_eq!(id, "hello-world-2024-");
    assert!(!id.contains(','));
    assert!(!id.contains('!'));
    assert!(!id.contains('('));
    assert!(!id.contains(')'));
    assert_eq!(id, id.to_lowercase());
}

#[test]
fn sanitize_transliterates() {
    assert_eq!(sanitize("Æneid"), "aeneid");
    assert_eq!(sanitize("étude"), "etude");
    assert_eq!(sanitize("北亰"), "bei-jing-");
}

#[test]
fn sanitize_ascii_collapses_runs() {
    assert_eq!(sanitize_ascii("a -- b"), "a-b");
    assert_eq!(sanitize_ascii("The Rust_Book.v2"), "the-rust-book-v2");
    assert_eq!(sanitize_ascii("x\u{1}y"), "xy");
    assert_eq!(sanitize_ascii(""), "");
    assert_eq!(sanitize_ascii("!!!"), "-");
}

#[test]
fn file_name_of_title() {
    assert_eq!(file_name("Café Rust"), Some(String::from("cafe-rust.toml")));
    assert_eq!(file_name("(C)"), Some(String::from("-c-.toml")));
}

#[test]
fn file_name_refuses_degenerate_titles() {
    assert_eq!(file_name(""), None);
    assert_eq!(file_name("!!! ???"), None);
    assert_eq!(file_name("---"), None);
}
