use lanshare::config::{escape, generate_config, unescape};

#[test]
fn config_document_is_exact() {
    let files = vec!["a.txt".to_string()];
    let cfg = generate_config(&files, "http://h:3000/files", 4);
    assert_eq!(
        cfg,
        "continue-at=-\nparallel\nparallel-max=4\nurl=\"http://h:3000/files/a.txt\"\noutput=\"a.txt\"\n"
    );
}

#[test]
fn each_file_gets_one_stanza() {
    let files = vec!["a".to_string(), "b".to_string()];
    let cfg = generate_config(&files, "http://h/files", 2);
    assert_eq!(cfg.matches("url=\"").count(), 2);
    assert_eq!(cfg.matches("output=\"").count(), 2);
}

#[test]
fn quote_and_comma_round_trip_through_escaping() {
    let name = "we\"ird,file.txt";
    let esc = escape(name);
    assert_eq!(esc, "we\\\"ird\\,file.txt");
    assert_eq!(unescape(&esc).as_deref(), Some(name));

    let cfg = generate_config(&vec![name.to_string()], "http://h/files", 1);
    let output_value = format!("output=\"{}\"\n", esc);
    assert!(cfg.contains(&output_value));
    let url_value = format!("url=\"{}\"\n", escape("http://h/files/we\"ird,file.txt"));
    assert!(cfg.contains(&url_value));
}

#[test]
fn every_special_character_is_escaped_once() {
    assert_eq!(escape("\\"), "\\\\");
    assert_eq!(escape("\""), "\\\"");
    assert_eq!(escape(","), "\\,");
    assert_eq!(escape("\n"), "\\n");
    assert_eq!(escape("\r"), "\\r");
    assert_eq!(escape("\t"), "\\t");
    assert_eq!(escape("plain"), "plain");
    assert_eq!(escape("a\\b\"c,d\ne"), "a\\\\b\\\"c\\,d\\ne");
}

#[test]
fn unescape_rejects_dangling_or_unknown_escapes() {
    assert_eq!(unescape("\\"), None);
    assert_eq!(unescape("\\x"), None);
    assert_eq!(unescape("ok"), Some("ok".to_string()));
    assert_eq!(unescape("a\\tb"), Some("a\tb".to_string()));
}
