use entry_index::{Error, LanguageCode, LanguageNameToCode};

fn code(s: &str) -> LanguageCode {
    LanguageCode::new(s).unwrap()
}

#[test]
fn valid_lines_map_names_to_codes() {
    let table = LanguageNameToCode::from_tsv("names.tsv", "English\ten\nFrench\tfr\n").unwrap();
    assert_eq!(table.get("English"), Some(code("en")));
    assert_eq!(table.get("French"), Some(code("fr")));
    assert_eq!(table.get("German"), None);
}

#[test]
fn lookup_is_case_sensitive() {
    let table = LanguageNameToCode::from_tsv("names.tsv", "English\ten").unwrap();
    assert_eq!(table.get("english"), None);
    assert_eq!(table.get("English"), Some(code("en")));
}

#[test]
fn later_line_overwrites_earlier() {
    let table = LanguageNameToCode::from_tsv("names.tsv", "Old\tang\nOld\tenm\n").unwrap();
    assert_eq!(table.get("Old"), Some(code("enm")));
}

#[test]
fn empty_lines_and_crlf_are_read() {
    let table =
        LanguageNameToCode::from_tsv("names.tsv", "\nSpanish\tes\r\n\r\n\nItalian\tit").unwrap();
    assert_eq!(table.get("Spanish"), Some(code("es")));
    assert_eq!(table.get("Italian"), Some(code("it")));
}

#[test]
fn only_the_first_tab_splits() {
    let table = LanguageNameToCode::from_tsv("names.tsv", "A\tb\tc\n").unwrap();
    assert_eq!(table.get("A"), Some(code("b\tc")));
}

#[test]
fn empty_text_gives_empty_table() {
    let table = LanguageNameToCode::from_tsv("names.tsv", "").unwrap();
    assert_eq!(table.get(""), None);
}

#[test]
fn line_without_tab_is_malformed() {
    let err = LanguageNameToCode::from_tsv("names.tsv", "English\ten\n\nFrench fr\nGerman\tde\n")
        .err()
        .unwrap();
    match err {
        Error::InvalidNameToCodeFormat { path, line_number, line } => {
            assert_eq!(path, "names.tsv");
            assert_eq!(line_number, 3);
            assert_eq!(line, "French fr");
        }
        other => panic!("unexpected error {:?}", other),
    }
}

#[test]
fn code_too_long_is_invalid() {
    let err = LanguageNameToCode::from_tsv("t.tsv", "English\ten\nLong\taaaa-bbbb-cccc\n")
        .err()
        .unwrap();
    match err {
        Error::InvalidLanguageCode { path, line_number, line } => {
            assert_eq!(path, "t.tsv");
            assert_eq!(line_number, 2);
            assert_eq!(line, "Long\taaaa-bbbb-cccc");
        }
        other => panic!("unexpected error {:?}", other),
    }
}

#[test]
fn first_bad_line_decides() {
    let err = LanguageNameToCode::from_tsv("t.tsv", "A\taaaaaaaaaaaaa\nB\n").err().unwrap();
    assert!(matches!(err, Error::InvalidLanguageCode { line_number: 1, .. }));
}

#[test]
fn io_error_keeps_its_parts() {
    let err = Error::from_io("denied".to_string(), "read from", "names.tsv");
    match err {
        Error::IoError { action, path, cause } => {
            assert_eq!(action, "read from");
            assert_eq!(path, "names.tsv");
            assert_eq!(cause, "denied");
        }
        other => panic!("unexpected error {:?}", other),
    }
}

#[test]
fn carriage_return_stays_on_unterminated_last_line() {
    let table = LanguageNameToCode::from_tsv("names.tsv", "A\tb\r\nC\td\r").unwrap();
    assert_eq!(table.get("A"), Some(code("b")));
    assert_eq!(table.get("C"), Some(code("d\r")));
}
