use entry_index::language_code::MAX_CODE_LEN;
use entry_index::LanguageCode;

#[test]
fn code_of_eleven_bytes_is_made() {
    let code = LanguageCode::new("aaa-aaa-aaa").expect("eleven bytes fit");
    assert_eq!(code.len(), 11);
    assert_eq!(code.as_text(), "aaa-aaa-aaa");
    assert_eq!(MAX_CODE_LEN, 11);
}

#[test]
fn code_of_twelve_bytes_is_refused() {
    assert!(LanguageCode::new("aaaa-aaa-aaa").is_none());
    assert!(LanguageCode::new("this-is-far-too-long").is_none());
}

#[test]
fn short_and_empty_codes_are_made() {
    assert_eq!(LanguageCode::new("en").unwrap().as_text(), "en");
    assert_eq!(LanguageCode::new("non-x-old").unwrap().as_text(), "non-x-old");
    assert_eq!(LanguageCode::new("").unwrap().len(), 0);
}

#[test]
fn non_ascii_code_counts_bytes() {
    // "é" takes two bytes: five of them make ten bytes, six make twelve.
    assert!(LanguageCode::new("ééééé").is_some());
    assert!(LanguageCode::new("éééééé").is_none());
    assert_eq!(LanguageCode::new("ééééé").unwrap().as_text(), "ééééé");
}

#[test]
fn codes_compare_by_bytes() {
    let en = LanguageCode::new("en").unwrap();
    let eng = LanguageCode::new("eng").unwrap();
    assert!(!en.same_as(&eng));
    assert!(en.same_as(&LanguageCode::new("en").unwrap()));
    assert_ne!(en, eng);
    assert_eq!(en, LanguageCode::new("en").unwrap());
    assert!(en < eng);
    assert_eq!(eng.as_bytes(), b"eng".to_vec());
}
