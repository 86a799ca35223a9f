use entry_index::classify::{
    classify_title, APPENDIX_NAMESPACE_ID, MAIN_NAMESPACE_ID, RECONSTRUCTION_NAMESPACE_ID,
};
use entry_index::{classify, Diagnostic, Heading, LanguageCode, LanguageNameToCode, Namespace};

fn table(text: &str) -> LanguageNameToCode {
    LanguageNameToCode::from_tsv("names.tsv", text).unwrap()
}

fn heading(level: u32, text: &str) -> Heading {
    Heading { level, text: text.to_string() }
}

fn texts(codes: &[LanguageCode]) -> Vec<String> {
    codes.iter().map(|c| c.as_text()).collect()
}

#[test]
fn main_page_gets_a_code_per_known_heading() {
    let t = table("English\ten\nFrench\tfr\n");
    let hs = vec![heading(2, "English"), heading(2, "French")];
    let r = classify(&t, MAIN_NAMESPACE_ID, "chat", &hs);
    assert_eq!(texts(&r.codes), vec!["en", "fr"]);
    assert!(r.diagnostics.is_empty());
}

#[test]
fn main_page_reports_unknown_heading() {
    let t = table("English\ten\n");
    let hs = vec![heading(2, "English"), heading(2, "French")];
    let r = classify(&t, MAIN_NAMESPACE_ID, "chat", &hs);
    assert_eq!(texts(&r.codes), vec!["en"]);
    assert_eq!(r.diagnostics.len(), 1);
    match &r.diagnostics[0] {
        Diagnostic::UnrecognizedLanguageName { name, title } => {
            assert_eq!(name, "French");
            assert_eq!(title, "chat");
        }
        other => panic!("unexpected diagnostic {:?}", other),
    }
}

#[test]
fn main_page_reads_only_level_two() {
    let t = table("English\ten\nEtymology\tety\n");
    let hs = vec![heading(1, "English"), heading(3, "Etymology"), heading(4, "Unknown")];
    let r = classify(&t, MAIN_NAMESPACE_ID, "word", &hs);
    assert!(r.codes.is_empty());
    assert!(r.diagnostics.is_empty());
}

#[test]
fn main_page_repeated_heading_gives_code_twice() {
    let t = table("English\ten\n");
    let hs = vec![heading(2, "English"), heading(2, "English")];
    let r = classify(&t, MAIN_NAMESPACE_ID, "word", &hs);
    assert_eq!(texts(&r.codes), vec!["en", "en"]);
}

#[test]
fn appendix_title_names_language() {
    let t = table("Spanish\tes\n");
    let r = classify(&t, APPENDIX_NAMESPACE_ID, "Appendix:Spanish/Verbs", &[]);
    assert_eq!(texts(&r.codes), vec!["es"]);
    assert!(r.diagnostics.is_empty());
}

#[test]
fn reconstruction_title_without_known_language_is_reported() {
    let t = table("English\ten\n");
    let r = classify(&t, RECONSTRUCTION_NAMESPACE_ID, "Appendix:Spanish/Verbs", &[]);
    assert!(r.codes.is_empty());
    assert_eq!(r.diagnostics.len(), 1);
    match &r.diagnostics[0] {
        Diagnostic::NoLanguageInTitle { title } => assert_eq!(title, "Appendix:Spanish/Verbs"),
        other => panic!("unexpected diagnostic {:?}", other),
    }
}

#[test]
fn appendix_title_without_known_language_is_silent() {
    let t = table("English\ten\n");
    let r = classify(&t, APPENDIX_NAMESPACE_ID, "Appendix:Spanish/Verbs", &[]);
    assert!(r.codes.is_empty());
    assert!(r.diagnostics.is_empty());
}

#[test]
fn reconstruction_title_names_language() {
    let t = table("Proto-Germanic\tgem-pro\n");
    let r = classify(&t, RECONSTRUCTION_NAMESPACE_ID, "Reconstruction:Proto-Germanic/hūsą", &[]);
    assert_eq!(texts(&r.codes), vec!["gem-pro"]);
    assert!(r.diagnostics.is_empty());
}

#[test]
fn title_segment_stops_at_next_colon_and_slash() {
    let t = table("Latin\tla\n");
    let r = classify_title(&t, "Appendix:Latin:extra/x", false);
    assert_eq!(texts(&r.codes), vec!["la"]);
    let r = classify_title(&t, "Appendix:Latin", false);
    assert_eq!(texts(&r.codes), vec!["la"]);
}

#[test]
fn title_without_colon_has_no_language() {
    let t = table("Latin\tla\n");
    let r = classify_title(&t, "Latin/words", true);
    assert!(r.codes.is_empty());
    assert_eq!(r.diagnostics.len(), 1);
}

#[test]
fn other_namespaces_are_ignored() {
    let t = table("English\ten\n");
    let hs = vec![heading(2, "English")];
    let r = classify(&t, 4, "Wiktionary:English/About", &hs);
    assert!(r.codes.is_empty());
    assert!(r.diagnostics.is_empty());
}

#[test]
fn namespace_ids_map_to_kinds() {
    assert_eq!(Namespace::from_id(0), Namespace::Main);
    assert_eq!(Namespace::from_id(100), Namespace::Appendix);
    assert_eq!(Namespace::from_id(118), Namespace::Reconstruction);
    assert_eq!(Namespace::from_id(1), Namespace::Other);
}
