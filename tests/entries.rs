use entry_index::classify::MAIN_NAMESPACE_ID;
use entry_index::{sort_caseless, sort_order, Heading, LanguageCode, LanguageNameToCode, LanguagesToEntries};

fn code(s: &str) -> LanguageCode {
    LanguageCode::new(s).unwrap()
}

fn strings(v: &[&str]) -> Vec<String> {
    v.iter().map(|s| s.to_string()).collect()
}

#[test]
fn pushed_titles_come_out_sorted_caselessly() {
    let mut index = LanguagesToEntries::new();
    index.push(code("en"), "banana");
    index.push(code("en"), "Apple");
    index.push(code("en"), "apple");
    let lists = index.into_sorted_lists();
    assert_eq!(lists.len(), 1);
    assert_eq!(lists[0].0, code("en"));
    assert_eq!(lists[0].1, strings(&["Apple", "apple", "banana"]));
}

#[test]
fn equal_titles_keep_push_order() {
    let mut index = LanguagesToEntries::new();
    index.push(code("en"), "apple");
    index.push(code("en"), "APPLE");
    index.push(code("en"), "Apple");
    let lists = index.into_sorted_lists();
    assert_eq!(lists[0].1, strings(&["apple", "APPLE", "Apple"]));
}

#[test]
fn each_code_gets_its_own_list() {
    let mut index = LanguagesToEntries::new();
    index.push(code("fr"), "chat");
    index.push(code("en"), "cat");
    index.push(code("fr"), "chien");
    index.push(code("fr"), "chat");
    let mut lists = index.into_sorted_lists();
    lists.sort_by(|a, b| a.0.cmp(&b.0));
    assert_eq!(lists.len(), 2);
    assert_eq!(lists[0].0, code("en"));
    assert_eq!(lists[0].1, strings(&["cat"]));
    assert_eq!(lists[1].0, code("fr"));
    assert_eq!(lists[1].1, strings(&["chat", "chat", "chien"]));
}

#[test]
fn empty_index_has_no_lists() {
    assert!(LanguagesToEntries::new().into_sorted_lists().is_empty());
}

#[test]
fn add_page_files_title_under_found_codes() {
    let table = LanguageNameToCode::from_tsv("names.tsv", "English\ten\nFrench\tfr\n").unwrap();
    let mut index = LanguagesToEntries::new();
    let hs = vec![
        Heading { level: 2, text: "English".to_string() },
        Heading { level: 2, text: "Klingon".to_string() },
    ];
    let diagnostics = index.add_page(&table, MAIN_NAMESPACE_ID, "Zebra", &hs);
    assert_eq!(diagnostics.len(), 1);
    let hs = vec![Heading { level: 2, text: "English".to_string() }];
    index.add_page(&table, MAIN_NAMESPACE_ID, "aardvark", &hs);
    let lists = index.into_sorted_lists();
    assert_eq!(lists.len(), 1);
    assert_eq!(lists[0].1, strings(&["aardvark", "Zebra"]));
}

#[test]
fn sort_order_gives_positions() {
    let titles = strings(&["b", "C", "a", "B"]);
    assert_eq!(sort_order(&titles), vec![2, 0, 3, 1]);
    assert_eq!(sort_caseless(&titles), strings(&["a", "b", "B", "C"]));
}

#[test]
fn sort_folds_non_ascii_case() {
    let titles = strings(&["Ωmega", "ωmega", "Alpha"]);
    assert_eq!(sort_caseless(&titles), strings(&["Alpha", "Ωmega", "ωmega"]));
    assert!(sort_caseless(&Vec::new()).is_empty());
}
