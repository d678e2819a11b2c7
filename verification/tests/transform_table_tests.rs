use elbie::transform_table::fill_transformed_table;
use elbie::transform_table::fill_validated_table;
use elbie::transform_table::EntryOutcome;
use elbie::transform_table::TransformResult;
use elbie::word_table::WordTable;

fn table(words: &[&str]) -> WordTable {
    let mut t = WordTable::new();
    let words: Vec<String> = words.iter().map(|w| w.to_string()).collect();
    t.add_words(&words);
    t
}

fn attr(t: &WordTable, i: usize, name: &str) -> Option<String> {
    t.entries()[i].get_attribute(&name.to_string()).cloned()
}

#[test]
fn transformations_become_attributes_and_errors_are_listed() {
    let mut t = table(&["kata", "x?"]);
    let outcomes = vec![
        EntryOutcome::Read {
            phonemic: "/kata/".to_string(),
            results: vec![TransformResult { transformed: "/kada/".to_string(), validated: Some(false), spellings: vec!["kada".to_string()] }],
        },
        EntryOutcome::Unreadable("no phoneme at 'x?'".to_string()),
    ];
    let names = vec!["Hobgoblin".to_string()];
    let invalid = fill_transformed_table(&mut t, "Goblin".to_string(), &names, false, &vec!["Roman"], &outcomes);
    assert!(invalid);
    let attribute_names: Vec<String> = t.attribute_names().clone();
    assert_eq!(attribute_names, vec!["Hobgoblin".to_string(), "Roman".to_string(), "Error".to_string()]);
    assert_eq!(t.entries()[0].word(), "/kata/");
    assert_eq!(attr(&t, 0, "Hobgoblin"), Some("/kada/".to_string()));
    assert_eq!(attr(&t, 0, "Roman"), Some("kada".to_string()));
    assert_eq!(attr(&t, 0, "Error"), Some("Word was invalid (see trace)".to_string()));
    assert_eq!(t.entries()[1].word(), "x?");
    assert_eq!(attr(&t, 1, "Error"), Some("Can't read word: no phoneme at 'x?'".to_string()));
}

#[test]
fn replacing_moves_the_original_word() {
    let mut t = table(&["kata"]);
    let outcomes = vec![EntryOutcome::Read {
        phonemic: "/kata/".to_string(),
        results: vec![TransformResult { transformed: "/kada/".to_string(), validated: Some(true), spellings: vec![] }],
    }];
    let names = vec!["Hobgoblin".to_string()];
    let invalid = fill_transformed_table(&mut t, "Goblin".to_string(), &names, true, &vec![], &outcomes);
    assert!(!invalid);
    assert_eq!(t.attribute_names().clone(), vec!["Goblin".to_string()]);
    assert_eq!(t.entries()[0].word(), "/kada/");
    assert_eq!(attr(&t, 0, "Goblin"), Some("/kata/".to_string()));
    assert_eq!(attr(&t, 0, "Error"), None);
}

#[test]
fn validation_results_fill_the_table() {
    let mut t = table(&["kata", "tk"]);
    let outcomes = vec![
        ("/kata/".to_string(), true, vec!["kata".to_string()]),
        ("/tk/".to_string(), false, vec![]),
    ];
    let invalid = fill_validated_table(&mut t, &vec!["Roman"], &outcomes);
    assert_eq!(invalid, 1);
    assert_eq!(t.attribute_names().clone(), vec!["Roman".to_string(), "Validated".to_string()]);
    assert_eq!(t.entries()[0].word(), "/kata/");
    assert_eq!(attr(&t, 0, "Validated"), Some("Valid".to_string()));
    assert_eq!(attr(&t, 0, "Roman"), Some("kata".to_string()));
    assert_eq!(attr(&t, 1, "Validated"), Some("!! Invalid".to_string()));
    assert_eq!(attr(&t, 1, "Roman"), None);
}
