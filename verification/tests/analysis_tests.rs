use elbie::analysis::AnalysisConfig;
use elbie::analysis::find_set_for;
use elbie::errors::ElbieError;
use elbie::phoneme::Inventory;
use elbie::phoneme::InventoryLoader;
use elbie::phoneme::Phoneme;
use elbie::phoneme_table::TableBuilder;
use elbie::phoneme_table::TableEntry;
use elbie::word_table::WordTable;

fn sounds() -> Inventory {
    let mut inventory = Inventory::new();
    for p in ["p", "t", "k"] {
        inventory.add_phoneme(p, &["consonant", "stop"]).unwrap();
    }
    inventory.add_phoneme("a", &["vowel", "low"]).unwrap();
    inventory.add_phoneme("i", &["vowel", "high"]).unwrap();
    inventory
}

fn config() -> AnalysisConfig {
    AnalysisConfig { cluster_sets: vec!["consonant", "vowel"], structure_sets: vec!["high", "low", "stop"] }
}

fn words(list: &[&str]) -> WordTable {
    let mut table = WordTable::new();
    let owned: Vec<String> = list.iter().map(|w| w.to_string()).collect();
    table.add_words(&owned);
    table
}

const EMPTY_POSITION: &str = "### Clusters and Counts\n\n\n### Tree\n\n```\n```\n";

#[test]
fn analysis_text_of_two_words() {
    let inventory = sounds();
    let results = config().analyze(&inventory, &words(&["pa", "tai"])).unwrap();
    assert!(results.check_totals());
    let counts = "## Counts Per Word\n\n2 words have at least 1 instances, or 100% of words.\ntotal of 2 words analyzed\n\n";
    let consonant_initial = "### Clusters and Counts\n\n\"stop\" (2) including: /p/ (1) /t/ (1) \n\n### Tree\n\n```\n[stop] 2 ->\n    NEXT [vowel] 2 ->\n        [low] 2\n```\n";
    let vowel_final = "### Clusters and Counts\n\n\"low\" (1) including: /a/ (1) \n\"low + high\" (1) including: /ai/ (1) \n\n### Tree\n\n```\n[low] 2 ->\n    [high] 1 ->\n        DONE <end of word> 1\n    DONE <end of word> 1\n```\n";
    let consonant = format!("{counts}## Initial Clusters\n\n{consonant_initial}\n## Final Clusters\n\n{EMPTY_POSITION}\n## Medial Clusters\n\n{EMPTY_POSITION}\n");
    let vowel = format!("{counts}## Initial Clusters\n\n{EMPTY_POSITION}\n## Final Clusters\n\n{vowel_final}\n## Medial Clusters\n\n{EMPTY_POSITION}\n");
    let expected = format!("# consonant\n\n{consonant}\n# vowel\n\n{vowel}\n");
    assert_eq!(results.text(), expected);
}

#[test]
fn analysis_counts_per_word_shares() {
    let inventory = sounds();
    let results = config().analyze(&inventory, &words(&["pa", "papa", "patata"])).unwrap();
    let text = results.text();
    assert!(text.contains("3 words have at least 1 instances, or 100% of words.\n2 words have at least 2 instances, or 66% of words with at least 1 instances.\n1 words have at least 3 instances, or 50% of words with at least 2 instances.\ntotal of 3 words analyzed\n"));
}

#[test]
fn analysis_single_cluster_word_is_initial_and_final() {
    let inventory = sounds();
    let results = config().analyze(&inventory, &words(&["a"])).unwrap();
    let text = results.text();
    assert!(text.contains("# consonant\n\n## Counts Per Word\n\n1 words have at least 0 instances, or 100% of words.\ntotal of 1 words analyzed\n"));
    assert!(text.contains("## Initial Clusters\n\n### Clusters and Counts\n\n\"low\" (1) including: /a/ (1) \n"));
    assert!(text.contains("## Final Clusters\n\n### Clusters and Counts\n\n\"low\" (1) including: /a/ (1) \n"));
}

#[test]
fn analysis_medial_clusters() {
    let inventory = sounds();
    let results = config().analyze(&inventory, &words(&["apa"])).unwrap();
    let text = results.text();
    assert!(text.contains("## Medial Clusters\n\n### Clusters and Counts\n\n\"stop\" (1) including: /p/ (1) \n\n### Tree\n\n```\n[stop] 1 ->\n    NEXT [vowel] 1 ->\n        [low] 1\n```\n"));
}

#[test]
fn analysis_errors() {
    let inventory = sounds();
    let unread = config().analyze(&inventory, &words(&["pa", "pxa"]));
    assert!(matches!(unread, Err(ElbieError::UnknownPhonemeWhileReading(whole, _)) if whole == "pxa"));
    let narrow = AnalysisConfig { cluster_sets: vec!["consonant"], structure_sets: vec!["stop"] };
    let uncovered = narrow.analyze(&inventory, &words(&["pa"]));
    assert!(matches!(uncovered, Err(ElbieError::AnalysisSetCoverageIsIncomplete("a", list)) if list == "consonant"));
    let unknown = AnalysisConfig { cluster_sets: vec!["nasal"], structure_sets: vec!["stop"] };
    assert!(matches!(unknown.analyze(&inventory, &words(&["pa"])), Err(ElbieError::UnknownSet("nasal"))));
}

#[test]
fn analysis_config_validation() {
    let inventory = sounds();
    assert!(config().validate(&inventory).is_ok());
    let overlapping = AnalysisConfig { cluster_sets: vec!["consonant", "stop", "vowel"], structure_sets: vec!["phoneme"] };
    assert!(matches!(overlapping.validate(&inventory), Err(ElbieError::AnalysisSetIsNonExclusive("k", "stop", "consonant"))));
    let missing = AnalysisConfig { cluster_sets: vec!["consonant", "vowel"], structure_sets: vec!["low", "stop"] };
    assert!(matches!(missing.validate(&inventory), Err(ElbieError::AnalysisSetCoverageIsIncomplete("i", list)) if list == "low, stop"));
}

#[test]
fn sets_found_for_phonemes() {
    let inventory = sounds();
    let sets = vec!["vowel", "consonant"];
    assert_eq!(find_set_for(&inventory, &Phoneme::new("t"), &sets).unwrap(), "consonant");
    assert!(matches!(find_set_for(&inventory, &Phoneme::new("t"), &vec!["vowel"]), Err(ElbieError::AnalysisSetCoverageIsIncomplete("t", _))));
}

#[test]
fn analysis_config_from_tables() {
    let mut tables: Vec<TableEntry> = Vec::new();
    TableBuilder::new("consonants", "Consonants", "consonant")
        .axis(&[("Labial", "labial"), ("Dental", "dental")]).unwrap()
        .axis(&[("Stop", "stop"), ("Nasal", "nasal")]).unwrap()
        .add(&mut tables).unwrap();
    TableBuilder::new("vowels", "Vowels", "vowel")
        .axis(&[("High", "high"), ("Stop", "stop")]).unwrap()
        .add(&mut tables).unwrap();
    TableBuilder::new("other", "Other", "glide").add(&mut tables).unwrap();
    let config = AnalysisConfig::from_language(None, None, &tables);
    assert_eq!(config.cluster_sets, vec!["consonant", "vowel", "glide"]);
    assert_eq!(config.structure_sets, vec!["glide", "high", "nasal", "stop"]);
    let given = AnalysisConfig::from_language(Some(vec!["x"]), Some(vec!["y", "z"]), &tables);
    assert_eq!(given.cluster_sets, vec!["x"]);
    assert_eq!(given.structure_sets, vec!["y", "z"]);
}
