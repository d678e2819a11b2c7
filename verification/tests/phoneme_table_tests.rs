use elbie::bag::Bag;
use elbie::phoneme::Inventory;
use elbie::phoneme::InventoryLoader;
use elbie::phoneme::Phoneme;
use elbie::phoneme_grid::build_all_phoneme_tables;
use elbie::phoneme_grid::build_phoneme_grid;
use elbie::phoneme_grid::build_phoneme_table;
use elbie::phoneme_grid::PhonemeDisplay;
use elbie::phoneme_table::ColumnDef;
use elbie::phoneme_table::HeaderMap;
use elbie::phoneme_table::TableBuilder;
use elbie::phoneme_table::TableEntry;
use elbie::phoneme_table::TableOption;
use elbie::errors::ElbieError;
use elbie::grid::Grid;
use elbie::grid::TableClass;

fn owned(items: &[&str]) -> Vec<String> {
    items.iter().map(|s| s.to_string()).collect()
}

fn records(grid: Grid) -> Vec<Vec<String>> {
    grid.into_csv()
}

fn inventory() -> Inventory {
    let mut inventory = Inventory::new();
    inventory.add_phoneme("p", &["consonant", "labial", "stop"]).unwrap();
    inventory.add_phoneme("t", &["consonant", "coronal", "stop"]).unwrap();
    inventory.add_phoneme("m", &["consonant", "labial", "nasal"]).unwrap();
    inventory.add_phoneme("n", &["consonant", "coronal", "nasal"]).unwrap();
    inventory.add_phoneme("k", &["consonant", "velar", "stop"]).unwrap();
    inventory.add_phoneme("a", &["vowel"]).unwrap();
    inventory
}

fn tables() -> Vec<TableEntry> {
    let mut tables = Vec::new();
    TableBuilder::new("consonants", "Consonants", "consonant")
        .axis(&[("Labial", "labial"), ("Coronal", "coronal")]).unwrap()
        .axis(&[("Stop", "stop"), ("Nasal", "nasal")]).unwrap()
        .add(&mut tables)
        .unwrap();
    TableBuilder::new("vowels", "Vowels", "vowel").add(&mut tables).unwrap();
    TableBuilder::new("nasals", "Nasals", "consonant")
        .axis(&[("Nasal", "nasal")]).unwrap()
        .add(&mut tables)
        .unwrap();
    tables
}

#[test]
fn phoneme_display_text() {
    assert_eq!(PhonemeDisplay::Normal(Phoneme::new("ŋ")).text(), "ŋ");
    assert_eq!(PhonemeDisplay::Duplicate(Phoneme::new("ŋ")).text(), "⚠ŋ");
}

#[test]
fn all_tables_mark_repeats_and_collect_the_rest() {
    let inventory = inventory();
    let grids = build_all_phoneme_tables(&inventory, &tables()).unwrap();
    let names: Vec<&str> = grids.iter().map(|(name, _)| *name).collect();
    assert_eq!(names, vec!["consonants", "vowels", "nasals", "uncategorized"]);
    let mut grids = grids.into_iter().map(|(_, grid)| grid);
    let consonants = grids.next().unwrap();
    assert_eq!(consonants.class(), TableClass::ElbiePhonemes);
    assert_eq!(consonants.caption(), "Consonants");
    assert_eq!(records(consonants), vec![
        owned(&["", "Labial", "Coronal"]),
        owned(&["Stop", "p", "t"]),
        owned(&["Nasal", "m", "n"]),
    ]);
    assert_eq!(records(grids.next().unwrap()), vec![owned(&["Vowels"]), owned(&["a"])]);
    assert_eq!(records(grids.next().unwrap()), vec![owned(&["", "Nasals"]), owned(&["Nasal", "⚠m ⚠n"])]);
    let rest = grids.next().unwrap();
    assert_eq!(rest.caption(), "Uncategorized Phonemes");
    assert_eq!(records(rest), vec![owned(&["Uncategorized Phonemes"]), owned(&["k"])]);
}

#[test]
fn no_uncategorized_table_when_every_phoneme_is_shown() {
    let inventory = inventory();
    let mut tables = tables();
    TableBuilder::new("velars", "Velars", "velar").add(&mut tables).unwrap();
    let grids = build_all_phoneme_tables(&inventory, &tables).unwrap();
    let names: Vec<&str> = grids.iter().map(|(name, _)| *name).collect();
    assert_eq!(names, vec!["consonants", "vowels", "nasals", "velars"]);
}

#[test]
fn one_table_by_name() {
    let inventory = inventory();
    let tables = tables();
    let nasals = build_phoneme_table(&inventory, &tables, "nasals").unwrap().unwrap();
    assert_eq!(records(nasals), vec![owned(&["", "Nasals"]), owned(&["Nasal", "m n"])]);
    let rest = build_phoneme_table(&inventory, &tables, "uncategorized").unwrap().unwrap();
    assert_eq!(records(rest), vec![owned(&["Uncategorized Phonemes"]), owned(&["k"])]);
    assert!(build_phoneme_table(&inventory, &tables, "missing").unwrap().is_none());
}

#[test]
fn unknown_table_set_is_an_error() {
    let inventory = inventory();
    let mut tables = Vec::new();
    TableBuilder::new("glides", "Glides", "glide").add(&mut tables).unwrap();
    assert!(matches!(build_all_phoneme_tables(&inventory, &tables), Err(ElbieError::UnknownSet("glide"))));
    assert!(matches!(build_phoneme_table(&inventory, &tables, "glides"), Err(ElbieError::UnknownSet("glide"))));
}

fn voiced_inventory() -> Inventory {
    let mut inventory = Inventory::new();
    inventory.add_phoneme("p", &["labial", "stop", "voiceless", "plain"]).unwrap();
    inventory.add_phoneme("b", &["labial", "stop", "voiced", "plain"]).unwrap();
    inventory.add_phoneme("t", &["coronal", "stop", "voiceless", "plain"]).unwrap();
    inventory.add_phoneme("d", &["coronal", "stop", "voiced", "plain"]).unwrap();
    inventory.add_phoneme("ph", &["labial", "stop", "voiceless", "aspirated"]).unwrap();
    inventory.add_phoneme("th", &["coronal", "stop", "voiceless", "aspirated"]).unwrap();
    inventory
}

#[test]
fn subcolumns_under_each_column() {
    let inventory = voiced_inventory();
    let mut tables = Vec::new();
    TableBuilder::new("stops", "Stops", "plain")
        .axis(&[("Labial", "labial"), ("Coronal", "coronal")]).unwrap()
        .axis(&[("Stop", "stop")]).unwrap()
        .axis(&[("Voiceless", "voiceless"), ("Voiced", "voiced")]).unwrap()
        .add(&mut tables)
        .unwrap();
    let master = inventory.get_set("plain").unwrap();
    let mut unprinted: Bag<Phoneme> = Bag::new();
    let grid = build_phoneme_grid(&inventory, master, tables[0].definition(), &mut unprinted, false);
    assert_eq!(records(grid), vec![
        owned(&["", "Labial", "", "Coronal", ""]),
        owned(&["", "Voiceless", "Voiced", "Voiceless", "Voiced"]),
        owned(&["Stop", "p", "b", "t", "d"]),
    ]);
}

#[test]
fn hidden_captions_and_subrows() {
    let inventory = voiced_inventory();
    let mut tables = Vec::new();
    TableBuilder::new("stops", "Stops", "stop")
        .axis(&[("Labial", "labial"), ("Coronal", "coronal")]).unwrap()
        .axis(&[("Stop", "stop")]).unwrap()
        .axis(&[("Voiceless", "voiceless"), ("Voiced", "voiced")]).unwrap()
        .axis(&[("Plain", "plain"), ("Aspirated", "aspirated")]).unwrap()
        .option(TableOption::HideSubcolumnCaptions)
        .add(&mut tables)
        .unwrap();
    let master = inventory.get_set("stop").unwrap();
    let mut unprinted = inventory.get_set("phoneme").unwrap().duplicate();
    let grid = build_phoneme_grid(&inventory, master, tables[0].definition(), &mut unprinted, true);
    assert!(unprinted.is_empty());
    assert_eq!(records(grid), vec![
        owned(&["", "", "Labial", "", "Coronal", ""]),
        owned(&["Stop", "Plain", "p", "b", "t", "d"]),
        owned(&["", "Aspirated", "ph", "", "th", ""]),
    ]);
}

#[test]
fn header_map_add_all_stops_at_a_repeated_set() {
    let mut map = HeaderMap::new();
    let defs = [
        ColumnDef { caption: "Stop", set: "stop" },
        ColumnDef { caption: "Nasal", set: "nasal" },
        ColumnDef { caption: "Plosive", set: "stop" },
        ColumnDef { caption: "Glide", set: "glide" },
    ];
    let old = map.add_all(&defs).unwrap_err();
    assert_eq!((old.caption, old.order), ("Stop", 0));
    let entries = map.entries();
    assert_eq!(entries.len(), 2);
    assert_eq!((entries[0].0, entries[0].1.caption, entries[0].1.order), ("stop", "Plosive", 2));
    assert_eq!((entries[1].0, entries[1].1.caption, entries[1].1.order), ("nasal", "Nasal", 1));
}
