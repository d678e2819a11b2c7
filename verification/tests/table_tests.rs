use elbie::errors::ElbieError;
use elbie::format::Format;
use elbie::grid::Cell;
use elbie::grid::ColumnHeader;
use elbie::grid::Grid;
use elbie::grid::GridRow;
use elbie::grid::RowHeader;
use elbie::grid::SubcolumnHeader;
use elbie::grid::TRBodyClass;
use elbie::grid::TableClass;
use elbie::grid::TextStyle;
use elbie::grid_html::grid_html;
use elbie::grid_html::HtmlAttr;
use elbie::grid_html::HtmlNode;
use elbie::grid_html::HtmlTag;
use elbie::grid_json::grid_json;
use elbie::grid_text::text_layout;
use elbie::grid_text::TextCell;
use elbie::grid_text::TextLayout;
use elbie::grid_json::JsonModel;
use elbie::lexicon::Lexicon;
use elbie::lexicon::LexiconEntry;
use elbie::orthography::OrthographyIndex;
use elbie::phoneme::Phoneme;
use elbie::phoneme_table::TableBuilder;
use elbie::phoneme_table::TableEntry;
use elbie::phoneme_table::TableOption;
use elbie::spelling::check_spelling_table;
use elbie::spelling::spelling_grid;
use elbie::text::decimal_text;
use elbie::text::split_lines;
use elbie::text::trim_char;
use elbie::text::trim_end;
use elbie::word::Word;
use elbie::word_table::WordTable;

fn owned(items: &[&str]) -> Vec<String> {
    items.iter().map(|s| s.to_string()).collect()
}

fn row(header: Option<RowHeader>, cells: &[&str]) -> GridRow {
    let mut row = GridRow::new(TRBodyClass::BodyRow);
    if let Some(header) = header {
        row.set_header(header);
    }
    for cell in cells {
        row.push_cell(Cell::content(cell.to_string(), None));
    }
    row
}

fn consonant_grid() -> Grid {
    let mut grid = Grid::new(TableClass::ElbiePhonemes, "Consonants".to_string());
    grid.set_headers(vec![ColumnHeader::new("labial".to_string(), 2), ColumnHeader::new("dental".to_string(), 1)]);
    grid.push_body_row(row(Some(RowHeader::new("stop".to_string(), 1)), &["p", "b", "t"]));
    grid.push_body_row(row(Some(RowHeader::new("nasal".to_string(), 1)), &["m", "w", "n"]));
    grid
}

#[test]
fn grid_csv_spreads_column_spans() {
    let records = consonant_grid().into_csv();
    assert_eq!(records, vec![
        owned(&["", "labial", "", "dental"]),
        owned(&["stop", "p", "b", "t"]),
        owned(&["nasal", "m", "w", "n"]),
    ]);
}

#[test]
fn grid_csv_with_subheaders_and_spans() {
    let mut grid = Grid::new(TableClass::ElbieWords, "Words".to_string());
    grid.set_headers(vec![ColumnHeader::new("front".to_string(), 2)]);
    grid.set_subheaders(vec![SubcolumnHeader::new("high".to_string()), SubcolumnHeader::new("low".to_string())]);
    grid.push_body_row(row(Some(RowHeader::new("short".to_string(), 2)), &["i", "e"]));
    grid.push_body_row(row(Some(RowHeader::row_header_span()), &["y", "ø"]));
    assert_eq!(grid.into_csv(), vec![
        owned(&["", "front", ""]),
        owned(&["", "high", "low"]),
        owned(&["short", "i", "e"]),
        owned(&["", "y", "ø"]),
    ]);
}

#[test]
fn grid_row_fits_checks_spans_and_first_row() {
    let grid = consonant_grid();
    assert!(grid.row_fits(&row(Some(RowHeader::new("fricative".to_string(), 1)), &["f", "v", "s"])));
    assert!(!grid.row_fits(&row(Some(RowHeader::new("fricative".to_string(), 1)), &["f", "v"])));
    assert!(!grid.row_fits(&row(None, &["f", "v", "s"])));
}

#[test]
fn grid_column_groups_blend_into_lines() {
    let blended = consonant_grid().blend_column_groups();
    let (class, caption, heads, body) = blended.into_parts();
    assert_eq!(class, TableClass::ElbiePhonemes);
    assert_eq!(caption, "Consonants");
    let (head, sub) = heads.unwrap();
    assert!(sub.is_none());
    let names: Vec<(String, usize)> = head.into_iter().map(|h| (h.text, h.colspan)).collect();
    assert_eq!(names, vec![("labial".to_string(), 1), ("dental".to_string(), 1)]);
    let cells: Vec<Vec<String>> = body.into_iter().map(|r| r.cells.into_iter().map(|c| c.text).collect()).collect();
    assert_eq!(cells, vec![owned(&["p b", "t"]), owned(&["m w", "n"])]);
}

#[test]
fn grid_without_heads_does_not_blend_columns() {
    let mut grid = Grid::new(TableClass::ElbieWords, "Plain".to_string());
    grid.push_body_row(row(None, &["a", "b"]));
    let (_, _, heads, body) = grid.blend_column_groups().into_parts();
    assert!(heads.is_none());
    assert_eq!(body[0].cells.len(), 2);
    assert_eq!(body[0].cells[1].text, "b");
}

#[test]
fn grid_row_groups_blend_spanned_rows() {
    let mut grid = Grid::new(TableClass::ElbiePhonemes, "Vowels".to_string());
    grid.push_body_row(row(Some(RowHeader::new("high".to_string(), 2)), &["i", "u"]));
    grid.push_body_row(row(Some(RowHeader::row_header_span()), &["y", ""]));
    grid.push_body_row(row(Some(RowHeader::new("low".to_string(), 1)), &["a", "ɑ"]));
    let (_, _, _, body) = grid.blend_row_groups().into_parts();
    assert_eq!(body.len(), 2);
    let first: Vec<String> = body[0].cells.iter().map(|c| c.text.clone()).collect();
    assert_eq!(first, owned(&["i\ny", "u"]));
    match &body[0].headers {
        Some((RowHeader::RowHeader { text, rowspan }, None)) => {
            assert_eq!(text, "high");
            assert_eq!(*rowspan, 1);
        },
        _ => panic!("expected a row header"),
    }
    assert_eq!(body[1].cells[1].text, "ɑ");
}

#[test]
fn text_styles_bold_markdown_headers() {
    assert_eq!(TextStyle::Markdown.column_header("labial"), "**labial**");
    assert_eq!(TextStyle::Markdown.row_header("stop"), "**stop**");
    assert_eq!(TextStyle::Plain.column_header("labial"), "labial");
    assert_eq!(TextStyle::Terminal.row_header("stop"), "stop");
}

#[test]
fn column_and_row_header_spans_are_at_least_one() {
    assert_eq!(ColumnHeader::new("x".to_string(), 0).colspan, 1);
    assert_eq!(ColumnHeader::new("x".to_string(), 3).colspan, 3);
    match RowHeader::new("y".to_string(), 0) {
        RowHeader::RowHeader { rowspan, .. } => assert_eq!(rowspan, 1),
        RowHeader::RowHeaderSpan => panic!("expected a header"),
    }
}

fn lexicon() -> Lexicon {
    let mut lexicon = Lexicon::new(vec!["latin", "caps"], 0);
    let word = Word::new(&[Phoneme::new("p"), Phoneme::new("a")]);
    lexicon.push(LexiconEntry::new(word, owned(&["pa", "PA"]), "father".to_string()));
    let word = Word::new(&[Phoneme::new("m"), Phoneme::new("a")]);
    lexicon.push(LexiconEntry::new(word, owned(&["ma", "MA"]), "mother".to_string()));
    lexicon
}

#[test]
fn lexicon_plain_text_lines() {
    let lexicon = lexicon();
    assert!(lexicon.check_spelled_first());
    assert_eq!(lexicon.plain_text(), "pa (/pa/; caps: PA): father\nma (/ma/; caps: MA): mother\n");
}

#[test]
fn lexicon_markdown_lines() {
    let lexicon = lexicon();
    assert_eq!(lexicon.markdown_text(), "**pa**. (/pa/; caps: *PA*): father\n**ma**. (/ma/; caps: *MA*): mother\n");
}

#[test]
fn lexicon_records_put_primary_first() {
    let mut lexicon = Lexicon::new(vec!["latin", "caps"], 1);
    lexicon.push(LexiconEntry::new(Word::new(&[Phoneme::new("a")]), owned(&["a", "A"]), "one".to_string()));
    assert_eq!(lexicon.header_fields(), owned(&["caps", "word", "latin", "definition"]));
    assert_eq!(lexicon.records(), vec![owned(&["A", "/a/", "a", "one"])]);
}

#[test]
fn lexicon_without_primary_spelling_is_detected() {
    let mut lexicon = Lexicon::new(vec!["latin"], 0);
    lexicon.push(LexiconEntry::new(Word::new(&[Phoneme::new("a")]), owned(&[""]), "one".to_string()));
    assert!(!lexicon.check_spelled_first());
}

#[test]
fn format_names_parse_in_any_case() {
    assert_eq!(Format::parse("Plain").unwrap(), Format::Plain);
    assert_eq!(Format::parse("TERMINAL").unwrap(), Format::Terminal { spans: true });
    assert_eq!(Format::parse("html").unwrap(), Format::HTML { spans: true });
    assert_eq!(Format::parse("csv").unwrap(), Format::CSV);
    assert_eq!(Format::parse("Json").unwrap(), Format::JSON);
    assert_eq!(Format::parse("markdown").unwrap(), Format::Markdown);
    assert_eq!(Format::parse("Fancy").unwrap_err(), "Unknown grid style 'fancy'.");
    let parsed: Format = "csv".parse().unwrap();
    assert_eq!(parsed, Format::CSV);
}

#[test]
fn format_spans_turn_off() {
    assert_eq!(Format::HTML { spans: true }.with_no_spans(), Format::HTML { spans: false });
    assert_eq!(Format::Terminal { spans: true }.with_no_spans(), Format::Terminal { spans: false });
    assert_eq!(Format::CSV.with_no_spans(), Format::CSV);
}

#[test]
fn orthography_indexes_parse() {
    assert_eq!(OrthographyIndex::parse("2").unwrap(), OrthographyIndex::Index(2));
    assert_eq!(OrthographyIndex::parse("all").unwrap(), OrthographyIndex::All);
    assert_eq!(OrthographyIndex::parse("two").unwrap_err(), "two".parse::<usize>().unwrap_err().to_string());
}

#[test]
fn orthographies_are_calculated() {
    let names = ["latin", "runes", "caps"];
    let chosen = OrthographyIndex::calculate_orthographies(&[OrthographyIndex::Index(2), OrthographyIndex::Index(0)], &names).unwrap();
    assert_eq!(chosen, vec![(2, "caps"), (0, "latin")]);
    let all = OrthographyIndex::calculate_orthographies(&[OrthographyIndex::Index(1), OrthographyIndex::All], &names).unwrap();
    assert_eq!(all, vec![(0, "latin"), (1, "runes"), (2, "caps")]);
    let missing = OrthographyIndex::calculate_orthographies(&[OrthographyIndex::Index(0), OrthographyIndex::Index(5), OrthographyIndex::Index(7)], &names);
    assert!(matches!(missing, Err(ElbieError::UnknownOrthography(5))));
}

#[test]
fn word_table_reads_records() {
    let table = WordTable::from_records(owned(&["gloss", "Word", "class"]), vec![owned(&["dog", "/kuna/", "noun"]), owned(&["run", "juk", "verb"])]).unwrap();
    let names: Vec<String> = table.attribute_names().clone();
    assert_eq!(names, owned(&["gloss", "class"]));
    assert_eq!(table.entries().len(), 2);
    assert_eq!(table.entries()[0].word(), "kuna");
    assert_eq!(table.entries()[0].get_attribute(&"class".to_string()).unwrap(), "noun");
    assert_eq!(table.entries()[1].get_attribute(&"gloss".to_string()).unwrap(), "run");
}

#[test]
fn word_table_single_column_holds_words() {
    let table = WordTable::from_records(owned(&["anything"]), vec![owned(&["/ta/"])]).unwrap();
    assert!(table.attribute_names().is_empty());
    assert_eq!(table.entries()[0].word(), "ta");
}

#[test]
fn word_table_errors() {
    let missing = WordTable::from_records(owned(&["gloss", "class"]), vec![]);
    assert_eq!(missing.err().unwrap(), "No 'word field found.");
    let short = WordTable::from_records(owned(&["gloss", "word"]), vec![owned(&["a", "b"]), owned(&["c"])]);
    assert_eq!(short.err().unwrap(), "Missing word field in 1");
}

#[test]
fn word_table_attributes_and_grid() {
    let mut table = WordTable::new();
    table.add_words(&owned(&["pa", "ma"]));
    table.add_attribute("gloss".to_string());
    table.add_attribute("gloss".to_string());
    table.add_attribute("note".to_string());
    assert!(table.has_attribute("gloss"));
    table.remove_attribute("note");
    assert!(!table.has_attribute("note"));
    table.entry_mut(0).set_attribute("gloss".to_string(), "father".to_string());
    table.entry_mut(1).replace_word(Some("gloss".to_string()), "mama".to_string());
    assert_eq!(table.find_attribute(|n: &String| n.starts_with('g')).unwrap(), "gloss");
    assert!(table.check_printable());
    let records = table.into_grid().into_csv();
    assert_eq!(records, vec![owned(&["Word", "gloss"]), owned(&["pa", "father"]), owned(&["mama", "ma"])]);
}

#[test]
fn word_tables_combine() {
    let mut first = WordTable::new();
    first.add_attribute("a".to_string());
    first.add_words(&owned(&["x"]));
    let mut second = WordTable::new();
    second.add_attribute("b".to_string());
    second.add_attribute("a".to_string());
    second.add_words(&owned(&["y"]));
    first.combine_with(second);
    assert_eq!(first.attribute_names().clone(), owned(&["a", "b"]));
    let words: Vec<String> = first.entries().iter().map(|e| e.word().clone()).collect();
    assert_eq!(words, owned(&["x", "y"]));
}

#[test]
fn phoneme_table_builder_checks_axes_options_and_names() {
    let mut tables: Vec<TableEntry> = Vec::new();
    TableBuilder::new("consonants", "Consonants", "consonant")
        .axis(&[("Labial", "labial")]).unwrap()
        .axis(&[("Stop", "stop")]).unwrap()
        .add(&mut tables)
        .unwrap();
    assert_eq!(tables.len(), 1);
    assert_eq!(tables[0].id(), "consonants");
    assert_eq!(tables[0].definition().row_sets().unwrap(), vec!["stop"]);
    let duplicate = TableBuilder::new("consonants", "Again", "consonant").add(&mut tables);
    assert!(matches!(duplicate, Err(ElbieError::DuplicateTableDef(name)) if name == "consonants"));
    let bad_option = TableBuilder::new("vowels", "Vowels", "vowel")
        .axis(&[("Front", "front")]).unwrap()
        .option(TableOption::BlendSubcolumns)
        .add(&mut tables);
    assert!(matches!(bad_option, Err(ElbieError::InvalidOptionForTable(TableOption::BlendSubcolumns))));
    assert_eq!(tables.len(), 1);
    let mut builder = TableBuilder::new("big", "Big", "phoneme");
    for _ in 0..4 {
        builder = builder.axis(&[("A", "a")]).unwrap();
    }
    assert!(matches!(builder.axis(&[("A", "a")]), Err(ElbieError::TooManyAxisses)));
}

#[test]
fn text_helpers() {
    assert_eq!(split_lines("a\r\nb\n\nc"), owned(&["a", "b", "", "c"]));
    assert_eq!(split_lines("a\n"), owned(&["a"]));
    assert_eq!(trim_end("ab \n\t"), "ab");
    assert_eq!(trim_char("//kuna//", '/'), "kuna");
    assert_eq!(Format::parse("ÅBc").unwrap_err(), "Unknown grid style 'åbc'.");
    assert_eq!(decimal_text(0), "0");
    assert_eq!(decimal_text(407), "407");
}

#[test]
fn grid_rendered_columns_blend_by_line() {
    let rendered = vec!["p b\nm w\n".to_string(), "t".to_string()];
    let (_, _, heads, body) = consonant_grid().blend_rendered_columns(rendered).into_parts();
    let head = heads.unwrap().0;
    assert_eq!(head.iter().map(|h| h.colspan).collect::<Vec<usize>>(), vec![1, 1]);
    let cells: Vec<Vec<String>> = body.into_iter().map(|r| r.cells.into_iter().map(|c| c.text).collect()).collect();
    assert_eq!(cells, vec![owned(&["p b", "t"]), owned(&["m w"])]);
}

#[test]
fn spelling_table_layout() {
    let orthographies = vec!["latin"];
    let entries: Vec<(String, Vec<String>)> = ["a", "b", "c"].iter().map(|p| (p.to_string(), vec![p.to_uppercase()])).collect();
    assert!(check_spelling_table(&orthographies, &entries, 2));
    assert!(!check_spelling_table(&orthographies, &entries, 0));
    let four: Vec<(String, Vec<String>)> = ["a", "b", "c", "d"].iter().map(|p| (p.to_string(), vec![p.to_string()])).collect();
    assert!(check_spelling_table(&orthographies, &four, 3));
    let sparse = spelling_grid("Goblin", &orthographies, &four, 3);
    assert_eq!(sparse.into_csv(), vec![
        owned(&["Phoneme", "latin", "Phoneme", "latin", "Phoneme", "latin"]),
        owned(&["a", "a", "c", "c", "", ""]),
        owned(&["b", "b", "d", "d", "", ""]),
    ]);
    let none: Vec<(String, Vec<String>)> = Vec::new();
    assert!(!check_spelling_table(&orthographies, &none, 2));
    let grid = spelling_grid("Goblin", &orthographies, &entries, 2);
    assert_eq!(grid.caption(), "Spelling for Goblin");
    assert_eq!(grid.class(), TableClass::ElbieOrthography);
    assert_eq!(grid.into_csv(), vec![
        owned(&["Phoneme", "latin", "Phoneme", "latin"]),
        owned(&["a", "A", "c", "C"]),
        owned(&["b", "B", "", ""]),
    ]);
}

#[test]
fn format_from_lowercase_name() {
    assert_eq!(Format::from_lowercase_name("json").unwrap(), Format::JSON);
    assert_eq!(Format::from_lowercase_name("JSON").unwrap_err(), "Unknown grid style 'JSON'.");
}

#[test]
fn orthography_index_from_parsed() {
    assert_eq!(OrthographyIndex::from_parsed("7", Ok(7)).unwrap(), OrthographyIndex::Index(7));
    assert_eq!(OrthographyIndex::from_parsed("all", Err("bad".to_string())).unwrap(), OrthographyIndex::All);
    assert_eq!(OrthographyIndex::from_parsed("x", Err("bad".to_string())).unwrap_err(), "bad");
}

#[test]
fn word_table_from_lowered_headers() {
    let table = WordTable::from_lowered_records(owned(&["Gloss", "WORD"]), owned(&["gloss", "word"]), vec![owned(&["sun", "/sol/"])]).unwrap();
    assert_eq!(table.attribute_names().clone(), owned(&["Gloss"]));
    assert_eq!(table.entries()[0].word(), "sol");
    let lowered_only_counts = WordTable::from_lowered_records(owned(&["a", "b"]), owned(&["word", "x"]), vec![owned(&["w", "v"])]).unwrap();
    assert_eq!(lowered_only_counts.entries()[0].word(), "w");
}

fn jtext(text: &str) -> JsonModel {
    JsonModel::Text(text.to_string())
}

fn jobject(fields: Vec<(&str, JsonModel)>) -> JsonModel {
    JsonModel::Object(fields.into_iter().map(|(k, v)| (k.to_string(), v)).collect())
}

fn jrow(header: &str, cells: &[&str]) -> JsonModel {
    jobject(vec![
        ("header", jobject(vec![
            ("type", jtext("row-header")),
            ("rowspan", JsonModel::Number(1)),
            ("text", jtext(header)),
            ("subheader", JsonModel::Null),
        ])),
        ("cells", JsonModel::Array(cells.iter().map(|c| jobject(vec![("type", jtext("cell")), ("text", jtext(c))])).collect())),
    ])
}

#[test]
fn grid_json_lays_out_head_and_body() {
    let expected = jobject(vec![
        ("type", jtext("elbie-grid")),
        ("class", jtext("elbie phonemes")),
        ("head", jobject(vec![
            ("type", jtext("column-head")),
            ("cells", JsonModel::Array(vec![
                jobject(vec![("type", jtext("column-header")), ("colspan", JsonModel::Number(2)), ("text", jtext("labial"))]),
                jobject(vec![("type", jtext("column-header")), ("colspan", JsonModel::Number(1)), ("text", jtext("dental"))]),
            ])),
            ("subhead", JsonModel::Null),
        ])),
        ("body", JsonModel::Array(vec![jrow("stop", &["p", "b", "t"]), jrow("nasal", &["m", "w", "n"])])),
    ]);
    assert_eq!(grid_json(consonant_grid()), expected);
}

#[test]
fn grid_json_spans_and_subheaders() {
    let mut grid = Grid::new(TableClass::ElbieWords, "Words".to_string());
    grid.set_headers(vec![ColumnHeader::new("front".to_string(), 2)]);
    grid.set_subheaders(vec![SubcolumnHeader::new("high".to_string()), SubcolumnHeader::new("low".to_string())]);
    grid.push_body_row(row(Some(RowHeader::row_header_span()), &["y", "ø"]));
    grid.push_body_row(row(Some(RowHeader::new("long".to_string(), 3)), &["i", "e"]));
    let expected = jobject(vec![
        ("type", jtext("elbie-grid")),
        ("class", jtext("elbie generated-words")),
        ("head", jobject(vec![
            ("type", jtext("column-head")),
            ("cells", JsonModel::Array(vec![
                jobject(vec![("type", jtext("column-header")), ("colspan", JsonModel::Number(2)), ("text", jtext("front"))]),
            ])),
            ("subhead", jobject(vec![
                ("type", jtext("subcolumn-head")),
                ("cells", JsonModel::Array(vec![
                    jobject(vec![("type", jtext("column-header")), ("text", jtext("high"))]),
                    jobject(vec![("type", jtext("column-header")), ("text", jtext("low"))]),
                ])),
            ])),
        ])),
        ("body", JsonModel::Array(vec![
            jobject(vec![
                ("header", jobject(vec![("type", jtext("row-header-span")), ("subheader", JsonModel::Null)])),
                ("cells", JsonModel::Array(vec![
                    jobject(vec![("type", jtext("cell")), ("text", jtext("y"))]),
                    jobject(vec![("type", jtext("cell")), ("text", jtext("ø"))]),
                ])),
            ]),
            jobject(vec![
                ("header", jobject(vec![
                    ("type", jtext("row-header")),
                    ("rowspan", JsonModel::Number(3)),
                    ("text", jtext("long")),
                    ("subheader", JsonModel::Null),
                ])),
                ("cells", JsonModel::Array(vec![
                    jobject(vec![("type", jtext("cell")), ("text", jtext("i"))]),
                    jobject(vec![("type", jtext("cell")), ("text", jtext("e"))]),
                ])),
            ]),
        ])),
    ]);
    assert_eq!(grid_json(grid), expected);
}

fn el(tag: HtmlTag, attrs: Vec<HtmlAttr>, children: Vec<HtmlNode>) -> HtmlNode {
    HtmlNode::Element(tag, attrs, children)
}

fn txt(tag: HtmlTag, attrs: Vec<HtmlAttr>, text: &str) -> HtmlNode {
    HtmlNode::Element(tag, attrs, vec![HtmlNode::Text(text.to_string())])
}

fn class(name: &'static str) -> HtmlAttr {
    HtmlAttr::Class(name)
}

fn html_table(class_name: &'static str, caption: &str, head: Vec<HtmlNode>, body: Vec<HtmlNode>) -> HtmlNode {
    el(HtmlTag::Table, vec![class(class_name)], vec![
        txt(HtmlTag::Caption, vec![], caption),
        el(HtmlTag::Thead, vec![], head),
        el(HtmlTag::Tbody, vec![], body),
    ])
}

fn html_body_row(header: HtmlNode, cells: &[&str]) -> HtmlNode {
    let mut children = vec![header];
    children.extend(cells.iter().map(|c| txt(HtmlTag::Td, vec![], c)));
    el(HtmlTag::Tr, vec![class("body-row")], children)
}

#[test]
fn grid_html_with_spans() {
    let expected = html_table("elbie phonemes", "Consonants", vec![
        el(HtmlTag::Tr, vec![class("column-head")], vec![
            el(HtmlTag::Th, vec![], vec![]),
            txt(HtmlTag::Th, vec![class("column-header"), HtmlAttr::Colspan(2)], "labial"),
            txt(HtmlTag::Th, vec![class("column-header")], "dental"),
        ]),
    ], vec![
        html_body_row(txt(HtmlTag::Th, vec![class("row-header")], "stop"), &["p", "b", "t"]),
        html_body_row(txt(HtmlTag::Th, vec![class("row-header")], "nasal"), &["m", "w", "n"]),
    ]);
    assert_eq!(grid_html(consonant_grid(), true), expected);
}

#[test]
fn grid_html_without_spans_fills_empty_cells() {
    let expected = html_table("elbie phonemes", "Consonants", vec![
        el(HtmlTag::Tr, vec![class("column-head")], vec![
            el(HtmlTag::Th, vec![], vec![]),
            txt(HtmlTag::Th, vec![class("column-header")], "labial"),
            el(HtmlTag::Td, vec![], vec![]),
            txt(HtmlTag::Th, vec![class("column-header")], "dental"),
        ]),
    ], vec![
        html_body_row(txt(HtmlTag::Th, vec![class("row-header")], "stop"), &["p", "b", "t"]),
        html_body_row(txt(HtmlTag::Th, vec![class("row-header")], "nasal"), &["m", "w", "n"]),
    ]);
    assert_eq!(grid_html(consonant_grid(), false), expected);
}

fn words_grid() -> Grid {
    let mut grid = Grid::new(TableClass::ElbieWords, "Words".to_string());
    grid.set_headers(vec![ColumnHeader::new("front".to_string(), 2)]);
    grid.set_subheaders(vec![SubcolumnHeader::new("high".to_string()), SubcolumnHeader::new("low".to_string())]);
    grid.push_body_row(row(Some(RowHeader::row_header_span()), &["y", "ø"]));
    grid.push_body_row(row(Some(RowHeader::new("long".to_string(), 3)), &["i", "e"]));
    grid
}

#[test]
fn grid_html_subheaders_and_row_spans() {
    let with_spans = html_table("elbie generated-words", "Words", vec![
        el(HtmlTag::Tr, vec![class("column-head")], vec![
            el(HtmlTag::Th, vec![HtmlAttr::Colspan(2)], vec![]),
            txt(HtmlTag::Th, vec![class("column-header"), HtmlAttr::Colspan(2)], "front"),
        ]),
        el(HtmlTag::Tr, vec![class("subcolumn-head")], vec![
            txt(HtmlTag::Th, vec![class("subcolumn-header")], "high"),
            txt(HtmlTag::Th, vec![class("subcolumn-header")], "low"),
        ]),
    ], vec![
        el(HtmlTag::Tr, vec![class("body-row")], vec![txt(HtmlTag::Td, vec![], "y"), txt(HtmlTag::Td, vec![], "ø")]),
        html_body_row(txt(HtmlTag::Th, vec![class("row-header"), HtmlAttr::Rowspan(3)], "long"), &["i", "e"]),
    ]);
    assert_eq!(grid_html(words_grid(), true), with_spans);
    let without_spans = html_table("elbie generated-words", "Words", vec![
        el(HtmlTag::Tr, vec![class("column-head")], vec![
            el(HtmlTag::Th, vec![], vec![]),
            txt(HtmlTag::Th, vec![class("column-header")], "front"),
            el(HtmlTag::Td, vec![], vec![]),
        ]),
        el(HtmlTag::Tr, vec![class("subcolumn-head")], vec![
            el(HtmlTag::Th, vec![], vec![]),
            txt(HtmlTag::Th, vec![class("subcolumn-header")], "high"),
            txt(HtmlTag::Th, vec![class("subcolumn-header")], "low"),
        ]),
    ], vec![
        html_body_row(el(HtmlTag::Th, vec![], vec![]), &["y", "ø"]),
        html_body_row(txt(HtmlTag::Th, vec![class("row-header")], "long"), &["i", "e"]),
    ]);
    assert_eq!(grid_html(words_grid(), false), without_spans);
}

fn tc(text: &str, hspan: usize, bold: bool) -> TextCell {
    TextCell { text: text.to_string(), hspan, bold }
}

fn plain_row(header: &str, cells: &[&str]) -> Vec<TextCell> {
    let mut row = vec![tc(header, 1, true)];
    row.extend(cells.iter().map(|c| tc(c, 1, false)));
    row
}

#[test]
fn text_layout_with_spans() {
    let expected = TextLayout {
        titles: Some(vec![tc("", 1, false), tc("labial", 2, true), tc("dental", 1, true)]),
        rows: vec![plain_row("stop", &["p", "b", "t"]), plain_row("nasal", &["m", "w", "n"])],
    };
    assert_eq!(text_layout(consonant_grid(), true, &TextStyle::Plain), expected);
}

#[test]
fn text_layout_markdown_without_spans() {
    let expected = TextLayout {
        titles: Some(vec![tc("", 1, false), tc("**labial**", 1, true), tc("", 1, false), tc("**dental**", 1, true)]),
        rows: vec![plain_row("**stop**", &["p", "b", "t"]), plain_row("**nasal**", &["m", "w", "n"])],
    };
    assert_eq!(text_layout(consonant_grid(), false, &TextStyle::Markdown), expected);
}

#[test]
fn text_layout_subheaders_and_spanned_rows() {
    let expected = TextLayout {
        titles: Some(vec![tc("", 1, false), tc("front", 2, true)]),
        rows: vec![
            vec![tc("", 1, false), tc("high", 1, true), tc("low", 1, true)],
            vec![tc("", 1, false), tc("y", 1, false), tc("ø", 1, false)],
            plain_row("long", &["i", "e"]),
        ],
    };
    assert_eq!(text_layout(words_grid(), true, &TextStyle::Terminal), expected);
}
