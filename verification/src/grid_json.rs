use vstd::prelude::*;
use vstd::string::StringExecFns;

use crate::grid::rows_view;
use crate::grid::Cell;
use crate::grid::CellView;
use crate::grid::ColumnHeader;
use crate::grid::Grid;
use crate::grid::GridRow;
use crate::grid::HeadersView;
use crate::grid::RowHeader;
use crate::grid::RowView;
use crate::grid::SubcolumnHeader;
use crate::grid::TableClass;

verus! {

/// A JSON value.
#[derive(Debug, PartialEq)]
pub enum JsonModel {
    Null,
    Number(usize),
    Text(String),
    Array(Vec<JsonModel>),
    Object(Vec<(String, JsonModel)>),
}

/// A JSON value as plain values.
pub enum JsonView {
    Null,
    Number(nat),
    Text(Seq<char>),
    Array(Seq<JsonView>),
    Object(Seq<(Seq<char>, JsonView)>),
}

/// A JSON value as plain values.
pub open spec fn json_view(value: JsonModel) -> JsonView
    decreases value,
{
    match value {
        JsonModel::Null => JsonView::Null,
        JsonModel::Number(n) => JsonView::Number(n as nat),
        JsonModel::Text(t) => JsonView::Text(t@),
        JsonModel::Array(items) => JsonView::Array(
            Seq::new(
                items@.len(),
                |i: int|
                    if 0 <= i < items@.len() {
                        json_view(items@[i])
                    } else {
                        JsonView::Null
                    },
            ),
        ),
        JsonModel::Object(fields) => JsonView::Object(
            Seq::new(
                fields@.len(),
                |i: int|
                    if 0 <= i < fields@.len() {
                        (fields@[i].0@, json_view(fields@[i].1))
                    } else {
                        (Seq::empty(), JsonView::Null)
                    },
            ),
        ),
    }
}

/// A JSON text value.
pub open spec fn jtext(text: Seq<char>) -> JsonView {
    JsonView::Text(text)
}

/// The HTML class name of a kind of table.
pub open spec fn table_class_text(class: TableClass) -> Seq<char> {
    match class {
        TableClass::ElbiePhonemes => "elbie phonemes"@,
        TableClass::ElbieWords => "elbie generated-words"@,
        TableClass::ElbieOrthography => "elbie orthography"@,
        TableClass::ElbieLexicon => "elbie lexicon"@,
    }
}

/// A column header in JSON.
pub open spec fn column_header_json(h: ColumnHeader) -> JsonView {
    JsonView::Object(
        Seq::empty().push(("type"@, jtext("column-header"@))).push(("colspan"@, JsonView::Number(h.colspan as nat))).push(("text"@, jtext(h.text@))),
    )
}

/// A subcolumn header in JSON.
pub open spec fn subcolumn_header_json(h: SubcolumnHeader) -> JsonView {
    JsonView::Object(Seq::empty().push(("type"@, jtext("column-header"@))).push(("text"@, jtext(h.text@))))
}

/// The column and subcolumn headers of a grid in JSON.
pub open spec fn heads_json(heads: Option<(Seq<ColumnHeader>, Option<Seq<SubcolumnHeader>>)>) -> JsonView {
    match heads {
        None => JsonView::Null,
        Some((head, sub)) => JsonView::Object(
            Seq::empty().push(("type"@, jtext("column-head"@))).push(("cells"@, JsonView::Array(head.map_values(|h: ColumnHeader| column_header_json(h))))).push((
                    "subhead"@,
                    match sub {
                        None => JsonView::Null,
                        Some(sub) => JsonView::Object(
                            Seq::empty().push(("type"@, jtext("subcolumn-head"@))).push(("cells"@, JsonView::Array(sub.map_values(|h: SubcolumnHeader| subcolumn_header_json(h))))),
                        ),
                    },
                )),
        ),
    }
}

/// The headers of a body row in JSON.
pub open spec fn row_headers_json(headers: HeadersView) -> JsonView {
    match headers {
        None => JsonView::Null,
        Some((header, sub)) => {
            let subheader = match sub {
                Some(text) => JsonView::Object(Seq::empty().push(("type"@, jtext("row-header"@))).push(("text"@, jtext(text)))),
                None => JsonView::Null,
            };
            JsonView::Object(
                match header {
                    Some((text, rowspan)) => Seq::empty().push(("type"@, jtext("row-header"@))).push(("rowspan"@, JsonView::Number(rowspan as nat))).push(("text"@, jtext(text))).push(("subheader"@, subheader)),
                    None => Seq::empty().push(("type"@, jtext("row-header-span"@))).push(("subheader"@, subheader)),
                },
            )
        },
    }
}

/// A body cell in JSON.
pub open spec fn cell_json(cell: CellView) -> JsonView {
    JsonView::Object(Seq::empty().push(("type"@, jtext("cell"@))).push(("text"@, jtext(cell.0))))
}

/// A body row in JSON.
pub open spec fn row_json(row: RowView) -> JsonView {
    JsonView::Object(
        Seq::empty().push(("header"@, row_headers_json(row.1))).push(("cells"@, JsonView::Array(row.2.map_values(|c: CellView| cell_json(c))))),
    )
}

/// A grid in JSON: its type, class, headers and body rows.
pub open spec fn grid_json_view(
    class: TableClass,
    heads: Option<(Seq<ColumnHeader>, Option<Seq<SubcolumnHeader>>)>,
    rows: Seq<RowView>,
) -> JsonView {
    JsonView::Object(
        Seq::empty().push(("type"@, jtext("elbie-grid"@))).push(("class"@, jtext(table_class_text(class)))).push(("head"@, heads_json(heads))).push(("body"@, JsonView::Array(rows.map_values(|r: RowView| row_json(r))))),
    )
}

/// A text value.
fn text_value(text: &str) -> (r: JsonModel)
    ensures
        json_view(r) == jtext(text@),
{
    JsonModel::Text(String::from_str(text))
}

/// A JSON object of the given fields, in order.
fn object(fields: Vec<(String, JsonModel)>, Ghost(expected): Ghost<Seq<(Seq<char>, JsonView)>>) -> (r: JsonModel)
    requires
        fields@.len() == expected.len(),
        forall|i: int| 0 <= i < fields@.len() ==> (#[trigger] fields@[i]).0@ == expected[i].0 && json_view(
            fields@[i].1,
        ) == expected[i].1,
    ensures
        json_view(r) == JsonView::Object(expected),
{
    let r = JsonModel::Object(fields);
    proof {
        if let JsonView::Object(v) = json_view(r) {
            assert(v =~= expected);
        }
    }
    r
}

/// A JSON array of the given items, in order.
fn array(items: Vec<JsonModel>, Ghost(expected): Ghost<Seq<JsonView>>) -> (r: JsonModel)
    requires
        items@.len() == expected.len(),
        forall|i: int| 0 <= i < items@.len() ==> json_view(#[trigger] items@[i]) == expected[i],
    ensures
        json_view(r) == JsonView::Array(expected),
{
    let r = JsonModel::Array(items);
    proof {
        if let JsonView::Array(v) = json_view(r) {
            assert(v =~= expected);
        }
    }
    r
}

fn heads_value(heads: &Option<(Vec<ColumnHeader>, Option<Vec<SubcolumnHeader>>)>) -> (r: JsonModel)
    ensures
        json_view(r) == heads_json(
            match *heads {
                Some((head, Some(sub))) => Some((head@, Some(sub@))),
                Some((head, None)) => Some((head@, None)),
                None => None,
            },
        ),
{
    match heads {
        None => JsonModel::Null,
        Some((head, sub)) => {
            let mut cells: Vec<JsonModel> = Vec::new();
            let ghost expected = head@.map_values(|h: ColumnHeader| column_header_json(h));
            let mut i: usize = 0;
            while i < head.len()
                invariant
                    i <= head@.len(),
                    expected == head@.map_values(|h: ColumnHeader| column_header_json(h)),
                    cells@.len() == i,
                    forall|k: int| 0 <= k < i ==> json_view(#[trigger] cells@[k]) == expected[k],
                decreases head@.len() - i,
            {
                let h = &head[i];
                let fields = vec![
                    (String::from_str("type"), text_value("column-header")),
                    (String::from_str("colspan"), JsonModel::Number(h.colspan)),
                    (String::from_str("text"), JsonModel::Text(h.text.clone())),
                ];
                cells.push(object(fields, Ghost(column_header_json(*h)->Object_0)));
                i = i + 1;
            }
            let subhead = match sub {
                None => JsonModel::Null,
                Some(sub) => {
                    let mut subcells: Vec<JsonModel> = Vec::new();
                    let ghost sub_expected = sub@.map_values(|h: SubcolumnHeader| subcolumn_header_json(h));
                    let mut j: usize = 0;
                    while j < sub.len()
                        invariant
                            j <= sub@.len(),
                            sub_expected == sub@.map_values(|h: SubcolumnHeader| subcolumn_header_json(h)),
                            subcells@.len() == j,
                            forall|k: int| 0 <= k < j ==> json_view(#[trigger] subcells@[k]) == sub_expected[k],
                        decreases sub@.len() - j,
                    {
                        let h = &sub[j];
                        let fields = vec![
                            (String::from_str("type"), text_value("column-header")),
                            (String::from_str("text"), JsonModel::Text(h.text.clone())),
                        ];
                        subcells.push(object(fields, Ghost(subcolumn_header_json(*h)->Object_0)));
                        j = j + 1;
                    }
                    let sub_array = array(subcells, Ghost(sub_expected));
                    let fields = vec![
                        (String::from_str("type"), text_value("subcolumn-head")),
                        (String::from_str("cells"), sub_array),
                    ];
                    object(
                        fields,
                        Ghost(Seq::empty().push(("type"@, jtext("subcolumn-head"@))).push(("cells"@, JsonView::Array(sub_expected)))),
                    )
                },
            };
            let ghost subview = json_view(subhead);
            assert(subview == match sub {
                None => JsonView::Null,
                Some(sub) => JsonView::Object(
                    Seq::empty().push(("type"@, jtext("subcolumn-head"@))).push(("cells"@, JsonView::Array(sub@.map_values(|h: SubcolumnHeader| subcolumn_header_json(h))))),
                ),
            });
            let cell_array = array(cells, Ghost(expected));
            let fields = vec![
                (String::from_str("type"), text_value("column-head")),
                (String::from_str("cells"), cell_array),
                (String::from_str("subhead"), subhead),
            ];
            object(
                fields,
                Ghost(Seq::empty().push(("type"@, jtext("column-head"@))).push(("cells"@, JsonView::Array(expected))).push(("subhead"@, subview))),
            )
        },
    }
}

fn row_value(row: &GridRow) -> (r: JsonModel)
    ensures
        json_view(r) == row_json(crate::grid::row_view(*row)),
{
    let header = match &row.headers {
        None => JsonModel::Null,
        Some((header, sub)) => {
            let subheader = match sub {
                Some(s) => object(
                    vec![
                        (String::from_str("type"), text_value("row-header")),
                        (String::from_str("text"), JsonModel::Text(s.text.clone())),
                    ],
                    Ghost(Seq::empty().push(("type"@, jtext("row-header"@))).push(("text"@, jtext(s.text@)))),
                ),
                None => JsonModel::Null,
            };
            let ghost subview = json_view(subheader);
            match header {
                RowHeader::RowHeader { text, rowspan } => {
                    let r = object(
                        vec![
                            (String::from_str("type"), text_value("row-header")),
                            (String::from_str("rowspan"), JsonModel::Number(*rowspan)),
                            (String::from_str("text"), JsonModel::Text(text.clone())),
                            (String::from_str("subheader"), subheader),
                        ],
                        Ghost(Seq::empty().push(("type"@, jtext("row-header"@))).push(("rowspan"@, JsonView::Number(*rowspan as nat))).push(("text"@, jtext(text@))).push(("subheader"@, subview))),
                    );
                    r
                },
                RowHeader::RowHeaderSpan => {
                    let r = object(
                        vec![
                            (String::from_str("type"), text_value("row-header-span")),
                            (String::from_str("subheader"), subheader),
                        ],
                        Ghost(Seq::empty().push(("type"@, jtext("row-header-span"@))).push(("subheader"@, subview))),
                    );
                    r
                },
            }
        },
    };
    assert(json_view(header) == row_headers_json(crate::grid::headers_view(row.headers)));
    let mut cells: Vec<JsonModel> = Vec::new();
    let ghost expected = row.cells@.map_values(|c: Cell| crate::grid::cell_view(c)).map_values(|c: CellView| cell_json(c));
    let mut i: usize = 0;
    while i < row.cells.len()
        invariant
            i <= row.cells@.len(),
            expected == row.cells@.map_values(|c: Cell| crate::grid::cell_view(c)).map_values(|c: CellView| cell_json(c)),
            cells@.len() == i,
            forall|k: int| 0 <= k < i ==> json_view(#[trigger] cells@[k]) == expected[k],
        decreases row.cells@.len() - i,
    {
        let c = &row.cells[i];
        assert(expected[i as int] == cell_json(crate::grid::cell_view(row.cells@[i as int])));
        cells.push(
            object(
                vec![
                    (String::from_str("type"), text_value("cell")),
                    (String::from_str("text"), JsonModel::Text(c.text.clone())),
                ],
                Ghost(Seq::empty().push(("type"@, jtext("cell"@))).push(("text"@, jtext(c.text@)))),
            ),
        );
        i = i + 1;
    }
    let ghost header_view = json_view(header);
    let cell_array = array(cells, Ghost(expected));
    object(
        vec![(String::from_str("header"), header), (String::from_str("cells"), cell_array)],
        Ghost(Seq::empty().push(("header"@, header_view)).push(("cells"@, JsonView::Array(expected)))),
    )
}

/// The grid as JSON, as `grid_json_view` says: an object of type `elbie-grid` with its class,
/// its column and subcolumn headers, and its body rows with their headers and cells.
pub fn grid_json(grid: Grid) -> (r: JsonModel)
    ensures
        json_view(r) == grid_json_view(grid.class_view(), grid.heads_view(), rows_view(grid.rows())),
{
    let (class, _, heads, body) = grid.into_parts();
    let head = heads_value(&heads);
    let mut rows: Vec<JsonModel> = Vec::new();
    let ghost expected = rows_view(body@).map_values(|r: RowView| row_json(r));
    let mut i: usize = 0;
    while i < body.len()
        invariant
            i <= body@.len(),
            expected == rows_view(body@).map_values(|r: RowView| row_json(r)),
            rows@.len() == i,
            forall|k: int| 0 <= k < i ==> json_view(#[trigger] rows@[k]) == expected[k],
        decreases body@.len() - i,
    {
        rows.push(row_value(&body[i]));
        i = i + 1;
    }
    let ghost head_view = json_view(head);
    let row_array = array(rows, Ghost(expected));
    object(
        vec![
            (String::from_str("type"), text_value("elbie-grid")),
            (String::from_str("class"), text_value(class.class_name())),
            (String::from_str("head"), head),
            (String::from_str("body"), row_array),
        ],
        Ghost(Seq::empty().push(("type"@, jtext("elbie-grid"@))).push(("class"@, jtext(table_class_text(class)))).push(("head"@, head_view)).push(("body"@, JsonView::Array(expected)))),
    )
}

} // verus!
