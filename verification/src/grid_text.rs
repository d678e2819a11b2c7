use vstd::prelude::*;
use vstd::string::StringExecFns;

use crate::grid::rows_view;
use crate::grid::styled;
use crate::grid::CellView;
use crate::grid::ColumnHeader;
use crate::grid::Grid;
use crate::grid::GridRow;
use crate::grid::HeadersView;
use crate::grid::RowHeader;
use crate::grid::RowView;
use crate::grid::SubcolumnHeader;
use crate::grid::TextStyle;
use crate::grid_html::row_offset;

verus! {

/// A cell of a text table: its text, how many columns it spans, and whether it is bold.
#[derive(Debug, PartialEq)]
pub struct TextCell {
    pub text: String,
    pub hspan: usize,
    pub bold: bool,
}

/// A grid laid out as a text table: the title row, if the grid has column headers, and the
/// other rows.
#[derive(Debug, PartialEq)]
pub struct TextLayout {
    pub titles: Option<Vec<TextCell>>,
    pub rows: Vec<Vec<TextCell>>,
}

/// A cell of a text table as plain values: text, span and boldness.
pub type TextCellView = (Seq<char>, usize, bool);

/// Some cells as plain values.
pub open spec fn text_cells_view(cells: Seq<TextCell>) -> Seq<TextCellView> {
    cells.map_values(|c: TextCell| (c.text@, c.hspan, c.bold))
}

/// Some rows as plain values.
pub open spec fn text_rows_view(rows: Seq<Vec<TextCell>>) -> Seq<Seq<TextCellView>> {
    rows.map_values(|r: Vec<TextCell>| text_cells_view(r@))
}

/// An empty cell of one column.
pub open spec fn blank() -> TextCellView {
    (Seq::empty(), 1, false)
}

/// `n` empty cells.
pub open spec fn blanks(n: nat) -> Seq<TextCellView> {
    Seq::new(n, |i: int| blank())
}

/// The empty cell above the row headers, spanning their columns, where there are any.
pub open spec fn corner(offset: nat) -> Seq<TextCellView> {
    if offset > 0 {
        Seq::empty().push((Seq::empty(), offset as usize, false))
    } else {
        Seq::empty()
    }
}

/// The cells of a column header: with spans, one bold cell spanning its columns; without, a
/// bold cell followed by an empty cell for each further column.
pub open spec fn header_text_cells(h: ColumnHeader, with_spans: bool, style: TextStyle) -> Seq<TextCellView> {
    if with_spans && h.colspan > 1 {
        Seq::empty().push((styled(style, h.text@), h.colspan, true))
    } else {
        Seq::empty().push((styled(style, h.text@), 1usize, true)) + blanks(
            if h.colspan > 1 {
                (h.colspan - 1) as nat
            } else {
                0
            },
        )
    }
}

/// The cells of the column headers, in order.
pub open spec fn headers_text_cells(head: Seq<ColumnHeader>, with_spans: bool, style: TextStyle) -> Seq<
    TextCellView,
>
    decreases head.len(),
{
    if head.len() == 0 {
        Seq::empty()
    } else {
        headers_text_cells(head.drop_last(), with_spans, style) + header_text_cells(head.last(), with_spans, style)
    }
}

/// The row of subcolumn headers: the corner, then a bold cell for each.
pub open spec fn subhead_text_row(sub: Seq<SubcolumnHeader>, offset: nat, style: TextStyle) -> Seq<TextCellView> {
    corner(offset) + sub.map_values(|h: SubcolumnHeader| (styled(style, h.text@), 1usize, true))
}

/// The header cells of a body row: a bold row header (empty where a header above spans into
/// the row) and a bold subrow header.
pub open spec fn row_header_text_cells(headers: HeadersView, style: TextStyle) -> Seq<TextCellView> {
    match headers {
        None => Seq::empty(),
        Some((header, sub)) => (match header {
            Some((text, _)) => Seq::empty().push((styled(style, text), 1usize, true)),
            None => Seq::empty().push(blank()),
        }) + (match sub {
            Some(text) => Seq::empty().push((styled(style, text), 1usize, true)),
            None => Seq::empty(),
        }),
    }
}

/// A body row: its header cells, then a plain cell for each of its cells.
pub open spec fn body_text_row(row: RowView, style: TextStyle) -> Seq<TextCellView> {
    row_header_text_cells(row.1, style) + row.2.map_values(|c: CellView| (c.0, 1usize, false))
}

/// The title row: the corner above the row headers, then the column headers.
pub open spec fn title_text_row(head: Seq<ColumnHeader>, offset: nat, with_spans: bool, style: TextStyle) -> Seq<
    TextCellView,
> {
    corner(offset) + headers_text_cells(head, with_spans, style)
}

/// The rows after the titles: the subcolumn headers where there are any, then the body rows.
pub open spec fn text_rows(
    heads: Option<(Seq<ColumnHeader>, Option<Seq<SubcolumnHeader>>)>,
    rows: Seq<RowView>,
    style: TextStyle,
) -> Seq<Seq<TextCellView>> {
    (match heads {
        Some((_, Some(sub))) => Seq::empty().push(subhead_text_row(sub, row_offset(rows), style)),
        _ => Seq::empty(),
    }) + rows.map_values(|r: RowView| body_text_row(r, style))
}

/// The title row, where the grid has column headers.
pub open spec fn text_titles(
    heads: Option<(Seq<ColumnHeader>, Option<Seq<SubcolumnHeader>>)>,
    rows: Seq<RowView>,
    with_spans: bool,
    style: TextStyle,
) -> Option<Seq<TextCellView>> {
    match heads {
        Some((head, _)) => Some(title_text_row(head, row_offset(rows), with_spans, style)),
        None => None,
    }
}

proof fn lemma_cells_push(a: Seq<TextCell>, c: TextCell)
    ensures
        text_cells_view(a.push(c)) == text_cells_view(a).push((c.text@, c.hspan, c.bold)),
{
    assert(text_cells_view(a.push(c)) =~= text_cells_view(a).push((c.text@, c.hspan, c.bold)));
}

/// Pushes a cell.
fn push_cell(cells: &mut Vec<TextCell>, text: String, hspan: usize, bold: bool)
    ensures
        text_cells_view(final(cells)@) == text_cells_view(old(cells)@).push((text@, hspan, bold)),
{
    let ghost before = cells@;
    let c = TextCell { text, hspan, bold };
    cells.push(c);
    proof {
        lemma_cells_push(before, c);
    }
}

/// Pushes `n` empty cells.
fn push_blanks(cells: &mut Vec<TextCell>, n: usize)
    ensures
        text_cells_view(final(cells)@) == text_cells_view(old(cells)@) + blanks(n as nat),
{
    let ghost start = text_cells_view(cells@);
    let mut k: usize = 0;
    while k < n
        invariant
            k <= n,
            text_cells_view(cells@) == start + blanks(k as nat),
        decreases n - k,
    {
        push_cell(cells, String::new(), 1, false);
        proof {
            assert(start + blanks((k + 1) as nat) =~= (start + blanks(k as nat)).push(blank()));
        }
        k = k + 1;
    }
}

/// Starts a row with the corner.
fn corner_cells(offset: usize) -> (r: Vec<TextCell>)
    ensures
        text_cells_view(r@) == corner(offset as nat),
{
    let mut r: Vec<TextCell> = Vec::new();
    proof {
        assert(text_cells_view(r@) =~= Seq::empty());
    }
    if offset > 0 {
        push_cell(&mut r, String::new(), offset, false);
        proof {
            assert(text_cells_view(r@) =~= corner(offset as nat));
        }
    }
    r
}

fn title_cells(head: &Vec<ColumnHeader>, offset: usize, with_spans: bool, style: &TextStyle) -> (r: Vec<TextCell>)
    ensures
        text_cells_view(r@) == title_text_row(head@, offset as nat, with_spans, *style),
{
    let mut r = corner_cells(offset);
    let ghost start = text_cells_view(r@);
    let mut i: usize = 0;
    while i < head.len()
        invariant
            i <= head@.len(),
            start == corner(offset as nat),
            text_cells_view(r@) == start + headers_text_cells(head@.take(i as int), with_spans, *style),
        decreases head@.len() - i,
    {
        let h = &head[i];
        let ghost before = text_cells_view(r@);
        let text = style.column_header(h.text.as_str());
        if with_spans && h.colspan > 1 {
            push_cell(&mut r, text, h.colspan, true);
            proof {
                assert(before.push((styled(*style, h.text@), h.colspan, true)) =~= before + header_text_cells(
                    *h,
                    with_spans,
                    *style,
                ));
            }
        } else {
            push_cell(&mut r, text, 1, true);
            let extra: usize = if h.colspan > 1 {
                h.colspan - 1
            } else {
                0
            };
            push_blanks(&mut r, extra);
            proof {
                assert(before.push((styled(*style, h.text@), 1usize, true)) + blanks(extra as nat) =~= before
                    + header_text_cells(*h, with_spans, *style));
            }
        }
        proof {
            assert(head@.take(i + 1).drop_last() =~= head@.take(i as int));
            assert(head@.take(i + 1).last() == head@[i as int]);
            assert(start + headers_text_cells(head@.take(i + 1), with_spans, *style) =~= before + header_text_cells(
                head@[i as int],
                with_spans,
                *style,
            ));
        }
        i = i + 1;
    }
    proof {
        assert(head@.take(head@.len() as int) =~= head@);
    }
    r
}

fn subhead_cells(sub: &Vec<SubcolumnHeader>, offset: usize, style: &TextStyle) -> (r: Vec<TextCell>)
    ensures
        text_cells_view(r@) == subhead_text_row(sub@, offset as nat, *style),
{
    let mut r = corner_cells(offset);
    let ghost start = text_cells_view(r@);
    let ghost expected = sub@.map_values(|h: SubcolumnHeader| (styled(*style, h.text@), 1usize, true));
    let mut i: usize = 0;
    while i < sub.len()
        invariant
            i <= sub@.len(),
            start == corner(offset as nat),
            expected == sub@.map_values(|h: SubcolumnHeader| (styled(*style, h.text@), 1usize, true)),
            text_cells_view(r@) == start + expected.take(i as int),
        decreases sub@.len() - i,
    {
        let text = style.column_header(sub[i].text.as_str());
        push_cell(&mut r, text, 1, true);
        proof {
            assert(start + expected.take(i + 1) =~= (start + expected.take(i as int)).push(expected[i as int]));
        }
        i = i + 1;
    }
    proof {
        assert(expected.take(sub@.len() as int) =~= expected);
    }
    r
}

fn body_cells(row: &GridRow, style: &TextStyle) -> (r: Vec<TextCell>)
    ensures
        text_cells_view(r@) == body_text_row(crate::grid::row_view(*row), *style),
{
    let mut r: Vec<TextCell> = Vec::new();
    proof {
        assert(text_cells_view(r@) =~= Seq::empty());
    }
    match &row.headers {
        None => {},
        Some((header, sub)) => {
            match header {
                RowHeader::RowHeader { text, rowspan: _ } => {
                    push_cell(&mut r, style.row_header(text.as_str()), 1, true);
                },
                RowHeader::RowHeaderSpan => {
                    push_cell(&mut r, String::new(), 1, false);
                },
            }
            let ghost first = text_cells_view(r@);
            match sub {
                Some(s) => {
                    push_cell(&mut r, style.row_header(s.text.as_str()), 1, true);
                },
                None => {
                    proof {
                        assert(first + Seq::<TextCellView>::empty() =~= first);
                    }
                },
            }
        },
    }
    let ghost headers = row_header_text_cells(crate::grid::headers_view(row.headers), *style);
    assert(text_cells_view(r@) =~= headers);
    let ghost expected = crate::grid::row_view(*row).2.map_values(|c: CellView| (c.0, 1usize, false));
    let mut i: usize = 0;
    while i < row.cells.len()
        invariant
            i <= row.cells@.len(),
            expected == crate::grid::row_view(*row).2.map_values(|c: CellView| (c.0, 1usize, false)),
            text_cells_view(r@) == headers + expected.take(i as int),
        decreases row.cells@.len() - i,
    {
        push_cell(&mut r, row.cells[i].text.clone(), 1, false);
        proof {
            assert(expected[i as int] == (row.cells@[i as int].text@, 1usize, false));
            assert(headers + expected.take(i + 1) =~= (headers + expected.take(i as int)).push(expected[i as int]));
        }
        i = i + 1;
    }
    proof {
        assert(expected.take(row.cells@.len() as int) =~= expected);
    }
    r
}

/// The grid laid out as a text table, as `text_titles` and `text_rows` say: the title row of
/// column headers after an empty corner cell over the row header columns, the subcolumn
/// headers, and the body rows. Headers are bold and styled; with `with_spans`, a column header
/// spans its columns, and without, empty cells follow it.
pub fn text_layout(grid: Grid, with_spans: bool, style: &TextStyle) -> (r: TextLayout)
    ensures
        match r.titles {
            Some(t) => text_titles(grid.heads_view(), rows_view(grid.rows()), with_spans, *style) == Some(
                text_cells_view(t@),
            ),
            None => text_titles(grid.heads_view(), rows_view(grid.rows()), with_spans, *style) is None,
        },
        text_rows_view(r.rows@) == text_rows(grid.heads_view(), rows_view(grid.rows()), *style),
{
    let (_, _, heads, body) = grid.into_parts();
    let offset: usize = if body.len() == 0 {
        0
    } else {
        body[0].headers_len()
    };
    assert(offset == row_offset(rows_view(body@)));
    let mut rows: Vec<Vec<TextCell>> = Vec::new();
    proof {
        assert(text_rows_view(rows@) =~= Seq::empty());
    }
    let titles = match &heads {
        None => None,
        Some((head, sub)) => {
            let t = title_cells(head, offset, with_spans, style);
            match sub {
                Some(sub) => {
                    let cells = subhead_cells(sub, offset, style);
                    rows.push(cells);
                    proof {
                        assert(text_rows_view(rows@) =~= Seq::empty().push(subhead_text_row(sub@, offset as nat, *style)));
                    }
                },
                None => {},
            }
            Some(t)
        },
    };
    let ghost heads_view = match heads {
        Some((head, Some(sub))) => Some((head@, Some(sub@))),
        Some((head, None)) => Some((head@, None)),
        None => None,
    };
    let ghost lead = text_rows_view(rows@);
    assert(lead == match heads_view {
        Some((_, Some(sub))) => Seq::empty().push(subhead_text_row(sub, offset as nat, *style)),
        _ => Seq::<Seq<TextCellView>>::empty(),
    });
    let ghost expected = rows_view(body@).map_values(|r: RowView| body_text_row(r, *style));
    let mut i: usize = 0;
    while i < body.len()
        invariant
            i <= body@.len(),
            expected == rows_view(body@).map_values(|r: RowView| body_text_row(r, *style)),
            text_rows_view(rows@) == lead + expected.take(i as int),
        decreases body@.len() - i,
    {
        let ghost before = rows@;
        let cells = body_cells(&body[i], style);
        rows.push(cells);
        proof {
            assert(text_rows_view(before.push(cells)) =~= text_rows_view(before).push(text_cells_view(cells@)));
            assert(lead + expected.take(i + 1) =~= (lead + expected.take(i as int)).push(expected[i as int]));
        }
        i = i + 1;
    }
    proof {
        assert(expected.take(body@.len() as int) =~= expected);
    }
    TextLayout { titles, rows }
}

} // verus!
