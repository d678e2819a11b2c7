use vstd::prelude::*;

use crate::grid::rows_view;
use crate::grid::Cell;
use crate::grid::CellView;
use crate::grid::ColumnHeader;
use crate::grid::Grid;
use crate::grid::GridRow;
use crate::grid::HeadersView;
use crate::grid::RowHeader;
use crate::grid::RowView;
use crate::grid::SubcolumnHeader;
use crate::grid::TDClass;
use crate::grid::THColumnClass;
use crate::grid::THRowClass;
use crate::grid::TRBodyClass;
use crate::grid::TRHeadClass;
use crate::grid::TableClass;

verus! {

/// The elements that a grid's HTML table is made of.
#[derive(Debug, Clone, Copy, PartialEq, Eq, Structural)]
pub enum HtmlTag {
    Table,
    Caption,
    Thead,
    Tbody,
    Tr,
    Th,
    Td,
}

/// An attribute of an element: its class, or how many columns or rows it spans.
#[derive(Debug, Clone, Copy, PartialEq, Eq)]
pub enum HtmlAttr {
    Class(&'static str),
    Colspan(usize),
    Rowspan(usize),
}

/// An HTML element with its attributes and children, or text.
#[derive(Debug, PartialEq)]
pub enum HtmlNode {
    Element(HtmlTag, Vec<HtmlAttr>, Vec<HtmlNode>),
    Text(String),
}

/// An HTML tree as plain values.
pub enum HtmlView {
    Element(HtmlTag, Seq<HtmlAttr>, Seq<HtmlView>),
    Text(Seq<char>),
}

/// An HTML tree as plain values.
pub open spec fn html_view(node: HtmlNode) -> HtmlView
    decreases node,
{
    match node {
        HtmlNode::Element(tag, attrs, children) => HtmlView::Element(
            tag,
            attrs@,
            Seq::new(
                children@.len(),
                |i: int|
                    if 0 <= i < children@.len() {
                        html_view(children@[i])
                    } else {
                        HtmlView::Text(Seq::empty())
                    },
            ),
        ),
        HtmlNode::Text(text) => HtmlView::Text(text@),
    }
}

/// Some nodes as plain values.
pub open spec fn nodes_view(nodes: Seq<HtmlNode>) -> Seq<HtmlView> {
    nodes.map_values(|n: HtmlNode| html_view(n))
}

/// An element with one attribute list and text inside.
pub open spec fn text_cell(tag: HtmlTag, attrs: Seq<HtmlAttr>, text: Seq<char>) -> HtmlView {
    HtmlView::Element(tag, attrs, Seq::empty().push(HtmlView::Text(text)))
}

/// An element with no attributes and nothing inside.
pub open spec fn empty_cell(tag: HtmlTag) -> HtmlView {
    HtmlView::Element(tag, Seq::empty(), Seq::empty())
}

/// `n` copies of a node.
pub open spec fn repeat(node: HtmlView, n: nat) -> Seq<HtmlView> {
    Seq::new(n, |i: int| node)
}

/// The class name of a kind of table.
pub open spec fn table_class_name(class: TableClass) -> &'static str {
    match class {
        TableClass::ElbiePhonemes => "elbie phonemes",
        TableClass::ElbieWords => "elbie generated-words",
        TableClass::ElbieOrthography => "elbie orthography",
        TableClass::ElbieLexicon => "elbie lexicon",
    }
}

/// The class name of a kind of body row.
pub open spec fn body_row_class_name(class: TRBodyClass) -> &'static str {
    match class {
        TRBodyClass::BodyRow => "body-row",
        TRBodyClass::BodyRowGroupStart => "body-row row-group-start",
        TRBodyClass::BodyRowGroupMiddle => "body-row row-group-middle",
        TRBodyClass::BodyRowGroupEnd => "body-row row-group-end",
    }
}

/// The class name of a body cell's place in a column group.
pub open spec fn cell_class_name(class: TDClass) -> &'static str {
    match class {
        TDClass::ColumnGroupStart => "column-group-start",
        TDClass::ColumnGroupMiddle => "column-group-middle",
        TDClass::ColumnGroupEnd => "column-group-end",
    }
}

/// The cells of one column header: with spans, one header cell spanning its columns; without,
/// a header cell followed by an empty cell for each further column.
pub open spec fn column_header_cells(h: ColumnHeader, with_span: bool) -> Seq<HtmlView> {
    let class = Seq::empty().push(HtmlAttr::Class("column-header"));
    if with_span {
        Seq::empty().push(
            text_cell(
                HtmlTag::Th,
                if h.colspan > 1 {
                    class.push(HtmlAttr::Colspan(h.colspan))
                } else {
                    class
                },
                h.text@,
            ),
        )
    } else {
        Seq::empty().push(text_cell(HtmlTag::Th, class, h.text@)) + repeat(
            empty_cell(HtmlTag::Td),
            if h.colspan > 1 {
                (h.colspan - 1) as nat
            } else {
                0
            },
        )
    }
}

/// The cells of the column headers, in order.
pub open spec fn column_headers_cells(head: Seq<ColumnHeader>, with_span: bool) -> Seq<HtmlView>
    decreases head.len(),
{
    if head.len() == 0 {
        Seq::empty()
    } else {
        column_headers_cells(head.drop_last(), with_span) + column_header_cells(head.last(), with_span)
    }
}

/// The cells above the row headers in the first header row: with spans, one cell spanning the
/// header rows and the row header columns; without, an empty cell for each row header column.
pub open spec fn corner_cells(row_offset: nat, column_offset: nat, with_span: bool) -> Seq<HtmlView> {
    if with_span {
        if row_offset > 0 {
            let colspan: Seq<HtmlAttr> = if column_offset > 1 {
                Seq::empty().push(HtmlAttr::Colspan(column_offset as usize))
            } else {
                Seq::empty()
            };
            let attrs = if row_offset > 1 {
                colspan.push(HtmlAttr::Rowspan(row_offset as usize))
            } else {
                colspan
            };
            Seq::empty().push(HtmlView::Element(HtmlTag::Th, attrs, Seq::empty()))
        } else {
            Seq::empty()
        }
    } else {
        repeat(empty_cell(HtmlTag::Th), row_offset)
    }
}

/// The row of column headers.
pub open spec fn head_row(head: Seq<ColumnHeader>, row_offset: nat, column_offset: nat, with_span: bool) -> HtmlView {
    HtmlView::Element(
        HtmlTag::Tr,
        Seq::empty().push(HtmlAttr::Class("column-head")),
        corner_cells(row_offset, column_offset, with_span) + column_headers_cells(head, with_span),
    )
}

/// A subcolumn header cell.
pub open spec fn subcolumn_header_cell(h: SubcolumnHeader) -> HtmlView {
    text_cell(HtmlTag::Th, Seq::empty().push(HtmlAttr::Class("subcolumn-header")), h.text@)
}

/// The row of subcolumn headers: without spans, it starts with an empty cell for each row header
/// column.
pub open spec fn subhead_row(sub: Seq<SubcolumnHeader>, row_offset: nat, with_span: bool) -> HtmlView {
    HtmlView::Element(
        HtmlTag::Tr,
        Seq::empty().push(HtmlAttr::Class("subcolumn-head")),
        (if with_span {
            Seq::empty()
        } else {
            repeat(empty_cell(HtmlTag::Th), row_offset)
        }) + sub.map_values(|h: SubcolumnHeader| subcolumn_header_cell(h)),
    )
}

/// The header rows of the table.
pub open spec fn head_rows(
    heads: Option<(Seq<ColumnHeader>, Option<Seq<SubcolumnHeader>>)>,
    row_offset: nat,
    with_span: bool,
) -> Seq<HtmlView> {
    match heads {
        None => Seq::empty(),
        Some((head, None)) => Seq::empty().push(head_row(head, row_offset, 1, with_span)),
        Some((head, Some(sub))) => Seq::empty().push(head_row(head, row_offset, 2, with_span)).push(
            subhead_row(sub, row_offset, with_span),
        ),
    }
}

/// The header cells of a body row: the row header (with spans, a header spanned into from
/// above has no cell; without, an empty one) and the subrow header.
pub open spec fn row_header_cells(headers: HeadersView, with_span: bool) -> Seq<HtmlView> {
    match headers {
        None => Seq::empty(),
        Some((header, sub)) => (match header {
            Some((text, rowspan)) => {
                let class = Seq::empty().push(HtmlAttr::Class("row-header"));
                Seq::empty().push(
                    text_cell(
                        HtmlTag::Th,
                        if with_span && rowspan > 1 {
                            class.push(HtmlAttr::Rowspan(rowspan))
                        } else {
                            class
                        },
                        text,
                    ),
                )
            },
            None => if with_span {
                Seq::empty()
            } else {
                Seq::empty().push(empty_cell(HtmlTag::Th))
            },
        }) + (match sub {
            Some(text) => Seq::empty().push(
                text_cell(HtmlTag::Th, Seq::empty().push(HtmlAttr::Class("subrow-header")), text),
            ),
            None => Seq::empty(),
        }),
    }
}

/// A body cell, with its class where it has one.
pub open spec fn body_cell(cell: CellView) -> HtmlView {
    text_cell(
        HtmlTag::Td,
        match cell.1 {
            Some(class) => Seq::empty().push(HtmlAttr::Class(cell_class_name(class))),
            None => Seq::empty(),
        },
        cell.0,
    )
}

/// A body row.
pub open spec fn body_row(row: RowView, with_span: bool) -> HtmlView {
    HtmlView::Element(
        HtmlTag::Tr,
        Seq::empty().push(HtmlAttr::Class(body_row_class_name(row.0))),
        row_header_cells(row.1, with_span) + row.2.map_values(|c: CellView| body_cell(c)),
    )
}

/// How many row header columns the table has: as many as the first body row has header cells.
pub open spec fn row_offset(rows: Seq<RowView>) -> nat {
    if rows.len() == 0 {
        0
    } else {
        match rows[0].1 {
            Some((_, Some(_))) => 2,
            Some((_, None)) => 1,
            None => 0,
        }
    }
}

/// A grid as an HTML table: its class, its caption, the header rows and the body rows.
pub open spec fn grid_html_view(
    class: TableClass,
    caption: Seq<char>,
    heads: Option<(Seq<ColumnHeader>, Option<Seq<SubcolumnHeader>>)>,
    rows: Seq<RowView>,
    with_span: bool,
) -> HtmlView {
    HtmlView::Element(
        HtmlTag::Table,
        Seq::empty().push(HtmlAttr::Class(table_class_name(class))),
        Seq::empty().push(HtmlView::Element(HtmlTag::Caption, Seq::empty(), Seq::empty().push(HtmlView::Text(caption)))).push(
            HtmlView::Element(HtmlTag::Thead, Seq::empty(), head_rows(heads, row_offset(rows), with_span)),
        ).push(HtmlView::Element(HtmlTag::Tbody, Seq::empty(), rows.map_values(|r: RowView| body_row(r, with_span)))),
    )
}

proof fn lemma_nodes_append(a: Seq<HtmlNode>, b: Seq<HtmlNode>)
    ensures
        nodes_view(a + b) == nodes_view(a) + nodes_view(b),
{
    assert(nodes_view(a + b) =~= nodes_view(a) + nodes_view(b));
}

proof fn lemma_nodes_push(a: Seq<HtmlNode>, n: HtmlNode)
    ensures
        nodes_view(a.push(n)) == nodes_view(a).push(html_view(n)),
{
    assert(nodes_view(a.push(n)) =~= nodes_view(a).push(html_view(n)));
}

/// An element with the given attributes and children.
fn element(tag: HtmlTag, attrs: Vec<HtmlAttr>, children: Vec<HtmlNode>, Ghost(expected): Ghost<Seq<HtmlView>>) -> (r:
    HtmlNode)
    requires
        nodes_view(children@) == expected,
    ensures
        html_view(r) == HtmlView::Element(tag, attrs@, expected),
{
    let r = HtmlNode::Element(tag, attrs, children);
    proof {
        if let HtmlView::Element(_, _, v) = html_view(r) {
            assert(v =~= expected);
        }
    }
    r
}

/// An element with text inside.
fn text_element(tag: HtmlTag, attrs: Vec<HtmlAttr>, text: String) -> (r: HtmlNode)
    ensures
        html_view(r) == text_cell(tag, attrs@, text@),
{
    let mut children: Vec<HtmlNode> = Vec::new();
    let ghost t = text@;
    children.push(HtmlNode::Text(text));
    proof {
        lemma_nodes_push(Seq::empty(), HtmlNode::Text(children@[0]->Text_0));
        assert(Seq::<HtmlNode>::empty().push(children@[0]) =~= children@);
        assert(nodes_view(Seq::<HtmlNode>::empty()) =~= Seq::empty());
    }
    element(tag, attrs, children, Ghost(Seq::empty().push(HtmlView::Text(t))))
}

/// An element with nothing inside.
fn empty_element(tag: HtmlTag) -> (r: HtmlNode)
    ensures
        html_view(r) == empty_cell(tag),
{
    proof {
        assert(nodes_view(Seq::<HtmlNode>::empty()) =~= Seq::empty());
    }
    element(tag, Vec::new(), Vec::new(), Ghost(Seq::empty()))
}

/// One attribute.
fn one_attr(attr: HtmlAttr) -> (r: Vec<HtmlAttr>)
    ensures
        r@ == Seq::empty().push(attr),
{
    let mut r: Vec<HtmlAttr> = Vec::new();
    r.push(attr);
    r
}

/// Pushes `n` empty elements.
fn push_empty(out: &mut Vec<HtmlNode>, tag: HtmlTag, n: usize)
    ensures
        nodes_view(final(out)@) == nodes_view(old(out)@) + repeat(empty_cell(tag), n as nat),
{
    let ghost start = nodes_view(out@);
    let mut k: usize = 0;
    while k < n
        invariant
            k <= n,
            nodes_view(out@) == start + repeat(empty_cell(tag), k as nat),
        decreases n - k,
    {
        let ghost before = out@;
        let e = empty_element(tag);
        out.push(e);
        proof {
            lemma_nodes_push(before, e);
            assert(start + repeat(empty_cell(tag), (k + 1) as nat) =~= (start + repeat(empty_cell(tag), k as nat)).push(
                empty_cell(tag),
            ));
        }
        k = k + 1;
    }
}

/// Appends nodes.
fn append_nodes(out: &mut Vec<HtmlNode>, items: Vec<HtmlNode>)
    ensures
        nodes_view(final(out)@) == nodes_view(old(out)@) + nodes_view(items@),
{
    let mut items = items;
    let ghost a = out@;
    let ghost b = items@;
    out.append(&mut items);
    proof {
        lemma_nodes_append(a, b);
    }
}

fn column_header_nodes(h: &ColumnHeader, with_span: bool) -> (r: Vec<HtmlNode>)
    ensures
        nodes_view(r@) == column_header_cells(*h, with_span),
{
    let mut attrs = one_attr(HtmlAttr::Class(THColumnClass::ColumnHeader.class_name()));
    let mut r: Vec<HtmlNode> = Vec::new();
    if with_span && h.colspan > 1 {
        attrs.push(HtmlAttr::Colspan(h.colspan));
    }
    let th = text_element(HtmlTag::Th, attrs, h.text.clone());
    r.push(th);
    proof {
        lemma_nodes_push(Seq::empty(), th);
        assert(Seq::<HtmlNode>::empty().push(th) =~= r@);
        assert(nodes_view(Seq::<HtmlNode>::empty()) =~= Seq::empty());
    }
    if !with_span && h.colspan > 1 {
        push_empty(&mut r, HtmlTag::Td, h.colspan - 1);
    }
    proof {
        if !with_span && h.colspan <= 1 {
            assert(repeat(empty_cell(HtmlTag::Td), 0) =~= Seq::empty());
            assert(nodes_view(r@) =~= column_header_cells(*h, with_span));
        }
    }
    r
}

fn head_row_node(head: &Vec<ColumnHeader>, row_offset: usize, column_offset: usize, with_span: bool) -> (r: HtmlNode)
    ensures
        html_view(r) == head_row(head@, row_offset as nat, column_offset as nat, with_span),
{
    let mut cells: Vec<HtmlNode> = Vec::new();
    proof {
        assert(nodes_view(cells@) =~= Seq::empty());
    }
    if with_span {
        if row_offset > 0 {
            let mut attrs: Vec<HtmlAttr> = Vec::new();
            if column_offset > 1 {
                attrs.push(HtmlAttr::Colspan(column_offset));
            }
            if row_offset > 1 {
                attrs.push(HtmlAttr::Rowspan(row_offset));
            }
            let ghost attrs_view = attrs@;
            proof {
                assert(nodes_view(Seq::<HtmlNode>::empty()) =~= Seq::empty());
            }
            let corner = element(HtmlTag::Th, attrs, Vec::new(), Ghost(Seq::empty()));
            cells.push(corner);
            proof {
                lemma_nodes_push(Seq::empty(), corner);
                assert(Seq::<HtmlNode>::empty().push(corner) =~= cells@);
                if column_offset > 1 {
                    assert(attrs_view =~= corner_cells(row_offset as nat, column_offset as nat, with_span)[0]->Element_1);
                } else {
                    assert(attrs_view =~= corner_cells(row_offset as nat, column_offset as nat, with_span)[0]->Element_1);
                }
                assert(nodes_view(cells@) =~= corner_cells(row_offset as nat, column_offset as nat, with_span));
            }
        }
    } else {
        push_empty(&mut cells, HtmlTag::Th, row_offset);
        proof {
            assert(nodes_view(cells@) =~= corner_cells(row_offset as nat, column_offset as nat, with_span));
        }
    }
    let ghost corner = nodes_view(cells@);
    let mut i: usize = 0;
    while i < head.len()
        invariant
            i <= head@.len(),
            nodes_view(cells@) == corner + column_headers_cells(head@.take(i as int), with_span),
        decreases head@.len() - i,
    {
        let ghost before = nodes_view(cells@);
        let items = column_header_nodes(&head[i], with_span);
        append_nodes(&mut cells, items);
        proof {
            assert(head@.take(i + 1).drop_last() =~= head@.take(i as int));
            assert(head@.take(i + 1).last() == head@[i as int]);
            assert(corner + column_headers_cells(head@.take(i + 1), with_span) =~= before + column_header_cells(
                head@[i as int],
                with_span,
            ));
        }
        i = i + 1;
    }
    proof {
        assert(head@.take(head@.len() as int) =~= head@);
    }
    element(
        HtmlTag::Tr,
        one_attr(HtmlAttr::Class(TRHeadClass::ColumnHead.class_name())),
        cells,
        Ghost(corner_cells(row_offset as nat, column_offset as nat, with_span) + column_headers_cells(head@, with_span)),
    )
}

fn subhead_row_node(sub: &Vec<SubcolumnHeader>, row_offset: usize, with_span: bool) -> (r: HtmlNode)
    ensures
        html_view(r) == subhead_row(sub@, row_offset as nat, with_span),
{
    let mut cells: Vec<HtmlNode> = Vec::new();
    proof {
        assert(nodes_view(cells@) =~= Seq::empty());
    }
    if !with_span {
        push_empty(&mut cells, HtmlTag::Th, row_offset);
        proof {
            assert(nodes_view(cells@) =~= Seq::empty() + repeat(empty_cell(HtmlTag::Th), row_offset as nat));
        }
    }
    let ghost lead = nodes_view(cells@);
    let ghost expected = sub@.map_values(|h: SubcolumnHeader| subcolumn_header_cell(h));
    let mut i: usize = 0;
    while i < sub.len()
        invariant
            i <= sub@.len(),
            expected == sub@.map_values(|h: SubcolumnHeader| subcolumn_header_cell(h)),
            nodes_view(cells@) == lead + expected.take(i as int),
        decreases sub@.len() - i,
    {
        let ghost before = cells@;
        let th = text_element(
            HtmlTag::Th,
            one_attr(HtmlAttr::Class(THColumnClass::SubColumnHeader.class_name())),
            sub[i].text.clone(),
        );
        cells.push(th);
        proof {
            lemma_nodes_push(before, th);
            assert(lead + expected.take(i + 1) =~= (lead + expected.take(i as int)).push(expected[i as int]));
        }
        i = i + 1;
    }
    proof {
        assert(expected.take(sub@.len() as int) =~= expected);
        if with_span {
            assert(lead =~= Seq::<HtmlView>::empty());
        }
    }
    element(
        HtmlTag::Tr,
        one_attr(HtmlAttr::Class(TRHeadClass::SubColumnHead.class_name())),
        cells,
        Ghost(
            (if with_span {
                Seq::empty()
            } else {
                repeat(empty_cell(HtmlTag::Th), row_offset as nat)
            }) + expected,
        ),
    )
}

fn row_node(row: &GridRow, with_span: bool) -> (r: HtmlNode)
    ensures
        html_view(r) == body_row(crate::grid::row_view(*row), with_span),
{
    let mut cells: Vec<HtmlNode> = Vec::new();
    proof {
        assert(nodes_view(cells@) =~= Seq::empty());
    }
    match &row.headers {
        None => {},
        Some((header, sub)) => {
            match header {
                RowHeader::RowHeader { text, rowspan } => {
                    let mut attrs = one_attr(HtmlAttr::Class(THRowClass::RowHeader.class_name()));
                    if with_span && *rowspan > 1 {
                        attrs.push(HtmlAttr::Rowspan(*rowspan));
                    }
                    let th = text_element(HtmlTag::Th, attrs, text.clone());
                    cells.push(th);
                    proof {
                        lemma_nodes_push(Seq::empty(), th);
                        assert(Seq::<HtmlNode>::empty().push(th) =~= cells@);
                    }
                },
                RowHeader::RowHeaderSpan => {
                    if !with_span {
                        let th = empty_element(HtmlTag::Th);
                        cells.push(th);
                        proof {
                            lemma_nodes_push(Seq::empty(), th);
                            assert(Seq::<HtmlNode>::empty().push(th) =~= cells@);
                        }
                    }
                },
            }
            let ghost first = nodes_view(cells@);
            match sub {
                Some(s) => {
                    let ghost before = cells@;
                    let th = text_element(
                        HtmlTag::Th,
                        one_attr(HtmlAttr::Class(THRowClass::SubrowHeader.class_name())),
                        s.text.clone(),
                    );
                    cells.push(th);
                    proof {
                        lemma_nodes_push(before, th);
                    }
                },
                None => {
                    proof {
                        assert(first + Seq::<HtmlView>::empty() =~= first);
                    }
                },
            }
        },
    }
    let ghost headers = row_header_cells(crate::grid::headers_view(row.headers), with_span);
    assert(nodes_view(cells@) =~= headers);
    let ghost expected = row.cells@.map_values(|c: Cell| crate::grid::cell_view(c)).map_values(|c: CellView| body_cell(c));
    let mut i: usize = 0;
    while i < row.cells.len()
        invariant
            i <= row.cells@.len(),
            expected == row.cells@.map_values(|c: Cell| crate::grid::cell_view(c)).map_values(|c: CellView| body_cell(c)),
            nodes_view(cells@) == headers + expected.take(i as int),
        decreases row.cells@.len() - i,
    {
        let c = &row.cells[i];
        let attrs = match c.class {
            Some(class) => one_attr(HtmlAttr::Class(class.class_name())),
            None => Vec::new(),
        };
        let ghost before = cells@;
        let td = text_element(HtmlTag::Td, attrs, c.text.clone());
        cells.push(td);
        proof {
            lemma_nodes_push(before, td);
            assert(expected[i as int] == body_cell(crate::grid::cell_view(row.cells@[i as int])));
            assert(headers + expected.take(i + 1) =~= (headers + expected.take(i as int)).push(expected[i as int]));
        }
        i = i + 1;
    }
    proof {
        assert(expected.take(row.cells@.len() as int) =~= expected);
    }
    element(HtmlTag::Tr, one_attr(HtmlAttr::Class(row.class.class_name())), cells, Ghost(headers + expected))
}

/// The grid as an HTML table, as `grid_html_view` says: the table of the grid's class with its
/// caption, a head with the column header rows (and, above the row headers, the corner cells),
/// and a body with a row for each body row. With `with_span`, headers that span several columns
/// or rows are single cells with a span; without, the columns and rows they span get empty
/// cells.
pub fn grid_html(grid: Grid, with_span: bool) -> (r: HtmlNode)
    ensures
        html_view(r) == grid_html_view(
            grid.class_view(),
            grid.caption_view(),
            grid.heads_view(),
            rows_view(grid.rows()),
            with_span,
        ),
{
    let (class, caption, heads, body) = grid.into_parts();
    let offset: usize = if body.len() == 0 {
        0
    } else {
        body[0].headers_len()
    };
    assert(offset == row_offset(rows_view(body@)));
    let mut head_rows_nodes: Vec<HtmlNode> = Vec::new();
    proof {
        assert(nodes_view(head_rows_nodes@) =~= Seq::empty());
    }
    match &heads {
        None => {},
        Some((head, sub)) => {
            let column_offset: usize = match sub {
                Some(_) => 2,
                None => 1,
            };
            let h = head_row_node(head, offset, column_offset, with_span);
            head_rows_nodes.push(h);
            proof {
                lemma_nodes_push(Seq::empty(), h);
                assert(Seq::<HtmlNode>::empty().push(h) =~= head_rows_nodes@);
            }
            match sub {
                Some(sub) => {
                    let ghost before = head_rows_nodes@;
                    let s = subhead_row_node(sub, offset, with_span);
                    head_rows_nodes.push(s);
                    proof {
                        lemma_nodes_push(before, s);
                    }
                },
                None => {},
            }
        },
    }
    let ghost heads_view = match heads {
        Some((head, Some(sub))) => Some((head@, Some(sub@))),
        Some((head, None)) => Some((head@, None)),
        None => None,
    };
    assert(nodes_view(head_rows_nodes@) == head_rows(heads_view, offset as nat, with_span));
    let ghost expected = rows_view(body@).map_values(|r: RowView| body_row(r, with_span));
    let mut rows: Vec<HtmlNode> = Vec::new();
    let mut i: usize = 0;
    while i < body.len()
        invariant
            i <= body@.len(),
            expected == rows_view(body@).map_values(|r: RowView| body_row(r, with_span)),
            nodes_view(rows@) == expected.take(i as int),
        decreases body@.len() - i,
    {
        let ghost before = rows@;
        let r = row_node(&body[i], with_span);
        rows.push(r);
        proof {
            lemma_nodes_push(before, r);
            assert(expected.take(i + 1) =~= expected.take(i as int).push(expected[i as int]));
        }
        i = i + 1;
    }
    proof {
        assert(expected.take(body@.len() as int) =~= expected);
    }
    let mut parts: Vec<HtmlNode> = Vec::new();
    let caption_node = text_element(HtmlTag::Caption, Vec::new(), caption);
    let thead = element(HtmlTag::Thead, Vec::new(), head_rows_nodes, Ghost(head_rows(heads_view, offset as nat, with_span)));
    let tbody = element(HtmlTag::Tbody, Vec::new(), rows, Ghost(expected));
    parts.push(caption_node);
    parts.push(thead);
    parts.push(tbody);
    proof {
        assert(nodes_view(parts@) =~= Seq::empty().push(html_view(caption_node)).push(html_view(thead)).push(
            html_view(tbody),
        ));
    }
    let ghost parts_view = nodes_view(parts@);
    element(HtmlTag::Table, one_attr(HtmlAttr::Class(class.class_name())), parts, Ghost(parts_view))
}

} // verus!
