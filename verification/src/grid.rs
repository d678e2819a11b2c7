use vstd::prelude::*;
use vstd::string::StringExecFns;

use crate::text::push_char;
use crate::text::trim_end;
use crate::text::trimmed_end;
use crate::text::lemma_lines_have_no_newline;
use crate::text::lines_of;
use crate::text::split_lines;
use prettytable::format::consts::FORMAT_CLEAN;
use prettytable::Table as PrettyTable;

verus! {

/// The kind of table, given as its HTML class.
#[derive(Debug, Clone, Copy, PartialEq, Eq, Structural)]
pub enum TableClass {
    ElbiePhonemes,
    ElbieWords,
    ElbieOrthography,
    ElbieLexicon,
}

impl TableClass {
    /// The HTML class of the table.
    pub fn class_name(&self) -> (r: &'static str)
        ensures
            *self is ElbiePhonemes ==> r == "elbie phonemes",
            *self is ElbieWords ==> r == "elbie generated-words",
            *self is ElbieOrthography ==> r == "elbie orthography",
            *self is ElbieLexicon ==> r == "elbie lexicon",
    {
        match self {
            TableClass::ElbiePhonemes => "elbie phonemes",
            TableClass::ElbieWords => "elbie generated-words",
            TableClass::ElbieOrthography => "elbie orthography",
            TableClass::ElbieLexicon => "elbie lexicon",
        }
    }
}

/// The kind of a heading row, given as its HTML class.
#[derive(Debug, Clone, Copy, PartialEq, Eq, Structural)]
pub enum TRHeadClass {
    ColumnHead,
    SubColumnHead,
}

impl TRHeadClass {
    /// The HTML class of the heading row.
    pub fn class_name(&self) -> (r: &'static str)
        ensures
            *self is ColumnHead ==> r == "column-head",
            *self is SubColumnHead ==> r == "subcolumn-head",
    {
        match self {
            TRHeadClass::ColumnHead => "column-head",
            TRHeadClass::SubColumnHead => "subcolumn-head",
        }
    }
}

/// The kind of a body row, given as its HTML class.
#[derive(Debug, Clone, Copy, PartialEq, Eq, Structural)]
pub enum TRBodyClass {
    BodyRow,
    BodyRowGroupStart,
    BodyRowGroupMiddle,
    BodyRowGroupEnd,
}

impl TRBodyClass {
    /// The HTML class of the body row.
    pub fn class_name(&self) -> (r: &'static str)
        ensures
            *self is BodyRow ==> r == "body-row",
            *self is BodyRowGroupStart ==> r == "body-row row-group-start",
            *self is BodyRowGroupMiddle ==> r == "body-row row-group-middle",
            *self is BodyRowGroupEnd ==> r == "body-row row-group-end",
    {
        match self {
            TRBodyClass::BodyRow => "body-row",
            TRBodyClass::BodyRowGroupStart => "body-row row-group-start",
            TRBodyClass::BodyRowGroupMiddle => "body-row row-group-middle",
            TRBodyClass::BodyRowGroupEnd => "body-row row-group-end",
        }
    }
}

/// The kind of a column header cell, given as its HTML class.
#[derive(Debug, Clone, Copy, PartialEq, Eq, Structural)]
pub enum THColumnClass {
    ColumnHeader,
    SubColumnHeader,
}

impl THColumnClass {
    /// The HTML class of the header cell.
    pub fn class_name(&self) -> (r: &'static str)
        ensures
            *self is ColumnHeader ==> r == "column-header",
            *self is SubColumnHeader ==> r == "subcolumn-header",
    {
        match self {
            THColumnClass::ColumnHeader => "column-header",
            THColumnClass::SubColumnHeader => "subcolumn-header",
        }
    }
}

/// The kind of a row header cell, given as its HTML class.
#[derive(Debug, Clone, Copy, PartialEq, Eq, Structural)]
pub enum THRowClass {
    RowHeader,
    SubrowHeader,
}

impl THRowClass {
    /// The HTML class of the header cell.
    pub fn class_name(&self) -> (r: &'static str)
        ensures
            *self is RowHeader ==> r == "row-header",
            *self is SubrowHeader ==> r == "subrow-header",
    {
        match self {
            THRowClass::RowHeader => "row-header",
            THRowClass::SubrowHeader => "subrow-header",
        }
    }
}

/// The place of a body cell in a group of columns, given as its HTML class.
#[derive(Debug, Clone, Copy, PartialEq, Eq, Structural)]
pub enum TDClass {
    ColumnGroupStart,
    ColumnGroupMiddle,
    ColumnGroupEnd,
}

impl TDClass {
    /// The HTML class of the cell.
    pub fn class_name(&self) -> (r: &'static str)
        ensures
            *self is ColumnGroupStart ==> r == "column-group-start",
            *self is ColumnGroupMiddle ==> r == "column-group-middle",
            *self is ColumnGroupEnd ==> r == "column-group-end",
    {
        match self {
            TDClass::ColumnGroupStart => "column-group-start",
            TDClass::ColumnGroupMiddle => "column-group-middle",
            TDClass::ColumnGroupEnd => "column-group-end",
        }
    }
}

/// How headers are written in text tables.
#[derive(Debug, Clone, Copy, PartialEq, Eq, Structural)]
pub enum TextStyle {
    Plain,
    Terminal,
    Markdown,
}

/// A header as a text table style writes it: in bold for Markdown, as it is otherwise.
pub open spec fn styled(style: TextStyle, text: Seq<char>) -> Seq<char> {
    match style {
        TextStyle::Markdown => seq!['*', '*'] + text + seq!['*', '*'],
        _ => text,
    }
}

fn bold(text: &str) -> (r: String)
    ensures
        r@ == seq!['*', '*'] + text@ + seq!['*', '*'],
{
    let mut out = String::new();
    push_char(&mut out, '*');
    push_char(&mut out, '*');
    out.append(text);
    push_char(&mut out, '*');
    push_char(&mut out, '*');
    assert(out@ =~= seq!['*', '*'] + text@ + seq!['*', '*']);
    out
}

impl TextStyle {
    /// A column header's text in this style.
    pub fn column_header(&self, text: &str) -> (r: String)
        ensures
            r@ == styled(*self, text@),
    {
        match self {
            TextStyle::Markdown => bold(text),
            _ => text.to_owned(),
        }
    }

    /// A row header's text in this style.
    pub fn row_header(&self, text: &str) -> (r: String)
        ensures
            r@ == styled(*self, text@),
    {
        match self {
            TextStyle::Markdown => bold(text),
            _ => text.to_owned(),
        }
    }
}

/// A column header, over `colspan` columns.
#[derive(Debug, Clone)]
pub struct ColumnHeader {
    pub text: String,
    pub colspan: usize,
}

impl ColumnHeader {
    /// A column header over `colspan` columns; a span of 0 becomes 1.
    pub fn new(text: String, colspan: usize) -> (r: Self)
        ensures
            r.text@ == text@,
            r.colspan == if colspan == 0 {
                1
            } else {
                colspan
            },
    {
        ColumnHeader { text, colspan: if colspan == 0 { 1 } else { colspan } }
    }
}

/// A header of one column under a column header.
#[derive(Debug, Clone)]
pub struct SubcolumnHeader {
    pub text: String,
}

impl SubcolumnHeader {
    /// A subcolumn header.
    pub fn new(text: String) -> (r: Self)
        ensures
            r.text@ == text@,
    {
        SubcolumnHeader { text }
    }
}

/// The header of a row: its text and how many rows it spans, or the place of a header that a
/// row above spans into this row.
#[derive(Debug)]
pub enum RowHeader {
    RowHeader { text: String, rowspan: usize },
    RowHeaderSpan,
}

impl RowHeader {
    /// A row header over `rowspan` rows; a span of 0 becomes 1.
    pub fn new(text: String, rowspan: usize) -> (r: Self)
        ensures
            r matches RowHeader::RowHeader { text: t, rowspan: s } && t@ == text@ && s == if rowspan
                == 0 {
                1
            } else {
                rowspan
            },
    {
        RowHeader::RowHeader { text, rowspan: if rowspan == 0 { 1 } else { rowspan } }
    }

    /// The place of a header that a row above spans into this row.
    pub fn row_header_span() -> (r: Self)
        ensures
            r is RowHeaderSpan,
    {
        RowHeader::RowHeaderSpan
    }
}

/// A header under a row header.
#[derive(Debug)]
pub struct SubrowHeader {
    pub text: String,
}

impl SubrowHeader {
    /// A subrow header.
    pub fn new(text: String) -> (r: Self)
        ensures
            r.text@ == text@,
    {
        SubrowHeader { text }
    }
}

/// A body cell: one line of text, with an optional class.
#[derive(Debug)]
pub struct Cell {
    pub text: String,
    pub class: Option<TDClass>,
}

impl Cell {
    /// A cell with the given text, which must be a single line.
    pub fn content(text: String, class: Option<TDClass>) -> (r: Self)
        requires
            !text@.contains('\n'),
        ensures
            r.text@ == text@,
            r.class == class,
    {
        Cell { text, class }
    }
}

/// The number of header cells a row has: none, a row header, or a row header and a subrow
/// header.
pub open spec fn header_count(headers: Option<(RowHeader, Option<SubrowHeader>)>) -> nat {
    match headers {
        Some((_, Some(_))) => 2,
        Some((_, None)) => 1,
        None => 0,
    }
}

/// A row of the body of a grid.
#[derive(Debug)]
pub struct GridRow {
    pub class: TRBodyClass,
    pub headers: Option<(RowHeader, Option<SubrowHeader>)>,
    pub cells: Vec<Cell>,
}

impl GridRow {
    /// A row with no headers and no cells.
    pub fn new(class: TRBodyClass) -> (r: Self)
        ensures
            r.class == class,
            r.headers is None,
            r.cells@.len() == 0,
    {
        GridRow { class, headers: None, cells: Vec::new() }
    }

    /// Sets the row header, which must not be set yet.
    pub fn set_header(&mut self, header: RowHeader)
        requires
            old(self).headers is None,
        ensures
            final(self).class == old(self).class,
            final(self).cells == old(self).cells,
            final(self).headers == Some((header, None::<SubrowHeader>)),
    {
        self.headers = Some((header, None));
    }

    /// Sets the subrow header, which must come after the row header and only once.
    pub fn set_subheader(&mut self, new_subheader: SubrowHeader)
        requires
            old(self).headers matches Some((_, None)),
        ensures
            final(self).class == old(self).class,
            final(self).cells == old(self).cells,
            final(self).headers == Some(((old(self).headers->0).0, Some(new_subheader))),
    {
        let headers = self.headers.take();
        match headers {
            Some((header, _)) => {
                self.headers = Some((header, Some(new_subheader)));
            },
            None => {},
        }
    }

    /// Adds a cell at the end of the row.
    pub fn push_cell(&mut self, cell: Cell)
        ensures
            final(self).class == old(self).class,
            final(self).headers == old(self).headers,
            final(self).cells@ == old(self).cells@.push(cell),
    {
        self.cells.push(cell);
    }
}

/// The number of columns that the headers span together.
pub open spec fn span_total(headers: Seq<ColumnHeader>) -> int
    decreases headers.len(),
{
    if headers.len() == 0 {
        0
    } else {
        span_total(headers.drop_last()) + headers.last().colspan
    }
}

fn total_span(headers: &Vec<ColumnHeader>) -> (r: Option<usize>)
    ensures
        r matches Some(n) ==> n == span_total(headers@),
        r is None ==> span_total(headers@) > usize::MAX,
{
    let mut total: usize = 0;
    let mut i: usize = 0;
    while i < headers.len()
        invariant
            i <= headers@.len(),
            total == span_total(headers@.take(i as int)),
        decreases headers@.len() - i,
    {
        proof {
            assert(headers@.take(i + 1).drop_last() =~= headers@.take(i as int));
        }
        match total.checked_add(headers[i].colspan) {
            Some(t) => total = t,
            None => {
                proof {
                    lemma_span_prefix(headers@, i + 1);
                }
                return None;
            },
        }
        i = i + 1;
    }
    proof {
        assert(headers@.take(i as int) =~= headers@);
    }
    Some(total)
}

proof fn lemma_span_prefix(headers: Seq<ColumnHeader>, k: int)
    requires
        0 <= k <= headers.len(),
    ensures
        span_total(headers.take(k)) <= span_total(headers),
    decreases headers.len() - k,
{
    if k < headers.len() {
        lemma_span_prefix(headers, k + 1);
        assert(headers.take(k + 1).drop_last() =~= headers.take(k));
    } else {
        assert(headers.take(k) =~= headers);
    }
}

/// A table: a caption, optional column headers with optional subcolumn headers, and body rows.
#[derive(Debug)]
pub struct Grid {
    class: TableClass,
    caption: String,
    heads: Option<(Vec<ColumnHeader>, Option<Vec<SubcolumnHeader>>)>,
    body: Vec<GridRow>,
}

impl Grid {
    /// The kind of table.
    pub closed spec fn class_view(&self) -> TableClass {
        self.class
    }

    /// The caption.
    pub closed spec fn caption_view(&self) -> Seq<char> {
        self.caption@
    }

    /// The column headers and subcolumn headers, if set.
    pub closed spec fn heads_view(&self) -> Option<(Seq<ColumnHeader>, Option<Seq<SubcolumnHeader>>)> {
        match self.heads {
            Some((head, Some(sub))) => Some((head@, Some(sub@))),
            Some((head, None)) => Some((head@, None)),
            None => None,
        }
    }

    /// The body rows.
    pub closed spec fn rows(&self) -> Seq<GridRow> {
        self.body@
    }

    /// An empty grid with a caption.
    pub fn new(class: TableClass, caption: String) -> (r: Self)
        ensures
            r.class_view() == class,
            r.caption_view() == caption@,
            r.heads_view() is None,
            r.rows().len() == 0,
    {
        Grid { class, caption, heads: None, body: Vec::new() }
    }

    /// The kind of table.
    pub fn class(&self) -> (r: TableClass)
        ensures
            r == self.class_view(),
    {
        self.class
    }

    /// The caption.
    pub fn caption(&self) -> (r: &str)
        ensures
            r@ == self.caption_view(),
    {
        self.caption.as_str()
    }

    /// The column headers and subcolumn headers, if set.
    pub fn heads(&self) -> (r: &Option<(Vec<ColumnHeader>, Option<Vec<SubcolumnHeader>>)>)
        ensures
            self.heads_view() == match *r {
                Some((head, Some(sub))) => Some((head@, Some(sub@))),
                Some((head, None)) => Some((head@, None)),
                None => None,
            },
    {
        &self.heads
    }

    /// The body rows.
    pub fn body(&self) -> (r: &Vec<GridRow>)
        ensures
            r@ == self.rows(),
    {
        &self.body
    }

    /// Sets the column headers, which must not be set yet.
    pub fn set_headers(&mut self, row: Vec<ColumnHeader>)
        requires
            old(self).heads_view() is None,
        ensures
            final(self).heads_view() == Some((row@, None::<Seq<SubcolumnHeader>>)),
            final(self).class_view() == old(self).class_view(),
            final(self).caption_view() == old(self).caption_view(),
            final(self).rows() == old(self).rows(),
    {
        self.heads = Some((row, None));
    }

    /// Sets the subcolumn headers. The column headers must be set, the subcolumn headers not
    /// yet, and there must be one subcolumn header for each column the headers span.
    pub fn set_subheaders(&mut self, row: Vec<SubcolumnHeader>)
        requires
            old(self).heads_view() matches Some((head, None)) && span_total(head) == row@.len(),
        ensures
            final(self).heads_view() == Some(((old(self).heads_view()->0).0, Some(row@))),
            final(self).class_view() == old(self).class_view(),
            final(self).caption_view() == old(self).caption_view(),
            final(self).rows() == old(self).rows(),
    {
        let heads = self.heads.take();
        match heads {
            Some((head, _)) => {
                self.heads = Some((head, Some(row)));
            },
            None => {},
        }
    }

    /// Whether a row may be added: as many cells as the column headers span, and, after the
    /// first row, as many header cells and body cells as the first row.
    pub open spec fn fits(&self, row: &GridRow) -> bool {
        &&& (self.heads_view() matches Some((head, _)) ==> row.cells@.len() == span_total(head))
        &&& (self.rows().len() > 0 ==> header_count(self.rows()[0].headers) == header_count(
            row.headers,
        ) && self.rows()[0].cells@.len() == row.cells@.len())
    }

    /// Adds a row at the end of the body. The row must fit, as `fits` says.
    pub fn push_body_row(&mut self, row: GridRow)
        requires
            old(self).fits(&row),
        ensures
            final(self).rows() == old(self).rows().push(row),
            final(self).heads_view() == old(self).heads_view(),
            final(self).class_view() == old(self).class_view(),
            final(self).caption_view() == old(self).caption_view(),
    {
        self.body.push(row);
    }

    /// Checks whether a row fits, as `fits` says, so that callers can test before they push.
    pub fn row_fits(&self, row: &GridRow) -> (r: bool)
        ensures
            r == self.fits(row),
    {
        let cell_count = row.cells.len();
        match &self.heads {
            Some((head, _)) => match total_span(head) {
                Some(total) => {
                    if cell_count != total {
                        return false;
                    }
                },
                None => {
                    return false;
                },
            },
            None => {},
        }
        if self.body.len() > 0 {
            let first = &self.body[0];
            if first.headers_len() != row.headers_len() || first.cells.len() != row.cells.len() {
                return false;
            }
        }
        true
    }

    /// Takes the grid apart: class, caption, headers and body.
    pub fn into_parts(self) -> (r: (
        TableClass,
        String,
        Option<(Vec<ColumnHeader>, Option<Vec<SubcolumnHeader>>)>,
        Vec<GridRow>,
    ))
        ensures
            r.0 == self.class_view(),
            r.1@ == self.caption_view(),
            self.heads_view() == match r.2 {
                Some((head, Some(sub))) => Some((head@, Some(sub@))),
                Some((head, None)) => Some((head@, None)),
                None => None,
            },
            r.3@ == self.rows(),
    {
        (self.class, self.caption, self.heads, self.body)
    }
}

impl GridRow {
    /// The number of header cells of the row.
    pub fn headers_len(&self) -> (r: usize)
        ensures
            r == header_count(self.headers),
    {
        match &self.headers {
            Some((_, Some(_))) => 2,
            Some((_, None)) => 1,
            None => 0,
        }
    }
}

/// The texts of some strings.
pub open spec fn texts(strings: Seq<String>) -> Seq<Seq<char>> {
    strings.map_values(|s: String| s@)
}

/// `n` empty fields.
pub open spec fn blanks(n: int) -> Seq<Seq<char>> {
    Seq::new(if n < 0 { 0 } else { n as nat }, |i: int| Seq::<char>::empty())
}

/// The fields of the column headers: each header's text, then an empty field for each further
/// column it spans.
pub open spec fn head_fields(head: Seq<ColumnHeader>) -> Seq<Seq<char>>
    decreases head.len(),
{
    if head.len() == 0 {
        Seq::empty()
    } else {
        head_fields(head.drop_last()) + seq![head.last().text@] + blanks(head.last().colspan - 1)
    }
}

/// The fields of a row's headers: the row header's text (empty where a header above spans into
/// the row), then the subrow header's text.
pub open spec fn row_header_fields(headers: Option<(RowHeader, Option<SubrowHeader>)>) -> Seq<Seq<char>> {
    match headers {
        None => Seq::empty(),
        Some((header, sub)) => (match header {
            RowHeader::RowHeader { text, rowspan: _ } => seq![text@],
            RowHeader::RowHeaderSpan => seq![Seq::<char>::empty()],
        }) + match sub {
            Some(s) => seq![s.text@],
            None => Seq::empty(),
        },
    }
}

/// The texts of some cells.
pub open spec fn cell_texts(cells: Seq<Cell>) -> Seq<Seq<char>> {
    cells.map_values(|c: Cell| c.text@)
}

/// The number of header cells of the first row, or 0 without rows.
pub open spec fn row_offset(rows: Seq<GridRow>) -> int {
    if rows.len() > 0 {
        header_count(rows[0].headers) as int
    } else {
        0
    }
}

/// The fields of a body row.
pub open spec fn row_fields(row: GridRow) -> Seq<Seq<char>> {
    row_header_fields(row.headers) + cell_texts(row.cells@)
}

/// The records of a grid as CSV: a record of the column headers and one of the subcolumn
/// headers, each after as many empty fields as the rows have header cells, then a record for
/// each body row.
pub open spec fn csv_records(
    heads: Option<(Seq<ColumnHeader>, Option<Seq<SubcolumnHeader>>)>,
    rows: Seq<GridRow>,
) -> Seq<Seq<Seq<char>>> {
    let offset = row_offset(rows);
    let head_records = match heads {
        None => Seq::empty(),
        Some((head, sub)) => seq![blanks(offset) + head_fields(head)] + match sub {
            Some(s) => seq![blanks(offset) + s.map_values(|h: SubcolumnHeader| h.text@)],
            None => Seq::empty(),
        },
    };
    head_records + rows.map_values(|r: GridRow| row_fields(r))
}

fn push_blanks(fields: &mut Vec<String>, n: usize)
    ensures
        texts(final(fields)@) == texts(old(fields)@) + blanks(n as int),
{
    let ghost start = texts(fields@);
    let mut k: usize = 0;
    while k < n
        invariant
            k <= n,
            texts(fields@) == start + blanks(k as int),
        decreases n - k,
    {
        let ghost before = fields@;
        fields.push(String::new());
        proof {
            assert(texts(fields@) =~= texts(before).push(Seq::<char>::empty()));
            assert(blanks(k + 1) =~= blanks(k as int).push(Seq::<char>::empty()));
            assert(start + blanks(k + 1) =~= (start + blanks(k as int)).push(Seq::<char>::empty()));
        }
        k = k + 1;
    }
}

fn push_head_fields(fields: &mut Vec<String>, head: &Vec<ColumnHeader>)
    ensures
        texts(final(fields)@) == texts(old(fields)@) + head_fields(head@),
{
    let ghost start = texts(fields@);
    let mut i: usize = 0;
    proof {
        assert(head@.take(0) =~= Seq::<ColumnHeader>::empty());
        assert(start + head_fields(head@.take(0)) =~= start);
    }
    while i < head.len()
        invariant
            i <= head@.len(),
            texts(fields@) == start + head_fields(head@.take(i as int)),
        decreases head@.len() - i,
    {
        let ghost before = fields@;
        fields.push(head[i].text.clone());
        proof {
            assert(texts(fields@) =~= texts(before).push(head@[i as int].text@));
        }
        let extra: usize = if head[i].colspan > 0 { head[i].colspan - 1 } else { 0 };
        push_blanks(fields, extra);
        proof {
            let t = head@.take(i + 1);
            assert(t.drop_last() =~= head@.take(i as int));
            assert(t.last() == head@[i as int]);
            assert(blanks(extra as int) =~= blanks(head@[i as int].colspan - 1));
            assert(texts(fields@) =~= start + head_fields(t));
        }
        i = i + 1;
    }
    proof {
        assert(head@.take(i as int) =~= head@);
    }
}

fn row_record(row: &GridRow) -> (r: Vec<String>)
    ensures
        texts(r@) == row_fields(*row),
{
    let mut fields: Vec<String> = Vec::new();
    match &row.headers {
        Some((header, sub)) => {
            match header {
                RowHeader::RowHeader { text, rowspan: _ } => fields.push(text.clone()),
                RowHeader::RowHeaderSpan => fields.push(String::new()),
            }
            match sub {
                Some(s) => fields.push(s.text.clone()),
                None => {},
            }
        },
        None => {},
    }
    let ghost heads = texts(fields@);
    assert(heads =~= row_header_fields(row.headers));
    let mut i: usize = 0;
    while i < row.cells.len()
        invariant
            i <= row.cells@.len(),
            texts(fields@) == heads + cell_texts(row.cells@.take(i as int)),
        decreases row.cells@.len() - i,
    {
        let ghost before = fields@;
        fields.push(row.cells[i].text.clone());
        proof {
            assert(texts(fields@) =~= texts(before).push(row.cells@[i as int].text@));
            assert(cell_texts(row.cells@.take(i + 1)) =~= cell_texts(row.cells@.take(i as int)).push(
                row.cells@[i as int].text@,
            ));
        }
        i = i + 1;
    }
    proof {
        assert(row.cells@.take(i as int) =~= row.cells@);
    }
    fields
}

impl Grid {
    /// The records of the grid as CSV, as `csv_records` says.
    pub fn into_csv(self) -> (r: Vec<Vec<String>>)
        ensures
            r@.map_values(|record: Vec<String>| texts(record@)) == csv_records(self.heads_view(), self.rows()),
    {
        let offset: usize = if self.body.len() > 0 {
            self.body[0].headers_len()
        } else {
            0
        };
        let mut output: Vec<Vec<String>> = Vec::new();
        match &self.heads {
            Some((head, sub)) => {
                let mut record: Vec<String> = Vec::new();
                push_blanks(&mut record, offset);
                push_head_fields(&mut record, head);
                output.push(record);
                match sub {
                    Some(sub) => {
                        let mut record: Vec<String> = Vec::new();
                        push_blanks(&mut record, offset);
                        let ghost start = texts(record@);
                        let mut i: usize = 0;
                        while i < sub.len()
                            invariant
                                i <= sub@.len(),
                                texts(record@) == start + sub@.take(i as int).map_values(
                                    |h: SubcolumnHeader| h.text@,
                                ),
                            decreases sub@.len() - i,
                        {
                            let ghost before = record@;
                            record.push(sub[i].text.clone());
                            proof {
                                assert(texts(record@) =~= texts(before).push(sub@[i as int].text@));
                                assert(sub@.take(i + 1).map_values(|h: SubcolumnHeader| h.text@)
                                    =~= sub@.take(i as int).map_values(|h: SubcolumnHeader| h.text@).push(
                                    sub@[i as int].text@,
                                ));
                            }
                            i = i + 1;
                        }
                        proof {
                            assert(sub@.take(i as int) =~= sub@);
                        }
                        output.push(record);
                    },
                    None => {},
                }
            },
            None => {},
        }
        let ghost head_part = output@.map_values(|record: Vec<String>| texts(record@));
        proof {
            let rows = self.body@;
            assert(offset == row_offset(rows));
            assert(head_part =~= csv_records(self.heads_view(), rows).take(head_part.len() as int));
        }
        let mut i: usize = 0;
        while i < self.body.len()
            invariant
                i <= self.body@.len(),
                output@.map_values(|record: Vec<String>| texts(record@)) == head_part
                    + self.body@.take(i as int).map_values(|r: GridRow| row_fields(r)),
            decreases self.body@.len() - i,
        {
            let ghost before = output@;
            let record = row_record(&self.body[i]);
            output.push(record);
            proof {
                assert(output@.map_values(|record: Vec<String>| texts(record@)) =~= before.map_values(
                    |record: Vec<String>| texts(record@),
                ).push(row_fields(self.body@[i as int])));
                assert(self.body@.take(i + 1).map_values(|r: GridRow| row_fields(r)) =~= self.body@.take(
                    i as int,
                ).map_values(|r: GridRow| row_fields(r)).push(row_fields(self.body@[i as int])));
            }
            i = i + 1;
        }
        proof {
            assert(self.body@.take(i as int) =~= self.body@);
            let all = csv_records(self.heads_view(), self.body@);
            assert(all =~= head_part + self.body@.map_values(|r: GridRow| row_fields(r)));
        }
        output
    }
}

/// A cell as plain values: its text and class.
pub type CellView = (Seq<char>, Option<TDClass>);

/// A row's headers as plain values: the row header's text and span (`None` where a header above
/// spans into the row), and the subrow header's text.
pub type HeadersView = Option<(Option<(Seq<char>, usize)>, Option<Seq<char>>)>;

/// A body row as plain values: class, headers and cells.
pub type RowView = (TRBodyClass, HeadersView, Seq<CellView>);

/// A cell as plain values.
pub open spec fn cell_view(cell: Cell) -> CellView {
    (cell.text@, cell.class)
}

/// A row's headers as plain values.
pub open spec fn headers_view(headers: Option<(RowHeader, Option<SubrowHeader>)>) -> HeadersView {
    match headers {
        None => None,
        Some((header, sub)) => Some(
            (
                match header {
                    RowHeader::RowHeader { text, rowspan } => Some((text@, rowspan)),
                    RowHeader::RowHeaderSpan => None,
                },
                match sub {
                    Some(s) => Some(s.text@),
                    None => None,
                },
            ),
        ),
    }
}

/// A body row as plain values.
pub open spec fn row_view(row: GridRow) -> RowView {
    (row.class, headers_view(row.headers), row.cells@.map_values(|c: Cell| cell_view(c)))
}

/// Some body rows as plain values.
pub open spec fn rows_view(rows: Seq<GridRow>) -> Seq<RowView> {
    rows.map_values(|r: GridRow| row_view(r))
}

/// Whether a row's header is only the place of a header spanning from above, with no subrow
/// header.
pub open spec fn spans_from_above(row: RowView) -> bool {
    row.1 == Some((None::<(Seq<char>, usize)>, None::<Seq<char>>))
}

/// How many rows at the start of `rows` span from above.
pub open spec fn span_run(rows: Seq<RowView>) -> nat
    decreases rows.len(),
{
    if rows.len() > 0 && spans_from_above(rows[0]) {
        1 + span_run(rows.drop_first())
    } else {
        0
    }
}

/// The cells with the cells of the next row put under them, each on a new line; cells with
/// nothing under them stay as they are.
pub open spec fn stack_one(cells: Seq<CellView>, next: Seq<CellView>) -> Seq<CellView> {
    Seq::new(
        cells.len(),
        |i: int|
            if i < next.len() {
                (cells[i].0 + seq!['\n'] + next[i].0, cells[i].1)
            } else {
                cells[i]
            },
    )
}

/// The cells with the cells of each row of `below` put under them in turn.
pub open spec fn stack_cells(cells: Seq<CellView>, below: Seq<RowView>) -> Seq<CellView>
    decreases below.len(),
{
    if below.len() == 0 {
        cells
    } else {
        stack_one(stack_cells(cells, below.drop_last()), below.last().2)
    }
}

/// The cells without white space at the end of their texts.
pub open spec fn trimmed_cells(cells: Seq<CellView>) -> Seq<CellView> {
    cells.map_values(|c: CellView| (trimmed_end(c.0), c.1))
}

/// The rows with row groups blended: a row with a row header and no subrow header takes in the
/// rows after it that only span from its header, stacking their cells under its own; its cells
/// lose the white space at their end and its header spans one row. Other rows stay as they are.
pub open spec fn blended_rows(rows: Seq<RowView>) -> Seq<RowView>
    decreases rows.len(),
{
    if rows.len() == 0 {
        Seq::empty()
    } else {
        let row = rows[0];
        match row.1 {
            Some((Some((text, _)), None)) => {
                let k = span_run(rows.drop_first()) as int;
                if k + 1 <= rows.len() {
                    seq![
                        (
                            row.0,
                            Some((Some((text, 1usize)), None::<Seq<char>>)),
                            trimmed_cells(stack_cells(row.2, rows.subrange(1, 1 + k))),
                        ),
                    ] + blended_rows(rows.skip(1 + k))
                } else {
                    seq![row]
                }
            },
            _ => seq![row] + blended_rows(rows.drop_first()),
        }
    }
}

fn spans_exec(row: &GridRow) -> (r: bool)
    ensures
        r == spans_from_above(row_view(*row)),
{
    match &row.headers {
        Some((RowHeader::RowHeaderSpan, None)) => true,
        _ => false,
    }
}

fn concat_line(top: &String, under: &String) -> (r: String)
    ensures
        r@ == top@ + seq!['\n'] + under@,
{
    let mut out = top.clone();
    push_char(&mut out, '\n');
    out.append(under.as_str());
    assert(out@ =~= top@ + seq!['\n'] + under@);
    out
}

fn stack_exec(cells: &Vec<Cell>, next: &Vec<Cell>) -> (r: Vec<Cell>)
    ensures
        r@.map_values(|c: Cell| cell_view(c)) == stack_one(
            cells@.map_values(|c: Cell| cell_view(c)),
            next@.map_values(|c: Cell| cell_view(c)),
        ),
{
    let ghost want = stack_one(
        cells@.map_values(|c: Cell| cell_view(c)),
        next@.map_values(|c: Cell| cell_view(c)),
    );
    let mut out: Vec<Cell> = Vec::new();
    let mut i: usize = 0;
    while i < cells.len()
        invariant
            i <= cells@.len(),
            want.len() == cells@.len(),
            want == stack_one(cells@.map_values(|c: Cell| cell_view(c)), next@.map_values(|c: Cell| cell_view(c))),
            out@.map_values(|c: Cell| cell_view(c)) == want.take(i as int),
        decreases cells@.len() - i,
    {
        let text = if i < next.len() {
            concat_line(&cells[i].text, &next[i].text)
        } else {
            cells[i].text.clone()
        };
        let ghost before = out@;
        let cell = Cell { text, class: cells[i].class };
        proof {
            assert(cells@.map_values(|c: Cell| cell_view(c))[i as int] == cell_view(cells@[i as int]));
            if i < next@.len() {
                assert(next@.map_values(|c: Cell| cell_view(c))[i as int] == cell_view(next@[i as int]));
            }
            assert(cell_view(cell) == want[i as int]);
        }
        out.push(cell);
        proof {
            assert(out@.map_values(|c: Cell| cell_view(c)) =~= before.map_values(|c: Cell| cell_view(c)).push(
                want[i as int],
            ));
            assert(want.take(i + 1) =~= want.take(i as int).push(want[i as int]));
        }
        i = i + 1;
    }
    proof {
        assert(want.take(i as int) =~= want);
    }
    out
}

fn trim_cells(cells: &Vec<Cell>) -> (r: Vec<Cell>)
    ensures
        r@.map_values(|c: Cell| cell_view(c)) == trimmed_cells(cells@.map_values(|c: Cell| cell_view(c))),
{
    let ghost want = trimmed_cells(cells@.map_values(|c: Cell| cell_view(c)));
    let mut out: Vec<Cell> = Vec::new();
    let mut i: usize = 0;
    while i < cells.len()
        invariant
            i <= cells@.len(),
            want == trimmed_cells(cells@.map_values(|c: Cell| cell_view(c))),
            out@.map_values(|c: Cell| cell_view(c)) == want.take(i as int),
        decreases cells@.len() - i,
    {
        let text = trim_end(cells[i].text.as_str());
        let ghost before = out@;
        let cell = Cell { text, class: cells[i].class };
        proof {
            assert(cells@.map_values(|c: Cell| cell_view(c))[i as int] == cell_view(cells@[i as int]));
            assert(cell_view(cell) == want[i as int]);
        }
        out.push(cell);
        proof {
            assert(out@.map_values(|c: Cell| cell_view(c)) =~= before.map_values(|c: Cell| cell_view(c)).push(
                want[i as int],
            ));
            assert(want.take(i + 1) =~= want.take(i as int).push(want[i as int]));
        }
        i = i + 1;
    }
    proof {
        assert(want.take(i as int) =~= want);
    }
    out
}

proof fn lemma_span_run_step(rows: Seq<RowView>, j: int)
    requires
        0 <= j < rows.len(),
        forall|m: int| 0 <= m < j ==> spans_from_above(rows[m]),
        spans_from_above(rows[j]),
    ensures
        span_run(rows) == j + 1 + span_run(rows.skip(j + 1)),
    decreases j,
{
    if j > 0 {
        lemma_span_run_step(rows.drop_first(), j - 1);
        assert(rows.drop_first().skip(j) =~= rows.skip(j + 1));
    } else {
        assert(rows.drop_first() =~= rows.skip(1));
    }
}

proof fn lemma_span_run_stop(rows: Seq<RowView>, j: int)
    requires
        0 <= j <= rows.len(),
        forall|m: int| 0 <= m < j ==> spans_from_above(rows[m]),
        j == rows.len() || !spans_from_above(rows[j]),
    ensures
        span_run(rows) == j,
    decreases j,
{
    if j > 0 {
        lemma_span_run_stop(rows.drop_first(), j - 1);
    }
}

impl Grid {
    /// Blends row groups, as `blended_rows` says; the headers stay as they are.
    pub fn blend_row_groups(self) -> (r: Self)
        ensures
            rows_view(r.rows()) == blended_rows(rows_view(self.rows())),
            r.heads_view() == self.heads_view(),
            r.class_view() == self.class_view(),
            r.caption_view() == self.caption_view(),
    {
        let Grid { caption, class, heads, body } = self;
        let ghost all = rows_view(body@);
        let mut rest = body;
        let mut out: Vec<GridRow> = Vec::new();
        proof {
            assert(rows_view(out@) + blended_rows(rows_view(rest@)) =~= blended_rows(all));
        }
        while rest.len() > 0
            invariant
                blended_rows(all) == rows_view(out@) + blended_rows(rows_view(rest@)),
            decreases rest@.len(),
        {
            let ghost r0 = rows_view(rest@);
            let ghost out0 = rows_view(out@);
            let count = rest.len();
            assert(r0.len() == count);
            let row = rest.remove(0);
            proof {
                assert(rows_view(rest@) =~= r0.drop_first());
                assert(r0[0] == row_view(row));
            }
            let GridRow { class, headers, cells } = row;
            match headers {
                Some((RowHeader::RowHeader { text, rowspan }, None)) => {
                    let mut cells = cells;
                    let mut j: usize = 0;
                    proof {
                        assert(r0.subrange(1, 1) =~= Seq::<RowView>::empty());
                    }
                    while rest.len() > 0 && spans_exec(&rest[0])
                        invariant
                            1 + j <= r0.len() <= usize::MAX,
                            rows_view(rest@) == r0.skip(1 + j),
                            cells@.map_values(|c: Cell| cell_view(c)) == stack_cells(
                                r0[0].2,
                                r0.subrange(1, 1 + j),
                            ),
                            forall|m: int| 0 <= m < j ==> spans_from_above(#[trigger] r0.drop_first()[m]),
                        decreases rest@.len(),
                    {
                        let ghost before = rest@;
                        let next = rest.remove(0);
                        proof {
                            assert(rows_view(before)[0] == row_view(next));
                            assert(rows_view(before).len() == before.len());
                            assert(r0.skip(1 + j).len() > 0);
                            assert(1 + j < r0.len());
                            assert(r0.skip(1 + j)[0] == r0[1 + j]);
                            assert(r0.drop_first()[j as int] == r0[1 + j]);
                            assert(rest@ == before.remove(0));
                            assert(rows_view(rest@) =~= rows_view(before).drop_first());
                            assert(r0.skip(1 + j).drop_first() =~= r0.skip(1 + j + 1));
                            let sub = r0.subrange(1, 1 + j + 1);
                            assert(sub.drop_last() =~= r0.subrange(1, 1 + j));
                            assert(sub.last() == row_view(next));
                        }
                        cells = stack_exec(&cells, &next.cells);
                        j = j + 1;
                    }
                    proof {
                        let tail = r0.drop_first();
                        assert forall|m: int| 0 <= m < j implies spans_from_above(tail[m]) by {}
                        if rest@.len() > 0 {
                            assert(tail[j as int] == rows_view(rest@)[0]);
                        }
                        lemma_span_run_stop(tail, j as int);
                    }
                    let trimmed = trim_cells(&cells);
                    let ghost before = out@;
                    out.push(
                        GridRow { class, headers: Some((RowHeader::new(text, 1), None)), cells: trimmed },
                    );
                    proof {
                        assert(rows_view(out@) =~= rows_view(before).push(rows_view(out@).last()));
                        assert(r0.skip(1 + j) == rows_view(rest@));
                        assert(rows_view(out@) + blended_rows(rows_view(rest@)) =~= out0 + blended_rows(r0));
                    }
                },
                headers => {
                    let ghost before = out@;
                    let kept = GridRow { class, headers, cells };
                    proof {
                        assert(row_view(kept) == r0[0]);
                    }
                    out.push(kept);
                    proof {
                        assert(rows_view(out@) =~= rows_view(before).push(r0[0]));
                        assert(rows_view(out@) + blended_rows(rows_view(rest@)) =~= out0 + blended_rows(r0));
                    }
                },
            }
        }
        proof {
            assert(rows_view(rest@) =~= Seq::<RowView>::empty());
            assert(rows_view(out@) + Seq::<RowView>::empty() =~= rows_view(out@));
        }
        Grid { caption, class, heads, body: out }
    }
}

/// The text of a table of the given rows of cell texts as prettytable writes it with its clean
/// format, no padding and a space between columns. It depends on the rows alone.
pub uninterp spec fn plain_table_text(rows: Seq<Seq<Seq<char>>>) -> Seq<char>;

/// Builds a `prettytable::Table` from the rows, gives it the clean format with no padding and a
/// space as column separator, and writes it to a string with `to_string`. The contract names the
/// text: it depends on the rows alone.
#[verifier::external_body]
fn render_plain_table(rows: Vec<Vec<String>>) -> (r: String)
    ensures
        r@ == plain_table_text(rows@.map_values(|row: Vec<String>| texts(row@))),
{
    let mut format = *FORMAT_CLEAN;
    format.padding(0, 0);
    format.column_separator(' ');
    let mut table = PrettyTable::from(rows);
    table.set_format(format);
    table.to_string()
}

/// Where the columns of the `g`th header start.
pub open spec fn group_start(head: Seq<ColumnHeader>, g: int) -> int {
    span_total(head.take(g))
}

/// The texts of the cells under the `g`th header, row by row.
pub open spec fn group_rows(rows: Seq<RowView>, head: Seq<ColumnHeader>, g: int) -> Seq<Seq<Seq<char>>> {
    rows.map_values(
        |r: RowView|
            r.2.subrange(group_start(head, g), group_start(head, g) + head[g].colspan).map_values(
                |c: CellView| c.0,
            ),
    )
}

/// The lines of the plain table of the cells under the `g`th header.
pub open spec fn group_lines(rows: Seq<RowView>, head: Seq<ColumnHeader>, g: int) -> Seq<Seq<char>> {
    lines_of(plain_table_text(group_rows(rows, head, g)))
}

/// The cells of row `r` after blending the first `g` column groups, where `lines[g]` are the
/// lines laid out for group `g`: for each group, its line for the row, when it has one.
pub open spec fn blended_cells(lines: Seq<Seq<Seq<char>>>, r: int, g: int) -> Seq<CellView>
    decreases g,
{
    if g <= 0 {
        Seq::empty()
    } else {
        blended_cells(lines, r, g - 1) + if r < lines[g - 1].len() {
            seq![(lines[g - 1][r], None::<TDClass>)]
        } else {
            Seq::<CellView>::empty()
        }
    }
}

/// The rows after blending column groups whose laid-out lines are `lines`: each row keeps its
/// class and headers, and its cells are its blended cells.
pub open spec fn column_blended_rows(rows: Seq<RowView>, lines: Seq<Seq<Seq<char>>>) -> Seq<RowView> {
    Seq::new(rows.len(), |r: int| (rows[r].0, rows[r].1, blended_cells(lines, r, lines.len() as int)))
}

/// The lines laid out for each column group of the rows: the lines of the plain table of the
/// cells under each header.
pub open spec fn plain_group_lines(rows: Seq<RowView>, head: Seq<ColumnHeader>) -> Seq<Seq<Seq<char>>> {
    Seq::new(head.len(), |g: int| group_lines(rows, head, g))
}

proof fn lemma_span_step(head: Seq<ColumnHeader>, g: int)
    requires
        0 <= g < head.len(),
    ensures
        group_start(head, g) + head[g].colspan == group_start(head, g + 1),
        group_start(head, g + 1) <= span_total(head),
        0 <= group_start(head, g),
{
    assert(head.take(g + 1).drop_last() =~= head.take(g));
    lemma_span_prefix(head, g + 1);
    lemma_span_nonneg(head.take(g));
}

proof fn lemma_span_nonneg(head: Seq<ColumnHeader>)
    ensures
        span_total(head) >= 0,
    decreases head.len(),
{
    if head.len() > 0 {
        lemma_span_nonneg(head.drop_last());
    }
}

fn group_texts(rows: &Vec<GridRow>, start: usize, span: usize) -> (r: Vec<Vec<String>>)
    requires
        forall|i: int| 0 <= i < rows@.len() ==> start + span <= (#[trigger] rows@[i]).cells@.len(),
    ensures
        r@.map_values(|row: Vec<String>| texts(row@)) == rows_view(rows@).map_values(
            |v: RowView| v.2.subrange(start as int, start + span).map_values(|c: CellView| c.0),
        ),
{
    let ghost want = rows_view(rows@).map_values(
        |v: RowView| v.2.subrange(start as int, start + span).map_values(|c: CellView| c.0),
    );
    let mut out: Vec<Vec<String>> = Vec::new();
    let mut i: usize = 0;
    while i < rows.len()
        invariant
            i <= rows@.len(),
            forall|k: int| 0 <= k < rows@.len() ==> start + span <= (#[trigger] rows@[k]).cells@.len(),
            want == rows_view(rows@).map_values(
                |v: RowView| v.2.subrange(start as int, start + span).map_values(|c: CellView| c.0),
            ),
            out@.map_values(|row: Vec<String>| texts(row@)) == want.take(i as int),
        decreases rows@.len() - i,
    {
        let cells = &rows[i].cells;
        let ghost cv = cells@.map_values(|c: Cell| cell_view(c));
        let mut record: Vec<String> = Vec::new();
        let mut k: usize = 0;
        let cell_count = cells.len();
        while k < span
            invariant
                k <= span,
                cell_count == cells@.len(),
                start + span <= cells@.len(),
                cv == cells@.map_values(|c: Cell| cell_view(c)),
                texts(record@) == cv.subrange(start as int, start + k).map_values(|c: CellView| c.0),
            decreases span - k,
        {
            let ghost before = record@;
            record.push(cells[start + k].text.clone());
            proof {
                assert(cv[start + k] == cell_view(cells@[start + k]));
                assert(texts(record@) =~= texts(before).push(cells@[start + k].text@));
                assert(cv.subrange(start as int, start + k + 1).map_values(|c: CellView| c.0)
                    =~= cv.subrange(start as int, start + k).map_values(|c: CellView| c.0).push(
                    cv[start + k].0,
                ));
            }
            k = k + 1;
        }
        let ghost before = out@;
        out.push(record);
        proof {
            assert(rows_view(rows@)[i as int] == row_view(rows@[i as int]));
            assert(want[i as int] == texts(record@));
            assert(out@.map_values(|row: Vec<String>| texts(row@)) =~= before.map_values(
                |row: Vec<String>| texts(row@),
            ).push(want[i as int]));
            assert(want.take(i + 1) =~= want.take(i as int).push(want[i as int]));
        }
        i = i + 1;
    }
    proof {
        assert(want.take(i as int) =~= want);
    }
    out
}

impl Grid {
    /// Blends column groups whose cells were laid out already: `rendered[g]` is the text laid
    /// out for the cells under the `g`th column header. Each header then spans one column, and
    /// each row's cell for a header is the line of that text for the row, when it has one.
    pub fn blend_rendered_columns(self, rendered: Vec<String>) -> (r: Self)
        requires
            self.heads_view() matches Some((head, None)) && rendered@.len() == head.len(),
        ensures
            r.class_view() == self.class_view(),
            r.caption_view() == self.caption_view(),
            self.heads_view() matches Some((head, None)) ==> {
                &&& r.heads_view() matches Some((new_head, None)) && new_head.len() == head.len()
                    && forall|g: int|
                    0 <= g < head.len() ==> (#[trigger] new_head[g]).text@ == head[g].text@
                        && new_head[g].colspan == 1
                &&& rows_view(r.rows()) == column_blended_rows(
                    rows_view(self.rows()),
                    rendered@.map_values(|t: String| lines_of(t@)),
                )
            },
    {
        let ghost hv = self.heads_view();
        let ghost sr = self.rows();
        let ghost lines = rendered@.map_values(|t: String| lines_of(t@));
        let Grid { caption, class, heads, body } = self;
        match heads {
            Some((head, None)) => {
                assert(hv == Some((head@, None::<Seq<SubcolumnHeader>>)));
                assert(body@ == sr);
                let ghost rv = rows_view(body@);
                let row_count = body.len();
                let mut lines_by_group: Vec<Vec<String>> = Vec::new();
                let mut new_head: Vec<ColumnHeader> = Vec::new();
                let mut g: usize = 0;
                while g < head.len()
                    invariant
                        g <= head@.len() == rendered@.len() == lines.len(),
                        lines == rendered@.map_values(|t: String| lines_of(t@)),
                        lines_by_group@.len() == g,
                        forall|h: int| 0 <= h < g ==> texts((#[trigger] lines_by_group@[h])@) == lines[h],
                        new_head@.len() == g,
                        forall|h: int|
                            0 <= h < g ==> (#[trigger] new_head@[h]).text@ == head@[h].text@
                                && new_head@[h].colspan == 1,
                    decreases head@.len() - g,
                {
                    let group_lines = split_lines(rendered[g].as_str());
                    lines_by_group.push(group_lines);
                    new_head.push(ColumnHeader::new(head[g].text.clone(), 1));
                    g = g + 1;
                }
                let mut out: Vec<GridRow> = Vec::new();
                let mut rest = body;
                let mut r: usize = 0;
                while rest.len() > 0
                    invariant
                        lines_by_group@.len() == lines.len(),
                        lines == rendered@.map_values(|t: String| lines_of(t@)),
                        forall|h: int| 0 <= h < lines.len() ==> texts((#[trigger] lines_by_group@[h])@) == lines[h],
                        rv.len() == row_count,
                        r + rest@.len() == rv.len(),
                        rows_view(rest@) == rv.skip(r as int),
                        rows_view(out@) == column_blended_rows(rv, lines).take(r as int),
                    decreases rest@.len(),
                {
                    let ghost before_rest = rest@;
                    let row = rest.remove(0);
                    proof {
                        assert(rows_view(before_rest)[0] == row_view(row));
                        assert(rv.skip(r as int)[0] == rv[r as int]);
                        assert(rest@ == before_rest.remove(0));
                        assert(rows_view(rest@) =~= rows_view(before_rest).drop_first());
                        assert(rv.skip(r as int).drop_first() =~= rv.skip(r + 1));
                    }
                    let GridRow { class, headers, cells: _ } = row;
                    let mut cells: Vec<Cell> = Vec::new();
                    let mut h: usize = 0;
                    while h < lines_by_group.len()
                        invariant
                            h <= lines_by_group@.len() == lines.len(),
                            forall|q: int| 0 <= q < lines.len() ==> texts((#[trigger] lines_by_group@[q])@) == lines[q],
                            lines == rendered@.map_values(|t: String| lines_of(t@)),
                            cells@.map_values(|c: Cell| cell_view(c)) == blended_cells(lines, r as int, h as int),
                        decreases lines_by_group@.len() - h,
                    {
                        let group = &lines_by_group[h];
                        let ghost before = cells@;
                        if r < group.len() {
                            let line = group[r].clone();
                            proof {
                                assert(texts(group@)[r as int] == group@[r as int]@);
                                assert(lines[h as int] == lines_of(rendered@[h as int]@));
                                lemma_lines_have_no_newline(rendered@[h as int]@);
                                assert(lines[h as int][r as int] == line@);
                            }
                            cells.push(Cell::content(line, None));
                            proof {
                                assert(cells@.map_values(|c: Cell| cell_view(c)) =~= before.map_values(
                                    |c: Cell| cell_view(c),
                                ) + seq![(lines[h as int][r as int], None::<TDClass>)]);
                            }
                        } else {
                            proof {
                                assert(texts(group@).len() == group@.len());
                                assert(before.map_values(|c: Cell| cell_view(c)) + Seq::<CellView>::empty()
                                    =~= before.map_values(|c: Cell| cell_view(c)));
                            }
                        }
                        h = h + 1;
                    }
                    let ghost before_out = out@;
                    let new_row = GridRow { class, headers, cells };
                    proof {
                        assert(row_view(new_row) == column_blended_rows(rv, lines)[r as int]);
                    }
                    out.push(new_row);
                    proof {
                        assert(rows_view(out@) =~= rows_view(before_out).push(row_view(new_row)));
                        assert(column_blended_rows(rv, lines).take(r + 1) =~= column_blended_rows(rv, lines).take(
                            r as int,
                        ).push(column_blended_rows(rv, lines)[r as int]));
                    }
                    r = r + 1;
                }
                proof {
                    assert(column_blended_rows(rv, lines).take(r as int) =~= column_blended_rows(rv, lines));
                }
                Grid { caption, class, heads: Some((new_head, None)), body: out }
            },
            heads => Grid { caption, class, heads, body },
        }
    }

    /// Blends column groups when the grid has column headers and no subcolumn headers: the
    /// cells under each header are laid out as a plain table, whose lines become the rows'
    /// cells for that header, as `blend_rendered_columns` says, and each header then spans one
    /// column. Other grids stay as they are. Every row must have the cells its headers span.
    pub fn blend_column_groups(self) -> (r: Self)
        requires
            self.heads_view() matches Some((head, None)) ==> span_total(head) <= usize::MAX && forall|i: int|
                0 <= i < self.rows().len() ==> span_total(head) <= (#[trigger] self.rows()[i]).cells@.len(),
        ensures
            r.class_view() == self.class_view(),
            r.caption_view() == self.caption_view(),
            !(self.heads_view() matches Some((_, None))) ==> r.heads_view() == self.heads_view()
                && rows_view(r.rows()) == rows_view(self.rows()),
            self.heads_view() matches Some((head, None)) ==> {
                &&& r.heads_view() matches Some((new_head, None)) && new_head.len() == head.len()
                    && forall|g: int|
                    0 <= g < head.len() ==> (#[trigger] new_head[g]).text@ == head[g].text@
                        && new_head[g].colspan == 1
                &&& rows_view(r.rows()) == column_blended_rows(
                    rows_view(self.rows()),
                    plain_group_lines(rows_view(self.rows()), head),
                )
            },
    {
        let ghost hv = self.heads_view();
        let ghost rv = rows_view(self.rows());
        let mut rendered: Vec<String> = Vec::new();
        match &self.heads {
            Some((head, None)) => {
                assert(hv == Some((head@, None::<Seq<SubcolumnHeader>>)));
                let mut start: usize = 0;
                let mut g: usize = 0;
                while g < head.len()
                    invariant
                        g <= head@.len(),
                        hv == Some((head@, None::<Seq<SubcolumnHeader>>)),
                        rv == rows_view(self.body@),
                        span_total(head@) <= usize::MAX,
                        start == group_start(head@, g as int),
                        forall|i: int|
                            0 <= i < self.body@.len() ==> span_total(head@) <= (#[trigger] self.body@[i]).cells@.len(),
                        rendered@.len() == g,
                        forall|h: int| 0 <= h < g ==> lines_of((#[trigger] rendered@[h])@) == group_lines(rv, head@, h),
                    decreases head@.len() - g,
                {
                    proof {
                        lemma_span_step(head@, g as int);
                    }
                    let span = head[g].colspan;
                    let table = group_texts(&self.body, start, span);
                    proof {
                        assert(table@.map_values(|row: Vec<String>| texts(row@)) =~= group_rows(rv, head@, g as int));
                    }
                    let text = render_plain_table(table);
                    rendered.push(text);
                    start = start + span;
                    g = g + 1;
                }
                proof {
                    assert(rendered@.map_values(|t: String| lines_of(t@)) =~= plain_group_lines(rv, head@));
                }
            },
            _ => {
                return self;
            },
        }
        self.blend_rendered_columns(rendered)
    }
}

} // verus!
