use vstd::prelude::*;
use vstd::string::StringExecFns;

use crate::grid::blanks;
use crate::grid::rows_view;
use crate::grid::span_total;
use crate::grid::texts;
use crate::grid::Cell;
use crate::grid::CellView;
use crate::grid::ColumnHeader;
use crate::grid::Grid;
use crate::grid::GridRow;
use crate::grid::RowView;
use crate::grid::TDClass;
use crate::grid::TRBodyClass;
use crate::grid::TableClass;
use crate::grid::HeadersView;
use crate::text::chars_of;

verus! {

/// The number of phonemes in each column group of a spelling table: the phonemes divided
/// among the groups, rounded up.
pub open spec fn chunk_length(n: int, columns: int) -> int {
    if n % columns == 0 {
        n / columns
    } else {
        n / columns + 1
    }
}

/// The header of a spelling table: for each column group, `Phoneme` and the orthographies.
pub open spec fn spelling_header(orthographies: Seq<Seq<char>>, columns: int) -> Seq<Seq<char>>
    decreases columns,
{
    if columns <= 0 {
        Seq::empty()
    } else {
        spelling_header(orthographies, columns - 1) + seq!["Phoneme"@] + orthographies
    }
}

/// The cells of the `r`th row of a spelling table in its first `c` column groups: the
/// phoneme that group shows in the row and its spellings, or blank cells where the group has no
/// phoneme left. Group `g` shows the phonemes from `g * length` on.
pub open spec fn spelling_row(
    entries: Seq<(Seq<char>, Seq<Seq<char>>)>,
    orthography_count: int,
    length: int,
    r: int,
    c: int,
) -> Seq<Seq<char>>
    decreases c,
{
    if c <= 0 {
        Seq::empty()
    } else {
        let i = (c - 1) * length + r;
        spelling_row(entries, orthography_count, length, r, c - 1) + if i < entries.len() {
            seq![entries[i].0] + entries[i].1
        } else {
            blanks(orthography_count + 1)
        }
    }
}

/// The rows of a spelling table as plain values.
pub open spec fn spelling_rows(
    entries: Seq<(Seq<char>, Seq<Seq<char>>)>,
    orthography_count: int,
    columns: int,
) -> Seq<RowView> {
    let length = chunk_length(entries.len() as int, columns);
    Seq::new(
        length as nat,
        |r: int|
            (
                TRBodyClass::BodyRow,
                None::<(Option<(Seq<char>, usize)>, Option<Seq<char>>)>,
                spelling_row(entries, orthography_count, length, r, columns).map_values(
                    |t: Seq<char>| (t, None::<TDClass>),
                ),
            ),
    )
}

/// The phonemes and their spellings as plain values.
pub open spec fn entry_texts(entries: Seq<(String, Vec<String>)>) -> Seq<(Seq<char>, Seq<Seq<char>>)> {
    entries.map_values(|e: (String, Vec<String>)| (e.0@, texts(e.1@)))
}

/// Whether a spelling table can be laid out: some phonemes and column groups, a spelling for
/// each orthography, and texts of one line.
pub open spec fn spelling_table_fits(
    entries: Seq<(Seq<char>, Seq<Seq<char>>)>,
    orthography_count: int,
    columns: int,
) -> bool {
    &&& columns > 0
    &&& entries.len() > 0
    &&& forall|i: int|
        0 <= i < entries.len() ==> (#[trigger] entries[i]).1.len() == orthography_count && !entries[i].0.contains(
            '\n',
        ) && forall|j: int| 0 <= j < orthography_count ==> !(#[trigger] entries[i].1[j]).contains('\n')
}

proof fn lemma_span_of_singles(head: Seq<ColumnHeader>)
    requires
        forall|i: int| 0 <= i < head.len() ==> (#[trigger] head[i]).colspan == 1,
    ensures
        span_total(head) == head.len(),
    decreases head.len(),
{
    if head.len() > 0 {
        lemma_span_of_singles(head.drop_last());
    }
}

proof fn lemma_row_length(
    entries: Seq<(Seq<char>, Seq<Seq<char>>)>,
    orthography_count: int,
    length: int,
    r: int,
    c: int,
)
    requires
        orthography_count >= 0,
        r >= 0,
        length >= 0,
        forall|i: int| 0 <= i < entries.len() ==> (#[trigger] entries[i]).1.len() == orthography_count,
    ensures
        c >= 0 ==> spelling_row(entries, orthography_count, length, r, c).len() == c * (orthography_count + 1),
    decreases c,
{
    if c > 0 {
        lemma_row_length(entries, orthography_count, length, r, c - 1);
        let i = (c - 1) * length + r;
        assert(i >= 0) by (nonlinear_arith)
            requires
                c >= 1,
                length >= 0,
                r >= 0,
                i == (c - 1) * length + r,
        ;
        if i < entries.len() {
            assert(entries[i].1.len() == orthography_count);
        } else {
            assert(blanks(orthography_count + 1).len() == orthography_count + 1);
        }
        let m: int = orthography_count + 1;
        let before: int = spelling_row(entries, orthography_count, length, r, c - 1).len() as int;
        assert(before == (c - 1) * m);
        assert(spelling_row(entries, orthography_count, length, r, c).len() == before + m);
        assert(c * m == (c - 1) * m + m) by (nonlinear_arith);
        assert(spelling_row(entries, orthography_count, length, r, c).len() == c * m);
    } else if c == 0 {
        assert(c * (orthography_count + 1) == 0) by (nonlinear_arith)
            requires
                c == 0,
        ;
    }
}

/// The table of the spelling of each phoneme in each orthography, laid out in `columns` column
/// groups side by side, as `spelling_rows` says, with the caption `Spelling for` and the name of
/// the language. The table must fit, as `spelling_table_fits` says.
pub fn spelling_grid(
    language_name: &str,
    orthographies: &Vec<&'static str>,
    entries: &Vec<(String, Vec<String>)>,
    columns: usize,
) -> (r: Grid)
    requires
        spelling_table_fits(entry_texts(entries@), orthographies@.len() as int, columns as int),
    ensures
        r.class_view() == TableClass::ElbieOrthography,
        r.caption_view() == "Spelling for "@ + language_name@,
        r.heads_view() matches Some((head, None)) && head.map_values(|h: ColumnHeader| h.text@)
            == spelling_header(orthographies@.map_values(|o: &'static str| o@), columns as int) && forall|i: int|
            0 <= i < head.len() ==> (#[trigger] head[i]).colspan == 1,
        rows_view(r.rows()) == spelling_rows(entry_texts(entries@), orthographies@.len() as int, columns as int),
{
    let ghost ev = entry_texts(entries@);
    let ghost k = orthographies@.len() as int;
    let ghost ov = orthographies@.map_values(|o: &'static str| o@);
    let n = entries.len();
    let quotient = n / columns;
    let length: usize = if n % columns == 0 {
        quotient
    } else {
        assert(quotient < usize::MAX) by (nonlinear_arith)
            requires
                quotient == n / columns,
                n % columns != 0,
                columns > 0,
                n <= usize::MAX,
        ;
        quotient + 1
    };
    let mut caption = String::new();
    caption.append("Spelling for ");
    caption.append(language_name);
    let mut grid = Grid::new(TableClass::ElbieOrthography, caption);
    let mut header: Vec<ColumnHeader> = Vec::new();
    let mut c: usize = 0;
    while c < columns
        invariant
            c <= columns,
            ov == orthographies@.map_values(|o: &'static str| o@),
            header@.map_values(|h: ColumnHeader| h.text@) == spelling_header(ov, c as int),
            forall|i: int| 0 <= i < header@.len() ==> (#[trigger] header@[i]).colspan == 1,
        decreases columns - c,
    {
        let ghost start = header@;
        let mut phoneme = String::new();
        phoneme.append("Phoneme");
        header.push(ColumnHeader::new(phoneme, 1));
        let mut o: usize = 0;
        while o < orthographies.len()
            invariant
                o <= orthographies@.len(),
                ov == orthographies@.map_values(|o: &'static str| o@),
                header@.map_values(|h: ColumnHeader| h.text@) == start.map_values(|h: ColumnHeader| h.text@)
                    + seq!["Phoneme"@] + ov.take(o as int),
                forall|i: int| 0 <= i < header@.len() ==> (#[trigger] header@[i]).colspan == 1,
            decreases orthographies@.len() - o,
        {
            let mut name = String::new();
            name.append(orthographies[o]);
            let ghost before = header@;
            header.push(ColumnHeader::new(name, 1));
            proof {
                assert(header@.map_values(|h: ColumnHeader| h.text@) =~= before.map_values(|h: ColumnHeader| h.text@).push(
                    ov[o as int],
                ));
                assert(ov.take(o + 1) =~= ov.take(o as int).push(ov[o as int]));
            }
            o = o + 1;
        }
        proof {
            assert(ov.take(o as int) =~= ov);
        }
        c = c + 1;
    }
    proof {
        lemma_span_of_singles(header@);
        assert(header@.len() == spelling_header(ov, columns as int).len());
        lemma_header_length(ov, columns as int);
    }
    let ghost head = header@;
    grid.set_headers(header);
    let mut r: usize = 0;
    while r < length
        invariant
            r <= length,
            length == chunk_length(n as int, columns as int),
            n == entries@.len(),
            ev == entry_texts(entries@),
            k == orthographies@.len(),
            spelling_table_fits(ev, k, columns as int),
            span_total(head) == columns * (k + 1),
            grid.heads_view() == Some((head, None::<Seq<crate::grid::SubcolumnHeader>>)),
            grid.class_view() == TableClass::ElbieOrthography,
            grid.caption_view() == "Spelling for "@ + language_name@,
            forall|q: int| 0 <= q < grid.rows().len() ==> (#[trigger] grid.rows()[q]).headers is None
                && grid.rows()[q].cells@.len() == columns * (k + 1),
            rows_view(grid.rows()) == spelling_rows(ev, k, columns as int).take(r as int),
        decreases length - r,
    {
        let mut row = GridRow::new(TRBodyClass::BodyRow);
        let mut g: usize = 0;
        proof {
            assert(row.cells@.map_values(|c: Cell| (c.text@, c.class)) =~= spelling_row(ev, k, length as int, r as int, 0).map_values(
                |t: Seq<char>| (t, None::<TDClass>),
            ));
        }
        while g < columns
            invariant
                g <= columns,
                r < length,
                length == chunk_length(n as int, columns as int),
                n == entries@.len(),
                ev == entry_texts(entries@),
                k == orthographies@.len(),
                spelling_table_fits(ev, k, columns as int),
                row.class == TRBodyClass::BodyRow,
                row.headers is None,
                row.cells@.map_values(|c: Cell| (c.text@, c.class)) == spelling_row(ev, k, length as int, r as int, g as int).map_values(
                    |t: Seq<char>| (t, None::<TDClass>),
                ),
            decreases columns - g,
        {
            let ghost before = spelling_row(ev, k, length as int, r as int, g as int);
            proof {
                assert(length <= n) by (nonlinear_arith)
                    requires
                        length == chunk_length(n as int, columns as int),
                        n >= 1,
                        columns >= 1,
                ;
            }
            let base_at = g.checked_mul(length);
            let present = match base_at {
                Some(base) => base < n - r,
                None => false,
            };
            proof {
                assert(present == (g * length + r < n));
            }
            if present {
                let i = base_at.unwrap() + r;
                let entry = &entries[i];
                proof {
                    assert(ev[i as int] == (entry.0@, texts(entry.1@)));
                }
                let ghost prev = row.cells@;
                row.push_cell(Cell::content(entry.0.clone(), None));
                proof {
                    assert(row.cells@.map_values(|c: Cell| (c.text@, c.class)) =~= prev.map_values(
                        |c: Cell| (c.text@, c.class),
                    ).push((entry.0@, None::<TDClass>)));
                    assert(texts(entry.1@).take(0) =~= Seq::<Seq<char>>::empty());
                    assert(row.cells@.map_values(|c: Cell| (c.text@, c.class)) =~= (before + seq![entry.0@]
                        + texts(entry.1@).take(0)).map_values(|t: Seq<char>| (t, None::<TDClass>)));
                }
                let mut o: usize = 0;
                while o < entry.1.len()
                    invariant
                        o <= entry.1@.len(),
                        entry.1@.len() == k,
                        ev[i as int] == (entry.0@, texts(entry.1@)),
                        forall|j: int| 0 <= j < k ==> !(#[trigger] ev[i as int].1[j]).contains('\n'),
                        row.class == TRBodyClass::BodyRow,
                        row.headers is None,
                        row.cells@.map_values(|c: Cell| (c.text@, c.class)) == (before + seq![entry.0@]
                            + texts(entry.1@).take(o as int)).map_values(|t: Seq<char>| (t, None::<TDClass>)),
                        i < n,
                        n == entries@.len(),
                        ev == entry_texts(entries@),
                    decreases entry.1@.len() - o,
                {
                    assert(texts(entry.1@)[o as int] == entry.1@[o as int]@);
                    assert(ev[i as int].1[o as int] == entry.1@[o as int]@);
                    let ghost prev = row.cells@;
                    row.push_cell(Cell::content(entry.1[o].clone(), None));
                    proof {
                        assert(row.cells@.map_values(|c: Cell| (c.text@, c.class)) =~= prev.map_values(
                            |c: Cell| (c.text@, c.class),
                        ).push((entry.1@[o as int]@, None::<TDClass>)));
                        assert(texts(entry.1@).take(o + 1) =~= texts(entry.1@).take(o as int).push(entry.1@[o as int]@));
                        assert(row.cells@.map_values(|c: Cell| (c.text@, c.class)) =~= (before + seq![entry.0@]
                            + texts(entry.1@).take(o + 1)).map_values(|t: Seq<char>| (t, None::<TDClass>)));
                    }
                    o = o + 1;
                }
                proof {
                    assert(texts(entry.1@).take(o as int) =~= texts(entry.1@));
                    assert(spelling_row(ev, k, length as int, r as int, g + 1) =~= spelling_row(
                        ev,
                        k,
                        length as int,
                        r as int,
                        g as int,
                    ) + (seq![entry.0@] + texts(entry.1@)));
                    assert(row.cells@.map_values(|c: Cell| (c.text@, c.class)) =~= spelling_row(
                        ev,
                        k,
                        length as int,
                        r as int,
                        g + 1,
                    ).map_values(|t: Seq<char>| (t, None::<TDClass>)));
                }
            } else {
                let ghost prev = row.cells@;
                row.push_cell(Cell::content(String::new(), None));
                proof {
                    assert(row.cells@.map_values(|c: Cell| (c.text@, c.class)) =~= prev.map_values(
                        |c: Cell| (c.text@, c.class),
                    ).push((Seq::<char>::empty(), None::<TDClass>)));
                    assert(blanks(1) =~= seq![Seq::<char>::empty()]);
                    assert(row.cells@.map_values(|c: Cell| (c.text@, c.class)) =~= (before + blanks(1)).map_values(
                        |t: Seq<char>| (t, None::<TDClass>),
                    ));
                }
                let mut o: usize = 0;
                while o < orthographies.len()
                    invariant
                        o <= orthographies@.len(),
                        k == orthographies@.len(),
                        row.class == TRBodyClass::BodyRow,
                        row.headers is None,
                        row.cells@.map_values(|c: Cell| (c.text@, c.class)) == (before + blanks(o + 1)).map_values(
                            |t: Seq<char>| (t, None::<TDClass>),
                        ),
                    decreases orthographies@.len() - o,
                {
                    let blank = String::new();
                    assert(!blank@.contains('\n'));
                    let ghost prev = row.cells@;
                    row.push_cell(Cell::content(blank, None));
                    proof {
                        assert(row.cells@.map_values(|c: Cell| (c.text@, c.class)) =~= prev.map_values(
                            |c: Cell| (c.text@, c.class),
                        ).push((Seq::<char>::empty(), None::<TDClass>)));
                        assert(blanks(o + 2) =~= blanks(o + 1).push(Seq::<char>::empty()));
                        assert(row.cells@.map_values(|c: Cell| (c.text@, c.class)) =~= (before + blanks(o + 2)).map_values(
                            |t: Seq<char>| (t, None::<TDClass>),
                        ));
                    }
                    o = o + 1;
                }
                proof {
                    assert(spelling_row(ev, k, length as int, r as int, g + 1) =~= spelling_row(
                        ev,
                        k,
                        length as int,
                        r as int,
                        g as int,
                    ) + blanks(k + 1));
                }
            }
            g = g + 1;
        }
        proof {
            lemma_row_length(ev, k, length as int, r as int, columns as int);
            assert(row.cells@.len() == columns * (k + 1));
            assert(crate::grid::row_view(row) == spelling_rows(ev, k, columns as int)[r as int]);
        }
        let ghost rows_before = grid.rows();
        grid.push_body_row(row);
        proof {
            assert(rows_view(grid.rows()) =~= rows_view(rows_before).push(crate::grid::row_view(row)));
            assert(spelling_rows(ev, k, columns as int).take(r + 1) =~= spelling_rows(ev, k, columns as int).take(
                r as int,
            ).push(spelling_rows(ev, k, columns as int)[r as int]));
        }
        r = r + 1;
    }
    proof {
        assert(spelling_rows(ev, k, columns as int).take(r as int) =~= spelling_rows(ev, k, columns as int));
    }
    grid
}

proof fn lemma_header_length(orthographies: Seq<Seq<char>>, columns: int)
    ensures
        columns >= 0 ==> spelling_header(orthographies, columns).len() == columns * (orthographies.len() + 1),
    decreases columns,
{
    if columns > 0 {
        lemma_header_length(orthographies, columns - 1);
        let m: int = orthographies.len() as int + 1;
        let before: int = spelling_header(orthographies, columns - 1).len() as int;
        assert(before == (columns - 1) * m);
        assert(spelling_header(orthographies, columns).len() == before + m);
        assert(columns * m == (columns - 1) * m + m) by (nonlinear_arith);
        assert(spelling_header(orthographies, columns).len() == columns * m);
    } else if columns == 0 {
        assert(columns * (orthographies.len() + 1) == 0) by (nonlinear_arith)
            requires
                columns == 0,
        ;
    }
}


fn has_newline(text: &str) -> (r: bool)
    ensures
        r == text@.contains('\n'),
{
    let chars = chars_of(text);
    let mut i: usize = 0;
    while i < chars.len()
        invariant
            i <= chars@.len(),
            chars@ == text@,
            forall|j: int| 0 <= j < i ==> chars@[j] != '\n',
        decreases chars@.len() - i,
    {
        if chars[i] == '\n' {
            assert(text@[i as int] == '\n');
            return true;
        }
        i = i + 1;
    }
    false
}

/// Checks whether a spelling table can be laid out, as `spelling_table_fits` says.
pub fn check_spelling_table(orthographies: &Vec<&'static str>, entries: &Vec<(String, Vec<String>)>, columns: usize) -> (r: bool)
    ensures
        r == spelling_table_fits(entry_texts(entries@), orthographies@.len() as int, columns as int),
{
    let ghost ev = entry_texts(entries@);
    let n = entries.len();
    if columns == 0 || n == 0 {
        return false;
    }
    let mut i: usize = 0;
    while i < n
        invariant
            i <= n == entries@.len(),
            ev == entry_texts(entries@),
            forall|q: int|
                0 <= q < i ==> (#[trigger] ev[q]).1.len() == orthographies@.len() && !ev[q].0.contains('\n')
                    && forall|j: int| 0 <= j < orthographies@.len() ==> !(#[trigger] ev[q].1[j]).contains('\n'),
        decreases n - i,
    {
        let entry = &entries[i];
        assert(ev[i as int] == (entry.0@, texts(entry.1@)));
        if entry.1.len() != orthographies.len() || has_newline(entry.0.as_str()) {
            return false;
        }
        let mut o: usize = 0;
        while o < entry.1.len()
            invariant
                o <= entry.1@.len(),
                entry.1@.len() == orthographies@.len(),
                i < n == entries@.len(),
                ev == entry_texts(entries@),
                ev[i as int] == (entry.0@, texts(entry.1@)),
                forall|j: int| 0 <= j < o ==> !(#[trigger] ev[i as int].1[j]).contains('\n'),
            decreases entry.1@.len() - o,
        {
            assert(ev[i as int].1[o as int] == entry.1@[o as int]@);
            if has_newline(entry.1[o].as_str()) {
                return false;
            }
            o = o + 1;
        }
        i = i + 1;
    }
    true
}

} // verus!
