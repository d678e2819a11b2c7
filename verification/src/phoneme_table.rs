use vstd::prelude::*;
use vstd::string::StringSliceAdditionalSpecFns;

use crate::errors::ElbieError;
use crate::names::same_name;
use crate::patterns::lookup;
use crate::patterns::lookup_index;

verus! {

/// An axis of a phoneme table.
#[derive(Debug, Clone, Copy, PartialEq, Eq)]
pub enum Axis {
    Column,
    Subcolumn,
    Row,
    Subrow,
}

/// An option that changes how a phoneme table is laid out.
#[derive(Debug, Clone, Copy, PartialEq, Eq, Hash)]
pub enum TableOption {
    HideSubcolumnCaptions,
    BlendSubcolumns,
    HideSubrowCaptions,
}

/// A caption of a column or row of a phoneme table, and its place along its axis.
#[derive(Debug, Clone, Copy)]
pub struct HeaderDef {
    pub caption: &'static str,
    pub order: usize,
}

impl HeaderDef {
    /// A header with the given caption and place.
    pub fn new(caption: &'static str, order: usize) -> (r: Self)
        ensures
            r.caption == caption,
            r.order == order,
    {
        HeaderDef { caption, order }
    }
}

/// A column or row of a phoneme table: its caption and the set of phonemes it holds.
#[derive(Debug, Clone, Copy)]
pub struct ColumnDef {
    pub caption: &'static str,
    pub set: &'static str,
}

/// The headers after the header of `def` is added: it takes the next place along the axis,
/// replacing the header of its set where the set is there already.
pub open spec fn header_added(entries: Seq<(&'static str, HeaderDef)>, def: ColumnDef) -> Seq<
    (&'static str, HeaderDef),
> {
    let next = HeaderDef { caption: def.caption, order: entries.len() as usize };
    if lookup(entries, def.set.spec_bytes()) is Some {
        let i = lookup_index(entries, def.set.spec_bytes());
        entries.update(i, (entries[i].0, next))
    } else {
        entries.push((def.set, next))
    }
}

/// The headers after those of `defs` are added in turn, and the result: adding stops at the
/// first set that is there already, with that set's former header as the error.
pub open spec fn headers_added(entries: Seq<(&'static str, HeaderDef)>, defs: Seq<ColumnDef>) -> (
    Seq<(&'static str, HeaderDef)>,
    Result<(), HeaderDef>,
)
    decreases defs.len(),
{
    if defs.len() == 0 {
        (entries, Ok(()))
    } else {
        match lookup(entries, defs[0].set.spec_bytes()) {
            Some(old_def) => (header_added(entries, defs[0]), Err(old_def)),
            None => headers_added(header_added(entries, defs[0]), defs.drop_first()),
        }
    }
}

/// The headers of one axis, by set: adding a set takes the next place along the axis; adding a
/// set again replaces its header and gives back the one it had.
#[derive(Debug)]
pub struct HeaderMap {
    entries: Vec<(&'static str, HeaderDef)>,
}

impl HeaderMap {
    /// The headers by set, in the order they were first added.
    pub closed spec fn entry_list(&self) -> Seq<(&'static str, HeaderDef)> {
        self.entries@
    }

    /// An empty axis.
    pub fn new() -> (r: Self)
        ensures
            r.entry_list().len() == 0,
    {
        HeaderMap { entries: Vec::new() }
    }

    /// The headers by set.
    pub fn entries(&self) -> (r: &Vec<(&'static str, HeaderDef)>)
        ensures
            r@ == self.entry_list(),
    {
        &self.entries
    }

    /// The set names of the axis, in order.
    pub fn sets(&self) -> (r: Vec<&'static str>)
        ensures
            r@ == self.entry_list().map_values(|e: (&'static str, HeaderDef)| e.0),
    {
        let mut out: Vec<&'static str> = Vec::new();
        let mut i: usize = 0;
        while i < self.entries.len()
            invariant
                i <= self.entries@.len(),
                out@ == self.entries@.take(i as int).map_values(|e: (&'static str, HeaderDef)| e.0),
            decreases self.entries@.len() - i,
        {
            out.push(self.entries[i].0);
            proof {
                assert(self.entries@.take(i + 1).map_values(|e: (&'static str, HeaderDef)| e.0)
                    =~= self.entries@.take(i as int).map_values(|e: (&'static str, HeaderDef)| e.0).push(
                    self.entries@[i as int].0,
                ));
            }
            i = i + 1;
        }
        proof {
            assert(self.entries@.take(i as int) =~= self.entries@);
        }
        out
    }

    /// Adds the header of a set, at the next place along the axis. A set that is there already
    /// gets the new header, and its old header comes back as the error.
    pub fn add(&mut self, def: &ColumnDef) -> (r: Result<(), HeaderDef>)
        ensures
            final(self).entry_list() == header_added(old(self).entry_list(), *def),
            lookup(final(self).entry_list(), def.set.spec_bytes()) == Some(
                HeaderDef { caption: def.caption, order: old(self).entry_list().len() as usize },
            ),
            r is Ok <==> lookup(old(self).entry_list(), def.set.spec_bytes()) is None,
            r matches Err(old_def) ==> lookup(old(self).entry_list(), def.set.spec_bytes()) == Some(old_def),
            r is Ok ==> final(self).entry_list() == old(self).entry_list().push(
                (def.set, HeaderDef { caption: def.caption, order: old(self).entry_list().len() as usize }),
            ),
            r is Err ==> final(self).entry_list().len() == old(self).entry_list().len(),
            final(self).entry_list().len() >= old(self).entry_list().len(),
            forall|k: int|
                0 <= k < old(self).entry_list().len() ==> final(self).entry_list()[k].0 == old(
                    self,
                ).entry_list()[k].0,
    {
        let next = HeaderDef { caption: def.caption, order: self.entries.len() };
        let mut i: usize = 0;
        assert(self.entries@.skip(0) =~= self.entries@);
        while i < self.entries.len()
            invariant
                i <= self.entries@.len(),
                self.entries@ == old(self).entries@,
                next == (HeaderDef { caption: def.caption, order: old(self).entry_list().len() as usize }),
                lookup(self.entries@, def.set.spec_bytes()) == lookup(self.entries@.skip(i as int), def.set.spec_bytes()),
                forall|k: int| 0 <= k < i ==> self.entries@[k].0.spec_bytes() != def.set.spec_bytes(),
            decreases self.entries@.len() - i,
        {
            proof {
                assert(self.entries@.skip(i as int)[0] == self.entries@[i as int]);
                assert(self.entries@.skip(i as int).drop_first() =~= self.entries@.skip(i + 1));
            }
            if same_name(self.entries[i].0, def.set) {
                let old_def = self.entries[i].1;
                let key = self.entries[i].0;
                let ghost before = self.entries@;
                self.entries.set(i, (key, next));
                proof {
                    lemma_lookup_set(before, i as int, key, def.set.spec_bytes(), next);
                    lemma_lookup_index_at(before, i as int, def.set.spec_bytes());
                }
                return Err(old_def);
            }
            i = i + 1;
        }
        proof {
            assert(self.entries@.skip(i as int) =~= Seq::<(&'static str, HeaderDef)>::empty());
        }
        let ghost before = self.entries@;
        self.entries.push((def.set, next));
        proof {
            lemma_lookup_end(before, def.set, next);
        }
        Ok(())
    }

    /// Adds the headers of some sets in turn, stopping at the first set that is there already,
    /// as `headers_added` says.
    pub fn add_all(&mut self, defs: &[ColumnDef]) -> (r: Result<(), HeaderDef>)
        ensures
            (final(self).entry_list(), r) == headers_added(old(self).entry_list(), defs@),
            r is Ok ==> forall|k: int|
                0 <= k < defs@.len() ==> (#[trigger] lookup(final(self).entry_list(), defs@[k].set.spec_bytes())) is Some,
    {
        let mut i: usize = 0;
        proof {
            assert(defs@.skip(0) =~= defs@);
        }
        while i < defs.len()
            invariant
                i <= defs@.len(),
                headers_added(old(self).entry_list(), defs@) == headers_added(self.entry_list(), defs@.skip(i as int)),
                forall|k: int|
                    0 <= k < i ==> (#[trigger] lookup(self.entry_list(), defs@[k].set.spec_bytes())) is Some,
            decreases defs@.len() - i,
        {
            let ghost before = self.entry_list();
            proof {
                assert(defs@.skip(i as int)[0] == defs@[i as int]);
                assert(defs@.skip(i as int).drop_first() =~= defs@.skip(i + 1));
            }
            let r = self.add(&defs[i]);
            proof {
                assert forall|k: int| 0 <= k < i implies (#[trigger] lookup(self.entry_list(), defs@[k].set.spec_bytes())) is Some by {
                    lemma_lookup_kept(before, self.entry_list(), defs@[k].set.spec_bytes());
                }
            }
            if let Err(e) = r {
                return Err(e);
            }
            i = i + 1;
        }
        proof {
            assert(defs@.skip(i as int) =~= Seq::<ColumnDef>::empty());
        }
        Ok(())
    }
}

/// The first entry named `name` is at `i`.
proof fn lemma_lookup_index_at(entries: Seq<(&'static str, HeaderDef)>, i: int, name: Seq<u8>)
    requires
        0 <= i < entries.len(),
        entries[i].0.spec_bytes() == name,
        forall|k: int| 0 <= k < i ==> entries[k].0.spec_bytes() != name,
    ensures
        lookup_index(entries, name) == i,
    decreases i,
{
    if i > 0 {
        lemma_lookup_index_at(entries.drop_first(), i - 1, name);
    }
}

proof fn lemma_lookup_set(
    entries: Seq<(&'static str, HeaderDef)>,
    i: int,
    key: &'static str,
    name: Seq<u8>,
    value: HeaderDef,
)
    requires
        0 <= i < entries.len(),
        entries[i].0 == key,
        key.spec_bytes() == name,
        forall|k: int| 0 <= k < i ==> entries[k].0.spec_bytes() != name,
    ensures
        lookup(entries.update(i, (key, value)), name) == Some(value),
        lookup(entries, name) == Some(entries[i].1),
    decreases i,
{
    if i > 0 {
        lemma_lookup_set(entries.drop_first(), i - 1, key, name, value);
        assert(entries.update(i, (key, value)).drop_first() =~= entries.drop_first().update(i - 1, (key, value)));
    }
}

proof fn lemma_lookup_end(entries: Seq<(&'static str, HeaderDef)>, name: &'static str, value: HeaderDef)
    requires
        forall|k: int| 0 <= k < entries.len() ==> entries[k].0.spec_bytes() != name.spec_bytes(),
    ensures
        lookup(entries.push((name, value)), name.spec_bytes()) == Some(value),
        lookup(entries, name.spec_bytes()) is None,
    decreases entries.len(),
{
    if entries.len() > 0 {
        lemma_lookup_end(entries.drop_first(), name, value);
        assert(entries.push((name, value)).drop_first() =~= entries.drop_first().push((name, value)));
    } else {
        assert(entries.push((name, value)).drop_first() =~= Seq::<(&'static str, HeaderDef)>::empty());
    }
}

proof fn lemma_lookup_kept(before: Seq<(&'static str, HeaderDef)>, after: Seq<(&'static str, HeaderDef)>, key: Seq<u8>)
    requires
        lookup(before, key) is Some,
        after.len() >= before.len(),
        forall|k: int| 0 <= k < before.len() ==> after[k].0 == before[k].0,
    ensures
        lookup(after, key) is Some,
    decreases before.len(),
{
    if before[0].0.spec_bytes() != key {
        lemma_lookup_kept(before.drop_first(), after.drop_first(), key);
    }
}

/// The definition of a table of one cell.
#[derive(Debug)]
pub struct Table0DDef {
    pub header: HeaderDef,
}

impl Table0DDef {
    /// A one-cell table with a caption.
    pub fn new(caption: &'static str) -> (r: Self)
        ensures
            r.header == (HeaderDef { caption, order: 0 }),
    {
        Table0DDef { header: HeaderDef { caption, order: 0 } }
    }
}

/// The definition of a list table: a caption and rows by set.
#[derive(Debug)]
pub struct Table1DDef {
    pub header: HeaderDef,
    pub rows_by_set: HeaderMap,
}

impl Table1DDef {
    /// A list table with a caption and no rows.
    pub fn new(caption: &'static str) -> (r: Self)
        ensures
            r.header == (HeaderDef { caption, order: 0 }),
            r.rows_by_set.entry_list().len() == 0,
    {
        Table1DDef { header: HeaderDef { caption, order: 0 }, rows_by_set: HeaderMap::new() }
    }
}

/// The definition of a table with columns and rows.
#[derive(Debug)]
pub struct Table2DDef {
    pub caption: &'static str,
    pub columns_by_set: HeaderMap,
    pub rows_by_set: HeaderMap,
}

impl Table2DDef {
    /// A table with a caption and no columns or rows.
    pub fn new(caption: &'static str) -> (r: Self)
        ensures
            r.caption == caption,
            r.columns_by_set.entry_list().len() == 0,
            r.rows_by_set.entry_list().len() == 0,
    {
        Table2DDef { caption, columns_by_set: HeaderMap::new(), rows_by_set: HeaderMap::new() }
    }
}

/// The definition of a table with columns, subcolumns and rows.
#[derive(Debug)]
pub struct Table3DDef {
    pub caption: &'static str,
    pub columns_by_set: HeaderMap,
    pub subcolumns_by_set: HeaderMap,
    pub rows_by_set: HeaderMap,
    pub hide_subcolumn_captions: bool,
    pub blend_subcolumns: bool,
}

impl Table3DDef {
    /// A table with a caption and no columns, subcolumns or rows.
    pub fn new(caption: &'static str) -> (r: Self)
        ensures
            r.caption == caption,
            r.columns_by_set.entry_list().len() == 0,
            r.subcolumns_by_set.entry_list().len() == 0,
            r.rows_by_set.entry_list().len() == 0,
            !r.hide_subcolumn_captions,
            !r.blend_subcolumns,
    {
        Table3DDef {
            caption,
            columns_by_set: HeaderMap::new(),
            subcolumns_by_set: HeaderMap::new(),
            rows_by_set: HeaderMap::new(),
            hide_subcolumn_captions: false,
            blend_subcolumns: false,
        }
    }
}

/// The definition of a table with columns, subcolumns, rows and subrows.
#[derive(Debug)]
pub struct Table4DDef {
    pub caption: &'static str,
    pub columns_by_set: HeaderMap,
    pub subcolumns_by_set: HeaderMap,
    pub rows_by_set: HeaderMap,
    pub subrows_by_set: HeaderMap,
    pub hide_subcolumn_captions: bool,
    pub blend_subcolumns: bool,
    pub hide_subrow_captions: bool,
}

impl Table4DDef {
    /// A table with a caption and no headers on any axis.
    pub fn new(caption: &'static str) -> (r: Self)
        ensures
            r.caption == caption,
            r.columns_by_set.entry_list().len() == 0,
            r.subcolumns_by_set.entry_list().len() == 0,
            r.rows_by_set.entry_list().len() == 0,
            r.subrows_by_set.entry_list().len() == 0,
            !r.hide_subcolumn_captions,
            !r.blend_subcolumns,
            !r.hide_subrow_captions,
    {
        Table4DDef {
            caption,
            columns_by_set: HeaderMap::new(),
            subcolumns_by_set: HeaderMap::new(),
            rows_by_set: HeaderMap::new(),
            subrows_by_set: HeaderMap::new(),
            hide_subcolumn_captions: false,
            blend_subcolumns: false,
            hide_subrow_captions: false,
        }
    }
}

/// The definition of a phoneme table, by the number of its axes.
#[derive(Debug)]
pub enum TableDef {
    OneCell(Table0DDef),
    ListTable(Table1DDef),
    SimpleTable(Table2DDef),
    TableWithSubcolumns(Table3DDef),
    TableWithSubcolumnsAndSubrows(Table4DDef),
}

/// Whether a table definition takes an option: subcolumn options need subcolumns, the subrow
/// option needs subrows.
pub open spec fn takes_option(def: TableDef, option: TableOption) -> bool {
    match option {
        TableOption::HideSubcolumnCaptions => def is TableWithSubcolumns || def is TableWithSubcolumnsAndSubrows,
        TableOption::BlendSubcolumns => def is TableWithSubcolumns || def is TableWithSubcolumnsAndSubrows,
        TableOption::HideSubrowCaptions => def is TableWithSubcolumnsAndSubrows,
    }
}

/// The definition with an option turned on, where the definition takes it.
pub open spec fn with_option(def: TableDef, option: TableOption) -> TableDef {
    match (def, option) {
        (TableDef::TableWithSubcolumns(d), TableOption::HideSubcolumnCaptions) => TableDef::TableWithSubcolumns(
            Table3DDef { hide_subcolumn_captions: true, ..d },
        ),
        (TableDef::TableWithSubcolumns(d), TableOption::BlendSubcolumns) => TableDef::TableWithSubcolumns(
            Table3DDef { blend_subcolumns: true, ..d },
        ),
        (TableDef::TableWithSubcolumnsAndSubrows(d), TableOption::HideSubcolumnCaptions) => TableDef::TableWithSubcolumnsAndSubrows(
            Table4DDef { hide_subcolumn_captions: true, ..d },
        ),
        (TableDef::TableWithSubcolumnsAndSubrows(d), TableOption::BlendSubcolumns) => TableDef::TableWithSubcolumnsAndSubrows(
            Table4DDef { blend_subcolumns: true, ..d },
        ),
        (TableDef::TableWithSubcolumnsAndSubrows(d), TableOption::HideSubrowCaptions) => TableDef::TableWithSubcolumnsAndSubrows(
            Table4DDef { hide_subrow_captions: true, ..d },
        ),
        _ => def,
    }
}

/// The headers of an axis made by adding the headers of `axis` in turn to an empty axis.
pub open spec fn built_headers(axis: Seq<ColumnDef>) -> Seq<(&'static str, HeaderDef)> {
    headers_added(Seq::empty(), axis).0
}

/// Whether `def` is the definition built from a caption, axes and options: the kind of table
/// by the number of axes; the axes as columns, rows, subcolumns and subrows in that order
/// (a single axis gives rows); and each display option on exactly when it was given.
pub open spec fn builds(def: TableDef, caption: &'static str, axes: Seq<Seq<ColumnDef>>, options: Seq<TableOption>) -> bool {
    match def {
        TableDef::OneCell(d) => axes.len() == 0 && d.header == (HeaderDef { caption, order: 0 }),
        TableDef::ListTable(d) => axes.len() == 1 && d.header == (HeaderDef { caption, order: 0 })
            && d.rows_by_set.entry_list() == built_headers(axes[0]),
        TableDef::SimpleTable(d) => axes.len() == 2 && d.caption == caption && d.columns_by_set.entry_list()
            == built_headers(axes[0]) && d.rows_by_set.entry_list() == built_headers(axes[1]),
        TableDef::TableWithSubcolumns(d) => axes.len() == 3 && d.caption == caption
            && d.columns_by_set.entry_list() == built_headers(axes[0]) && d.rows_by_set.entry_list()
            == built_headers(axes[1]) && d.subcolumns_by_set.entry_list() == built_headers(axes[2])
            && d.hide_subcolumn_captions == options.contains(TableOption::HideSubcolumnCaptions)
            && d.blend_subcolumns == options.contains(TableOption::BlendSubcolumns),
        TableDef::TableWithSubcolumnsAndSubrows(d) => axes.len() == 4 && d.caption == caption
            && d.columns_by_set.entry_list() == built_headers(axes[0]) && d.rows_by_set.entry_list()
            == built_headers(axes[1]) && d.subcolumns_by_set.entry_list() == built_headers(axes[2])
            && d.subrows_by_set.entry_list() == built_headers(axes[3]) && d.hide_subcolumn_captions
            == options.contains(TableOption::HideSubcolumnCaptions) && d.blend_subcolumns == options.contains(
            TableOption::BlendSubcolumns,
        ) && d.hide_subrow_captions == options.contains(TableOption::HideSubrowCaptions),
    }
}

impl TableDef {
    /// Turns an option on. An option the definition does not take is an error, and nothing
    /// changes.
    pub fn set_option(&mut self, option: &TableOption) -> (r: Result<(), ElbieError>)
        ensures
            r is Ok <==> takes_option(*old(self), *option),
            r is Ok <==> takes_option_count(axis_count(*old(self)), *option),
            axis_count(*final(self)) == axis_count(*old(self)),
            r is Err ==> r == Err::<(), ElbieError>(ElbieError::InvalidOptionForTable(*option))
                && *final(self) == *old(self),
            r is Ok ==> *final(self) == with_option(*old(self), *option),
            r is Ok ==> match (*final(self), *option) {
                (TableDef::TableWithSubcolumns(d), TableOption::HideSubcolumnCaptions) => d.hide_subcolumn_captions,
                (TableDef::TableWithSubcolumns(d), TableOption::BlendSubcolumns) => d.blend_subcolumns,
                (TableDef::TableWithSubcolumnsAndSubrows(d), TableOption::HideSubcolumnCaptions) => d.hide_subcolumn_captions,
                (TableDef::TableWithSubcolumnsAndSubrows(d), TableOption::BlendSubcolumns) => d.blend_subcolumns,
                (TableDef::TableWithSubcolumnsAndSubrows(d), TableOption::HideSubrowCaptions) => d.hide_subrow_captions,
                _ => false,
            },
    {
        match (self, option) {
            (TableDef::TableWithSubcolumns(d), TableOption::HideSubcolumnCaptions) => {
                d.hide_subcolumn_captions = true;
                Ok(())
            },
            (TableDef::TableWithSubcolumns(d), TableOption::BlendSubcolumns) => {
                d.blend_subcolumns = true;
                Ok(())
            },
            (TableDef::TableWithSubcolumnsAndSubrows(d), TableOption::HideSubcolumnCaptions) => {
                d.hide_subcolumn_captions = true;
                Ok(())
            },
            (TableDef::TableWithSubcolumnsAndSubrows(d), TableOption::BlendSubcolumns) => {
                d.blend_subcolumns = true;
                Ok(())
            },
            (TableDef::TableWithSubcolumnsAndSubrows(d), TableOption::HideSubrowCaptions) => {
                d.hide_subrow_captions = true;
                Ok(())
            },
            _ => Err(ElbieError::InvalidOptionForTable(*option)),
        }
    }

    /// The sets of the rows, for tables that have rows.
    pub fn row_sets(&self) -> (r: Option<Vec<&'static str>>)
        ensures
            r is None <==> *self is OneCell,
            r matches Some(v) ==> v@ == match *self {
                TableDef::ListTable(d) => d.rows_by_set.entry_list(),
                TableDef::SimpleTable(d) => d.rows_by_set.entry_list(),
                TableDef::TableWithSubcolumns(d) => d.rows_by_set.entry_list(),
                TableDef::TableWithSubcolumnsAndSubrows(d) => d.rows_by_set.entry_list(),
                TableDef::OneCell(_) => Seq::empty(),
            }.map_values(|e: (&'static str, HeaderDef)| e.0),
    {
        match self {
            TableDef::OneCell(_) => None,
            TableDef::ListTable(d) => Some(d.rows_by_set.sets()),
            TableDef::SimpleTable(d) => Some(d.rows_by_set.sets()),
            TableDef::TableWithSubcolumns(d) => Some(d.rows_by_set.sets()),
            TableDef::TableWithSubcolumnsAndSubrows(d) => Some(d.rows_by_set.sets()),
        }
    }
}

/// A phoneme table of a language: its name, the set of phonemes it shows, and its definition.
#[derive(Debug)]
pub struct TableEntry {
    pub id: &'static str,
    pub set: &'static str,
    pub definition: TableDef,
}

impl TableEntry {
    /// The name of the table.
    pub fn id(&self) -> (r: &'static str)
        ensures
            r == self.id,
    {
        self.id
    }

    /// The set of phonemes the table shows.
    pub fn set(&self) -> (r: &'static str)
        ensures
            r == self.set,
    {
        self.set
    }

    /// The definition of the table.
    pub fn definition(&self) -> (r: &TableDef)
        ensures
            *r == self.definition,
    {
        &self.definition
    }
}

/// The number of axes a definition has.
pub open spec fn axis_count(def: TableDef) -> nat {
    match def {
        TableDef::OneCell(_) => 0,
        TableDef::ListTable(_) => 1,
        TableDef::SimpleTable(_) => 2,
        TableDef::TableWithSubcolumns(_) => 3,
        TableDef::TableWithSubcolumnsAndSubrows(_) => 4,
    }
}

/// Builds the definition of a phoneme table: up to four axes (columns, rows, subcolumns,
/// subrows, in that order) and options, then adds it to the tables of a language.
#[derive(Debug)]
pub struct TableBuilder {
    id: &'static str,
    caption: &'static str,
    master_set: &'static str,
    axisses: Vec<Vec<ColumnDef>>,
    options: Vec<TableOption>,
}

fn to_column_defs(axis: &[(&'static str, &'static str)]) -> (r: Vec<ColumnDef>)
    ensures
        r@.len() == axis@.len(),
        forall|k: int| 0 <= k < axis@.len() ==> (#[trigger] r@[k]) == (ColumnDef { caption: axis@[k].0, set: axis@[k].1 }),
{
    let mut out: Vec<ColumnDef> = Vec::new();
    let mut i: usize = 0;
    while i < axis.len()
        invariant
            i <= axis@.len(),
            out@.len() == i,
            forall|k: int| 0 <= k < i ==> (#[trigger] out@[k]) == (ColumnDef { caption: axis@[k].0, set: axis@[k].1 }),
        decreases axis@.len() - i,
    {
        out.push(ColumnDef { caption: axis[i].0, set: axis[i].1 });
        i = i + 1;
    }
    out
}

impl TableBuilder {
    /// The number of axes given so far.
    pub closed spec fn axes(&self) -> nat {
        self.axisses@.len()
    }

    /// The options given so far, each once.
    pub closed spec fn option_list(&self) -> Seq<TableOption> {
        self.options@
    }

    /// The caption of the table.
    pub closed spec fn table_caption(&self) -> &'static str {
        self.caption
    }

    /// The axes given so far, in order.
    pub closed spec fn axis_list(&self) -> Seq<Seq<ColumnDef>> {
        self.axisses@.map_values(|a: Vec<ColumnDef>| a@)
    }

    /// The name of the table.
    pub closed spec fn table_id(&self) -> &'static str {
        self.id
    }

    /// The set of phonemes the table shows.
    pub closed spec fn master(&self) -> &'static str {
        self.master_set
    }

    /// A builder for a table with a name, a caption and the set of phonemes it shows.
    pub fn new(id: &'static str, caption: &'static str, master_set: &'static str) -> (r: Self)
        ensures
            r.axes() == 0,
            r.option_list().len() == 0,
            r.table_id() == id,
            r.master() == master_set,
    {
        TableBuilder { id, caption, master_set, axisses: Vec::new(), options: Vec::new() }
    }

    /// Adds an axis of `(caption, set)` pairs. A table has at most four axes; a fifth is an
    /// error.
    pub fn axis(self, new_axis: &[(&'static str, &'static str)]) -> (r: Result<Self, ElbieError>)
        ensures
            r is Err <==> self.axes() >= 4,
            r is Err ==> r == Err::<Self, ElbieError>(ElbieError::TooManyAxisses),
            r matches Ok(b) ==> b.axes() == self.axes() + 1 && b.option_list() == self.option_list()
                && b.table_id() == self.table_id() && b.master() == self.master(),
    {
        if self.axisses.len() >= 4 {
            return Err(ElbieError::TooManyAxisses);
        }
        let mut builder = self;
        builder.axisses.push(to_column_defs(new_axis));
        Ok(builder)
    }

    /// Adds an option, once.
    pub fn option(self, option: TableOption) -> (r: Self)
        ensures
            r.axes() == self.axes(),
            r.table_id() == self.table_id(),
            r.master() == self.master(),
            r.option_list() == if self.option_list().contains(option) {
                self.option_list()
            } else {
                self.option_list().push(option)
            },
    {
        let mut builder = self;
        let mut i: usize = 0;
        while i < builder.options.len()
            invariant
                i <= builder.options@.len(),
                builder == self,
                forall|k: int| 0 <= k < i ==> builder.options@[k] != option,
            decreases builder.options@.len() - i,
        {
            let same = match (builder.options[i], option) {
                (TableOption::HideSubcolumnCaptions, TableOption::HideSubcolumnCaptions) => true,
                (TableOption::BlendSubcolumns, TableOption::BlendSubcolumns) => true,
                (TableOption::HideSubrowCaptions, TableOption::HideSubrowCaptions) => true,
                _ => false,
            };
            if same {
                assert(builder.options@[i as int] == option);
                return builder;
            }
            i = i + 1;
        }
        builder.options.push(option);
        builder
    }

    fn definition(&self) -> (r: TableDef)
        requires
            self.axes() <= 4,
        ensures
            axis_count(r) == self.axes(),
            builds(r, self.table_caption(), self.axis_list(), Seq::empty()),
    {
        let count = self.axisses.len();
        let ghost axes = self.axis_list();
        assert(forall|i: int| 0 <= i < count ==> axes[i] == self.axisses@[i]@);
        if count == 0 {
            TableDef::OneCell(Table0DDef::new(self.caption))
        } else if count == 1 {
            let mut def = Table1DDef::new(self.caption);
            assert(def.rows_by_set.entry_list() =~= Seq::<(&'static str, HeaderDef)>::empty());
            let _ = def.rows_by_set.add_all(self.axisses[0].as_slice());
            TableDef::ListTable(def)
        } else if count == 2 {
            let mut def = Table2DDef::new(self.caption);
            assert(def.columns_by_set.entry_list() =~= Seq::<(&'static str, HeaderDef)>::empty());
            assert(def.rows_by_set.entry_list() =~= Seq::<(&'static str, HeaderDef)>::empty());
            let _ = def.columns_by_set.add_all(self.axisses[0].as_slice());
            let _ = def.rows_by_set.add_all(self.axisses[1].as_slice());
            TableDef::SimpleTable(def)
        } else if count == 3 {
            let mut def = Table3DDef::new(self.caption);
            assert(def.columns_by_set.entry_list() =~= Seq::<(&'static str, HeaderDef)>::empty());
            assert(def.rows_by_set.entry_list() =~= Seq::<(&'static str, HeaderDef)>::empty());
            assert(def.subcolumns_by_set.entry_list() =~= Seq::<(&'static str, HeaderDef)>::empty());
            let _ = def.columns_by_set.add_all(self.axisses[0].as_slice());
            let _ = def.rows_by_set.add_all(self.axisses[1].as_slice());
            let _ = def.subcolumns_by_set.add_all(self.axisses[2].as_slice());
            assert(!Seq::<TableOption>::empty().contains(TableOption::HideSubcolumnCaptions));
            assert(!Seq::<TableOption>::empty().contains(TableOption::BlendSubcolumns));
            TableDef::TableWithSubcolumns(def)
        } else {
            let mut def = Table4DDef::new(self.caption);
            assert(def.columns_by_set.entry_list() =~= Seq::<(&'static str, HeaderDef)>::empty());
            assert(def.rows_by_set.entry_list() =~= Seq::<(&'static str, HeaderDef)>::empty());
            assert(def.subcolumns_by_set.entry_list() =~= Seq::<(&'static str, HeaderDef)>::empty());
            assert(def.subrows_by_set.entry_list() =~= Seq::<(&'static str, HeaderDef)>::empty());
            let _ = def.columns_by_set.add_all(self.axisses[0].as_slice());
            let _ = def.rows_by_set.add_all(self.axisses[1].as_slice());
            let _ = def.subcolumns_by_set.add_all(self.axisses[2].as_slice());
            let _ = def.subrows_by_set.add_all(self.axisses[3].as_slice());
            assert(!Seq::<TableOption>::empty().contains(TableOption::HideSubcolumnCaptions));
            assert(!Seq::<TableOption>::empty().contains(TableOption::BlendSubcolumns));
            assert(!Seq::<TableOption>::empty().contains(TableOption::HideSubrowCaptions));
            TableDef::TableWithSubcolumnsAndSubrows(def)
        }
    }

    /// Builds the definition and adds the table to `tables`. An option the definition does not
    /// take, or a name that a table has already, is an error, and nothing is added.
    pub fn add(self, tables: &mut Vec<TableEntry>) -> (r: Result<(), ElbieError>)
        requires
            self.axes() <= 4,
        ensures
            r is Ok <==> (forall|k: int|
                0 <= k < self.option_list().len() ==> #[trigger] takes_option_count(
                    self.axes(),
                    self.option_list()[k],
                )) && forall|t: int|
                0 <= t < old(tables)@.len() ==> (#[trigger] old(tables)@[t]).id.spec_bytes()
                    != self.table_id().spec_bytes(),
            r is Err ==> final(tables)@ == old(tables)@,
            r is Ok ==> final(tables)@.len() == old(tables)@.len() + 1 && final(tables)@.drop_last()
                == old(tables)@ && final(tables)@.last().id == self.table_id() && final(tables)@.last().set
                == self.master() && axis_count(final(tables)@.last().definition) == self.axes(),
            r is Ok ==> builds(
                final(tables)@.last().definition,
                self.table_caption(),
                self.axis_list(),
                self.option_list(),
            ),
            (exists|k: int|
                0 <= k < self.option_list().len() && !#[trigger] takes_option_count(
                    self.axes(),
                    self.option_list()[k],
                )) ==> exists|k: int|
                0 <= k < self.option_list().len() && !#[trigger] takes_option_count(
                    self.axes(),
                    self.option_list()[k],
                ) && (forall|j: int|
                    0 <= j < k ==> takes_option_count(self.axes(), #[trigger] self.option_list()[j]))
                    && r == Err::<(), ElbieError>(ElbieError::InvalidOptionForTable(self.option_list()[k])),
            (forall|k: int|
                0 <= k < self.option_list().len() ==> #[trigger] takes_option_count(
                    self.axes(),
                    self.option_list()[k],
                )) && (exists|t: int|
                0 <= t < old(tables)@.len() && (#[trigger] old(tables)@[t]).id.spec_bytes()
                    == self.table_id().spec_bytes()) ==> (r matches Err(ElbieError::DuplicateTableDef(name))
                && name@ == self.table_id()@),
    {
        let mut def = self.definition();
        let mut i: usize = 0;
        while i < self.options.len()
            invariant
                i <= self.options@.len(),
                self.axes() <= 4,
                axis_count(def) == self.axes(),
                builds(def, self.table_caption(), self.axis_list(), self.option_list().take(i as int)),
                forall|k: int| 0 <= k < i ==> #[trigger] takes_option_count(self.axes(), self.option_list()[k]),
            decreases self.options@.len() - i,
        {
            let ghost before = def;
            match def.set_option(&self.options[i]) {
                Ok(()) => {},
                Err(e) => {
                    assert(!takes_option_count(self.axes(), self.option_list()[i as int]));
                    assert(forall|j: int|
                        0 <= j < i ==> takes_option_count(self.axes(), #[trigger] self.option_list()[j]));
                    return Err(e);
                },
            }
            proof {
                let opts = self.option_list();
                let opt = opts[i as int];
                assert(opts.take(i + 1) =~= opts.take(i as int).push(opt));
                crate::bag::lemma_push_contains(opts.take(i as int), opt);
            }
            i = i + 1;
        }
        proof {
            assert(self.option_list().take(i as int) =~= self.option_list());
        }
        let mut t: usize = 0;
        while t < tables.len()
            invariant
                t <= tables@.len(),
                tables@ == old(tables)@,
                forall|k: int|
                    0 <= k < self.option_list().len() ==> #[trigger] takes_option_count(self.axes(), self.option_list()[k]),
                forall|k: int| 0 <= k < t ==> (#[trigger] tables@[k]).id.spec_bytes() != self.id.spec_bytes(),
            decreases tables@.len() - t,
        {
            if same_name(tables[t].id, self.id) {
                let mut name = String::new();
                vstd::string::StringExecFns::append(&mut name, self.id);
                return Err(ElbieError::DuplicateTableDef(name));
            }
            t = t + 1;
        }
        tables.push(TableEntry { id: self.id, set: self.master_set, definition: def });
        proof {
            assert(tables@.drop_last() =~= old(tables)@);
        }
        Ok(())
    }
}

/// Whether a table with this many axes takes an option.
pub open spec fn takes_option_count(axes: nat, option: TableOption) -> bool {
    match option {
        TableOption::HideSubrowCaptions => axes == 4,
        _ => axes >= 3,
    }
}

} // verus!
