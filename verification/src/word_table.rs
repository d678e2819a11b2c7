use vstd::prelude::*;
use vstd::string::StringExecFns;

use crate::grid::Cell;
use crate::grid::ColumnHeader;
use crate::grid::Grid;
use crate::grid::GridRow;
use crate::grid::TRBodyClass;
use crate::grid::TableClass;
use crate::grid::texts;
use crate::grid::rows_view;
use crate::grid::RowView;
use crate::grid::CellView;
use crate::grid::TDClass;
use crate::grid::cell_view;
use crate::grid::row_view;
use crate::bag::lemma_push_contains;
use crate::text::decimal;
use crate::text::decimal_text;
use crate::text::lowercase;
use crate::text::same_text;
use crate::text::to_lowercase;
use crate::text::trim_char;
use crate::text::trimmed_of;

verus! {

/// The value of the first attribute named `name`, if any.
pub open spec fn attr_lookup(attributes: Seq<(String, String)>, name: Seq<char>) -> Option<Seq<char>>
    decreases attributes.len(),
{
    if attributes.len() == 0 {
        None
    } else if attributes[0].0@ == name {
        Some(attributes[0].1@)
    } else {
        attr_lookup(attributes.drop_first(), name)
    }
}

/// The index of the first attribute named `name`.
pub open spec fn attr_index(attributes: Seq<(String, String)>, name: Seq<char>) -> int
    decreases attributes.len(),
{
    if attributes.len() == 0 {
        0
    } else if attributes[0].0@ == name {
        0
    } else {
        1 + attr_index(attributes.drop_first(), name)
    }
}

proof fn lemma_attr_push(attributes: Seq<(String, String)>, name: String, value: String, key: Seq<char>)
    requires
        attr_lookup(attributes, name@) is None,
    ensures
        attr_lookup(attributes.push((name, value)), key) == if key == name@ {
            Some(value@)
        } else {
            attr_lookup(attributes, key)
        },
    decreases attributes.len(),
{
    let pushed = attributes.push((name, value));
    if attributes.len() > 0 {
        assert(pushed[0] == attributes[0]);
        assert(attributes[0].0@ != name@);
        lemma_attr_push(attributes.drop_first(), name, value, key);
        assert(pushed.drop_first() =~= attributes.drop_first().push((name, value)));
        if attributes[0].0@ != key {
            assert(attr_lookup(pushed, key) == attr_lookup(pushed.drop_first(), key));
        }
    } else {
        assert(pushed.drop_first() =~= Seq::<(String, String)>::empty());
        assert(attr_lookup(pushed.drop_first(), key) is None);
        assert(attr_lookup(attributes, key) is None);
    }
}

proof fn lemma_attr_update(attributes: Seq<(String, String)>, name: String, value: String, key: Seq<char>)
    requires
        attr_lookup(attributes, name@) is Some,
    ensures
        0 <= attr_index(attributes, name@) < attributes.len(),
        attributes[attr_index(attributes, name@)].0@ == name@,
        attr_lookup(attributes.update(attr_index(attributes, name@), (name, value)), key) == if key
            == name@ {
            Some(value@)
        } else {
            attr_lookup(attributes, key)
        },
    decreases attributes.len(),
{
    assert(attributes.len() > 0);
    if attributes[0].0@ != name@ {
        lemma_attr_update(attributes.drop_first(), name, value, key);
        let i = attr_index(attributes, name@);
        let updated = attributes.update(i, (name, value));
        assert(updated.drop_first() =~= attributes.drop_first().update(i - 1, (name, value)));
        assert(updated[0] == attributes[0]);
        if attributes[0].0@ != key {
            assert(attr_lookup(updated, key) == attr_lookup(updated.drop_first(), key));
        }
    } else {
        let updated = attributes.update(0, (name, value));
        assert(updated.drop_first() =~= attributes.drop_first());
        if key != name@ {
            assert(attr_lookup(updated, key) == attr_lookup(updated.drop_first(), key));
        }
    }
}

fn find_attr(attributes: &Vec<(String, String)>, name: &str) -> (r: Option<usize>)
    ensures
        r is None <==> attr_lookup(attributes@, name@) is None,
        r matches Some(i) ==> i == attr_index(attributes@, name@) && i < attributes@.len()
            && attr_lookup(attributes@, name@) == Some(attributes@[i as int].1@),
{
    let mut i: usize = 0;
    assert(attributes@.skip(0) =~= attributes@);
    while i < attributes.len()
        invariant
            i <= attributes@.len(),
            attr_lookup(attributes@, name@) == attr_lookup(attributes@.skip(i as int), name@),
            attr_index(attributes@, name@) == i + attr_index(attributes@.skip(i as int), name@),
        decreases attributes@.len() - i,
    {
        proof {
            assert(attributes@.skip(i as int)[0] == attributes@[i as int]);
            assert(attributes@.skip(i as int).drop_first() =~= attributes@.skip(i + 1));
        }
        if same_text(attributes[i].0.as_str(), name) {
            return Some(i);
        }
        i = i + 1;
    }
    proof {
        assert(attributes@.skip(i as int) =~= Seq::<(String, String)>::empty());
    }
    None
}

/// A word of a word table, with named attributes.
#[derive(Debug)]
pub struct WordTableEntry {
    word: String,
    attributes: Vec<(String, String)>,
}

impl WordTableEntry {
    /// The word.
    pub closed spec fn word_view(&self) -> Seq<char> {
        self.word@
    }

    /// The value of the named attribute, if set.
    pub closed spec fn attribute(&self, name: Seq<char>) -> Option<Seq<char>> {
        attr_lookup(self.attributes@, name)
    }

    /// An entry with a word and no attributes.
    pub fn new(word: String) -> (r: Self)
        ensures
            r.word_view() == word@,
            forall|n: Seq<char>| r.attribute(n) is None,
    {
        WordTableEntry { word, attributes: Vec::new() }
    }

    /// Sets an attribute, replacing the value it had.
    pub fn set_attribute(&mut self, attr_name: String, value: String)
        ensures
            final(self).word_view() == old(self).word_view(),
            final(self).attribute(attr_name@) == Some(value@),
            forall|n: Seq<char>| n != attr_name@ ==> final(self).attribute(n) == old(self).attribute(n),
    {
        match find_attr(&self.attributes, attr_name.as_str()) {
            Some(i) => {
                proof {
                    assert forall|n: Seq<char>|
                        #![trigger attr_lookup(self.attributes@.update(i as int, (attr_name, value)), n)]
                        true implies attr_lookup(self.attributes@.update(i as int, (attr_name, value)), n)
                        == if n == attr_name@ {
                            Some(value@)
                        } else {
                            attr_lookup(self.attributes@, n)
                        } by {
                        lemma_attr_update(self.attributes@, attr_name, value, n);
                    }
                }
                self.attributes.set(i, (attr_name, value));
            },
            None => {
                proof {
                    assert forall|n: Seq<char>|
                        #![trigger attr_lookup(self.attributes@.push((attr_name, value)), n)]
                        true implies attr_lookup(self.attributes@.push((attr_name, value)), n) == if n
                        == attr_name@ {
                            Some(value@)
                        } else {
                            attr_lookup(self.attributes@, n)
                        } by {
                        lemma_attr_push(self.attributes@, attr_name, value, n);
                    }
                }
                self.attributes.push((attr_name, value));
            },
        }
    }

    /// The value of the named attribute, if set.
    pub fn get_attribute(&self, attr_name: &String) -> (r: Option<&String>)
        ensures
            r is None <==> self.attribute(attr_name@) is None,
            r matches Some(v) ==> self.attribute(attr_name@) == Some(v@),
    {
        match find_attr(&self.attributes, attr_name.as_str()) {
            Some(i) => Some(&self.attributes[i].1),
            None => None,
        }
    }

    /// Replaces the word; when an attribute name is given, the old word becomes the value of
    /// that attribute.
    pub fn replace_word(&mut self, original_attr_name: Option<String>, new_value: String)
        ensures
            final(self).word_view() == new_value@,
            original_attr_name matches Some(n) ==> final(self).attribute(n@) == Some(old(self).word_view())
                && forall|m: Seq<char>| m != n@ ==> final(self).attribute(m) == old(self).attribute(m),
            original_attr_name is None ==> forall|m: Seq<char>| final(self).attribute(m) == old(self).attribute(m),
    {
        let mut original = new_value;
        std::mem::swap(&mut original, &mut self.word);
        match original_attr_name {
            Some(name) => self.set_attribute(name, original),
            None => {},
        }
    }

    /// The word.
    pub fn word(&self) -> (r: &String)
        ensures
            r@ == self.word_view(),
    {
        &self.word
    }
}

/// Whether a header, in lower case, names the word column: `word`.
pub open spec fn is_word_header(lowered: Seq<char>) -> bool {
    lowered == "word"@
}

/// Headers in lower case.
pub open spec fn lowered_headers(headers: Seq<Seq<char>>) -> Seq<Seq<char>> {
    headers.map_values(|h: Seq<char>| lowercase(h))
}

/// The last of the first `n` headers, given in lower case, that names the word column.
pub open spec fn last_word_header(headers: Seq<Seq<char>>, n: int) -> Option<int>
    decreases n,
{
    if n <= 0 {
        None
    } else if is_word_header(headers[n - 1]) {
        Some(n - 1)
    } else {
        last_word_header(headers, n - 1)
    }
}

/// The column of the words, by the headers in lower case: the only column, or the last one
/// headed `word`.
pub open spec fn word_column(headers: Seq<Seq<char>>) -> Option<int> {
    if headers.len() == 1 {
        Some(0)
    } else {
        last_word_header(headers, headers.len() as int)
    }
}

/// The headers among the first `n` that do not name the word column, in order; `lowered`
/// holds the headers in lower case.
pub open spec fn kept_headers(headers: Seq<Seq<char>>, lowered: Seq<Seq<char>>, n: int) -> Seq<Seq<char>>
    decreases n,
{
    if n <= 0 {
        Seq::empty()
    } else if is_word_header(lowered[n - 1]) {
        kept_headers(headers, lowered, n - 1)
    } else {
        kept_headers(headers, lowered, n - 1).push(headers[n - 1])
    }
}

/// The attribute names of a table read with these headers: none with a single column, else
/// the headers that do not name the word column.
pub open spec fn attribute_columns(headers: Seq<Seq<char>>, lowered: Seq<Seq<char>>) -> Seq<Seq<char>> {
    if headers.len() == 1 {
        Seq::empty()
    } else {
        kept_headers(headers, lowered, headers.len() as int)
    }
}

/// The value a record gives the attribute `name`: the field of the last of its first `n`
/// columns, other than the word column, headed `name`.
pub open spec fn record_attribute(
    headers: Seq<Seq<char>>,
    record: Seq<Seq<char>>,
    word: int,
    name: Seq<char>,
    n: int,
) -> Option<Seq<char>>
    decreases n,
{
    if n <= 0 {
        None
    } else if n - 1 != word && headers[n - 1] == name {
        Some(record[n - 1])
    } else {
        record_attribute(headers, record, word, name, n - 1)
    }
}

/// The smaller of two numbers.
pub open spec fn min_of(a: int, b: int) -> int {
    if a < b {
        a
    } else {
        b
    }
}

/// The texts of the fields of some records.
pub open spec fn record_texts(records: Seq<Vec<String>>) -> Seq<Seq<Seq<char>>> {
    records.map_values(|rec: Vec<String>| texts(rec@))
}

/// The first record that has no field in the word column.
pub open spec fn first_short_record(records: Seq<Seq<Seq<char>>>, word: int, k: int) -> bool {
    &&& 0 <= k < records.len()
    &&& records[k].len() <= word
    &&& forall|j: int| 0 <= j < k ==> records[j].len() > word
}

/// A table of words with named attributes, as read from CSV.
#[derive(Debug)]
pub struct WordTable {
    attribute_names: Vec<String>,
    entries: Vec<WordTableEntry>,
}

impl Default for WordTable {
    fn default() -> (r: Self)
        ensures
            r.names().len() == 0,
            r.entry_list().len() == 0,
    {
        WordTable { attribute_names: Vec::new(), entries: Vec::new() }
    }
}

impl WordTable {
    /// The attribute names, in order.
    pub closed spec fn names(&self) -> Seq<Seq<char>> {
        texts(self.attribute_names@)
    }

    /// The attribute names as the strings the table holds, in order.
    pub closed spec fn name_strings(&self) -> Seq<String> {
        self.attribute_names@
    }

    /// The names are the texts of the name strings.
    pub proof fn lemma_names_are_texts(&self)
        ensures
            self.names() == texts(self.name_strings()),
    {
    }

    /// The entries, in order.
    pub closed spec fn entry_list(&self) -> Seq<WordTableEntry> {
        self.entries@
    }

    /// An empty table.
    pub fn new() -> (r: Self)
        ensures
            r.names().len() == 0,
            r.entry_list().len() == 0,
    {
        WordTable { attribute_names: Vec::new(), entries: Vec::new() }
    }

    /// A table from the header and the records of a CSV file, as `from_lowered_records` says
    /// with the headers put in lower case.
    pub fn from_records(headers: Vec<String>, records: Vec<Vec<String>>) -> (r: Result<Self, String>)
        ensures
            ({
                let h = texts(headers@);
                let lw = lowered_headers(h);
                &&& r is Err <==> word_column(lw) is None || exists|k: int|
                    0 <= k < records@.len() && (#[trigger] records@[k])@.len() <= word_column(lw)->0
                &&& r matches Err(e) ==> (word_column(lw) is None && e@ == "No 'word field found."@) || (
                word_column(lw) matches Some(w) && exists|k: int|
                    #[trigger] first_short_record(record_texts(records@), w, k) && e@ == "Missing word field in "@
                        + decimal(k as nat))
                &&& r matches Ok(t) ==> {
                    let w = word_column(lw)->0;
                    &&& t.names() == attribute_columns(h, lw)
                    &&& t.entry_list().len() == records@.len()
                    &&& forall|k: int|
                        0 <= k < records@.len() ==> (#[trigger] t.entry_list()[k]).word_view() == trimmed_of(
                            texts(records@[k]@)[w],
                            '/',
                        ) && forall|name: Seq<char>|
                            t.entry_list()[k].attribute(name) == record_attribute(
                                h,
                                texts(records@[k]@),
                                w,
                                name,
                                min_of(records@[k]@.len() as int, h.len() as int),
                            )
                }
            }),
    {
        let ghost h = texts(headers@);
        let mut lowered: Vec<String> = Vec::new();
        let mut i: usize = 0;
        while i < headers.len()
            invariant
                i <= headers@.len(),
                h == texts(headers@),
                texts(lowered@) == lowered_headers(h).take(i as int),
            decreases headers@.len() - i,
        {
            let lower = to_lowercase(headers[i].as_str());
            let ghost before = lowered@;
            lowered.push(lower);
            proof {
                assert(texts(lowered@) =~= texts(before).push(lowercase(h[i as int])));
                assert(lowered_headers(h).take(i + 1) =~= lowered_headers(h).take(i as int).push(lowercase(h[i as int])));
            }
            i = i + 1;
        }
        proof {
            assert(lowered_headers(h).take(i as int) =~= lowered_headers(h));
        }
        WordTable::from_lowered_records(headers, lowered, records)
    }

    /// A table from the header and the records of a CSV file, where `lowered` holds the headers
    /// in lower case. With a single column it holds the words; otherwise the last column headed
    /// `word` holds them, and the other columns are attributes. A word loses the slashes around
    /// it. A missing word column, or a record without a field in it, is an error.
    pub fn from_lowered_records(headers: Vec<String>, lowered: Vec<String>, records: Vec<Vec<String>>) -> (r: Result<
        Self,
        String,
    >)
        requires
            lowered@.len() == headers@.len(),
        ensures
            r is Err <==> word_column(texts(lowered@)) is None || exists|k: int|
                0 <= k < records@.len() && (#[trigger] records@[k])@.len() <= word_column(texts(lowered@))->0,
            r matches Err(e) ==> (word_column(texts(lowered@)) is None && e@ == "No 'word field found."@)
                || (word_column(texts(lowered@)) matches Some(w) && exists|k: int|
                #[trigger] first_short_record(
                    record_texts(records@),
                    w,
                    k,
                ) && e@ == "Missing word field in "@ + decimal(k as nat)),
            r matches Ok(t) ==> {
                let h = texts(headers@);
                let w = word_column(texts(lowered@))->0;
                &&& t.names() == attribute_columns(h, texts(lowered@))
                &&& t.entry_list().len() == records@.len()
                &&& forall|k: int|
                    0 <= k < records@.len() ==> (#[trigger] t.entry_list()[k]).word_view() == trimmed_of(
                        texts(records@[k]@)[w],
                        '/',
                    ) && forall|name: Seq<char>|
                        t.entry_list()[k].attribute(name) == record_attribute(
                            h,
                            texts(records@[k]@),
                            w,
                            name,
                            min_of(records@[k]@.len() as int, h.len() as int),
                        )
            },
    {
        let ghost h = texts(headers@);
        let ghost lw = texts(lowered@);
        let mut attribute_names: Vec<String> = Vec::new();
        let mut word_field: Option<usize> = None;
        let mut i: usize = 0;
        while i < headers.len()
            invariant
                i <= headers@.len(),
                h == texts(headers@),
                lw == texts(lowered@),
                lowered@.len() == headers@.len(),
                texts(attribute_names@) == kept_headers(h, lw, i as int),
                word_field is None <==> last_word_header(lw, i as int) is None,
                word_field matches Some(f) ==> last_word_header(lw, i as int) == Some(f as int),
                word_field matches Some(f) ==> f < i,
            decreases headers@.len() - i,
        {
            assert(h[i as int] == headers@[i as int]@);
            assert(lw[i as int] == lowered@[i as int]@);
            if same_text(lowered[i].as_str(), "word") {
                word_field = Some(i);
            } else {
                let ghost before = attribute_names@;
                attribute_names.push(headers[i].clone());
                proof {
                    assert(texts(attribute_names@) =~= texts(before).push(h[i as int]));
                }
            }
            i = i + 1;
        }
        let word: usize = if headers.len() == 1 {
            attribute_names = Vec::new();
            0
        } else {
            match word_field {
                Some(f) => f,
                None => {
                    let mut message = String::new();
                    message.append("No 'word field found.");
                    assert(message@ =~= "No 'word field found."@);
                    return Err(message);
                },
            }
        };
        proof {
            assert(word_column(lw) == Some(word as int));
            assert(texts(attribute_names@) =~= attribute_columns(h, lw));
        }
        let ghost recs = record_texts(records@);
        let mut entries: Vec<WordTableEntry> = Vec::new();
        let mut row: usize = 0;
        while row < records.len()
            invariant
                row <= records@.len(),
                h == texts(headers@),
                recs == record_texts(records@),
                lw == texts(lowered@),
                word_column(lw) == Some(word as int),
                entries@.len() == row,
                forall|j: int| 0 <= j < row ==> records@[j]@.len() > word,
                forall|k: int|
                    0 <= k < row ==> (#[trigger] entries@[k]).word_view() == trimmed_of(
                        texts(records@[k]@)[word as int],
                        '/',
                    ) && forall|name: Seq<char>|
                        entries@[k].attribute(name) == record_attribute(
                            h,
                            texts(records@[k]@),
                            word as int,
                            name,
                            min_of(records@[k]@.len() as int, h.len() as int),
                        ),
            decreases records@.len() - row,
        {
            let record = &records[row];
            if record.len() <= word {
                let mut message = String::new();
                message.append("Missing word field in ");
                let number = decimal_text(row);
                message.append(number.as_str());
                proof {
                    assert(recs[row as int] == texts(record@));
                    assert(first_short_record(recs, word as int, row as int));
                    assert(message@ =~= "Missing word field in "@ + decimal(row as nat));
                }
                return Err(message);
            }
            let ghost rv = texts(record@);
            let word_text = trim_char(record[word].as_str(), '/');
            let mut entry = WordTableEntry::new(word_text);
            let limit: usize = if record.len() < headers.len() {
                record.len()
            } else {
                headers.len()
            };
            let mut i: usize = 0;
            while i < limit
                invariant
                    i <= limit <= record@.len(),
                    limit <= headers@.len(),
                    h == texts(headers@),
                    rv == texts(record@),
                    entry.word_view() == trimmed_of(rv[word as int], '/'),
                    forall|name: Seq<char>|
                        entry.attribute(name) == record_attribute(h, rv, word as int, name, i as int),
                decreases limit - i,
            {
                if i != word {
                    assert(h[i as int] == headers@[i as int]@);
                    assert(rv[i as int] == record@[i as int]@);
                    entry.set_attribute(headers[i].clone(), record[i].clone());
                }
                i = i + 1;
            }
            proof {
                assert(rv[word as int] == record@[word as int]@);
            }
            entries.push(entry);
            row = row + 1;
        }
        Ok(WordTable { attribute_names, entries })
    }

    /// The entries.
    pub fn entries(&self) -> (r: &Vec<WordTableEntry>)
        ensures
            r@ == self.entry_list(),
    {
        &self.entries
    }

    /// The entry at `index`, to change it.
    pub fn entry_mut(&mut self, index: usize) -> (r: &mut WordTableEntry)
        requires
            index < old(self).entry_list().len(),
        ensures
            *r == old(self).entry_list()[index as int],
            final(self).entry_list() == old(self).entry_list().update(index as int, *final(r)),
            final(self).names() == old(self).names(),
    {
        &mut self.entries[index]
    }

    /// The attribute names.
    pub fn attribute_names(&self) -> (r: &Vec<String>)
        ensures
            texts(r@) == self.names(),
    {
        &self.attribute_names
    }

    /// Adds an entry without attributes for each word.
    pub fn add_words(&mut self, words: &[String])
        ensures
            final(self).names() == old(self).names(),
            final(self).entry_list().len() == old(self).entry_list().len() + words@.len(),
            forall|k: int| 0 <= k < old(self).entry_list().len() ==> final(self).entry_list()[k] == old(self).entry_list()[k],
            forall|k: int|
                0 <= k < words@.len() ==> (#[trigger] final(self).entry_list()[old(self).entry_list().len() + k]).word_view()
                    == words@[k]@ && forall|n: Seq<char>|
                    (#[trigger] final(self).entry_list()[old(self).entry_list().len() + k].attribute(n)) is None,
    {
        let ghost start = self.entries@;
        let mut i: usize = 0;
        while i < words.len()
            invariant
                i <= words@.len(),
                self.names() == old(self).names(),
                start == old(self).entry_list(),
                self.entries@.len() == start.len() + i,
                forall|k: int| 0 <= k < start.len() ==> self.entries@[k] == start[k],
                forall|k: int|
                    0 <= k < i ==> (#[trigger] self.entries@[start.len() + k]).word_view() == words@[k]@
                        && forall|n: Seq<char>| (#[trigger] self.entries@[start.len() + k].attribute(n)) is None,
            decreases words@.len() - i,
        {
            self.entries.push(WordTableEntry::new(words[i].clone()));
            i = i + 1;
        }
    }

    /// Whether an attribute is named `name`.
    pub fn has_attribute(&self, name: &str) -> (r: bool)
        ensures
            r == self.names().contains(name@),
    {
        let mut i: usize = 0;
        while i < self.attribute_names.len()
            invariant
                i <= self.attribute_names@.len(),
                forall|k: int| 0 <= k < i ==> self.names()[k] != name@,
            decreases self.attribute_names@.len() - i,
        {
            if same_text(self.attribute_names[i].as_str(), name) {
                assert(self.names()[i as int] == name@);
                return true;
            }
            i = i + 1;
        }
        false
    }

    /// Adds an attribute name at the end, unless an attribute has it already.
    pub fn add_attribute(&mut self, name: String)
        ensures
            final(self).entry_list() == old(self).entry_list(),
            final(self).names() == if old(self).names().contains(name@) {
                old(self).names()
            } else {
                old(self).names().push(name@)
            },
    {
        if !self.has_attribute(name.as_str()) {
            let ghost before = self.attribute_names@;
            self.attribute_names.push(name);
            assert(texts(self.attribute_names@) =~= texts(before).push(self.attribute_names@.last()@));
        }
    }

    /// Takes away every attribute name equal to `name`.
    pub fn remove_attribute(&mut self, name: &str)
        ensures
            final(self).entry_list() == old(self).entry_list(),
            final(self).names() == old(self).names().filter(|n: Seq<char>| n != name@),
    {
        let ghost before = self.names();
        let mut kept: Vec<String> = Vec::new();
        let mut i: usize = 0;
        while i < self.attribute_names.len()
            invariant
                i <= self.attribute_names@.len(),
                before == texts(self.attribute_names@),
                texts(kept@) == before.take(i as int).filter(|n: Seq<char>| n != name@),
            decreases self.attribute_names@.len() - i,
        {
            let ghost k0 = kept@;
            proof {
                assert(before.take(i + 1).drop_last() =~= before.take(i as int));
                assert(before.take(i + 1).last() == before[i as int]);
                reveal(Seq::filter);
            }
            if !same_text(self.attribute_names[i].as_str(), name) {
                kept.push(self.attribute_names[i].clone());
                proof {
                    assert(texts(kept@) =~= texts(k0).push(before[i as int]));
                }
            }
            i = i + 1;
        }
        proof {
            assert(before.take(i as int) =~= before);
        }
        self.attribute_names = kept;
    }

    /// The first attribute name the predicate accepts, if any: the predicate is asked of each
    /// name in order until it answers `true`.
    pub fn find_attribute<P: Fn(&String) -> bool>(&self, predicate: P) -> (r: Option<&String>)
        requires
            forall|s: &String| call_requires(predicate, (s,)),
        ensures
            r matches Some(s) ==> exists|i: int|
                0 <= i < self.name_strings().len() && *s == self.name_strings()[i] && call_ensures(
                    predicate,
                    (s,),
                    true,
                ) && forall|j: int|
                    0 <= j < i ==> call_ensures(predicate, (&self.name_strings()[j],), false),
            r is None ==> forall|j: int|
                0 <= j < self.name_strings().len() ==> call_ensures(
                    predicate,
                    (&self.name_strings()[j],),
                    false,
                ),
            r matches Some(s) ==> self.names().contains(s@),
    {
        let mut i: usize = 0;
        while i < self.attribute_names.len()
            invariant
                i <= self.attribute_names@.len(),
                forall|s: &String| call_requires(predicate, (s,)),
                forall|j: int| 0 <= j < i ==> call_ensures(predicate, (&self.attribute_names@[j],), false),
            decreases self.attribute_names@.len() - i,
        {
            let name = &self.attribute_names[i];
            let accepted = predicate(name);
            if accepted {
                assert(self.names()[i as int] == name@);
                assert(*name == self.name_strings()[i as int]);
                assert(call_ensures(predicate, (name,), true));
                assert(forall|j: int|
                    0 <= j < i ==> call_ensures(predicate, (&self.name_strings()[j],), false));
                return Some(name);
            }
            i = i + 1;
        }
        None
    }

    /// Adds the attribute names of another table that this one lacks, and its entries after
    /// this table's.
    pub fn combine_with(&mut self, words: Self)
        ensures
            final(self).entry_list() == old(self).entry_list() + words.entry_list(),
            forall|n: Seq<char>| #[trigger] final(self).names().contains(n) <==> old(self).names().contains(n)
                || words.names().contains(n),
    {
        broadcast use vstd::seq_lib::group_seq_properties;

        let ghost wn = words.names();
        let ghost we = words.entry_list();
        let WordTable { attribute_names, entries } = words;
        let ghost other_names = texts(attribute_names@);
        assert(other_names == wn);
        let ghost start_names = self.names();
        let mut i: usize = 0;
        while i < attribute_names.len()
            invariant
                i <= attribute_names@.len(),
                other_names == texts(attribute_names@),
                self.entry_list() == old(self).entry_list(),
                forall|n: Seq<char>| #[trigger] self.names().contains(n) <==> start_names.contains(n)
                    || other_names.take(i as int).contains(n),
            decreases attribute_names@.len() - i,
        {
            let ghost before = self.names();
            self.add_attribute(attribute_names[i].clone());
            proof {
                assert(other_names[i as int] == attribute_names@[i as int]@);
                lemma_push_contains(before, other_names[i as int]);
                lemma_push_contains(other_names.take(i as int), other_names[i as int]);
                assert forall|n: Seq<char>| #[trigger] self.names().contains(n) <==> before.contains(n)
                    || n == other_names[i as int] by {
                    if before.contains(other_names[i as int]) {
                        if n == other_names[i as int] {
                        }
                    } else {
                        assert(self.names() == before.push(other_names[i as int]));
                        assert(before.push(other_names[i as int]).contains(n) <==> (before.contains(n) || n
                            == other_names[i as int]));
                    }
                }
                assert(other_names.take(i + 1) =~= other_names.take(i as int).push(other_names[i as int]));
            }
            i = i + 1;
        }
        proof {
            assert(other_names.take(i as int) =~= other_names);
        }
        let mut entries = entries;
        assert(entries@ == we);
        let ghost names_now = self.names();
        self.entries.append(&mut entries);
        assert(self.names() == names_now);
        assert(start_names == old(self).names());
        assert forall|n: Seq<char>| #[trigger] self.names().contains(n) <==> old(self).names().contains(n)
            || wn.contains(n) by {
            assert(names_now.contains(n) <==> start_names.contains(n) || other_names.contains(n));
        }
    }
}

/// The value a cell of the word grid shows for an attribute: its value, or nothing.
pub open spec fn shown(value: Option<Seq<char>>) -> Seq<char> {
    match value {
        Some(v) => v,
        None => Seq::empty(),
    }
}

/// The row of the word grid for an entry: the word, then the value of each named attribute.
pub open spec fn word_grid_row(names: Seq<Seq<char>>, entry: WordTableEntry) -> RowView {
    (
        TRBodyClass::BodyRow,
        None,
        seq![(entry.word_view(), None::<TDClass>)] + names.map_values(
            |n: Seq<char>| (shown(entry.attribute(n)), None::<TDClass>),
        ),
    )
}

impl WordTable {
    /// Whether the table can be shown as a grid: no word, and no value of a listed attribute,
    /// holds a line feed.
    pub open spec fn printable(&self) -> bool {
        forall|k: int|
            0 <= k < self.entry_list().len() ==> !(#[trigger] self.entry_list()[k]).word_view().contains('\n')
                && forall|i: int|
                0 <= i < self.names().len() ==> !shown(
                    (#[trigger] self.entry_list()[k].attribute(self.names()[i])),
                ).contains('\n')
    }

    /// The row of the word grid for an entry: the word, then each attribute's value.
    pub open spec fn grid_row(&self, entry: WordTableEntry) -> RowView {
        word_grid_row(self.names(), entry)
    }

    fn contains_newline(text: &str) -> (r: bool)
        ensures
            r == text@.contains('\n'),
    {
        let chars = crate::text::chars_of(text);
        let mut i: usize = 0;
        while i < chars.len()
            invariant
                i <= chars@.len(),
                chars@ == text@,
                forall|k: int| 0 <= k < i ==> chars@[k] != '\n',
            decreases chars@.len() - i,
        {
            if chars[i] == '\n' {
                return true;
            }
            i = i + 1;
        }
        false
    }

    /// Checks whether the table can be shown as a grid, as `printable` says.
    pub fn check_printable(&self) -> (r: bool)
        ensures
            r == self.printable(),
    {
        let mut k: usize = 0;
        while k < self.entries.len()
            invariant
                k <= self.entries@.len(),
                forall|j: int|
                    0 <= j < k ==> !(#[trigger] self.entry_list()[j]).word_view().contains('\n')
                        && forall|i: int|
                        0 <= i < self.names().len() ==> !shown(
                            (#[trigger] self.entry_list()[j].attribute(self.names()[i])),
                        ).contains('\n'),
            decreases self.entries@.len() - k,
        {
            let entry = &self.entries[k];
            if Self::contains_newline(entry.word().as_str()) {
                return false;
            }
            let mut i: usize = 0;
            while i < self.attribute_names.len()
                invariant
                    i <= self.attribute_names@.len(),
                    k < self.entries@.len(),
                    *entry == self.entry_list()[k as int],
                    forall|q: int|
                        0 <= q < i ==> !shown((#[trigger] entry.attribute(self.names()[q]))).contains('\n'),
                decreases self.attribute_names@.len() - i,
            {
                assert(self.names()[i as int] == self.attribute_names@[i as int]@);
                match entry.get_attribute(&self.attribute_names[i]) {
                    Some(v) => {
                        if Self::contains_newline(v.as_str()) {
                            assert(shown(self.entry_list()[k as int].attribute(self.names()[i as int])).contains(
                                '\n',
                            ));
                            return false;
                        }
                    },
                    None => {},
                }
                i = i + 1;
            }
            k = k + 1;
        }
        true
    }

    /// The words as a grid, as the table is printed: a row for each entry, with the word and
    /// the value of each attribute, under the headers `Word` and the attribute names.
    pub fn into_grid(self) -> (r: Grid)
        requires
            self.printable(),
        ensures
            r.class_view() == TableClass::ElbieWords,
            r.caption_view() == "Result"@,
            r.heads_view() matches Some((head, None)) && head.map_values(|c: ColumnHeader| c.text@)
                == seq!["Word"@] + self.names() && forall|i: int|
                0 <= i < head.len() ==> (#[trigger] head[i]).colspan == 1,
            rows_view(r.rows()) == self.entry_list().map_values(|e: WordTableEntry| self.grid_row(e)),
    {
        let ghost names = self.names();
        let ghost entry_list = self.entry_list();
        let mut caption = String::new();
        caption.append("Result");
        let mut grid = Grid::new(TableClass::ElbieWords, caption);
        let WordTable { attribute_names, entries } = self;
        let mut k: usize = 0;
        while k < entries.len()
            invariant
                k <= entries@.len(),
                entries@ == entry_list,
                names == texts(attribute_names@),
                forall|j: int|
                    0 <= j < entries@.len() ==> !(#[trigger] entry_list[j]).word_view().contains('\n')
                        && forall|i: int|
                        0 <= i < names.len() ==> !shown(
                            (#[trigger] entry_list[j].attribute(names[i])),
                        ).contains('\n'),
                grid.class_view() == TableClass::ElbieWords,
                grid.caption_view() == "Result"@,
                grid.heads_view() is None,
                grid.rows().len() == k,
                forall|j: int| 0 <= j < k ==> (#[trigger] grid.rows()[j]).cells@.len() == 1 + names.len(),
                forall|j: int| 0 <= j < k ==> (#[trigger] grid.rows()[j]).headers is None,
                rows_view(grid.rows()) == entry_list.take(k as int).map_values(
                    |e: WordTableEntry| word_grid_row(names, e),
                ),
            decreases entries@.len() - k,
        {
            let entry = &entries[k];
            let mut row = GridRow::new(TRBodyClass::BodyRow);
            row.push_cell(Cell::content(entry.word().clone(), None));
            let mut i: usize = 0;
            while i < attribute_names.len()
                invariant
                    i <= attribute_names@.len(),
                    names == texts(attribute_names@),
                    *entry == entry_list[k as int],
                    forall|q: int| 0 <= q < names.len() ==> !shown((#[trigger] entry.attribute(names[q]))).contains('\n'),
                    row.headers is None,
                    row.class == TRBodyClass::BodyRow,
                    row.cells@.map_values(|c: crate::grid::Cell| cell_view(c)) == seq![(entry.word_view(), None::<TDClass>)]
                        + names.take(i as int).map_values(|n: Seq<char>| (shown(entry.attribute(n)), None::<TDClass>)),
                decreases attribute_names@.len() - i,
            {
                assert(names[i as int] == attribute_names@[i as int]@);
                let value = match entry.get_attribute(&attribute_names[i]) {
                    Some(v) => v.clone(),
                    None => String::new(),
                };
                assert(value@ == shown(entry.attribute(names[i as int])));
                let ghost before = row.cells@;
                row.push_cell(Cell::content(value, None));
                proof {
                    assert(names.take(i + 1) =~= names.take(i as int).push(names[i as int]));
                    assert(row.cells@.map_values(|c: crate::grid::Cell| cell_view(c)) =~= before.map_values(
                        |c: crate::grid::Cell| cell_view(c),
                    ).push((shown(entry.attribute(names[i as int])), None::<TDClass>)));
                }
                i = i + 1;
            }
            proof {
                assert(names.take(i as int) =~= names);
                assert(row.cells@.len() == row.cells@.map_values(|c: crate::grid::Cell| cell_view(c)).len());
                assert(row.cells@.len() == 1 + names.len());
                if k > 0 {
                    assert(grid.rows()[0].cells@.len() == 1 + names.len());
                }
            }
            let ghost rows_before = grid.rows();
            grid.push_body_row(row);
            proof {
                assert(rows_view(grid.rows()) =~= rows_view(rows_before).push(row_view(grid.rows().last())));
                assert(entry_list.take(k + 1) =~= entry_list.take(k as int).push(entry_list[k as int]));
            }
            k = k + 1;
        }
        let mut headers: Vec<ColumnHeader> = Vec::new();
        let mut word = String::new();
        word.append("Word");
        headers.push(ColumnHeader::new(word, 1));
        let mut i: usize = 0;
        while i < attribute_names.len()
            invariant
                i <= attribute_names@.len(),
                names == texts(attribute_names@),
                headers@.map_values(|c: ColumnHeader| c.text@) == seq!["Word"@] + names.take(i as int),
                forall|q: int| 0 <= q < headers@.len() ==> (#[trigger] headers@[q]).colspan == 1,
            decreases attribute_names@.len() - i,
        {
            let ghost before = headers@;
            headers.push(ColumnHeader::new(attribute_names[i].clone(), 1));
            proof {
                assert(names.take(i + 1) =~= names.take(i as int).push(names[i as int]));
                assert(headers@.map_values(|c: ColumnHeader| c.text@) =~= before.map_values(|c: ColumnHeader| c.text@).push(
                    names[i as int],
                ));
            }
            i = i + 1;
        }
        proof {
            assert(names.take(i as int) =~= names);
            assert(entry_list.take(k as int) =~= entry_list);
        }
        grid.set_headers(headers);
        grid
    }
}

} // verus!
