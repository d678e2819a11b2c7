use vstd::prelude::*;
use vstd::string::StringExecFns;

use crate::grid::texts;
use crate::word::spelled_names;
use crate::word::Word;

verus! {

/// A word in phonemic notation: its phoneme names between slashes.
pub open spec fn word_text(word: Word) -> Seq<char> {
    "/"@ + spelled_names(word.phoneme_seq()) + "/"@
}

/// The items other than the one at `primary`.
pub open spec fn others<T>(items: Seq<T>, primary: int) -> Seq<T> {
    if 0 <= primary < items.len() {
        items.take(primary) + items.skip(primary + 1)
    } else {
        items
    }
}

/// The item at `primary`, or `fallback` when there is none.
pub open spec fn primary_or<T>(items: Seq<T>, primary: int, fallback: T) -> T {
    if 0 <= primary < items.len() {
        items[primary]
    } else {
        fallback
    }
}

/// An entry of a lexicon: a word, its spelling in each orthography, and its definition.
#[derive(Debug)]
pub struct LexiconEntry {
    pub word: Word,
    pub spelling: Vec<String>,
    pub definition: String,
}

impl LexiconEntry {
    /// An entry.
    pub fn new(word: Word, spelling: Vec<String>, definition: String) -> (r: Self)
        ensures
            r.word == word,
            r.spelling == spelling,
            r.definition == definition,
    {
        LexiconEntry { word, spelling, definition }
    }
}

/// The `; orthography: spelling` parts of an entry written as plain text.
pub open spec fn plain_pairs(orthographies: Seq<&'static str>, spellings: Seq<Seq<char>>) -> Seq<char>
    decreases spellings.len(),
{
    if spellings.len() == 0 {
        Seq::empty()
    } else {
        plain_pairs(orthographies.drop_last(), spellings.drop_last()) + "; "@
            + orthographies.last()@ + ": "@ + spellings.last()
    }
}

/// The `; orthography: *spelling*` parts of an entry written as Markdown.
pub open spec fn markdown_pairs(orthographies: Seq<&'static str>, spellings: Seq<Seq<char>>) -> Seq<char>
    decreases spellings.len(),
{
    if spellings.len() == 0 {
        Seq::empty()
    } else {
        markdown_pairs(orthographies.drop_last(), spellings.drop_last()) + "; "@
            + orthographies.last()@ + ": *"@ + spellings.last() + "*"@
    }
}

/// A lexicon: entries spelled in several orthographies, one of which comes first.
#[derive(Debug)]
pub struct Lexicon {
    primary_orthography: usize,
    orthographies: Vec<&'static str>,
    entries: Vec<LexiconEntry>,
}

impl Lexicon {
    #[verifier::type_invariant]
    spec fn spelled_in_each(self) -> bool {
        forall|i: int|
            0 <= i < self.entries@.len() ==> (#[trigger] self.entries@[i]).spelling@.len()
                == self.orthographies@.len()
    }

    /// The index of the orthography that comes first.
    pub closed spec fn primary(&self) -> int {
        self.primary_orthography as int
    }

    /// The names of the orthographies.
    pub closed spec fn orthography_names(&self) -> Seq<&'static str> {
        self.orthographies@
    }

    /// The entries, in the order they were pushed.
    pub closed spec fn entry_list(&self) -> Seq<LexiconEntry> {
        self.entries@
    }

    /// The spellings of an entry as plain values.
    pub open spec fn spellings(entry: LexiconEntry) -> Seq<Seq<char>> {
        texts(entry.spelling@)
    }

    /// Whether every entry has a spelling, not empty, in the orthography that comes first.
    pub open spec fn spelled_first(&self) -> bool {
        forall|i: int|
            0 <= i < self.entry_list().len() ==> primary_or(
                Self::spellings(#[trigger] self.entry_list()[i]),
                self.primary(),
                Seq::<char>::empty(),
            ).len() > 0
    }

    /// The plain-text line of an entry: `main (/word/; orthography: spelling...): definition`.
    pub open spec fn plain_line(&self, entry: LexiconEntry) -> Seq<char> {
        primary_or(Self::spellings(entry), self.primary(), Seq::empty()) + " ("@ + word_text(entry.word)
            + plain_pairs(
            others(self.orthography_names(), self.primary()),
            others(Self::spellings(entry), self.primary()),
        ) + "): "@ + entry.definition@ + "\n"@
    }

    /// The Markdown line of an entry: `**main**. (/word/; orthography: *spelling*...): definition`.
    pub open spec fn markdown_line(&self, entry: LexiconEntry) -> Seq<char> {
        "**"@ + primary_or(Self::spellings(entry), self.primary(), Seq::empty()) + "**. ("@
            + word_text(entry.word) + markdown_pairs(
            others(self.orthography_names(), self.primary()),
            others(Self::spellings(entry), self.primary()),
        ) + "): "@ + entry.definition@ + "\n"@
    }

    /// The lines of the first `n` entries, one after another.
    pub open spec fn text_of(&self, markdown: bool, n: int) -> Seq<char>
        decreases n,
    {
        if n <= 0 {
            Seq::empty()
        } else {
            self.text_of(markdown, n - 1) + if markdown {
                self.markdown_line(self.entry_list()[n - 1])
            } else {
                self.plain_line(self.entry_list()[n - 1])
            }
        }
    }

    /// An empty lexicon.
    pub fn new(orthographies: Vec<&'static str>, primary_orthography: usize) -> (r: Self)
        ensures
            r.orthography_names() == orthographies@,
            r.primary() == primary_orthography,
            r.entry_list().len() == 0,
    {
        Lexicon { primary_orthography, orthographies, entries: Vec::new() }
    }

    /// Adds an entry, which must have a spelling for each orthography.
    pub fn push(&mut self, entry: LexiconEntry)
        requires
            entry.spelling@.len() == old(self).orthography_names().len(),
        ensures
            final(self).entry_list() == old(self).entry_list().push(entry),
            final(self).orthography_names() == old(self).orthography_names(),
            final(self).primary() == old(self).primary(),
    {
        proof {
            use_type_invariant(&*self);
        }
        let mut taken = Lexicon { primary_orthography: 0, orthographies: Vec::new(), entries: Vec::new() };
        std::mem::swap(&mut taken, self);
        let Lexicon { primary_orthography, orthographies, entries } = taken;
        let mut entries = entries;
        entries.push(entry);
        *self = Lexicon { primary_orthography, orthographies, entries };
    }

    /// The names of the orthographies.
    pub fn orthographies(&self) -> (r: &Vec<&'static str>)
        ensures
            r@ == self.orthography_names(),
    {
        &self.orthographies
    }

    /// The index of the orthography that comes first.
    pub fn primary_orthography(&self) -> (r: usize)
        ensures
            r == self.primary(),
    {
        self.primary_orthography
    }

    /// The entries.
    pub fn entries(&self) -> (r: &Vec<LexiconEntry>)
        ensures
            r@ == self.entry_list(),
    {
        &self.entries
    }

    fn pairs(&self, spelling: &Vec<String>, markdown: bool) -> (r: String)
        requires
            spelling@.len() == self.orthography_names().len(),
        ensures
            r@ == if markdown {
                markdown_pairs(others(self.orthography_names(), self.primary()), others(texts(spelling@), self.primary()))
            } else {
                plain_pairs(others(self.orthography_names(), self.primary()), others(texts(spelling@), self.primary()))
            },
    {
        let names = others_of_names(&self.orthographies, self.primary_orthography);
        let spells = others_of_strings(spelling, self.primary_orthography);
        let ghost sv = texts(spells@);
        proof {
            let p = self.primary();
            assert(sv.len() == spells@.len());
            assert(texts(spelling@).len() == spelling@.len());
            if 0 <= p < spelling@.len() {
                assert(others(texts(spelling@), p).len() == spelling@.len() - 1);
                assert(others(self.orthographies@, p).len() == spelling@.len() - 1);
            }
        }
        let mut out = String::new();
        let mut i: usize = 0;
        while i < spells.len()
            invariant
                i <= spells@.len(),
                spells@.len() == names@.len(),
                sv == texts(spells@),
                out@ == if markdown {
                    markdown_pairs(names@.take(i as int), sv.take(i as int))
                } else {
                    plain_pairs(names@.take(i as int), sv.take(i as int))
                },
            decreases spells@.len() - i,
        {
            out.append("; ");
            out.append(names[i]);
            if markdown {
                out.append(": *");
                out.append(spells[i].as_str());
                out.append("*");
            } else {
                out.append(": ");
                out.append(spells[i].as_str());
            }
            proof {
                assert(names@.take(i + 1).drop_last() =~= names@.take(i as int));
                assert(sv.take(i + 1).drop_last() =~= sv.take(i as int));
                assert(sv[i as int] == spells@[i as int]@);
            }
            i = i + 1;
        }
        proof {
            assert(names@.take(i as int) =~= names@);
            assert(sv.take(i as int) =~= sv);
        }
        out
    }

    fn line(&self, entry: &LexiconEntry, markdown: bool) -> (r: String)
        requires
            entry.spelling@.len() == self.orthography_names().len(),
        ensures
            r@ == if markdown {
                self.markdown_line(*entry)
            } else {
                self.plain_line(*entry)
            },
    {
        let main: &str = if self.primary_orthography < entry.spelling.len() {
            entry.spelling[self.primary_orthography].as_str()
        } else {
            ""
        };
        proof {
            assert(main@ == primary_or(Self::spellings(*entry), self.primary(), Seq::empty())) by {
                if self.primary() < entry.spelling@.len() {
                    assert(Self::spellings(*entry)[self.primary()] == entry.spelling@[self.primary()]@);
                } else {
                    reveal_strlit("");
                }
            }
        }
        let mut out = String::new();
        if markdown {
            out.append("**");
            out.append(main);
            out.append("**. (");
        } else {
            out.append(main);
            out.append(" (");
        }
        let word = entry.word.display();
        out.append(word.as_str());
        let pairs = self.pairs(&entry.spelling, markdown);
        out.append(pairs.as_str());
        out.append("): ");
        out.append(entry.definition.as_str());
        out.append("\n");
        proof {
            if markdown {
                assert(out@ =~= self.markdown_line(*entry));
            } else {
                assert(out@ =~= Seq::<char>::empty() + main@ + " ("@ + word@ + pairs@ + "): "@
                    + entry.definition@ + "\n"@);
                assert(out@ =~= self.plain_line(*entry));
            }
        }
        out
    }

    fn text(&self, markdown: bool) -> (r: String)
        ensures
            r@ == self.text_of(markdown, self.entry_list().len() as int),
    {
        let mut out = String::new();
        let mut i: usize = 0;
        while i < self.entries.len()
            invariant
                i <= self.entries@.len(),
                out@ == self.text_of(markdown, i as int),
            decreases self.entries@.len() - i,
        {
            proof {
                use_type_invariant(self);
            }
            let line = self.line(&self.entries[i], markdown);
            out.append(line.as_str());
            i = i + 1;
        }
        out
    }

    /// The lexicon as plain text: a line for each entry, as `plain_line` says. The orthography
    /// that comes first must be one of the lexicon's orthographies.
    pub fn plain_text(&self) -> (r: String)
        requires
            self.primary() < self.orthography_names().len(),
            self.spelled_first(),
        ensures
            r@ == self.text_of(false, self.entry_list().len() as int),
    {
        self.text(false)
    }

    /// The lexicon as Markdown: a line for each entry, as `markdown_line` says. The orthography
    /// that comes first must be one of the lexicon's orthographies.
    pub fn markdown_text(&self) -> (r: String)
        requires
            self.primary() < self.orthography_names().len(),
            self.spelled_first(),
        ensures
            r@ == self.text_of(true, self.entry_list().len() as int),
    {
        self.text(true)
    }

    /// Whether every entry has a spelling, not empty, in the orthography that comes first, as
    /// writing the lexicon needs.
    pub fn check_spelled_first(&self) -> (r: bool)
        ensures
            r == self.spelled_first(),
    {
        let mut i: usize = 0;
        while i < self.entries.len()
            invariant
                i <= self.entries@.len(),
                forall|k: int|
                    0 <= k < i ==> primary_or(
                        Self::spellings(#[trigger] self.entry_list()[k]),
                        self.primary(),
                        Seq::<char>::empty(),
                    ).len() > 0,
            decreases self.entries@.len() - i,
        {
            let entry = &self.entries[i];
            proof {
                if self.primary() < entry.spelling@.len() {
                    assert(Self::spellings(*entry)[self.primary()] == entry.spelling@[self.primary()]@);
                }
            }
            if self.primary_orthography >= entry.spelling.len() || entry.spelling[self.primary_orthography].as_str().is_empty() {
                assert(self.entry_list()[i as int] == *entry);
                assert(primary_or(Self::spellings(self.entry_list()[i as int]), self.primary(), Seq::<char>::empty()).len()
                    == 0);
                return false;
            }
            i = i + 1;
        }
        true
    }

    /// The header of the lexicon as a table: the orthography that comes first, `word`, the
    /// other orthographies, and `definition`.
    pub fn header_fields(&self) -> (r: Vec<String>)
        ensures
            texts(r@) == seq![primary_or(self.orthography_names(), self.primary(), "")@, "word"@]
                + others(self.orthography_names(), self.primary()).map_values(|o: &'static str| o@)
                + seq!["definition"@],
    {
        let main: &'static str = if self.primary_orthography < self.orthographies.len() {
            self.orthographies[self.primary_orthography]
        } else {
            ""
        };
        let mut fields: Vec<String> = Vec::new();
        fields.push(main.to_owned());
        fields.push("word".to_owned());
        let names = others_of_names(&self.orthographies, self.primary_orthography);
        let ghost start = texts(fields@);
        let mut i: usize = 0;
        while i < names.len()
            invariant
                i <= names@.len(),
                texts(fields@) == start + names@.take(i as int).map_values(|o: &'static str| o@),
            decreases names@.len() - i,
        {
            let ghost before = fields@;
            fields.push(names[i].to_owned());
            proof {
                assert(texts(fields@) =~= texts(before).push(names@[i as int]@));
                assert(names@.take(i + 1).map_values(|o: &'static str| o@) =~= names@.take(i as int).map_values(
                    |o: &'static str| o@,
                ).push(names@[i as int]@));
            }
            i = i + 1;
        }
        let ghost before = fields@;
        fields.push("definition".to_owned());
        proof {
            assert(names@.take(i as int) =~= names@);
            assert(texts(fields@) =~= texts(before).push("definition"@));
        }
        fields
    }

    /// The records of the lexicon as a table: for each entry its spelling in the orthography
    /// that comes first, the word, its other spellings, and its definition.
    pub fn records(&self) -> (r: Vec<Vec<String>>)
        requires
            self.spelled_first(),
        ensures
            r@.len() == self.entry_list().len(),
            forall|i: int|
                0 <= i < r@.len() ==> texts((#[trigger] r@[i])@) == seq![
                    primary_or(Self::spellings(self.entry_list()[i]), self.primary(), Seq::empty()),
                    word_text(self.entry_list()[i].word),
                ] + others(Self::spellings(self.entry_list()[i]), self.primary()) + seq![
                    self.entry_list()[i].definition@,
                ],
    {
        let mut out: Vec<Vec<String>> = Vec::new();
        let mut i: usize = 0;
        while i < self.entries.len()
            invariant
                i <= self.entries@.len(),
                out@.len() == i,
                forall|k: int|
                    0 <= k < i ==> texts((#[trigger] out@[k])@) == seq![
                        primary_or(Self::spellings(self.entry_list()[k]), self.primary(), Seq::empty()),
                        word_text(self.entry_list()[k].word),
                    ] + others(Self::spellings(self.entry_list()[k]), self.primary()) + seq![
                        self.entry_list()[k].definition@,
                    ],
            decreases self.entries@.len() - i,
        {
            let entry = &self.entries[i];
            let main: String = if self.primary_orthography < entry.spelling.len() {
                entry.spelling[self.primary_orthography].clone()
            } else {
                String::new()
            };
            let mut record: Vec<String> = Vec::new();
            record.push(main);
            record.push(entry.word.display());
            let spells = others_of_strings(&entry.spelling, self.primary_orthography);
            let ghost start = texts(record@);
            let mut k: usize = 0;
            while k < spells.len()
                invariant
                    k <= spells@.len(),
                    texts(record@) == start + texts(spells@).take(k as int),
                decreases spells@.len() - k,
            {
                let ghost before = record@;
                record.push(spells[k].clone());
                proof {
                    assert(texts(record@) =~= texts(before).push(spells@[k as int]@));
                    assert(texts(spells@).take(k + 1) =~= texts(spells@).take(k as int).push(spells@[k as int]@));
                }
                k = k + 1;
            }
            let ghost before = record@;
            record.push(entry.definition.clone());
            proof {
                assert(texts(spells@).take(k as int) =~= texts(spells@));
                if self.primary() < entry.spelling@.len() {
                    assert(Self::spellings(*entry)[self.primary()] == entry.spelling@[self.primary()]@);
                }
                assert(texts(record@) =~= texts(before).push(entry.definition@));
                assert(texts(record@) =~= seq![
                    primary_or(Self::spellings(*entry), self.primary(), Seq::empty()),
                    word_text(entry.word),
                ] + others(Self::spellings(*entry), self.primary()) + seq![entry.definition@]);
            }
            out.push(record);
            i = i + 1;
        }
        out
    }
}

/// The names other than the one at `primary`, in order.
pub fn others_of_names(items: &Vec<&'static str>, primary: usize) -> (r: Vec<&'static str>)
    ensures
        r@ == others(items@, primary as int),
{
    let mut out: Vec<&'static str> = Vec::new();
    let mut i: usize = 0;
    while i < items.len()
        invariant
            i <= items@.len(),
            out@ == others(items@.take(i as int), primary as int),
        decreases items@.len() - i,
    {
        proof {
            let t = items@.take(i + 1);
            assert(t.take(i as int) =~= items@.take(i as int));
            assert(t.drop_last() =~= items@.take(i as int));
            if (primary as int) < i {
                assert(t.take(primary as int) =~= items@.take(i as int).take(primary as int));
                assert(t.skip(primary + 1) =~= items@.take(i as int).skip(primary + 1).push(items@[i as int]));
            } else if primary as int == i {
                assert(t.take(primary as int) =~= items@.take(i as int));
                assert(t.skip(primary + 1) =~= Seq::<&'static str>::empty());
            }
        }
        if i != primary {
            out.push(items[i]);
        }
        proof {
            let t = items@.take(i + 1);
            if (primary as int) > i {
                assert(out@ =~= others(t, primary as int));
            } else if primary as int == i {
                assert(out@ =~= others(t, primary as int));
            } else {
                assert(out@ =~= others(t, primary as int));
            }
        }
        i = i + 1;
    }
    proof {
        assert(items@.take(i as int) =~= items@);
    }
    out
}

/// The strings other than the one at `primary`, in order.
pub fn others_of_strings(items: &Vec<String>, primary: usize) -> (r: Vec<String>)
    ensures
        texts(r@) == others(texts(items@), primary as int),
{
    let ghost tv = texts(items@);
    let mut out: Vec<String> = Vec::new();
    let mut i: usize = 0;
    while i < items.len()
        invariant
            i <= items@.len(),
            tv == texts(items@),
            texts(out@) == others(tv.take(i as int), primary as int),
        decreases items@.len() - i,
    {
        let ghost before = out@;
        if i != primary {
            out.push(items[i].clone());
        }
        proof {
            let t = tv.take(i + 1);
            assert(tv[i as int] == items@[i as int]@);
            assert(t.take(i as int) =~= tv.take(i as int));
            if (primary as int) < i {
                assert(t.take(primary as int) =~= tv.take(i as int).take(primary as int));
                assert(t.skip(primary + 1) =~= tv.take(i as int).skip(primary + 1).push(tv[i as int]));
                assert(texts(out@) =~= texts(before).push(tv[i as int]));
                assert(texts(out@) =~= others(t, primary as int));
            } else if primary as int == i {
                assert(t.take(primary as int) =~= tv.take(i as int));
                assert(t.skip(primary + 1) =~= Seq::<Seq<char>>::empty());
                assert(texts(out@) =~= others(t, primary as int));
            } else {
                assert(texts(out@) =~= texts(before).push(tv[i as int]));
                assert(texts(out@) =~= others(t, primary as int));
            }
        }
        i = i + 1;
    }
    proof {
        assert(tv.take(i as int) =~= tv);
    }
    out
}

/// The `; orthography: spelling` part for the `k`th orthography.
pub open spec fn plain_part(orthographies: Seq<&'static str>, spellings: Seq<Seq<char>>, k: int) -> Seq<char> {
    "; "@ + orthographies[k]@ + ": "@ + spellings[k]
}

/// The `; orthography: *spelling*` part for the `k`th orthography.
pub open spec fn markdown_part(orthographies: Seq<&'static str>, spellings: Seq<Seq<char>>, k: int) -> Seq<char> {
    "; "@ + orthographies[k]@ + ": *"@ + spellings[k] + "*"@
}

proof fn lemma_plain_pairs_parts(orthographies: Seq<&'static str>, spellings: Seq<Seq<char>>)
    requires
        orthographies.len() == spellings.len(),
    ensures
        plain_pairs(orthographies, spellings) == Seq::new(
            spellings.len(),
            |k: int| plain_part(orthographies, spellings, k),
        ).flatten(),
    decreases spellings.len(),
{
    let parts = Seq::new(spellings.len(), |k: int| plain_part(orthographies, spellings, k));
    if spellings.len() == 0 {
        assert(parts =~= Seq::<Seq<char>>::empty());
    } else {
        let o = orthographies.drop_last();
        let sp = spellings.drop_last();
        lemma_plain_pairs_parts(o, sp);
        let prev = Seq::new(sp.len(), |k: int| plain_part(o, sp, k));
        assert(parts =~= prev.push(plain_part(orthographies, spellings, spellings.len() - 1)));
        prev.lemma_flatten_push(plain_part(orthographies, spellings, spellings.len() - 1));
        assert(plain_pairs(orthographies, spellings) =~= prev.flatten() + plain_part(
            orthographies,
            spellings,
            spellings.len() - 1,
        ));
    }
}

proof fn lemma_markdown_pairs_parts(orthographies: Seq<&'static str>, spellings: Seq<Seq<char>>)
    requires
        orthographies.len() == spellings.len(),
    ensures
        markdown_pairs(orthographies, spellings) == Seq::new(
            spellings.len(),
            |k: int| markdown_part(orthographies, spellings, k),
        ).flatten(),
    decreases spellings.len(),
{
    let parts = Seq::new(spellings.len(), |k: int| markdown_part(orthographies, spellings, k));
    if spellings.len() == 0 {
        assert(parts =~= Seq::<Seq<char>>::empty());
    } else {
        let o = orthographies.drop_last();
        let sp = spellings.drop_last();
        lemma_markdown_pairs_parts(o, sp);
        let prev = Seq::new(sp.len(), |k: int| markdown_part(o, sp, k));
        assert(parts =~= prev.push(markdown_part(orthographies, spellings, spellings.len() - 1)));
        prev.lemma_flatten_push(markdown_part(orthographies, spellings, spellings.len() - 1));
        assert(markdown_pairs(orthographies, spellings) =~= prev.flatten() + markdown_part(
            orthographies,
            spellings,
            spellings.len() - 1,
        ));
    }
}

/// Each line of a lexicon lists, after the word, one part for every orthography other than the
/// one that comes first, in the order of the orthographies: the `k`th part is `; o: s`, with
/// `o` the `k`th of the other orthographies and `s` the entry's spelling in it (`; o: *s*` in
/// Markdown). So a line has one part less than the lexicon has orthographies.
pub proof fn lemma_line_lists_other_orthographies(lexicon: Lexicon, entry: LexiconEntry)
    requires
        entry.spelling@.len() == lexicon.orthography_names().len(),
        0 <= lexicon.primary() < lexicon.orthography_names().len(),
    ensures
        ({
            let names = others(lexicon.orthography_names(), lexicon.primary());
            let spellings = others(Lexicon::spellings(entry), lexicon.primary());
            let main = Lexicon::spellings(entry)[lexicon.primary()];
            &&& names.len() == lexicon.orthography_names().len() - 1
            &&& spellings.len() == names.len()
            &&& forall|k: int|
                0 <= k < names.len() ==> #[trigger] names[k] == lexicon.orthography_names()[if k < lexicon.primary() {
                    k
                } else {
                    k + 1
                }] && spellings[k] == Lexicon::spellings(entry)[if k < lexicon.primary() {
                    k
                } else {
                    k + 1
                }]
            &&& lexicon.plain_line(entry) == main + " ("@ + word_text(entry.word) + Seq::new(
                names.len(),
                |k: int| plain_part(names, spellings, k),
            ).flatten() + "): "@ + entry.definition@ + "\n"@
            &&& lexicon.markdown_line(entry) == "**"@ + main + "**. ("@ + word_text(entry.word) + Seq::new(
                names.len(),
                |k: int| markdown_part(names, spellings, k),
            ).flatten() + "): "@ + entry.definition@ + "\n"@
        }),
{
    let p = lexicon.primary();
    let names = others(lexicon.orthography_names(), p);
    let spellings = others(Lexicon::spellings(entry), p);
    assert(Lexicon::spellings(entry).len() == entry.spelling@.len());
    lemma_plain_pairs_parts(names, spellings);
    lemma_markdown_pairs_parts(names, spellings);
}

} // verus!
