use vstd::prelude::*;
use vstd::string::StringExecFns;

use crate::grid::texts;
use crate::word_table::WordTable;
use crate::word_table::WordTableEntry;

verus! {

/// What one transformation made of a word: the transformed word, whether the result
/// validated (where the transformation validates), and its spellings in the orthographies
/// asked for (none where the transformation does not spell).
#[derive(Debug)]
pub struct TransformResult {
    pub transformed: String,
    pub validated: Option<bool>,
    pub spellings: Vec<String>,
}

/// What became of the word of an entry: it could not be read (with the reading error's
/// text), or it was read (in phonemic notation) and each transformation gave a result.
#[derive(Debug)]
pub enum EntryOutcome {
    Unreadable(String),
    Read { phonemic: String, results: Vec<TransformResult> },
}

/// A transformation result as plain values.
pub type ResultView = (Seq<char>, Option<bool>, Seq<Seq<char>>);

/// An entry outcome as plain values.
pub enum OutcomeView {
    Unreadable(Seq<char>),
    Read(Seq<char>, Seq<ResultView>),
}

/// A transformation result as plain values.
pub open spec fn result_view(r: TransformResult) -> ResultView {
    (r.transformed@, r.validated, texts(r.spellings@))
}

/// An entry outcome as plain values.
pub open spec fn outcome_view(o: EntryOutcome) -> OutcomeView {
    match o {
        EntryOutcome::Unreadable(m) => OutcomeView::Unreadable(m@),
        EntryOutcome::Read { phonemic, results } => OutcomeView::Read(
            phonemic@,
            results@.map_values(|r: TransformResult| result_view(r)),
        ),
    }
}

/// The texts of some static names.
pub open spec fn name_texts(names: Seq<&'static str>) -> Seq<Seq<char>> {
    names.map_values(|n: &'static str| n@)
}

/// The name of the attribute that holds an entry's error.
pub open spec fn error_attr() -> Seq<char> {
    "Error"@
}

/// The attribute names after each of `added` is added in turn, where it is not there yet.
pub open spec fn names_added(names: Seq<Seq<char>>, added: Seq<Seq<char>>) -> Seq<Seq<char>>
    decreases added.len(),
{
    if added.len() == 0 {
        names
    } else {
        let before = names_added(names, added.drop_last());
        if before.contains(added.last()) {
            before
        } else {
            before.push(added.last())
        }
    }
}

/// The value of attribute `name` after the writes, in order, to an entry where it was `old`.
pub open spec fn written(writes: Seq<(Seq<char>, Seq<char>)>, name: Seq<char>, old: Option<Seq<char>>) -> Option<
    Seq<char>,
>
    decreases writes.len(),
{
    if writes.len() == 0 {
        old
    } else if writes.last().0 == name {
        Some(writes.last().1)
    } else {
        written(writes.drop_last(), name, old)
    }
}

/// One more write decides the attribute it names, and leaves the others as they were.
proof fn lemma_written_push(writes: Seq<(Seq<char>, Seq<char>)>, write: (Seq<char>, Seq<char>))
    ensures
        forall|n: Seq<char>, old: Option<Seq<char>>|
            #[trigger] written(writes.push(write), n, old) == if write.0 == n {
                Some(write.1)
            } else {
                written(writes, n, old)
            },
{
    assert(writes.push(write).drop_last() =~= writes);
}

/// The spellings of a result written to the orthography attributes, pair by pair.
pub open spec fn spelling_writes(orthographies: Seq<Seq<char>>, spellings: Seq<Seq<char>>) -> Seq<
    (Seq<char>, Seq<char>),
> {
    let n = if spellings.len() < orthographies.len() {
        spellings.len()
    } else {
        orthographies.len()
    };
    Seq::new(n, |i: int| (orthographies[i], spellings[i]))
}

/// The word of a read entry and the attribute writes, after its results are recorded in turn:
/// when replacing, each result becomes the word and the word before it goes to the `original`
/// attribute; otherwise each result goes to the attribute of its transformation. Each result's
/// spellings follow it.
pub open spec fn results_recorded(
    phonemic: Seq<char>,
    results: Seq<ResultView>,
    replace: bool,
    original: Seq<char>,
    names: Seq<Seq<char>>,
    orthographies: Seq<Seq<char>>,
) -> (Seq<char>, Seq<(Seq<char>, Seq<char>)>)
    decreases results.len(),
{
    if results.len() == 0 {
        (phonemic, Seq::empty())
    } else {
        let (word, writes) = results_recorded(
            phonemic,
            results.drop_last(),
            replace,
            original,
            names,
            orthographies,
        );
        let k = results.len() - 1;
        let result = results.last();
        if replace {
            (result.0, writes.push((original, word)) + spelling_writes(orthographies, result.2))
        } else {
            (word, writes.push((names[k], result.0)) + spelling_writes(orthographies, result.2))
        }
    }
}

/// The error of an entry, if any: the reading error, or a failed validation of its last result.
pub open spec fn outcome_error(outcome: OutcomeView) -> Option<Seq<char>> {
    match outcome {
        OutcomeView::Unreadable(message) => Some("Can't read word: "@ + message),
        OutcomeView::Read(_, results) => if results.len() > 0 && results.last().1 == Some(false) {
            Some("Word was invalid (see trace)"@)
        } else {
            None
        },
    }
}

/// The writes of an error, if any, to the error attribute.
pub open spec fn error_writes(error: Option<Seq<char>>) -> Seq<(Seq<char>, Seq<char>)> {
    match error {
        Some(text) => seq![(error_attr(), text)],
        None => Seq::empty(),
    }
}

/// The word of an entry after its outcome is recorded.
pub open spec fn recorded_word(
    word: Seq<char>,
    outcome: OutcomeView,
    replace: bool,
    original: Seq<char>,
    names: Seq<Seq<char>>,
    orthographies: Seq<Seq<char>>,
) -> Seq<char> {
    match outcome {
        OutcomeView::Unreadable(_) => if replace {
            Seq::empty()
        } else {
            word
        },
        OutcomeView::Read(phonemic, results) => results_recorded(
            phonemic,
            results,
            replace,
            original,
            names,
            orthographies,
        ).0,
    }
}

/// The attribute writes to an entry when its outcome is recorded, in order.
pub open spec fn recorded_writes(
    word: Seq<char>,
    outcome: OutcomeView,
    replace: bool,
    original: Seq<char>,
    names: Seq<Seq<char>>,
    orthographies: Seq<Seq<char>>,
) -> Seq<(Seq<char>, Seq<char>)> {
    let before: Seq<(Seq<char>, Seq<char>)> = match outcome {
        OutcomeView::Unreadable(_) => if replace {
            seq![(original, word)]
        } else {
            Seq::empty()
        },
        OutcomeView::Read(phonemic, results) => results_recorded(
            phonemic,
            results,
            replace,
            original,
            names,
            orthographies,
        ).1,
    };
    before + error_writes(outcome_error(outcome))
}

/// Whether the results of every read outcome are one per transformation.
pub open spec fn outcomes_fit(outcomes: Seq<OutcomeView>, transformations: nat) -> bool {
    forall|i: int|
        0 <= i < outcomes.len() ==> (#[trigger] outcomes[i] matches OutcomeView::Read(_, results)
            ==> results.len() == transformations)
}

/// Records the outcome of an entry, and gives its error, if any.
fn record_entry(
    entry: &mut WordTableEntry,
    outcome: &EntryOutcome,
    replace: bool,
    original: &String,
    names: &Vec<String>,
    orthography_names: &Vec<&'static str>,
) -> (error: Option<String>)
    requires
        outcome_view(*outcome) matches OutcomeView::Read(_, results) ==> results.len() == names@.len(),
    ensures
        match error {
            Some(e) => outcome_error(outcome_view(*outcome)) == Some(e@),
            None => outcome_error(outcome_view(*outcome)) is None,
        },
        final(entry).word_view() == recorded_word(
            old(entry).word_view(),
            outcome_view(*outcome),
            replace,
            original@,
            texts(names@),
            name_texts(orthography_names@),
        ),
        forall|n: Seq<char>|
            #![trigger final(entry).attribute(n)]
            final(entry).attribute(n) == written(
                recorded_writes(
                    old(entry).word_view(),
                    outcome_view(*outcome),
                    replace,
                    original@,
                    texts(names@),
                    name_texts(orthography_names@),
                ),
                n,
                old(entry).attribute(n),
            ),
{
    let ghost start = *entry;
    let ghost orth = name_texts(orthography_names@);
    let ghost tnames = texts(names@);
    let ghost mut writes: Seq<(Seq<char>, Seq<char>)> = Seq::empty();
    let error: Option<String> = match outcome {
        EntryOutcome::Unreadable(message) => {
            if replace {
                let ghost w = entry.word_view();
                entry.replace_word(Some(original.clone()), String::new());
                proof {
                    lemma_written_push(writes, (original@, w));
                    writes = writes.push((original@, w));
                    assert(entry.word_view() =~= Seq::<char>::empty());
                }
            }
            let mut text = String::from_str("Can't read word: ");
            text.append(message.as_str());
            Some(text)
        },
        EntryOutcome::Read { phonemic, results } => {
            entry.replace_word(None, phonemic.clone());
            let ghost rviews = results@.map_values(|r: TransformResult| result_view(r));
            let mut k: usize = 0;
            proof {
                assert(rviews.take(0) =~= Seq::<ResultView>::empty());
            }
            while k < results.len()
                invariant
                    k <= results@.len(),
                    results@.len() == names@.len(),
                    rviews == results@.map_values(|r: TransformResult| result_view(r)),
                    tnames == texts(names@),
                    orth == name_texts(orthography_names@),
                    (entry.word_view(), writes) == results_recorded(
                        phonemic@,
                        rviews.take(k as int),
                        replace,
                        original@,
                        tnames,
                        orth,
                    ),
                    forall|n: Seq<char>|
                        #![trigger entry.attribute(n)]
                        entry.attribute(n) == written(writes, n, start.attribute(n)),
                decreases results@.len() - k,
            {
                let result = &results[k];
                let ghost w = entry.word_view();
                let ghost before = writes;
                proof {
                    assert(rviews.take(k + 1).drop_last() =~= rviews.take(k as int));
                    assert(rviews.take(k + 1).last() == result_view(*result));
                }
                if replace {
                    entry.replace_word(Some(original.clone()), result.transformed.clone());
                    proof {
                        lemma_written_push(writes, (original@, w));
                        writes = writes.push((original@, w));
                    }
                } else {
                    entry.set_attribute(names[k].clone(), result.transformed.clone());
                    proof {
                        lemma_written_push(writes, (tnames[k as int], result.transformed@));
                        writes = writes.push((tnames[k as int], result.transformed@));
                    }
                }
                let ghost mid = writes;
                let ghost wnow = entry.word_view();
                let ghost spelled = spelling_writes(orth, texts(result.spellings@));
                let mut j: usize = 0;
                while j < result.spellings.len() && j < orthography_names.len()
                    invariant
                        j <= result.spellings@.len(),
                        j <= orthography_names@.len(),
                        orth == name_texts(orthography_names@),
                        spelled == spelling_writes(orth, texts(result.spellings@)),
                        j <= spelled.len(),
                        writes == mid + spelled.take(j as int),
                        entry.word_view() == wnow,
                        forall|n: Seq<char>|
                            #![trigger entry.attribute(n)]
                            entry.attribute(n) == written(writes, n, start.attribute(n)),
                    decreases result.spellings@.len() - j,
                {
                    entry.set_attribute(
                        String::from_str(orthography_names[j]),
                        result.spellings[j].clone(),
                    );
                    proof {
                        let pair = (orthography_names@[j as int]@, result.spellings@[j as int]@);
                        assert(spelled[j as int] == pair);
                        assert(spelled.take(j + 1) =~= spelled.take(j as int).push(pair));
                        lemma_written_push(writes, pair);
                        writes = writes.push(pair);
                    }
                    j = j + 1;
                }
                proof {
                    assert(spelled.take(j as int) =~= spelled);
                    let prior = results_recorded(phonemic@, rviews.take(k as int), replace, original@, tnames, orth);
                    assert(prior == (w, before));
                    assert(results_recorded(phonemic@, rviews.take(k + 1), replace, original@, tnames, orth) == (
                        wnow,
                        writes,
                    ));
                }
                k = k + 1;
            }
            proof {
                assert(rviews.take(k as int) =~= rviews);
            }
            if results.len() > 0 && results[results.len() - 1].validated == Some(false) {
                Some(String::from_str("Word was invalid (see trace)"))
            } else {
                None
            }
        },
    };
    match &error {
        Some(text) => {
            let ghost before = writes;
            entry.set_attribute(String::from_str("Error"), text.clone());
            proof {
                reveal_strlit("Error");
                lemma_written_push(writes, (error_attr(), text@));
                writes = writes.push((error_attr(), text@));
            }
        },
        None => {},
    }
    proof {
        assert(writes =~= recorded_writes(
            start.word_view(),
            outcome_view(*outcome),
            replace,
            original@,
            tnames,
            orth,
        ));
    }
    error
}

/// Records the outcomes of transforming the words of a table. When `replace_word` is asked
/// and there is one transformation, the original word moves to the attribute `original_attr`
/// and the transformed word takes its place; otherwise each transformation gets an attribute
/// of its name. The orthographies asked for get attributes, and an `Error` attribute holds each
/// entry's error: a word that could not be read, or a last result that did not validate. The
/// `Error` attribute is taken away again when no entry has one. Gives whether any entry has an
/// error.
pub fn fill_transformed_table(
    words: &mut WordTable,
    original_attr: String,
    names: &Vec<String>,
    replace_word: bool,
    orthography_names: &Vec<&'static str>,
    outcomes: &Vec<EntryOutcome>,
) -> (invalid_found: bool)
    requires
        outcomes@.len() == old(words).entry_list().len(),
        outcomes_fit(outcomes@.map_values(|o: EntryOutcome| outcome_view(o)), names@.len()),
    ensures
        ({
            let replace = replace_word && names@.len() == 1;
            let views = outcomes@.map_values(|o: EntryOutcome| outcome_view(o));
            let added = names_added(
                old(words).names(),
                (if replace {
                    seq![original_attr@]
                } else {
                    texts(names@)
                }) + name_texts(orthography_names@) + seq![error_attr()],
            );
            &&& invalid_found <==> exists|i: int|
                0 <= i < views.len() && #[trigger] outcome_error(views[i]) is Some
            &&& final(words).names() == if invalid_found {
                added
            } else {
                added.filter(|n: Seq<char>| n != "Error"@)
            }
            &&& final(words).entry_list().len() == old(words).entry_list().len()
            &&& forall|i: int|
                0 <= i < views.len() ==> (#[trigger] final(words).entry_list()[i]).word_view() == recorded_word(
                    old(words).entry_list()[i].word_view(),
                    views[i],
                    replace,
                    original_attr@,
                    texts(names@),
                    name_texts(orthography_names@),
                )
            &&& forall|i: int, n: Seq<char>|
                0 <= i < views.len() ==> #[trigger] final(words).entry_list()[i].attribute(n) == written(
                    recorded_writes(
                        old(words).entry_list()[i].word_view(),
                        views[i],
                        replace,
                        original_attr@,
                        texts(names@),
                        name_texts(orthography_names@),
                    ),
                    n,
                    old(words).entry_list()[i].attribute(n),
                )
        }),
{
    let ghost views = outcomes@.map_values(|o: EntryOutcome| outcome_view(o));
    let ghost start = *words;
    let replace = replace_word && names.len() == 1;
    let ghost list = (if replace {
        seq![original_attr@]
    } else {
        texts(names@)
    }) + name_texts(orthography_names@) + seq![error_attr()];
    let ghost mut done: Seq<Seq<char>> = Seq::empty();
    proof {
        assert(names_added(start.names(), done) == start.names());
    }
    if replace {
        words.add_attribute(original_attr.clone());
        proof {
            assert(seq![original_attr@].drop_last() =~= done);
            done = seq![original_attr@];
        }
    } else {
        let mut k: usize = 0;
        while k < names.len()
            invariant
                k <= names@.len(),
                words.entry_list() == start.entry_list(),
                done == texts(names@).take(k as int),
                words.names() == names_added(start.names(), done),
            decreases names@.len() - k,
        {
            words.add_attribute(names[k].clone());
            proof {
                let next = done.push(names@[k as int]@);
                assert(next.drop_last() =~= done);
                assert(texts(names@).take(k + 1) =~= next);
                done = next;
            }
            k = k + 1;
        }
        proof {
            assert(texts(names@).take(k as int) =~= texts(names@));
        }
    }
    let ghost first_part = done;
    let mut j: usize = 0;
    proof {
        assert(first_part + name_texts(orthography_names@).take(0) =~= done);
    }
    while j < orthography_names.len()
        invariant
            j <= orthography_names@.len(),
            words.entry_list() == start.entry_list(),
            done == first_part + name_texts(orthography_names@).take(j as int),
            words.names() == names_added(start.names(), done),
        decreases orthography_names@.len() - j,
    {
        words.add_attribute(String::from_str(orthography_names[j]));
        proof {
            let next = done.push(orthography_names@[j as int]@);
            assert(next.drop_last() =~= done);
            assert(first_part + name_texts(orthography_names@).take(j + 1) =~= next);
            done = next;
        }
        j = j + 1;
    }
    words.add_attribute(String::from_str("Error"));
    proof {
        let next = done.push(error_attr());
        assert(next.drop_last() =~= done);
        assert(name_texts(orthography_names@).take(j as int) =~= name_texts(orthography_names@));
        assert(next =~= list);
        done = next;
    }
    let ghost named = *words;
    let mut invalid_found = false;
    let mut i: usize = 0;
    while i < outcomes.len()
        invariant
            i <= outcomes@.len(),
            outcomes@.len() == start.entry_list().len(),
            views == outcomes@.map_values(|o: EntryOutcome| outcome_view(o)),
            outcomes_fit(views, names@.len()),
            words.names() == named.names(),
            words.entry_list().len() == start.entry_list().len(),
            invalid_found <==> exists|q: int| 0 <= q < i && #[trigger] outcome_error(views[q]) is Some,
            forall|q: int| i <= q < views.len() ==> #[trigger] words.entry_list()[q] == start.entry_list()[q],
            forall|q: int|
                0 <= q < i ==> (#[trigger] words.entry_list()[q]).word_view() == recorded_word(
                    start.entry_list()[q].word_view(),
                    views[q],
                    replace,
                    original_attr@,
                    texts(names@),
                    name_texts(orthography_names@),
                ),
            forall|q: int, n: Seq<char>|
                0 <= q < i ==> #[trigger] words.entry_list()[q].attribute(n) == written(
                    recorded_writes(
                        start.entry_list()[q].word_view(),
                        views[q],
                        replace,
                        original_attr@,
                        texts(names@),
                        name_texts(orthography_names@),
                    ),
                    n,
                    start.entry_list()[q].attribute(n),
                ),
        decreases outcomes@.len() - i,
    {
        assert(views[i as int] == outcome_view(outcomes@[i as int]));
        let ghost before = words.entry_list();
        let entry = words.entry_mut(i);
        let error = record_entry(entry, &outcomes[i], replace, &original_attr, names, orthography_names);
        if error.is_some() {
            invalid_found = true;
        }
        proof {
            assert forall|q: int| 0 <= q < i + 1 && #[trigger] outcome_error(views[q]) is Some implies q < i
                || error is Some by {}
        }
        i = i + 1;
    }
    let ghost filled = *words;
    assert(named.names() == names_added(start.names(), list));
    if !invalid_found {
        words.remove_attribute("Error");
        proof {
            reveal_strlit("Error");
        }
        assert(words.names() == named.names().filter(|n: Seq<char>| n != "Error"@));
    }
    assert(words.entry_list() == filled.entry_list());
    assert(invalid_found <==> exists|q: int| 0 <= q < views.len() && #[trigger] outcome_error(views[q]) is Some);
    invalid_found
}

/// The name of the attribute that holds whether an entry validated.
pub open spec fn validated_attr() -> Seq<char> {
    "Validated"@
}

/// The attribute writes that record a validation: `Valid` and the spellings, or `!! Invalid`.
pub open spec fn validation_writes(valid: bool, orthographies: Seq<Seq<char>>, spellings: Seq<Seq<char>>) -> Seq<
    (Seq<char>, Seq<char>),
> {
    if valid {
        seq![(validated_attr(), "Valid"@)] + spelling_writes(orthographies, spellings)
    } else {
        seq![(validated_attr(), "!! Invalid"@)]
    }
}

/// A validation outcome as plain values: the word in phonemic notation, whether it is valid,
/// and its spellings.
pub open spec fn validation_view(o: (String, bool, Vec<String>)) -> (Seq<char>, bool, Seq<Seq<char>>) {
    (o.0@, o.1, texts(o.2@))
}

/// The number of outcomes that are not valid.
pub open spec fn invalid_count(outcomes: Seq<(Seq<char>, bool, Seq<Seq<char>>)>) -> nat
    decreases outcomes.len(),
{
    if outcomes.len() == 0 {
        0
    } else {
        invalid_count(outcomes.drop_last()) + if outcomes.last().1 {
            0nat
        } else {
            1nat
        }
    }
}

/// Records the validation of the words of a table: each orthography gets an attribute, then
/// `Validated`; each entry's word becomes its phonemic form, and `Validated` holds `Valid`,
/// followed by the spellings, or `!! Invalid`. Gives the number of invalid words.
pub fn fill_validated_table(
    words: &mut WordTable,
    orthography_names: &Vec<&'static str>,
    outcomes: &Vec<(String, bool, Vec<String>)>,
) -> (invalid: usize)
    requires
        outcomes@.len() == old(words).entry_list().len(),
    ensures
        ({
            let views = outcomes@.map_values(|o: (String, bool, Vec<String>)| validation_view(o));
            &&& invalid == invalid_count(views)
            &&& final(words).names() == names_added(
                old(words).names(),
                name_texts(orthography_names@) + seq![validated_attr()],
            )
            &&& final(words).entry_list().len() == old(words).entry_list().len()
            &&& forall|i: int|
                0 <= i < views.len() ==> (#[trigger] final(words).entry_list()[i]).word_view() == views[i].0
            &&& forall|i: int, n: Seq<char>|
                0 <= i < views.len() ==> #[trigger] final(words).entry_list()[i].attribute(n) == written(
                    validation_writes(views[i].1, name_texts(orthography_names@), views[i].2),
                    n,
                    old(words).entry_list()[i].attribute(n),
                )
        }),
{
    let ghost views = outcomes@.map_values(|o: (String, bool, Vec<String>)| validation_view(o));
    let ghost start = *words;
    let ghost orth = name_texts(orthography_names@);
    let ghost mut done: Seq<Seq<char>> = Seq::empty();
    let mut j: usize = 0;
    proof {
        assert(names_added(start.names(), done) == start.names());
    }
    while j < orthography_names.len()
        invariant
            j <= orthography_names@.len(),
            words.entry_list() == start.entry_list(),
            orth == name_texts(orthography_names@),
            done == orth.take(j as int),
            words.names() == names_added(start.names(), done),
        decreases orthography_names@.len() - j,
    {
        words.add_attribute(String::from_str(orthography_names[j]));
        proof {
            let next = done.push(orthography_names@[j as int]@);
            assert(next.drop_last() =~= done);
            assert(orth.take(j + 1) =~= next);
            done = next;
        }
        j = j + 1;
    }
    words.add_attribute(String::from_str("Validated"));
    proof {
        let next = done.push(validated_attr());
        assert(next.drop_last() =~= done);
        assert(orth.take(j as int) =~= orth);
        assert(next =~= orth + seq![validated_attr()]);
    }
    let ghost named = *words;
    let mut invalid: usize = 0;
    let mut i: usize = 0;
    proof {
        assert(views.take(0) =~= Seq::<(Seq<char>, bool, Seq<Seq<char>>)>::empty());
    }
    while i < outcomes.len()
        invariant
            i <= outcomes@.len(),
            outcomes@.len() == start.entry_list().len(),
            views == outcomes@.map_values(|o: (String, bool, Vec<String>)| validation_view(o)),
            orth == name_texts(orthography_names@),
            words.names() == named.names(),
            words.entry_list().len() == start.entry_list().len(),
            invalid == invalid_count(views.take(i as int)),
            invalid <= i,
            forall|q: int| i <= q < views.len() ==> #[trigger] words.entry_list()[q] == start.entry_list()[q],
            forall|q: int| 0 <= q < i ==> (#[trigger] words.entry_list()[q]).word_view() == views[q].0,
            forall|q: int, n: Seq<char>|
                0 <= q < i ==> #[trigger] words.entry_list()[q].attribute(n) == written(
                    validation_writes(views[q].1, orth, views[q].2),
                    n,
                    start.entry_list()[q].attribute(n),
                ),
        decreases outcomes@.len() - i,
    {
        let outcome = &outcomes[i];
        assert(views[i as int] == validation_view(*outcome));
        let entry = words.entry_mut(i);
        let ghost first = *entry;
        entry.replace_word(None, outcome.0.clone());
        let ghost mut writes: Seq<(Seq<char>, Seq<char>)> = Seq::empty();
        if outcome.1 {
            entry.set_attribute(String::from_str("Validated"), String::from_str("Valid"));
            proof {
                reveal_strlit("Validated");
                reveal_strlit("Valid");
                lemma_written_push(writes, (validated_attr(), "Valid"@));
                writes = writes.push((validated_attr(), "Valid"@));
            }
            let ghost mid = writes;
            let ghost spelled = spelling_writes(orth, texts(outcome.2@));
            let mut k: usize = 0;
            while k < outcome.2.len() && k < orthography_names.len()
                invariant
                    k <= outcome.2@.len(),
                    k <= orthography_names@.len(),
                    orth == name_texts(orthography_names@),
                    spelled == spelling_writes(orth, texts(outcome.2@)),
                    k <= spelled.len(),
                    writes == mid + spelled.take(k as int),
                    entry.word_view() == outcome.0@,
                    forall|n: Seq<char>|
                        #![trigger entry.attribute(n)]
                        entry.attribute(n) == written(writes, n, first.attribute(n)),
                decreases outcome.2@.len() - k,
            {
                entry.set_attribute(String::from_str(orthography_names[k]), outcome.2[k].clone());
                proof {
                    let pair = (orthography_names@[k as int]@, outcome.2@[k as int]@);
                    assert(spelled[k as int] == pair);
                    assert(spelled.take(k + 1) =~= spelled.take(k as int).push(pair));
                    lemma_written_push(writes, pair);
                    writes = writes.push(pair);
                }
                k = k + 1;
            }
            proof {
                assert(spelled.take(k as int) =~= spelled);
                assert(writes =~= validation_writes(true, orth, texts(outcome.2@)));
            }
        } else {
            entry.set_attribute(String::from_str("Validated"), String::from_str("!! Invalid"));
            proof {
                reveal_strlit("Validated");
                reveal_strlit("!! Invalid");
                lemma_written_push(writes, (validated_attr(), "!! Invalid"@));
                writes = writes.push((validated_attr(), "!! Invalid"@));
                assert(writes =~= validation_writes(false, orth, texts(outcome.2@)));
            }
            invalid = invalid + 1;
        }
        proof {
            assert(views.take(i + 1).drop_last() =~= views.take(i as int));
            assert(views.take(i + 1).last() == views[i as int]);
        }
        i = i + 1;
    }
    proof {
        assert(views.take(i as int) =~= views);
    }
    invalid
}

/// Writes that name none of an attribute leave it as it was.
proof fn lemma_written_skip(
    writes: Seq<(Seq<char>, Seq<char>)>,
    more: Seq<(Seq<char>, Seq<char>)>,
    name: Seq<char>,
    old: Option<Seq<char>>,
)
    requires
        forall|i: int| 0 <= i < more.len() ==> (#[trigger] more[i]).0 != name,
    ensures
        written(writes + more, name, old) == written(writes, name, old),
    decreases more.len(),
{
    if more.len() > 0 {
        assert((writes + more).drop_last() =~= writes + more.drop_last());
        assert((writes + more).last() == more[more.len() - 1]);
        lemma_written_skip(writes, more.drop_last(), name, old);
    } else {
        assert(writes + more =~= writes);
    }
}

proof fn lemma_results_to_names(
    phonemic: Seq<char>,
    results: Seq<ResultView>,
    original: Seq<char>,
    names: Seq<Seq<char>>,
    orthographies: Seq<Seq<char>>,
    k: int,
    old: Option<Seq<char>>,
)
    requires
        results.len() <= names.len(),
        0 <= k < results.len(),
        forall|i: int, j: int| 0 <= i < j < names.len() ==> names[i] != names[j],
        forall|i: int| 0 <= i < names.len() ==> !orthographies.contains(#[trigger] names[i]),
    ensures
        written(results_recorded(phonemic, results, false, original, names, orthographies).1, names[k], old) == Some(
            results[k].0,
        ),
    decreases results.len(),
{
    let last = results.len() - 1;
    let prev = results_recorded(phonemic, results.drop_last(), false, original, names, orthographies);
    let spelled = spelling_writes(orthographies, results.last().2);
    assert forall|i: int| 0 <= i < spelled.len() implies (#[trigger] spelled[i]).0 != names[k] by {
        assert(orthographies.contains(spelled[i].0));
    }
    lemma_written_skip(prev.1.push((names[last], results.last().0)), spelled, names[k], old);
    assert(prev.1.push((names[last], results.last().0)).drop_last() =~= prev.1);
    if k < last {
        lemma_results_to_names(phonemic, results.drop_last(), original, names, orthographies, k, old);
    }
}

/// Without replacing the word, recording a read entry leaves, for each transformation, the
/// attribute named after it holding that transformation's result: after the writes, the `k`th
/// name's attribute is the `k`th transformed word (for distinct transformation names, none
/// of them the name of an orthography or of the error attribute).
pub proof fn lemma_each_result_under_its_name(
    word: Seq<char>,
    phonemic: Seq<char>,
    results: Seq<ResultView>,
    original: Seq<char>,
    names: Seq<Seq<char>>,
    orthographies: Seq<Seq<char>>,
    old: Option<Seq<char>>,
)
    requires
        results.len() == names.len(),
        forall|i: int, j: int| 0 <= i < j < names.len() ==> names[i] != names[j],
        forall|i: int| 0 <= i < names.len() ==> !orthographies.contains(#[trigger] names[i]),
        forall|i: int| 0 <= i < names.len() ==> #[trigger] names[i] != error_attr(),
    ensures
        forall|k: int|
            0 <= k < names.len() ==> written(
                recorded_writes(word, OutcomeView::Read(phonemic, results), false, original, names, orthographies),
                #[trigger] names[k],
                old,
            ) == Some(results[k].0),
{
    assert forall|k: int| 0 <= k < names.len() implies written(
        recorded_writes(word, OutcomeView::Read(phonemic, results), false, original, names, orthographies),
        #[trigger] names[k],
        old,
    ) == Some(results[k].0) by {
        let errors = error_writes(outcome_error(OutcomeView::Read(phonemic, results)));
        assert forall|i: int| 0 <= i < errors.len() implies (#[trigger] errors[i]).0 != names[k] by {
            assert(errors[i].0 == error_attr());
        }
        lemma_written_skip(
            results_recorded(phonemic, results, false, original, names, orthographies).1,
            errors,
            names[k],
            old,
        );
        lemma_results_to_names(phonemic, results, original, names, orthographies, k, old);
    }
}

/// Replacing the word with the one transformation's result leaves that result as the entry's
/// word, and the word as read, in phonemic notation, in the `original` attribute (where that
/// attribute is not an orthography's or the error attribute).
pub proof fn lemma_replaced_word_keeps_original(
    word: Seq<char>,
    phonemic: Seq<char>,
    result: ResultView,
    original: Seq<char>,
    names: Seq<Seq<char>>,
    orthographies: Seq<Seq<char>>,
    old: Option<Seq<char>>,
)
    requires
        !orthographies.contains(original),
        original != error_attr(),
    ensures
        recorded_word(word, OutcomeView::Read(phonemic, seq![result]), true, original, names, orthographies)
            == result.0,
        written(
            recorded_writes(word, OutcomeView::Read(phonemic, seq![result]), true, original, names, orthographies),
            original,
            old,
        ) == Some(phonemic),
{
    let results = seq![result];
    assert(results.drop_last() =~= Seq::<ResultView>::empty());
    let spelled = spelling_writes(orthographies, result.2);
    assert forall|i: int| 0 <= i < spelled.len() implies (#[trigger] spelled[i]).0 != original by {
        assert(orthographies.contains(spelled[i].0));
    }
    let first = Seq::<(Seq<char>, Seq<char>)>::empty().push((original, phonemic));
    lemma_written_skip(first, spelled, original, old);
    assert(first.drop_last() =~= Seq::<(Seq<char>, Seq<char>)>::empty());
    let errors = error_writes(outcome_error(OutcomeView::Read(phonemic, results)));
    assert forall|i: int| 0 <= i < errors.len() implies (#[trigger] errors[i]).0 != original by {
        assert(errors[i].0 == error_attr());
    }
    lemma_written_skip(first + spelled, errors, original, old);
    assert(results.last() == result);
    assert(results_recorded(phonemic, results.drop_last(), true, original, names, orthographies) == (
        phonemic,
        Seq::<(Seq<char>, Seq<char>)>::empty(),
    ));
    assert(Seq::<(Seq<char>, Seq<char>)>::empty().push((original, phonemic)) + spelled == results_recorded(
        phonemic,
        results,
        true,
        original,
        names,
        orthographies,
    ).1);
}

} // verus!
