use vstd::prelude::*;
use vstd::slice::slice_to_vec;
use vstd::string::StringExecFns;
use vstd::string::StringSliceAdditionalSpecFns;
use vstd::utf8::decode_utf8;
use vstd::utf8::encode_utf8;

use crate::bag::Bag;
use crate::bag::merged;
use crate::names::compare_bytes;
use crate::names::same_name;
use crate::names::lex_less;
use crate::order::Rank;
use crate::phoneme::Inventory;
use crate::phoneme::Phoneme;
use crate::phoneme::members;
use crate::phoneme_table::HeaderDef;
use crate::phoneme_table::HeaderMap;
use crate::phoneme_table::TableDef;
use crate::phoneme_table::Table0DDef;
use crate::phoneme_table::TableEntry;
use crate::phoneme::PHONEME;
use crate::errors::ElbieError;
use crate::grid::Cell;
use crate::grid::Grid;
use crate::grid::RowHeader;
use crate::grid::SubrowHeader;
use crate::grid::TableClass;
use crate::grid::header_count;
use crate::grid::headers_view;
use crate::grid::row_view;
use crate::grid::rows_view;
use crate::grid::CellView;
use crate::grid::GridRow;
use crate::grid::cell_view;
use crate::grid::span_total;
use crate::grid::ColumnHeader;
use crate::grid::HeadersView;
use crate::grid::RowView;
use crate::grid::SubcolumnHeader;
use crate::grid::TDClass;
use crate::grid::TRBodyClass;

verus! {

/// How a phoneme is shown in a cell of a phoneme table: plainly, or marked with `⚠` because an
/// earlier cell shows it already.
#[derive(Debug, Clone, Copy)]
pub enum PhonemeDisplay {
    Normal(Phoneme),
    Duplicate(Phoneme),
}

/// The text of a shown phoneme.
pub open spec fn display_chars(d: PhonemeDisplay) -> Seq<char> {
    match d {
        PhonemeDisplay::Normal(p) => p.name@,
        PhonemeDisplay::Duplicate(p) => seq!['⚠'] + p.name@,
    }
}

impl PhonemeDisplay {
    /// The text of the shown phoneme, as `display_chars` says.
    pub fn text(&self) -> (r: String)
        ensures
            r@ == display_chars(*self),
    {
        match self {
            PhonemeDisplay::Normal(p) => String::from_str(p.name),
            PhonemeDisplay::Duplicate(p) => {
                let mut out = String::from_str("⚠");
                out.append(p.name);
                proof {
                    reveal_strlit("⚠");
                }
                out
            },
        }
    }
}

/// The UTF-8 encoding of the warning sign that marks a phoneme shown twice.
pub open spec fn warning_bytes() -> Seq<u8> {
    encode_utf8(seq!['⚠'])
}

/// The text of a phoneme, from the UTF-8 encoding that is its view.
pub proof fn lemma_phoneme_text(p: Phoneme)
    ensures
        decode_utf8(p@) == p.name@,
{
    vstd::utf8::encode_utf8_decode_utf8(p.name@);
}

/// The UTF-8 encoding of a phoneme marked with the warning sign.
fn warned_bytes(p: &Phoneme) -> (r: Vec<u8>)
    ensures
        r@ == warning_bytes() + p@,
{
    proof {
        reveal_strlit("⚠");
    }
    let sign = "⚠".as_bytes();
    let mut out = slice_to_vec(sign);
    let name = p.name.as_bytes();
    let mut i: usize = 0;
    proof {
        assert("⚠"@ =~= seq!['⚠']);
        assert(out@ == warning_bytes());
        assert(name@.take(0) =~= Seq::<u8>::empty());
        assert(out@ =~= warning_bytes() + name@.take(0));
    }
    while i < name.len()
        invariant
            i <= name@.len(),
            name@ == p@,
            out@ == warning_bytes() + name@.take(i as int),
        decreases name@.len() - i,
    {
        out.push(name[i]);
        proof {
            assert(name@.take(i + 1) =~= name@.take(i as int).push(name@[i as int]));
        }
        i = i + 1;
    }
    proof {
        assert(name@.take(i as int) =~= name@);
    }
    out
}

/// The phonemes of a cell in the order they are shown: the plain ones (`normals`) and the
/// marked ones (`duplicates`), each list ascending, merged by the bytes of their texts; a
/// marked phoneme comes first only when its text sorts strictly first. Each entry says whether
/// the phoneme is marked.
pub open spec fn display_order(normals: Seq<Seq<u8>>, duplicates: Seq<Seq<u8>>) -> Seq<(bool, Seq<u8>)>
    decreases normals.len() + duplicates.len(),
{
    if normals.len() == 0 && duplicates.len() == 0 {
        Seq::empty()
    } else if normals.len() == 0 || (duplicates.len() > 0 && lex_less(
        warning_bytes() + duplicates[0],
        normals[0],
    )) {
        seq![(true, duplicates[0])] + display_order(normals, duplicates.drop_first())
    } else {
        seq![(false, normals[0])] + display_order(normals.drop_first(), duplicates)
    }
}

/// The text of a shown phoneme, from its encoding and whether it is marked.
pub open spec fn shown_text(entry: (bool, Seq<u8>)) -> Seq<char> {
    if entry.0 {
        seq!['⚠'] + decode_utf8(entry.1)
    } else {
        decode_utf8(entry.1)
    }
}

/// Texts joined by single spaces.
pub open spec fn spaced(texts: Seq<Seq<char>>) -> Seq<char>
    decreases texts.len(),
{
    if texts.len() == 0 {
        Seq::empty()
    } else if texts.len() == 1 {
        texts[0]
    } else {
        spaced(texts.drop_last()) + seq![' '] + texts.last()
    }
}

/// The phonemes of `phonemes` that are in the named set, or all of them where no set is named.
pub open spec fn narrowed(inventory: Inventory, phonemes: Seq<Seq<u8>>, set: Option<&'static str>) -> Seq<
    Seq<u8>,
> {
    match set {
        Some(s) => merged::<Phoneme>(
            phonemes,
            members(inventory.set_named(s.spec_bytes())),
            false,
            false,
            true,
        ),
        None => phonemes,
    }
}

/// The phonemes of `master` that are in every named set of `sets`.
pub open spec fn cell_members(inventory: Inventory, master: Seq<Seq<u8>>, sets: Seq<Option<&'static str>>) -> Seq<
    Seq<u8>,
>
    decreases sets.len(),
{
    if sets.len() == 0 {
        master
    } else {
        narrowed(inventory, cell_members(inventory, master, sets.drop_last()), sets.last())
    }
}

/// The text of a cell that holds `cell`: its phonemes sorted by their texts and joined by
/// spaces. When `tracking`, those that are not among the `unprinted` phonemes are marked.
pub open spec fn cell_text(cell: Seq<Seq<u8>>, unprinted: Seq<Seq<u8>>, tracking: bool) -> Seq<char> {
    let order = if tracking {
        display_order(
            merged::<Phoneme>(cell, unprinted, false, false, true),
            merged::<Phoneme>(cell, unprinted, true, false, false),
        )
    } else {
        display_order(cell, Seq::empty())
    };
    spaced(order.map_values(|e: (bool, Seq<u8>)| shown_text(e)))
}

/// The unprinted phonemes after a cell: those of the cell are printed now.
pub open spec fn left_unprinted(cell: Seq<Seq<u8>>, unprinted: Seq<Seq<u8>>, tracking: bool) -> Seq<Seq<u8>> {
    if tracking {
        merged::<Phoneme>(unprinted, cell, true, false, false)
    } else {
        unprinted
    }
}

/// Every phoneme name is a single line.
pub open spec fn single_line(names: Seq<Seq<u8>>) -> bool {
    forall|i: int| 0 <= i < names.len() ==> !(#[trigger] decode_utf8(names[i])).contains('\n')
}

proof fn lemma_spaced_push(texts: Seq<Seq<char>>, t: Seq<char>)
    ensures
        spaced(texts.push(t)) == if texts.len() == 0 {
            t
        } else {
            spaced(texts) + seq![' '] + t
        },
{
    assert(texts.push(t).drop_last() =~= texts);
}

proof fn lemma_spaced_single_line(texts: Seq<Seq<char>>)
    requires
        forall|i: int| 0 <= i < texts.len() ==> !(#[trigger] texts[i]).contains('\n'),
    ensures
        !spaced(texts).contains('\n'),
    decreases texts.len(),
{
    if texts.len() > 1 {
        lemma_spaced_single_line(texts.drop_last());
        let whole = spaced(texts);
        let front = spaced(texts.drop_last());
        assert(whole == front + seq![' '] + texts.last());
        if whole.contains('\n') {
            let k = choose|k: int| 0 <= k < whole.len() && whole[k] == '\n';
            if k < front.len() {
                assert(front[k] == '\n');
            } else if k > front.len() {
                assert(texts.last()[k - front.len() - 1] == '\n');
            }
        }
    }
}

/// Writes the text of a cell, as `cell_text` says, from the plain and the marked phonemes.
fn write_cell(normals: &Bag<Phoneme>, duplicates: &Bag<Phoneme>) -> (r: String)
    requires
        single_line(normals@),
        single_line(duplicates@),
    ensures
        r@ == spaced(display_order(normals@, duplicates@).map_values(|e: (bool, Seq<u8>)| shown_text(e))),
        !r@.contains('\n'),
{
    let plain = normals.items();
    let marked = duplicates.items();
    let ghost a = normals@;
    let ghost b = duplicates@;
    let ghost whole = display_order(a, b);
    let ghost pieces = whole.map_values(|e: (bool, Seq<u8>)| shown_text(e));
    let mut out = String::new();
    let mut i: usize = 0;
    let mut j: usize = 0;
    let ghost mut done: Seq<(bool, Seq<u8>)> = Seq::empty();
    proof {
        assert(a.skip(0) =~= a);
        assert(b.skip(0) =~= b);
    }
    while i < plain.len() || j < marked.len()
        invariant
            crate::bag::views(plain@) == a,
            crate::bag::views(marked@) == b,
            single_line(a),
            single_line(b),
            i <= plain@.len(),
            j <= marked@.len(),
            whole == display_order(a, b),
            whole == done + display_order(a.skip(i as int), b.skip(j as int)),
            out@ == spaced(done.map_values(|e: (bool, Seq<u8>)| shown_text(e))),
            forall|k: int| 0 <= k < done.len() ==> !(#[trigger] shown_text(done[k])).contains('\n'),
            done.len() == i + j,
        decreases plain@.len() - i + marked@.len() - j,
    {
        let ghost rest_a = a.skip(i as int);
        let ghost rest_b = b.skip(j as int);
        let first = i == 0 && j == 0;
        let take_marked = if i >= plain.len() {
            true
        } else if j >= marked.len() {
            false
        } else {
            let w = warned_bytes(&marked[j]);
            match compare_bytes(w.as_slice(), plain[i].name.as_bytes()) {
                Rank::Less => true,
                _ => false,
            }
        };
        let ghost before = done;
        let shown = if take_marked {
            let q = marked[j];
            proof {
                assert(rest_b[0] == q@);
                assert(rest_b.drop_first() =~= b.skip(j + 1));
                assert(display_order(rest_a, rest_b) == seq![(true, q@)] + display_order(rest_a, b.skip(j + 1)));
                lemma_phoneme_text(q);
                assert(b[j as int] == q@);
                done = done.push((true, q@));
            }
            j = j + 1;
            PhonemeDisplay::Duplicate(q)
        } else {
            let p = plain[i];
            proof {
                assert(rest_a[0] == p@);
                assert(rest_a.drop_first() =~= a.skip(i + 1));
                assert(display_order(rest_a, rest_b) == seq![(false, p@)] + display_order(a.skip(i + 1), rest_b));
                lemma_phoneme_text(p);
                assert(a[i as int] == p@);
                done = done.push((false, p@));
            }
            i = i + 1;
            PhonemeDisplay::Normal(p)
        };
        let text = shown.text();
        proof {
            assert(text@ == shown_text(done.last()));
            assert(!decode_utf8(done.last().1).contains('\n'));
            if done.last().0 {
                if text@.contains('\n') {
                    let k = choose|k: int| 0 <= k < text@.len() && text@[k] == '\n';
                    assert(k > 0);
                    assert(decode_utf8(done.last().1)[k - 1] == '\n');
                }
            }
            assert(done.map_values(|e: (bool, Seq<u8>)| shown_text(e)) =~= before.map_values(
                |e: (bool, Seq<u8>)| shown_text(e),
            ).push(shown_text(done.last())));
            lemma_spaced_push(before.map_values(|e: (bool, Seq<u8>)| shown_text(e)), text@);
        }
        if !first {
            crate::text::push_char(&mut out, ' ');
        }
        out.append(text.as_str());
        proof {
            assert(whole =~= done + display_order(a.skip(i as int), b.skip(j as int)));
        }
    }
    proof {
        assert(a.skip(i as int).len() == 0 && b.skip(j as int).len() == 0);
        assert(done =~= whole);
        lemma_spaced_single_line(pieces);
    }
    out
}


proof fn lemma_single_line_within(a: Seq<Seq<u8>>, b: Seq<Seq<u8>>)
    requires
        single_line(b),
        forall|x: Seq<u8>| a.contains(x) ==> b.contains(x),
    ensures
        single_line(a),
{
    assert forall|i: int| 0 <= i < a.len() implies !(#[trigger] decode_utf8(a[i])).contains('\n') by {
        assert(a.contains(a[i]));
        let j = choose|j: int| 0 <= j < b.len() && b[j] == a[i];
        assert(decode_utf8(b[j]) == decode_utf8(a[i]));
    }
}

/// Narrows phonemes to a set, or keeps them all where no set is named.
fn narrow(inventory: &Inventory, phonemes: Bag<Phoneme>, set: Option<&'static str>) -> (r: Bag<Phoneme>)
    requires
        set matches Some(s) ==> inventory.has_set(s.spec_bytes()),
    ensures
        r@ == narrowed(*inventory, phonemes@, set),
        forall|x: Seq<u8>| r@.contains(x) ==> phonemes@.contains(x),
{
    match set {
        None => phonemes,
        Some(s) => match inventory.get_set(s) {
            Ok(b) => phonemes.intersection(b),
            Err(_) => phonemes,
        },
    }
}

/// Fills one cell: the phonemes of `master` in the four sets, shown as `cell_text` says, and
/// takes them out of the unprinted phonemes when `tracking`.
fn fill_cell(
    inventory: &Inventory,
    master: &Bag<Phoneme>,
    sets: (Option<&'static str>, Option<&'static str>, Option<&'static str>, Option<&'static str>),
    unprinted: &mut Bag<Phoneme>,
    tracking: bool,
) -> (r: String)
    requires
        sets.0 matches Some(s) ==> inventory.has_set(s.spec_bytes()),
        sets.1 matches Some(s) ==> inventory.has_set(s.spec_bytes()),
        sets.2 matches Some(s) ==> inventory.has_set(s.spec_bytes()),
        sets.3 matches Some(s) ==> inventory.has_set(s.spec_bytes()),
        single_line(master@),
    ensures
        r@ == cell_text(cell_members(*inventory, master@, seq![sets.0, sets.1, sets.2, sets.3]), old(unprinted)@, tracking),
        final(unprinted)@ == left_unprinted(
            cell_members(*inventory, master@, seq![sets.0, sets.1, sets.2, sets.3]),
            old(unprinted)@,
            tracking,
        ),
        !r@.contains('\n'),
        forall|x: Seq<u8>| final(unprinted)@.contains(x) ==> old(unprinted)@.contains(x),
        tracking ==> forall|x: Seq<u8>|
            final(unprinted)@.contains(x) <==> old(unprinted)@.contains(x) && !cell_members(
                *inventory,
                master@,
                seq![sets.0, sets.1, sets.2, sets.3],
            ).contains(x),
{
    let ghost all = seq![sets.0, sets.1, sets.2, sets.3];
    let ghost s1 = seq![sets.0];
    let ghost s2 = seq![sets.0, sets.1];
    let ghost s3 = seq![sets.0, sets.1, sets.2];
    proof {
        assert(all.drop_last() =~= s3);
        assert(s3.drop_last() =~= s2);
        assert(s2.drop_last() =~= s1);
        assert(s1.drop_last() =~= Seq::<Option<&'static str>>::empty());
    }
    let m0 = master.duplicate();
    assert(m0@ == cell_members(*inventory, master@, Seq::empty()));
    let m1 = narrow(inventory, m0, sets.0);
    assert(m1@ == cell_members(*inventory, master@, s1));
    let m2 = narrow(inventory, m1, sets.1);
    assert(m2@ == cell_members(*inventory, master@, s2));
    let m3 = narrow(inventory, m2, sets.2);
    assert(m3@ == cell_members(*inventory, master@, s3));
    let m = narrow(inventory, m3, sets.3);
    proof {
        assert(m@ == cell_members(*inventory, master@, all));
        lemma_single_line_within(m3@, master@);
        lemma_single_line_within(m@, m3@);
    }
    if tracking {
        let normals = m.intersection(unprinted);
        let duplicates = m.difference(unprinted);
        proof {
            lemma_single_line_within(normals@, m@);
            lemma_single_line_within(duplicates@, m@);
        }
        let text = write_cell(&normals, &duplicates);
        let rest = unprinted.difference(&m);
        *unprinted = rest;
        text
    } else {
        let none: Bag<Phoneme> = Bag::new();
        proof {
            assert(single_line(none@));
        }
        write_cell(&m, &none)
    }
}

/// Where a header sorts among headers already sorted by place: after every header whose place
/// is not greater.
pub open spec fn ordered_insert(sorted: Seq<(&'static str, HeaderDef)>, e: (&'static str, HeaderDef)) -> Seq<
    (&'static str, HeaderDef),
>
    decreases sorted.len(),
{
    if sorted.len() == 0 {
        seq![e]
    } else if e.1.order < sorted.last().1.order {
        ordered_insert(sorted.drop_last(), e).push(sorted.last())
    } else {
        sorted.push(e)
    }
}

/// Headers sorted by their places; headers with the same place keep the order they were added
/// in.
pub open spec fn by_order(entries: Seq<(&'static str, HeaderDef)>) -> Seq<(&'static str, HeaderDef)>
    decreases entries.len(),
{
    if entries.len() == 0 {
        Seq::empty()
    } else {
        ordered_insert(by_order(entries.drop_last()), entries.last())
    }
}

/// A header along an axis of a laid-out table: the set it narrows to (none along an axis that
/// the table does not have) and its caption and place.
pub type AxisHeader = (Option<&'static str>, HeaderDef);

/// The headers of an axis, in the order the table shows them.
pub open spec fn axis_of(entries: Seq<(&'static str, HeaderDef)>) -> Seq<AxisHeader> {
    by_order(entries).map_values(|e: (&'static str, HeaderDef)| (Some(e.0), e.1))
}

/// The single header of an axis that a table does not have.
pub open spec fn lone(caption: &'static str) -> Seq<AxisHeader> {
    seq![(None::<&'static str>, HeaderDef { caption, order: 0 })]
}

proof fn lemma_ordered_insert(sorted: Seq<(&'static str, HeaderDef)>, e: (&'static str, HeaderDef))
    ensures
        ordered_insert(sorted, e).len() == sorted.len() + 1,
    decreases sorted.len(),
{
    if sorted.len() > 0 && e.1.order < sorted.last().1.order {
        lemma_ordered_insert(sorted.drop_last(), e);
    }
}

proof fn lemma_by_order(entries: Seq<(&'static str, HeaderDef)>)
    ensures
        by_order(entries).len() == entries.len(),
    decreases entries.len(),
{
    if entries.len() > 0 {
        lemma_by_order(entries.drop_last());
        lemma_ordered_insert(by_order(entries.drop_last()), entries.last());
    }
}

/// Every set of the headers is a set of the inventory.
pub open spec fn sets_known(inventory: Inventory, entries: Seq<(&'static str, HeaderDef)>) -> bool {
    forall|i: int| 0 <= i < entries.len() ==> inventory.has_set((#[trigger] entries[i]).0.spec_bytes())
}

/// Every set that a laid-out axis narrows to is a set of the inventory.
pub open spec fn axis_known(inventory: Inventory, axis: Seq<AxisHeader>) -> bool {
    forall|i: int|
        0 <= i < axis.len() ==> ((#[trigger] axis[i]).0 matches Some(s) ==> inventory.has_set(s.spec_bytes()))
}

proof fn lemma_insert_known(inventory: Inventory, sorted: Seq<(&'static str, HeaderDef)>, e: (&'static str, HeaderDef))
    requires
        sets_known(inventory, sorted),
        inventory.has_set(e.0.spec_bytes()),
    ensures
        sets_known(inventory, ordered_insert(sorted, e)),
    decreases sorted.len(),
{
    if sorted.len() > 0 && e.1.order < sorted.last().1.order {
        let front = sorted.drop_last();
        assert(sets_known(inventory, front)) by {
            assert forall|i: int| 0 <= i < front.len() implies inventory.has_set((#[trigger] front[i]).0.spec_bytes()) by {
                assert(front[i] == sorted[i]);
            }
        }
        lemma_insert_known(inventory, front, e);
        let inner = ordered_insert(front, e);
        let whole = ordered_insert(sorted, e);
        assert(whole == inner.push(sorted.last()));
        assert forall|i: int| 0 <= i < whole.len() implies inventory.has_set((#[trigger] whole[i]).0.spec_bytes()) by {
            if i < inner.len() {
                assert(whole[i] == inner[i]);
            } else {
                assert(whole[i] == sorted[sorted.len() - 1]);
            }
        }
    } else if sorted.len() > 0 {
        let whole = ordered_insert(sorted, e);
        assert forall|i: int| 0 <= i < whole.len() implies inventory.has_set((#[trigger] whole[i]).0.spec_bytes()) by {
            if i < sorted.len() {
                assert(whole[i] == sorted[i]);
            }
        }
    } else {
        let whole = ordered_insert(sorted, e);
        assert forall|i: int| 0 <= i < whole.len() implies inventory.has_set((#[trigger] whole[i]).0.spec_bytes()) by {
            assert(whole[i] == e);
        }
    }
}

proof fn lemma_by_order_known(inventory: Inventory, entries: Seq<(&'static str, HeaderDef)>)
    requires
        sets_known(inventory, entries),
    ensures
        sets_known(inventory, by_order(entries)),
    decreases entries.len(),
{
    if entries.len() > 0 {
        let front = entries.drop_last();
        assert(sets_known(inventory, front)) by {
            assert forall|i: int| 0 <= i < front.len() implies inventory.has_set((#[trigger] front[i]).0.spec_bytes()) by {
                assert(front[i] == entries[i]);
            }
        }
        lemma_by_order_known(inventory, front);
        assert(inventory.has_set(entries[entries.len() - 1].0.spec_bytes()));
        lemma_insert_known(inventory, by_order(front), entries.last());
    }
}

proof fn lemma_axis_known(inventory: Inventory, entries: Seq<(&'static str, HeaderDef)>)
    requires
        sets_known(inventory, entries),
    ensures
        axis_known(inventory, axis_of(entries)),
        axis_of(entries).len() == entries.len(),
{
    lemma_by_order(entries);
    lemma_by_order_known(inventory, entries);
    let sorted = by_order(entries);
    assert forall|i: int| 0 <= i < axis_of(entries).len() implies ((#[trigger] axis_of(entries)[i]).0 matches Some(
        s,
    ) ==> inventory.has_set(s.spec_bytes())) by {
        assert(inventory.has_set(sorted[i].0.spec_bytes()));
    }
}

fn insert_in_order(sorted: &mut Vec<(&'static str, HeaderDef)>, e: (&'static str, HeaderDef))
    ensures
        final(sorted)@ == ordered_insert(old(sorted)@, e),
    decreases old(sorted)@.len(),
{
    let n = sorted.len();
    if n > 0 && e.1.order < sorted[n - 1].1.order {
        let ghost before = sorted@;
        let last = sorted.pop();
        match last {
            Some(last) => {
                proof {
                    assert(sorted@ =~= before.drop_last());
                }
                insert_in_order(sorted, e);
                sorted.push(last);
            },
            None => {},
        }
    } else {
        sorted.push(e);
    }
}

/// The headers of an axis, in the order the table shows them, as `axis_of` says.
fn axis_headers(map: &HeaderMap) -> (r: Vec<AxisHeader>)
    ensures
        r@ == axis_of(map.entry_list()),
{
    let entries = map.entries();
    let mut sorted: Vec<(&'static str, HeaderDef)> = Vec::new();
    let mut i: usize = 0;
    while i < entries.len()
        invariant
            i <= entries@.len(),
            entries@ == map.entry_list(),
            sorted@ == by_order(entries@.take(i as int)),
        decreases entries@.len() - i,
    {
        proof {
            assert(entries@.take(i + 1).drop_last() =~= entries@.take(i as int));
        }
        insert_in_order(&mut sorted, entries[i]);
        i = i + 1;
    }
    proof {
        assert(entries@.take(i as int) =~= entries@);
    }
    let ghost whole = axis_of(map.entry_list());
    let mut out: Vec<AxisHeader> = Vec::new();
    let mut k: usize = 0;
    while k < sorted.len()
        invariant
            k <= sorted@.len(),
            sorted@ == by_order(map.entry_list()),
            whole == axis_of(map.entry_list()),
            out@ == whole.take(k as int),
        decreases sorted@.len() - k,
    {
        out.push((Some(sorted[k].0), sorted[k].1));
        proof {
            assert(whole.take(k + 1) =~= whole.take(k as int).push(whole[k as int]));
        }
        k = k + 1;
    }
    proof {
        assert(whole.take(k as int) =~= whole);
    }
    out
}

fn lone_axis(caption: &'static str) -> (r: Vec<AxisHeader>)
    ensures
        r@ == lone(caption),
{
    let mut out: Vec<AxisHeader> = Vec::new();
    out.push((None, HeaderDef { caption, order: 0 }));
    proof {
        assert(out@ =~= lone(caption));
    }
    out
}


/// The caption of a table.
pub open spec fn table_caption(def: TableDef) -> &'static str {
    match def {
        TableDef::OneCell(d) => d.header.caption,
        TableDef::ListTable(d) => d.header.caption,
        TableDef::SimpleTable(d) => d.caption,
        TableDef::TableWithSubcolumns(d) => d.caption,
        TableDef::TableWithSubcolumnsAndSubrows(d) => d.caption,
    }
}

/// The columns of a table, in order. A table of one cell or a list has one column, headed by
/// its caption.
pub open spec fn column_axis(def: TableDef) -> Seq<AxisHeader> {
    match def {
        TableDef::OneCell(d) => seq![(None::<&'static str>, d.header)],
        TableDef::ListTable(d) => seq![(None::<&'static str>, d.header)],
        TableDef::SimpleTable(d) => axis_of(d.columns_by_set.entry_list()),
        TableDef::TableWithSubcolumns(d) => axis_of(d.columns_by_set.entry_list()),
        TableDef::TableWithSubcolumnsAndSubrows(d) => axis_of(d.columns_by_set.entry_list()),
    }
}

/// The subcolumns of each column, in order; one without a set where the table has none.
pub open spec fn subcolumn_axis(def: TableDef) -> Seq<AxisHeader> {
    match def {
        TableDef::TableWithSubcolumns(d) => axis_of(d.subcolumns_by_set.entry_list()),
        TableDef::TableWithSubcolumnsAndSubrows(d) => axis_of(d.subcolumns_by_set.entry_list()),
        _ => lone(""),
    }
}

/// The rows of a table, in order; one without a set for a table of one cell.
pub open spec fn row_axis(def: TableDef) -> Seq<AxisHeader> {
    match def {
        TableDef::OneCell(_) => lone(""),
        TableDef::ListTable(d) => axis_of(d.rows_by_set.entry_list()),
        TableDef::SimpleTable(d) => axis_of(d.rows_by_set.entry_list()),
        TableDef::TableWithSubcolumns(d) => axis_of(d.rows_by_set.entry_list()),
        TableDef::TableWithSubcolumnsAndSubrows(d) => axis_of(d.rows_by_set.entry_list()),
    }
}

/// The subrows of each row, in order; one without a set where the table has none.
pub open spec fn subrow_axis(def: TableDef) -> Seq<AxisHeader> {
    match def {
        TableDef::TableWithSubcolumnsAndSubrows(d) => axis_of(d.subrows_by_set.entry_list()),
        _ => lone(""),
    }
}

/// Whether the subcolumn headers are shown: for tables with subcolumns whose captions are not
/// hidden.
pub open spec fn subcolumn_headers_shown(def: TableDef) -> bool {
    match def {
        TableDef::TableWithSubcolumns(d) => !d.hide_subcolumn_captions,
        TableDef::TableWithSubcolumnsAndSubrows(d) => !d.hide_subcolumn_captions,
        _ => false,
    }
}

/// Whether the subrow headers are shown: for tables with subrows whose captions are not hidden.
pub open spec fn subrow_headers_shown(def: TableDef) -> bool {
    match def {
        TableDef::TableWithSubcolumnsAndSubrows(d) => !d.hide_subrow_captions,
        _ => false,
    }
}

/// Whether a table can be laid out: every set along its axes is a set of the inventory, and a
/// table with subcolumns has at least one.
pub open spec fn table_printable(inventory: Inventory, def: TableDef) -> bool {
    match def {
        TableDef::OneCell(_) => true,
        TableDef::ListTable(d) => sets_known(inventory, d.rows_by_set.entry_list()),
        TableDef::SimpleTable(d) => sets_known(inventory, d.columns_by_set.entry_list()) && sets_known(
            inventory,
            d.rows_by_set.entry_list(),
        ),
        TableDef::TableWithSubcolumns(d) => sets_known(inventory, d.columns_by_set.entry_list()) && sets_known(
            inventory,
            d.subcolumns_by_set.entry_list(),
        ) && sets_known(inventory, d.rows_by_set.entry_list()) && d.subcolumns_by_set.entry_list().len() > 0,
        TableDef::TableWithSubcolumnsAndSubrows(d) => sets_known(inventory, d.columns_by_set.entry_list())
            && sets_known(inventory, d.subcolumns_by_set.entry_list()) && sets_known(
            inventory,
            d.rows_by_set.entry_list(),
        ) && sets_known(inventory, d.subrows_by_set.entry_list()) && d.subcolumns_by_set.entry_list().len() > 0,
    }
}

/// The column headers of a table: each column's caption, over as many columns as there are
/// subcolumns.
pub open spec fn column_heads(def: TableDef) -> Seq<(Seq<char>, usize)> {
    column_axis(def).map_values(|c: AxisHeader| (c.1.caption@, subcolumn_axis(def).len() as usize))
}

/// `n` copies of `items`, one after another.
pub open spec fn repeated(items: Seq<Seq<char>>, n: nat) -> Seq<Seq<char>>
    decreases n,
{
    if n == 0 {
        Seq::empty()
    } else {
        repeated(items, (n - 1) as nat) + items
    }
}

/// The subcolumn headers of a table, where they are shown: the subcolumn captions under each
/// column.
pub open spec fn subcolumn_heads(def: TableDef) -> Option<Seq<Seq<char>>> {
    if subcolumn_headers_shown(def) {
        Some(repeated(subcolumn_axis(def).map_values(|s: AxisHeader| s.1.caption@), column_axis(def).len()))
    } else {
        None
    }
}

/// The headers of a grid as plain values: each column header's text and span, and the texts of
/// the subcolumn headers.
pub open spec fn heads_text(heads: Option<(Seq<ColumnHeader>, Option<Seq<SubcolumnHeader>>)>) -> Option<
    (Seq<(Seq<char>, usize)>, Option<Seq<Seq<char>>>),
> {
    match heads {
        Some((head, sub)) => Some(
            (
                head.map_values(|h: ColumnHeader| (h.text@, h.colspan)),
                match sub {
                    Some(s) => Some(s.map_values(|h: SubcolumnHeader| h.text@)),
                    None => None,
                },
            ),
        ),
        None => None,
    }
}

/// The rows and subrows of a table in the order the body shows them.
pub open spec fn row_keys(rows: Seq<AxisHeader>, subrows: Seq<AxisHeader>) -> Seq<(AxisHeader, AxisHeader)>
    decreases rows.len(),
{
    if rows.len() == 0 {
        Seq::empty()
    } else {
        row_keys(rows.drop_last(), subrows) + subrows.map_values(|t: AxisHeader| (rows.last(), t))
    }
}

/// The sets of the cells of a body row, left to right: column, subcolumn, row and subrow.
pub open spec fn cell_sets(
    columns: Seq<AxisHeader>,
    subcolumns: Seq<AxisHeader>,
    r: AxisHeader,
    t: AxisHeader,
) -> Seq<Seq<Option<&'static str>>>
    decreases columns.len(),
{
    if columns.len() == 0 {
        Seq::empty()
    } else {
        cell_sets(columns.drop_last(), subcolumns, r, t) + subcolumns.map_values(
            |s: AxisHeader| seq![columns.last().0, s.0, r.0, t.0],
        )
    }
}

/// The cells for some lists of sets, in order, and the phonemes left unprinted after them: each
/// cell shows the phonemes of `master` in its sets, as `cell_text` says, given the phonemes
/// left unprinted by the cells before it.
pub open spec fn filled_cells(
    inventory: Inventory,
    master: Seq<Seq<u8>>,
    sets: Seq<Seq<Option<&'static str>>>,
    unprinted: Seq<Seq<u8>>,
    tracking: bool,
) -> (Seq<CellView>, Seq<Seq<u8>>)
    decreases sets.len(),
{
    if sets.len() == 0 {
        (Seq::empty(), unprinted)
    } else {
        let prior = filled_cells(inventory, master, sets.drop_last(), unprinted, tracking);
        let cell = cell_members(inventory, master, sets.last());
        (
            prior.0.push((cell_text(cell, prior.1, tracking), None::<TDClass>)),
            left_unprinted(cell, prior.1, tracking),
        )
    }
}

/// The headers of a body row: none for a table of one cell; otherwise the row's caption on the
/// first subrow (the subrow in place 0), spanning all subrows, and on the other subrows the
/// place of that header, then the subrow's caption where subrow headers are shown.
pub open spec fn row_headers(def: TableDef, r: AxisHeader, t: AxisHeader) -> HeadersView {
    if def is OneCell {
        None
    } else {
        Some(
            (
                if t.1.order == 0 {
                    Some((r.1.caption@, subrow_axis(def).len() as usize))
                } else {
                    None
                },
                if subrow_headers_shown(def) {
                    Some(t.1.caption@)
                } else {
                    None
                },
            ),
        )
    }
}

/// The body rows for some rows and subrows, in order, and the phonemes left unprinted after
/// them.
pub open spec fn laid_out(
    inventory: Inventory,
    master: Seq<Seq<u8>>,
    def: TableDef,
    keys: Seq<(AxisHeader, AxisHeader)>,
    unprinted: Seq<Seq<u8>>,
    tracking: bool,
) -> (Seq<RowView>, Seq<Seq<u8>>)
    decreases keys.len(),
{
    if keys.len() == 0 {
        (Seq::empty(), unprinted)
    } else {
        let prior = laid_out(inventory, master, def, keys.drop_last(), unprinted, tracking);
        let (r, t) = keys.last();
        let cells = filled_cells(
            inventory,
            master,
            cell_sets(column_axis(def), subcolumn_axis(def), r, t),
            prior.1,
            tracking,
        );
        (prior.0.push((TRBodyClass::BodyRow, row_headers(def, r, t), cells.0)), cells.1)
    }
}

/// The body rows of a table, and the phonemes left unprinted after it.
pub open spec fn table_rows(
    inventory: Inventory,
    master: Seq<Seq<u8>>,
    def: TableDef,
    unprinted: Seq<Seq<u8>>,
    tracking: bool,
) -> (Seq<RowView>, Seq<Seq<u8>>) {
    laid_out(inventory, master, def, row_keys(row_axis(def), subrow_axis(def)), unprinted, tracking)
}


proof fn lemma_printable_axes(inventory: Inventory, def: TableDef)
    requires
        table_printable(inventory, def),
    ensures
        axis_known(inventory, column_axis(def)),
        axis_known(inventory, subcolumn_axis(def)),
        axis_known(inventory, row_axis(def)),
        axis_known(inventory, subrow_axis(def)),
        subcolumn_axis(def).len() > 0,
{
    match def {
        TableDef::OneCell(d) => {},
        TableDef::ListTable(d) => {
            lemma_axis_known(inventory, d.rows_by_set.entry_list());
        },
        TableDef::SimpleTable(d) => {
            lemma_axis_known(inventory, d.columns_by_set.entry_list());
            lemma_axis_known(inventory, d.rows_by_set.entry_list());
        },
        TableDef::TableWithSubcolumns(d) => {
            lemma_axis_known(inventory, d.columns_by_set.entry_list());
            lemma_axis_known(inventory, d.subcolumns_by_set.entry_list());
            lemma_axis_known(inventory, d.rows_by_set.entry_list());
        },
        TableDef::TableWithSubcolumnsAndSubrows(d) => {
            lemma_axis_known(inventory, d.columns_by_set.entry_list());
            lemma_axis_known(inventory, d.subcolumns_by_set.entry_list());
            lemma_axis_known(inventory, d.rows_by_set.entry_list());
            lemma_axis_known(inventory, d.subrows_by_set.entry_list());
        },
    }
}

/// The four axes of a table, as `column_axis`, `subcolumn_axis`, `row_axis` and `subrow_axis`
/// say.
fn table_axes(def: &TableDef) -> (r: (Vec<AxisHeader>, Vec<AxisHeader>, Vec<AxisHeader>, Vec<AxisHeader>))
    ensures
        r.0@ == column_axis(*def),
        r.1@ == subcolumn_axis(*def),
        r.2@ == row_axis(*def),
        r.3@ == subrow_axis(*def),
{
    match def {
        TableDef::OneCell(d) => {
            let mut columns: Vec<AxisHeader> = Vec::new();
            columns.push((None, d.header));
            proof {
                assert(columns@ =~= column_axis(*def));
            }
            (columns, lone_axis(""), lone_axis(""), lone_axis(""))
        },
        TableDef::ListTable(d) => {
            let mut columns: Vec<AxisHeader> = Vec::new();
            columns.push((None, d.header));
            proof {
                assert(columns@ =~= column_axis(*def));
            }
            (columns, lone_axis(""), axis_headers(&d.rows_by_set), lone_axis(""))
        },
        TableDef::SimpleTable(d) => (
            axis_headers(&d.columns_by_set),
            lone_axis(""),
            axis_headers(&d.rows_by_set),
            lone_axis(""),
        ),
        TableDef::TableWithSubcolumns(d) => (
            axis_headers(&d.columns_by_set),
            axis_headers(&d.subcolumns_by_set),
            axis_headers(&d.rows_by_set),
            lone_axis(""),
        ),
        TableDef::TableWithSubcolumnsAndSubrows(d) => (
            axis_headers(&d.columns_by_set),
            axis_headers(&d.subcolumns_by_set),
            axis_headers(&d.rows_by_set),
            axis_headers(&d.subrows_by_set),
        ),
    }
}

/// The caption of a table, as `table_caption` says.
fn caption_of(def: &TableDef) -> (r: &'static str)
    ensures
        r == table_caption(*def),
{
    match def {
        TableDef::OneCell(d) => d.header.caption,
        TableDef::ListTable(d) => d.header.caption,
        TableDef::SimpleTable(d) => d.caption,
        TableDef::TableWithSubcolumns(d) => d.caption,
        TableDef::TableWithSubcolumnsAndSubrows(d) => d.caption,
    }
}

/// Whether subcolumn and subrow headers are shown, as `subcolumn_headers_shown` and
/// `subrow_headers_shown` say.
fn headers_shown(def: &TableDef) -> (r: (bool, bool))
    ensures
        r.0 == subcolumn_headers_shown(*def),
        r.1 == subrow_headers_shown(*def),
{
    match def {
        TableDef::TableWithSubcolumns(d) => (!d.hide_subcolumn_captions, false),
        TableDef::TableWithSubcolumnsAndSubrows(d) => (!d.hide_subcolumn_captions, !d.hide_subrow_captions),
        _ => (false, false),
    }
}

proof fn lemma_span_total_uniform(head: Seq<ColumnHeader>, span: usize)
    requires
        forall|i: int| 0 <= i < head.len() ==> (#[trigger] head[i]).colspan == span,
    ensures
        span_total(head) == head.len() * span,
    decreases head.len(),
{
    if head.len() > 0 {
        lemma_span_total_uniform(head.drop_last(), span);
        let n = head.len();
        assert(n * span == (n - 1) * span + span) by (nonlinear_arith);
    }
}

/// One column header for each column, each over `span` columns.
fn column_headers(columns: &Vec<AxisHeader>, span: usize) -> (r: Vec<ColumnHeader>)
    requires
        span > 0,
    ensures
        r@.map_values(|h: ColumnHeader| (h.text@, h.colspan)) == columns@.map_values(
            |c: AxisHeader| (c.1.caption@, span),
        ),
        span_total(r@) == columns@.len() * span,
{
    let ghost want = columns@.map_values(|c: AxisHeader| (c.1.caption@, span));
    let mut out: Vec<ColumnHeader> = Vec::new();
    let mut i: usize = 0;
    while i < columns.len()
        invariant
            i <= columns@.len(),
            span > 0,
            want == columns@.map_values(|c: AxisHeader| (c.1.caption@, span)),
            out@.map_values(|h: ColumnHeader| (h.text@, h.colspan)) == want.take(i as int),
            out@.len() == i,
            forall|k: int| 0 <= k < out@.len() ==> (#[trigger] out@[k]).colspan == span,
        decreases columns@.len() - i,
    {
        let header = ColumnHeader::new(String::from_str(columns[i].1.caption), span);
        let ghost before = out@;
        out.push(header);
        proof {
            assert(out@.map_values(|h: ColumnHeader| (h.text@, h.colspan)) =~= before.map_values(
                |h: ColumnHeader| (h.text@, h.colspan),
            ).push((header.text@, header.colspan)));
            assert(want.take(i + 1) =~= want.take(i as int).push(want[i as int]));
        }
        i = i + 1;
    }
    proof {
        assert(want.take(i as int) =~= want);
        lemma_span_total_uniform(out@, span);
    }
    out
}

proof fn lemma_repeated_len(items: Seq<Seq<char>>, n: nat)
    ensures
        repeated(items, n).len() == n * items.len(),
    decreases n,
{
    if n > 0 {
        lemma_repeated_len(items, (n - 1) as nat);
        assert(n * items.len() == (n - 1) * items.len() + items.len()) by (nonlinear_arith);
        assert(repeated(items, n).len() == repeated(items, (n - 1) as nat).len() + items.len());
    } else {
        assert(n * items.len() == 0) by (nonlinear_arith)
            requires
                n == 0,
        ;
    }
}

/// The subcolumn captions under each of `times` columns.
fn subcolumn_headers(subcolumns: &Vec<AxisHeader>, times: usize) -> (r: Vec<SubcolumnHeader>)
    ensures
        r@.map_values(|h: SubcolumnHeader| h.text@) == repeated(
            subcolumns@.map_values(|s: AxisHeader| s.1.caption@),
            times as nat,
        ),
        r@.len() == times * subcolumns@.len(),
{
    let ghost captions = subcolumns@.map_values(|s: AxisHeader| s.1.caption@);
    let mut out: Vec<SubcolumnHeader> = Vec::new();
    let mut n: usize = 0;
    while n < times
        invariant
            n <= times,
            captions == subcolumns@.map_values(|s: AxisHeader| s.1.caption@),
            out@.map_values(|h: SubcolumnHeader| h.text@) == repeated(captions, n as nat),
        decreases times - n,
    {
        let ghost start = out@.map_values(|h: SubcolumnHeader| h.text@);
        let mut k: usize = 0;
        while k < subcolumns.len()
            invariant
                k <= subcolumns@.len(),
                captions == subcolumns@.map_values(|s: AxisHeader| s.1.caption@),
                out@.map_values(|h: SubcolumnHeader| h.text@) == start + captions.take(k as int),
            decreases subcolumns@.len() - k,
        {
            let header = SubcolumnHeader::new(String::from_str(subcolumns[k].1.caption));
            let ghost before = out@;
            out.push(header);
            proof {
                assert(out@.map_values(|h: SubcolumnHeader| h.text@) =~= before.map_values(
                    |h: SubcolumnHeader| h.text@,
                ).push(header.text@));
                assert(captions.take(k + 1) =~= captions.take(k as int).push(captions[k as int]));
            }
            k = k + 1;
        }
        proof {
            assert(captions.take(k as int) =~= captions);
        }
        n = n + 1;
    }
    proof {
        lemma_repeated_len(captions, times as nat);
        assert(out@.map_values(|h: SubcolumnHeader| h.text@).len() == out@.len());
    }
    out
}


/// Whether a cell for one of the lists of sets holds the phoneme.
pub open spec fn cells_hold(
    inventory: Inventory,
    master: Seq<Seq<u8>>,
    sets: Seq<Seq<Option<&'static str>>>,
    x: Seq<u8>,
) -> bool {
    exists|j: int| 0 <= j < sets.len() && (#[trigger] cell_members(inventory, master, sets[j])).contains(x)
}

/// Whether a cell of one of the body rows holds the phoneme.
pub open spec fn rows_hold(
    inventory: Inventory,
    master: Seq<Seq<u8>>,
    def: TableDef,
    keys: Seq<(AxisHeader, AxisHeader)>,
    x: Seq<u8>,
) -> bool {
    exists|k: int|
        0 <= k < keys.len() && cells_hold(
            inventory,
            master,
            cell_sets(column_axis(def), subcolumn_axis(def), (#[trigger] keys[k]).0, keys[k].1),
            x,
        )
}

/// Whether a cell of the table holds the phoneme.
pub open spec fn table_holds(inventory: Inventory, master: Seq<Seq<u8>>, def: TableDef, x: Seq<u8>) -> bool {
    rows_hold(inventory, master, def, row_keys(row_axis(def), subrow_axis(def)), x)
}

proof fn lemma_filled_push(
    inventory: Inventory,
    master: Seq<Seq<u8>>,
    sets: Seq<Seq<Option<&'static str>>>,
    last: Seq<Option<&'static str>>,
    unprinted: Seq<Seq<u8>>,
    tracking: bool,
)
    ensures
        filled_cells(inventory, master, sets.push(last), unprinted, tracking) == ({
            let prior = filled_cells(inventory, master, sets, unprinted, tracking);
            let cell = cell_members(inventory, master, last);
            (
                prior.0.push((cell_text(cell, prior.1, tracking), None::<TDClass>)),
                left_unprinted(cell, prior.1, tracking),
            )
        }),
{
    assert(sets.push(last).drop_last() =~= sets);
}

proof fn lemma_cell_sets_len(columns: Seq<AxisHeader>, subcolumns: Seq<AxisHeader>, r: AxisHeader, t: AxisHeader)
    ensures
        cell_sets(columns, subcolumns, r, t).len() == columns.len() * subcolumns.len(),
    decreases columns.len(),
{
    if columns.len() > 0 {
        lemma_cell_sets_len(columns.drop_last(), subcolumns, r, t);
        let n = columns.len();
        assert(n * subcolumns.len() == (n - 1) * subcolumns.len() + subcolumns.len()) by (nonlinear_arith);
    } else {
        assert(columns.len() * subcolumns.len() == 0) by (nonlinear_arith)
            requires
                columns.len() == 0,
        ;
    }
}

/// Fills the cells of a body row: for each column and each of its subcolumns, the phonemes of
/// `master` in the four sets of the cell.
fn fill_row(
    inventory: &Inventory,
    master: &Bag<Phoneme>,
    columns: &Vec<AxisHeader>,
    subcolumns: &Vec<AxisHeader>,
    r: AxisHeader,
    t: AxisHeader,
    unprinted: &mut Bag<Phoneme>,
    tracking: bool,
    row: &mut GridRow,
)
    requires
        old(row).cells@.len() == 0,
        axis_known(*inventory, columns@),
        axis_known(*inventory, subcolumns@),
        r.0 matches Some(s) ==> inventory.has_set(s.spec_bytes()),
        t.0 matches Some(s) ==> inventory.has_set(s.spec_bytes()),
        single_line(master@),
    ensures
        final(row).class == old(row).class,
        final(row).headers == old(row).headers,
        final(row).cells@.map_values(|c: Cell| cell_view(c)) == filled_cells(
            *inventory,
            master@,
            cell_sets(columns@, subcolumns@, r, t),
            old(unprinted)@,
            tracking,
        ).0,
        final(unprinted)@ == filled_cells(
            *inventory,
            master@,
            cell_sets(columns@, subcolumns@, r, t),
            old(unprinted)@,
            tracking,
        ).1,
        final(row).cells@.len() == columns@.len() * subcolumns@.len(),
        forall|x: Seq<u8>| final(unprinted)@.contains(x) ==> old(unprinted)@.contains(x),
        tracking ==> forall|x: Seq<u8>|
            final(unprinted)@.contains(x) <==> old(unprinted)@.contains(x) && !cells_hold(
                *inventory,
                master@,
                cell_sets(columns@, subcolumns@, r, t),
                x,
            ),
{
    let ghost start = unprinted@;
    let ghost class = row.class;
    let ghost headers = row.headers;
    let ghost mut done: Seq<Seq<Option<&'static str>>> = Seq::empty();
    let mut c: usize = 0;
    while c < columns.len()
        invariant
            c <= columns@.len(),
            axis_known(*inventory, columns@),
            axis_known(*inventory, subcolumns@),
            r.0 matches Some(s) ==> inventory.has_set(s.spec_bytes()),
            t.0 matches Some(s) ==> inventory.has_set(s.spec_bytes()),
            single_line(master@),
            row.class == class,
            row.headers == headers,
            done == cell_sets(columns@.take(c as int), subcolumns@, r, t),
            row.cells@.map_values(|x: Cell| cell_view(x)) == filled_cells(*inventory, master@, done, start, tracking).0,
            unprinted@ == filled_cells(*inventory, master@, done, start, tracking).1,
            row.cells@.len() == done.len(),
            forall|x: Seq<u8>| unprinted@.contains(x) ==> start.contains(x),
            tracking ==> forall|x: Seq<u8>|
                unprinted@.contains(x) <==> start.contains(x) && !cells_hold(*inventory, master@, done, x),
        decreases columns@.len() - c,
    {
        let ghost outer = done;
        let mut s: usize = 0;
        while s < subcolumns.len()
            invariant
                c < columns@.len(),
                s <= subcolumns@.len(),
                axis_known(*inventory, columns@),
                axis_known(*inventory, subcolumns@),
                r.0 matches Some(x) ==> inventory.has_set(x.spec_bytes()),
                t.0 matches Some(x) ==> inventory.has_set(x.spec_bytes()),
                single_line(master@),
                row.class == class,
                row.headers == headers,
                done == outer + subcolumns@.take(s as int).map_values(
                    |x: AxisHeader| seq![columns@[c as int].0, x.0, r.0, t.0],
                ),
                row.cells@.map_values(|x: Cell| cell_view(x)) == filled_cells(*inventory, master@, done, start, tracking).0,
                unprinted@ == filled_cells(*inventory, master@, done, start, tracking).1,
                row.cells@.len() == done.len(),
                forall|x: Seq<u8>| unprinted@.contains(x) ==> start.contains(x),
                tracking ==> forall|x: Seq<u8>|
                    unprinted@.contains(x) <==> start.contains(x) && !cells_hold(*inventory, master@, done, x),
            decreases subcolumns@.len() - s,
        {
            let column = columns[c];
            let subcolumn = subcolumns[s];
            assert(axis_known(*inventory, columns@) ==> (columns@[c as int].0 matches Some(x) ==> inventory.has_set(x.spec_bytes())));
            assert(subcolumns@[s as int].0 matches Some(x) ==> inventory.has_set(x.spec_bytes()));
            let ghost before = done;
            let ghost before_cells = row.cells@;
            let ghost before_unprinted = unprinted@;
            let text = fill_cell(inventory, master, (column.0, subcolumn.0, r.0, t.0), unprinted, tracking);
            let cell = Cell::content(text, None);
            row.push_cell(cell);
            proof {
                let sets = seq![column.0, subcolumn.0, r.0, t.0];
                done = done.push(sets);
                if tracking {
                    assert forall|x: Seq<u8>| unprinted@.contains(x) <==> start.contains(x) && !cells_hold(
                        *inventory,
                        master@,
                        done,
                        x,
                    ) by {
                        assert(before_unprinted.contains(x) <==> start.contains(x) && !cells_hold(
                            *inventory,
                            master@,
                            before,
                            x,
                        ));
                        assert(unprinted@.contains(x) <==> before_unprinted.contains(x) && !cell_members(
                            *inventory,
                            master@,
                            sets,
                        ).contains(x));
                        if cells_hold(*inventory, master@, done, x) {
                            let j = choose|j: int|
                                0 <= j < done.len() && (#[trigger] cell_members(*inventory, master@, done[j])).contains(x);
                            if j < before.len() {
                                assert(before[j] == done[j]);
                                assert(cells_hold(*inventory, master@, before, x));
                            } else {
                                assert(done[j] == sets);
                            }
                        }
                        if cells_hold(*inventory, master@, before, x) {
                            let j = choose|j: int|
                                0 <= j < before.len() && (#[trigger] cell_members(*inventory, master@, before[j])).contains(x);
                            assert(done[j] == before[j]);
                        }
                        if cell_members(*inventory, master@, sets).contains(x) {
                            assert(done[done.len() - 1] == sets);
                        }
                    }
                }
                lemma_filled_push(*inventory, master@, before, sets, start, tracking);
                assert(row.cells@.map_values(|x: Cell| cell_view(x)) =~= before_cells.map_values(
                    |x: Cell| cell_view(x),
                ).push(cell_view(cell)));
                assert(subcolumns@.take(s + 1).map_values(|x: AxisHeader| seq![columns@[c as int].0, x.0, r.0, t.0])
                    =~= subcolumns@.take(s as int).map_values(
                    |x: AxisHeader| seq![columns@[c as int].0, x.0, r.0, t.0],
                ).push(sets));
            }
            s = s + 1;
        }
        proof {
            assert(subcolumns@.take(s as int) =~= subcolumns@);
            assert(columns@.take(c + 1).drop_last() =~= columns@.take(c as int));
            assert(columns@.take(c + 1).last() == columns@[c as int]);
        }
        c = c + 1;
    }
    proof {
        assert(columns@.take(c as int) =~= columns@);
        assert(done == cell_sets(columns@, subcolumns@, r, t));
        lemma_cell_sets_len(columns@, subcolumns@, r, t);
        if tracking {
            assert forall|x: Seq<u8>| unprinted@.contains(x) <==> old(unprinted)@.contains(x) && !cells_hold(
                *inventory,
                master@,
                cell_sets(columns@, subcolumns@, r, t),
                x,
            ) by {
                assert(unprinted@.contains(x) <==> start.contains(x) && !cells_hold(*inventory, master@, done, x));
            }
        }
    }
}


proof fn lemma_laid_out_push(
    inventory: Inventory,
    master: Seq<Seq<u8>>,
    def: TableDef,
    keys: Seq<(AxisHeader, AxisHeader)>,
    key: (AxisHeader, AxisHeader),
    unprinted: Seq<Seq<u8>>,
    tracking: bool,
)
    ensures
        laid_out(inventory, master, def, keys.push(key), unprinted, tracking) == ({
            let prior = laid_out(inventory, master, def, keys, unprinted, tracking);
            let cells = filled_cells(
                inventory,
                master,
                cell_sets(column_axis(def), subcolumn_axis(def), key.0, key.1),
                prior.1,
                tracking,
            );
            (prior.0.push((TRBodyClass::BodyRow, row_headers(def, key.0, key.1), cells.0)), cells.1)
        }),
{
    assert(keys.push(key).drop_last() =~= keys);
}

/// A grid as plain values: class, caption, headers and body rows.
pub type GridShape = (
    TableClass,
    Seq<char>,
    Option<(Seq<(Seq<char>, usize)>, Option<Seq<Seq<char>>>)>,
    Seq<RowView>,
);

/// What a grid holds, as plain values.
pub open spec fn shape_of(g: Grid) -> GridShape {
    (g.class_view(), g.caption_view(), heads_text(g.heads_view()), rows_view(g.rows()))
}

/// The grid of a phoneme table, as plain values.
pub open spec fn table_shape(
    inventory: Inventory,
    master: Seq<Seq<u8>>,
    def: TableDef,
    unprinted: Seq<Seq<u8>>,
    tracking: bool,
) -> GridShape {
    (
        TableClass::ElbiePhonemes,
        table_caption(def)@,
        Some((column_heads(def), subcolumn_heads(def))),
        table_rows(inventory, master, def, unprinted, tracking).0,
    )
}

/// Lays out a phoneme table as a grid of class `ElbiePhonemes` with the table's caption. The
/// column headers are the column captions, each over the subcolumns; the subcolumn captions
/// follow under each column unless hidden. The body has a row for each row and subrow, headed
/// as `row_headers` says, with a cell for each column and subcolumn that shows the phonemes of
/// `master` in the cell's sets, sorted by their texts. When `tracking`, cells are filled row by
/// row, left to right, and a phoneme that is no longer in `unprinted` when its cell is filled is
/// marked with `⚠`; each cell takes its phonemes out of `unprinted`. Without `tracking`,
/// `unprinted` is left alone and nothing is marked.
pub fn build_phoneme_grid(
    inventory: &Inventory,
    master: &Bag<Phoneme>,
    definition: &TableDef,
    unprinted: &mut Bag<Phoneme>,
    tracking: bool,
) -> (r: Grid)
    requires
        table_printable(*inventory, *definition),
        single_line(master@),
    ensures
        r.class_view() == TableClass::ElbiePhonemes,
        r.caption_view() == table_caption(*definition)@,
        heads_text(r.heads_view()) == Some((column_heads(*definition), subcolumn_heads(*definition))),
        rows_view(r.rows()) == table_rows(*inventory, master@, *definition, old(unprinted)@, tracking).0,
        final(unprinted)@ == table_rows(*inventory, master@, *definition, old(unprinted)@, tracking).1,
        forall|x: Seq<u8>| final(unprinted)@.contains(x) ==> old(unprinted)@.contains(x),
        shape_of(r) == table_shape(*inventory, master@, *definition, old(unprinted)@, tracking),
        tracking ==> forall|x: Seq<u8>|
            final(unprinted)@.contains(x) <==> old(unprinted)@.contains(x) && !table_holds(
                *inventory,
                master@,
                *definition,
                x,
            ),
{
    proof {
        lemma_printable_axes(*inventory, *definition);
    }
    let ghost def = *definition;
    let ghost start = unprinted@;
    let (columns, subcolumns, rows, subrows) = table_axes(definition);
    let (subcolumn_heads_shown, subrow_heads_shown) = headers_shown(definition);
    let row_heads = match definition {
        TableDef::OneCell(_) => false,
        _ => true,
    };
    let mut grid = Grid::new(TableClass::ElbiePhonemes, String::from_str(caption_of(definition)));
    let span = subcolumns.len();
    let head = column_headers(&columns, span);
    grid.set_headers(head);
    if subcolumn_heads_shown {
        let sub = subcolumn_headers(&subcolumns, columns.len());
        proof {
            assert(columns@.len() * subcolumns@.len() == subcolumns@.len() * columns@.len()) by (nonlinear_arith);
        }
        grid.set_subheaders(sub);
    }
    proof {
        assert(heads_text(grid.heads_view()) == Some((column_heads(def), subcolumn_heads(def))));
    }
    let ghost width = columns@.len() * subcolumns@.len();
    let ghost header_cells: nat = if row_heads {
        if subrow_heads_shown {
            2
        } else {
            1
        }
    } else {
        0
    };
    let ghost mut done: Seq<(AxisHeader, AxisHeader)> = Seq::empty();
    let mut ri: usize = 0;
    while ri < rows.len()
        invariant
            ri <= rows@.len(),
            def == *definition,
            table_printable(*inventory, def),
            single_line(master@),
            columns@ == column_axis(def),
            subcolumns@ == subcolumn_axis(def),
            rows@ == row_axis(def),
            subrows@ == subrow_axis(def),
            axis_known(*inventory, columns@),
            axis_known(*inventory, subcolumns@),
            axis_known(*inventory, rows@),
            axis_known(*inventory, subrows@),
            row_heads == !(def is OneCell),
            subrow_heads_shown == subrow_headers_shown(def),
            header_cells == (if row_heads { if subrow_heads_shown { 2nat } else { 1nat } } else { 0nat }),
            width == columns@.len() * subcolumns@.len(),
            grid.heads_view() matches Some((h, _)) && span_total(h) == width,
            grid.class_view() == TableClass::ElbiePhonemes,
            grid.caption_view() == table_caption(def)@,
            heads_text(grid.heads_view()) == Some((column_heads(def), subcolumn_heads(def))),
            forall|k: int|
                0 <= k < grid.rows().len() ==> header_count((#[trigger] grid.rows()[k]).headers) == header_cells
                    && grid.rows()[k].cells@.len() == width,
            done == row_keys(rows@.take(ri as int), subrows@),
            rows_view(grid.rows()) == laid_out(*inventory, master@, def, done, start, tracking).0,
            unprinted@ == laid_out(*inventory, master@, def, done, start, tracking).1,
            forall|x: Seq<u8>| unprinted@.contains(x) ==> start.contains(x),
            tracking ==> forall|x: Seq<u8>|
                unprinted@.contains(x) <==> start.contains(x) && !rows_hold(*inventory, master@, def, done, x),
        decreases rows@.len() - ri,
    {
        let ghost outer = done;
        let r = rows[ri];
        assert(r.0 matches Some(x) ==> inventory.has_set(x.spec_bytes()));
        let mut ti: usize = 0;
        while ti < subrows.len()
            invariant
                ri < rows@.len(),
                ti <= subrows@.len(),
                r == rows@[ri as int],
                r.0 matches Some(x) ==> inventory.has_set(x.spec_bytes()),
                def == *definition,
                single_line(master@),
                columns@ == column_axis(def),
                subcolumns@ == subcolumn_axis(def),
                rows@ == row_axis(def),
                subrows@ == subrow_axis(def),
                axis_known(*inventory, columns@),
                axis_known(*inventory, subcolumns@),
                axis_known(*inventory, subrows@),
                row_heads == !(def is OneCell),
                subrow_heads_shown == subrow_headers_shown(def),
                header_cells == (if row_heads { if subrow_heads_shown { 2nat } else { 1nat } } else { 0nat }),
                width == columns@.len() * subcolumns@.len(),
                grid.heads_view() matches Some((h, _)) && span_total(h) == width,
                grid.class_view() == TableClass::ElbiePhonemes,
                grid.caption_view() == table_caption(def)@,
                heads_text(grid.heads_view()) == Some((column_heads(def), subcolumn_heads(def))),
                forall|k: int|
                    0 <= k < grid.rows().len() ==> header_count((#[trigger] grid.rows()[k]).headers) == header_cells
                        && grid.rows()[k].cells@.len() == width,
                done == outer + subrows@.take(ti as int).map_values(|x: AxisHeader| (r, x)),
                rows_view(grid.rows()) == laid_out(*inventory, master@, def, done, start, tracking).0,
                unprinted@ == laid_out(*inventory, master@, def, done, start, tracking).1,
                forall|x: Seq<u8>| unprinted@.contains(x) ==> start.contains(x),
                tracking ==> forall|x: Seq<u8>|
                    unprinted@.contains(x) <==> start.contains(x) && !rows_hold(*inventory, master@, def, done, x),
            decreases subrows@.len() - ti,
        {
            let t = subrows[ti];
            assert(t.0 matches Some(x) ==> inventory.has_set(x.spec_bytes()));
            let mut row = GridRow::new(TRBodyClass::BodyRow);
            if row_heads {
                if t.1.order == 0 {
                    row.set_header(RowHeader::new(String::from_str(r.1.caption), subrows.len()));
                } else {
                    row.set_header(RowHeader::row_header_span());
                }
                if subrow_heads_shown {
                    row.set_subheader(SubrowHeader::new(String::from_str(t.1.caption)));
                }
            }
            assert(headers_view(row.headers) == row_headers(def, r, t));
            let ghost before = done;
            let ghost before_rows = grid.rows();
            let ghost before_unprinted = unprinted@;
            fill_row(inventory, master, &columns, &subcolumns, r, t, unprinted, tracking, &mut row);
            proof {
                lemma_laid_out_push(*inventory, master@, def, before, (r, t), start, tracking);
                done = done.push((r, t));
                if tracking {
                    let these = cell_sets(column_axis(def), subcolumn_axis(def), r, t);
                    assert forall|x: Seq<u8>| unprinted@.contains(x) <==> start.contains(x) && !rows_hold(
                        *inventory,
                        master@,
                        def,
                        done,
                        x,
                    ) by {
                        assert(before_unprinted.contains(x) <==> start.contains(x) && !rows_hold(
                            *inventory,
                            master@,
                            def,
                            before,
                            x,
                        ));
                        assert(unprinted@.contains(x) <==> before_unprinted.contains(x) && !cells_hold(
                            *inventory,
                            master@,
                            these,
                            x,
                        ));
                        if rows_hold(*inventory, master@, def, done, x) {
                            let k = choose|k: int|
                                0 <= k < done.len() && cells_hold(
                                    *inventory,
                                    master@,
                                    cell_sets(column_axis(def), subcolumn_axis(def), (#[trigger] done[k]).0, done[k].1),
                                    x,
                                );
                            if k < before.len() {
                                assert(before[k] == done[k]);
                                assert(rows_hold(*inventory, master@, def, before, x));
                            } else {
                                assert(done[k] == (r, t));
                            }
                        }
                        if rows_hold(*inventory, master@, def, before, x) {
                            let k = choose|k: int|
                                0 <= k < before.len() && cells_hold(
                                    *inventory,
                                    master@,
                                    cell_sets(column_axis(def), subcolumn_axis(def), (#[trigger] before[k]).0, before[k].1),
                                    x,
                                );
                            assert(done[k] == before[k]);
                        }
                        if cells_hold(*inventory, master@, these, x) {
                            assert(done[done.len() - 1] == (r, t));
                        }
                    }
                }
            }
            grid.push_body_row(row);
            proof {
                assert(rows_view(grid.rows()) =~= rows_view(before_rows).push(row_view(row)));
                assert(subrows@.take(ti + 1).map_values(|x: AxisHeader| (r, x)) =~= subrows@.take(
                    ti as int,
                ).map_values(|x: AxisHeader| (r, x)).push((r, t)));
                assert forall|k: int|
                    0 <= k < grid.rows().len() implies header_count((#[trigger] grid.rows()[k]).headers) == header_cells
                        && grid.rows()[k].cells@.len() == width by {
                    if k < before_rows.len() {
                        assert(grid.rows()[k] == before_rows[k]);
                    }
                }
            }
            ti = ti + 1;
        }
        proof {
            assert(subrows@.take(ti as int) =~= subrows@);
            assert(rows@.take(ri + 1).drop_last() =~= rows@.take(ri as int));
            assert(rows@.take(ri + 1).last() == rows@[ri as int]);
            if tracking {
                assert forall|x: Seq<u8>| unprinted@.contains(x) <==> start.contains(x) && !rows_hold(
                    *inventory,
                    master@,
                    def,
                    done,
                    x,
                ) by {
                    assert(unprinted@.contains(x) <==> start.contains(x) && !rows_hold(*inventory, master@, def, done, x));
                }
            }
        }
        ri = ri + 1;
    }
    proof {
        assert(rows@.take(ri as int) =~= rows@);
        assert(done == row_keys(row_axis(def), subrow_axis(def)));
        if tracking {
            assert forall|x: Seq<u8>| unprinted@.contains(x) <==> old(unprinted)@.contains(x) && !table_holds(
                *inventory,
                master@,
                def,
                x,
            ) by {
                assert(unprinted@.contains(x) <==> start.contains(x) && !rows_hold(*inventory, master@, def, done, x));
            }
        }
    }
    grid
}


/// The table of the phonemes that no other table shows.
pub open spec fn uncategorized_table() -> TableDef {
    TableDef::OneCell(Table0DDef { header: HeaderDef { caption: "Uncategorized Phonemes", order: 0 } })
}

/// The phonemes of the set that a table shows.
pub open spec fn master_of(inventory: Inventory, entry: TableEntry) -> Seq<Seq<u8>> {
    members(inventory.set_named(entry.set.spec_bytes()))
}

/// The grids of some tables, each with its name, as plain values, and the phonemes that they
/// leave unprinted: the tables share the unprinted phonemes, starting from `start`.
pub open spec fn tables_shapes(inventory: Inventory, tables: Seq<TableEntry>, start: Seq<Seq<u8>>) -> (
    Seq<(&'static str, GridShape)>,
    Seq<Seq<u8>>,
)
    decreases tables.len(),
{
    if tables.len() == 0 {
        (Seq::empty(), start)
    } else {
        let prior = tables_shapes(inventory, tables.drop_last(), start);
        let e = tables.last();
        let master = master_of(inventory, e);
        (
            prior.0.push((e.id, table_shape(inventory, master, e.definition, prior.1, true))),
            table_rows(inventory, master, e.definition, prior.1, true).1,
        )
    }
}

/// All the phoneme tables of a language, each with its name, as plain values: the tables in
/// order, sharing the unprinted phonemes that start as every phoneme, then, where some phonemes
/// are left unprinted, the table `uncategorized` of those phonemes.
pub open spec fn all_tables(inventory: Inventory, tables: Seq<TableEntry>) -> Seq<(&'static str, GridShape)> {
    let start = members(inventory.set_named(PHONEME.spec_bytes()));
    let done = tables_shapes(inventory, tables, start);
    if done.1.len() > 0 {
        done.0.push(("uncategorized", table_shape(inventory, done.1, uncategorized_table(), done.1, true)))
    } else {
        done.0
    }
}

/// The set of the first table whose set the inventory lacks, if any.
pub open spec fn first_unknown_table_set(inventory: Inventory, tables: Seq<TableEntry>) -> Option<&'static str>
    decreases tables.len(),
{
    if tables.len() == 0 {
        None
    } else {
        match first_unknown_table_set(inventory, tables.drop_last()) {
            Some(s) => Some(s),
            None => if inventory.has_set(tables.last().set.spec_bytes()) {
                None
            } else {
                Some(tables.last().set)
            },
        }
    }
}

/// Why the tables cannot be built: the inventory has no set of all phonemes, or lacks the set
/// of a table (the first such).
pub open spec fn tables_error(inventory: Inventory, tables: Seq<TableEntry>) -> Option<ElbieError> {
    if !inventory.has_set(PHONEME.spec_bytes()) {
        Some(ElbieError::UnknownSet(PHONEME))
    } else {
        match first_unknown_table_set(inventory, tables) {
            Some(s) => Some(ElbieError::UnknownSet(s)),
            None => None,
        }
    }
}

/// Whether the tables can be laid out: each table is printable, and the phoneme names of its
/// set, and of the set of all phonemes, are single lines.
pub open spec fn tables_printable(inventory: Inventory, tables: Seq<TableEntry>) -> bool {
    &&& forall|k: int|
        0 <= k < tables.len() ==> table_printable(inventory, (#[trigger] tables[k]).definition)
            && (inventory.has_set(tables[k].set.spec_bytes()) ==> single_line(master_of(inventory, tables[k])))
    &&& single_line(members(inventory.set_named(PHONEME.spec_bytes())))
}

/// Whether a cell of one of the tables holds the phoneme.
pub open spec fn tables_hold(inventory: Inventory, tables: Seq<TableEntry>, x: Seq<u8>) -> bool {
    exists|k: int|
        0 <= k < tables.len() && table_holds(
            inventory,
            master_of(inventory, tables[k]),
            (#[trigger] tables[k]).definition,
            x,
        )
}

/// The phonemes that the tables leave unprinted, which the table `uncategorized` shows.
pub open spec fn leftover(inventory: Inventory, tables: Seq<TableEntry>) -> Seq<Seq<u8>> {
    tables_shapes(inventory, tables, members(inventory.set_named(PHONEME.spec_bytes()))).1
}

/// Lays out every phoneme table of a language, as `all_tables` says: each table in order, with
/// phonemes that an earlier table shows already marked, then a table `uncategorized` of the
/// phonemes that no table shows, if there are any. Fails, as `tables_error` says, when the
/// inventory lacks the set of all phonemes or the set of a table.
pub fn build_all_phoneme_tables(inventory: &Inventory, tables: &Vec<TableEntry>) -> (r: Result<
    Vec<(&'static str, Grid)>,
    ElbieError,
>)
    requires
        tables_printable(*inventory, tables@),
    ensures
        r is Err <==> tables_error(*inventory, tables@) is Some,
        r matches Err(e) ==> tables_error(*inventory, tables@) == Some(e),
        r matches Ok(grids) ==> grids@.len() == all_tables(*inventory, tables@).len() && forall|k: int|
            0 <= k < grids@.len() ==> (#[trigger] grids@[k]).0 == all_tables(*inventory, tables@)[k].0
                && shape_of(grids@[k].1) == all_tables(*inventory, tables@)[k].1,
        r is Ok ==> forall|x: Seq<u8>|
            leftover(*inventory, tables@).contains(x) <==> members(
                inventory.set_named(PHONEME.spec_bytes()),
            ).contains(x) && !tables_hold(*inventory, tables@, x),
{
    let all = match inventory.get_set(PHONEME) {
        Ok(b) => b,
        Err(e) => {
            return Err(e);
        },
    };
    let ghost start = all@;
    let mut unprinted = all.duplicate();
    let mut out: Vec<(&'static str, Grid)> = Vec::new();
    let mut i: usize = 0;
    while i < tables.len()
        invariant
            i <= tables@.len(),
            tables_printable(*inventory, tables@),
            inventory.has_set(PHONEME.spec_bytes()),
            start == members(inventory.set_named(PHONEME.spec_bytes())),
            first_unknown_table_set(*inventory, tables@.take(i as int)) is None,
            unprinted@ == tables_shapes(*inventory, tables@.take(i as int), start).1,
            forall|x: Seq<u8>| unprinted@.contains(x) ==> start.contains(x),
            forall|x: Seq<u8>|
                unprinted@.contains(x) <==> start.contains(x) && !tables_hold(*inventory, tables@.take(i as int), x),
            out@.len() == tables_shapes(*inventory, tables@.take(i as int), start).0.len(),
            forall|k: int|
                0 <= k < out@.len() ==> (#[trigger] out@[k]).0 == tables_shapes(
                    *inventory,
                    tables@.take(i as int),
                    start,
                ).0[k].0 && shape_of(out@[k].1) == tables_shapes(*inventory, tables@.take(i as int), start).0[k].1,
        decreases tables@.len() - i,
    {
        let entry = &tables[i];
        proof {
            assert(tables@.take(i + 1).drop_last() =~= tables@.take(i as int));
            assert(tables@.take(i + 1).last() == tables@[i as int]);
        }
        let master = match inventory.get_set(entry.set) {
            Ok(b) => b,
            Err(e) => {
                proof {
                    assert(first_unknown_table_set(*inventory, tables@.take(i + 1)) == Some(entry.set));
                    lemma_first_unknown_prefix(*inventory, tables@, i + 1);
                }
                return Err(e);
            },
        };
        proof {
            assert(table_printable(*inventory, tables@[i as int].definition));
            assert(single_line(master_of(*inventory, tables@[i as int])));
        }
        let ghost before = out@;
        let ghost before_unprinted = unprinted@;
        let ghost grown = tables@.take(i + 1);
        let grid = build_phoneme_grid(inventory, master, &entry.definition, &mut unprinted, true);
        out.push((entry.id, grid));
        proof {
            let prefix = tables@.take(i as int);
            assert forall|x: Seq<u8>| unprinted@.contains(x) <==> start.contains(x) && !tables_hold(
                *inventory,
                grown,
                x,
            ) by {
                assert(before_unprinted.contains(x) <==> start.contains(x) && !tables_hold(*inventory, prefix, x));
                assert(unprinted@.contains(x) <==> before_unprinted.contains(x) && !table_holds(
                    *inventory,
                    master@,
                    tables@[i as int].definition,
                    x,
                ));
                assert(master@ == master_of(*inventory, grown[i as int]));
                if tables_hold(*inventory, grown, x) {
                    let k = choose|k: int|
                        0 <= k < grown.len() && table_holds(
                            *inventory,
                            master_of(*inventory, grown[k]),
                            (#[trigger] grown[k]).definition,
                            x,
                        );
                    if k < prefix.len() {
                        assert(prefix[k] == grown[k]);
                        assert(tables_hold(*inventory, prefix, x));
                    } else {
                        assert(grown[k] == tables@[i as int]);
                    }
                }
                if tables_hold(*inventory, prefix, x) {
                    let k = choose|k: int|
                        0 <= k < prefix.len() && table_holds(
                            *inventory,
                            master_of(*inventory, prefix[k]),
                            (#[trigger] prefix[k]).definition,
                            x,
                        );
                    assert(grown[k] == prefix[k]);
                }
                if table_holds(*inventory, master@, tables@[i as int].definition, x) {
                    assert(grown[i as int] == tables@[i as int]);
                }
            }
            assert forall|k: int|
                0 <= k < out@.len() implies (#[trigger] out@[k]).0 == tables_shapes(
                    *inventory,
                    tables@.take(i + 1),
                    start,
                ).0[k].0 && shape_of(out@[k].1) == tables_shapes(*inventory, tables@.take(i + 1), start).0[k].1 by {
                if k < before.len() {
                    assert(out@[k] == before[k]);
                }
            }
        }
        i = i + 1;
        proof {
            assert(tables@.take(i as int) =~= grown);
            assert forall|x: Seq<u8>| unprinted@.contains(x) <==> start.contains(x) && !tables_hold(
                *inventory,
                tables@.take(i as int),
                x,
            ) by {
                assert(unprinted@.contains(x) <==> start.contains(x) && !tables_hold(*inventory, grown, x));
            }
        }
    }
    proof {
        assert(tables@.take(i as int) =~= tables@);
        assert forall|x: Seq<u8>| leftover(*inventory, tables@).contains(x) <==> start.contains(x) && !tables_hold(
            *inventory,
            tables@,
            x,
        ) by {
            assert(unprinted@.contains(x) <==> start.contains(x) && !tables_hold(*inventory, tables@.take(i as int), x));
        }
    }
    if !unprinted.is_empty() {
        let copy = unprinted.duplicate();
        let definition = TableDef::OneCell(Table0DDef::new("Uncategorized Phonemes"));
        proof {
            lemma_single_line_within(copy@, start);
            assert(definition == uncategorized_table());
        }
        let ghost before = out@;
        let grid = build_phoneme_grid(inventory, &copy, &definition, &mut unprinted, true);
        out.push(("uncategorized", grid));
        proof {
            assert forall|k: int|
                0 <= k < out@.len() implies (#[trigger] out@[k]).0 == all_tables(*inventory, tables@)[k].0 && shape_of(
                    out@[k].1,
                ) == all_tables(*inventory, tables@)[k].1 by {
                if k < before.len() {
                    assert(out@[k] == before[k]);
                }
            }
        }
    }
    Ok(out)
}

proof fn lemma_first_unknown_prefix(inventory: Inventory, tables: Seq<TableEntry>, n: int)
    requires
        0 <= n <= tables.len(),
        first_unknown_table_set(inventory, tables.take(n)) is Some,
    ensures
        first_unknown_table_set(inventory, tables) == first_unknown_table_set(inventory, tables.take(n)),
    decreases tables.len() - n,
{
    if n < tables.len() {
        assert(tables.take(n + 1).drop_last() =~= tables.take(n));
        lemma_first_unknown_prefix(inventory, tables, n + 1);
    } else {
        assert(tables.take(n) =~= tables);
    }
}


/// The index of the first table with the given name, if any.
pub open spec fn first_table_named(tables: Seq<TableEntry>, name: Seq<u8>) -> Option<int>
    decreases tables.len(),
{
    if tables.len() == 0 {
        None
    } else if tables[0].id.spec_bytes() == name {
        Some(0)
    } else {
        match first_table_named(tables.drop_first(), name) {
            Some(k) => Some(k + 1),
            None => None,
        }
    }
}

/// The index of the first grid with the given name, if any.
pub open spec fn first_grid_named(grids: Seq<(&'static str, GridShape)>, name: Seq<u8>) -> Option<int>
    decreases grids.len(),
{
    if grids.len() == 0 {
        None
    } else if grids[0].0.spec_bytes() == name {
        Some(0)
    } else {
        match first_grid_named(grids.drop_first(), name) {
            Some(k) => Some(k + 1),
            None => None,
        }
    }
}

proof fn lemma_first_table_named(tables: Seq<TableEntry>, name: Seq<u8>, i: int)
    requires
        0 <= i <= tables.len(),
        forall|k: int| 0 <= k < i ==> (#[trigger] tables[k]).id.spec_bytes() != name,
    ensures
        i < tables.len() && tables[i].id.spec_bytes() == name ==> first_table_named(tables, name) == Some(i),
        i == tables.len() ==> first_table_named(tables, name) is None,
        first_table_named(tables, name) matches Some(k) ==> i <= k < tables.len(),
    decreases i,
{
    if i > 0 {
        let rest = tables.drop_first();
        assert forall|k: int| 0 <= k < i - 1 implies (#[trigger] rest[k]).id.spec_bytes() != name by {
            assert(rest[k] == tables[k + 1]);
        }
        assert(tables[0].id.spec_bytes() != name);
        lemma_first_table_named(rest, name, i - 1);
        if i < tables.len() {
            assert(rest[i - 1] == tables[i]);
        }
    } else if tables.len() > 0 {
        lemma_first_table_named_bound(tables, name);
    }
}

proof fn lemma_first_table_named_bound(tables: Seq<TableEntry>, name: Seq<u8>)
    ensures
        first_table_named(tables, name) matches Some(k) ==> 0 <= k < tables.len() && tables[k].id.spec_bytes()
            == name,
    decreases tables.len(),
{
    if tables.len() > 0 {
        lemma_first_table_named_bound(tables.drop_first(), name);
    }
}

proof fn lemma_first_grid_named(grids: Seq<(&'static str, GridShape)>, name: Seq<u8>, i: int)
    requires
        0 <= i <= grids.len(),
        forall|k: int| 0 <= k < i ==> (#[trigger] grids[k]).0.spec_bytes() != name,
    ensures
        i < grids.len() && grids[i].0.spec_bytes() == name ==> first_grid_named(grids, name) == Some(i),
        i == grids.len() ==> first_grid_named(grids, name) is None,
    decreases i,
{
    if i > 0 {
        let rest = grids.drop_first();
        assert forall|k: int| 0 <= k < i - 1 implies (#[trigger] rest[k]).0.spec_bytes() != name by {
            assert(rest[k] == grids[k + 1]);
        }
        assert(grids[0].0.spec_bytes() != name);
        lemma_first_grid_named(rest, name, i - 1);
        if i < grids.len() {
            assert(rest[i - 1] == grids[i]);
        }
    }
}

/// Lays out one phoneme table by its name. The name `uncategorized` lays out all the tables,
/// as `build_all_phoneme_tables` does, and gives the first of them with that name, if any.
/// Any other name gives the first table with that name, laid out alone, so that nothing is
/// marked; `None` when no table has the name. Fails when the inventory lacks a set that is
/// needed: for `uncategorized` as `tables_error` says, otherwise the set of the table.
pub fn build_phoneme_table(inventory: &Inventory, tables: &Vec<TableEntry>, name: &str) -> (r: Result<
    Option<Grid>,
    ElbieError,
>)
    requires
        tables_printable(*inventory, tables@),
    ensures
        name.spec_bytes() == "uncategorized".spec_bytes() ==> {
            &&& r is Err <==> tables_error(*inventory, tables@) is Some
            &&& r matches Err(e) ==> tables_error(*inventory, tables@) == Some(e)
            &&& r matches Ok(found) ==> match first_grid_named(
                all_tables(*inventory, tables@),
                name.spec_bytes(),
            ) {
                Some(k) => found matches Some(g) && shape_of(g) == all_tables(*inventory, tables@)[k].1,
                None => found is None,
            }
        },
        name.spec_bytes() != "uncategorized".spec_bytes() ==> match first_table_named(tables@, name.spec_bytes()) {
            None => r matches Ok(None),
            Some(k) => if inventory.has_set(tables@[k].set.spec_bytes()) {
                r matches Ok(Some(g)) && shape_of(g) == table_shape(
                    *inventory,
                    master_of(*inventory, tables@[k]),
                    tables@[k].definition,
                    Seq::empty(),
                    false,
                )
            } else {
                r == Err::<Option<Grid>, ElbieError>(ElbieError::UnknownSet(tables@[k].set))
            },
        },
{
    if same_name(name, "uncategorized") {
        let mut grids = match build_all_phoneme_tables(inventory, tables) {
            Ok(g) => g,
            Err(e) => {
                return Err(e);
            },
        };
        let ghost expected = all_tables(*inventory, tables@);
        let mut k: usize = 0;
        while k < grids.len()
            invariant
                k <= grids@.len(),
                name.spec_bytes() == "uncategorized".spec_bytes(),
                expected == all_tables(*inventory, tables@),
                tables_error(*inventory, tables@) is None,
                grids@.len() == expected.len(),
                forall|j: int|
                    0 <= j < grids@.len() ==> (#[trigger] grids@[j]).0 == expected[j].0 && shape_of(grids@[j].1)
                        == expected[j].1,
                forall|j: int| 0 <= j < k ==> (#[trigger] expected[j]).0.spec_bytes() != name.spec_bytes(),
            decreases grids@.len() - k,
        {
            if same_name(grids[k].0, name) {
                proof {
                    assert(grids@[k as int].0 == expected[k as int].0);
                    lemma_first_grid_named(expected, name.spec_bytes(), k as int);
                }
                let ghost chosen = grids@[k as int];
                assert(shape_of(chosen.1) == expected[k as int].1);
                let found = grids.remove(k);
                assert(found == chosen);
                return Ok(Some(found.1));
            }
            k = k + 1;
        }
        proof {
            lemma_first_grid_named(expected, name.spec_bytes(), k as int);
        }
        Ok(None)
    } else {
        let mut k: usize = 0;
        while k < tables.len()
            invariant
                k <= tables@.len(),
                name.spec_bytes() != "uncategorized".spec_bytes(),
                tables_printable(*inventory, tables@),
                forall|j: int| 0 <= j < k ==> (#[trigger] tables@[j]).id.spec_bytes() != name.spec_bytes(),
            decreases tables@.len() - k,
        {
            if same_name(tables[k].id, name) {
                proof {
                    lemma_first_table_named(tables@, name.spec_bytes(), k as int);
                }
                let entry = &tables[k];
                let master = match inventory.get_set(entry.set) {
                    Ok(b) => b,
                    Err(e) => {
                        return Err(e);
                    },
                };
                proof {
                    assert(table_printable(*inventory, tables@[k as int].definition));
                }
                let mut untracked: Bag<Phoneme> = Bag::new();
                let grid = build_phoneme_grid(inventory, master, &entry.definition, &mut untracked, false);
                return Ok(Some(grid));
            }
            k = k + 1;
        }
        proof {
            lemma_first_table_named(tables@, name.spec_bytes(), k as int);
        }
        Ok(None)
    }
}

} // verus!
