use vstd::prelude::*;
use vstd::string::StringSliceAdditionalSpecFns;
use vstd::utf8::encode_utf8;
use vstd::utf8::is_char_boundary;
use vstd::utf8::is_continuation_byte;
use vstd::utf8::length_of_first_scalar;
use vstd::utf8::pop_first_scalar;
use vstd::utf8::valid_utf8;

use crate::bag::views;
use crate::errors::ElbieError;
use crate::phoneme::Inventory;
use crate::phoneme::Phoneme;
use crate::word::Word;
use unicode_normalization::UnicodeNormalization as _;

verus! {

/// The canonical decomposition (Unicode normalization form D) of some text, as the
/// `unicode-normalization` crate computes it.
pub uninterp spec fn canonical_decomposition(text: Seq<char>) -> Seq<char>;

/// Calls `UnicodeNormalization::nfd` of the `unicode-normalization` crate on the text and collects
/// the characters into a string. The contract names the result: it depends on the text alone.
#[verifier::external_body]
fn decompose(text: &str) -> (r: String)
    ensures
        r@ == canonical_decomposition(text@),
{
    text.nfd().collect::<String>()
}

/// Whether `name` is a non-empty name whose bytes stand in `bytes` at `start`.
pub open spec fn name_at(bytes: Seq<u8>, start: int, name: Seq<u8>) -> bool {
    &&& name.len() > 0
    &&& 0 <= start
    &&& start + name.len() <= bytes.len()
    &&& bytes.subrange(start, start + name.len()) == name
}

/// The longest of `names` that stands in `bytes` at `start`, if any does.
pub open spec fn longest_at(names: Seq<Seq<u8>>, bytes: Seq<u8>, start: int) -> Option<Seq<u8>> {
    if exists|i: int| 0 <= i < names.len() && name_at(bytes, start, #[trigger] names[i]) {
        Some(
            choose|n: Seq<u8>|
                names.contains(n) && name_at(bytes, start, n) && forall|j: int|
                    0 <= j < names.len() && name_at(bytes, start, #[trigger] names[j]) ==> names[j].len()
                        <= n.len(),
        )
    } else {
        None
    }
}

/// Reads `bytes` from `start` as names, taking each time the longest name that stands there:
/// the names read, or the place where no name stands.
pub open spec fn read_names(names: Seq<Seq<u8>>, bytes: Seq<u8>, start: int) -> Result<
    Seq<Seq<u8>>,
    int,
>
    decreases bytes.len() - start,
{
    if start < 0 || start >= bytes.len() {
        Ok(Seq::empty())
    } else {
        match longest_at(names, bytes, start) {
            None => Err(start),
            Some(n) => if n.len() > 0 && start + n.len() <= bytes.len() {
                match read_names(names, bytes, start + n.len()) {
                    Ok(rest) => Ok(seq![n] + rest),
                    Err(at) => Err(at),
                }
            } else {
                Err(start)
            },
        }
    }
}

/// The text that is read for a word: the input, decomposed first when the inventory asks for it.
pub open spec fn reading_source(inventory: Inventory, input: Seq<char>) -> Seq<char> {
    if inventory.normalizes() {
        canonical_decomposition(input)
    } else {
        input
    }
}

/// A valid UTF-8 prefix of valid UTF-8 bytes ends at a character boundary.
proof fn lemma_valid_prefix_ends_at_boundary(bytes: Seq<u8>, prefix: Seq<u8>)
    requires
        valid_utf8(bytes),
        valid_utf8(prefix),
        prefix.len() <= bytes.len(),
        bytes.take(prefix.len() as int) == prefix,
    ensures
        is_char_boundary(bytes, prefix.len() as int),
    decreases prefix.len(),
{
    if prefix.len() > 0 {
        assert(bytes[0] == bytes.take(prefix.len() as int)[0]);
        let width = length_of_first_scalar(prefix);
        assert(length_of_first_scalar(bytes) == width);
        let rest = pop_first_scalar(bytes);
        let prefix_rest = pop_first_scalar(prefix);
        assert(rest.take(prefix_rest.len() as int) =~= prefix_rest);
        lemma_valid_prefix_ends_at_boundary(rest, prefix_rest);
    }
}

/// Reading a whole valid UTF-8 name at a character boundary of valid UTF-8 bytes ends at a
/// character boundary.
proof fn lemma_name_ends_at_boundary(bytes: Seq<u8>, start: int, name: Seq<u8>)
    requires
        valid_utf8(bytes),
        valid_utf8(name),
        is_char_boundary(bytes, start),
        0 <= start,
        start + name.len() <= bytes.len(),
        bytes.subrange(start, start + name.len()) == name,
    ensures
        is_char_boundary(bytes, start + name.len()),
{
    broadcast use vstd::utf8::valid_utf8_split, vstd::utf8::is_char_boundary_start_end_of_seq;

    let after = bytes.subrange(start, bytes.len() as int);
    assert(valid_utf8(after));
    assert(after.take(name.len() as int) =~= name);
    lemma_valid_prefix_ends_at_boundary(after, name);
    let end = start + name.len();
    if end < bytes.len() {
        vstd::utf8::is_char_boundary_iff_not_is_continuation_byte(after, name.len() as int);
        vstd::utf8::is_char_boundary_iff_not_is_continuation_byte(bytes, end);
        assert(after[name.len() as int] == bytes[end]);
        assert(!is_continuation_byte(bytes[end]));
    }
}

fn name_at_exec(bytes: &[u8], start: usize, name: &[u8]) -> (r: bool)
    requires
        start <= bytes@.len(),
    ensures
        r == name_at(bytes@, start as int, name@),
{
    if name.len() == 0 || name.len() > bytes.len() - start {
        return false;
    }
    let mut k: usize = 0;
    let blen = bytes.len();
    while k < name.len()
        invariant
            blen == bytes@.len(),
            k <= name@.len(),
            start + name@.len() <= bytes@.len(),
            forall|m: int| 0 <= m < k ==> bytes@[start + m] == name@[m],
        decreases name@.len() - k,
    {
        if bytes[start + k] != name[k] {
            assert(bytes@.subrange(start as int, start + name@.len())[k as int] != name@[k as int]);
            return false;
        }
        k = k + 1;
    }
    assert(bytes@.subrange(start as int, start + name@.len()) =~= name@);
    true
}

fn longest_exec(phonemes: &[Phoneme], bytes: &[u8], start: usize) -> (r: Option<usize>)
    requires
        start <= bytes@.len(),
    ensures
        r is None <==> longest_at(views(phonemes@), bytes@, start as int) is None,
        r matches Some(i) ==> i < phonemes@.len() && longest_at(views(phonemes@), bytes@, start as int)
            == Some(phonemes@[i as int]@) && name_at(bytes@, start as int, phonemes@[i as int]@),
{
    let ghost names = views(phonemes@);
    let mut best: Option<usize> = None;
    let mut best_len: usize = 0;
    let mut i: usize = 0;
    while i < phonemes.len()
        invariant
            i <= phonemes@.len(),
            names == views(phonemes@),
            start <= bytes@.len(),
            best is None ==> forall|j: int| 0 <= j < i ==> !name_at(bytes@, start as int, #[trigger] names[j]),
            best matches Some(b) ==> b < i && name_at(bytes@, start as int, names[b as int])
                && best_len == names[b as int].len() && forall|j: int|
                0 <= j < i && name_at(bytes@, start as int, #[trigger] names[j]) ==> names[j].len()
                    <= best_len,
        decreases phonemes@.len() - i,
    {
        let name = phonemes[i].name.as_bytes();
        assert(names[i as int] == name@);
        if name_at_exec(bytes, start, name) {
            if best.is_none() || name.len() > best_len {
                best = Some(i);
                best_len = name.len();
            }
        }
        i = i + 1;
    }
    match best {
        None => None,
        Some(b) => {
            proof {
                assert(name_at(bytes@, start as int, names[b as int]));
                let n = choose|n: Seq<u8>|
                    names.contains(n) && name_at(bytes@, start as int, n) && forall|j: int|
                        0 <= j < names.len() && name_at(bytes@, start as int, #[trigger] names[j])
                            ==> names[j].len() <= n.len();
                assert(names.contains(names[b as int]) && name_at(bytes@, start as int, names[b as int]));
                assert(longest_at(names, bytes@, start as int) == Some(n));
                let k = choose|k: int| 0 <= k < names.len() && names[k] == n;
                assert(names[k].len() <= best_len);
                assert(n.len() == names[b as int].len());
                assert(n =~= names[b as int]);
            }
            Some(b)
        },
    }
}

/// Reads a word from text, taking each time the longest phoneme name of the inventory that
/// stands there. When the inventory normalizes, the text is decomposed first, and the
/// decomposed text is read as `read_source` says. Text where no phoneme name stands is an error
/// that carries the input and the text left unread.
pub fn read_word(inventory: &Inventory, input: &str) -> (r: Result<Word, ElbieError>)
    ensures
        ({
            let bytes = encode_utf8(reading_source(*inventory, input@));
            let read = read_names(inventory.phoneme_names(), bytes, 0);
            &&& r is Ok <==> read is Ok
            &&& r matches Ok(w) ==> read == Ok::<Seq<Seq<u8>>, int>(w@)
            &&& r matches Err(e) ==> (e matches ElbieError::UnknownPhonemeWhileReading(whole, rest) && whole@
                == input@ && (read matches Err(at) ==> encode_utf8(rest@) == bytes.subrange(
                at,
                bytes.len() as int,
            )))
        }),
{
    let owned: String = if inventory.normalize_phonemes() {
        decompose(input)
    } else {
        input.to_owned()
    };
    read_source(inventory, owned.as_str(), input)
}

/// Reads `source`, the text of the word `input` as it is to be read, taking each time the
/// longest phoneme name of the inventory that stands there. Text where no phoneme name stands
/// is an error that carries the input and the text of the source left unread.
pub fn read_source(inventory: &Inventory, source: &str, input: &str) -> (r: Result<Word, ElbieError>)
    ensures
        ({
            let bytes = source.spec_bytes();
            let read = read_names(inventory.phoneme_names(), bytes, 0);
            &&& r is Ok <==> read is Ok
            &&& r matches Ok(w) ==> read == Ok::<Seq<Seq<u8>>, int>(w@)
            &&& r matches Err(e) ==> (e matches ElbieError::UnknownPhonemeWhileReading(whole, rest) && whole@
                == input@ && (read matches Err(at) ==> encode_utf8(rest@) == bytes.subrange(
                at,
                bytes.len() as int,
            )))
        }),
{
    let bytes = source.as_bytes();
    let ghost all = bytes@;
    let ghost names = inventory.phoneme_names();
    let phonemes = inventory.phonemes().items();
    assert(views(phonemes@) == names);
    let mut out: Vec<Phoneme> = Vec::new();
    let mut pos: usize = 0;
    proof {
        vstd::utf8::encode_utf8_valid_utf8(source@);
    }
    while pos < bytes.len()
        invariant
            pos <= all.len(),
            valid_utf8(all),
            is_char_boundary(all, pos as int),
            all == bytes@,
            all == source.spec_bytes(),
            names == inventory.phoneme_names(),
            names == views(phonemes@),
            read_names(names, all, 0) == match read_names(names, all, pos as int) {
                Ok(rest) => Ok(views(out@) + rest),
                Err(at) => Err::<Seq<Seq<u8>>, int>(at),
            },
        decreases all.len() - pos,
    {
        match longest_exec(phonemes, bytes, pos) {
            None => {
                let (_, after) = source.split_at(pos);
                let rest = after.to_owned();
                assert(encode_utf8(rest@) == all.subrange(pos as int, all.len() as int));
                proof {
                    assert(read_names(names, all, pos as int) == Err::<Seq<Seq<u8>>, int>(pos as int));
                }
                return Err(ElbieError::UnknownPhonemeWhileReading(input.to_owned(), rest));
            },
            Some(i) => {
                let phoneme = phonemes[i];
                let len = phoneme.name.as_bytes().len();
                let ghost before = out@;
                proof {
                    let n = names[i as int];
                    assert(n == phoneme@);
                    assert(n.len() > 0);
                    vstd::utf8::encode_utf8_valid_utf8(phoneme.name@);
                    lemma_name_ends_at_boundary(all, pos as int, n);
                    assert(views(before.push(phoneme)) =~= views(before).push(phoneme@));
                    match read_names(names, all, pos + n.len()) {
                        Ok(rest) => {
                            assert(views(before) + (seq![n] + rest) =~= views(before).push(n) + rest);
                        },
                        Err(_) => {},
                    }
                }
                out.push(phoneme);
                pos = pos + len;
            },
        }
    }
    proof {
        assert(read_names(names, all, pos as int) == Ok::<Seq<Seq<u8>>, int>(Seq::empty()));
        assert(views(out@) + Seq::<Seq<u8>>::empty() =~= views(out@));
    }
    Ok(Word::from_phonemes(out))
}

} // verus!
