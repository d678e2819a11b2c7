use vstd::prelude::*;

use crate::errors::ElbieError;
use crate::text::same_text;

verus! {

/// Whether every character is a decimal digit.
pub open spec fn all_digits(text: Seq<char>) -> bool {
    forall|i: int| 0 <= i < text.len() ==> '0' <= #[trigger] text[i] <= '9'
}

/// The number the decimal digits stand for.
pub open spec fn digits_value(text: Seq<char>) -> nat
    decreases text.len(),
{
    if text.len() == 0 {
        0
    } else {
        digits_value(text.drop_last()) * 10 + ((text.last() as nat) - ('0' as nat)) as nat
    }
}

/// The digits of a decimal number as `str::parse` reads one: an optional `+`, then one or more
/// digits and nothing else.
pub open spec fn decimal_digits(text: Seq<char>) -> Option<Seq<char>> {
    let digits = if text.len() > 0 && text[0] == '+' {
        text.drop_first()
    } else {
        text
    };
    if digits.len() > 0 && all_digits(digits) {
        Some(digits)
    } else {
        None
    }
}

/// The text of the error `str::parse::<usize>` gives for a text it does not take.
pub uninterp spec fn usize_parse_error(text: Seq<char>) -> Seq<char>;

/// What `str::parse::<usize>` gives for a text, as its documentation says: the number written
/// as an optional `+` and decimal digits, when it fits in a `usize`; otherwise an error.
pub open spec fn usize_parse(text: Seq<char>) -> Result<usize, Seq<char>> {
    match decimal_digits(text) {
        Some(digits) => if digits_value(digits) <= usize::MAX {
            Ok(digits_value(digits) as usize)
        } else {
            Err(usize_parse_error(text))
        },
        None => Err(usize_parse_error(text)),
    }
}

/// Calls `str::parse::<usize>`, with the error written as text by its `to_string`. The std
/// documentation says which texts it takes (an optional `+`, then decimal digits only, with a
/// value that fits) and what number it gives; the error's text is named, as it depends on the
/// text alone.
#[verifier::external_body]
pub(crate) fn parse_usize(text: &str) -> (r: Result<usize, String>)
    ensures
        match r {
            Ok(n) => usize_parse(text@) == Ok::<usize, Seq<char>>(n),
            Err(e) => usize_parse(text@) == Err::<usize, Seq<char>>(e@),
        },
        r matches Err(e) ==> e@ == usize_parse_error(text@),
{
    match text.parse::<usize>() {
        Ok(n) => Ok(n),
        Err(e) => Err(e.to_string()),
    }
}

/// Which orthographies to spell a word in: one by its index, or all of them.
#[derive(Debug, Clone, Copy, PartialEq, Eq, Structural)]
pub enum OrthographyIndex {
    Index(usize),
    All,
}

/// Whether one of the choices is `All`.
pub open spec fn asks_all(spellings: Seq<OrthographyIndex>) -> bool {
    exists|k: int| 0 <= k < spellings.len() && #[trigger] spellings[k] is All
}

/// The indexes the choices ask for: every orthography when one choice is `All`, else the
/// indexes in the order given.
pub open spec fn chosen_indexes(spellings: Seq<OrthographyIndex>, count: int) -> Seq<int> {
    if asks_all(spellings) {
        Seq::new(count as nat, |i: int| i)
    } else {
        spellings.map_values(|s: OrthographyIndex| s->Index_0 as int)
    }
}

impl OrthographyIndex {
    /// Reads a choice: a number is an index, `all` is every orthography; other text is the
    /// number's parse error. What follows the parse is `from_parsed`.
    pub fn parse(text: &str) -> (r: Result<Self, String>)
        ensures
            usize_parse(text@) matches Ok(n) ==> r == Ok::<Self, String>(OrthographyIndex::Index(n)),
            usize_parse(text@) is Err && text@ == "all"@ ==> r == Ok::<Self, String>(OrthographyIndex::All),
            usize_parse(text@) is Err && text@ != "all"@ ==> (r matches Err(e) && usize_parse(text@)
                == Err::<usize, Seq<char>>(e@)),
    {
        OrthographyIndex::from_parsed(text, parse_usize(text))
    }

    /// The choice a text stands for, given what parsing it as a number gave: the index when it
    /// is one, `All` for the text `all`, else the parse error.
    pub fn from_parsed(text: &str, parsed: Result<usize, String>) -> (r: Result<Self, String>)
        ensures
            parsed matches Ok(n) ==> r == Ok::<Self, String>(OrthographyIndex::Index(n)),
            parsed is Err && text@ == "all"@ ==> r == Ok::<Self, String>(OrthographyIndex::All),
            text@ != "all"@ ==> (parsed matches Err(e) ==> r == Err::<Self, String>(e)),
    {
        match parsed {
            Ok(index) => Ok(OrthographyIndex::Index(index)),
            Err(e) => {
                if same_text(text, "all") {
                    Ok(OrthographyIndex::All)
                } else {
                    Err(e)
                }
            },
        }
    }

    /// The orthographies the choices ask for, each with its index, in the order asked. An index
    /// past the orthographies is an error, the first such index in that order.
    pub fn calculate_orthographies(spellings: &[OrthographyIndex], orthographies: &[&'static str]) -> (r:
        Result<Vec<(usize, &'static str)>, ElbieError>)
        ensures
            ({
                let chosen = chosen_indexes(spellings@, orthographies@.len() as int);
                &&& r is Ok <==> forall|k: int| 0 <= k < chosen.len() ==> #[trigger] chosen[k] < orthographies@.len()
                &&& r matches Ok(v) ==> v@.len() == chosen.len() && forall|k: int|
                    0 <= k < chosen.len() ==> (#[trigger] v@[k]).0 == chosen[k] && v@[k].1
                        == orthographies@[chosen[k]]
                &&& r matches Err(e) ==> exists|k: int|
                    0 <= k < chosen.len() && #[trigger] chosen[k] >= orthographies@.len() && (forall|j: int|
                        0 <= j < k ==> chosen[j] < orthographies@.len()) && e == ElbieError::UnknownOrthography(
                        chosen[k] as usize,
                    )
            }),
    {
        let ghost n = orthographies@.len() as int;
        let ghost chosen = chosen_indexes(spellings@, n);
        let mut all = false;
        let mut i: usize = 0;
        while i < spellings.len()
            invariant
                i <= spellings@.len(),
                all <==> exists|k: int| 0 <= k < i && #[trigger] spellings@[k] is All,
            decreases spellings@.len() - i,
        {
            if let OrthographyIndex::All = spellings[i] {
                all = true;
            }
            i = i + 1;
        }
        let mut indexes: Vec<usize> = Vec::new();
        if all {
            let mut k: usize = 0;
            while k < orthographies.len()
                invariant
                    k <= orthographies@.len(),
                    indexes@.len() == k,
                    forall|q: int| 0 <= q < k ==> indexes@[q] == q,
                decreases orthographies@.len() - k,
            {
                indexes.push(k);
                k = k + 1;
            }
        } else {
            let mut k: usize = 0;
            while k < spellings.len()
                invariant
                    k <= spellings@.len(),
                    !asks_all(spellings@),
                    indexes@.len() == k,
                    forall|q: int| 0 <= q < k ==> indexes@[q] == spellings@[q]->Index_0,
                decreases spellings@.len() - k,
            {
                assert(!(spellings@[k as int] is All));
                match spellings[k] {
                    OrthographyIndex::Index(index) => indexes.push(index),
                    OrthographyIndex::All => {},
                }
                k = k + 1;
            }
        }
        assert(indexes@.len() == chosen.len());
        assert(forall|q: int| 0 <= q < chosen.len() ==> indexes@[q] == chosen[q]);
        let mut result: Vec<(usize, &'static str)> = Vec::new();
        let mut j: usize = 0;
        while j < indexes.len()
            invariant
                j <= indexes@.len(),
                indexes@.len() == chosen.len(),
                n == orthographies@.len(),
                forall|q: int| 0 <= q < chosen.len() ==> indexes@[q] == chosen[q],
                result@.len() == j,
                chosen == chosen_indexes(spellings@, n),
                forall|q: int| 0 <= q < j ==> #[trigger] chosen[q] < n,
                forall|q: int| 0 <= q < j ==> (#[trigger] result@[q]).0 == chosen[q]
                    && result@[q].1 == orthographies@[chosen[q]],
            decreases indexes@.len() - j,
        {
            let index = indexes[j];
            if index >= orthographies.len() {
                assert(chosen[j as int] >= n);
                return Err(ElbieError::UnknownOrthography(index));
            }
            result.push((index, orthographies[index]));
            j = j + 1;
        }
        Ok(result)
    }
}

} // verus!
