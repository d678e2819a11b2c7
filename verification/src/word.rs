use vstd::prelude::*;
use vstd::string::StringExecFns;

use crate::bag::views;
use crate::phoneme::Phoneme;

verus! {

/// The characters of the names of some phonemes, one after another.
pub open spec fn spelled_names(phonemes: Seq<Phoneme>) -> Seq<char>
    decreases phonemes.len(),
{
    if phonemes.len() == 0 {
        Seq::empty()
    } else {
        spelled_names(phonemes.drop_last()) + phonemes.last().name@
    }
}

/// A word: a sequence of phonemes. Its view is the sequence of the phonemes' names.
#[derive(Debug, Clone)]
pub struct Word {
    phonemes: Vec<Phoneme>,
}

impl View for Word {
    type V = Seq<Seq<u8>>;

    closed spec fn view(&self) -> Seq<Seq<u8>> {
        views(self.phonemes@)
    }
}

impl Word {
    /// The phonemes of the word.
    pub closed spec fn phoneme_seq(&self) -> Seq<Phoneme> {
        self.phonemes@
    }

    /// A word of the given phonemes.
    pub fn new(phonemes: &[Phoneme]) -> (r: Self)
        ensures
            r.phoneme_seq() == phonemes@,
            r@ == views(phonemes@),
    {
        let mut v: Vec<Phoneme> = Vec::new();
        let mut i: usize = 0;
        while i < phonemes.len()
            invariant
                i <= phonemes@.len(),
                v@ == phonemes@.take(i as int),
            decreases phonemes@.len() - i,
        {
            v.push(phonemes[i]);
            proof {
                assert(phonemes@.take(i + 1) =~= phonemes@.take(i as int).push(phonemes@[i as int]));
            }
            i += 1;
        }
        proof {
            assert(phonemes@.take(i as int) =~= phonemes@);
        }
        Word { phonemes: v }
    }

    /// A word that takes ownership of the given phonemes.
    pub fn from_phonemes(phonemes: Vec<Phoneme>) -> (r: Self)
        ensures
            r.phoneme_seq() == phonemes@,
            r@ == views(phonemes@),
    {
        Word { phonemes }
    }

    /// The phonemes of the word.
    pub fn phonemes(&self) -> (r: &Vec<Phoneme>)
        ensures
            r@ == self.phoneme_seq(),
            views(r@) == self@,
    {
        &self.phonemes
    }

    /// The number of phonemes.
    pub fn len(&self) -> (r: usize)
        ensures
            r == self@.len(),
    {
        self.phonemes.len()
    }

    /// Adds a phoneme at the end of the word.
    pub fn push(&mut self, phoneme: Phoneme)
        ensures
            final(self).phoneme_seq() == old(self).phoneme_seq().push(phoneme),
            final(self)@ == old(self)@.push(phoneme@),
    {
        self.phonemes.push(phoneme);
        assert(views(self.phonemes@) =~= views(old(self).phonemes@).push(phoneme@));
    }

    /// The last phoneme, if the word has any.
    pub fn last(&self) -> (r: Option<&Phoneme>)
        ensures
            r is None <==> self@.len() == 0,
            r matches Some(p) ==> *p == self.phoneme_seq().last() && p@ == self@.last(),
    {
        if self.phonemes.len() == 0 {
            None
        } else {
            Some(&self.phonemes[self.phonemes.len() - 1])
        }
    }

    /// The names of the phonemes, written one after another.
    pub fn display_raw(&self) -> (r: String)
        ensures
            r@ == spelled_names(self.phoneme_seq()),
    {
        let mut r = String::new();
        let mut i: usize = 0;
        while i < self.phonemes.len()
            invariant
                i <= self.phonemes@.len(),
                r@ == spelled_names(self.phonemes@.take(i as int)),
            decreases self.phonemes@.len() - i,
        {
            r.append(self.phonemes[i].name);
            proof {
                assert(self.phonemes@.take(i + 1).drop_last() =~= self.phonemes@.take(i as int));
            }
            i += 1;
        }
        proof {
            assert(self.phonemes@.take(i as int) =~= self.phonemes@);
        }
        r
    }

    /// The word between slashes, as phonemic notation writes it: `/word/`.
    pub fn display(&self) -> (r: String)
        ensures
            r@ == "/"@ + spelled_names(self.phoneme_seq()) + "/"@,
    {
        let mut r = String::new();
        r.append("/");
        let raw = self.display_raw();
        r.append(raw.as_str());
        r.append("/");
        proof {
            assert(Seq::<char>::empty() + "/"@ =~= "/"@);
        }
        r
    }
}

} // verus!
