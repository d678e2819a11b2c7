use vstd::prelude::*;
use vstd::string::StringSliceAdditionalSpecFns;

use crate::bag::Bag;
use crate::errors::ElbieError;
use crate::names::compare_bytes;
use crate::names::same_name;
use crate::names::lemma_lex_order;
use crate::names::lex_less;
use crate::order::Ordinal;
use crate::order::Rank;
use rand::rngs::ThreadRng;

verus! {

/// A phoneme of a language, identified by its name. Two phonemes with the same name are the
/// same phoneme, so a phoneme's view is the UTF-8 encoding of its name.
#[derive(Debug, Clone, Copy, PartialEq, Eq, PartialOrd, Ord, Hash)]
pub struct Phoneme {
    pub name: &'static str,
}

impl View for Phoneme {
    type V = Seq<u8>;

    open spec fn view(&self) -> Seq<u8> {
        self.name.spec_bytes()
    }
}

impl Phoneme {
    /// A phoneme with the given name.
    pub fn new(name: &'static str) -> (r: Self)
        ensures
            r.name == name,
            r@ == name.spec_bytes(),
    {
        Phoneme { name }
    }
}

impl Ordinal for Phoneme {
    open spec fn precedes(a: Seq<u8>, b: Seq<u8>) -> bool {
        lex_less(a, b)
    }

    proof fn lemma_strict_total_order(a: Seq<u8>, b: Seq<u8>, c: Seq<u8>) {
        lemma_lex_order(a, b, c);
    }

    fn rank(&self, other: &Phoneme) -> (r: Rank) {
        compare_bytes(self.name.as_bytes(), other.name.as_bytes())
    }
}


/// The name of the set that holds every phoneme of an inventory.
pub const PHONEME: &'static str = "phoneme";

/// The name of a set that holds no phonemes.
pub const EMPTY: &'static str = "empty";

/// The contents of the last entry named `name`, if any.
pub open spec fn find_set(sets: Seq<(&'static str, Bag<Phoneme>)>, name: Seq<u8>) -> Option<
    Seq<Seq<u8>>,
>
    decreases sets.len(),
{
    if sets.len() == 0 {
        None
    } else if sets.last().0.spec_bytes() == name {
        Some(sets.last().1@)
    } else {
        find_set(sets.drop_last(), name)
    }
}

/// The contents of an optional set, empty when there is none.
pub open spec fn members(set: Option<Seq<Seq<u8>>>) -> Seq<Seq<u8>> {
    match set {
        Some(s) => s,
        None => Seq::empty(),
    }
}

/// The UTF-8 encodings of some names.
pub open spec fn name_bytes(names: Seq<&'static str>) -> Seq<Seq<u8>> {
    names.map_values(|n: &'static str| n.spec_bytes())
}

proof fn lemma_find_set_last(sets: Seq<(&'static str, Bag<Phoneme>)>, i: int)
    requires
        0 <= i < sets.len(),
        forall|j: int| i < j < sets.len() ==> sets[j].0.spec_bytes() != sets[i].0.spec_bytes(),
    ensures
        find_set(sets, sets[i].0.spec_bytes()) == Some(sets[i].1@),
    decreases sets.len(),
{
    if i < sets.len() - 1 {
        lemma_find_set_last(sets.drop_last(), i);
    }
}

proof fn lemma_find_set_some(sets: Seq<(&'static str, Bag<Phoneme>)>, j: int)
    requires
        0 <= j < sets.len(),
    ensures
        find_set(sets, sets[j].0.spec_bytes()) is Some,
    decreases sets.len(),
{
    if sets.last().0.spec_bytes() != sets[j].0.spec_bytes() {
        assert(sets.drop_last()[j] == sets[j]);
        lemma_find_set_some(sets.drop_last(), j);
    }
}

proof fn lemma_find_set_none(sets: Seq<(&'static str, Bag<Phoneme>)>, name: Seq<u8>)
    requires
        forall|j: int| 0 <= j < sets.len() ==> sets[j].0.spec_bytes() != name,
    ensures
        find_set(sets, name) is None,
    decreases sets.len(),
{
    if sets.len() > 0 {
        lemma_find_set_none(sets.drop_last(), name);
    }
}

proof fn lemma_find_set_push(sets: Seq<(&'static str, Bag<Phoneme>)>, e: (&'static str, Bag<Phoneme>))
    ensures
        forall|k: Seq<u8>|
            #![trigger find_set(sets.push(e), k)]
            find_set(sets.push(e), k) == if k == e.0.spec_bytes() {
                Some(e.1@)
            } else {
                find_set(sets, k)
            },
{
    assert(sets.push(e).drop_last() =~= sets);
}

proof fn lemma_find_set_update(
    sets: Seq<(&'static str, Bag<Phoneme>)>,
    i: int,
    e: (&'static str, Bag<Phoneme>),
)
    requires
        0 <= i < sets.len(),
        e.0.spec_bytes() == sets[i].0.spec_bytes(),
        forall|j: int| i < j < sets.len() ==> sets[j].0.spec_bytes() != sets[i].0.spec_bytes(),
    ensures
        forall|k: Seq<u8>|
            #![trigger find_set(sets.update(i, e), k)]
            find_set(sets.update(i, e), k) == if k == e.0.spec_bytes() {
                Some(e.1@)
            } else {
                find_set(sets, k)
            },
    decreases sets.len(),
{
    let u = sets.update(i, e);
    if i == sets.len() - 1 {
        assert(u.drop_last() =~= sets.drop_last());
    } else {
        lemma_find_set_update(sets.drop_last(), i, e);
        assert(u.drop_last() =~= sets.drop_last().update(i, e));
        assert(u.last() == sets.last());
        assert(sets.last().0.spec_bytes() != e.0.spec_bytes());
        assert forall|k: Seq<u8>| #![trigger find_set(sets.update(i, e), k)]
            find_set(sets.update(i, e), k) == if k == e.0.spec_bytes() {
                Some(e.1@)
            } else {
                find_set(sets, k)
            } by {
            assert(find_set(sets.drop_last().update(i, e), k) == if k == e.0.spec_bytes() {
                Some(e.1@)
            } else {
                find_set(sets.drop_last(), k)
            });
        }
    }
}

/// The phonemes of a language, and named sets of them.
#[derive(Debug)]
pub struct Inventory {
    phonemes: Bag<Phoneme>,
    sets: Vec<(&'static str, Bag<Phoneme>)>,
    normalize_phonemes: bool,
}

impl Inventory {
    /// No two sets share a name, and the set of all phonemes is there.
    #[verifier::type_invariant]
    spec fn well_formed(self) -> bool {
        &&& forall|i: int, j: int|
            0 <= i < j < self.sets@.len() ==> (#[trigger] self.sets@[i]).0.spec_bytes() != (#[trigger] self.sets@[j]).0.spec_bytes()
        &&& find_set(self.sets@, PHONEME.spec_bytes()) is Some
    }

    /// Every inventory has the set `PHONEME`, which holds all its phonemes as they are added.
    pub fn phoneme_set_exists(&self)
        ensures
            self.has_set(PHONEME.spec_bytes()),
    {
        proof {
            use_type_invariant(self);
        }
    }

    /// The names of the phonemes, in ascending order.
    pub closed spec fn phoneme_names(&self) -> Seq<Seq<u8>> {
        self.phonemes@
    }

    /// The contents of the set with the given name, or `None` when there is no such set.
    pub closed spec fn set_named(&self, name: Seq<u8>) -> Option<Seq<Seq<u8>>> {
        find_set(self.sets@, name)
    }

    /// Whether words are normalized before they are read.
    pub closed spec fn normalizes(&self) -> bool {
        self.normalize_phonemes
    }

    /// True when the inventory has a phoneme with this name.
    pub open spec fn has_phoneme(&self, name: Seq<u8>) -> bool {
        self.phoneme_names().contains(name)
    }

    /// True when the inventory has a set with this name.
    pub open spec fn has_set(&self, name: Seq<u8>) -> bool {
        self.set_named(name) is Some
    }

    /// An inventory with no phonemes, and the sets `PHONEME` and `EMPTY`, both empty.
    pub fn new() -> (r: Self)
        ensures
            r.phoneme_names().len() == 0,
            r.set_named(PHONEME.spec_bytes()) == Some(Seq::<Seq<u8>>::empty()),
            r.set_named(EMPTY.spec_bytes()) == Some(Seq::<Seq<u8>>::empty()),
            forall|k: Seq<u8>|
                k != PHONEME.spec_bytes() && k != EMPTY.spec_bytes() ==> r.set_named(k) is None,
            !r.normalizes(),
    {
        let mut sets = Vec::new();
        sets.push((PHONEME, Bag::new()));
        sets.push((EMPTY, Bag::new()));
        proof {
            reveal_strlit("phoneme");
            reveal_strlit("empty");
            vstd::utf8::encode_utf8_decode_utf8(PHONEME@);
            vstd::utf8::encode_utf8_decode_utf8(EMPTY@);
            assert(PHONEME@[0] != EMPTY@[0]);
            assert(sets@[0].0.spec_bytes() != sets@[1].0.spec_bytes());
            reveal_with_fuel(find_set, 3);
            assert(find_set(sets@, PHONEME.spec_bytes()) is Some);
        }
        let r = Inventory { phonemes: Bag::new(), sets, normalize_phonemes: false };
        proof {
            let s = r.sets@;
            reveal_with_fuel(find_set, 3);
            assert(s.drop_last().drop_last().len() == 0);
            assert(s.drop_last().last() == s[0]);
            assert forall|k: Seq<u8>| #![trigger find_set(s, k)]
                k != PHONEME.spec_bytes() && k != EMPTY.spec_bytes() implies find_set(s, k) is None by {
                assert(find_set(s.drop_last().drop_last(), k) is None);
            }
        }
        r
    }

    /// The phonemes of the inventory.
    pub fn phonemes(&self) -> (r: &Bag<Phoneme>)
        ensures
            r@ == self.phoneme_names(),
    {
        &self.phonemes
    }

    /// Whether words are normalized before they are read.
    pub fn normalize_phonemes(&self) -> (r: bool)
        ensures
            r == self.normalizes(),
    {
        self.normalize_phonemes
    }

    /// Sets whether words are normalized before they are read.
    pub fn set_normalize_phonemes(&mut self, value: bool)
        ensures
            final(self).normalizes() == value,
            final(self).phoneme_names() == old(self).phoneme_names(),
            forall|k: Seq<u8>| final(self).set_named(k) == old(self).set_named(k),
    {
        let (phonemes, sets, _) = self.take_parts();
        *self = Inventory { phonemes, sets, normalize_phonemes: value };
    }

    /// Takes the parts of the inventory out, leaving a new inventory in its place.
    fn take_parts(&mut self) -> (r: (Bag<Phoneme>, Vec<(&'static str, Bag<Phoneme>)>, bool))
        ensures
            r.0@ == old(self).phonemes@,
            r.1@ == old(self).sets@,
            r.2 == old(self).normalize_phonemes,
            forall|i: int, j: int|
                0 <= i < j < r.1@.len() ==> (#[trigger] r.1@[i]).0.spec_bytes() != (#[trigger] r.1@[j]).0.spec_bytes(),
            find_set(r.1@, PHONEME.spec_bytes()) is Some,
    {
        proof {
            use_type_invariant(&*self);
        }
        let mut taken = Inventory::new();
        std::mem::swap(&mut taken, self);
        proof {
            use_type_invariant(&taken);
        }
        let Inventory { phonemes, sets, normalize_phonemes } = taken;
        (phonemes, sets, normalize_phonemes)
    }

    /// The index of the last set with this name.
    fn find_set_index(&self, name: &str) -> (r: Option<usize>)
        ensures
            match r {
                Some(i) => {
                    &&& i < self.sets@.len()
                    &&& self.sets@[i as int].0.spec_bytes() == name.spec_bytes()
                    &&& self.set_named(name.spec_bytes()) == Some(self.sets@[i as int].1@)
                    &&& forall|j: int|
                        i < j < self.sets@.len() ==> self.sets@[j].0.spec_bytes()
                            != name.spec_bytes()
                },
                None => self.set_named(name.spec_bytes()) is None,
            },
    {
        let mut i = self.sets.len();
        while i > 0
            invariant
                i <= self.sets@.len(),
                forall|j: int|
                    i <= j < self.sets@.len() ==> self.sets@[j].0.spec_bytes() != name.spec_bytes(),
            decreases i,
        {
            if same_name(self.sets[i - 1].0, name) {
                proof {
                    lemma_find_set_last(self.sets@, i - 1);
                }
                return Some(i - 1);
            }
            i -= 1;
        }
        proof {
            lemma_find_set_none(self.sets@, name.spec_bytes());
        }
        None
    }

    /// Adds a phoneme to the named set, creating the set if there is none. A set can not be
    /// created with the name of a phoneme.
    pub fn add_phoneme_to_set(&mut self, class: &'static str, phoneme: Phoneme) -> (r: Result<
        (),
        ElbieError,
    >)
        ensures
            r is Ok <==> (old(self).has_set(class.spec_bytes()) || !old(self).has_phoneme(
                class.spec_bytes(),
            )),
            r is Err ==> r == Err::<(), ElbieError>(ElbieError::PhonemeExistsWithSetName(class))
                && *final(self) == *old(self),
            r is Ok ==> {
                &&& final(self).phoneme_names() == old(self).phoneme_names()
                &&& final(self).normalizes() == old(self).normalizes()
                &&& final(self).has_set(class.spec_bytes())
                &&& forall|x: Seq<u8>|
                    members(final(self).set_named(class.spec_bytes())).contains(x) <==> (members(
                        old(self).set_named(class.spec_bytes()),
                    ).contains(x) || x == phoneme@)
                &&& forall|k: Seq<u8>|
                    k != class.spec_bytes() ==> final(self).set_named(k) == old(self).set_named(k)
            },
    {
        match self.find_set_index(class) {
            Some(i) => {
                let ghost old_sets = self.sets@;
                let (phonemes, mut sets, normalize_phonemes) = self.take_parts();
                let (set_name, mut bag) = sets.remove(i);
                let _ = bag.insert(phoneme);
                let ghost e = (set_name, bag);
                sets.insert(i, (set_name, bag));
                proof {
                    assert(sets@ =~= old_sets.update(i as int, e));
                    lemma_find_set_update(old_sets, i as int, e);
                    assert forall|a: int, b: int| 0 <= a < b < sets@.len() implies (#[trigger] sets@[a]).0.spec_bytes()
                        != (#[trigger] sets@[b]).0.spec_bytes() by {
                        assert(old_sets[a].0.spec_bytes() != old_sets[b].0.spec_bytes());
                    }
                    if PHONEME.spec_bytes() != e.0.spec_bytes() {
                        assert(find_set(sets@, PHONEME.spec_bytes()) == find_set(old_sets, PHONEME.spec_bytes()));
                    }
                }
                *self = Inventory { phonemes, sets, normalize_phonemes };
                Ok(())
            },
            None => {
                if self.phonemes.contains(&Phoneme::new(class)) {
                    return Err(ElbieError::PhonemeExistsWithSetName(class));
                }
                let mut bag = Bag::new();
                let _ = bag.insert(phoneme);
                let ghost old_sets = self.sets@;
                let ghost e = (class, bag);
                self.push_set(class, bag);
                Ok(())
            },
        }
    }

    /// The named set.
    pub fn get_set(&self, set: &'static str) -> (r: Result<&Bag<Phoneme>, ElbieError>)
        ensures
            r is Ok <==> self.has_set(set.spec_bytes()),
            r matches Ok(b) ==> self.set_named(set.spec_bytes()) == Some(b@),
            r is Err ==> r == Err::<&Bag<Phoneme>, ElbieError>(ElbieError::UnknownSet(set)),
    {
        match self.find_set_index(set) {
            Some(i) => Ok(&self.sets[i].1),
            None => Err(ElbieError::UnknownSet(set)),
        }
    }

    /// The phoneme with this name.
    pub fn get_phoneme(&self, phoneme: &'static str) -> (r: Result<Phoneme, ElbieError>)
        ensures
            r is Ok <==> self.has_phoneme(phoneme.spec_bytes()),
            r matches Ok(p) ==> p@ == phoneme.spec_bytes(),
            r is Err ==> r == Err::<Phoneme, ElbieError>(ElbieError::UnknownPhoneme(phoneme)),
    {
        let wanted = Phoneme::new(phoneme);
        match self.phonemes.search(&wanted) {
            crate::bag::Position::Found(i) => Ok(*self.phonemes.get(i)),
            crate::bag::Position::Missing(_) => Err(ElbieError::UnknownPhoneme(phoneme)),
        }
    }

    /// The named set, less the given phonemes.
    pub fn get_set_without(&self, set: &'static str, exclude_phonemes: &[Phoneme]) -> (r: Result<
        Bag<Phoneme>,
        ElbieError,
    >)
        ensures
            r is Ok <==> self.has_set(set.spec_bytes()),
            r matches Ok(b) ==> forall|x: Seq<u8>|
                b@.contains(x) <==> (members(self.set_named(set.spec_bytes())).contains(x)
                    && !crate::bag::views(exclude_phonemes@).contains(x)),
            r is Err ==> r == Err::<Bag<Phoneme>, ElbieError>(ElbieError::UnknownSet(set)),
    {
        let base = self.get_set(set)?;
        let mut result = base.duplicate();
        let mut i: usize = 0;
        while i < exclude_phonemes.len()
            invariant
                i <= exclude_phonemes@.len(),
                self.set_named(set.spec_bytes()) == Some(base@),
                forall|x: Seq<u8>|
                    result@.contains(x) <==> (base@.contains(x) && !crate::bag::views(
                        exclude_phonemes@.take(i as int),
                    ).contains(x)),
            decreases exclude_phonemes@.len() - i,
        {
            let _ = result.remove(&exclude_phonemes[i]);
            proof {
                let prefix = crate::bag::views(exclude_phonemes@.take(i as int));
                let v = exclude_phonemes@[i as int]@;
                assert forall|x: Seq<u8>| prefix.push(v).contains(x) <==> (prefix.contains(x) || x == v) by {
                    if prefix.push(v).contains(x) {
                        let k = choose|k: int| 0 <= k < prefix.push(v).len() && prefix.push(v)[k] == x;
                        if k < prefix.len() {
                            assert(prefix[k] == x);
                        }
                    }
                    if prefix.contains(x) {
                        let k = choose|k: int| 0 <= k < prefix.len() && prefix[k] == x;
                        assert(prefix.push(v)[k] == x);
                    }
                    if x == v {
                        assert(prefix.push(v)[prefix.len() as int] == x);
                    }
                }
                assert(crate::bag::views(exclude_phonemes@.take(i + 1)) =~= crate::bag::views(
                    exclude_phonemes@.take(i as int),
                ).push(exclude_phonemes@[i as int]@));
            }
            i += 1;
        }
        proof {
            assert(exclude_phonemes@.take(i as int) =~= exclude_phonemes@);
        }
        Ok(result)
    }

    /// The sets in the order they were made: each name with the names of its phonemes.
    pub closed spec fn set_entries(&self) -> Seq<(Seq<u8>, Seq<Seq<u8>>)> {
        self.sets@.map_values(|e: (&'static str, Bag<Phoneme>)| (e.0.spec_bytes(), e.1@))
    }

    /// Whether some set of the inventory named `name` holds `x`.
    pub open spec fn some_set_holds(&self, name: Seq<u8>, x: Seq<u8>) -> bool {
        named_in_first(self, self.set_entries().len() as int, name, x)
    }

    /// Whether some set of the inventory holds `x`.
    pub open spec fn in_some_set(&self, x: Seq<u8>) -> bool {
        held_in_first(self, self.set_entries().len() as int, x)
    }

    fn add_known_phoneme(&mut self, phoneme: Phoneme)
        ensures
            forall|x: Seq<u8>| final(self).has_phoneme(x) <==> (old(self).has_phoneme(x) || x == phoneme@),
            forall|k: Seq<u8>| final(self).set_named(k) == old(self).set_named(k),
            final(self).normalizes() == old(self).normalizes(),
            final(self).set_entries() == old(self).set_entries(),
    {
        let (mut phonemes, sets, normalize_phonemes) = self.take_parts();
        let _ = phonemes.insert(phoneme);
        *self = Inventory { phonemes, sets, normalize_phonemes };
    }

    /// Adds the phonemes and sets of another inventory: each phoneme of its sets joins this
    /// inventory and the set of the same name here, and each of its phonemes also joins
    /// `containing_set`. A set that has to be made with the name of a phoneme is an error: it
    /// names a set of `other`, or `containing_set`, that this inventory lacked, and a phoneme
    /// that it had or that `other` brought. On success no set was made with the name of a phoneme
    /// it had, so a set of `other` with members, or `containing_set` where `other` has
    /// phonemes, that is missing here and named like one of its phonemes makes it fail.
    pub fn extend(&mut self, other: &Inventory, containing_set: &'static str) -> (r: Result<(), ElbieError>)
        ensures
            r matches Err(e) ==> e is PhonemeExistsWithSetName,
            r matches Err(e) ==> exists|c: &'static str|
                #![trigger old(self).set_named(c.spec_bytes())]
                e == ElbieError::PhonemeExistsWithSetName(c) && (c == containing_set || other.has_set(
                    c.spec_bytes(),
                )) && old(self).set_named(c.spec_bytes()) is None && (old(self).has_phoneme(c.spec_bytes())
                    || other.in_some_set(c.spec_bytes()) || other.has_phoneme(c.spec_bytes())),
            r is Ok ==> {
                &&& forall|x: Seq<u8>|
                    #[trigger] final(self).has_phoneme(x) <==> (old(self).has_phoneme(x) || other.in_some_set(x)
                        || other.has_phoneme(x))
                &&& forall|k: Seq<u8>|
                    #[trigger] final(self).has_set(k) && old(self).has_phoneme(k) ==> old(self).has_set(k)
                &&& forall|k: Seq<u8>, x: Seq<u8>|
                    #[trigger] members(final(self).set_named(k)).contains(x) <==> (members(old(self).set_named(k)).contains(x)
                        || other.some_set_holds(k, x) || (k == containing_set.spec_bytes() && other.has_phoneme(x)))
            },
    {
        let mut i: usize = 0;
        while i < other.sets.len()
            invariant
                i <= other.sets@.len(),
                other.set_entries().len() == other.sets@.len(),
                forall|k: Seq<u8>| #[trigger] old(self).has_set(k) ==> self.has_set(k),
                forall|k: Seq<u8>| #[trigger] self.has_set(k) && old(self).has_phoneme(k) ==> old(self).has_set(k),
                forall|x: Seq<u8>|
                    #[trigger] self.has_phoneme(x) <==> (old(self).has_phoneme(x) || held_in_first(other, i as int, x)),
                forall|k: Seq<u8>, x: Seq<u8>|
                    #[trigger] members(self.set_named(k)).contains(x) <==> (members(old(self).set_named(k)).contains(x)
                        || named_in_first(other, i as int, k, x)),
            decreases other.sets@.len() - i,
        {
            let name = other.sets[i].0;
            let members_list = other.sets[i].1.items();
            let ghost entry = other.set_entries()[i as int];
            assert(entry == (name.spec_bytes(), other.sets@[i as int].1@));
            let mut m: usize = 0;
            while m < members_list.len()
                invariant
                    i < other.sets@.len(),
                    m <= members_list@.len(),
                    entry == other.set_entries()[i as int],
                    crate::bag::views(members_list@) == entry.1,
                    entry.0 == name.spec_bytes(),
                    forall|k: Seq<u8>| #[trigger] old(self).has_set(k) ==> self.has_set(k),
                    forall|k: Seq<u8>| #[trigger] self.has_set(k) && old(self).has_phoneme(k) ==> old(self).has_set(k),
                    forall|x: Seq<u8>|
                        #[trigger] self.has_phoneme(x) <==> (old(self).has_phoneme(x) || held_in_first(other, i as int, x)
                            || entry.1.take(m as int).contains(x)),
                    forall|k: Seq<u8>, x: Seq<u8>|
                        #[trigger] members(self.set_named(k)).contains(x) <==> (members(old(self).set_named(k)).contains(x)
                            || named_in_first(other, i as int, k, x) || (k == entry.0
                            && entry.1.take(m as int).contains(x))),
                decreases members_list@.len() - m,
            {
                let phoneme = members_list[m];
                assert(entry.1[m as int] == phoneme@);
                let ghost before = *self;
                self.add_known_phoneme(phoneme);
                let ghost mid = *self;
                match self.add_phoneme_to_set(name, phoneme) {
                    Ok(()) => {},
                    Err(e) => {
                        proof {
                            let k = name.spec_bytes();
                            assert(mid.has_phoneme(k) <==> (before.has_phoneme(k) || k == phoneme@));
                            assert(!before.has_set(k));
                            assert(other.has_set(k)) by {
                                lemma_entry_is_set(other, i as int);
                            }
                            assert(entry.1.contains(phoneme@));
                            assert(held_in_first(other, i as int, k) ==> other.in_some_set(k));
                            assert(entry.1.take(m as int).contains(k) ==> entry.1.contains(k));
                            assert(entry.1.contains(k) ==> other.in_some_set(k));
                            assert(!old(self).has_set(k));
                            assert(old(self).set_named(k) is None);
                            assert(old(self).has_phoneme(k) || other.in_some_set(k));
                        }
                        return Err(e);
                    },
                }
                proof {
                    assert forall|x: Seq<u8>| #[trigger] self.has_phoneme(x) <==> (before.has_phoneme(x) || x == phoneme@) by {
                        assert(mid.has_phoneme(x) <==> (before.has_phoneme(x) || x == phoneme@));
                    }
                    assert forall|k: Seq<u8>| #[trigger] self.has_set(k) && old(self).has_phoneme(k) implies old(self).has_set(k) by {
                        assert(before.has_phoneme(k));
                        assert(mid.has_phoneme(k));
                        if k == name.spec_bytes() {
                            assert(mid.has_set(k));
                        } else {
                            assert(self.set_named(k) == mid.set_named(k));
                        }
                        assert(before.has_set(k));
                    }
                    crate::bag::lemma_push_contains(entry.1.take(m as int), phoneme@);
                    assert(entry.1.take(m + 1) =~= entry.1.take(m as int).push(phoneme@));
                }
                m = m + 1;
            }
            proof {
                assert(entry.1.take(m as int) =~= entry.1);
                assert forall|x: Seq<u8>|
                    #![trigger held_in_first(other, i + 1, x)]
                    true implies (held_in_first(other, i + 1, x) <==> (held_in_first(other, i as int, x)
                        || entry.1.contains(x))) by {
                    lemma_first_step(other, i as int, x, x);
                }
                assert forall|k: Seq<u8>, x: Seq<u8>|
                    #![trigger named_in_first(other, i + 1, k, x)]
                    true implies (named_in_first(other, i + 1, k, x) <==> (named_in_first(
                        other,
                        i as int,
                        k,
                        x,
                    ) || (k == entry.0 && entry.1.contains(x)))) by {
                    lemma_first_step(other, i as int, k, x);
                }
            }
            i = i + 1;
        }
        let all = other.phonemes.items();
        let mut m: usize = 0;
        while m < all.len()
            invariant
                m <= all@.len(),
                crate::bag::views(all@) == other.phoneme_names(),
                forall|k: Seq<u8>| #[trigger] old(self).has_set(k) ==> self.has_set(k),
                forall|k: Seq<u8>| #[trigger] self.has_set(k) && old(self).has_phoneme(k) ==> old(self).has_set(k),
                forall|x: Seq<u8>|
                    #[trigger] self.has_phoneme(x) <==> (old(self).has_phoneme(x) || other.in_some_set(x)
                        || other.phoneme_names().take(m as int).contains(x)),
                forall|k: Seq<u8>, x: Seq<u8>|
                    #[trigger] members(self.set_named(k)).contains(x) <==> (members(old(self).set_named(k)).contains(x)
                        || other.some_set_holds(k, x) || (k == containing_set.spec_bytes()
                        && other.phoneme_names().take(m as int).contains(x))),
            decreases all@.len() - m,
        {
            let phoneme = all[m];
            assert(other.phoneme_names()[m as int] == phoneme@);
            let ghost before = *self;
            self.add_known_phoneme(phoneme);
            let ghost mid = *self;
            match self.add_phoneme_to_set(containing_set, phoneme) {
                Ok(()) => {},
                Err(e) => {
                    proof {
                        let k = containing_set.spec_bytes();
                        assert(mid.has_phoneme(k) <==> (before.has_phoneme(k) || k == phoneme@));
                        assert(!before.has_set(k));
                        assert(other.phoneme_names().take(m as int).contains(k) ==> other.has_phoneme(k));
                        assert(other.phoneme_names().contains(phoneme@));
                        assert(!old(self).has_set(k));
                        assert(old(self).set_named(k) is None);
                        assert(old(self).has_phoneme(k) || other.in_some_set(k) || other.has_phoneme(k));
                    }
                    return Err(e);
                },
            }
            proof {
                assert forall|x: Seq<u8>| #[trigger] self.has_phoneme(x) <==> (before.has_phoneme(x) || x == phoneme@) by {
                    assert(mid.has_phoneme(x) <==> (before.has_phoneme(x) || x == phoneme@));
                }
                assert forall|k: Seq<u8>| #[trigger] self.has_set(k) && old(self).has_phoneme(k) implies old(self).has_set(k) by {
                    assert(before.has_phoneme(k));
                    assert(mid.has_phoneme(k));
                    if k == containing_set.spec_bytes() {
                        assert(mid.has_set(k));
                    } else {
                        assert(self.set_named(k) == mid.set_named(k));
                    }
                    assert(before.has_set(k));
                }
                crate::bag::lemma_push_contains(other.phoneme_names().take(m as int), phoneme@);
                assert(other.phoneme_names().take(m + 1) =~= other.phoneme_names().take(m as int).push(phoneme@));
            }
            m = m + 1;
        }
        proof {
            assert(other.phoneme_names().take(m as int) =~= other.phoneme_names());
        }
        Ok(())
    }

    /// True when the phoneme is in the named set.
    pub fn phoneme_is(&self, phoneme: &Phoneme, set: &'static str) -> (r: Result<bool, ElbieError>)
        ensures
            r is Ok <==> self.has_set(set.spec_bytes()),
            r matches Ok(b) ==> b == members(self.set_named(set.spec_bytes())).contains(phoneme@),
            r is Err ==> r == Err::<bool, ElbieError>(ElbieError::UnknownSet(set)),
    {
        Ok(self.get_set(set)?.contains(phoneme))
    }

    /// Chooses a phoneme of the named set at random.
    pub fn pick(&self, set: &'static str, rng: &mut ThreadRng) -> (r: Result<Phoneme, ElbieError>)
        ensures
            r is Ok <==> members(self.set_named(set.spec_bytes())).len() > 0,
            r matches Ok(p) ==> members(self.set_named(set.spec_bytes())).contains(p@),
            r is Err ==> (!self.has_set(set.spec_bytes()) && r == Err::<Phoneme, ElbieError>(
                ElbieError::UnknownSet(set),
            )) || (self.has_set(set.spec_bytes()) && r == Err::<Phoneme, ElbieError>(
                ElbieError::SetIsEmpty(set),
            )),
    {
        match self.get_set(set)?.pick(rng) {
            Some(phoneme) => Ok(*phoneme),
            None => Err(ElbieError::SetIsEmpty(set)),
        }
    }

    /// Chooses a phoneme of the named set at random, other than the given phonemes.
    pub fn pick_except(&self, set: &'static str, exclude_phonemes: &[Phoneme], rng: &mut ThreadRng) -> (r: Result<
        Phoneme,
        ElbieError,
    >)
        ensures
            r matches Ok(p) ==> members(self.set_named(set.spec_bytes())).contains(p@)
                && !crate::bag::views(exclude_phonemes@).contains(p@),
            r is Ok <==> exists|x: Seq<u8>|
                members(self.set_named(set.spec_bytes())).contains(x) && !crate::bag::views(
                    exclude_phonemes@,
                ).contains(x),
            r is Err ==> (!self.has_set(set.spec_bytes()) && r == Err::<Phoneme, ElbieError>(
                ElbieError::UnknownSet(set),
            )) || (self.has_set(set.spec_bytes()) && r == Err::<Phoneme, ElbieError>(
                ElbieError::SetIsEmptyWithFilter(set),
            )),
    {
        let candidates = self.get_set_without(set, exclude_phonemes)?;
        match candidates.pick(rng) {
            Some(phoneme) => Ok(*phoneme),
            None => {
                proof {
                    assert forall|x: Seq<u8>|
                        !(members(self.set_named(set.spec_bytes())).contains(x)
                            && !crate::bag::views(exclude_phonemes@).contains(x)) by {
                        if candidates@.contains(x) {
                            assert(candidates@.len() > 0);
                        }
                    }
                }
                Err(ElbieError::SetIsEmptyWithFilter(set))
            },
        }
    }
}


/// Whether one of the first `n` sets of the inventory holds `x`.
pub open spec fn held_in_first(inventory: &Inventory, n: int, x: Seq<u8>) -> bool {
    exists|j: int| 0 <= j < n && (#[trigger] inventory.set_entries()[j]).1.contains(x)
}

/// Whether one of the first `n` sets of the inventory is named `name` and holds `x`.
pub open spec fn named_in_first(inventory: &Inventory, n: int, name: Seq<u8>, x: Seq<u8>) -> bool {
    exists|j: int|
        0 <= j < n && (#[trigger] inventory.set_entries()[j]).0 == name && inventory.set_entries()[j].1.contains(x)
}

/// The name of each set entry names a set.
proof fn lemma_entry_is_set(inventory: &Inventory, j: int)
    requires
        0 <= j < inventory.set_entries().len(),
    ensures
        inventory.has_set(inventory.set_entries()[j].0),
{
    lemma_find_set_some(inventory.sets@, j);
}

proof fn lemma_first_step(inventory: &Inventory, n: int, name: Seq<u8>, x: Seq<u8>)
    requires
        0 <= n < inventory.set_entries().len(),
    ensures
        held_in_first(inventory, n + 1, x) <==> (held_in_first(inventory, n, x)
            || inventory.set_entries()[n].1.contains(x)),
        named_in_first(inventory, n + 1, name, x) <==> (named_in_first(inventory, n, name, x) || (
        inventory.set_entries()[n].0 == name && inventory.set_entries()[n].1.contains(x))),
{
    if held_in_first(inventory, n + 1, x) {
        let j = choose|j: int| 0 <= j < n + 1 && (#[trigger] inventory.set_entries()[j]).1.contains(x);
        if j < n {
            assert(held_in_first(inventory, n, x));
        }
    }
    if named_in_first(inventory, n + 1, name, x) {
        let j = choose|j: int|
            0 <= j < n + 1 && (#[trigger] inventory.set_entries()[j]).0 == name
                && inventory.set_entries()[j].1.contains(x);
        if j < n {
            assert(named_in_first(inventory, n, name, x));
        }
    }
}

/// `j` is the first of `names` that names no set of `inventory`.
pub open spec fn first_unknown_set(inventory: &Inventory, names: Seq<&'static str>, j: int) -> bool {
    &&& 0 <= j < names.len()
    &&& !inventory.has_set(names[j].spec_bytes())
    &&& forall|i: int| 0 <= i < j ==> inventory.has_set(#[trigger] names[i].spec_bytes())
}

/// `j` is the first of `names` that names no phoneme of `inventory`.
pub open spec fn first_unknown_phoneme(inventory: &Inventory, names: Seq<&'static str>, j: int) -> bool {
    &&& 0 <= j < names.len()
    &&& !inventory.has_phoneme(names[j].spec_bytes())
    &&& forall|i: int| 0 <= i < j ==> inventory.has_phoneme(#[trigger] names[i].spec_bytes())
}

/// The only change between `old` and `new` is a new set `name` with the given contents.
pub open spec fn adds_set(old: &Inventory, new: &Inventory, name: Seq<u8>, contents: spec_fn(Seq<u8>) -> bool) -> bool {
    &&& new.phoneme_names() == old.phoneme_names()
    &&& new.normalizes() == old.normalizes()
    &&& new.has_set(name)
    &&& forall|x: Seq<u8>| members(new.set_named(name)).contains(x) <==> contents(x)
    &&& forall|k: Seq<u8>| k != name ==> new.set_named(k) == old.set_named(k)
}

/// The errors that refuse a new set's name, in the order they are checked.
pub open spec fn refuses_set_name(inventory: &Inventory, name: &'static str, e: ElbieError) -> bool {
    ||| inventory.has_set(name.spec_bytes()) && e == ElbieError::SetAlreadyExists(name)
    ||| !inventory.has_set(name.spec_bytes()) && inventory.has_phoneme(name.spec_bytes())
        && e == ElbieError::PhonemeExistsWithSetName(name)
}

/// How an inventory changes when a phoneme is added to it and to some sets: it gains the
/// phoneme, the `PHONEME` set and the named sets, and each of those sets gains the phoneme.
pub open spec fn adds_phoneme(before: Inventory, after: Inventory, phoneme: &'static str, sets: Seq<&'static str>) -> bool {
    &&& forall|x: Seq<u8>| after.has_phoneme(x) <==> (before.has_phoneme(x) || x == phoneme.spec_bytes())
    &&& after.normalizes() == before.normalizes()
    &&& forall|k: Seq<u8>|
        after.has_set(k) <==> (before.has_set(k) || k == PHONEME.spec_bytes() || name_bytes(sets).contains(k))
    &&& forall|k: Seq<u8>, x: Seq<u8>|
        members(after.set_named(k)).contains(x) <==> (members(before.set_named(k)).contains(x) || (x
            == phoneme.spec_bytes() && (k == PHONEME.spec_bytes() || name_bytes(sets).contains(k))))
}

/// A phoneme added to an inventory is a phoneme of it, and is in the `PHONEME` set and in each
/// set it was added to, so that `phoneme_is` finds it there; whatever else was in a set stays.
pub proof fn lemma_added_phoneme_is_in_its_sets(
    before: Inventory,
    after: Inventory,
    phoneme: &'static str,
    sets: Seq<&'static str>,
    k: int,
    other: Seq<u8>,
    set: Seq<u8>,
)
    requires
        adds_phoneme(before, after, phoneme, sets),
    ensures
        after.has_phoneme(phoneme.spec_bytes()),
        after.has_set(PHONEME.spec_bytes()),
        members(after.set_named(PHONEME.spec_bytes())).contains(phoneme.spec_bytes()),
        0 <= k < sets.len() ==> after.has_set(sets[k].spec_bytes()) && members(
            after.set_named(sets[k].spec_bytes()),
        ).contains(phoneme.spec_bytes()),
        members(before.set_named(set)).contains(other) ==> members(after.set_named(set)).contains(other),
{
    if 0 <= k < sets.len() {
        assert(name_bytes(sets)[k] == sets[k].spec_bytes());
        assert(name_bytes(sets).contains(sets[k].spec_bytes()));
    }
}

/// Loading phonemes and sets of phonemes into an inventory.
pub trait InventoryLoader {
    /// Adds a phoneme, to the `PHONEME` set and to each of the named sets.
    fn add_phoneme(&mut self, phoneme: &'static str, sets: &[&'static str]) -> Result<Phoneme, ElbieError>;

    /// Adds a set holding the phonemes of `base_set` that are in none of `exclude_sets`.
    fn add_difference(&mut self, name: &'static str, base_set: &'static str, exclude_sets: &[&'static str]) -> Result<(), ElbieError>;

    /// Adds a set holding the phonemes that are in all of `sets`.
    fn add_intersection(&mut self, name: &'static str, sets: &[&'static str]) -> Result<(), ElbieError>;

    /// Adds a set holding the phonemes that are in any of `sets`.
    fn add_union(&mut self, name: &'static str, sets: &[&'static str]) -> Result<(), ElbieError>;

    /// Adds a set holding the phonemes of `set`, other than the named phonemes.
    fn add_exclusion(&mut self, name: &'static str, set: &'static str, exclude_phoneme_strs: &[&'static str]) -> Result<(), ElbieError>;
}

impl Inventory {
    /// Checks that a new set may take this name.
    fn check_new_set_name(&self, name: &'static str) -> (r: Result<(), ElbieError>)
        ensures
            r is Ok <==> !self.has_set(name.spec_bytes()) && !self.has_phoneme(name.spec_bytes()),
            r matches Err(e) ==> refuses_set_name(self, name, e),
    {
        if self.find_set_index(name).is_some() {
            Err(ElbieError::SetAlreadyExists(name))
        } else if self.phonemes.contains(&Phoneme::new(name)) {
            Err(ElbieError::PhonemeExistsWithSetName(name))
        } else {
            Ok(())
        }
    }

    /// Adds a new set, whose name is known to be free.
    fn push_set(&mut self, name: &'static str, set: Bag<Phoneme>)
        requires
            !old(self).has_set(name.spec_bytes()),
        ensures
            adds_set(old(self), final(self), name.spec_bytes(), |x: Seq<u8>| set@.contains(x)),
    {
        let ghost old_sets = self.sets@;
        let ghost e = (name, set);
        let (phonemes, mut sets, normalize_phonemes) = self.take_parts();
        sets.push((name, set));
        proof {
            lemma_find_set_push(old_sets, e);
            assert forall|j: int| 0 <= j < old_sets.len() implies old_sets[j].0.spec_bytes() != name.spec_bytes() by {
                if old_sets[j].0.spec_bytes() == name.spec_bytes() {
                    lemma_find_set_some(old_sets, j);
                }
            }
            assert forall|a: int, b: int| 0 <= a < b < sets@.len() implies (#[trigger] sets@[a]).0.spec_bytes()
                != (#[trigger] sets@[b]).0.spec_bytes() by {
                if b < old_sets.len() {
                    assert(old_sets[a].0.spec_bytes() != old_sets[b].0.spec_bytes());
                } else {
                    assert(sets@[b] == e);
                    assert(sets@[a] == old_sets[a]);
                }
            }
            if PHONEME.spec_bytes() != name.spec_bytes() {
                assert(find_set(sets@, PHONEME.spec_bytes()) == find_set(old_sets, PHONEME.spec_bytes()));
            }
        }
        *self = Inventory { phonemes, sets, normalize_phonemes };
    }
}

impl InventoryLoader for Inventory {
    #[verifier::rlimit(60)]
    fn add_phoneme(&mut self, phoneme: &'static str, sets: &[&'static str]) -> (r: Result<Phoneme, ElbieError>)
        ensures
            old(self).has_set(PHONEME.spec_bytes()),
            r is Ok <==> {
                &&& !old(self).has_phoneme(phoneme.spec_bytes())
                &&& !old(self).has_set(phoneme.spec_bytes())
                &&& forall|c: Seq<u8>|
                    #![trigger name_bytes(sets@).contains(c)]
                    name_bytes(sets@).contains(c) ==> (old(self).has_set(c)
                        || (c != phoneme.spec_bytes() && !old(self).has_phoneme(c)))
            },
            r matches Ok(p) ==> p.name == phoneme && adds_phoneme(*old(self), *final(self), phoneme, sets@),
            r matches Err(e) ==> {
                ||| old(self).has_phoneme(phoneme.spec_bytes()) && e == ElbieError::PhonemeAlreadyExists(phoneme)
                    && *final(self) == *old(self)
                ||| !old(self).has_phoneme(phoneme.spec_bytes()) && old(self).has_set(phoneme.spec_bytes())
                    && e == ElbieError::SetExistsWithPhonemeName(phoneme) && *final(self) == *old(self)
                ||| exists|c: &'static str|
                    sets@.contains(c) && e == ElbieError::PhonemeExistsWithSetName(c)
                        && !old(self).has_set(c.spec_bytes()) && (c.spec_bytes() == phoneme.spec_bytes()
                        || old(self).has_phoneme(c.spec_bytes()))
            },
    {
        proof {
            use_type_invariant(&*self);
        }
        let new_phoneme = Phoneme::new(phoneme);
        if self.phonemes.contains(&new_phoneme) {
            return Err(ElbieError::PhonemeAlreadyExists(phoneme));
        }
        if self.find_set_index(phoneme).is_some() {
            return Err(ElbieError::SetExistsWithPhonemeName(phoneme));
        }
        let ghost start = *self;
        self.add_known_phoneme(new_phoneme);
        let ghost added = *self;
        assert(forall|k: Seq<u8>| added.set_named(k) == start.set_named(k));
        match self.add_phoneme_to_set(PHONEME, new_phoneme) {
            Ok(()) => {},
            Err(e) => {
                return Err(e);
            },
        }
        let mut i: usize = 0;
        while i < sets.len()
            invariant
                i <= sets@.len(),
                start == *old(self),
                new_phoneme@ == phoneme.spec_bytes(),
                new_phoneme.name == phoneme,
                !start.has_phoneme(phoneme.spec_bytes()),
                !start.has_set(phoneme.spec_bytes()),
                start.has_set(PHONEME.spec_bytes()),
                forall|j: int| 0 <= j < i ==> (start.has_set(#[trigger] sets@[j].spec_bytes())
                    || (sets@[j].spec_bytes() != phoneme.spec_bytes() && !start.has_phoneme(
                    sets@[j].spec_bytes()))),
                forall|x: Seq<u8>| self.has_phoneme(x) <==> (start.has_phoneme(x) || x == phoneme.spec_bytes()),
                self.normalizes() == start.normalizes(),
                forall|k: Seq<u8>|
                    #![trigger self.set_named(k)]
                    self.has_set(k) <==> (start.has_set(k) || k == PHONEME.spec_bytes()
                        || name_bytes(sets@.take(i as int)).contains(k)),
                forall|k: Seq<u8>, x: Seq<u8>|
                    #![trigger members(self.set_named(k)).contains(x)]
                    members(self.set_named(k)).contains(x) <==> (members(start.set_named(k)).contains(x)
                        || (x == phoneme.spec_bytes() && (k == PHONEME.spec_bytes()
                        || name_bytes(sets@.take(i as int)).contains(k)))),
            decreases sets@.len() - i,
        {
            let class = sets[i];
            let ghost before = *self;
            proof {
                assert(name_bytes(sets@.take(i + 1)) =~= name_bytes(sets@.take(i as int)).push(class.spec_bytes()));
                crate::bag::lemma_push_contains(name_bytes(sets@.take(i as int)), class.spec_bytes());
            }
            match self.add_phoneme_to_set(class, new_phoneme) {
                Ok(()) => {},
                Err(e) => {
                    proof {
                        assert(sets@.contains(class)) by { assert(sets@[i as int] == class); }
                        if start.has_set(class.spec_bytes()) {
                            assert(before.has_set(class.spec_bytes()));
                        }
                        assert(!start.has_set(class.spec_bytes()));
                        assert(name_bytes(sets@)[i as int] == class.spec_bytes());
                        assert(name_bytes(sets@).contains(class.spec_bytes()));
                    }
                    return Err(e);
                },
            }
            proof {
                assert(start.has_set(class.spec_bytes()) || (class.spec_bytes() != phoneme.spec_bytes()
                    && !start.has_phoneme(class.spec_bytes()))) by {
                    if !start.has_set(class.spec_bytes()) {
                        if !before.has_set(class.spec_bytes()) {
                            assert(!before.has_phoneme(class.spec_bytes()));
                        } else {
                            // the set was made earlier in this call: for PHONEME or an earlier class
                            if class.spec_bytes() != PHONEME.spec_bytes() {
                                let j = choose|j: int| 0 <= j < i && name_bytes(sets@.take(i as int))[j] == class.spec_bytes();
                                assert(sets@[j].spec_bytes() == class.spec_bytes());
                            }
                        }
                    }
                }
                assert forall|k: Seq<u8>, x: Seq<u8>|
                    members(self.set_named(k)).contains(x) <==> (members(start.set_named(k)).contains(x)
                        || (x == phoneme.spec_bytes() && (k == PHONEME.spec_bytes()
                        || name_bytes(sets@.take(i + 1)).contains(k)))) by {
                    assert(name_bytes(sets@.take(i + 1)).contains(k) <==> (name_bytes(sets@.take(i as int)).contains(k) || k == class.spec_bytes()));
                    assert(members(before.set_named(k)).contains(x) <==> (members(start.set_named(k)).contains(x)
                        || (x == phoneme.spec_bytes() && (k == PHONEME.spec_bytes()
                        || name_bytes(sets@.take(i as int)).contains(k)))));
                    if k != class.spec_bytes() {
                        assert(self.set_named(k) == before.set_named(k));
                    } else {
                        assert(new_phoneme@ == phoneme.spec_bytes());
                        assert(members(self.set_named(k)).contains(x) <==> (members(before.set_named(k)).contains(x) || x == new_phoneme@));
                    }
                }
                assert forall|k: Seq<u8>|
                    self.has_set(k) <==> (start.has_set(k) || k == PHONEME.spec_bytes()
                        || name_bytes(sets@.take(i + 1)).contains(k)) by {
                    assert(name_bytes(sets@.take(i + 1)).contains(k) <==> (name_bytes(sets@.take(i as int)).contains(k) || k == class.spec_bytes()));
                    if k != class.spec_bytes() {
                        assert(self.set_named(k) == before.set_named(k));
                    }
                }
            }
            i += 1;
        }
        proof {
            assert(sets@.take(i as int) =~= sets@);
            assert forall|c: Seq<u8>|
                #![trigger name_bytes(sets@).contains(c)]
                name_bytes(sets@).contains(c) implies (start.has_set(c)
                    || (c != phoneme.spec_bytes() && !start.has_phoneme(c))) by {
                let j = choose|j: int| 0 <= j < name_bytes(sets@).len() && name_bytes(sets@)[j] == c;
                assert(sets@[j].spec_bytes() == c);
            }
        }
        Ok(new_phoneme)
    }

    #[verifier::loop_isolation(false)]
    fn add_difference(&mut self, name: &'static str, base_set: &'static str, exclude_sets: &[&'static str]) -> (r: Result<(), ElbieError>)
        ensures
            r is Ok <==> {
                &&& !old(self).has_set(name.spec_bytes())
                &&& !old(self).has_phoneme(name.spec_bytes())
                &&& old(self).has_set(base_set.spec_bytes())
                &&& forall|j: int| 0 <= j < exclude_sets@.len() ==> old(self).has_set(#[trigger] exclude_sets@[j].spec_bytes())
            },
            r is Ok ==> adds_set(old(self), final(self), name.spec_bytes(), |x: Seq<u8>|
                members(old(self).set_named(base_set.spec_bytes())).contains(x)
                    && forall|j: int| 0 <= j < exclude_sets@.len() ==> !members(old(self).set_named(#[trigger] exclude_sets@[j].spec_bytes())).contains(x)),
            r matches Err(e) ==> *final(self) == *old(self) && {
                ||| refuses_set_name(old(self), name, e)
                ||| !old(self).has_set(name.spec_bytes()) && !old(self).has_phoneme(name.spec_bytes())
                    && !old(self).has_set(base_set.spec_bytes()) && e == ElbieError::UnknownSet(base_set)
                ||| !old(self).has_set(name.spec_bytes()) && !old(self).has_phoneme(name.spec_bytes())
                    && old(self).has_set(base_set.spec_bytes()) && exists|j: int|
                        first_unknown_set(old(self), exclude_sets@, j) && e == ElbieError::UnknownSet(exclude_sets@[j])
            },
    {
        self.check_new_set_name(name)?;
        let mut set = self.get_set(base_set)?.duplicate();
        let mut i: usize = 0;
        while i < exclude_sets.len()
            invariant
                i <= exclude_sets@.len(),
                self.has_set(base_set.spec_bytes()),
                *self == *old(self),
                forall|j: int| 0 <= j < i ==> self.has_set(#[trigger] exclude_sets@[j].spec_bytes()),
                forall|x: Seq<u8>| set@.contains(x) <==> (members(self.set_named(base_set.spec_bytes())).contains(x)
                    && forall|j: int| 0 <= j < i ==> !members(self.set_named(#[trigger] exclude_sets@[j].spec_bytes())).contains(x)),
            decreases exclude_sets@.len() - i,
        {
            let subset = match self.get_set(exclude_sets[i]) {
                Ok(subset) => subset,
                Err(e) => {
                    assert(first_unknown_set(self, exclude_sets@, i as int));
                    return Err(e);
                },
            };
            set = set.difference(subset);
            i += 1;
        }
        self.push_set(name, set);
        Ok(())
    }

    #[verifier::loop_isolation(false)]
    fn add_intersection(&mut self, name: &'static str, sets: &[&'static str]) -> (r: Result<(), ElbieError>)
        ensures
            r is Ok <==> {
                &&& !old(self).has_set(name.spec_bytes())
                &&& !old(self).has_phoneme(name.spec_bytes())
                &&& sets@.len() > 0
                &&& forall|j: int| 0 <= j < sets@.len() ==> old(self).has_set(#[trigger] sets@[j].spec_bytes())
            },
            r is Ok ==> adds_set(old(self), final(self), name.spec_bytes(), |x: Seq<u8>|
                forall|j: int| 0 <= j < sets@.len() ==> members(old(self).set_named(#[trigger] sets@[j].spec_bytes())).contains(x)),
            r matches Err(e) ==> *final(self) == *old(self) && {
                ||| refuses_set_name(old(self), name, e)
                ||| !old(self).has_set(name.spec_bytes()) && !old(self).has_phoneme(name.spec_bytes())
                    && sets@.len() == 0 && e == ElbieError::SetIsEmpty(name)
                ||| !old(self).has_set(name.spec_bytes()) && !old(self).has_phoneme(name.spec_bytes())
                    && exists|j: int| first_unknown_set(old(self), sets@, j) && e == ElbieError::UnknownSet(sets@[j])
            },
    {
        self.check_new_set_name(name)?;
        if sets.len() == 0 {
            return Err(ElbieError::SetIsEmpty(name));
        }
        let first = match self.get_set(sets[0]) {
            Ok(first) => first,
            Err(e) => {
                assert(first_unknown_set(self, sets@, 0));
                return Err(e);
            },
        };
        let mut set = first.duplicate();
        let mut i: usize = 1;
        while i < sets.len()
            invariant
                1 <= i <= sets@.len(),
                *self == *old(self),
                forall|j: int| 0 <= j < i ==> self.has_set(#[trigger] sets@[j].spec_bytes()),
                forall|x: Seq<u8>| set@.contains(x) <==> (forall|j: int| 0 <= j < i ==> members(self.set_named(#[trigger] sets@[j].spec_bytes())).contains(x)),
            decreases sets@.len() - i,
        {
            let subset = match self.get_set(sets[i]) {
                Ok(subset) => subset,
                Err(e) => {
                    assert(first_unknown_set(self, sets@, i as int));
                    return Err(e);
                },
            };
            set = set.intersection(subset);
            i += 1;
        }
        self.push_set(name, set);
        Ok(())
    }

    #[verifier::loop_isolation(false)]
    fn add_union(&mut self, name: &'static str, sets: &[&'static str]) -> (r: Result<(), ElbieError>)
        ensures
            r is Ok <==> {
                &&& !old(self).has_set(name.spec_bytes())
                &&& !old(self).has_phoneme(name.spec_bytes())
                &&& forall|j: int| 0 <= j < sets@.len() ==> old(self).has_set(#[trigger] sets@[j].spec_bytes())
            },
            r is Ok ==> adds_set(old(self), final(self), name.spec_bytes(), |x: Seq<u8>|
                exists|j: int| 0 <= j < sets@.len() && members(old(self).set_named(#[trigger] sets@[j].spec_bytes())).contains(x)),
            r matches Err(e) ==> *final(self) == *old(self) && {
                ||| refuses_set_name(old(self), name, e)
                ||| !old(self).has_set(name.spec_bytes()) && !old(self).has_phoneme(name.spec_bytes())
                    && exists|j: int| first_unknown_set(old(self), sets@, j) && e == ElbieError::UnknownSet(sets@[j])
            },
    {
        self.check_new_set_name(name)?;
        let mut set = Bag::new();
        let mut i: usize = 0;
        while i < sets.len()
            invariant
                i <= sets@.len(),
                forall|j: int| 0 <= j < i ==> self.has_set(#[trigger] sets@[j].spec_bytes()),
                forall|x: Seq<u8>| set@.contains(x) <==> (exists|j: int| 0 <= j < i && members(self.set_named(#[trigger] sets@[j].spec_bytes())).contains(x)),
                *self == *old(self),
            decreases sets@.len() - i,
        {
            let subset = match self.get_set(sets[i]) {
                Ok(subset) => subset,
                Err(e) => {
                    assert(first_unknown_set(self, sets@, i as int));
                    return Err(e);
                },
            };
            let ghost before = set@;
            set = set.union(subset);
            proof {
                assert forall|x: Seq<u8>| set@.contains(x) <==> (exists|j: int| 0 <= j < i + 1 && members(self.set_named(#[trigger] sets@[j].spec_bytes())).contains(x)) by {
                    if members(self.set_named(sets@[i as int].spec_bytes())).contains(x) {
                        assert(subset@.contains(x));
                    }
                }
            }
            i += 1;
        }
        self.push_set(name, set);
        Ok(())
    }

    #[verifier::loop_isolation(false)]
    fn add_exclusion(&mut self, name: &'static str, set: &'static str, exclude_phoneme_strs: &[&'static str]) -> (r: Result<(), ElbieError>)
        ensures
            r is Ok <==> {
                &&& !old(self).has_set(name.spec_bytes())
                &&& !old(self).has_phoneme(name.spec_bytes())
                &&& forall|j: int| 0 <= j < exclude_phoneme_strs@.len() ==> old(self).has_phoneme(#[trigger] exclude_phoneme_strs@[j].spec_bytes())
                &&& old(self).has_set(set.spec_bytes())
            },
            r is Ok ==> adds_set(old(self), final(self), name.spec_bytes(), |x: Seq<u8>|
                members(old(self).set_named(set.spec_bytes())).contains(x) && !name_bytes(exclude_phoneme_strs@).contains(x)),
            r matches Err(e) ==> *final(self) == *old(self) && {
                ||| refuses_set_name(old(self), name, e)
                ||| !old(self).has_set(name.spec_bytes()) && !old(self).has_phoneme(name.spec_bytes())
                    && exists|j: int| first_unknown_phoneme(old(self), exclude_phoneme_strs@, j)
                        && e == ElbieError::UnknownPhoneme(exclude_phoneme_strs@[j])
                ||| !old(self).has_set(name.spec_bytes()) && !old(self).has_phoneme(name.spec_bytes())
                    && (forall|j: int| 0 <= j < exclude_phoneme_strs@.len() ==> old(self).has_phoneme(#[trigger] exclude_phoneme_strs@[j].spec_bytes()))
                    && !old(self).has_set(set.spec_bytes()) && e == ElbieError::UnknownSet(set)
            },
    {
        self.check_new_set_name(name)?;
        let mut exclude_phonemes: Vec<Phoneme> = Vec::new();
        let mut i: usize = 0;
        while i < exclude_phoneme_strs.len()
            invariant
                i <= exclude_phoneme_strs@.len(),
                forall|j: int| 0 <= j < i ==> self.has_phoneme(#[trigger] exclude_phoneme_strs@[j].spec_bytes()),
                *self == *old(self),
                crate::bag::views(exclude_phonemes@) == name_bytes(exclude_phoneme_strs@.take(i as int)),
            decreases exclude_phoneme_strs@.len() - i,
        {
            let ghost before = exclude_phonemes@;
            let phoneme = match self.get_phoneme(exclude_phoneme_strs[i]) {
                Ok(phoneme) => phoneme,
                Err(e) => {
                    assert(first_unknown_phoneme(self, exclude_phoneme_strs@, i as int));
                    return Err(e);
                },
            };
            exclude_phonemes.push(phoneme);
            proof {
                assert(exclude_phonemes@ == before.push(phoneme));
                assert(crate::bag::views(before.push(phoneme)) =~= crate::bag::views(before).push(phoneme@));
                assert(name_bytes(exclude_phoneme_strs@.take(i + 1)) =~= name_bytes(exclude_phoneme_strs@.take(i as int)).push(exclude_phoneme_strs@[i as int].spec_bytes()));
            }
            i += 1;
        }
        proof {
            assert(exclude_phoneme_strs@.take(i as int) =~= exclude_phoneme_strs@);
        }
        let without = self.get_set_without(set, exclude_phonemes.as_slice())?;
        self.push_set(name, without);
        Ok(())
    }
}

} // verus!
