//! Token names: a number in 128 bits, written in letters.

use vstd::prelude::*;
use vstd::string::*;
use std::str::FromStr;
use crate::error::Error;

verus! {

/// Whether `c` is one of the twenty-six letters a name is written in.
pub open spec fn is_letter(c: char) -> bool {
    'A' <= c && c <= 'Z'
}

/// The place of a letter in the alphabet, `A` being 0.
pub open spec fn letter_index(c: char) -> nat
    recommends
        is_letter(c),
{
    (c as int - 'A' as int) as nat
}

/// The letter at place `d` of the alphabet.
pub open spec fn index_letter(d: nat) -> char
    recommends
        d < 26,
{
    (d + 'A' as nat) as char
}

/// Whether every character of `name` is a letter.
pub open spec fn all_letters(name: Seq<char>) -> bool {
    forall|i: int| 0 <= i < name.len() ==> is_letter(#[trigger] name[i])
}

/// The position of `name` in the list of all names, shortest first and
/// alphabetically among names of one length, counted from 1; 0 for the
/// empty name. This is bijective numeration in base 26.
pub open spec fn numeral(name: Seq<char>) -> nat
    decreases name.len(),
{
    if name.len() == 0 {
        0
    } else {
        numeral(name.drop_last()) * 26 + letter_index(name.last()) + 1
    }
}

/// The name at position `m` of that list: the inverse of [`numeral`].
pub open spec fn numeral_letters(m: nat) -> Seq<char>
    decreases m,
{
    if m == 0 {
        Seq::empty()
    } else {
        numeral_letters(((m - 1) / 26) as nat).push(index_letter(((m - 1) % 26) as nat))
    }
}

/// The number that a name stands for: `A` is 0, `Z` is 25, `AA` is 26.
pub open spec fn name_value(name: Seq<char>) -> nat {
    if name.len() == 0 {
        0
    } else {
        (numeral(name) - 1) as nat
    }
}

/// The name that stands for the number `n`.
pub open spec fn value_name(n: nat) -> Seq<char> {
    numeral_letters(n + 1)
}

/// A token name, held as the number it stands for.
#[derive(Copy, Clone, Debug, PartialEq, Eq, Structural, PartialOrd, Ord, Hash)]
pub struct Rune(pub u128);

impl Rune {
    /// The letters of the name.
    pub open spec fn name(self) -> Seq<char> {
        value_name(self.0 as nat)
    }
}

/// Every character of the name of a number is a letter.
pub proof fn lemma_numeral_letters_are_letters(m: nat)
    ensures
        all_letters(numeral_letters(m)),
        m > 0 ==> numeral_letters(m).len() > 0,
    decreases m,
{
    if m > 0 {
        let rest = ((m - 1) / 26) as nat;
        lemma_numeral_letters_are_letters(rest);
        let d = ((m - 1) % 26) as nat;
        assert(is_letter(index_letter(d)));
    }
}

/// Writing a position in letters and reading the letters gives the position back.
pub proof fn lemma_numeral_of_letters(m: nat)
    ensures
        numeral(numeral_letters(m)) == m,
    decreases m,
{
    if m > 0 {
        let rest = ((m - 1) / 26) as nat;
        let d = ((m - 1) % 26) as nat;
        lemma_numeral_of_letters(rest);
        let name = numeral_letters(m);
        assert(name.drop_last() =~= numeral_letters(rest));
        assert(name.last() == index_letter(d));
        assert(letter_index(index_letter(d)) == d);
    }
}

/// Reading a name and writing its position in letters gives the name back.
pub proof fn lemma_letters_of_numeral(name: Seq<char>)
    requires
        all_letters(name),
    ensures
        numeral_letters(numeral(name)) == name,
    decreases name.len(),
{
    if name.len() > 0 {
        let init = name.drop_last();
        lemma_letters_of_numeral(init);
        let d = letter_index(name.last());
        let m = numeral(name);
        assert(is_letter(name.last()));
        assert(d < 26);
        assert((m - 1) / 26 == numeral(init) && (m - 1) % 26 == d as int);
        assert(index_letter(d) == name.last());
        assert(numeral_letters(m) =~= name);
    }
}

/// The number of positions that names of at most `k` letters take up, the
/// empty name included: 1 + 26 + 26^2 + ... + 26^k.
pub open spec fn names_up_to(k: nat) -> nat
    decreases k,
{
    if k == 0 {
        1
    } else {
        26 * names_up_to((k - 1) as nat) + 1
    }
}

/// A position below `names_up_to(k)` is written in at most `k` letters.
pub proof fn lemma_numeral_letters_len(m: nat, k: nat)
    requires
        m < names_up_to(k),
    ensures
        numeral_letters(m).len() <= k,
    decreases k,
{
    if m > 0 {
        assert(k > 0);
        lemma_numeral_letters_len(((m - 1) / 26) as nat, (k - 1) as nat);
    }
}

/// The longest name of a number in 128 bits has 28 letters.
pub const MAX_NAME_LEN: usize = 28;

/// The name of a number in 128 bits has from 1 to 28 letters, all of them
/// letters of the alphabet.
pub proof fn lemma_name_shape(rune: Rune)
    ensures
        1 <= rune.name().len() <= MAX_NAME_LEN,
        all_letters(rune.name()),
{
    lemma_numeral_letters_are_letters(rune.0 as nat + 1);
    assert(names_up_to(28) > u128::MAX + 1) by {
        reveal_with_fuel(names_up_to, 29);
    }
    lemma_numeral_letters_len(rune.0 as nat + 1, 28);
}

/// The value of a name does not shrink when letters are added at its end.
pub proof fn lemma_numeral_grows(name: Seq<char>, k: int)
    requires
        0 <= k <= name.len(),
    ensures
        numeral(name.take(k)) <= numeral(name),
        k < name.len() ==> numeral(name.take(k)) < numeral(name),
    decreases name.len(),
{
    if k == name.len() {
        assert(name.take(k) =~= name);
    } else {
        let init = name.drop_last();
        assert(init.take(k) =~= name.take(k));
        lemma_numeral_grows(init, k);
        assert(numeral(init) * 26 >= numeral(init)) by (nonlinear_arith);
    }
}

/// What reading a name in letters gives: the number it stands for, unless a
/// character is no letter or the number does not fit in 128 bits.
pub open spec fn parse_name(text: Seq<char>) -> Result<Rune, Error> {
    if !all_letters(text) {
        Err(Error::InvalidCharacter)
    } else if name_value(text) > u128::MAX {
        Err(Error::OutOfRange)
    } else {
        Ok(Rune(name_value(text) as u128))
    }
}

/// Whether every number in `places` is a place in the alphabet.
pub open spec fn valid_places(places: Seq<u8>) -> bool {
    forall|i: int| 0 <= i < places.len() ==> #[trigger] places[i] < 26
}

/// The letters at the places in `places`, in reverse order.
pub open spec fn letters_reversed(places: Seq<u8>) -> Seq<char> {
    Seq::new(places.len(), |j: int| index_letter(places[places.len() - 1 - j] as nat))
}

/// The text of the one letter at place `place` of the alphabet.
pub(crate) fn letter_text(place: u8) -> (text: &'static str)
    requires
        place < 26,
    ensures
        text@ == seq![index_letter(place as nat)],
{
    let alphabet = "ABCDEFGHIJKLMNOPQRSTUVWXYZ";
    proof {
        reveal_strlit("ABCDEFGHIJKLMNOPQRSTUVWXYZ");
    }
    let at = place as usize;
    let text = alphabet.substring_ascii(at, at + 1);
    assert(text@ =~= seq![index_letter(place as nat)]);
    text
}

impl Rune {
    /// The number that the letters in `letters` stand for, or `None` where it
    /// does not fit in 128 bits.
    pub(crate) fn from_letters(letters: &Vec<char>) -> (rune: Option<Rune>)
        requires
            all_letters(letters@),
        ensures
            rune == parse_name(letters@).ok(),
            (rune is None) == (name_value(letters@) > u128::MAX),
    {
        let mut value: u128 = 0;
        let mut i: usize = 0;
        while i < letters.len()
            invariant
                i <= letters.len(),
                all_letters(letters@),
                value == name_value(letters@.take(i as int)),
            decreases letters.len() - i,
        {
            let ghost before = letters@.take(i as int);
            let ghost after = letters@.take(i + 1);
            let c = letters[i];
            proof {
                assert(is_letter(letters@[i as int]));
                assert(after.drop_last() =~= before);
                assert(after.last() == c);
                lemma_numeral_grows(letters@, i + 1);
                assert(numeral(before) * 26 >= numeral(before)) by (nonlinear_arith);
            }
            let place = (c as u32 - 'A' as u32) as u128;
            if i > 0 {
                match value.checked_add(1) {
                    Some(v) => {
                        value = v;
                    },
                    None => {
                        return None;
                    },
                }
            }
            match value.checked_mul(26) {
                Some(v) => {
                    value = v;
                },
                None => {
                    return None;
                },
            }
            match value.checked_add(place) {
                Some(v) => {
                    value = v;
                },
                None => {
                    return None;
                },
            }
            i += 1;
        }
        assert(letters@.take(i as int) =~= letters@);
        Some(Rune(value))
    }

    /// The places in the alphabet of the letters of the name, last letter
    /// first.
    pub fn places_reversed(&self) -> (places: Vec<u8>)
        ensures
            valid_places(places@),
            letters_reversed(places@) == self.name(),
    {
        let mut places: Vec<u8> = Vec::new();
        places.push((self.0 % 26) as u8);
        let mut rest: u128 = self.0 / 26;
        assert(self.name() =~= numeral_letters(rest as nat) + letters_reversed(places@));
        while rest > 0
            invariant
                valid_places(places@),
                self.name() == numeral_letters(rest as nat) + letters_reversed(places@),
            decreases rest,
        {
            let ghost before = places@;
            let ghost longer = numeral_letters(rest as nat);
            places.push(((rest - 1) % 26) as u8);
            rest = (rest - 1) / 26;
            assert(longer + letters_reversed(before) =~= numeral_letters(rest as nat)
                + letters_reversed(places@));
        }
        assert(self.name() =~= letters_reversed(places@));
        places
    }

    /// The name in letters.
    pub fn to_string(&self) -> (text: String)
        ensures
            text@ == self.name(),
    {
        let places = self.places_reversed();
        let mut text = String::new();
        let mut left: usize = places.len();
        while left > 0
            invariant
                left <= places@.len(),
                valid_places(places@),
                text@ == letters_reversed(places@).take(places@.len() - left),
            decreases left,
        {
            left -= 1;
            text.append(letter_text(places[left]));
            assert(text@ =~= letters_reversed(places@).take(places@.len() - left));
        }
        assert(letters_reversed(places@).take(places@.len() as int) =~= letters_reversed(places@));
        text
    }
}

impl Default for Rune {
    /// The name `A`.
    fn default() -> (rune: Self)
        ensures
            rune == Rune(0),
    {
        Rune(0)
    }
}

impl FromStr for Rune {
    type Err = Error;

    /// Reads a name in letters.
    fn from_str(s: &str) -> (parsed: Result<Rune, Error>)
        ensures
            parsed == parse_name(s@),
    {
        broadcast use vstd::string::group_string_axioms;

        let mut letters: Vec<char> = Vec::new();
        for c in it: s.chars()
            invariant
                it.seq() == s@,
                letters@ == s@.take(it.index()),
                all_letters(letters@),
        {
            if !('A' <= c && c <= 'Z') {
                assert(!is_letter(s@[it.index()]));
                return Err(Error::InvalidCharacter);
            }
            letters.push(c);
            assert(letters@ =~= s@.take(it.index() + 1));
        }
        assert(letters@ =~= s@);
        match Rune::from_letters(&letters) {
            Some(rune) => Ok(rune),
            None => Err(Error::OutOfRange),
        }
    }
}

} // verus!
