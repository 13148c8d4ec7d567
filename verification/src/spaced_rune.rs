//! Token names in spaced notation: letters with separators between them.

use vstd::prelude::*;
use vstd::string::*;
use vstd::arithmetic::power2::*;
use vstd::arithmetic::div_mod::lemma_mod_breakdown;
use vstd::arithmetic::div_mod::lemma_small_mod;
use vstd::bits::lemma_u32_shl_is_mul;
use vstd::bits::lemma_u32_shr_is_div;
use std::str::FromStr;
use crate::error::Error;
use crate::rune::Rune;
use crate::rune::is_letter;
use crate::rune::all_letters;
use crate::rune::name_value;
use crate::rune::numeral;
use crate::rune::names_up_to;
use crate::rune::letter_text;
use crate::rune::valid_places;
use crate::rune::letters_reversed;
use crate::rune::lemma_name_shape;
use crate::rune::lemma_numeral_of_letters;
use crate::rune::lemma_letters_of_numeral;
use crate::rune::lemma_numeral_letters_len;

verus! {

/// Whether `c` is one of the two glyphs that may stand between letters.
pub open spec fn is_separator(c: char) -> bool {
    c == '.' || c == '•'
}

/// The letters of `text`, in order, without what stands between them.
pub open spec fn letters_of(text: Seq<char>) -> Seq<char>
    decreases text.len(),
{
    if text.len() == 0 {
        Seq::empty()
    } else if is_letter(text.last()) {
        letters_of(text.drop_last()).push(text.last())
    } else {
        letters_of(text.drop_last())
    }
}

/// The separators of `text` as a number: each separator adds the power of
/// two whose exponent is the index of the letter it follows.
pub open spec fn spacer_mask(text: Seq<char>) -> nat
    decreases text.len(),
{
    if text.len() == 0 {
        0
    } else if is_separator(text.last()) && letters_of(text.drop_last()).len() > 0 {
        spacer_mask(text.drop_last()) + pow2((letters_of(text.drop_last()).len() - 1) as nat)
    } else {
        spacer_mask(text.drop_last())
    }
}

/// What is wrong with the character at index `i` of `text` in its place, if
/// anything: it is neither letter nor separator, or it is a separator that
/// opens the text or follows another.
pub open spec fn fault_at(text: Seq<char>, i: int) -> Option<Error>
    recommends
        0 <= i < text.len(),
{
    if is_letter(text[i]) {
        None
    } else if !is_separator(text[i]) {
        Some(Error::InvalidCharacter)
    } else if i == 0 {
        Some(Error::LeadingSeparator)
    } else if is_separator(text[i - 1]) {
        Some(Error::DoubleSeparator)
    } else {
        None
    }
}

/// The fault of the first character of `text` that has one.
pub open spec fn first_fault(text: Seq<char>) -> Option<Error>
    decreases text.len(),
{
    if text.len() == 0 {
        None
    } else if first_fault(text.drop_last()) is Some {
        first_fault(text.drop_last())
    } else {
        fault_at(text, text.len() - 1)
    }
}

/// What reading `text` as a spaced name gives. The first faulty character
/// decides the error. A text without one is rejected where it ends in a
/// separator or has no letter, and where its letters spell a number beyond
/// 128 bits.
pub open spec fn parse_spaced(text: Seq<char>) -> Result<SpacedRune, Error> {
    if first_fault(text) is Some {
        Err(first_fault(text)->0)
    } else if text.len() == 0 || is_separator(text.last()) {
        Err(Error::TrailingSeparator)
    } else if name_value(letters_of(text)) > u128::MAX {
        Err(Error::OutOfRange)
    } else {
        Ok(
            (SpacedRune {
                rune: Rune(name_value(letters_of(text)) as u128),
                spacers: spacer_mask(text) as u32,
            }),
        )
    }
}

/// The first `k` letters of `name`, each followed by a bullet where
/// `spacers` has the bit of its index set and the letter is not the last of
/// `name`.
pub open spec fn spaced_prefix(name: Seq<char>, spacers: u32, k: nat) -> Seq<char>
    decreases k,
{
    if k == 0 {
        Seq::empty()
    } else {
        let letter = spaced_prefix(name, spacers, (k - 1) as nat).push(name[k - 1]);
        if k < name.len() && spacer_bit(spacers, (k - 1) as nat) {
            letter.push('•')
        } else {
            letter
        }
    }
}

/// Whether bit `i` of `spacers` is set.
pub open spec fn spacer_bit(spacers: u32, i: nat) -> bool {
    (spacers as nat / pow2(i)) % 2 == 1
}

/// A token name together with the places of its separators: bit `i` of
/// `spacers` stands for a separator after letter `i`.
#[derive(Copy, Clone, Debug, PartialEq, Eq, Structural, PartialOrd, Ord, Hash)]
pub struct SpacedRune {
    pub rune: Rune,
    pub spacers: u32,
}

/// The bit at index `k` is the power of two with exponent `k`.
proof fn lemma_bit_value(k: u32)
    requires
        k < 32,
    ensures
        (1u32 << k) == pow2(k as nat),
        pow2(k as nat) <= 0x8000_0000,
{
    lemma2_to64();
    if k < 31 {
        lemma_pow2_strictly_increases(k as nat, 31);
    }
    lemma_u32_shl_is_mul(1, k);
}

/// Setting a bit above every bit that is set adds its power of two.
proof fn lemma_set_bit(mask: u32, k: u32)
    requires
        k < 32,
        mask < pow2(k as nat),
    ensures
        (mask | (1u32 << k)) == mask + pow2(k as nat),
{
    lemma_bit_value(k);
    let bit = 1u32 << k;
    assert((mask | bit) == mask + bit) by (bit_vector)
        requires
            mask < bit,
            bit == 1u32 << k,
            k < 32,
    ;
}

/// Testing a bit with a shifted one tells whether the bit is set.
proof fn lemma_test_bit(mask: u32, k: u32)
    requires
        k < 32,
    ensures
        (mask & (1u32 << k) != 0) == spacer_bit(mask, k as nat),
{
    assert((mask & (1u32 << k) != 0) == ((mask >> k) % 2 == 1)) by (bit_vector)
        requires
            k < 32,
    ;
    lemma_u32_shr_is_div(mask, k);
}

/// A name of letters whose number fits in 128 bits has at most 28 letters.
pub proof fn lemma_name_in_range_is_short(name: Seq<char>)
    requires
        all_letters(name),
        name_value(name) <= u128::MAX,
    ensures
        name.len() <= 28,
{
    lemma_letters_of_numeral(name);
    assert(names_up_to(28) > u128::MAX + 1) by {
        reveal_with_fuel(names_up_to, 29);
    }
    lemma_numeral_letters_len(numeral(name), 28);
}

/// The first fault of a text is the first fault of each of its beginnings
/// that has one.
pub proof fn lemma_first_fault_stays(text: Seq<char>, k: int)
    requires
        0 <= k <= text.len(),
        first_fault(text.take(k)) is Some,
    ensures
        first_fault(text) == first_fault(text.take(k)),
    decreases text.len(),
{
    if k == text.len() {
        assert(text.take(k) =~= text);
    } else {
        assert(text.drop_last().take(k) =~= text.take(k));
        lemma_first_fault_stays(text.drop_last(), k);
    }
}

/// What the first `k` letters of a name look like in spaced notation: no
/// character is at fault, the letters are those of the name, a separator
/// ends the text only where one follows letter `k - 1`, and the separators
/// are the low bits of `spacers`.
pub proof fn lemma_spaced_prefix(name: Seq<char>, spacers: u32, k: nat)
    requires
        all_letters(name),
        1 <= name.len(),
        k <= name.len(),
    ensures
        first_fault(spaced_prefix(name, spacers, k)) is None,
        letters_of(spaced_prefix(name, spacers, k)) == name.take(k as int),
        k == 0 ==> spaced_prefix(name, spacers, k).len() == 0,
        k > 0 ==> spaced_prefix(name, spacers, k).len() > 0 && (is_separator(
            spaced_prefix(name, spacers, k).last(),
        ) <==> k < name.len() && spacer_bit(spacers, (k - 1) as nat)),
        spacer_mask(spaced_prefix(name, spacers, k)) == (spacers as nat) % pow2(
            if k < name.len() {
                k
            } else {
                (name.len() - 1) as nat
            },
        ),
    decreases k,
{
    lemma2_to64();
    if k == 0 {
        assert(name.take(0) =~= Seq::<char>::empty());
    } else {
        let j = (k - 1) as nat;
        lemma_spaced_prefix(name, spacers, j);
        let shorter = spaced_prefix(name, spacers, j);
        let letter = shorter.push(name[k - 1]);
        assert(is_letter(name[k - 1]));
        assert(letter.drop_last() =~= shorter);
        assert(letters_of(letter) =~= name.take(k as int));
        assert(first_fault(letter) is None);
        assert(spacer_mask(letter) == spacer_mask(shorter));
        if k < name.len() {
            lemma_pow2_pos(j);
            lemma_pow2_unfold(k);
            lemma_mod_breakdown(spacers as int, pow2(j) as int, 2);
            assert(pow2(j) * 2 == pow2(k));
            let bit = (spacers as int / pow2(j) as int) % 2;
            assert(pow2(j) * bit == if bit == 1 { pow2(j) as int } else { 0 }) by (nonlinear_arith)
                requires
                    bit == 0 || bit == 1,
            ;
            if spacer_bit(spacers, j) {
                let spaced = letter.push('•');
                assert(spaced.drop_last() =~= letter);
                assert(spaced[spaced.len() - 2] == name[k - 1]);
                assert(fault_at(spaced, spaced.len() - 1) is None);
            }
        }
    }
}

/// Writing a well-formed spaced name as text and reading the text gives the
/// name and its separators back.
pub proof fn lemma_round_trip(spaced: SpacedRune)
    requires
        spaced.well_formed(),
    ensures
        parse_spaced(spaced.text()) == Ok::<SpacedRune, Error>(spaced),
{
    let name = spaced.rune.name();
    lemma_name_shape(spaced.rune);
    lemma_spaced_prefix(name, spaced.spacers, name.len());
    lemma_numeral_of_letters(spaced.rune.0 as nat + 1);
    assert(name.take(name.len() as int) =~= name);
    lemma_small_mod(spaced.spacers as nat, pow2((name.len() - 1) as nat));
}

impl Default for SpacedRune {
    /// The name `A` without separators.
    fn default() -> (spaced: Self)
        ensures
            spaced == (SpacedRune { rune: Rune(0), spacers: 0 }),
    {
        SpacedRune { rune: Rune(0), spacers: 0 }
    }
}

impl SpacedRune {
    /// A name with its separators.
    pub fn new(rune: Rune, spacers: u32) -> (spaced: Self)
        ensures
            spaced == (SpacedRune { rune, spacers }),
    {
        Self { rune, spacers }
    }

    /// Whether every bit of `spacers` stands for a separator between two
    /// letters of the name.
    pub open spec fn well_formed(self) -> bool {
        (self.spacers as nat) < pow2((self.rune.name().len() - 1) as nat)
    }

    /// The name as text, with a bullet wherever a separator stands between
    /// two letters. Bits of `spacers` at or after the last letter show
    /// nothing.
    pub open spec fn text(self) -> Seq<char> {
        spaced_prefix(self.rune.name(), self.spacers, self.rune.name().len())
    }

    /// The name as text, with its separators written as bullets.
    pub fn to_string(&self) -> (text: String)
        ensures
            text@ == self.text(),
    {
        let places = self.rune.places_reversed();
        let count = places.len();
        proof {
            lemma_name_shape(self.rune);
            reveal_strlit("•");
        }
        let mut text = String::new();
        let mut i: usize = 0;
        while i < count
            invariant
                i <= count,
                count == places@.len(),
                count <= 28,
                valid_places(places@),
                letters_reversed(places@) == self.rune.name(),
                "•"@ == seq!['•'],
                text@ == spaced_prefix(self.rune.name(), self.spacers, i as nat),
            decreases count - i,
        {
            let ghost before = text@;
            text.append(letter_text(places[count - 1 - i]));
            assert(text@ =~= before.push(self.rune.name()[i as int]));
            proof {
                lemma_test_bit(self.spacers, i as u32);
            }
            if i < count - 1 && self.spacers & (1u32 << i) != 0 {
                text.append("•");
                assert(text@ =~= before.push(self.rune.name()[i as int]).push('•'));
            }
            i += 1;
        }
        text
    }
}

impl FromStr for SpacedRune {
    type Err = Error;

    /// Reads a name in spaced notation.
    fn from_str(s: &str) -> (parsed: Result<SpacedRune, Error>)
        ensures
            parsed == parse_spaced(s@),
    {
        broadcast use vstd::string::group_string_axioms;

        let mut letters: Vec<char> = Vec::new();
        let mut spacers: u32 = 0;
        let mut after_separator = false;
        proof {
            lemma2_to64();
        }
        for c in it: s.chars()
            invariant
                it.seq() == s@,
                first_fault(s@.take(it.index())) is None,
                letters@ == letters_of(s@.take(it.index())),
                all_letters(letters@),
                it.index() > 0 ==> letters@.len() > 0,
                after_separator == (it.index() > 0 && is_separator(s@[it.index() - 1])),
                letters@.len() <= 32 ==> spacers == spacer_mask(s@.take(it.index())),
                letters@.len() <= 32 ==> spacers < pow2(letters@.len() as nat),
                0 < letters@.len() <= 32 && !after_separator ==> spacers < pow2(
                    (letters@.len() - 1) as nat,
                ),
        {
            let ghost before = s@.take(it.index());
            let ghost after = s@.take(it.index() + 1);
            proof {
                assert(after.drop_last() =~= before);
                assert(after.last() == c);
                assert(it.index() > 0 ==> after[it.index() - 1] == s@[it.index() - 1]);
                if first_fault(after) is Some {
                    lemma_first_fault_stays(s@, it.index() + 1);
                }
            }
            if 'A' <= c && c <= 'Z' {
                letters.push(c);
                after_separator = false;
                proof {
                    lemma_pow2_unfold(letters@.len() as nat);
                }
            } else if c == '.' || c == '•' {
                if letters.len() == 0 {
                    return Err(Error::LeadingSeparator);
                }
                if after_separator {
                    return Err(Error::DoubleSeparator);
                }
                if letters.len() <= 32 {
                    proof {
                        lemma_set_bit(spacers, (letters.len() - 1) as u32);
                        lemma_pow2_unfold(letters@.len() as nat);
                    }
                    spacers = spacers | (1u32 << (letters.len() - 1));
                }
                after_separator = true;
            } else {
                return Err(Error::InvalidCharacter);
            }
        }
        assert(s@.take(s@.len() as int) =~= s@);
        if letters.len() == 0 || after_separator {
            return Err(Error::TrailingSeparator);
        }
        match Rune::from_letters(&letters) {
            Some(rune) => {
                proof {
                    lemma_name_in_range_is_short(letters@);
                }
                Ok(SpacedRune { rune, spacers })
            },
            None => Err(Error::OutOfRange),
        }
    }
}

} // verus!
