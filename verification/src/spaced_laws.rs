//! Laws of the spaced notation: a text that reads as a name is, but for
//! the glyph of its separators, the text that the name is written as.

use vstd::prelude::*;
use vstd::arithmetic::power2::lemma2_to64;
use vstd::arithmetic::power2::lemma_pow2_pos;
use vstd::arithmetic::power2::lemma_pow2_strictly_increases;
use vstd::arithmetic::power2::lemma_pow2_unfold;
use vstd::arithmetic::power2::pow2;
use crate::error::Error;
use crate::rune::all_letters;
use crate::rune::is_letter;
use crate::rune::lemma_letters_of_numeral;
use crate::rune::lemma_name_shape;
use crate::rune::name_value;
use crate::rune::Rune;
use crate::spaced_rune::fault_at;
use crate::spaced_rune::first_fault;
use crate::spaced_rune::is_separator;
use crate::spaced_rune::lemma_name_in_range_is_short;
use crate::spaced_rune::lemma_round_trip;
use crate::spaced_rune::lemma_spaced_prefix;
use crate::spaced_rune::letters_of;
use crate::spaced_rune::parse_spaced;
use crate::spaced_rune::spaced_prefix;
use crate::spaced_rune::spacer_mask;
use crate::spaced_rune::SpacedRune;

verus! {

/// `text` with every separator written as a bullet.
pub open spec fn canonical(text: Seq<char>) -> Seq<char> {
    Seq::new(text.len(), |i: int| if text[i] == '.' {
        '•'
    } else {
        text[i]
    })
}

/// Whether `text` holds no full stop.
pub open spec fn bulleted(text: Seq<char>) -> bool {
    forall|i: int| 0 <= i < text.len() ==> #[trigger] text[i] != '.'
}

/// What holds of a text without a fault: its letters are letters; unless
/// it is empty, it has a letter; and its separators, as a number, tell
/// whether it ends in one.
pub proof fn lemma_mask_bounds(text: Seq<char>)
    requires
        first_fault(text) is None,
    ensures
        all_letters(letters_of(text)),
        text.len() > 0 ==> letters_of(text).len() > 0,
        spacer_mask(text) < pow2(letters_of(text).len()),
        text.len() > 0 && !is_separator(text.last()) ==> spacer_mask(text) < pow2(
            (letters_of(text).len() - 1) as nat,
        ),
        text.len() > 0 && is_separator(text.last()) ==> spacer_mask(text) >= pow2(
            (letters_of(text).len() - 1) as nat,
        ),
    decreases text.len(),
{
    lemma2_to64();
    if text.len() > 0 {
        let init = text.drop_last();
        lemma_mask_bounds(init);
        let count = letters_of(init).len();
        assert(fault_at(text, text.len() - 1) is None);
        if init.len() > 0 {
            assert(init.last() == text[text.len() - 2]);
        }
        if is_letter(text.last()) {
            lemma_pow2_unfold(count + 1);
            assert forall|i: int| 0 <= i < letters_of(text).len() implies is_letter(
                #[trigger] letters_of(text)[i],
            ) by {
                if i < count {
                    assert(letters_of(text)[i] == letters_of(init)[i]);
                }
            }
        } else {
            assert(is_separator(text.last()));
            assert(init.len() > 0);
            assert(count > 0);
            lemma_pow2_unfold(count);
        }
    }
}

/// Writing the separators of a text as bullets changes neither its
/// faults, nor its letters, nor where its separators stand.
pub proof fn lemma_canonical(text: Seq<char>)
    ensures
        bulleted(canonical(text)),
        first_fault(canonical(text)) == first_fault(text),
        letters_of(canonical(text)) == letters_of(text),
        spacer_mask(canonical(text)) == spacer_mask(text),
        name_value(letters_of(canonical(text))) == name_value(letters_of(text)),
        parse_spaced(canonical(text)) == parse_spaced(text),
    decreases text.len(),
{
    let plain = canonical(text);
    if text.len() > 0 {
        lemma_canonical(text.drop_last());
        assert(plain.drop_last() =~= canonical(text.drop_last()));
        assert(is_letter(plain.last()) == is_letter(text.last()));
        assert(is_separator(plain.last()) == is_separator(text.last()));
        if text.len() > 1 {
            assert(is_separator(plain[plain.len() - 2]) == is_separator(text[text.len() - 2]));
        }
        assert(fault_at(plain, plain.len() - 1) == fault_at(text, text.len() - 1));
    }
}

/// Two texts without fault and without full stop that have the same
/// letters and the same separators are the same text.
pub proof fn lemma_same_reading(a: Seq<char>, b: Seq<char>)
    requires
        first_fault(a) is None,
        first_fault(b) is None,
        bulleted(a),
        bulleted(b),
        letters_of(a) == letters_of(b),
        spacer_mask(a) == spacer_mask(b),
    ensures
        a == b,
    decreases a.len() + b.len(),
{
    lemma_mask_bounds(a);
    lemma_mask_bounds(b);
    if a.len() == 0 || b.len() == 0 {
        assert(a.len() == 0 && b.len() == 0);
        assert(a =~= b);
    } else {
        let a0 = a.drop_last();
        let b0 = b.drop_last();
        assert(bulleted(a0)) by {
            assert forall|i: int| 0 <= i < a0.len() implies #[trigger] a0[i] != '.' by {
                assert(a0[i] == a[i]);
            }
        }
        assert(bulleted(b0)) by {
            assert forall|i: int| 0 <= i < b0.len() implies #[trigger] b0[i] != '.' by {
                assert(b0[i] == b[i]);
            }
        }
        assert(fault_at(a, a.len() - 1) is None);
        assert(fault_at(b, b.len() - 1) is None);
        assert(a[a.len() - 1] != '.' && b[b.len() - 1] != '.');
        if is_letter(a.last()) && is_letter(b.last()) {
            let la = letters_of(a0).push(a.last());
            let lb = letters_of(b0).push(b.last());
            assert(la == lb);
            assert(la.last() == lb.last());
            assert(la.drop_last() =~= letters_of(a0));
            assert(lb.drop_last() =~= letters_of(b0));
            lemma_same_reading(a0, b0);
            assert(a =~= a0.push(a.last()));
            assert(b =~= b0.push(b.last()));
        } else if !is_letter(a.last()) && !is_letter(b.last()) {
            lemma_mask_bounds(a0);
            lemma_mask_bounds(b0);
            lemma_same_reading(a0, b0);
            assert(a.last() == '•' && b.last() == '•');
            assert(a =~= a0.push(a.last()));
            assert(b =~= b0.push(b.last()));
        } else {
            assert(false);
        }
    }
}

/// The text that a name is written as holds no full stop.
pub proof fn lemma_text_is_bulleted(name: Seq<char>, spacers: u32, k: nat)
    requires
        all_letters(name),
        k <= name.len(),
    ensures
        bulleted(spaced_prefix(name, spacers, k)),
    decreases k,
{
    if k > 0 {
        lemma_text_is_bulleted(name, spacers, (k - 1) as nat);
        let shorter = spaced_prefix(name, spacers, (k - 1) as nat);
        let text = spaced_prefix(name, spacers, k);
        assert(is_letter(name[k - 1]));
        assert forall|i: int| 0 <= i < text.len() implies #[trigger] text[i] != '.' by {
            if i < shorter.len() {
                assert(text[i] == shorter[i]);
            }
        }
    }
}

/// A text that reads as a spaced name reads as a well-formed one, and
/// that name is written as the text itself, with every separator a
/// bullet.
pub proof fn lemma_text_of_parsed(text: Seq<char>)
    requires
        parse_spaced(text) is Ok,
    ensures
        parse_spaced(text)->Ok_0.well_formed(),
        parse_spaced(text)->Ok_0.text() == canonical(text),
{
    let spaced = parse_spaced(text)->Ok_0;
    let letters = letters_of(text);
    lemma_mask_bounds(text);
    lemma_name_in_range_is_short(letters);
    lemma_letters_of_numeral(letters);
    assert(spaced.rune.name() == letters);
    lemma2_to64();
    assert(spacer_mask(text) < pow2((letters.len() - 1) as nat));
    if letters.len() - 1 < 32 {
        lemma_pow2_strictly_increases((letters.len() - 1) as nat, 32);
    }
    assert(spaced.spacers as nat == spacer_mask(text));
    assert(spaced.well_formed());
    lemma_round_trip(spaced);
    lemma_canonical(text);
    lemma_name_shape(spaced.rune);
    lemma_spaced_prefix(letters, spaced.spacers, letters.len());
    lemma_text_is_bulleted(letters, spaced.spacers, letters.len());
    let written = spaced.text();
    let plain = canonical(text);
    assert(parse_spaced(written) == parse_spaced(plain));
    assert(letters_of(written) == letters_of(plain)) by {
        assert(letters.take(letters.len() as int) =~= letters);
    }
    assert(spacer_mask(written) == spacer_mask(plain)) by {
        assert(parse_spaced(written)->Ok_0.spacers == parse_spaced(plain)->Ok_0.spacers);
        lemma_mask_bounds(written);
        lemma_mask_bounds(plain);
        assert(spacer_mask(written) < pow2(32));
        assert(spacer_mask(plain) < pow2(32));
    }
    lemma_same_reading(written, plain);
}

} // verus!
