use ord::Error;
use ord::Rune;

#[test]
fn names_of_small_numbers() {
    assert_eq!(Rune(0).to_string(), "A");
    assert_eq!(Rune(1).to_string(), "B");
    assert_eq!(Rune(25).to_string(), "Z");
    assert_eq!(Rune(26).to_string(), "AA");
    assert_eq!(Rune(27).to_string(), "AB");
    assert_eq!(Rune(51).to_string(), "AZ");
    assert_eq!(Rune(52).to_string(), "BA");
    assert_eq!(Rune(701).to_string(), "ZZ");
    assert_eq!(Rune(702).to_string(), "AAA");
}

#[test]
fn name_of_the_largest_number() {
    assert_eq!(Rune(u128::MAX).to_string(), "BCGDENLQRQWDSLRUGSNLBTMFIJAV");
    assert_eq!(Rune(u128::MAX - 1).to_string(), "BCGDENLQRQWDSLRUGSNLBTMFIJAU");
    assert_eq!(Rune(u128::MAX - 2).to_string(), "BCGDENLQRQWDSLRUGSNLBTMFIJAT");
}

#[test]
fn numbers_of_names() {
    assert_eq!("A".parse::<Rune>(), Ok(Rune(0)));
    assert_eq!("Z".parse::<Rune>(), Ok(Rune(25)));
    assert_eq!("AA".parse::<Rune>(), Ok(Rune(26)));
    assert_eq!("BA".parse::<Rune>(), Ok(Rune(52)));
    assert_eq!("ZZ".parse::<Rune>(), Ok(Rune(701)));
    assert_eq!("AAA".parse::<Rune>(), Ok(Rune(702)));
    assert_eq!("BCGDENLQRQWDSLRUGSNLBTMFIJAV".parse::<Rune>(), Ok(Rune(u128::MAX)));
    assert_eq!("".parse::<Rune>(), Ok(Rune(0)));
}

#[test]
fn names_that_are_refused() {
    assert_eq!("a".parse::<Rune>(), Err(Error::InvalidCharacter));
    assert_eq!("A.B".parse::<Rune>(), Err(Error::InvalidCharacter));
    assert_eq!("A0".parse::<Rune>(), Err(Error::InvalidCharacter));
    assert_eq!("BCGDENLQRQWDSLRUGSNLBTMFIJAW".parse::<Rune>(), Err(Error::OutOfRange));
    assert_eq!("BCGDENLQRQWDSLRUGSNLBTMFIJAVA".parse::<Rune>(), Err(Error::OutOfRange));
    assert_eq!("ZZZZZZZZZZZZZZZZZZZZZZZZZZZZZZZZZZZZZZZZ".parse::<Rune>(), Err(Error::OutOfRange));
    assert_eq!("ZZZZZZZZZZZZZZZZZZZZZZZZZZZZZZZZZZZZZZZZ?".parse::<Rune>(), Err(Error::InvalidCharacter));
}

#[test]
fn name_and_number_agree() {
    let mut value: u128 = 0;
    for _ in 0..2000 {
        let name = Rune(value).to_string();
        assert_eq!(name.parse::<Rune>(), Ok(Rune(value)));
        value = value.wrapping_mul(6364136223846793005).wrapping_add(1442695040888963407);
        value = value.rotate_left(17) ^ (value >> 3);
    }
    for value in 0..3000u128 {
        assert_eq!(Rune(value).to_string().parse::<Rune>(), Ok(Rune(value)));
    }
}

#[test]
fn places_come_last_letter_first() {
    assert_eq!(Rune(27).places_reversed(), vec![1u8, 0]);
    assert_eq!(Rune(0).places_reversed(), vec![0u8]);
}
