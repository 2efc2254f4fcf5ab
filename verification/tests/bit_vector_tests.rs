use rath::bit_vector::{to_bytes, Bit};

#[test]
fn test_bit_create() {
    assert_eq!(Bit::try_from(0), Ok(Bit::Zero));
    assert_eq!(Bit::try_from(1), Ok(Bit::One));
    assert_eq!(Bit::try_from(3), Err("Bit can only accept 0 or 1!"));
}

#[test]
fn test_to_bytes() {
    assert_eq!(to_bytes(&vec![Bit::One]), vec![128]);
    assert_eq!(to_bytes(&vec![Bit::One, Bit::One]), vec![192]);
    assert_eq!(
        to_bytes(&vec![
            Bit::One,
            Bit::One,
            Bit::Zero,
            Bit::Zero,
            Bit::Zero,
            Bit::Zero,
            Bit::Zero,
            Bit::Zero,
            Bit::One,
            Bit::Zero,
            Bit::Zero,
            Bit::Zero,
            Bit::Zero,
            Bit::Zero,
            Bit::Zero,
            Bit::Zero,
            Bit::Zero,
            Bit::Zero,
            Bit::Zero,
            Bit::Zero,
            Bit::Zero,
            Bit::Zero,
            Bit::Zero,
            Bit::One
        ]),
        vec![192, 128, 1]
    );
}

#[test]
fn to_bytes_of_nothing_is_empty() {
    assert_eq!(to_bytes(&vec![]), Vec::<u8>::new());
}
