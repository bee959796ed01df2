use word_grid::spelling::encode;

#[test]
fn numbers_are_spelled_in_english() {
    assert_eq!(encode(0), "zero");
    assert_eq!(encode(7), "seven");
    assert_eq!(encode(17), "seventeen");
    assert_eq!(encode(20), "twenty");
    assert_eq!(encode(42), "forty-two");
    assert_eq!(encode(99), "ninety-nine");
    assert_eq!(encode(100), "one hundred");
    assert_eq!(encode(101), "one hundred one");
    assert_eq!(encode(305), "three hundred five");
    assert_eq!(encode(999), "nine hundred ninety-nine");
    assert_eq!(encode(1000), "one thousand");
    assert_eq!(encode(1001), "one thousand one");
    assert_eq!(encode(12345), "twelve thousand three hundred forty-five");
    assert_eq!(encode(999999), "nine hundred ninety-nine thousand nine hundred ninety-nine");
    assert_eq!(encode(1000000), "one million");
    assert_eq!(encode(2000001), "two million one");
    assert_eq!(encode(1000000000000000000), "one quintillion");
    assert_eq!(encode(18446744073709551615), "eighteen quintillion four hundred forty-six quadrillion seven hundred forty-four trillion seventy-three billion seven hundred nine million five hundred fifty-one thousand six hundred fifteen");
}

#[test]
fn first_twenty_five_numbers() {
    let words: Vec<String> = (0..25).map(encode).collect();
    assert_eq!(words[0], "zero");
    assert_eq!(words[13], "thirteen");
    assert_eq!(words[21], "twenty-one");
    assert_eq!(words[24], "twenty-four");
}
