use itemis::roman::RomanNumber;
use itemis::{ConversionError, RomanNumeral};

#[test]
fn test_valid_roman_numerals() {
    let num1: i32 = "MCMIII"
        .parse::<RomanNumber>()
        .expect("should be able to parse")
        .into();
    assert_eq!(num1, 1903);

    let num2: i32 = "MMVI"
        .parse::<RomanNumber>()
        .expect("should be able to parse")
        .into();
    assert_eq!(num2, 2006);

    let num3: i32 = "MCMXLIV"
        .parse::<RomanNumber>()
        .expect("should be able to parse")
        .into();
    assert_eq!(num3, 1944);
}

#[test]
fn test_invalid_roman_numerals() {
    "CCM".parse::<RomanNumber>().expect_err("invalid number");
    "IIII".parse::<RomanNumber>().expect_err("invalid number");
    "XXXX".parse::<RomanNumber>().expect_err("invalid number");
    "MMMM".parse::<RomanNumber>().expect_err("invalid number");
    "IMIM".parse::<RomanNumber>().expect_err("invalid number");
    "".parse::<RomanNumber>().expect_err("invalid number");
}

#[test]
fn invalid_numeral_carries_the_text() {
    assert_eq!(
        RomanNumber::parse("IIII").unwrap_err(),
        ConversionError::InvalidNumeral("IIII".to_string())
    );
    assert_eq!(
        RomanNumber::parse("").unwrap_err(),
        ConversionError::InvalidNumeral(String::new())
    );
    assert_eq!(
        RomanNumber::parse("XA").unwrap_err(),
        ConversionError::InvalidNumeral("XA".to_string())
    );
}

#[test]
fn lower_case_numeral_text_is_refused() {
    assert!(RomanNumber::parse("mcm").is_err());
}

#[test]
fn extreme_numerals() {
    assert_eq!(RomanNumber::parse("I").unwrap().value(), 1);
    assert_eq!(RomanNumber::parse("MMMCMXCIX").unwrap().value(), 3999);
    assert_eq!(RomanNumber::parse("MMMDCCCLXXXVIII").unwrap().value(), 3888);
    assert_eq!(RomanNumber::parse("IV").unwrap().value(), 4);
    assert_eq!(RomanNumber::parse("IX").unwrap().value(), 9);
    assert_eq!(RomanNumber::parse("XLII").unwrap().value(), 42);
}

#[test]
fn digits_in_either_case() {
    assert_eq!(RomanNumeral::from_char('x'), Ok(RomanNumeral::X));
    assert_eq!(RomanNumeral::from_char('M'), Ok(RomanNumeral::M));
    assert_eq!(
        RomanNumeral::from_char('Q'),
        Err(ConversionError::UnknownDigit("Q".to_string()))
    );
    assert_eq!("d".parse::<RomanNumeral>(), Ok(RomanNumeral::D));
    assert!("XX".parse::<RomanNumeral>().is_err());
    assert_eq!(RomanNumeral::L.value(), 50);
    assert_eq!(RomanNumeral::C.to_char(), 'C');
}

#[test]
fn try_from_digit_sequences() {
    let ok = RomanNumber::try_from(vec![RomanNumeral::X, RomanNumeral::I, RomanNumeral::V])
        .expect("XIV is canonical");
    assert_eq!(ok.value(), 14);
    assert_eq!(
        RomanNumber::try_from(vec![RomanNumeral::I, RomanNumeral::M]).unwrap_err(),
        ConversionError::InvalidNumeral("IM".to_string())
    );
    assert_eq!(
        RomanNumber::try_from(Vec::new()).unwrap_err(),
        ConversionError::InvalidNumeral(String::new())
    );
}

fn plain_value(s: &str) -> i32 {
    let v: Vec<i32> = s
        .chars()
        .map(|c| match c {
            'I' => 1,
            'V' => 5,
            'X' => 10,
            'L' => 50,
            'C' => 100,
            'D' => 500,
            _ => 1000,
        })
        .collect();
    let mut total = 0;
    for i in 0..v.len() {
        if i + 1 < v.len() && v[i] < v[i + 1] {
            total -= v[i];
        } else {
            total += v[i];
        }
    }
    total
}

#[test]
fn grammar_agrees_with_the_pattern() {
    let pattern =
        regex::Regex::new(r"^M{0,3}(CM|CD|D?C{0,3})(XC|XL|L?X{0,3})(IX|IV|V?I{0,3})$").unwrap();
    let letters = ['I', 'V', 'X', 'L', 'C', 'D', 'M'];
    let mut texts: Vec<String> = vec![String::new()];
    let mut frontier: Vec<String> = vec![String::new()];
    for _ in 0..5 {
        let mut next = Vec::new();
        for t in &frontier {
            for c in letters {
                let mut u = t.clone();
                u.push(c);
                next.push(u);
            }
        }
        texts.extend(next.iter().cloned());
        frontier = next;
    }
    for t in &texts {
        let expected = !t.is_empty() && pattern.is_match(t);
        let parsed = RomanNumber::parse(t);
        assert_eq!(parsed.is_ok(), expected, "{t}");
        if let Ok(n) = parsed {
            assert_eq!(n.value(), plain_value(t), "{t}");
        }
    }
}

#[test]
fn every_standard_numeral_round_trips() {
    let ones = ["", "I", "II", "III", "IV", "V", "VI", "VII", "VIII", "IX"];
    let tens = ["", "X", "XX", "XXX", "XL", "L", "LX", "LXX", "LXXX", "XC"];
    let hundreds = ["", "C", "CC", "CCC", "CD", "D", "DC", "DCC", "DCCC", "CM"];
    let thousands = ["", "M", "MM", "MMM"];
    for n in 1..=3999usize {
        let text = format!(
            "{}{}{}{}",
            thousands[n / 1000],
            hundreds[(n / 100) % 10],
            tens[(n / 10) % 10],
            ones[n % 10]
        );
        let value: i32 = text.parse::<RomanNumber>().expect("standard numeral").into();
        assert_eq!(value as usize, n);
    }
}

#[test]
fn digit_names() {
    assert_eq!(RomanNumeral::V.to_string(), "V");
    assert_eq!(RomanNumeral::M.to_string(), "M");
}

#[test]
fn digit_vectors_convert_through_try_into() {
    let ok: Result<RomanNumber, ConversionError> =
        vec![RomanNumeral::C, RomanNumeral::D].try_into();
    let value: i32 = ok.expect("CD is canonical").into();
    assert_eq!(value, 400);
    let bad: Result<RomanNumber, ConversionError> =
        vec![RomanNumeral::V, RomanNumeral::V].try_into();
    assert_eq!(bad.unwrap_err(), ConversionError::InvalidNumeral("VV".to_string()));
}
