use itemis::{ConversionError, NumericSystem};

fn initialize() -> NumericSystem {
    "glob is I
        prok is V
        pish is X
        tegj is L
        glob glob Silver is 34 Credits
        glob prok Gold is 57800 Credits
        pish pish Iron is 3910 Credits"
        .parse::<NumericSystem>()
        .expect("string to be correct")
}

#[test]
fn test1() {
    assert_eq!(
        initialize().convert("how much is pish tegj glob glob ?"),
        Ok("pish tegj glob glob is 42".to_string())
    );
}

#[test]
fn test2() {
    assert_eq!(
        initialize().convert("how many Credits is glob prok Silver ?"),
        Ok("glob prok Silver is 68 Credits".to_string())
    );
}

#[test]
fn test3() {
    assert_eq!(
        initialize().convert("how many Credits is glob prok Gold ?"),
        Ok("glob prok Gold is 57800 Credits".to_string())
    );
}

#[test]
fn test4() {
    assert_eq!(
        initialize().convert("how many Credits is glob prok Iron ?"),
        Ok("glob prok Iron is 782 Credits".to_string())
    );
}

#[test]
fn test5() {
    assert_eq!(
        initialize()
            .convert("how much wood could a woodchuck chuck if a woodchuck could chuck wood ?")
            .map_err(|e| e.message()),
        Err("I have no idea what you are talking about".to_string())
    );
}

#[test]
fn unknown_question_variant() {
    assert_eq!(
        initialize().convert("how much wood could a woodchuck chuck ?"),
        Err(ConversionError::UnknownQuestion)
    );
}

#[test]
fn statements_one_by_one() {
    let mut sys = NumericSystem::new();
    for line in [
        "glob is I",
        "prok is V",
        "pish is X",
        "tegj is L",
        "glob glob Silver is 34 Credits",
        "glob prok Gold is 57800 Credits",
        "pish pish Iron is 3910 Credits",
    ] {
        sys.update(line).expect("statement accepted");
    }
    assert_eq!(
        sys.convert("how much is pish tegj glob glob ?"),
        Ok("pish tegj glob glob is 42".to_string())
    );
    assert_eq!(
        sys.convert("how many Credits is glob prok Iron ?"),
        Ok("glob prok Iron is 782 Credits".to_string())
    );
}

#[test]
fn question_mark_without_space() {
    assert_eq!(
        initialize().convert("how much is pish tegj glob glob?"),
        Ok("pish tegj glob glob is 42".to_string())
    );
    assert_eq!(
        initialize().convert("how much is glob prok"),
        Ok("glob prok is 4".to_string())
    );
}

#[test]
fn idempotent_redefinition() {
    let mut sys = initialize();
    let before_plain = sys.convert("how much is pish tegj glob glob ?");
    let before_priced = sys.convert("how many Credits is glob prok Silver ?");
    sys.update("glob is I").unwrap();
    sys.update("glob glob Silver is 34 Credits").unwrap();
    assert_eq!(sys.convert("how much is pish tegj glob glob ?"), before_plain);
    assert_eq!(sys.convert("how many Credits is glob prok Silver ?"), before_priced);
    // the same rate, written with another quantity
    sys.update("glob Silver is 17 Credits").unwrap();
    assert_eq!(sys.convert("how many Credits is glob prok Silver ?"), before_priced);
}

#[test]
fn redefinition_uses_the_new_digit() {
    let mut sys = initialize();
    sys.update("glob is V").unwrap();
    assert_eq!(
        sys.convert("how much is glob ?"),
        Ok("glob is 5".to_string())
    );
    assert_eq!(
        sys.convert("how much is pish glob ?"),
        Ok("pish glob is 15".to_string())
    );
}

#[test]
fn fractional_prices_are_kept() {
    let mut sys = initialize();
    sys.update("glob glob glob Dirt is 10 Credits").unwrap();
    assert_eq!(
        sys.convert("how many Credits is glob Dirt ?"),
        Ok("glob Dirt is 3.333333333333 Credits".to_string())
    );
    sys.update("glob glob Sand is 5 Credits").unwrap();
    assert_eq!(
        sys.convert("how many Credits is glob Sand ?"),
        Ok("glob Sand is 2.5 Credits".to_string())
    );
    sys.update("glob glob Debt is -5 Credits").unwrap();
    assert_eq!(
        sys.convert("how many Credits is glob Debt ?"),
        Ok("glob Debt is -2.5 Credits".to_string())
    );
}

#[test]
fn unknown_tokens_in_price_statements_are_skipped() {
    let mut sys = initialize();
    sys.update("glob blub glob Copper is 20 Credits").unwrap();
    assert_eq!(
        sys.convert("how many Credits is prok Copper ?"),
        Ok("prok Copper is 50 Credits".to_string())
    );
}

#[test]
fn each_refusal() {
    let mut sys = initialize();
    assert_eq!(
        sys.update("glob means I"),
        Err(ConversionError::MalformedStatement("glob means I".to_string()))
    );
    assert_eq!(
        sys.update("blub is Q"),
        Err(ConversionError::UnknownDigit("Q".to_string()))
    );
    assert_eq!(
        sys.update("glob glob glob glob Tin is 5 Credits"),
        Err(ConversionError::InvalidNumeral("IIII".to_string()))
    );
    assert_eq!(
        sys.update("blub Tin is 5 Credits"),
        Err(ConversionError::InvalidNumeral(String::new()))
    );
    assert_eq!(
        sys.update("glob Tin is many Credits"),
        Err(ConversionError::InvalidAmount("many".to_string()))
    );
    assert_eq!(
        sys.update("glob Tin is 99999999999 Credits"),
        Err(ConversionError::InvalidAmount("99999999999".to_string()))
    );
    assert_eq!(
        sys.convert("how much is glob blub ?"),
        Err(ConversionError::UnknownToken("blub".to_string()))
    );
    assert_eq!(
        sys.convert("how much is glob glob glob glob ?"),
        Err(ConversionError::InvalidNumeral("IIII".to_string()))
    );
    assert_eq!(
        sys.convert("how many Credits is Silver ?"),
        Err(ConversionError::InvalidNumeral(String::new()))
    );
    // a refused statement changes nothing
    assert_eq!(
        sys.convert("how many Credits is glob prok Silver ?"),
        Ok("glob prok Silver is 68 Credits".to_string())
    );
}

#[test]
fn refusal_messages() {
    assert_eq!(
        ConversionError::InvalidNumeral("IIII".to_string()).message(),
        "Invalid Roman Numeral IIII"
    );
    assert_eq!(
        ConversionError::UnknownToken("blub".to_string()).message(),
        "Unknown intergalactic numeral blub"
    );
    assert_eq!(ConversionError::EmptyLeftSide.message(), "Empty left side");
}

#[test]
fn from_lines_stops_at_the_first_refusal() {
    assert_eq!(
        NumericSystem::from_lines("glob is I\nglob Gold is x Credits\nprok is V").unwrap_err(),
        ConversionError::InvalidAmount("x".to_string())
    );
    let sys = NumericSystem::from_lines("glob is I\nprok is V\n").unwrap();
    assert_eq!(sys.convert("how much is glob prok ?"), Ok("glob prok is 4".to_string()));
}

#[test]
fn lines_are_routed_by_their_shape() {
    let mut sys = NumericSystem::new();
    assert_eq!(sys.process("glob is I"), Ok(None));
    assert_eq!(sys.process("glob glob Silver is 34 Credits"), Ok(None));
    assert_eq!(
        sys.process("how many Credits is glob Silver ?"),
        Ok(Some("glob Silver is 17 Credits".to_string()))
    );
    assert_eq!(sys.process("what is glob?"), Ok(Some("glob is 1".to_string())));
    assert_eq!(sys.process("how is it going"), Err(ConversionError::UnknownToken("it".to_string())));
}

#[test]
fn right_side_ends_at_the_next_separator() {
    let mut sys = NumericSystem::new();
    assert_eq!(sys.update("glob is I is V"), Ok(()));
    assert_eq!(sys.convert("how much is glob ?"), Ok("glob is 1".to_string()));
    assert_eq!(sys.update("glob glob Gold is 10 Credits is cheap"), Ok(()));
    assert_eq!(
        sys.convert("how many Credits is glob Gold ?"),
        Ok("glob Gold is 5 Credits".to_string())
    );
}

#[test]
fn unicode_blanks_are_trimmed() {
    let mut sys = NumericSystem::new();
    assert_eq!(sys.update("\u{a0}glob is I\u{3000}"), Ok(()));
    assert_eq!(sys.update("prok is V"), Ok(()));
    assert_eq!(
        sys.convert("how much is glob\u{2003}prok\u{a0}?"),
        Ok("glob\u{2003}prok is 4".to_string())
    );
}

#[test]
fn scenario_text_parses_like_the_lines_applied_in_order() {
    let text = "glob is I\nprok is V\nglob prok Gold is 57800 Credits";
    let parsed = text.parse::<NumericSystem>().expect("accepted");
    let mut stepwise = NumericSystem::new();
    for line in text.lines() {
        stepwise.update(line).unwrap();
    }
    let q = "how many Credits is glob prok Gold ?";
    assert_eq!(parsed.convert(q), stepwise.convert(q));
    assert!("glob is I\n\nprok is V".parse::<NumericSystem>().is_err());
}

#[test]
fn carriage_returns_before_line_feeds_are_dropped() {
    assert_eq!(
        "foo\r\n".parse::<NumericSystem>().unwrap_err(),
        ConversionError::MalformedStatement("foo".to_string())
    );
    let mut stepwise = NumericSystem::new();
    assert_eq!(
        stepwise.update("foo"),
        Err(ConversionError::MalformedStatement("foo".to_string()))
    );
    let sys = "glob is I\r\nprok is V\r\n".parse::<NumericSystem>().unwrap();
    assert_eq!(sys.convert("how much is glob prok ?"), Ok("glob prok is 4".to_string()));
    assert_eq!(
        "foo\r".parse::<NumericSystem>().unwrap_err(),
        ConversionError::MalformedStatement("foo\r".to_string())
    );
}
