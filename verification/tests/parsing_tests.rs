use face_stack::blending::BlendingMode;
use face_stack::number::Number;
use face_stack::parsing::{
    parse_float, parse_float_list, parse_float_pair, parse_image_dimensions, parse_integer,
    parse_integer_list, parse_size, parse_size_list, parse_size_pair, parse_weight,
    parse_weighted_blending_mode, parse_weighted_float_pair, parse_weighted_size_pair, ParseError,
    ParseErrorKind,
};
use face_stack::units::SizeUnit;

fn refused(kind: ParseErrorKind, token: &str) -> ParseError {
    ParseError { kind, token: token.to_string() }
}

fn number(text: &str) -> Number {
    Number::parse(text).unwrap()
}

fn pixels(text: &str) -> SizeUnit {
    SizeUnit::Pixels(number(text))
}

fn fraction(text: &str) -> SizeUnit {
    SizeUnit::Fraction(number(text))
}

#[test]
fn integer_values() {
    assert_eq!(parse_integer("1024"), Ok(1024));
    assert_eq!(parse_integer("+5"), Ok(5));
    assert_eq!(parse_integer("4294967295"), Ok(u32::MAX));
}

#[test]
fn integer_errors_name_the_text() {
    for text in ["", "-1", "1.5", "abc", "4294967296"] {
        assert_eq!(parse_integer(text), Err(refused(ParseErrorKind::InvalidInteger, text)));
    }
}

#[test]
fn integer_list_values() {
    assert_eq!(parse_integer_list("1,2,3", ','), Ok(vec![1, 2, 3]));
    assert_eq!(parse_integer_list("7", ','), Ok(vec![7]));
    assert_eq!(parse_integer_list("10x20", 'x'), Ok(vec![10, 20]));
}

#[test]
fn integer_list_reports_the_first_bad_piece() {
    assert_eq!(
        parse_integer_list("1,b,c", ','),
        Err(refused(ParseErrorKind::InvalidInteger, "b"))
    );
    assert_eq!(parse_integer_list("1,,3", ','), Err(refused(ParseErrorKind::InvalidInteger, "")));
    assert_eq!(parse_integer_list("", ','), Err(refused(ParseErrorKind::InvalidInteger, "")));
}

#[test]
fn image_dimensions() {
    assert_eq!(parse_image_dimensions("800x600"), Ok((800, 600)));
    assert_eq!(parse_image_dimensions("1024x1024"), Ok((1024, 1024)));
    assert_eq!(parse_image_dimensions("0x0"), Ok((0, 0)));
    assert_eq!(parse_image_dimensions("+1x+2"), Ok((1, 2)));
}

#[test]
fn image_dimensions_need_two_integers() {
    assert_eq!(
        parse_image_dimensions("800"),
        Err(refused(ParseErrorKind::InvalidDimensions, "800"))
    );
    assert_eq!(
        parse_image_dimensions("1x2x3"),
        Err(refused(ParseErrorKind::InvalidDimensions, "1x2x3"))
    );
}

#[test]
fn image_dimensions_with_a_bad_integer() {
    assert_eq!(
        parse_image_dimensions("800x"),
        Err(refused(ParseErrorKind::InvalidInteger, ""))
    );
    assert_eq!(
        parse_image_dimensions("800X600"),
        Err(refused(ParseErrorKind::InvalidInteger, "800X600"))
    );
    assert_eq!(
        parse_image_dimensions("8.5x6"),
        Err(refused(ParseErrorKind::InvalidInteger, "8.5"))
    );
    assert_eq!(
        parse_image_dimensions("ax2x3"),
        Err(refused(ParseErrorKind::InvalidInteger, "a"))
    );
    assert_eq!(parse_image_dimensions(""), Err(refused(ParseErrorKind::InvalidInteger, "")));
}

#[test]
fn float_values() {
    assert_eq!(parse_float("0.5"), Ok(number("0.5")));
    assert_eq!(parse_float("-2e3"), Ok(number("-2e3")));
    assert_eq!(parse_float("x"), Err(refused(ParseErrorKind::InvalidFloat, "x")));
    assert_eq!(parse_float(""), Err(refused(ParseErrorKind::InvalidFloat, "")));
}

#[test]
fn float_list_values() {
    assert_eq!(parse_float_list("1-2.5", '-'), Ok(vec![number("1"), number("2.5")]));
    assert_eq!(
        parse_float_list("1-x-y", '-'),
        Err(refused(ParseErrorKind::InvalidFloat, "x"))
    );
}

#[test]
fn float_pair_of_one_number_is_both_ends() {
    assert_eq!(parse_float_pair("1.0"), Ok((number("1.0"), number("1.0"))));
    assert_eq!(parse_float_pair("0.5"), Ok((number("0.5"), number("0.5"))));
}

#[test]
fn float_pair_of_two_numbers() {
    assert_eq!(parse_float_pair("0.9-1.0"), Ok((number("0.9"), number("1.0"))));
    assert_eq!(parse_float_pair("+1-.5"), Ok((number("+1"), number(".5"))));
}

#[test]
fn float_pair_of_three_numbers() {
    assert_eq!(
        parse_float_pair("1-2-3"),
        Err(refused(ParseErrorKind::InvalidFloatRange, "1-2-3"))
    );
}

#[test]
fn float_pair_cannot_hold_a_minus_sign() {
    assert_eq!(parse_float_pair("-5"), Err(refused(ParseErrorKind::InvalidFloat, "")));
    assert_eq!(parse_float_pair("1--2"), Err(refused(ParseErrorKind::InvalidFloat, "")));
    assert_eq!(parse_float_pair("1e-5"), Err(refused(ParseErrorKind::InvalidFloat, "1e")));
}

#[test]
fn float_pair_bad_piece_comes_before_the_count() {
    assert_eq!(parse_float_pair("1-b-3"), Err(refused(ParseErrorKind::InvalidFloat, "b")));
}

#[test]
fn size_in_pixels() {
    assert_eq!(parse_size("37"), Ok(pixels("37")));
    assert_eq!(parse_size("12.6"), Ok(pixels("12.6")));
}

#[test]
fn size_as_a_share() {
    assert_eq!(parse_size("50%"), Ok(fraction("50")));
    assert_eq!(parse_size("12.5%"), Ok(fraction("12.5")));
    assert_eq!(parse_size("100%"), Ok(fraction("100")));
}

#[test]
fn size_errors() {
    assert_eq!(parse_size("%"), Err(refused(ParseErrorKind::InvalidFraction, "%")));
    assert_eq!(parse_size("a%"), Err(refused(ParseErrorKind::InvalidFraction, "a%")));
    assert_eq!(parse_size("5%%"), Err(refused(ParseErrorKind::InvalidFraction, "5%%")));
    assert_eq!(parse_size(""), Err(refused(ParseErrorKind::InvalidPixels, "")));
    assert_eq!(parse_size("px"), Err(refused(ParseErrorKind::InvalidPixels, "px")));
    assert_eq!(parse_size("%5"), Err(refused(ParseErrorKind::InvalidPixels, "%5")));
}

#[test]
fn size_list_values() {
    assert_eq!(parse_size_list("10-20%", '-'), Ok(vec![pixels("10"), fraction("20")]));
    assert_eq!(
        parse_size_list("10-x%-y", '-'),
        Err(refused(ParseErrorKind::InvalidFraction, "x%"))
    );
    assert_eq!(
        parse_size_list("10-y-x%", '-'),
        Err(refused(ParseErrorKind::InvalidPixels, "y"))
    );
}

#[test]
fn size_pairs() {
    assert_eq!(parse_size_pair("100%"), Ok((fraction("100"), fraction("100"))));
    assert_eq!(parse_size_pair("90%-100%"), Ok((fraction("90"), fraction("100"))));
    assert_eq!(parse_size_pair("10-20"), Ok((pixels("10"), pixels("20"))));
    assert_eq!(parse_size_pair("2"), Ok((pixels("2"), pixels("2"))));
    assert_eq!(parse_size_pair("5-10%"), Ok((pixels("5"), fraction("10"))));
}

#[test]
fn size_pair_errors() {
    assert_eq!(
        parse_size_pair("1-2-3"),
        Err(refused(ParseErrorKind::InvalidSizeRange, "1-2-3"))
    );
    assert_eq!(parse_size_pair("1-"), Err(refused(ParseErrorKind::InvalidPixels, "")));
    assert_eq!(parse_size_pair("1-%"), Err(refused(ParseErrorKind::InvalidFraction, "%")));
}

#[test]
fn weight_defaults_to_one() {
    assert_eq!(parse_weight("screen"), Ok(("screen", number("1"))));
    assert_eq!(parse_weight(""), Ok(("", number("1"))));
}

#[test]
fn weight_after_the_at_sign() {
    assert_eq!(parse_weight("screen@2"), Ok(("screen", number("2"))));
    assert_eq!(parse_weight("1-2@0.5"), Ok(("1-2", number("0.5"))));
    assert_eq!(parse_weight("@3"), Ok(("", number("3"))));
}

#[test]
fn weight_must_be_a_number() {
    assert_eq!(parse_weight("a@b"), Err(refused(ParseErrorKind::InvalidFloat, "b")));
    assert_eq!(parse_weight("a@"), Err(refused(ParseErrorKind::InvalidFloat, "")));
}

#[test]
fn weight_must_be_above_zero() {
    for weight in ["0", "0.0", "-1", "-0.5", "0e9", "-1e3"] {
        let text = format!("a@{}", weight);
        assert_eq!(
            parse_weight(&text),
            Err(refused(ParseErrorKind::NonPositiveWeight, weight)),
            "{:?}",
            text
        );
    }
}

#[test]
fn words_for_no_decimal_are_refused() {
    for word in ["inf", "infinity", "nan", "NaN", "+inf"] {
        assert_eq!(parse_float(word), Err(refused(ParseErrorKind::InvalidFloat, word)));
        assert_eq!(parse_size(word), Err(refused(ParseErrorKind::InvalidPixels, word)));
        let share = format!("{}%", word);
        assert_eq!(parse_size(&share), Err(refused(ParseErrorKind::InvalidFraction, &share)));
        let weighted = format!("1@{}", word);
        assert_eq!(parse_weight(&weighted), Err(refused(ParseErrorKind::InvalidFloat, word)));
        assert_eq!(
            parse_weighted_float_pair(word),
            Err(refused(ParseErrorKind::InvalidFloat, word))
        );
    }
    assert_eq!(parse_float_pair("0.5-nan"), Err(refused(ParseErrorKind::InvalidFloat, "nan")));
}

#[test]
fn only_one_weight() {
    assert_eq!(parse_weight("a@1@2"), Err(refused(ParseErrorKind::TooManyWeights, "a@1@2")));
    assert_eq!(parse_weight("@@"), Err(refused(ParseErrorKind::TooManyWeights, "@@")));
}

#[test]
fn weighted_size_pairs() {
    let parsed = parse_weighted_size_pair("1-2@1").unwrap();
    assert_eq!(parsed.value, (pixels("1"), pixels("2")));
    assert_eq!(parsed.weight, number("1"));
    let parsed = parse_weighted_size_pair("10%").unwrap();
    assert_eq!(parsed.value, (fraction("10"), fraction("10")));
    assert_eq!(parsed.weight, number("1"));
    let parsed = parse_weighted_size_pair("5-10%@2").unwrap();
    assert_eq!(parsed.value, (pixels("5"), fraction("10")));
    assert_eq!(parsed.weight, number("2"));
    let parsed = parse_weighted_size_pair("0%-100%").unwrap();
    assert_eq!(parsed.value, (fraction("0"), fraction("100")));
}

#[test]
fn weighted_size_pair_errors() {
    assert_eq!(
        parse_weighted_size_pair("1-2@x"),
        Err(refused(ParseErrorKind::InvalidFloat, "x"))
    );
    assert_eq!(
        parse_weighted_size_pair("1-2-3@1"),
        Err(refused(ParseErrorKind::InvalidSizeRange, "1-2-3"))
    );
    assert_eq!(
        parse_weighted_size_pair("a@1"),
        Err(refused(ParseErrorKind::InvalidPixels, "a"))
    );
    assert_eq!(
        parse_weighted_size_pair("1@2@3"),
        Err(refused(ParseErrorKind::TooManyWeights, "1@2@3"))
    );
    assert_eq!(
        parse_weighted_size_pair("1@0"),
        Err(refused(ParseErrorKind::NonPositiveWeight, "0"))
    );
}

#[test]
fn weight_error_comes_before_value_error() {
    assert_eq!(
        parse_weighted_size_pair("bad@worse"),
        Err(refused(ParseErrorKind::InvalidFloat, "worse"))
    );
    assert_eq!(
        parse_weighted_float_pair("bad@worse"),
        Err(refused(ParseErrorKind::InvalidFloat, "worse"))
    );
    assert_eq!(
        parse_weighted_blending_mode("bad@worse"),
        Err(refused(ParseErrorKind::InvalidFloat, "worse"))
    );
}

#[test]
fn weighted_float_pairs() {
    let parsed = parse_weighted_float_pair("1-2@1").unwrap();
    assert_eq!(parsed.value, (number("1"), number("2")));
    assert_eq!(parsed.weight, number("1"));
    let parsed = parse_weighted_float_pair("10.2").unwrap();
    assert_eq!(parsed.value, (number("10.2"), number("10.2")));
    assert_eq!(parsed.weight, number("1"));
    let parsed = parse_weighted_float_pair("5.2-10@2").unwrap();
    assert_eq!(parsed.value, (number("5.2"), number("10")));
    assert_eq!(parsed.weight, number("2"));
    let parsed = parse_weighted_float_pair("0.5").unwrap();
    assert_eq!(parsed.value, (number("0.5"), number("0.5")));
}

#[test]
fn weighted_float_pair_errors() {
    assert_eq!(
        parse_weighted_float_pair("1-2-3"),
        Err(refused(ParseErrorKind::InvalidFloatRange, "1-2-3"))
    );
    assert_eq!(
        parse_weighted_float_pair("1-x@2"),
        Err(refused(ParseErrorKind::InvalidFloat, "x"))
    );
    assert_eq!(
        parse_weighted_float_pair("1@-2"),
        Err(refused(ParseErrorKind::NonPositiveWeight, "-2"))
    );
    assert_eq!(parse_weighted_float_pair(""), Err(refused(ParseErrorKind::InvalidFloat, "")));
}

#[test]
fn weighted_blending_modes() {
    let parsed = parse_weighted_blending_mode("normal").unwrap();
    assert_eq!(parsed.value, BlendingMode::Normal);
    assert_eq!(parsed.weight, number("1"));
    let parsed = parse_weighted_blending_mode("screen@2").unwrap();
    assert_eq!(parsed.value, BlendingMode::Screen);
    assert_eq!(parsed.weight, number("2"));
    let parsed = parse_weighted_blending_mode("color-dodge@0.25").unwrap();
    assert_eq!(parsed.value, BlendingMode::ColorDodge);
    assert_eq!(parsed.weight, number("0.25"));
}

#[test]
fn weighted_blending_mode_errors() {
    assert_eq!(
        parse_weighted_blending_mode("shiny"),
        Err(refused(ParseErrorKind::UnknownBlendingMode, "shiny"))
    );
    assert_eq!(
        parse_weighted_blending_mode("Normal@1"),
        Err(refused(ParseErrorKind::UnknownBlendingMode, "Normal"))
    );
    assert_eq!(
        parse_weighted_blending_mode("@1"),
        Err(refused(ParseErrorKind::UnknownBlendingMode, ""))
    );
    assert_eq!(
        parse_weighted_blending_mode("normal@0"),
        Err(refused(ParseErrorKind::NonPositiveWeight, "0"))
    );
    assert_eq!(
        parse_weighted_blending_mode("normal@1@1"),
        Err(refused(ParseErrorKind::TooManyWeights, "normal@1@1"))
    );
}

#[test]
fn weighted_value_clone_keeps_both_parts() {
    let parsed = parse_weighted_float_pair("1-2@3").unwrap();
    assert_eq!(parsed.clone(), parsed);
}

#[test]
fn descriptions() {
    let kinds = [
        (ParseErrorKind::InvalidInteger, "Could not parse integer value"),
        (ParseErrorKind::InvalidDimensions, "Dimensions should use WIDTHxHEIGHT"),
        (ParseErrorKind::InvalidFloat, "Could not parse float value"),
        (ParseErrorKind::InvalidFloatRange, "Float range must be 1-2"),
        (ParseErrorKind::InvalidFraction, "Could not parse fraction value"),
        (ParseErrorKind::InvalidPixels, "Could not parse pixel value"),
        (ParseErrorKind::InvalidSizeRange, "Size range length must be 2"),
        (ParseErrorKind::TooManyWeights, "Value cannot contain more than one weight value"),
        (ParseErrorKind::NonPositiveWeight, "Weight must be a number above zero"),
        (ParseErrorKind::UnknownBlendingMode, "Cannot parse value variant for blending mode"),
    ];
    for (kind, text) in kinds {
        assert_eq!(kind.description(), text);
    }
}

#[test]
fn message_names_the_refused_text() {
    let error = parse_image_dimensions("8x6x4").unwrap_err();
    assert_eq!(error.message(), "Dimensions should use WIDTHxHEIGHT: \"8x6x4\"");
    let error = parse_weighted_blending_mode("glow@2").unwrap_err();
    assert_eq!(error.message(), "Cannot parse value variant for blending mode: \"glow\"");
    assert_eq!(error.clone(), error);
}
