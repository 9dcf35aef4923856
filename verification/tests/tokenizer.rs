use calculator::{tokenize, TokenKind, TokenizeError};

#[test]
fn digits_make_one_number() {
    assert_eq!(tokenize("0"), Ok(vec![TokenKind::Number(0)]));
    assert_eq!(tokenize("42"), Ok(vec![TokenKind::Number(42)]));
    assert_eq!(tokenize("255"), Ok(vec![TokenKind::Number(255)]));
}

#[test]
fn each_operator_is_one_token() {
    assert_eq!(
        tokenize("+-*/"),
        Ok(vec![TokenKind::Plus, TokenKind::Minus, TokenKind::Asterisk, TokenKind::Slash])
    );
}

#[test]
fn tokens_keep_the_order_of_the_line() {
    assert_eq!(
        tokenize("12+3 * 4"),
        Ok(vec![
            TokenKind::Number(12),
            TokenKind::Plus,
            TokenKind::Number(3),
            TokenKind::Asterisk,
            TokenKind::Number(4),
        ])
    );
}

#[test]
fn tokenizer_does_not_judge_the_grammar() {
    assert_eq!(tokenize("+ 1"), Ok(vec![TokenKind::Plus, TokenKind::Number(1)]));
    assert_eq!(tokenize("1 2"), Ok(vec![TokenKind::Number(1), TokenKind::Number(2)]));
    assert_eq!(tokenize("/"), Ok(vec![TokenKind::Slash]));
}

#[test]
fn spaces_separate_and_vanish() {
    assert_eq!(tokenize(" 1 + 1 "), tokenize("1+1"));
    assert_eq!(tokenize("   7"), Ok(vec![TokenKind::Number(7)]));
    assert_eq!(tokenize("7   "), Ok(vec![TokenKind::Number(7)]));
    assert_eq!(tokenize("1 2"), Ok(vec![TokenKind::Number(1), TokenKind::Number(2)]));
    assert_eq!(tokenize("12"), Ok(vec![TokenKind::Number(12)]));
}

#[test]
fn a_space_anywhere_between_tokens_changes_nothing() {
    let line = "10+2*3-4/5";
    let expected = tokenize(line);
    for i in 0..=line.len() {
        let digit_before = i > 0 && line.as_bytes()[i - 1].is_ascii_digit();
        let digit_after = i < line.len() && line.as_bytes()[i].is_ascii_digit();
        if digit_before && digit_after {
            continue;
        }
        let mut spaced = String::from(&line[..i]);
        spaced.push(' ');
        spaced.push_str(&line[i..]);
        assert_eq!(tokenize(&spaced), expected);
    }
}

#[test]
fn no_token_is_empty_input() {
    assert_eq!(tokenize(""), Err(TokenizeError::EmptyInput));
    assert_eq!(tokenize(" "), Err(TokenizeError::EmptyInput));
    assert_eq!(tokenize("     "), Err(TokenizeError::EmptyInput));
}

#[test]
fn other_bytes_are_unexpected() {
    assert_eq!(tokenize("&"), Err(TokenizeError::UnexpectedCharacter));
    assert_eq!(tokenize("1 & 2"), Err(TokenizeError::UnexpectedCharacter));
    assert_eq!(tokenize("a"), Err(TokenizeError::UnexpectedCharacter));
    assert_eq!(tokenize("1\n"), Err(TokenizeError::UnexpectedCharacter));
    assert_eq!(tokenize("1\t2"), Err(TokenizeError::UnexpectedCharacter));
    assert_eq!(tokenize("1.5"), Err(TokenizeError::UnexpectedCharacter));
    assert_eq!(tokenize("١"), Err(TokenizeError::UnexpectedCharacter));
}

#[test]
fn value_above_255_is_too_large() {
    assert_eq!(tokenize("256"), Err(TokenizeError::NumberTooLarge));
    assert_eq!(tokenize("1000"), Err(TokenizeError::NumberTooLarge));
    assert_eq!(tokenize("1 + 300"), Err(TokenizeError::NumberTooLarge));
    assert_eq!(tokenize("65536"), Err(TokenizeError::NumberTooLarge));
    assert_eq!(tokenize("4294967296"), Err(TokenizeError::NumberTooLarge));
    assert_eq!(tokenize("18446744073709551616"), Err(TokenizeError::NumberTooLarge));
}

#[test]
fn zeros_in_front_keep_the_value() {
    assert_eq!(tokenize("00"), Ok(vec![TokenKind::Number(0)]));
    assert_eq!(tokenize("0012"), Ok(vec![TokenKind::Number(12)]));
    assert_eq!(tokenize("000255"), Ok(vec![TokenKind::Number(255)]));
    assert_eq!(tokenize("000256"), Err(TokenizeError::NumberTooLarge));
}

#[test]
fn error_that_comes_first_is_reported() {
    assert_eq!(tokenize("256 &"), Err(TokenizeError::NumberTooLarge));
    assert_eq!(tokenize("& 256"), Err(TokenizeError::UnexpectedCharacter));
    assert_eq!(tokenize("  &"), Err(TokenizeError::UnexpectedCharacter));
}

#[test]
fn every_byte_value_is_read_from_its_digits() {
    for n in 0..=255u8 {
        assert_eq!(tokenize(&format!("{}", n)), Ok(vec![TokenKind::Number(n)]));
    }
    for n in 256..=2000u32 {
        assert_eq!(tokenize(&format!("{}", n)), Err(TokenizeError::NumberTooLarge));
    }
}
