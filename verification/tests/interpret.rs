use calculator::{
    interpret, ArithmeticError, CodegenError, InterpretError, Outcome, ParseError, TokenizeError,
};

fn value(line: &str) -> Result<u8, InterpretError> {
    match interpret(line, false) {
        Ok(Outcome::Value(v)) => Ok(v),
        Ok(Outcome::Code(_)) => panic!("code where a value was asked for"),
        Err(e) => Err(e),
    }
}

fn code(line: &str) -> Result<Vec<u8>, InterpretError> {
    match interpret(line, true) {
        Ok(Outcome::Code(c)) => Ok(c),
        Ok(Outcome::Value(_)) => panic!("a value where code was asked for"),
        Err(e) => Err(e),
    }
}

#[test]
fn multiplication_binds_tighter_than_addition() {
    assert_eq!(value("2 + 3 * 4"), Ok(14));
    assert_eq!(value("2 * 3 + 4"), Ok(10));
    assert_eq!(value("20 - 8 / 4"), Ok(18));
}

#[test]
fn subtraction_groups_to_the_left() {
    assert_eq!(value("8 - 3 - 2"), Ok(3));
}

#[test]
fn division_groups_to_the_left() {
    assert_eq!(value("8 / 4 / 2"), Ok(1));
}

#[test]
fn division_rounds_down() {
    assert_eq!(value("7 / 2"), Ok(3));
    assert_eq!(value("200 / 2"), Ok(100));
    assert_eq!(value("0 / 5"), Ok(0));
}

#[test]
fn spaces_do_not_change_the_value() {
    assert_eq!(value("1+1"), Ok(2));
    assert_eq!(value(" 1 + 1 "), Ok(2));
    assert_eq!(value("1+1"), value(" 1 + 1 "));
    assert_eq!(code("1+1"), code(" 1 + 1 "));
}

#[test]
fn a_space_inside_a_number_makes_two_numbers() {
    assert_eq!(value("12"), Ok(12));
    assert_eq!(value("1 2"), Err(InterpretError::Parse(ParseError::UnexpectedTrailingTokens)));
}

#[test]
fn empty_line_is_empty_input() {
    assert_eq!(value(""), Err(InterpretError::Tokenize(TokenizeError::EmptyInput)));
    assert_eq!(code(""), Err(InterpretError::Tokenize(TokenizeError::EmptyInput)));
}

#[test]
fn blank_line_is_empty_input() {
    assert_eq!(value("   "), Err(InterpretError::Tokenize(TokenizeError::EmptyInput)));
    assert_eq!(code("   "), Err(InterpretError::Tokenize(TokenizeError::EmptyInput)));
}

#[test]
fn unknown_character_is_refused() {
    assert_eq!(value("1 & 2"), Err(InterpretError::Tokenize(TokenizeError::UnexpectedCharacter)));
    assert_eq!(code("1 & 2"), Err(InterpretError::Tokenize(TokenizeError::UnexpectedCharacter)));
    assert_eq!(value("(1)"), Err(InterpretError::Tokenize(TokenizeError::UnexpectedCharacter)));
    assert_eq!(value("1\t+ 1"), Err(InterpretError::Tokenize(TokenizeError::UnexpectedCharacter)));
    assert_eq!(value("1 + é"), Err(InterpretError::Tokenize(TokenizeError::UnexpectedCharacter)));
}

#[test]
fn missing_right_operand_expects_a_number() {
    assert_eq!(value("1 +"), Err(InterpretError::Parse(ParseError::ExpectedNumber)));
    assert_eq!(code("1 +"), Err(InterpretError::Parse(ParseError::ExpectedNumber)));
}

#[test]
fn missing_left_operand_expects_a_number() {
    assert_eq!(value("+ 1"), Err(InterpretError::Parse(ParseError::ExpectedNumber)));
    assert_eq!(code("+ 1"), Err(InterpretError::Parse(ParseError::ExpectedNumber)));
    assert_eq!(value("1 + * 2"), Err(InterpretError::Parse(ParseError::ExpectedNumber)));
}

#[test]
fn number_after_number_is_trailing() {
    assert_eq!(value("1 + 2 3"), Err(InterpretError::Parse(ParseError::UnexpectedTrailingTokens)));
    assert_eq!(code("1 + 2 3"), Err(InterpretError::Parse(ParseError::UnexpectedTrailingTokens)));
}

#[test]
fn literal_above_255_is_too_large() {
    assert_eq!(value("255"), Ok(255));
    assert_eq!(value("256"), Err(InterpretError::Tokenize(TokenizeError::NumberTooLarge)));
    assert_eq!(code("256"), Err(InterpretError::Tokenize(TokenizeError::NumberTooLarge)));
    assert_eq!(
        value("99999999999999999999999999999999999999"),
        Err(InterpretError::Tokenize(TokenizeError::NumberTooLarge))
    );
}

#[test]
fn leading_zeros_do_not_count() {
    assert_eq!(value("007"), Ok(7));
    assert_eq!(value("0000000000000000000000000000000000000255"), Ok(255));
    assert_eq!(
        value("0000000000000000000000000000000000000256"),
        Err(InterpretError::Tokenize(TokenizeError::NumberTooLarge))
    );
}

#[test]
fn first_error_in_the_line_wins() {
    assert_eq!(value("999 &"), Err(InterpretError::Tokenize(TokenizeError::NumberTooLarge)));
    assert_eq!(value("& 999"), Err(InterpretError::Tokenize(TokenizeError::UnexpectedCharacter)));
    // a line that cannot be split into tokens is never parsed
    assert_eq!(value("+ &"), Err(InterpretError::Tokenize(TokenizeError::UnexpectedCharacter)));
    // and an expression that cannot be parsed is never evaluated
    assert_eq!(value("1 / 0 +"), Err(InterpretError::Parse(ParseError::ExpectedNumber)));
}

#[test]
fn sum_above_255_overflows() {
    assert_eq!(value("255 + 0"), Ok(255));
    assert_eq!(value("200 + 55"), Ok(255));
    assert_eq!(value("200 + 56"), Err(InterpretError::Arithmetic(ArithmeticError::Overflow)));
    assert_eq!(code("200 + 56"), Err(InterpretError::Arithmetic(ArithmeticError::Overflow)));
}

#[test]
fn difference_below_zero_overflows() {
    assert_eq!(value("5 - 5"), Ok(0));
    assert_eq!(value("3 - 5"), Err(InterpretError::Arithmetic(ArithmeticError::Overflow)));
    assert_eq!(code("3 - 5"), Err(InterpretError::Arithmetic(ArithmeticError::Overflow)));
    // no later operand makes up for it
    assert_eq!(value("3 - 5 + 10"), Err(InterpretError::Arithmetic(ArithmeticError::Overflow)));
}

#[test]
fn product_above_255_overflows() {
    assert_eq!(value("15 * 17"), Ok(255));
    assert_eq!(value("16 * 16"), Err(InterpretError::Arithmetic(ArithmeticError::Overflow)));
    assert_eq!(code("16 * 16"), Err(InterpretError::Arithmetic(ArithmeticError::Overflow)));
    assert_eq!(value("20 * 20 / 2"), Err(InterpretError::Arithmetic(ArithmeticError::Overflow)));
}

#[test]
fn division_by_zero_is_an_error() {
    assert_eq!(value("1 / 0"), Err(InterpretError::Arithmetic(ArithmeticError::DivisionByZero)));
    assert_eq!(code("1 / 0"), Err(InterpretError::Arithmetic(ArithmeticError::DivisionByZero)));
    assert_eq!(value("0 / 0"), Err(InterpretError::Arithmetic(ArithmeticError::DivisionByZero)));
}

#[test]
fn left_operand_fails_before_right_operand() {
    assert_eq!(
        value("16 * 16 + 1 / 0"),
        Err(InterpretError::Arithmetic(ArithmeticError::Overflow))
    );
    assert_eq!(
        value("1 / 0 + 16 * 16"),
        Err(InterpretError::Arithmetic(ArithmeticError::DivisionByZero))
    );
}

#[test]
fn same_line_same_result() {
    for line in ["2 + 3 * 4", "1 +", "", "1 / 0", "200"] {
        assert_eq!(interpret(line, false), interpret(line, false));
        assert_eq!(interpret(line, true), interpret(line, true));
    }
}

#[test]
fn every_literal_is_its_own_value() {
    for n in 0..=255u8 {
        assert_eq!(value(&format!("{}", n)), Ok(n));
    }
}

#[test]
fn code_of_every_literal_pushes_it_and_returns() {
    for n in 0..=255u8 {
        let expected = if n < 128 {
            vec![0x6a, n, 0x58, 0xc3]
        } else {
            vec![0x68, n, 0, 0, 0, 0x58, 0xc3]
        };
        assert_eq!(code(&format!("{}", n)), Ok(expected));
    }
}

#[test]
fn code_has_right_operand_first() {
    assert_eq!(
        code("8 - 3"),
        Ok(vec![
            0x6a, 0x03, // push 3
            0x6a, 0x08, // push 8
            0x58, // pop rax
            0x5f, // pop rdi
            0x48, 0x29, 0xf8, // sub rax, rdi
            0x50, // push rax
            0x58, // pop rax
            0xc3, // ret
        ])
    );
}

#[test]
fn code_of_each_operator() {
    let around = |op: &[u8]| {
        let mut c = vec![0x6a, 0x02, 0x6a, 0x06, 0x58, 0x5f];
        c.extend_from_slice(op);
        c.extend_from_slice(&[0x50, 0x58, 0xc3]);
        c
    };
    assert_eq!(code("6 + 2"), Ok(around(&[0x48, 0x01, 0xf8])));
    assert_eq!(code("6 - 2"), Ok(around(&[0x48, 0x29, 0xf8])));
    assert_eq!(code("6 * 2"), Ok(around(&[0x48, 0x0f, 0xaf, 0xc7])));
    assert_eq!(code("6 / 2"), Ok(around(&[0x48, 0x99, 0x48, 0xf7, 0xff])));
}

#[test]
fn code_follows_the_tree() {
    // 2 + (3 * 4): the product is the right operand of the sum
    assert_eq!(
        code("2 + 3 * 4"),
        Ok(vec![
            0x6a, 0x04, 0x6a, 0x03, 0x58, 0x5f, 0x48, 0x0f, 0xaf, 0xc7, 0x50, // 3 * 4
            0x6a, 0x02, // 2
            0x58, 0x5f, 0x48, 0x01, 0xf8, 0x50, // +
            0x58, 0xc3,
        ])
    );
    // (8 - 3) - 2: the first difference is the left operand of the second
    assert_eq!(
        code("8 - 3 - 2"),
        Ok(vec![
            0x6a, 0x02, // 2
            0x6a, 0x03, 0x6a, 0x08, 0x58, 0x5f, 0x48, 0x29, 0xf8, 0x50, // 8 - 3
            0x58, 0x5f, 0x48, 0x29, 0xf8, 0x50, // -
            0x58, 0xc3,
        ])
    );
}

#[test]
fn code_of_large_literal_uses_the_long_push() {
    assert_eq!(
        code("200 / 2"),
        Ok(vec![
            0x6a, 0x02, // push 2
            0x68, 0xc8, 0x00, 0x00, 0x00, // push 200
            0x58, 0x5f, 0x48, 0x99, 0x48, 0xf7, 0xff, 0x50, 0x58, 0xc3,
        ])
    );
}

fn sum_of_ones(n: usize) -> String {
    let mut line = String::from("1");
    for _ in 1..n {
        line.push_str("+1");
    }
    line
}

#[test]
fn code_that_fills_the_area_is_handed_out() {
    // n literals take 2n bytes, n - 1 operators 6 each, and the end 2
    let c = code(&sum_of_ones(128)).unwrap();
    assert_eq!(c.len(), 1020);
    assert_eq!(value(&sum_of_ones(128)), Ok(128));
}

#[test]
fn code_beyond_the_area_overflows() {
    assert_eq!(
        code(&sum_of_ones(129)),
        Err(InterpretError::Codegen(CodegenError::CodeBufferOverflow))
    );
    assert_eq!(value(&sum_of_ones(129)), Ok(129));
}
