use infix_calc::organize_ops;
use infix_calc::parser;
use infix_calc::tokenize;
use infix_calc::Error;
use infix_calc::Operator;
use infix_calc::Ops;

#[test]
fn parser_works() {
    let testcases = vec![
        (
            "11 + -3".to_string(),
            Ok::<_, Error>(vec![
                Ops::Number(11),
                Ops::Number(-3),
                Ops::Operator(Operator::Add),
            ]),
        ),
        (
            "3 * 2 + 1".to_string(),
            Ok::<_, Error>(vec![
                Ops::Number(3),
                Ops::Number(2),
                Ops::Operator(Operator::Mul),
                Ops::Number(1),
                Ops::Operator(Operator::Add),
            ]),
        ),
        (
            "3 + 2 * 1".to_string(),
            Ok::<_, Error>(vec![
                Ops::Number(3),
                Ops::Number(2),
                Ops::Number(1),
                Ops::Operator(Operator::Mul),
                Ops::Operator(Operator::Add),
            ]),
        ),
        (
            "(3 + 2) * 1".to_string(),
            Ok::<_, Error>(vec![
                Ops::Number(3),
                Ops::Number(2),
                Ops::Operator(Operator::Add),
                Ops::Number(1),
                Ops::Operator(Operator::Mul),
            ]),
        ),
        (
            "(3 + 2 * 4) * 1".to_string(),
            Ok::<_, Error>(vec![
                Ops::Number(3),
                Ops::Number(2),
                Ops::Number(4),
                Ops::Operator(Operator::Mul),
                Ops::Operator(Operator::Add),
                Ops::Number(1),
                Ops::Operator(Operator::Mul),
            ]),
        ),
        (
            "((1)) * 1".to_string(),
            Ok::<_, Error>(vec![
                Ops::Number(1),
                Ops::Number(1),
                Ops::Operator(Operator::Mul),
            ]),
        ),
    ];

    for (expression, expected) in testcases {
        assert_eq!(parser(expression), expected);
    }
}

#[test]
fn equal_priority_groups_left_to_right() {
    assert_eq!(
        parser("6 - 3 - 2".to_string()),
        Ok(vec![
            Ops::Number(6),
            Ops::Number(3),
            Ops::Operator(Operator::Sub),
            Ops::Number(2),
            Ops::Operator(Operator::Sub),
        ])
    );
}

#[test]
fn unmatched_closing_bracket_is_invalid() {
    assert_eq!(parser("1)".to_string()), Err(Error::InvalidExpression));
    assert_eq!(parser(")".to_string()), Err(Error::InvalidExpression));
}

#[test]
fn unmatched_opening_bracket_is_invalid() {
    assert_eq!(parser("(1".to_string()), Err(Error::InvalidExpression));
    assert_eq!(parser("(".to_string()), Err(Error::InvalidExpression));
    assert_eq!(parser("((1)".to_string()), Err(Error::InvalidExpression));
}

#[test]
fn unrecognized_characters_are_invalid() {
    assert_eq!(parser("a".to_string()), Err(Error::InvalidExpression));
    assert_eq!(parser("1 & 2".to_string()), Err(Error::InvalidExpression));
    assert_eq!(
        parser("1.2 + 1.5".to_string()),
        Err(Error::InvalidExpression)
    );
}

#[test]
fn dangling_sign_is_invalid() {
    assert_eq!(parser("1 +".to_string()), Err(Error::InvalidExpression));
    assert_eq!(parser("-".to_string()), Err(Error::InvalidExpression));
    assert_eq!(parser("1 +(2)".to_string()), Err(Error::InvalidExpression));
}

#[test]
fn literal_bounds() {
    assert_eq!(
        parser("9223372036854775807".to_string()),
        Ok(vec![Ops::Number(i64::MAX)])
    );
    assert_eq!(
        parser("9223372036854775808".to_string()),
        Err(Error::InvalidExpression)
    );
}

#[test]
fn literals_with_zero_digits() {
    assert_eq!(parser("10".to_string()), Ok(vec![Ops::Number(10)]));
    assert_eq!(parser("0".to_string()), Ok(vec![Ops::Number(0)]));
    assert_eq!(parser("-0".to_string()), Ok(vec![Ops::Number(0)]));
}

#[test]
fn tokenize_reads_signed_literals() {
    assert_eq!(
        tokenize("11 + -3"),
        Ok(vec![
            Ops::Number(11),
            Ops::Operator(Operator::Add),
            Ops::Number(-3),
        ])
    );
    assert_eq!(
        tokenize("+5"),
        Ok(vec![Ops::Number(5)])
    );
}

#[test]
fn tokenize_accepts_consecutive_operators() {
    assert_eq!(
        tokenize("+ *"),
        Ok(vec![
            Ops::Operator(Operator::Add),
            Ops::Operator(Operator::Mul),
        ])
    );
}

#[test]
fn organize_ops_keeps_numbers_in_order() {
    let tokens = vec![
        Ops::Number(2),
        Ops::Operator(Operator::Add),
        Ops::Number(3),
        Ops::Operator(Operator::Mul),
        Ops::Number(2),
    ];
    assert_eq!(
        organize_ops(tokens),
        Ok(vec![
            Ops::Number(2),
            Ops::Number(3),
            Ops::Number(2),
            Ops::Operator(Operator::Mul),
            Ops::Operator(Operator::Add),
        ])
    );
}
