use infix_calc::eval;
use infix_calc::Error;
use infix_calc::Operator;
use infix_calc::Ops;

#[test]
fn eval_works() {
    let testcases = vec![
        (
            vec![
                Ops::Number(1),
                Ops::Number(5),
                Ops::Operator(Operator::Add),
                Ops::Number(6),
                Ops::Number(3),
                Ops::Operator(Operator::Sub),
                Ops::Operator(Operator::Div),
                Ops::Number(7),
                Ops::Operator(Operator::Mul),
            ],
            Ok::<i64, Error>(14),
        ),
        (
            vec![
                Ops::Number(1),
                Ops::Number(0),
                Ops::Operator(Operator::Div),
            ],
            Err(Error::InvalidExpression),
        ),
        (
            vec![
                Ops::Number(3),
                Ops::Number(2),
                Ops::Operator(Operator::Mul),
                Ops::Number(1),
                Ops::Operator(Operator::Add),
            ],
            Ok::<_, Error>(7),
        ),
        (
            vec![
                Ops::Number(3),
                Ops::Number(2),
                Ops::Number(1),
                Ops::Operator(Operator::Mul),
                Ops::Operator(Operator::Add),
            ],
            Ok::<_, Error>(5),
        ),
        (
            vec![
                Ops::Number(3),
                Ops::Number(2),
                Ops::Number(4),
                Ops::Operator(Operator::Mul),
                Ops::Operator(Operator::Add),
                Ops::Number(1),
                Ops::Operator(Operator::Mul),
            ],
            Ok::<_, Error>(11),
        ),
    ];

    for (ops, expected) in testcases {
        assert_eq!(eval(ops), expected);
    }
}

#[test]
fn division_by_zero_is_invalid() {
    let postfix = vec![
        Ops::Number(1),
        Ops::Number(0),
        Ops::Operator(Operator::Div),
    ];
    assert_eq!(eval(postfix), Err(Error::InvalidExpression));
}

#[test]
fn division_truncates_toward_zero() {
    let cases = vec![
        (7, 2, 3),
        (-7, 2, -3),
        (7, -2, -3),
        (-7, -2, 3),
    ];
    for (b, a, expected) in cases {
        let postfix = vec![
            Ops::Number(b),
            Ops::Number(a),
            Ops::Operator(Operator::Div),
        ];
        assert_eq!(eval(postfix), Ok(expected));
    }
}

#[test]
fn division_overflow_is_invalid() {
    let postfix = vec![
        Ops::Number(i64::MIN),
        Ops::Number(-1),
        Ops::Operator(Operator::Div),
    ];
    assert_eq!(eval(postfix), Err(Error::InvalidExpression));
}

#[test]
fn power_of_small_numbers() {
    let cases = vec![
        (2, 3, 8),
        (2, 0, 1),
        (0, 0, 1),
        (0, 5, 0),
        (1, 200, 1),
        (-1, 4, 1),
        (-1, 5, -1),
        (-2, 63, i64::MIN),
        (5, 2, 25),
    ];
    for (b, a, expected) in cases {
        let postfix = vec![
            Ops::Number(b),
            Ops::Number(a),
            Ops::Operator(Operator::Pow),
        ];
        assert_eq!(eval(postfix), Ok(expected));
    }
}

#[test]
fn power_outside_the_domain_is_invalid() {
    let cases = vec![(2, -1), (2, 64), (10, 19), (-2, 64)];
    for (b, a) in cases {
        let postfix = vec![
            Ops::Number(b),
            Ops::Number(a),
            Ops::Operator(Operator::Pow),
        ];
        assert_eq!(eval(postfix), Err(Error::InvalidExpression));
    }
}

#[test]
fn arithmetic_overflow_is_invalid() {
    let add = vec![
        Ops::Number(i64::MAX),
        Ops::Number(1),
        Ops::Operator(Operator::Add),
    ];
    assert_eq!(eval(add), Err(Error::InvalidExpression));
    let sub = vec![
        Ops::Number(i64::MIN),
        Ops::Number(1),
        Ops::Operator(Operator::Sub),
    ];
    assert_eq!(eval(sub), Err(Error::InvalidExpression));
    let mul = vec![
        Ops::Number(i64::MAX),
        Ops::Number(2),
        Ops::Operator(Operator::Mul),
    ];
    assert_eq!(eval(mul), Err(Error::InvalidExpression));
}

#[test]
fn operand_underflow_is_invalid() {
    assert_eq!(
        eval(vec![Ops::Number(1), Ops::Operator(Operator::Add)]),
        Err(Error::InvalidExpression)
    );
    assert_eq!(
        eval(vec![Ops::Operator(Operator::Sub)]),
        Err(Error::InvalidExpression)
    );
}

#[test]
fn leftover_operands_are_invalid() {
    assert_eq!(
        eval(vec![Ops::Number(3), Ops::Number(2)]),
        Err(Error::InvalidExpression)
    );
    assert_eq!(eval(vec![]), Err(Error::InvalidExpression));
}

#[test]
fn bracket_in_postfix_is_invalid() {
    let postfix = vec![
        Ops::Number(1),
        Ops::Number(2),
        Ops::Operator(Operator::LeftBracket),
    ];
    assert_eq!(eval(postfix), Err(Error::InvalidExpression));
    let postfix = vec![
        Ops::Number(1),
        Ops::Number(2),
        Ops::Operator(Operator::RightBracket),
    ];
    assert_eq!(eval(postfix), Err(Error::InvalidExpression));
}

#[test]
fn single_number_evaluates_to_itself() {
    assert_eq!(eval(vec![Ops::Number(42)]), Ok(42));
    assert_eq!(eval(vec![Ops::Number(-7)]), Ok(-7));
}
