//! Tests of the value reader, the tokenizer, the tree parser and printer,
//! and the recursive queries.

use pcb_router::s_exp_parser::Delimeter;
use pcb_router::s_exp_parser::Either;
use pcb_router::s_exp_parser::SExpr;
use pcb_router::s_exp_parser::get_closing_delim;
use pcb_router::s_exp_parser::merge_into_exp;
use pcb_router::s_exp_parser::parse;
use pcb_router::value::Decimal;
use pcb_router::value::Value;
use pcb_router::value::turn_to_value;
use pcb_router::value::value_as_string;

fn dec(mantissa: i64, scale: u32) -> Decimal {
    Decimal { mantissa, scale }
}

fn text(s: &str) -> Value {
    Value::Text(s.to_string())
}

#[test]
fn test_turn_to_value() {
    assert_eq!(turn_to_value(""), Value::Absent);
    assert_eq!(turn_to_value("()"), Value::Absent);
    assert_eq!(turn_to_value("("), Value::Absent);
    assert_eq!(turn_to_value("test"), text("test"));
    assert_eq!(turn_to_value(" test "), text("test"));
    assert_eq!(turn_to_value("42"), Value::Int(42));
    assert_eq!(turn_to_value(" 42 "), Value::Int(42));
    assert_eq!(turn_to_value("4.2"), Value::Dec(dec(42, 1)));
    assert_eq!(turn_to_value("-4.2"), Value::Dec(dec(-42, 1)));
}

#[test]
fn test_value_as_string() {
    let test_cases: Vec<String> = vec!["", "42", "hello world"]
        .iter()
        .map(|x| x.to_string())
        .collect();

    for case in test_cases.iter() {
        assert_eq!(&value_as_string(&turn_to_value(&case)), case);
    }
}

#[test]
fn test_int_bounds() {
    assert_eq!(
        turn_to_value("9223372036854775807"),
        Value::Int(9223372036854775807)
    );
    assert_eq!(
        turn_to_value("-9223372036854775808"),
        Value::Int(-9223372036854775808)
    );
    // One past the largest integer falls back to text.
    assert_eq!(turn_to_value("9223372036854775808"), text("9223372036854775808"));
}

#[test]
fn test_dec_bounds() {
    // Up to eighteen fraction digits read as a decimal.
    assert_eq!(
        turn_to_value("0.123456789012345678"),
        Value::Dec(dec(123456789012345678, 18))
    );
    // Nineteen fall back to text.
    assert_eq!(
        turn_to_value("0.1234567890123456789"),
        text("0.1234567890123456789")
    );
}

#[test]
fn test_value_printing() {
    assert_eq!(value_as_string(&Value::Int(42)), "42");
    assert_eq!(value_as_string(&Value::Int(-7)), "-7");
    assert_eq!(value_as_string(&Value::Int(0)), "0");
    assert_eq!(value_as_string(&Value::Dec(dec(35, 1))), "3.5");
    assert_eq!(value_as_string(&Value::Dec(dec(-14, 1))), "-1.4");
    assert_eq!(value_as_string(&Value::Dec(dec(5, 2))), "0.05");
    assert_eq!(value_as_string(&Value::Dec(dec(0, 1))), "0.0");
    assert_eq!(value_as_string(&Value::Absent), "");
}

#[test]
fn test_get() {
    let test_string =
        "(test (\nnesting 1 2 3.5)\n (nesting 1 2 3.5\n) \n(nesting 1 2 3.5\n) string)".to_string();
    let test_expr = parse(&test_string).unwrap();

    assert_eq!(test_expr.get("nesting").len(), 3);
}

#[test]
fn test_print() {
    let test_string = "(test (nesting 1 2 3.5) string)".to_string();
    let test_expr = parse(&test_string).unwrap();

    assert_eq!(parse(&test_expr.print()), Some(test_expr));
}

#[test]
fn test_is_trivial() {
    let test_string = "(test (nesting 1 2 3.5) string)".to_string();
    let test_expr = parse(&test_string).unwrap();

    assert_eq!(test_expr.is_trivial(), true);
}

#[test]
fn test_remove_trivial() {
    let test_string = "(test (nesting 1 2 3.5) string)".to_string();
    let test_expr = parse(&test_string).unwrap();

    let test_res = SExpr {
        content: vec![
            Either::This(text("test")),
            Either::That(Box::new(SExpr {
                content: vec![
                    Either::This(text("nesting")),
                    Either::This(Value::Int(1)),
                    Either::This(Value::Int(2)),
                    Either::This(Value::Dec(dec(35, 1))),
                ],
            })),
            Either::This(text("string")),
        ],
    };

    assert_eq!(test_expr.remove_trivial(), test_res);
}

#[test]
fn test_triviality_collapsing() {
    // Superfluous outer nesting collapses to the bare sequence.
    let wrapped = parse("(((a b c)))").unwrap();
    let bare = parse("a b c").unwrap();
    assert_eq!(wrapped.remove_trivial(), bare);
}

#[test]
fn test_sexpr_get() {
    let test_string = "test (nesting 1 2 3.5) string".to_string();
    let test_expr = parse(&test_string).unwrap();

    let test_res = SExpr {
        content: vec![
            Either::This(Value::Int(1)),
            Either::This(Value::Int(2)),
            Either::This(Value::Dec(dec(35, 1))),
        ],
    };

    let test_res_two = vec![
        SExpr {
            content: vec![
                Either::This(Value::Int(1)),
                Either::This(Value::Int(2)),
                Either::This(Value::Dec(dec(35, 1))),
            ],
        },
        SExpr {
            content: vec![
                Either::This(Value::Int(5)),
                Either::This(Value::Int(6)),
                Either::This(Value::Int(7)),
            ],
        },
    ];

    assert_eq!(test_expr.get("nesting")[0], test_res);

    let test_string_two = "test (nesting 1 2 3.5) (nesting 5 6 7) string".to_string();
    let test_expr_two = parse(&test_string_two).unwrap();

    assert_eq!(test_expr_two.get("nesting"), test_res_two);
}

#[test]
fn test_depth_matching() {
    // A tag is found regardless of nesting depth, and the fragment comes
    // back with its tag stripped.
    let test_expr = parse("test (nesting 1 2 3.5) string").unwrap();
    let found = test_expr.get("nesting");
    assert_eq!(found.len(), 1);
    let vals = found[0].values();
    assert_eq!(
        vals,
        vec![Value::Int(1), Value::Int(2), Value::Dec(dec(35, 1))]
    );

    // Deeper nesting is found just the same.
    let deep = parse("(a (b (c (nesting 9))))").unwrap();
    let found_deep = deep.get("nesting");
    assert_eq!(found_deep.len(), 1);
    assert_eq!(found_deep[0].values(), vec![Value::Int(9)]);
}

#[test]
fn test_parse() {
    let test_string = "test (nesting 1 2 3.5) string".to_string();

    let test_res = Some(SExpr {
        content: vec![
            Either::This(text("test")),
            Either::That(Box::new(SExpr {
                content: vec![
                    Either::This(text("nesting")),
                    Either::This(Value::Int(1)),
                    Either::This(Value::Int(2)),
                    Either::This(Value::Dec(dec(35, 1))),
                ],
            })),
            Either::This(text("string")),
        ],
    });
    assert_eq!(test_res, parse(&test_string));
}

#[test]
fn test_parse_quoted_string() {
    // Inside a string literal, whitespace and parentheses are content.
    let expr = parse("(name \"a (b) c\")").unwrap();
    let sub = &expr.sub_expressions()[0];
    assert_eq!(
        sub.values(),
        vec![text("name"), text("\"a (b) c\"")]
    );
}

#[test]
fn test_parse_unbalanced() {
    // An unmatched open runs to the end of the input rather than failing.
    let expr = parse("(a (b 1").unwrap();
    assert_eq!(expr.sub_expressions().len(), 1);
    let inner = &expr.sub_expressions()[0];
    assert_eq!(inner.get_name(), "a");
    // A stray close is inert.
    let expr2 = parse("a ) b").unwrap();
    assert_eq!(expr2.values(), vec![text("a"), text("b")]);
}

#[test]
fn test_merge_into_exp() {
    let test_res = SExpr {
        content: vec![
            Either::This(text("test")),
            Either::That(Box::new(SExpr {
                content: vec![
                    Either::This(text("nesting")),
                    Either::This(Value::Int(1)),
                    Either::This(Value::Int(2)),
                    Either::This(Value::Dec(dec(35, 1))),
                ],
            })),
            Either::This(text("string")),
        ],
    };

    let test_list = vec![
        Either::This(text("test")),
        Either::That(Delimeter::Open),
        Either::This(text("nesting")),
        Either::This(Value::Int(1)),
        Either::This(Value::Int(2)),
        Either::This(Value::Dec(dec(35, 1))),
        Either::That(Delimeter::Close),
        Either::This(text("string")),
    ];

    assert_eq!(test_res, merge_into_exp(test_list));
}

#[test]
fn test_get_closing_delim() {
    let test_list = vec![
        Either::This(text("test")),
        Either::That(Delimeter::Open),
        Either::This(text("nesting")),
        Either::This(Value::Int(1)),
        Either::This(Value::Int(2)),
        Either::This(Value::Dec(dec(35, 1))),
        Either::That(Delimeter::Close),
        Either::This(text("string")),
    ];

    assert_eq!(get_closing_delim(&test_list, 1), 6);
}

#[test]
fn test_get_value() {
    let expr = parse("(general (thickness 1.6))").unwrap();
    assert_eq!(expr.get_value("thickness"), Some(Value::Dec(dec(16, 1))));
    assert_eq!(expr.get_value("missing"), None);
}

#[test]
fn test_round_trip_mixed() {
    // Printing and reparsing gives the same tree, nesting and all.
    let source = "(board (net 1 \"GND\") (layers (0 \"F.Cu\" signal)) -3.25 end)";
    let tree = parse(source).unwrap();
    assert_eq!(parse(&tree.print()), Some(tree));
}
