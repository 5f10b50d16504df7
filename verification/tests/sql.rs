use serde_json::Value;
use vdb_rs::index_ivf_rq::{PartitionStats, Payload};
use vdb_rs::sql::{can_partition_match, parse_sql_filter, SqlPredicate};
use vdb_rs::sql_lexer::tokenize;

fn payload(fields: Vec<(&str, Value)>) -> Payload {
    let mut m = Payload::new();
    for (name, value) in fields {
        m.insert(name.to_string(), value);
    }
    m
}

fn parse(text: &str) -> SqlPredicate {
    parse_sql_filter(text).unwrap()
}

#[test]
fn test_eq_and_numeric_compare() {
    let pred = parse("age >= 18 AND name = 'alice'");
    let p1 = payload(vec![("age", Value::from(20)), ("name", Value::from("alice"))]);
    assert!(pred.eval(&p1));
    let p2 = payload(vec![("age", Value::from(16))]);
    assert!(!pred.eval(&p2));
}

#[test]
fn test_in_or() {
    let pred = parse("category IN ('a', 'b') OR score > 90");
    assert!(pred.eval(&payload(vec![("category", Value::from("a"))])));
    assert!(pred.eval(&payload(vec![("score", Value::from(95))])));
    assert!(!pred.eval(&payload(vec![("score", Value::from(80))])));
}

#[test]
fn smoke_sql_parser() {
    let pred = parse("a = 1 AND b IN ('x', 'y')");
    assert!(pred.eval(&payload(vec![("a", Value::from(1)), ("b", Value::from("y"))])));
}

#[test]
fn sql_parser_basic() {
    let pred = parse("age >= 18 AND name = 'alice'");
    let mut p = payload(vec![("age", Value::from(20)), ("name", Value::from("alice"))]);
    assert!(pred.eval(&p));
    p.insert("age".to_string(), Value::from(16));
    assert!(!pred.eval(&p));
}

#[test]
fn sql_predicate_all_operators() {
    let pred = parse(
        "a = 1 AND b != 2 AND c < 10 AND d <= 10 AND e > 0 AND f >= 5 AND g IN (7, 8, 9)",
    );
    let good = payload(vec![
        ("a", Value::from(1)),
        ("b", Value::from(1)),
        ("c", Value::from(9)),
        ("d", Value::from(10)),
        ("e", Value::from(1)),
        ("f", Value::from(5)),
        ("g", Value::from(8)),
    ]);
    assert!(pred.eval(&good));
    let broken = vec![("a", 2), ("b", 2), ("c", 10), ("d", 11), ("e", 0), ("f", 4), ("g", 6)];
    for (name, value) in broken {
        let mut p = good.clone();
        p.insert(name.to_string(), Value::from(value));
        assert!(!pred.eval(&p), "{}", name);
    }
}

#[test]
fn sql_parser_error_paths() {
    assert!(parse_sql_filter("name = 'alice").is_err());
    assert!(parse_sql_filter("a @ 1").is_err());
    assert!(parse_sql_filter("a = 1 )").is_err());
    assert!(parse_sql_filter("a 1").is_err());
    assert!(parse_sql_filter("a = ").is_err());
    assert!(parse_sql_filter("= 1").is_err());
    assert!(parse_sql_filter("a IN (1, 2").is_err());
    assert!(parse_sql_filter("a IN 1, 2)").is_err());
    assert!(parse_sql_filter("").is_err());
    assert!(parse_sql_filter("(a = 1").is_err());
}

#[test]
fn sql_ne_alias_and_bool() {
    let pred = parse("status <> 'active'");
    assert!(pred.eval(&payload(vec![("status", Value::from("inactive"))])));
    assert!(!pred.eval(&payload(vec![("status", Value::from("active"))])));

    let pred = parse("flag = TRUE");
    assert!(!pred.eval(&payload(vec![("flag", Value::from(true))])));
    assert!(pred.eval(&payload(vec![("flag", Value::from(1))])));

    let pred = parse("flag = FALSE");
    assert!(pred.eval(&payload(vec![("flag", Value::from(0))])));
}

#[test]
fn sql_or_with_parentheses_precedence() {
    let pred = parse("(a = 1 OR b = 2) AND c = 3");
    assert!(pred.eval(&payload(vec![("a", Value::from(1)), ("c", Value::from(3))])));
    assert!(pred.eval(&payload(vec![("b", Value::from(2)), ("c", Value::from(3))])));
    assert!(!pred.eval(&payload(vec![("a", Value::from(0)), ("c", Value::from(3))])));
    assert!(!pred.eval(&payload(vec![("a", Value::from(1)), ("c", Value::from(0))])));
}

#[test]
fn sql_missing_field_returns_false() {
    let pred = parse("missing = 1 AND missing > 0 AND missing IN (1, 2)");
    assert!(!pred.eval(&Payload::new()));
}

#[test]
fn no_comparison_with_a_missing_field_holds() {
    let p = payload(vec![("other", Value::from(1))]);
    for text in ["m = 1", "m != 1", "m <> 'x'", "m < 1", "m <= 1", "m > 1", "m >= 1", "m IN (1)"] {
        assert!(!parse(text).eval(&p), "{}", text);
    }
}

#[test]
fn regression_sql_partition_pushdown_numeric() {
    let mut stats = PartitionStats::new();
    stats.update(&payload(vec![("score", Value::from(50))]));
    for text in ["score = 30", "score > 60", "score >= 51", "score < 50", "score <= 49"] {
        assert!(!can_partition_match(&parse(text), &stats), "{}", text);
    }
    for text in ["score = 50", "score >= 50", "score <= 50"] {
        assert!(can_partition_match(&parse(text), &stats), "{}", text);
    }
    assert!(can_partition_match(&parse("score IN (40, 50, 60)"), &stats));
    assert!(!can_partition_match(&parse("score IN (40, 60)"), &stats));
}

#[test]
fn regression_sql_partition_pushdown_string() {
    let mut stats = PartitionStats::new();
    stats.update(&payload(vec![("tag", Value::from("a"))]));
    stats.update(&payload(vec![("tag", Value::from("b"))]));
    assert!(can_partition_match(&parse("tag = 'a'"), &stats));
    assert!(can_partition_match(&parse("tag = 'b'"), &stats));
    assert!(!can_partition_match(&parse("tag = 'c'"), &stats));
    assert!(can_partition_match(&parse("tag IN ('a', 'c')"), &stats));
    assert!(!can_partition_match(&parse("tag IN ('c', 'd')"), &stats));
    assert!(can_partition_match(&parse("tag != 'a'"), &stats));
    assert!(can_partition_match(&parse("missing = 'x'"), &stats));
}

#[test]
fn regression_sql_partition_pushdown_and_or() {
    let mut stats = PartitionStats::new();
    stats.update(&payload(vec![("score", Value::from(50))]));
    assert!(!can_partition_match(&parse("score = 30 AND score = 50"), &stats));
    assert!(can_partition_match(&parse("score = 30 OR score = 50"), &stats));
    assert!(!can_partition_match(&parse("score = 30 OR score = 40"), &stats));
}

#[test]
fn many_texts_do_not_rule_a_partition_out() {
    let mut stats = PartitionStats::new();
    for i in 0..70 {
        stats.update(&payload(vec![("tag", Value::from(format!("t{}", i)))]));
    }
    for i in 0..70 {
        assert!(can_partition_match(&parse(&format!("tag = 't{}'", i)), &stats), "{}", i);
    }
}

#[test]
fn errors_say_what_is_wrong() {
    let message = |text: &str| parse_sql_filter(text).unwrap_err().message();
    assert_eq!(message("a = 'x"), "SQL parse error: unterminated string");
    assert_eq!(message("a = 1.2.3"), "SQL parse error: bad number: 1.2.3");
    assert_eq!(message("a # 1"), "SQL parse error: unexpected char: #");
    assert_eq!(message("a = 1 b"), "SQL parse error: trailing tokens");
    assert_eq!(message("a"), "SQL parse error: expected operator");
    assert_eq!(message("a ( 1"), "SQL parse error: expected comparison operator");
    assert_eq!(message("a = )"), "SQL parse error: expected scalar value");
    assert_eq!(message("1 = 1"), "SQL parse error: expected identifier");
    assert_eq!(message("(a = 1"), "SQL parse error: expected RParen");
    assert_eq!(message("a IN 1"), "SQL parse error: expected LParen");
}

#[test]
fn words_and_numbers_are_read() {
    let p = payload(vec![
        ("a.b_1", Value::from(-2.5)),
        ("Und", Value::from("x y")),
        ("n", Value::from(3)),
    ]);
    assert!(parse("a.b_1 = -2.5").eval(&p));
    assert!(parse("a.b_1 < -2 and Und = \"x y\"").eval(&p));
    assert!(parse("n in (1, 2, 3) Or n = 9").eval(&p));
    assert!(parse("n=3").eval(&p));
    assert!(!parse("n > 3").eval(&p));
    assert!(parse("Und > 'x'").eval(&p));
}

#[test]
fn values_of_other_kinds_compare_with_nothing() {
    let p = payload(vec![("a", Value::Null), ("b", Value::from(vec![1])), ("c", Value::from("1"))]);
    assert!(!parse("a = 0").eval(&p));
    assert!(!parse("b = 1").eval(&p));
    assert!(!parse("c = 1").eval(&p));
    assert!(!parse("c IN (1, 2)").eval(&p));
    assert!(parse("c IN ('1')").eval(&p));
}

#[test]
fn letters_and_spaces_of_all_scripts_are_read() {
    let p = payload(vec![("名称", Value::from("x")), ("x²", Value::from(1))]);
    assert!(parse("名称\u{3000}=\u{3000}'x'").eval(&p));
    assert!(parse("x² = 1 AND\u{a0}名称 != 'y'").eval(&p));
    let e = parse_sql_filter("²x = 1").unwrap_err();
    assert_eq!(e.message(), "SQL parse error: unexpected char: ²");
}

#[test]
fn written_predicates_are_parsed() {
    let p = parse("(a = 1 AND (b = 'x' OR c < -2.5)) OR d IN (1, 'y', 3)");
    match &p {
        SqlPredicate::Or(l, r) => {
            assert!(matches!(**l, SqlPredicate::And(_, _)));
            assert!(matches!(**r, SqlPredicate::In(_, _)));
        }
        _ => panic!("no disjunction"),
    }
    assert!(p.eval(&payload(vec![("a", Value::from(1)), ("c", Value::from(-3))])));
    assert!(p.eval(&payload(vec![("d", Value::from("y"))])));
    assert!(!p.eval(&payload(vec![("a", Value::from(1)), ("c", Value::from(-2))])));
}

#[test]
fn tokens_of_joined_texts_are_those_of_both() {
    let texts = ["age >= 18 AND", "name = 'a b'", "x IN (1, -2.5)", ">", "= 1", ""];
    for a in texts {
        for b in texts {
            let mut both: Vec<String> =
                tokenize(a).unwrap().iter().map(|t| format!("{:?}", t)).collect();
            both.extend(tokenize(b).unwrap().iter().map(|t| format!("{:?}", t)));
            let joined = tokenize(&format!("{} {}", a, b)).unwrap();
            let joined: Vec<String> = joined.iter().map(|t| format!("{:?}", t)).collect();
            assert_eq!(joined, both);
        }
    }
    assert_eq!(tokenize("> =").unwrap().len(), 2);
    assert_eq!(tokenize(">=").unwrap().len(), 1);
    assert!(tokenize(" \t\n\u{85}\u{a0}\u{1680}\u{2003}\u{2028}\u{202f}\u{205f}\u{3000}").unwrap().is_empty());
    assert!(tokenize("\u{200b}").is_err());
}

#[test]
fn filters_are_put_together_from_others() {
    let texts = ["a = 1", "a = 1 OR b = 2", "c IN (1, 2) AND (a < 3)", "(b != 'x')"];
    for a in texts {
        let alone = format!("{:?}", parse(a));
        assert_eq!(format!("{:?}", parse(&format!("({})", a))), alone);
        for b in texts {
            match parse(&format!("({}) AND ({})", a, b)) {
                SqlPredicate::And(l, r) => {
                    assert_eq!(format!("{:?}", l), alone);
                    assert_eq!(format!("{:?}", r), format!("{:?}", parse(b)));
                }
                _ => panic!("no conjunction"),
            }
            match parse(&format!("({}) OR ({})", a, b)) {
                SqlPredicate::Or(l, r) => {
                    assert_eq!(format!("{:?}", l), alone);
                    assert_eq!(format!("{:?}", r), format!("{:?}", parse(b)));
                }
                _ => panic!("no disjunction"),
            }
        }
    }
}
