use projects_lib::analytics::dataset::Value;
use projects_lib::analytics::parse::{parse_i32, parse_query_from_string, tokenize, try_parse_query};
use projects_lib::analytics::query::{Aggregation, Condition};

fn chars(s: &str) -> Vec<char> {
    s.chars().collect()
}

fn toks(s: &str) -> Vec<String> {
    tokenize(s).into_iter().map(|t| t.into_iter().collect()).collect()
}

#[test]
fn tokenize_spaces_out_brackets() {
    assert_eq!(
        toks("FILTER (!(a == \"x\")) GROUP BY a COUNT b"),
        vec!["FILTER", "(", "!", "(", "a", "==", "\"x\"", ")", ")", "GROUP", "BY", "a", "COUNT", "b"]
    );
    assert_eq!(toks("  \t\n "), Vec::<String>::new());
    assert_eq!(toks("a\u{3000}b"), vec!["a", "b"]);
}

#[test]
fn tokens_are_nonempty_without_white_space() {
    for t in toks(" x  (y) ! \t z== ") {
        assert!(!t.is_empty());
        assert!(!t.chars().any(|c| c.is_whitespace()));
    }
}

#[test]
fn parse_i32_like_std() {
    for s in ["0", "-0", "+7", "007", "2147483647", "-2147483648", "2147483648", "-2147483649", "", "-", "+", "12a", " 1", "99999999999999999999"] {
        assert_eq!(parse_i32(&chars(s)), s.parse::<i32>().ok(), "{}", s);
    }
}

#[test]
fn parse_simple_query() {
    let q = parse_query_from_string("FILTER grade == 90 GROUP BY section COUNT name".to_string());
    match q.get_filter() {
        Condition::Equal(c, v) => {
            assert_eq!(c, "grade");
            assert_eq!(*v, Value::Integer(90));
        }
        _ => panic!("wrong condition"),
    }
    assert_eq!(q.get_group_by(), "section");
    match q.get_aggregate() {
        Aggregation::Count(c) => assert_eq!(c, "name"),
        _ => panic!("wrong aggregation"),
    }
}

#[test]
fn parse_nested_query() {
    let q = parse_query_from_string(
        "FILTER (section == \"A\" AND (! name == \"bob\")) GROUP BY section AVERAGE grade".to_string(),
    );
    match q.get_filter() {
        Condition::And(l, r) => {
            match &**l {
                Condition::Equal(c, v) => {
                    assert_eq!(c, "section");
                    assert_eq!(*v, Value::String("A".to_string()));
                }
                _ => panic!("left"),
            }
            match &**r {
                Condition::Not(inner) => match &**inner {
                    Condition::Equal(c, v) => {
                        assert_eq!(c, "name");
                        assert_eq!(*v, Value::String("bob".to_string()));
                    }
                    _ => panic!("inner"),
                },
                _ => panic!("right"),
            }
        }
        _ => panic!("wrong condition"),
    }
    match q.get_aggregate() {
        Aggregation::Average(c) => assert_eq!(c, "grade"),
        _ => panic!("wrong aggregation"),
    }
}

#[test]
fn operator_other_than_and_means_or() {
    let q = try_parse_query("FILTER (a == 1 XOR b == \"2\") GROUP BY a SUM b").unwrap();
    match q.get_filter() {
        Condition::Or(l, r) => {
            match &**l {
                Condition::Equal(_, v) => assert_eq!(*v, Value::Integer(1)),
                _ => panic!("left"),
            }
            match &**r {
                Condition::Equal(_, v) => assert_eq!(*v, Value::Integer(2)),
                _ => panic!("right"),
            }
        }
        _ => panic!("wrong condition"),
    }
}

#[test]
fn malformed_queries_are_refused() {
    assert!(try_parse_query("").is_none());
    assert!(try_parse_query("SELECT a == 1 GROUP BY a COUNT a").is_none());
    assert!(try_parse_query("FILTER a ==").is_none());
    assert!(try_parse_query("FILTER a == 1 GROUP BY a").is_none());
    assert!(try_parse_query("FILTER a == 1 GROUPS BY a COUNT a").is_none());
    assert!(try_parse_query("FILTER a == 1 GROUP BY a MAX a").is_none());
    assert!(try_parse_query("FILTER (a == 1 AND").is_none());
}

#[test]
fn quotes_are_trimmed() {
    let q = try_parse_query("FILTER name == \"\"x\"\" GROUP BY a COUNT a").unwrap();
    match q.get_filter() {
        Condition::Equal(_, v) => assert_eq!(*v, Value::String("x".to_string())),
        _ => panic!("wrong condition"),
    }
    let q = try_parse_query("FILTER n == \"-12\" GROUP BY a COUNT a").unwrap();
    match q.get_filter() {
        Condition::Equal(_, v) => assert_eq!(*v, Value::Integer(-12)),
        _ => panic!("wrong condition"),
    }
}

#[test]
fn white_space_near_brackets_does_not_matter() {
    let a = toks("FILTER (!(a == 1)) GROUP BY a COUNT b");
    let b = toks("FILTER  ( ! (  a == 1 ) )  GROUP BY a COUNT b");
    assert_eq!(a, b);
}

#[test]
fn bracketed_texts_compose() {
    let q = parse_query_from_string("FILTER (x == 1 OR (! y == \"z\")) GROUP BY g COUNT x".to_string());
    match q.get_filter() {
        Condition::Or(l, r) => {
            assert!(matches!(&**l, Condition::Equal(c, Value::Integer(1)) if c == "x"));
            assert!(matches!(&**r, Condition::Not(_)));
        }
        _ => panic!("wrong condition"),
    }
    assert_eq!(q.get_group_by(), "g");
}
