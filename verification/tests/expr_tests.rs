use trapper::expr::{Expression, ExpressionTree, ParseError};
use trapper::text::{match_words, NumError};

#[test]
fn good_test() {
    let e = Expression::from_str("1256262~1256262~asDf    |    milsugi     & (coaie | pula)~test")
        .unwrap();
    assert_eq!(
        e,
        Expression {
            added_by: 1256262,
            expr: ExpressionTree::AndSign(
                Box::new(ExpressionTree::OrSign(
                    Box::new(ExpressionTree::Variable("asdf".to_string())),
                    Box::new(ExpressionTree::Variable("milsugi".to_string())),
                )),
                Box::new(ExpressionTree::OrSign(
                    Box::new(ExpressionTree::Variable("coaie".to_string())),
                    Box::new(ExpressionTree::Variable("pula".to_string())),
                )),
            ),
            response: "test".to_string(),
            group_id: 1256262,
        }
    );
}

#[test]
fn bad_separators() {
    let e = Expression::from_str("125~125~asdf|milsugi|(coaie|pula)~test~test").unwrap_err();
    assert_eq!(e, ParseError::BadSeparators);
    assert_eq!(e.message(), "N-ai pus '~' sau ai pus prea multi bombardiere");
}

#[test]
fn not_enough_parantheses() {
    let e = Expression::from_str("1262~1262~asdf|milsugi|(coaie|pula~test").unwrap_err();
    assert_eq!(e, ParseError::BadParentheses);
    assert_eq!(e.message(), "Ai belit parantezele la expresie bombardiere");
}

#[test]
fn too_many_parantheses() {
    let e = Expression::from_str("1262~1262~asdf|milsugi|(coaie|pula))~test").unwrap_err();
    assert_eq!(e, ParseError::BadParentheses);
}

#[test]
fn bad_operator() {
    let e = Expression::from_str("1262~1262~asdf|milsugi^(coaie|pula)~test").unwrap_err();
    assert_eq!(e, ParseError::BadParentheses);
}

#[test]
fn illegal_characters() {
    let e = Expression::from_str("1262~1262~asdf|.milsugi|(coaie|pula)~test").unwrap_err();
    assert_eq!(e, ParseError::BadCharacters);
    assert_eq!(e.message(), "Nush ce plm ai facut dar nu era corect");
}

#[test]
fn grammar_acceptance() {
    assert_eq!(
        Expression::from_str("1~2~a|b|(c|d~r").unwrap_err(),
        ParseError::BadParentheses
    );
    assert_eq!(Expression::from_str("1~2~a|.b~r").unwrap_err(), ParseError::BadCharacters);
    assert_eq!(Expression::from_str("1~2~a~r~x").unwrap_err(), ParseError::BadSeparators);
    assert_eq!(Expression::from_str("1~2~a~r~x~y").unwrap_err(), ParseError::BadSeparators);
    assert!(Expression::from_str("1~2~a&(b|c)~r").is_ok());
    assert!(Expression::from_str("1~2~(a)~r").is_ok());
    assert!(Expression::from_str("1~2~x9&y~r").is_ok());
}

#[test]
fn numeric_field_errors() {
    assert_eq!(
        Expression::from_str("x~2~a~r").unwrap_err(),
        ParseError::BadNumber(NumError::InvalidDigit)
    );
    assert_eq!(
        Expression::from_str("~2~a~r").unwrap_err(),
        ParseError::BadNumber(NumError::Empty)
    );
    assert_eq!(
        Expression::from_str("99999999999999999999~2~a~r").unwrap_err(),
        ParseError::BadNumber(NumError::PosOverflow)
    );
    assert_eq!(
        Expression::from_str("1~-99999999999999999999~a~r").unwrap_err(),
        ParseError::BadNumber(NumError::NegOverflow)
    );
    assert_eq!(
        ParseError::BadNumber(NumError::InvalidDigit).message(),
        "invalid digit found in string"
    );
    let e = Expression::from_str("  42 ~ -7 ~a~r").unwrap();
    assert_eq!(e.added_by, 42);
    assert_eq!(e.group_id, -7);
}

#[test]
fn equal_precedence() {
    let e = Expression::from_str("1~1~a|b&c~r").unwrap();
    let words = |ws: &[&str]| ws.iter().map(|w| w.to_string()).collect::<Vec<String>>();
    // the fold is left to right at equal precedence: the tree is
    // ((a|b)&c), never a|(b&c)
    assert!(!e.eval(&words(&["b"])));
    assert!(e.eval(&words(&["b", "c"])));
    assert!(!e.eval(&words(&["a"])));
    assert!(e.eval(&words(&["a", "c"])));
}

#[test]
fn truth_table() {
    let e = Expression::from_str("1~1~a&(b|c)~r").unwrap();
    for mask in 0..8u32 {
        let mut ws: Vec<String> = Vec::new();
        if mask & 1 != 0 {
            ws.push("a".to_string());
        }
        if mask & 2 != 0 {
            ws.push("b".to_string());
        }
        if mask & 4 != 0 {
            ws.push("c".to_string());
        }
        let a = mask & 1 != 0;
        let b = mask & 2 != 0;
        let c = mask & 4 != 0;
        assert_eq!(e.eval(&ws), a && (b || c));
    }
}

#[test]
fn word_extraction() {
    let ws = match_words("Hello,  WORLD! x9");
    assert_eq!(
        ws,
        vec!["hello".to_string(), "world".to_string(), "x9".to_string()]
    );
    assert_eq!(match_words(""), Vec::<String>::new());
}
