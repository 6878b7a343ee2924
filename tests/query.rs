use anubistats::query::{parse, parse_classified, CharKind, ParseError, Query};

fn word(w: &str) -> Box<Query> {
    Box::new(Query::Word(w.to_string()))
}

#[test]
fn test_or() {
    assert_eq!(
        parse("foo OR bar").unwrap(),
        Query::Or(
            Box::new(Query::Word("foo".to_string())),
            Box::new(Query::Word("bar".to_string()))
        )
    );

    assert_eq!(
        parse("foo OR bar OR baz").unwrap(),
        Query::Or(
            Box::new(Query::Word("foo".to_string())),
            Box::new(Query::Or(
                Box::new(Query::Word("bar".to_string())),
                Box::new(Query::Word("baz".to_string()))
            ))
        )
    );
}

#[test]
fn test_and() {
    assert_eq!(
        parse("foo AND bar").unwrap(),
        Query::And(
            Box::new(Query::Word("foo".to_string())),
            Box::new(Query::Word("bar".to_string()))
        )
    );

    assert_eq!(
        parse("foo AND bar AND baz").unwrap(),
        Query::And(
            Box::new(Query::Word("foo".to_string())),
            Box::new(Query::And(
                Box::new(Query::Word("bar".to_string())),
                Box::new(Query::Word("baz".to_string()))
            ))
        )
    );
}

#[test]
fn test_paren() {
    assert_eq!(parse("(foo)").unwrap(), Query::Word("foo".to_string()));

    assert_eq!(
        parse("(foo AND bar)").unwrap(),
        Query::And(
            Box::new(Query::Word("foo".to_string())),
            Box::new(Query::Word("bar".to_string()))
        )
    );

    assert_eq!(
        parse("(foo AND bar) OR baz").unwrap(),
        Query::Or(
            Box::new(Query::And(
                Box::new(Query::Word("foo".to_string())),
                Box::new(Query::Word("bar".to_string()))
            )),
            Box::new(Query::Word("baz".to_string()))
        )
    );

    assert_eq!(
        parse("foo AND (bar OR baz)").unwrap(),
        Query::And(
            Box::new(Query::Word("foo".to_string())),
            Box::new(Query::Or(
                Box::new(Query::Word("bar".to_string())),
                Box::new(Query::Word("baz".to_string()))
            ))
        )
    );
}

#[test]
fn test_precedence() {
    assert_eq!(
        parse("foo AND bar OR baz").unwrap(),
        Query::And(
            Box::new(Query::Word("foo".to_string())),
            Box::new(Query::Or(
                Box::new(Query::Word("bar".to_string())),
                Box::new(Query::Word("baz".to_string())),
            ))
        )
    );

    assert_eq!(
        parse("foo OR bar AND baz").unwrap(),
        Query::And(
            Box::new(Query::Or(
                Box::new(Query::Word("foo".to_string())),
                Box::new(Query::Word("bar".to_string())),
            )),
            Box::new(Query::Word("baz".to_string())),
        )
    );
}

#[test]
fn parse_rejects_empty_query() {
    assert_eq!(parse(""), Err(ParseError));
    assert_eq!(parse("   "), Err(ParseError));
}

#[test]
fn parse_rejects_unmatched_parenthesis() {
    assert_eq!(parse("(foo"), Err(ParseError));
    assert_eq!(parse("(foo AND bar"), Err(ParseError));
    assert_eq!(parse("foo)"), Err(ParseError));
}

#[test]
fn parse_rejects_trailing_tokens() {
    assert_eq!(parse("foo bar"), Err(ParseError));
    assert_eq!(parse("foo AND"), Err(ParseError));
    assert_eq!(parse("foo OR"), Err(ParseError));
    assert_eq!(parse("foo!"), Err(ParseError));
    assert_eq!(parse("()"), Err(ParseError));
}

#[test]
fn parse_skips_whitespace() {
    assert_eq!(parse("  foo \t OR\nbar  ").unwrap(), Query::Or(word("foo"), word("bar")));
    assert_eq!(parse(" ( foo ) ").unwrap(), Query::Word("foo".to_string()));
}

#[test]
fn parse_words_are_alphanumeric_runs() {
    assert_eq!(parse("rust2023").unwrap(), Query::Word("rust2023".to_string()));
    assert_eq!(parse("café").unwrap(), Query::Word("café".to_string()));
    // A keyword written into a word is part of the word.
    assert_eq!(parse("fooOR").unwrap(), Query::Word("fooOR".to_string()));
    // A keyword run into a word is part of the word, which is then a trailing token.
    assert_eq!(parse("foo ORbar"), Err(ParseError));
    assert_eq!(parse("foo ORANGE"), Err(ParseError));
    assert_eq!(parse("foo ANDROID"), Err(ParseError));
    // A keyword may be followed by a parenthesis.
    assert_eq!(parse("foo OR(bar)").unwrap(), Query::Or(word("foo"), word("bar")));
    assert_eq!(parse("ORANGE OR ANDROID").unwrap(), Query::Or(word("ORANGE"), word("ANDROID")));
}

#[test]
fn parse_classified_follows_given_kinds() {
    let kinds = vec![CharKind::Word, CharKind::Space, CharKind::Word, CharKind::Word, CharKind::Space, CharKind::Word];
    assert_eq!(parse_classified("a OR b", &kinds).unwrap(), Query::Or(word("a"), word("b")));
    let other = vec![CharKind::Word, CharKind::Space, CharKind::Word, CharKind::Word, CharKind::Other, CharKind::Word];
    assert_eq!(parse_classified("a OR-b", &other), Err(ParseError));
}

#[test]
fn query_clone_is_equal() {
    let q = parse("(foo AND bar) OR baz").unwrap();
    assert_eq!(q.clone(), q);
}
