use frontend::parse::{ident, name, ParseError};
use frontend::lex::{tokenize, LexErrorKind, Sym, Token};
use frontend::syntax::Ident;

fn mk_ident(s: &str) -> Ident {
    Ident { name: s.to_owned(), collision_id: 0 }
}

#[test]
fn unquoted_name() {
    assert_eq!(name("hello"), Ok("hello".to_owned()));
    assert_eq!(name("HeLlO_wOrLd"), Ok("HeLlO_wOrLd".to_owned()));
    assert_eq!(name("_foo_bar_42_baz0"), Ok("_foo_bar_42_baz0".to_owned()));

    assert!(name("42").is_err());
    assert!(name("-hello").is_err());
    assert!(name("hello world").is_err());
}

#[test]
fn quoted_name() {
    assert_eq!(name("`hello`"), Ok("hello".to_owned()));
    assert_eq!(name("`hello world`"), Ok("hello world".to_owned()));
    assert_eq!(name("`hello\\\\world`"), Ok("hello\\world".to_owned()));
    assert_eq!(name("`hello\\`world`"), Ok("hello`world".to_owned()));

    assert!(name("` ` `").is_err());
}

#[test]
fn whitespace() {
    let ws = frontend::parse::whitespace;
    assert!(ws("").is_ok());
    assert!(ws("  \t \n    \r \x0B  \n \n \t").is_ok());

    assert!(ws("// a comment").is_ok());
    assert!(ws("   // a comment \n \t \n // another comment  \n   ").is_ok());

    assert!(ws(" - ").is_err());
    assert!(ws(" hello ").is_err());
    assert!(ws(" // a comment \n not a comment").is_err());
}

#[test]
fn no_collision_ident() {
    assert_eq!(ident("foo"), Ok(Ident { name: "foo".to_owned(), collision_id: 0 }));

    assert_eq!(
        ident("`hello \\` world`"),
        Ok(Ident { name: "hello ` world".to_owned(), collision_id: 0 })
    );
}

#[test]
fn collision_ident() {
    assert_eq!(ident("foo#42"), Ok(Ident { name: "foo".to_owned(), collision_id: 42 }));

    assert_eq!(
        ident("foo // comment 1 \n # // comment 2 \n 42"),
        Ok(Ident { name: "foo".to_owned(), collision_id: 42 })
    );

    assert_eq!(
        ident("`quoted ident`#005"),
        Ok(Ident { name: "quoted ident".to_owned(), collision_id: 5 })
    );

    assert!(ident("foo#bar").is_err());
}

#[test]
fn raw_names_parse_as_themselves() {
    for s in ["a", "_", "Z9", "hello_world", "x1y2z3", "lets", "moved", "place"] {
        assert_eq!(ident(s), Ok(mk_ident(s)));
    }
}

#[test]
fn keywords_are_not_identifiers() {
    for s in ["move", "let", "let_exists", "make_exists", "func", "exists", "forall", "of", "in", "Place", "Version"] {
        assert!(ident(s).is_err());
    }
}

#[test]
fn escaped_text_round_trips() {
    for t in ["plain", "with space", "back\\slash", "tick`tick", "\\`\\`", "", "!#$%&()*+-./:;<=>?@[]^{|}~"] {
        let mut q = String::from("`");
        for c in t.chars() {
            if c == '\\' || c == '`' {
                q.push('\\');
            }
            q.push(c);
        }
        q.push('`');
        assert_eq!(ident(&q), Ok(mk_ident(t)));
    }
}

#[test]
fn ident_with_hash_but_no_integer_fails() {
    assert!(matches!(
        ident("foo#bar"),
        Err(ParseError::UnexpectedToken { offset: 4, .. })
    ));
    assert!(matches!(ident("foo#"), Err(ParseError::UnexpectedEof { offset: 4 })));
}

#[test]
fn lex_error_kinds() {
    assert_eq!(
        ident("`abc"),
        Err(ParseError::LexError { offset: 0, kind: LexErrorKind::UnterminatedQuote })
    );
    assert_eq!(
        ident("`a\\nb`"),
        Err(ParseError::LexError { offset: 2, kind: LexErrorKind::BadEscape })
    );
    assert_eq!(
        ident("a $"),
        Err(ParseError::LexError { offset: 2, kind: LexErrorKind::BadChar })
    );
    assert_eq!(
        ident("a#99999999999999999999"),
        Err(ParseError::LexError { offset: 2, kind: LexErrorKind::IntegerTooLarge })
    );
    assert_eq!(
        frontend::parse::whitespace("/ "),
        Err(ParseError::LexError { offset: 0, kind: LexErrorKind::BadChar })
    );
}

#[test]
fn tokens_and_offsets() {
    let toks = tokenize(" foo -> 007 // c\n`q`").unwrap();
    assert_eq!(toks.len(), 4);
    assert!(matches!(&toks[0].token, Token::Name(n) if n == "foo"));
    assert_eq!((toks[0].start, toks[0].end), (1, 4));
    assert!(matches!(toks[1].token, Token::Sym(Sym::Arrow)));
    assert_eq!((toks[1].start, toks[1].end), (5, 7));
    assert!(matches!(toks[2].token, Token::Int(7)));
    assert!(matches!(&toks[3].token, Token::Name(n) if n == "q"));
    assert_eq!((toks[3].start, toks[3].end), (17, 20));
}

#[test]
fn largest_collision_id() {
    assert_eq!(
        ident("x#18446744073709551615"),
        Ok(Ident { name: "x".to_owned(), collision_id: u64::MAX })
    );
}
