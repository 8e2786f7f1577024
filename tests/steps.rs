use brace_expand::{convert_to_string, expand_one_level, Expansion, Token, TokenIter};

fn tokens_of(text: &str) -> Vec<Token> {
    let mut iter = TokenIter::new(text);
    let mut out = Vec::new();
    while let Some(token) = iter.next() {
        out.push(token);
    }
    out
}

#[test]
fn tokenizer_resolves_escapes() {
    assert_eq!(
        tokens_of("a{\\,,}\\"),
        vec![
            Token::Char('a'),
            Token::OpenBrace,
            Token::Char(','),
            Token::Comma,
            Token::CloseBrace,
        ]
    );
}

#[test]
fn tokenizer_on_empty_input() {
    let mut iter = TokenIter::new("");
    assert_eq!(iter.next(), None);
}

#[test]
fn convert_keeps_only_characters() {
    let tokens = vec![
        Token::Char('x'),
        Token::OpenBrace,
        Token::Comma,
        Token::Char('{'),
        Token::CloseBrace,
        Token::Char('y'),
    ];
    assert_eq!(convert_to_string(&tokens), "x{y");
}

#[test]
fn one_level_resolves_only_the_first_group() {
    match expand_one_level(tokens_of("a{b,c}d{e,f}")) {
        Expansion::Partial(items) => {
            assert_eq!(items, vec![tokens_of("abd{e,f}"), tokens_of("acd{e,f}")]);
        }
        Expansion::Complete(_) => panic!("expected a group"),
    }
}

#[test]
fn one_level_keeps_nested_groups() {
    match expand_one_level(tokens_of("{x{p,q},y}")) {
        Expansion::Partial(items) => {
            assert_eq!(items, vec![tokens_of("x{p,q}"), tokens_of("y")]);
        }
        Expansion::Complete(_) => panic!("expected a group"),
    }
}

#[test]
fn one_level_without_group_is_complete() {
    match expand_one_level(tokens_of("a,b}{c")) {
        Expansion::Complete(text) => assert_eq!(text, "abc"),
        Expansion::Partial(_) => panic!("expected finished text"),
    }
}
