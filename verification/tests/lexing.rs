use scientia::lexer::{lex, lex_checked, Token, TokenKind};
use scientia::scientific::ScientificError;
use scientia::source::SourceSpan;

fn kinds(tokens: &[Token]) -> Vec<TokenKind> {
    tokens.iter().map(|t| t.kind.clone()).collect()
}

#[test]
fn lexes_a_field_declaration() {
    let tokens = lex("field T: Temperature on rod;").unwrap();
    assert_eq!(
        kinds(&tokens),
        vec![
            TokenKind::Ident("field".into()),
            TokenKind::Ident("T".into()),
            TokenKind::Punct(':'),
            TokenKind::Ident("Temperature".into()),
            TokenKind::Ident("on".into()),
            TokenKind::Ident("rod".into()),
            TokenKind::Punct(';'),
            TokenKind::Eof,
        ]
    );
    assert_eq!(tokens[0].span, SourceSpan::new(0, 5));
    assert_eq!(tokens[1].span, SourceSpan::new(6, 7));
    assert_eq!(tokens.last().unwrap().span, SourceSpan::new(28, 28));
}

#[test]
fn numbers_keep_their_spelling() {
    let tokens = lex("1.5e-3 .25 7 2E+4").unwrap();
    assert_eq!(
        kinds(&tokens),
        vec![
            TokenKind::Number("1.5e-3".into()),
            TokenKind::Number(".25".into()),
            TokenKind::Number("7".into()),
            TokenKind::Number("2E+4".into()),
            TokenKind::Eof,
        ]
    );
    assert_eq!(tokens[0].span, SourceSpan::new(0, 6));
}

#[test]
fn a_sign_ends_a_number_unless_it_follows_an_exponent() {
    let tokens = lex("1-2").unwrap();
    assert_eq!(
        kinds(&tokens),
        vec![
            TokenKind::Number("1".into()),
            TokenKind::Op("-".into()),
            TokenKind::Number("2".into()),
            TokenKind::Eof,
        ]
    );
}

#[test]
fn operators_and_punctuation() {
    let tokens = lex("a==b<=c>=d->e+f^g{}()[],@/h").unwrap();
    let ops: Vec<TokenKind> = kinds(&tokens)
        .into_iter()
        .filter(|k| matches!(k, TokenKind::Op(_) | TokenKind::Punct(_)))
        .collect();
    assert_eq!(
        ops,
        vec![
            TokenKind::Op("==".into()),
            TokenKind::Op("<=".into()),
            TokenKind::Op(">=".into()),
            TokenKind::Op("->".into()),
            TokenKind::Op("+".into()),
            TokenKind::Op("^".into()),
            TokenKind::Punct('{'),
            TokenKind::Punct('}'),
            TokenKind::Punct('('),
            TokenKind::Punct(')'),
            TokenKind::Punct('['),
            TokenKind::Punct(']'),
            TokenKind::Punct(','),
            TokenKind::Punct('@'),
            TokenKind::Op("/".into()),
        ]
    );
}

#[test]
fn comments_and_strings() {
    let tokens = lex("# heading\nx // note\n\"rod end\"").unwrap();
    assert_eq!(
        kinds(&tokens),
        vec![
            TokenKind::Ident("x".into()),
            TokenKind::String("rod end".into()),
            TokenKind::Eof,
        ]
    );
    assert_eq!(tokens[1].span, SourceSpan::new(20, 29));
}

#[test]
fn spans_count_bytes() {
    let tokens = lex("π_r + πx").unwrap();
    assert_eq!(tokens[0].kind, TokenKind::Ident("π_r".into()));
    assert_eq!(tokens[0].span, SourceSpan::new(0, 4));
    assert_eq!(tokens[1].span, SourceSpan::new(5, 6));
    assert_eq!(tokens[2].kind, TokenKind::Ident("πx".into()));
    assert_eq!(tokens[2].span, SourceSpan::new(7, 10));
    assert_eq!(tokens[3].span, SourceSpan::new(10, 10));
}

#[test]
fn invalid_numbers_are_reported() {
    let errors = lex("x = 1.2.3 + 4e").unwrap_err();
    assert_eq!(
        errors,
        vec![
            ScientificError::Syntax {
                message: "invalid number".into(),
                span: SourceSpan::new(4, 9)
            },
            ScientificError::Syntax {
                message: "invalid number".into(),
                span: SourceSpan::new(12, 14)
            },
        ]
    );
}

#[test]
fn unterminated_string_stops_lexing() {
    let errors = lex("a \"open $ b").unwrap_err();
    assert_eq!(
        errors,
        vec![ScientificError::Syntax {
            message: "unterminated string".into(),
            span: SourceSpan::new(2, 11)
        }]
    );
}

#[test]
fn unexpected_characters_are_reported() {
    let errors = lex("a $ b ? c").unwrap_err();
    assert_eq!(
        errors,
        vec![
            ScientificError::Syntax {
                message: "unexpected character `$`".into(),
                span: SourceSpan::new(2, 3)
            },
            ScientificError::Syntax {
                message: "unexpected character `?`".into(),
                span: SourceSpan::new(6, 7)
            },
        ]
    );
}

#[test]
fn empty_input_is_just_eof() {
    let tokens = lex("").unwrap();
    assert_eq!(kinds(&tokens), vec![TokenKind::Eof]);
    assert_eq!(tokens[0].span, SourceSpan::new(0, 0));
    let tokens = lex("   \n\t").unwrap();
    assert_eq!(tokens[0].span, SourceSpan::new(5, 5));
}

#[test]
fn checked_lexing_accepts_multibyte_identifiers() {
    let tokens = lex_checked("π_r + πx").unwrap().unwrap();
    assert_eq!(tokens[0].kind, TokenKind::Ident("π_r".into()));
    assert_eq!(tokens[2].kind, TokenKind::Ident("πx".into()));
    assert_eq!(tokens, lex("π_r + πx").unwrap());
}

#[test]
fn checked_lexing_refuses_a_split_operator_look() {
    // An operator character followed by a multi-byte character: the two-byte look would end
    // inside that character.
    assert!(lex_checked("+é").is_none());
    assert!(lex_checked("a+b").is_some());
}
