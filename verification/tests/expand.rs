use include_cargo_toml2::{
    expand, include_toml, Failure, Fragment, IndexError, Missing, ParseError, Token,
};

const MANIFEST: &str = r#"
[package]
name = "include-cargo-toml2"
version = "0.3.1"
edition = "2021"
keywords = ["macro", "version", "Cargo-toml", "compile-time", "parse"]

[package.metadata.deb]
revision = 4

[lib]
proc-macro = true
"#;

fn literal(value: &str) -> Fragment {
    Fragment::Str(value.to_string())
}

#[test]
fn load_version_from_inner_folder() {
    assert_eq!(include_toml(MANIFEST, r#""package"."name""#), Ok(literal("include-cargo-toml2")));
}

#[test]
fn version_is_made_a_string_literal() {
    assert_eq!(include_toml(MANIFEST, r#""package"."version""#), Ok(literal("0.3.1")));
}

#[test]
fn keyword_is_selected_by_its_position() {
    assert_eq!(include_toml(MANIFEST, r#""package"."keywords".2"#), Ok(literal("Cargo-toml")));
}

#[test]
fn boolean_is_made_a_word() {
    assert_eq!(include_toml(MANIFEST, r#""lib"."proc-macro""#), Ok(Fragment::Bool(true)));
}

#[test]
fn integer_is_made_an_integer_literal() {
    assert_eq!(
        include_toml(MANIFEST, r#""package"."metadata"."deb"."revision""#),
        Ok(Fragment::I64(4))
    );
}

#[test]
fn keywords_are_made_a_group() {
    assert_eq!(
        include_toml(MANIFEST, r#""package"."keywords""#),
        Ok(Fragment::Group(vec![
            literal("macro"),
            Fragment::Comma,
            literal("version"),
            Fragment::Comma,
            literal("Cargo-toml"),
            Fragment::Comma,
            literal("compile-time"),
            Fragment::Comma,
            literal("parse"),
            Fragment::Comma,
        ]))
    );
}

#[test]
fn table_is_made_a_group_of_pairs() {
    assert_eq!(
        include_toml(MANIFEST, r#""package"."metadata""#),
        Ok(Fragment::Group(vec![
            Fragment::Group(vec![
                literal("deb"),
                Fragment::Comma,
                Fragment::Group(vec![
                    Fragment::Group(vec![literal("revision"), Fragment::Comma, Fragment::I64(4)]),
                    Fragment::Comma,
                ]),
            ]),
            Fragment::Comma,
        ]))
    );
}

#[test]
fn missing_key_is_made_the_empty_group() {
    assert_eq!(include_toml(MANIFEST, r#""nonexistent""#), Ok(Fragment::Group(vec![])));
    assert_eq!(include_toml(MANIFEST, r#""package"."keywords".5"#), Ok(Fragment::Group(vec![])));
}

#[test]
fn same_texts_give_the_same_constant() {
    let first = include_toml(MANIFEST, r#""package"."keywords""#);
    let second = include_toml(MANIFEST, r#""package"."keywords""#);

    assert_eq!(first, second);
    assert!(first.is_ok());
}

#[test]
fn manifest_that_is_no_toml_fails() {
    assert_eq!(include_toml("[package", r#""package"."name""#), Err(Failure::Manifest));
}

#[test]
fn manifest_is_read_before_the_path() {
    assert_eq!(include_toml("[package", r#"."package""#), Err(Failure::Manifest));
}

#[test]
fn leading_and_trailing_dots_fail() {
    assert_eq!(
        include_toml(MANIFEST, r#"."package"."name""#),
        Err(Failure::Index(IndexError::Syntax(ParseError::CannotParseItem {
            position: 0,
            cause: Missing::NotALiteral
        })))
    );
    assert_eq!(
        include_toml(MANIFEST, r#""package"."name"."#),
        Err(Failure::Index(IndexError::Syntax(ParseError::CannotParseItem {
            position: 4,
            cause: Missing::EndOfInput
        })))
    );
}

#[test]
fn each_failure_of_the_path_is_passed_on() {
    assert_eq!(
        include_toml(MANIFEST, r#""package".1.5"#),
        Err(Failure::Index(IndexError::Syntax(ParseError::UnsupportedLiteral { position: 2 })))
    );
    assert_eq!(
        include_toml(MANIFEST, r#""package" "name""#),
        Err(Failure::Index(IndexError::Trailing { position: 1 }))
    );
    assert_eq!(
        include_toml(MANIFEST, "99999999999999999999999999999999999999999"),
        Err(Failure::Index(IndexError::OutOfRange))
    );
    assert_eq!(include_toml(MANIFEST, r#""package"#), Err(Failure::Index(IndexError::Lexical)));
}

#[test]
fn tokens_give_what_their_text_gives() {
    let tokens = [
        Token::Str("package".to_string()),
        Token::Dot,
        Token::Str("keywords".to_string()),
        Token::Dot,
        Token::Int("2".to_string()),
    ];

    assert_eq!(expand(MANIFEST, &tokens), Ok(literal("Cargo-toml")));
    assert_eq!(expand(MANIFEST, &tokens), include_toml(MANIFEST, r#""package"."keywords".2"#));
}

#[test]
fn same_tokens_give_the_same_constant() {
    let tokens = [Token::Str("package".to_string()), Token::Dot, Token::Str("metadata".to_string())];

    assert_eq!(expand(MANIFEST, &tokens), expand(MANIFEST, &tokens));
    assert!(expand(MANIFEST, &tokens).is_ok());
}

#[test]
fn failures_are_told_apart_on_tokens() {
    let path = [Token::Str("package".to_string())];

    assert_eq!(expand("[package", &path), Err(Failure::Manifest));
    assert_eq!(expand("[package", &[]), Err(Failure::Manifest));
    assert_eq!(
        expand(MANIFEST, &[]),
        Err(Failure::Index(IndexError::Syntax(ParseError::CannotParseItem {
            position: 0,
            cause: Missing::EndOfInput
        })))
    );
    assert_eq!(
        expand(MANIFEST, &[Token::OtherLiteral]),
        Err(Failure::Index(IndexError::Syntax(ParseError::UnsupportedLiteral { position: 0 })))
    );
    assert_eq!(
        expand(MANIFEST, &[Token::Int("-1".to_string())]),
        Err(Failure::Index(IndexError::OutOfRange))
    );
    assert_eq!(
        expand(MANIFEST, &[Token::Str("package".to_string()), Token::Other]),
        Err(Failure::Index(IndexError::Trailing { position: 1 }))
    );
}
