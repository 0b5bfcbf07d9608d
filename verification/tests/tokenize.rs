use lib::data::Data;
use lib::error::Error;
use lib::tokenize::{resolve, tokenize, Resolution};
use lib::token::TokenType;

fn chars(s: &str) -> Vec<char> {
    s.chars().collect()
}

fn compiler(with_characters: bool) -> Data {
    let mut pairs = vec![];
    if with_characters {
        let settings = Data::Mapping(vec![(
            Data::Identifier(chars("delimiter")),
            Data::List(vec![Data::String(chars("'")), Data::String(chars("'"))]),
        )]);
        pairs.push((Data::Keyword(chars("character_tokenizer")), settings));
    }
    Data::Mapping(pairs)
}

fn run(compiler: &Data, source: &str) -> Result<(Vec<lib::token::Token>, lib::registry::VariantRegistry), Error> {
    tokenize(compiler, chars(source), None, &None, &Data::Mapping(vec![]), &Data::Mapping(vec![]), true)
}

#[test]
fn characters_and_unregistered_words() {
    let (tokens, registry) = run(&compiler(true), "'a'xy'b'").unwrap();
    assert!(registry.has_characters);
    assert_eq!(tokens.len(), 3);
    assert!(matches!(tokens[0].token_type, TokenType::Character('a')));
    match &tokens[1].token_type {
        TokenType::Invalid(Error::UnregisteredCharacter(Data::Character(c))) => assert_eq!(*c, '!'),
        other => panic!("unexpected {:?}", other),
    }
    assert_eq!((tokens[1].position[0].character, tokens[1].position[0].length), (4, 2));
    assert!(matches!(tokens[2].token_type, TokenType::Character('b')));
    assert_eq!((tokens[2].position[0].character, tokens[2].position[0].length), (6, 3));
}

#[test]
fn without_character_settings_everything_is_one_word() {
    let (tokens, registry) = run(&compiler(false), "xy 'z'").unwrap();
    assert!(!registry.has_characters);
    assert_eq!(tokens.len(), 1);
    assert!(matches!(&tokens[0].token_type, TokenType::Invalid(Error::UnregisteredCharacter(_))));
}

#[test]
fn empty_source_gives_no_tokens() {
    let (tokens, _) = run(&compiler(true), "").unwrap();
    assert!(tokens.is_empty());
}

#[test]
fn tokens_span_lines() {
    let (tokens, _) = run(&compiler(true), "'\n'").unwrap();
    assert!(matches!(tokens[0].token_type, TokenType::Character('\n')));
    assert_eq!(tokens[0].position.len(), 2);
    assert_eq!((tokens[0].position[1].line, tokens[0].position[1].character), (2, 1));
}

#[test]
fn bad_character_settings_are_an_error() {
    let bad = Data::Mapping(vec![(Data::Keyword(chars("character_tokenizer")), Data::Integer(1))]);
    assert!(matches!(run(&bad, "x"), Err(Error::ExpectedFound(_, Data::Integer(1)))));
}

#[test]
fn never_more_tokens_than_characters() {
    for source in ["", "x", "'a'", "'a'b'c'", "", "ab\ncd'e'"] {
        let (tokens, _) = run(&compiler(true), source).unwrap();
        assert!(tokens.len() <= source.chars().count());
        assert!(!source.is_empty() || tokens.is_empty());
    }
}

fn with_entry(mut compiler: Data, key: &str, value: Data) -> Data {
    if let Data::Mapping(pairs) = &mut compiler {
        pairs.push((Data::Keyword(chars(key)), value));
    }
    compiler
}

fn unavailable(r: Result<(Vec<lib::token::Token>, lib::registry::VariantRegistry), Error>) -> String {
    match r {
        Err(Error::UnavailableTokenizer(Data::Keyword(k))) => k.iter().collect(),
        other => panic!("unexpected {:?}", other.map(|(t, _)| t.len())),
    }
}

#[test]
fn configured_tokenizers_that_are_not_provided_are_refused() {
    let malformed_comment = with_entry(compiler(false), "comment_tokenizer", Data::Integer(0));
    assert_eq!(unavailable(run(&malformed_comment, "x")), "comment_tokenizer");
    for name in ["number_tokenizer", "string_tokenizer", "operator_tokenizer", "keyword_tokenizer", "identifier_tokenizer"] {
        let c = with_entry(compiler(true), name, Data::Mapping(vec![]));
        assert_eq!(unavailable(run(&c, "'a'")), name);
    }
}

#[test]
fn tokenizers_fail_in_their_order() {
    // The string tokenizer comes before the character tokenizer, the
    // operator tokenizer after it.
    let bad_characters = Data::Mapping(vec![(
        Data::Keyword(chars("character_tokenizer")),
        Data::Integer(1),
    )]);
    let c = with_entry(bad_characters.duplicate(), "string_tokenizer", Data::Mapping(vec![]));
    assert_eq!(unavailable(run(&c, "")), "string_tokenizer");
    let c = with_entry(bad_characters, "operator_tokenizer", Data::Mapping(vec![]));
    assert!(matches!(run(&c, ""), Err(Error::ExpectedFound(_, Data::Integer(1)))));
}

#[test]
fn resolve_takes_the_first_deciding_outcome() {
    assert!(matches!(resolve(vec![Ok(false), Ok(true), Err(Error::EmptyLiteral)], None), Resolution::Accepted));
    assert!(matches!(resolve(vec![Ok(false), Err(Error::EmptyLiteral), Ok(true)], None), Resolution::Failed(Error::EmptyLiteral)));
    assert!(matches!(resolve(vec![Ok(false)], Some(Error::MissingToken)), Resolution::Invalid(Error::MissingToken)));
    match resolve(vec![], None) {
        Resolution::Invalid(Error::UnregisteredCharacter(Data::Character(c))) => assert_eq!(c, '!'),
        other => panic!("unexpected {:?}", other),
    }
}
