use lib::character::CharacterTokenizer;
use lib::data::Data;
use lib::error::Error;
use lib::registry::VariantRegistry;
use lib::stack::CharacterStack;
use lib::token::{Token, TokenType};

fn chars(s: &str) -> Vec<char> {
    s.chars().collect()
}

fn string(s: &str) -> Data {
    Data::String(chars(s))
}

fn settings(delimiter: Data, replace: Option<Data>) -> Data {
    let mut pairs = vec![(Data::Identifier(chars("delimiter")), delimiter)];
    if let Some(r) = replace {
        pairs.push((Data::Keyword(chars("replace")), r));
    }
    Data::Mapping(pairs)
}

fn quotes() -> Data {
    Data::List(vec![string("'"), string("'")])
}

fn escapes() -> Data {
    Data::Mapping(vec![
        (string("\\"), string("?")),
        (string("\\n"), string("\n")),
        (string("\\'"), string("'")),
    ])
}

fn setup(settings: &Data, source: &str) -> (Result<CharacterTokenizer, Error>, CharacterStack, VariantRegistry) {
    let mut stack = CharacterStack::new(chars(source), None);
    let mut registry = VariantRegistry::new();
    let t = CharacterTokenizer::new(settings, &mut stack, &mut registry);
    (t, stack, registry)
}

fn read(source: &str) -> (bool, Vec<Token>, CharacterStack) {
    let (t, mut stack, registry) = setup(&settings(quotes(), Some(escapes())), source);
    assert!(registry.has_characters);
    let t = t.unwrap();
    let mut tokens = Vec::new();
    stack.start_positions();
    let found = t.find(&mut stack, &mut tokens).unwrap();
    (found, tokens, stack)
}

#[test]
fn a_plain_literal_gives_its_character() {
    let (found, tokens, stack) = read("'a'");
    assert!(found);
    assert_eq!(tokens.len(), 1);
    assert!(matches!(tokens[0].token_type, TokenType::Character('a')));
    assert_eq!(tokens[0].position.len(), 1);
    assert_eq!((tokens[0].position[0].character, tokens[0].position[0].length), (1, 3));
    assert!(stack.is_empty());
}

#[test]
fn escapes_are_replaced_longest_first() {
    let (_, tokens, _) = read("'\\n'");
    assert!(matches!(tokens[0].token_type, TokenType::Character('\n')));
    let (_, tokens, _) = read("'\\''");
    assert!(matches!(tokens[0].token_type, TokenType::Character('\'')));
    // The two-character escape of the quote is tried before the shorter one,
    // so the closing quote is taken as escaped and the literal never ends.
    let (_, tokens, _) = read("'\\'");
    assert!(matches!(&tokens[0].token_type, TokenType::Invalid(Error::UnterminatedToken(_))));
    let (_, tokens, _) = read("'\\x'");
    match &tokens[0].token_type {
        TokenType::Invalid(Error::InvalidCharacterLength(Data::String(s))) => assert_eq!(s, &chars("?x")),
        other => panic!("unexpected {:?}", other),
    }
}

#[test]
fn a_literal_of_two_characters_is_invalid() {
    let (found, tokens, _) = read("'ab'");
    assert!(found);
    match &tokens[0].token_type {
        TokenType::Invalid(Error::InvalidCharacterLength(Data::String(s))) => assert_eq!(s, &chars("ab")),
        other => panic!("unexpected {:?}", other),
    }
    let (_, tokens, _) = read("''");
    assert!(matches!(&tokens[0].token_type, TokenType::Invalid(Error::InvalidCharacterLength(_))));
}

#[test]
fn an_unterminated_literal_is_invalid() {
    let (found, tokens, stack) = read("'a");
    assert!(found);
    match &tokens[0].token_type {
        TokenType::Invalid(Error::UnterminatedToken(Data::Identifier(s))) => assert_eq!(s, &chars("character")),
        other => panic!("unexpected {:?}", other),
    }
    assert!(stack.is_empty());
}

#[test]
fn other_input_is_left_alone() {
    let (found, tokens, mut stack) = read("x'a'");
    assert!(!found);
    assert!(tokens.is_empty());
    assert_eq!(stack.pop(), Some('x'));
}

#[test]
fn the_opening_quote_ends_words() {
    let (t, mut stack, _) = setup(&settings(quotes(), None), "ab'c'");
    assert!(t.is_ok());
    assert_eq!(stack.till_breaking(), chars("ab"));
}

#[test]
fn settings_must_be_a_mapping() {
    let (t, _, registry) = setup(&Data::Integer(1), "");
    assert!(matches!(t, Err(Error::ExpectedFound(_, Data::Integer(1)))));
    assert!(!registry.has_characters);
}

#[test]
fn missing_delimiter_is_an_error() {
    let (t, _, registry) = setup(&Data::Mapping(vec![]), "");
    assert!(matches!(t, Err(Error::MissingEntry(Data::Identifier(_)))));
    assert!(registry.has_characters);
}

#[test]
fn delimiter_must_be_a_list_of_two_literals() {
    let (t, _, _) = setup(&settings(string("'"), None), "");
    match t {
        Err(Error::ExpectedFound(e, _)) => assert_eq!(e, vec![chars("list")]),
        other => panic!("unexpected {:?}", other.err()),
    }
    let (t, _, _) = setup(&settings(Data::List(vec![string("'")]), None), "");
    assert!(matches!(t, Err(Error::InvalidItemCount(Data::Integer(2), Data::Integer(1)))));
    let (t, _, _) = setup(&settings(Data::List(vec![string("'"), Data::Integer(3)]), None), "");
    match t {
        Err(Error::ExpectedFound(e, Data::Integer(3))) => assert_eq!(e, vec![chars("literal")]),
        other => panic!("unexpected {:?}", other.err()),
    }
    let (t, _, _) = setup(&settings(Data::List(vec![string(""), string("'")]), None), "");
    assert!(matches!(t, Err(Error::EmptyLiteral)));
    let (t, _, _) = setup(&settings(Data::List(vec![string("'"), string("")]), None), "");
    assert!(matches!(t, Err(Error::EmptyLiteral)));
}

#[test]
fn replacements_must_be_a_mapping_of_literals() {
    let (t, _, _) = setup(&settings(quotes(), Some(Data::Integer(0))), "");
    assert!(matches!(t, Err(Error::ExpectedFound(_, Data::Integer(0)))));
    let (t, _, _) = setup(&settings(quotes(), Some(Data::Mapping(vec![(Data::Integer(1), string("x"))]))), "");
    assert!(matches!(t, Err(Error::ExpectedFound(_, Data::Integer(1)))));
    let (t, _, _) = setup(&settings(quotes(), Some(Data::Mapping(vec![(string("x"), Data::Integer(2))]))), "");
    assert!(matches!(t, Err(Error::ExpectedFound(_, Data::Integer(2)))));
    let (t, _, _) = setup(&settings(quotes(), Some(Data::Mapping(vec![(string(""), string("x"))]))), "");
    assert!(matches!(t, Err(Error::EmptyLiteral)));
}

#[test]
fn identifiers_and_keywords_are_literals_too() {
    let d = Data::List(vec![Data::Identifier(chars("<")), Data::Keyword(chars(">"))]);
    let (t, mut stack, _) = setup(&settings(d, None), "<z>");
    let t = t.unwrap();
    let mut tokens = Vec::new();
    stack.start_positions();
    assert!(t.find(&mut stack, &mut tokens).unwrap());
    assert!(matches!(tokens[0].token_type, TokenType::Character('z')));
}
