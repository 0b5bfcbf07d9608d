use lib::builder::{Decision, Flavor, Piece, Template, TemplateBuilder, Templates};
use lib::data::{Data, Decimal};
use lib::error::Error;
use lib::position::Position;
use lib::token::{Token, TokenType};

fn chars(s: &str) -> Vec<char> {
    s.chars().collect()
}

fn id(s: &str) -> Data {
    Data::Identifier(chars(s))
}

fn token(token_type: TokenType, column: usize) -> Token {
    Token::new(token_type, vec![Position { file: None, line: 1, character: column, length: 1 }])
}

fn template(pieces: Vec<Piece>) -> Template {
    Template { passes: None, flavors: vec![Flavor { pieces }] }
}

fn get(d: &Data, path: &[&str]) -> Data {
    let mut cur = d.duplicate();
    for name in path {
        cur = cur.index(&id(name)).unwrap().unwrap();
    }
    cur
}

fn text(d: &Data) -> String {
    match d {
        Data::Identifier(s) | Data::String(s) | Data::Keyword(s) => s.iter().collect(),
        other => panic!("unexpected {:?}", other),
    }
}

fn pick(name: &str) -> Vec<Decision> {
    vec![Decision::Template(chars(name)), Decision::Flavor(0)]
}

/// A token piece first looks at the decision stream for a filter to step
/// over, so a stream must go on after the last token piece is read.
fn ended(mut decisions: Vec<Decision>) -> Vec<Decision> {
    decisions.push(Decision::End);
    decisions
}

#[test]
fn builds_keyed_tokens_comments_and_data() {
    let templates = Templates {
        entries: vec![(
            chars("let"),
            template(vec![
                Piece::Keyword(Some(id("keyword")), chars("let")),
                Piece::Comment(id("doc")),
                Piece::Identifier(Some(id("name")), vec![]),
                Piece::Data(id("kind"), Data::String(chars("binding"))),
                Piece::Float(Some(id("value")), vec![]),
            ]),
        )],
    };
    let tokens = vec![
        token(TokenType::Keyword(chars("let")), 1),
        token(TokenType::Comment(chars(" one")), 5),
        token(TokenType::Comment(chars(" two")), 6),
        token(TokenType::Identifier(chars("x")), 9),
        token(TokenType::Float(Decimal { negative: false, whole: 1, fraction: 5, digits: 1 }), 11),
    ];
    let decisions = ended(pick("let"));
    let mut builder = TemplateBuilder::new(&tokens, &decisions, &templates);
    let (map, positions) = builder.build(true).unwrap();
    assert_eq!(text(&get(&map, &["entries", "keyword"])), "let");
    assert_eq!(text(&get(&map, &["entries", "doc"])), " one two");
    assert_eq!(text(&get(&map, &["entries", "name"])), "x");
    assert_eq!(text(&get(&map, &["entries", "kind"])), "binding");
    assert!(matches!(get(&map, &["entries", "value"]), Data::Float(Decimal { whole: 1, fraction: 5, .. })));
    match get(&map, &["positions", "kind"]) {
        Data::List(items) => assert!(items.is_empty()),
        other => panic!("unexpected {:?}", other),
    }
    assert_eq!(positions.len(), 1);
    assert_eq!((positions[0].character, positions[0].length), (1, 11));
    match get(&map, &["position"]) {
        Data::List(items) => {
            assert_eq!(items.len(), 1);
            assert!(items[0].equal(&positions[0].serialize()));
        }
        other => panic!("unexpected {:?}", other),
    }
    assert_eq!(builder.token_index, 5);
}

#[test]
fn builds_separated_lists() {
    let templates = Templates {
        entries: vec![(
            chars("numbers"),
            template(vec![Piece::List(
                Some(id("items")),
                Box::new(Piece::Integer(None, vec![])),
                Some(Box::new(Piece::Operator(None, vec![]))),
            )]),
        )],
    };
    let tokens = vec![
        token(TokenType::Integer(1), 1),
        token(TokenType::Operator(chars(",")), 2),
        token(TokenType::Integer(2), 3),
    ];
    let mut decisions = pick("numbers");
    decisions.extend(vec![Decision::List, Decision::Next, Decision::End]);
    let mut builder = TemplateBuilder::new(&tokens, &decisions, &templates);
    let (map, _) = builder.build(false).unwrap();
    match get(&map, &["entries", "items"]) {
        Data::List(items) => {
            assert_eq!(items.len(), 2);
            assert!(matches!(get(&items[0], &["item"]), Data::Integer(1)));
            assert_eq!(text(&get(&items[0], &["separator"])), ",");
            assert!(matches!(get(&items[1], &["item"]), Data::Integer(2)));
            assert!(items[1].index(&id("separator")).unwrap().is_none());
            assert!(matches!(get(&items[0], &["position", "separator"]), Data::List(_)));
        }
        other => panic!("unexpected {:?}", other),
    }
}

#[test]
fn merged_templates_share_entries() {
    let templates = Templates {
        entries: vec![
            (chars("outer"), template(vec![Piece::Merge(chars("inner")), Piece::Identifier(Some(id("b")), vec![])])),
            (chars("inner"), template(vec![Piece::Identifier(Some(id("a")), vec![])])),
        ],
    };
    let tokens = vec![token(TokenType::Identifier(chars("p")), 1), token(TokenType::Identifier(chars("q")), 3)];
    let mut decisions = pick("outer");
    decisions.extend(pick("inner"));
    let decisions = ended(decisions);
    let mut builder = TemplateBuilder::new(&tokens, &decisions, &templates);
    let (map, positions) = builder.build(true).unwrap();
    assert_eq!(text(&get(&map, &["entries", "a"])), "p");
    assert_eq!(text(&get(&map, &["entries", "b"])), "q");
    assert_eq!((positions[0].character, positions[0].length), (1, 3));
}

#[test]
fn nested_templates_and_passes() {
    let mut outer = template(vec![Piece::Template(Some(id("inner")), chars("inner"))]);
    outer.passes = Some(Data::List(vec![id("check")]));
    let mut inner = template(vec![Piece::Character(Some(id("c")), vec![])]);
    inner.passes = Some(Data::List(vec![id("other")]));
    let templates = Templates { entries: vec![(chars("outer"), outer), (chars("inner"), inner)] };
    let tokens = vec![token(TokenType::Character('z'), 1)];
    let mut decisions = vec![Decision::Filter(0)];
    decisions.extend(pick("outer"));
    decisions.push(Decision::Filter(1));
    decisions.extend(pick("inner"));
    let decisions = ended(decisions);
    let mut builder = TemplateBuilder::new(&tokens, &decisions, &templates);
    let (with, _) = builder.build(true).unwrap();
    assert!(matches!(get(&with, &["entries", "inner", "entries", "c"]), Data::Character('z')));
    assert!(with.index(&Data::Keyword(chars("pass"))).unwrap().is_some());
    assert!(get(&with, &["entries", "inner"]).index(&Data::Keyword(chars("pass"))).unwrap().is_some());
    let mut builder = TemplateBuilder::new(&tokens, &decisions, &templates);
    let (without, _) = builder.build(false).unwrap();
    assert!(without.index(&Data::Keyword(chars("pass"))).unwrap().is_none());
}

#[test]
fn malformed_streams_are_errors() {
    let templates = Templates { entries: vec![(chars("t"), template(vec![Piece::String(Some(id("s")), vec![])]))] };
    let tokens = vec![token(TokenType::Identifier(chars("x")), 1)];

    let decisions = vec![Decision::List];
    let r = TemplateBuilder::new(&tokens, &decisions, &templates).build(true);
    match r {
        Err(Error::UnexpectedDecision(k)) => assert_eq!(k, chars("template")),
        other => panic!("unexpected {:?}", other),
    }

    let decisions = pick("missing");
    assert!(matches!(TemplateBuilder::new(&tokens, &decisions, &templates).build(true), Err(Error::MissingTemplate(_))));

    let decisions = vec![Decision::Template(chars("t")), Decision::End];
    match TemplateBuilder::new(&tokens, &decisions, &templates).build(true) {
        Err(Error::UnexpectedDecision(k)) => assert_eq!(k, chars("flavor")),
        other => panic!("unexpected {:?}", other),
    }

    let decisions = vec![Decision::Template(chars("t"))];
    assert!(matches!(TemplateBuilder::new(&tokens, &decisions, &templates).build(true), Err(Error::MissingDecision)));

    let decisions: Vec<Decision> = vec![];
    assert!(matches!(TemplateBuilder::new(&tokens, &decisions, &templates).build(true), Err(Error::MissingDecision)));

    let decisions = vec![Decision::Template(chars("t")), Decision::Flavor(3)];
    assert!(matches!(TemplateBuilder::new(&tokens, &decisions, &templates).build(true), Err(Error::MissingFlavor(3))));

    let decisions = ended(pick("t"));
    match TemplateBuilder::new(&tokens, &decisions, &templates).build(true) {
        Err(Error::UnexpectedToken(k)) => assert_eq!(k, chars("string")),
        other => panic!("unexpected {:?}", other),
    }

    let no_tokens: Vec<Token> = vec![token(TokenType::Comment(chars("c")), 1)];
    assert!(matches!(TemplateBuilder::new(&no_tokens, &decisions, &templates).build(true), Err(Error::MissingToken)));
}

#[test]
fn duplicate_keys_are_an_error() {
    let templates = Templates {
        entries: vec![(chars("t"), template(vec![
            Piece::Identifier(Some(id("a")), vec![]),
            Piece::Identifier(Some(id("a")), vec![]),
        ]))],
    };
    let tokens = vec![token(TokenType::Identifier(chars("x")), 1), token(TokenType::Identifier(chars("y")), 2)];
    let decisions = ended(pick("t"));
    match TemplateBuilder::new(&tokens, &decisions, &templates).build(true) {
        Err(Error::DuplicateEntry(k)) => assert!(k.equal(&id("a"))),
        other => panic!("unexpected {:?}", other),
    }
}

#[test]
fn a_list_that_reads_nothing_and_never_ends_is_an_error() {
    let templates = Templates {
        entries: vec![(chars("t"), template(vec![Piece::List(
            None,
            Box::new(Piece::Data(id("x"), Data::Integer(0))),
            None,
        )]))],
    };
    let tokens: Vec<Token> = vec![];
    let mut decisions = pick("t");
    decisions.extend(vec![Decision::List, Decision::Flavor(0)]);
    assert!(matches!(TemplateBuilder::new(&tokens, &decisions, &templates).build(true), Err(Error::StalledList)));
    let mut decisions = pick("t");
    decisions.extend(vec![Decision::Next]);
    match TemplateBuilder::new(&tokens, &decisions, &templates).build(true) {
        Err(Error::UnexpectedDecision(k)) => assert_eq!(k, chars("list")),
        other => panic!("unexpected {:?}", other),
    }
}

#[test]
fn list_items_not_followed_by_next_or_end_are_dropped() {
    // After the first item the decision stream chooses a template rather
    // than saying `Next` or `End`: that item is dropped and another is built.
    let templates = Templates {
        entries: vec![
            (chars("t"), template(vec![Piece::List(
                Some(id("l")),
                Box::new(Piece::Template(None, chars("e"))),
                None,
            )])),
            (chars("e"), template(vec![])),
        ],
    };
    let tokens: Vec<Token> = vec![];
    let mut decisions = pick("t");
    decisions.push(Decision::List);
    decisions.extend(pick("e"));
    decisions.extend(pick("e"));
    decisions.push(Decision::End);
    let (map, _) = TemplateBuilder::new(&tokens, &decisions, &templates).build(true).unwrap();
    match get(&map, &["entries", "l"]) {
        Data::List(items) => assert_eq!(items.len(), 1),
        other => panic!("unexpected {:?}", other),
    }
}

#[test]
fn list_and_confirmed_pieces_build_alike() {
    let build = |confirmed: bool| {
        let part = Box::new(Piece::Integer(None, vec![]));
        let piece = if confirmed {
            Piece::Confirmed(Some(id("l")), part, None)
        } else {
            Piece::List(Some(id("l")), part, None)
        };
        let templates = Templates { entries: vec![(chars("t"), template(vec![piece]))] };
        let tokens = vec![token(TokenType::Integer(4), 1), token(TokenType::Integer(5), 3)];
        let mut decisions = pick("t");
        decisions.extend(vec![Decision::List, Decision::Next, Decision::End]);
        let mut builder = TemplateBuilder::new(&tokens, &decisions, &templates);
        let (map, positions) = builder.build(true).unwrap();
        (map, positions.len(), builder.token_index)
    };
    let (a, na, ta) = build(false);
    let (b, nb, tb) = build(true);
    assert!(a.equal(&b));
    assert_eq!((na, ta), (nb, tb));
}

#[test]
fn entries_hold_the_keyed_pieces_in_order() {
    let templates = Templates {
        entries: vec![(
            chars("t"),
            template(vec![
                Piece::Data(id("z"), Data::Integer(0)),
                Piece::Operator(None, vec![]),
                Piece::Data(id("a"), Data::Integer(1)),
            ]),
        )],
    };
    let tokens = vec![token(TokenType::Operator(chars("+")), 1)];
    let decisions = ended(pick("t"));
    let (map, _) = TemplateBuilder::new(&tokens, &decisions, &templates).build(true).unwrap();
    let keys: Vec<String> = get(&map, &["entries"]).pairs().unwrap().iter().map(|(k, _)| text(k)).collect();
    assert_eq!(keys, vec!["z".to_string(), "a".to_string()]);
}
