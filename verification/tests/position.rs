use lib::data::Data;
use lib::position::{serialize_positions, Position};

fn at(line: usize, character: usize, length: usize) -> Position {
    Position { file: None, line, character, length }
}

fn field(d: &Data, name: &str) -> Option<Data> {
    d.index(&Data::Identifier(name.chars().collect())).unwrap()
}

#[test]
fn range_joins_runs_on_one_line() {
    let runs = Position::range(vec![at(1, 1, 1), at(1, 2, 1), at(1, 3, 2), at(2, 1, 1)], true);
    assert_eq!(runs.len(), 2);
    assert_eq!((runs[0].line, runs[0].character, runs[0].length), (1, 1, 4));
    assert_eq!((runs[1].line, runs[1].character, runs[1].length), (2, 1, 1));
}

#[test]
fn range_covers_runs_given_out_of_order() {
    let runs = Position::range(vec![at(3, 10, 2), at(3, 4, 1)], true);
    assert_eq!(runs.len(), 1);
    assert_eq!((runs[0].character, runs[0].length), (4, 8));
}

#[test]
fn range_keeps_files_apart() {
    let a = Position { file: Some("a".chars().collect()), line: 1, character: 1, length: 1 };
    let b = Position { file: Some("b".chars().collect()), line: 1, character: 2, length: 1 };
    assert_eq!(Position::range(vec![a, b], true).len(), 2);
}

#[test]
fn range_without_merge_keeps_positions() {
    let runs = Position::range(vec![at(1, 1, 1), at(1, 2, 1)], false);
    assert_eq!(runs.len(), 2);
}

#[test]
fn range_twice_is_range_once() {
    let once = Position::range(vec![at(1, 1, 1), at(1, 2, 1), at(2, 5, 3), at(2, 1, 1), at(1, 9, 1)], true);
    let copy: Vec<Position> = once.iter().map(|p| p.copy()).collect();
    let twice = Position::range(copy, true);
    assert_eq!(once.len(), twice.len());
    for (a, b) in once.iter().zip(twice.iter()) {
        assert_eq!((a.line, a.character, a.length), (b.line, b.character, b.length));
    }
}

#[test]
fn range_saturates_at_the_end_of_usize() {
    let runs = Position::range(vec![at(1, usize::MAX - 1, 5), at(1, 1, 1)], true);
    assert_eq!((runs[0].character, runs[0].length), (1, usize::MAX - 1));
}

#[test]
fn serialize_gives_line_character_length_and_file() {
    let d = at(2, 5, 3).serialize();
    assert!(matches!(field(&d, "line"), Some(Data::Integer(2))));
    assert!(matches!(field(&d, "character"), Some(Data::Integer(5))));
    assert!(matches!(field(&d, "length"), Some(Data::Integer(3))));
    assert!(field(&d, "file").is_none());
    let p = Position { file: Some("main.sm".chars().collect()), line: 1, character: 1, length: 1 };
    match field(&p.serialize(), "file") {
        Some(Data::String(s)) => assert_eq!(s.iter().collect::<String>(), "main.sm"),
        other => panic!("unexpected {:?}", other),
    }
    match serialize_positions(&vec![at(1, 1, 1), at(2, 1, 1)]) {
        Data::List(items) => assert_eq!(items.len(), 2),
        other => panic!("unexpected {:?}", other),
    }
}
