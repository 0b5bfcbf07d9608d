use lib::data::Data;
use lib::error::Error;

fn chars(s: &str) -> Vec<char> {
    s.chars().collect()
}

fn id(s: &str) -> Data {
    Data::Identifier(chars(s))
}

fn empty_map() -> Data {
    Data::Mapping(Vec::new())
}

fn integer(d: &Option<Data>) -> i64 {
    match d {
        Some(Data::Integer(v)) => *v,
        other => panic!("unexpected {:?}", other),
    }
}

#[test]
fn insert_then_index_reads_back() {
    let m = empty_map().insert(&id("a"), Data::Integer(1)).unwrap();
    let m = m.insert(&id("b"), Data::Integer(2)).unwrap();
    assert_eq!(integer(&m.index(&id("a")).unwrap()), 1);
    assert_eq!(integer(&m.index(&id("b")).unwrap()), 2);
    assert!(m.index(&id("c")).unwrap().is_none());
}

#[test]
fn insert_of_present_key_is_refused() {
    let m = empty_map().insert(&id("a"), Data::Integer(1)).unwrap();
    match m.insert(&id("a"), Data::Integer(2)) {
        Err(Error::DuplicateEntry(Data::Identifier(k))) => assert_eq!(k, chars("a")),
        other => panic!("unexpected {:?}", other),
    }
}

#[test]
fn keys_of_different_kinds_are_different() {
    let m = empty_map().insert(&id("a"), Data::Integer(1)).unwrap();
    let m = m.insert(&Data::Keyword(chars("a")), Data::Integer(2)).unwrap();
    assert_eq!(integer(&m.index(&Data::Keyword(chars("a"))).unwrap()), 2);
    assert_eq!(integer(&m.index(&id("a")).unwrap()), 1);
}

#[test]
fn overwrite_replaces_in_place_and_keeps_others() {
    let m = empty_map().insert(&id("a"), Data::Integer(1)).unwrap();
    let m = m.insert(&id("b"), Data::Integer(2)).unwrap();
    let m = m.overwrite(&id("a"), Data::Integer(10)).unwrap();
    assert_eq!(integer(&m.index(&id("a")).unwrap()), 10);
    assert_eq!(integer(&m.index(&id("b")).unwrap()), 2);
    match &m {
        Data::Mapping(pairs) => {
            assert_eq!(pairs.len(), 2);
            assert!(pairs[0].0.equal(&id("a")));
        }
        other => panic!("unexpected {:?}", other),
    }
    let m = m.overwrite(&id("c"), Data::Integer(3)).unwrap();
    assert_eq!(integer(&m.index(&id("c")).unwrap()), 3);
}

#[test]
fn merge_prefers_the_other_mapping() {
    let a = empty_map().insert(&id("x"), Data::Integer(1)).unwrap();
    let a = a.insert(&id("y"), Data::Integer(2)).unwrap();
    let b = empty_map().insert(&id("y"), Data::Integer(20)).unwrap();
    let b = b.insert(&id("z"), Data::Integer(30)).unwrap();
    let m = a.merge(&b).unwrap();
    assert_eq!(integer(&m.index(&id("x")).unwrap()), 1);
    assert_eq!(integer(&m.index(&id("y")).unwrap()), 20);
    assert_eq!(integer(&m.index(&id("z")).unwrap()), 30);
}

#[test]
fn operations_on_a_value_that_is_no_mapping_fail() {
    let not_map = Data::Integer(5);
    match not_map.index(&id("a")) {
        Err(Error::ExpectedFound(expected, Data::Integer(5))) => {
            assert_eq!(expected, vec![chars("map")])
        }
        other => panic!("unexpected {:?}", other),
    }
    assert!(not_map.insert(&id("a"), Data::Integer(1)).is_err());
    assert!(not_map.overwrite(&id("a"), Data::Integer(1)).is_err());
    assert!(not_map.pairs().is_err());
    assert!(empty_map().merge(&not_map).is_err());
    assert!(not_map.merge(&empty_map()).is_err());
}

#[test]
fn equality_is_structural() {
    let a = Data::List(vec![id("a"), Data::Integer(1), Data::Mapping(vec![(id("k"), Data::Character('c'))])]);
    let b = a.duplicate();
    assert!(a.equal(&b));
    let c = Data::List(vec![id("a"), Data::Integer(2), Data::Mapping(vec![(id("k"), Data::Character('c'))])]);
    assert!(!a.equal(&c));
    assert!(!id("a").equal(&Data::String(chars("a"))));
    assert!(!Data::List(vec![]).equal(&Data::List(vec![Data::Integer(1)])));
}

#[test]
fn pairs_keep_insertion_order() {
    let m = empty_map().insert(&id("b"), Data::Integer(1)).unwrap();
    let m = m.insert(&id("a"), Data::Integer(2)).unwrap();
    let pairs = m.pairs().unwrap();
    assert!(pairs[0].0.equal(&id("b")));
    assert!(pairs[1].0.equal(&id("a")));
}
