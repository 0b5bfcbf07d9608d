//! Dynamic values: the data model that settings, templates and built
//! syntax trees are written in.
//!
//! A mapping is an insertion-ordered list of key/value pairs whose keys are
//! pairwise distinct; every operation below keeps that order.
use vstd::prelude::*;
use crate::error::{Error, ErrorView, expected_found, expected_one};

verus! {

broadcast use vstd::std_specs::vec::axiom_vec_index_decreases;

/// A decimal number `whole.fraction`, kept exactly as it was written:
/// `fraction` holds the digits after the point as an integer and `digits`
/// is how many digits were written there (so leading zeros are kept).
#[derive(Clone, Copy, PartialEq, Eq, Structural, Debug)]
pub struct Decimal {
    pub negative: bool,
    pub whole: i64,
    pub fraction: i64,
    pub digits: usize,
}

#[derive(Debug)]
pub enum Data {
    Identifier(Vec<char>),
    Keyword(Vec<char>),
    String(Vec<char>),
    Character(char),
    Integer(i64),
    Float(Decimal),
    List(Vec<Data>),
    Mapping(Vec<(Data, Data)>),
}

/// The mathematical value of a [`Data`].
pub enum DataView {
    Identifier(Seq<char>),
    Keyword(Seq<char>),
    String(Seq<char>),
    Character(char),
    Integer(int),
    Float(Decimal),
    List(Seq<DataView>),
    Mapping(Seq<(DataView, DataView)>),
}

impl Data {
    pub open spec fn model(&self) -> DataView
        decreases self,
    {
        match self {
            Data::Identifier(s) => DataView::Identifier(s@),
            Data::Keyword(s) => DataView::Keyword(s@),
            Data::String(s) => DataView::String(s@),
            Data::Character(c) => DataView::Character(*c),
            Data::Integer(i) => DataView::Integer(*i as int),
            Data::Float(d) => DataView::Float(*d),
            Data::List(v) => DataView::List(
                Seq::new(
                    v@.len(),
                    |i: int|
                        if 0 <= i < v@.len() {
                            proof {
                                assert(decreases_to!(v => v[i]));
                            }
                            v@[i].model()
                        } else {
                            DataView::Integer(0)
                        },
                ),
            ),
            Data::Mapping(v) => DataView::Mapping(
                Seq::new(
                    v@.len(),
                    |i: int|
                        if 0 <= i < v@.len() {
                            proof {
                                assert(decreases_to!(v => v[i]));
                            }
                            (v@[i].0.model(), v@[i].1.model())
                        } else {
                            (DataView::Integer(0), DataView::Integer(0))
                        },
                ),
            ),
        }
    }
}

impl View for Data {
    type V = DataView;

    open spec fn view(&self) -> DataView {
        self.model()
    }
}

/// The value of a key/value pair.
pub open spec fn pair_model(p: (Data, Data)) -> (DataView, DataView) {
    (p.0@, p.1@)
}

/// The pairs of a mapping, or the empty sequence for any other value.
pub open spec fn entries_of(d: DataView) -> Seq<(DataView, DataView)> {
    match d {
        DataView::Mapping(p) => p,
        _ => Seq::empty(),
    }
}

/// The position of `key` among the keys of `pairs`, from `i` on; `-1` when absent.
pub open spec fn key_position_from(pairs: Seq<(DataView, DataView)>, key: DataView, i: int) -> int
    decreases pairs.len() - i,
{
    if i < 0 || i >= pairs.len() {
        -1
    } else if pairs[i].0 == key {
        i
    } else {
        key_position_from(pairs, key, i + 1)
    }
}

/// The position of the first pair whose key is `key`; `-1` when there is none.
pub open spec fn key_position(pairs: Seq<(DataView, DataView)>, key: DataView) -> int {
    key_position_from(pairs, key, 0)
}

/// The value stored under `key`, if any.
pub open spec fn lookup(pairs: Seq<(DataView, DataView)>, key: DataView) -> Option<DataView> {
    let i = key_position(pairs, key);
    if i >= 0 {
        Some(pairs[i].1)
    } else {
        None
    }
}

/// `pairs` with `key` bound to `value`: replaced in place when the key is
/// present, appended otherwise.
pub open spec fn overwrite_pairs(
    pairs: Seq<(DataView, DataView)>,
    key: DataView,
    value: DataView,
) -> Seq<(DataView, DataView)> {
    let i = key_position(pairs, key);
    if i >= 0 {
        pairs.update(i, (key, value))
    } else {
        pairs.push((key, value))
    }
}

/// `base` with every pair of `other` overwritten into it, in order.
pub open spec fn merge_pairs(
    base: Seq<(DataView, DataView)>,
    other: Seq<(DataView, DataView)>,
) -> Seq<(DataView, DataView)>
    decreases other.len(),
{
    if other.len() == 0 {
        base
    } else {
        let last = other.last();
        overwrite_pairs(merge_pairs(base, other.drop_last()), last.0, last.1)
    }
}

pub open spec fn is_mapping(d: DataView) -> bool {
    d is Mapping
}

/// Text of an identifier, keyword or string: the values that can stand for a literal.
pub open spec fn literal_text(d: DataView) -> Option<Seq<char>> {
    match d {
        DataView::Identifier(s) => Some(s),
        DataView::Keyword(s) => Some(s),
        DataView::String(s) => Some(s),
        _ => None,
    }
}

pub proof fn lemma_key_position_bounds(pairs: Seq<(DataView, DataView)>, key: DataView, i: int)
    requires
        0 <= i,
    ensures
        key_position_from(pairs, key, i) == -1 || (i <= key_position_from(pairs, key, i)
            < pairs.len() && pairs[key_position_from(pairs, key, i)].0 == key),
    decreases pairs.len() - i,
{
    if i < pairs.len() && pairs[i].0 != key {
        lemma_key_position_bounds(pairs, key, i + 1);
    }
}

proof fn lemma_list_decreases(v: Vec<Data>, i: int)
    requires
        0 <= i < v.len(),
    ensures
        decreases_to!(Data::List(v) => v[i]),
{
    let d = Data::List(v);
    assert(d->List_0 == v);
    assert(decreases_to!(v => v[i]));
}

proof fn lemma_mapping_decreases(v: Vec<(Data, Data)>, i: int)
    requires
        0 <= i < v.len(),
    ensures
        decreases_to!(Data::Mapping(v) => v[i].0),
        decreases_to!(Data::Mapping(v) => v[i].1),
{
    let d = Data::Mapping(v);
    assert(d->Mapping_0 == v);
    assert(decreases_to!(v => v[i]));
    assert(decreases_to!(v[i] => v[i].0));
    assert(decreases_to!(v[i] => v[i].1));
}

/// A copy of a piece of text.
pub fn copy_text(s: &Vec<char>) -> (r: Vec<char>)
    ensures
        r@ == s@,
{
    let r = s.clone();
    assert(r@ =~= s@);
    r
}

/// Appends the characters of `t` to `s`.
pub fn append_text(s: &mut Vec<char>, t: &Vec<char>)
    ensures
        final(s)@ == old(s)@ + t@,
{
    let mut i: usize = 0;
    while i < t.len()
        invariant
            i <= t.len(),
            s@ == old(s)@ + t@.take(i as int),
        decreases t.len() - i,
    {
        s.push(t[i]);
        i = i + 1;
        assert(s@ =~= old(s)@ + t@.take(i as int));
    }
    assert(t@.take(t.len() as int) =~= t@);
}

/// Whether two pieces of text are equal.
pub fn text_equal(a: &Vec<char>, b: &Vec<char>) -> (r: bool)
    ensures
        r == (a@ == b@),
{
    if a.len() != b.len() {
        return false;
    }
    let mut i: usize = 0;
    while i < a.len()
        invariant
            a.len() == b.len(),
            i <= a.len(),
            forall|j: int| 0 <= j < i ==> a@[j] == b@[j],
        decreases a.len() - i,
    {
        if a[i] != b[i] {
            return false;
        }
        i = i + 1;
    }
    assert(a@ =~= b@);
    true
}

impl Clone for Data {
    fn clone(&self) -> (r: Data)
        ensures
            r@ == self@,
    {
        self.duplicate()
    }
}

impl Data {
    /// A copy of this value.
    pub fn duplicate(&self) -> (r: Data)
        ensures
            r@ == self@,
        decreases self,
    {
        match self {
            Data::Identifier(s) => Data::Identifier(copy_text(s)),
            Data::Keyword(s) => Data::Keyword(copy_text(s)),
            Data::String(s) => Data::String(copy_text(s)),
            Data::Character(c) => Data::Character(*c),
            Data::Integer(i) => Data::Integer(*i),
            Data::Float(d) => Data::Float(*d),
            Data::List(v) => {
                let mut out: Vec<Data> = Vec::new();
                let mut i: usize = 0;
                while i < v.len()
                    invariant
                        i <= v.len(),
                        *self == Data::List(*v),
                        out.len() == i,
                        forall|j: int| 0 <= j < i ==> #[trigger] out@[j]@ == v@[j]@,
                    decreases v.len() - i,
                {
                    proof {
                        lemma_list_decreases(*v, i as int);
                    }
                    out.push(v[i].duplicate());
                    i = i + 1;
                }
                let r = Data::List(out);
                assert(r@ == self@) by {
                    if let DataView::List(a) = r@ {
                        if let DataView::List(b) = self@ {
                            assert forall|j: int| 0 <= j < a.len() implies a[j] == b[j] by {
                                assert(out@[j]@ == v@[j]@);
                            }
                            assert(a =~= b);
                        }
                    }
                }
                r
            },
            Data::Mapping(v) => {
                let mut out: Vec<(Data, Data)> = Vec::new();
                let mut i: usize = 0;
                while i < v.len()
                    invariant
                        i <= v.len(),
                        *self == Data::Mapping(*v),
                        out.len() == i,
                        forall|j: int| 0 <= j < i ==> pair_model(#[trigger] out@[j]) == pair_model(v@[j]),
                    decreases v.len() - i,
                {
                    proof {
                        lemma_mapping_decreases(*v, i as int);
                    }
                    let k = v[i].0.duplicate();
                    let d = v[i].1.duplicate();
                    out.push((k, d));
                    i = i + 1;
                }
                let r = Data::Mapping(out);
                assert(r@ == self@) by {
                    if let DataView::Mapping(a) = r@ {
                        if let DataView::Mapping(b) = self@ {
                            assert forall|j: int| 0 <= j < a.len() implies a[j] == b[j] by {
                                assert(pair_model(out@[j]) == pair_model(v@[j]));
                            }
                            assert(a =~= b);
                        }
                    }
                }
                r
            },
        }
    }
}

impl Data {
    /// Whether two values are equal.
    pub fn equal(&self, other: &Data) -> (r: bool)
        ensures
            r == (self@ == other@),
        decreases self,
    {
        match (self, other) {
            (Data::Identifier(a), Data::Identifier(b)) => text_equal(a, b),
            (Data::Keyword(a), Data::Keyword(b)) => text_equal(a, b),
            (Data::String(a), Data::String(b)) => text_equal(a, b),
            (Data::Character(a), Data::Character(b)) => *a == *b,
            (Data::Integer(a), Data::Integer(b)) => *a == *b,
            (Data::Float(a), Data::Float(b)) => *a == *b,
            (Data::List(a), Data::List(b)) => {
                if a.len() != b.len() {
                    assert(self@ != other@) by {
                        if let DataView::List(x) = self@ {
                            if let DataView::List(y) = other@ {
                                assert(x.len() != y.len());
                            }
                        }
                    }
                    return false;
                }
                let mut i: usize = 0;
                while i < a.len()
                    invariant
                        a.len() == b.len(),
                        *self == Data::List(*a),
                        *other == Data::List(*b),
                        i <= a.len(),
                        forall|j: int| 0 <= j < i ==> #[trigger] a@[j]@ == b@[j]@,
                    decreases a.len() - i,
                {
                    assert(decreases_to!(*a => a[i as int]));
                    assert(decreases_to!(*self => a[i as int]));
                    if !a[i].equal(&b[i]) {
                        assert(self@ != other@) by {
                            if let DataView::List(x) = self@ {
                                if let DataView::List(y) = other@ {
                                    assert(x[i as int] != y[i as int]);
                                }
                            }
                        }
                        return false;
                    }
                    i = i + 1;
                }
                assert(self@ == other@) by {
                    if let DataView::List(x) = self@ {
                        if let DataView::List(y) = other@ {
                            assert forall|j: int| 0 <= j < x.len() implies x[j] == y[j] by {
                                assert(a@[j]@ == b@[j]@);
                            }
                            assert(x =~= y);
                        }
                    }
                }
                true
            },
            (Data::Mapping(a), Data::Mapping(b)) => {
                if a.len() != b.len() {
                    assert(self@ != other@) by {
                        if let DataView::Mapping(x) = self@ {
                            if let DataView::Mapping(y) = other@ {
                                assert(x.len() != y.len());
                            }
                        }
                    }
                    return false;
                }
                let mut i: usize = 0;
                while i < a.len()
                    invariant
                        a.len() == b.len(),
                        *self == Data::Mapping(*a),
                        *other == Data::Mapping(*b),
                        i <= a.len(),
                        forall|j: int| 0 <= j < i ==> pair_model(#[trigger] a@[j]) == pair_model(b@[j]),
                    decreases a.len() - i,
                {
                    assert(decreases_to!(*a => a[i as int]));
                    assert(decreases_to!(*self => a[i as int]));
                    let same_key = a[i].0.equal(&b[i].0);
                    let same_value = a[i].1.equal(&b[i].1);
                    if !(same_key && same_value) {
                        assert(self@ != other@) by {
                            if let DataView::Mapping(x) = self@ {
                                if let DataView::Mapping(y) = other@ {
                                    assert(x[i as int] != y[i as int]);
                                }
                            }
                        }
                        return false;
                    }
                    assert(pair_model(a@[i as int]) == pair_model(b@[i as int]));
                    i = i + 1;
                }
                assert(self@ == other@) by {
                    if let DataView::Mapping(x) = self@ {
                        if let DataView::Mapping(y) = other@ {
                            assert forall|j: int| 0 <= j < x.len() implies x[j] == y[j] by {
                                assert(pair_model(a@[j]) == pair_model(b@[j]));
                            }
                            assert(x =~= y);
                        }
                    }
                }
                true
            },
            _ => false,
        }
    }
}


/// The values of a sequence of data.
pub open spec fn list_model(v: Seq<Data>) -> Seq<DataView> {
    v.map_values(|d: Data| d@)
}

/// The values of a sequence of key/value pairs.
pub open spec fn pairs_model(v: Seq<(Data, Data)>) -> Seq<(DataView, DataView)> {
    v.map_values(|p: (Data, Data)| pair_model(p))
}

pub broadcast proof fn lemma_list_view(v: Vec<Data>)
    ensures
        #[trigger] Data::List(v)@ == DataView::List(list_model(v@)),
{
    if let DataView::List(a) = Data::List(v)@ {
        assert(a =~= list_model(v@));
    }
}

pub broadcast proof fn lemma_mapping_view(v: Vec<(Data, Data)>)
    ensures
        #[trigger] Data::Mapping(v)@ == DataView::Mapping(pairs_model(v@)),
{
    if let DataView::Mapping(a) = Data::Mapping(v)@ {
        assert(a =~= pairs_model(v@));
    }
}

/// The error for a value that should have been a mapping.
pub open spec fn not_mapping(d: DataView) -> ErrorView {
    ErrorView::ExpectedFound(expected_one("map"@), d)
}

pub open spec fn spec_index(d: DataView, key: DataView) -> Result<Option<DataView>, ErrorView> {
    match d {
        DataView::Mapping(p) => Ok(lookup(p, key)),
        _ => Err(not_mapping(d)),
    }
}

pub open spec fn spec_insert(d: DataView, key: DataView, value: DataView) -> Result<DataView, ErrorView> {
    match d {
        DataView::Mapping(p) => if lookup(p, key) is Some {
            Err(ErrorView::DuplicateEntry(key))
        } else {
            Ok(DataView::Mapping(p.push((key, value))))
        },
        _ => Err(not_mapping(d)),
    }
}

pub open spec fn spec_overwrite(d: DataView, key: DataView, value: DataView) -> Result<DataView, ErrorView> {
    match d {
        DataView::Mapping(p) => Ok(DataView::Mapping(overwrite_pairs(p, key, value))),
        _ => Err(not_mapping(d)),
    }
}

pub open spec fn spec_merge(d: DataView, other: DataView) -> Result<DataView, ErrorView> {
    match (d, other) {
        (DataView::Mapping(p), DataView::Mapping(q)) => Ok(DataView::Mapping(merge_pairs(p, q))),
        (DataView::Mapping(_), _) => Err(not_mapping(other)),
        _ => Err(not_mapping(d)),
    }
}

pub open spec fn spec_pairs(d: DataView) -> Result<Seq<(DataView, DataView)>, ErrorView> {
    match d {
        DataView::Mapping(p) => Ok(p),
        _ => Err(not_mapping(d)),
    }
}

pub open spec fn option_model(o: Option<Data>) -> Option<DataView> {
    match o {
        Some(d) => Some(d@),
        None => None,
    }
}

pub open spec fn data_result(r: Result<Data, Error>) -> Result<DataView, ErrorView> {
    match r {
        Ok(d) => Ok(d@),
        Err(e) => Err(e@),
    }
}

/// The position of `key` among the keys of `pairs`.
fn find_key(pairs: &Vec<(Data, Data)>, key: &Data) -> (r: Option<usize>)
    ensures
        r matches Some(i) ==> key_position(pairs_model(pairs@), key@) == i && i < pairs.len(),
        r is None ==> key_position(pairs_model(pairs@), key@) == -1,
{
    let ghost ps = pairs_model(pairs@);
    let mut i: usize = 0;
    while i < pairs.len()
        invariant
            i <= pairs.len(),
            ps == pairs_model(pairs@),
            key_position(ps, key@) == key_position_from(ps, key@, i as int),
        decreases pairs.len() - i,
    {
        if pairs[i].0.equal(key) {
            return Some(i);
        }
        i = i + 1;
    }
    None
}

impl Data {
    pub fn is_map(&self) -> (r: bool)
        ensures
            r == is_mapping(self@),
    {
        match self {
            Data::Mapping(_) => true,
            _ => false,
        }
    }

    /// The value stored under `key` in this mapping.
    pub fn index(&self, key: &Data) -> (r: Result<Option<Data>, Error>)
        ensures
            match r {
                Ok(o) => spec_index(self@, key@) == Ok::<Option<DataView>, ErrorView>(option_model(o)),
                Err(e) => spec_index(self@, key@) == Err::<Option<DataView>, ErrorView>(e@),
            },
    {
        broadcast use lemma_mapping_view;
        match self {
            Data::Mapping(pairs) => {
                proof { lemma_key_position_bounds(pairs_model(pairs@), key@, 0); }
                match find_key(pairs, key) {
                    Some(i) => Ok(Some(pairs[i].1.duplicate())),
                    None => Ok(None),
                }
            },
            _ => Err(expected_found("map", self.duplicate())),
        }
    }

    /// This mapping with `value` added under `key`; a key that is already
    /// present is an error.
    pub fn insert(&self, key: &Data, value: Data) -> (r: Result<Data, Error>)
        ensures
            data_result(r) == spec_insert(self@, key@, value@),
    {
        broadcast use lemma_mapping_view;
        match self {
            Data::Mapping(pairs) => {
                match find_key(pairs, key) {
                    Some(_) => {
                        proof { lemma_key_position_bounds(pairs_model(pairs@), key@, 0); }
                        Err(Error::DuplicateEntry(key.duplicate()))
                    },
                    None => {
                        let mut out = copy_pairs(pairs);
                        out.push((key.duplicate(), value));
                        assert(pairs_model(out@) =~= pairs_model(pairs@).push((key@, value@)));
                        Ok(Data::Mapping(out))
                    },
                }
            },
            _ => Err(expected_found("map", self.duplicate())),
        }
    }

    /// This mapping with `key` bound to `value`, replacing any earlier value.
    pub fn overwrite(&self, key: &Data, value: Data) -> (r: Result<Data, Error>)
        ensures
            data_result(r) == spec_overwrite(self@, key@, value@),
    {
        broadcast use lemma_mapping_view;
        match self {
            Data::Mapping(pairs) => Ok(Data::Mapping(overwrite_in(pairs, key, value))),
            _ => Err(expected_found("map", self.duplicate())),
        }
    }

    /// This mapping with every entry of `other` overwritten into it, in order.
    pub fn merge(&self, other: &Data) -> (r: Result<Data, Error>)
        ensures
            data_result(r) == spec_merge(self@, other@),
    {
        broadcast use lemma_mapping_view;
        match (self, other) {
            (Data::Mapping(pairs), Data::Mapping(others)) => {
                let mut out = copy_pairs(pairs);
                let mut i: usize = 0;
                while i < others.len()
                    invariant
                        i <= others.len(),
                        pairs_model(out@) == merge_pairs(
                            pairs_model(pairs@),
                            pairs_model(others@).take(i as int),
                        ),
                    decreases others.len() - i,
                {
                    let key = others[i].0.duplicate();
                    let value = others[i].1.duplicate();
                    out = overwrite_in(&out, &key, value);
                    assert(pairs_model(others@).take(i + 1).drop_last() =~= pairs_model(
                        others@,
                    ).take(i as int));
                    i = i + 1;
                }
                assert(pairs_model(others@).take(others.len() as int) =~= pairs_model(others@));
                Ok(Data::Mapping(out))
            },
            (Data::Mapping(_), _) => Err(expected_found("map", other.duplicate())),
            _ => Err(expected_found("map", self.duplicate())),
        }
    }

    /// The entries of this mapping, in order.
    pub fn pairs(&self) -> (r: Result<Vec<(Data, Data)>, Error>)
        ensures
            match r {
                Ok(v) => spec_pairs(self@) == Ok::<Seq<(DataView, DataView)>, ErrorView>(pairs_model(v@)),
                Err(e) => spec_pairs(self@) == Err::<Seq<(DataView, DataView)>, ErrorView>(e@),
            },
    {
        broadcast use lemma_mapping_view;
        match self {
            Data::Mapping(pairs) => Ok(copy_pairs(pairs)),
            _ => Err(expected_found("map", self.duplicate())),
        }
    }
}

/// A copy of a sequence of key/value pairs.
fn copy_pairs(pairs: &Vec<(Data, Data)>) -> (r: Vec<(Data, Data)>)
    ensures
        pairs_model(r@) == pairs_model(pairs@),
{
    let mut out: Vec<(Data, Data)> = Vec::new();
    let mut i: usize = 0;
    while i < pairs.len()
        invariant
            i <= pairs.len(),
            out.len() == i,
            pairs_model(out@) == pairs_model(pairs@).take(i as int),
        decreases pairs.len() - i,
    {
        let k = pairs[i].0.duplicate();
        let d = pairs[i].1.duplicate();
        let ghost before = out@;
        out.push((k, d));
        assert(pair_model(out@[i as int]) == pair_model(pairs@[i as int]));
        assert forall|j: int| 0 <= j < i implies pair_model(out@[j]) == pair_model(pairs@[j]) by {
            assert(out@[j] == before[j]);
            assert(pairs_model(before)[j] == pairs_model(pairs@).take(i as int)[j]);
        }
        i = i + 1;
        assert(pairs_model(out@) =~= pairs_model(pairs@).take(i as int));
    }
    assert(pairs_model(pairs@).take(pairs.len() as int) =~= pairs_model(pairs@));
    out
}

/// `pairs` with `key` bound to `value`.
fn overwrite_in(pairs: &Vec<(Data, Data)>, key: &Data, value: Data) -> (r: Vec<(Data, Data)>)
    ensures
        pairs_model(r@) == overwrite_pairs(pairs_model(pairs@), key@, value@),
{
    proof { lemma_key_position_bounds(pairs_model(pairs@), key@, 0); }
    let mut out = copy_pairs(pairs);
    match find_key(pairs, key) {
        Some(i) => {
            out.set(i, (key.duplicate(), value));
            assert(pairs_model(out@) =~= pairs_model(pairs@).update(i as int, (key@, value@)));
        },
        None => {
            out.push((key.duplicate(), value));
            assert(pairs_model(out@) =~= pairs_model(pairs@).push((key@, value@)));
        },
    }
    out
}


/// No key occurs twice among `pairs`.
pub open spec fn distinct_keys(pairs: Seq<(DataView, DataView)>) -> bool {
    forall|i: int, j: int| 0 <= i < j < pairs.len() ==> pairs[i].0 != pairs[j].0
}

proof fn lemma_key_position_found(pairs: Seq<(DataView, DataView)>, key: DataView, i: int, start: int)
    requires
        0 <= start <= i < pairs.len(),
        pairs[i].0 == key,
        forall|j: int| start <= j < i ==> pairs[j].0 != key,
    ensures
        key_position_from(pairs, key, start) == i,
    decreases i - start,
{
    if start < i {
        lemma_key_position_found(pairs, key, i, start + 1);
    }
}

proof fn lemma_key_position_absent(pairs: Seq<(DataView, DataView)>, key: DataView, start: int)
    requires
        0 <= start,
        forall|j: int| start <= j < pairs.len() ==> pairs[j].0 != key,
    ensures
        key_position_from(pairs, key, start) == -1,
    decreases pairs.len() - start,
{
    if start < pairs.len() {
        lemma_key_position_absent(pairs, key, start + 1);
    }
}

proof fn lemma_key_position_before(pairs: Seq<(DataView, DataView)>, key: DataView, start: int)
    requires
        0 <= start,
    ensures
        forall|j: int|
            start <= j < pairs.len() && (key_position_from(pairs, key, start) == -1 || j
                < key_position_from(pairs, key, start)) ==> pairs[j].0 != key,
    decreases pairs.len() - start,
{
    if start < pairs.len() && pairs[start].0 != key {
        lemma_key_position_before(pairs, key, start + 1);
    }
}

/// Two sequences of pairs in which `key` stands at the same places have
/// `key` first at the same place.
proof fn lemma_key_position_same(
    p: Seq<(DataView, DataView)>,
    q: Seq<(DataView, DataView)>,
    key: DataView,
)
    requires
        p.len() <= q.len(),
        forall|j: int| 0 <= j < p.len() ==> ((p[j].0 == key) <==> (q[j].0 == key)),
        forall|j: int| p.len() <= j < q.len() ==> q[j].0 != key,
    ensures
        key_position(p, key) == key_position(q, key),
{
    lemma_key_position_bounds(p, key, 0);
    lemma_key_position_before(p, key, 0);
    let i = key_position(p, key);
    if i >= 0 {
        lemma_key_position_found(q, key, i, 0);
    } else {
        lemma_key_position_absent(q, key, 0);
    }
}

/// A read of a mapping gives back the value last written under the key
/// read, and writing under one key leaves what is stored under every other
/// key as it was.
pub proof fn law_overwrite_then_index(m: DataView, key: DataView, value: DataView, other: DataView)
    requires
        is_mapping(m),
    ensures
        spec_overwrite(m, key, value) matches Ok(m2) && spec_index(m2, key) == Ok::<
            Option<DataView>,
            ErrorView,
        >(Some(value)) && (other != key ==> spec_index(m2, other) == spec_index(m, other)),
{
    let p = entries_of(m);
    lemma_key_position_bounds(p, key, 0);
    lemma_key_position_before(p, key, 0);
    let q = overwrite_pairs(p, key, value);
    let i = key_position(p, key);
    if i >= 0 {
        lemma_key_position_found(q, key, i, 0);
    } else {
        lemma_key_position_found(q, key, p.len() as int, 0);
    }
    if other != key {
        lemma_key_position_same(p, q, other);
        lemma_key_position_bounds(p, other, 0);
    }
}

/// Inserting under a new key makes it readable with the value inserted and
/// leaves every other key as it was; inserting under a present key is
/// refused.
pub proof fn law_insert_then_index(m: DataView, key: DataView, value: DataView, other: DataView)
    requires
        is_mapping(m),
    ensures
        spec_index(m, key) matches Ok(Some(_)) ==> spec_insert(m, key, value) == Err::<
            DataView,
            ErrorView,
        >(ErrorView::DuplicateEntry(key)),
        spec_index(m, key) matches Ok(None) ==> (spec_insert(m, key, value) matches Ok(m2)
            && spec_index(m2, key) == Ok::<Option<DataView>, ErrorView>(Some(value)) && (other
            != key ==> spec_index(m2, other) == spec_index(m, other))),
{
    let p = entries_of(m);
    lemma_key_position_bounds(p, key, 0);
    lemma_key_position_before(p, key, 0);
    if lookup(p, key) is None {
        let q = p.push((key, value));
        lemma_key_position_found(q, key, p.len() as int, 0);
        if other != key {
            lemma_key_position_same(p, q, other);
            lemma_key_position_bounds(p, other, 0);
        }
    }
}

/// After a merge, each key of the other mapping reads as it does there,
/// and every other key reads as it did before.
pub proof fn law_merge_then_index(m: DataView, other: DataView, key: DataView)
    requires
        is_mapping(m),
        is_mapping(other),
        distinct_keys(entries_of(other)),
    ensures
        spec_merge(m, other) matches Ok(merged) && spec_index(merged, key) == (if lookup(
            entries_of(other),
            key,
        ) is Some {
            spec_index(other, key)
        } else {
            spec_index(m, key)
        }),
    decreases entries_of(other).len(),
{
    let p = entries_of(m);
    let q = entries_of(other);
    if q.len() > 0 {
        let rest = DataView::Mapping(q.drop_last());
        assert(distinct_keys(entries_of(rest)));
        law_merge_then_index(m, rest, key);
        let last = q.last();
        let before = DataView::Mapping(merge_pairs(p, q.drop_last()));
        law_overwrite_then_index(before, last.0, last.1, key);
        lemma_key_position_bounds(q, key, 0);
        lemma_key_position_before(q, key, 0);
        if key == last.0 {
            lemma_key_position_found(q, key, q.len() - 1, 0);
        } else {
            lemma_key_position_same(q.drop_last(), q, key);
            lemma_key_position_bounds(q.drop_last(), key, 0);
        }
    }
}


pub broadcast proof fn lemma_overwrite_reads_back(m: DataView, key: DataView, value: DataView)
    ensures
        #[trigger] spec_overwrite(m, key, value) matches Ok(fin) ==> spec_index(fin, key) == Ok::<
            Option<DataView>,
            ErrorView,
        >(Some(value)),
{
    if is_mapping(m) {
        law_overwrite_then_index(m, key, value, key);
    }
}


/// Merging in a mapping that does not hold `key` leaves what `key` reads as.
pub proof fn lemma_merge_keeps_absent_key(m: DataView, other: DataView, key: DataView)
    requires
        is_mapping(m),
        is_mapping(other),
        lookup(entries_of(other), key) is None,
    ensures
        spec_merge(m, other) matches Ok(merged) && is_mapping(merged) && spec_index(merged, key)
            == spec_index(m, key),
    decreases entries_of(other).len(),
{
    let p = entries_of(m);
    let q = entries_of(other);
    if q.len() > 0 {
        lemma_key_position_bounds(q, key, 0);
        lemma_key_position_before(q, key, 0);
        let rest = DataView::Mapping(q.drop_last());
        lemma_key_position_absent(q.drop_last(), key, 0);
        lemma_merge_keeps_absent_key(m, rest, key);
        let last = q.last();
        let before = DataView::Mapping(merge_pairs(p, q.drop_last()));
        law_overwrite_then_index(before, last.0, last.1, key);
    }
}

} // verus!
