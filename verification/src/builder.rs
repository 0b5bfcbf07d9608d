//! Building the data of a syntax tree from the tokens of the source and the
//! decisions that the parser took on them.
//!
//! A template describes one syntax form as a list of pieces, in one or more
//! flavors. The parser records, in a decision stream, which template and
//! flavor it chose at each point, and how lists went on. The builder walks
//! both streams in step and gives, for each template, a mapping with the
//! data of its keyed pieces under `entries`, their serialized positions
//! under `positions`, and the runs of source that it covers under `position`.
use vstd::prelude::*;
use crate::data::{
    Data, DataView, entries_of, is_mapping, key_position, spec_index, spec_insert, spec_merge, spec_overwrite, lemma_mapping_view,
    lemma_list_view, data_result, copy_text, text_equal,
};
use crate::error::{Error, ErrorView, text_of};
use crate::position::{
    Position, PositionView, positions_view, serialize_all, serialize_positions, spec_range,
    copy_positions, extend_positions,
};
use crate::token::{Token, TokenType, TokenTypeView, is_parsable};

verus! {

#[derive(Debug)]
pub enum Decision {
    /// A filter was applied here; the builder steps over it.
    Filter(usize),
    /// The template of this name was chosen.
    Template(Vec<char>),
    /// The flavor of this number was chosen.
    Flavor(usize),
    /// A list starts.
    List,
    /// The list goes on with another item.
    Next,
    /// The list ends.
    End,
}

/// One part of a template. Each piece but `Merge` may give its data a key
/// under which it is entered into the template's mapping; the second field
/// of the token pieces and of `Merge` and `Template` names what the parser
/// matched there and is not read by the builder.
#[derive(Debug)]
pub enum Piece {
    /// A template whose entries are merged into this one.
    Merge(Vec<char>),
    /// A template nested under a key.
    Template(Option<Data>, Vec<char>),
    /// The comments that come before the next token.
    Comment(Data),
    /// A constant value.
    Data(Data, Data),
    /// A list of items, each built from the first piece, separated by
    /// the second one when there is one.
    List(Option<Data>, Box<Piece>, Option<Box<Piece>>),
    /// A list, built as `List` is.
    Confirmed(Option<Data>, Box<Piece>, Option<Box<Piece>>),
    Keyword(Option<Data>, Vec<char>),
    Operator(Option<Data>, Vec<char>),
    Identifier(Option<Data>, Vec<char>),
    TypeIdentifier(Option<Data>, Vec<char>),
    String(Option<Data>, Vec<char>),
    Character(Option<Data>, Vec<char>),
    Integer(Option<Data>, Vec<char>),
    Float(Option<Data>, Vec<char>),
}

#[derive(Debug)]
pub struct Flavor {
    pub pieces: Vec<Piece>,
}

#[derive(Debug)]
pub struct Template {
    /// Passes to record in the template's mapping under `pass`.
    pub passes: Option<Data>,
    pub flavors: Vec<Flavor>,
}

/// Templates by name; the first entry of a name is the one that counts.
#[derive(Debug)]
pub struct Templates {
    pub entries: Vec<(Vec<char>, Template)>,
}

/// Where the builder stands in the decision stream and in the token stream.
pub struct Cursor {
    pub decision: int,
    pub token: int,
}

/// The streams that a build reads.
pub struct Streams {
    pub tokens: Seq<Token>,
    pub decisions: Seq<Decision>,
    pub templates: Templates,
}

pub type Built = Result<(DataView, Seq<PositionView>), ErrorView>;

pub type PieceBuilt = Result<(Option<DataView>, DataView, Seq<PositionView>), ErrorView>;

pub open spec fn in_bounds(s: Streams, c: Cursor) -> bool {
    0 <= c.decision <= s.decisions.len() && 0 <= c.token <= s.tokens.len()
}

/// How much is left to read.
pub open spec fn remaining(s: Streams, c: Cursor) -> int {
    (s.decisions.len() - c.decision) + (s.tokens.len() - c.token)
}

/// `b` is within the streams and no earlier than `a` in either of them.
pub open spec fn advanced(s: Streams, a: Cursor, b: Cursor) -> bool {
    in_bounds(s, b) && a.decision <= b.decision && a.token <= b.token
}

pub open spec fn key_view(k: Option<Data>) -> Option<DataView> {
    match k {
        Some(d) => Some(d@),
        None => None,
    }
}

pub open spec fn ident(s: Seq<char>) -> DataView {
    DataView::Identifier(s)
}

/// The first template of the given name.
pub open spec fn template_from(entries: Seq<(Vec<char>, Template)>, name: Seq<char>, i: int) -> Option<Template>
    decreases entries.len() - i,
{
    if i < 0 || i >= entries.len() {
        None
    } else if entries[i].0@ == name {
        Some(entries[i].1)
    } else {
        template_from(entries, name, i + 1)
    }
}

pub open spec fn template_named(t: Templates, name: Seq<char>) -> Option<Template> {
    template_from(t.entries@, name, 0)
}

/// The decision index after stepping over a filter decision.
pub open spec fn skip_filter(ds: Seq<Decision>, d: int) -> int {
    if 0 <= d < ds.len() && ds[d] is Filter {
        d + 1
    } else {
        d
    }
}

/// The first token at or after `t` that takes part in parsing, or the end.
pub open spec fn next_parsable(ts: Seq<Token>, t: int) -> int
    decreases ts.len() - t,
{
    if t < 0 || t >= ts.len() {
        t
    } else if is_parsable(ts[t].token_type@) {
        t
    } else {
        next_parsable(ts, t + 1)
    }
}

/// The data that a token piece takes from a token of the matching kind.
pub open spec fn token_data(piece: Piece, tt: TokenTypeView) -> Option<DataView> {
    match (piece, tt) {
        (Piece::Keyword(..), TokenTypeView::Keyword(s)) => Some(DataView::Identifier(s)),
        (Piece::Operator(..), TokenTypeView::Operator(s)) => Some(DataView::Identifier(s)),
        (Piece::Identifier(..), TokenTypeView::Identifier(s)) => Some(DataView::Identifier(s)),
        (Piece::TypeIdentifier(..), TokenTypeView::TypeIdentifier(s)) => Some(
            DataView::Identifier(s),
        ),
        (Piece::String(..), TokenTypeView::String(s)) => Some(DataView::String(s)),
        (Piece::Character(..), TokenTypeView::Character(c)) => Some(DataView::Character(c)),
        (Piece::Integer(..), TokenTypeView::Integer(i)) => Some(DataView::Integer(i)),
        (Piece::Float(..), TokenTypeView::Float(f)) => Some(DataView::Float(f)),
        _ => None,
    }
}

/// The kind of token that a token piece reads.
pub open spec fn token_kind(piece: Piece) -> Seq<char> {
    match piece {
        Piece::Keyword(..) => "keyword"@,
        Piece::Operator(..) => "operator"@,
        Piece::Identifier(..) => "identifier"@,
        Piece::TypeIdentifier(..) => "type identifier"@,
        Piece::String(..) => "string"@,
        Piece::Character(..) => "character"@,
        Piece::Integer(..) => "integer"@,
        _ => "float"@,
    }
}


/// Reads the token for a token piece: steps over a filter decision and
/// over comments, then takes the next token, which must be of the piece's kind.
pub open spec fn spec_find(s: Streams, c: Cursor, piece: Piece) -> (Cursor, Built) {
    if c.decision >= s.decisions.len() {
        (c, Err(ErrorView::MissingDecision))
    } else {
        let d = skip_filter(s.decisions, c.decision);
        let t = next_parsable(s.tokens, c.token);
        if t < 0 || t >= s.tokens.len() {
            (Cursor { decision: d, token: t }, Err(ErrorView::MissingToken))
        } else {
            match token_data(piece, s.tokens[t].token_type@) {
                Some(v) => (
                    Cursor { decision: d, token: t + 1 },
                    Ok((v, positions_view(s.tokens[t].position@))),
                ),
                None => (
                    Cursor { decision: d, token: t },
                    Err(ErrorView::UnexpectedToken(token_kind(piece))),
                ),
            }
        }
    }
}

/// Collects the comments from `t` on up to the next token that takes
/// part in parsing: their text, joined, and their positions.
pub open spec fn scan_comment(
    ts: Seq<Token>,
    t: int,
    text: Seq<char>,
    ps: Seq<PositionView>,
) -> (int, Result<(Seq<char>, Seq<PositionView>), ErrorView>)
    decreases ts.len() - t,
{
    if t < 0 || t >= ts.len() {
        (t, Err(ErrorView::MissingToken))
    } else if is_parsable(ts[t].token_type@) {
        (t, Ok((text, ps)))
    } else {
        match ts[t].token_type@ {
            TokenTypeView::Comment(body) => scan_comment(
                ts,
                t + 1,
                text + body,
                ps + positions_view(ts[t].position@),
            ),
            _ => scan_comment(ts, t + 1, text, ps),
        }
    }
}

pub open spec fn spec_comment(s: Streams, c: Cursor) -> (Cursor, Built) {
    let (t, r) = scan_comment(s.tokens, c.token, Seq::empty(), Seq::empty());
    (
        Cursor { decision: c.decision, token: t },
        match r {
            Ok((text, ps)) => Ok((DataView::String(text), spec_range(ps))),
            Err(e) => Err(e),
        },
    )
}

/// The mapping that a template starts from.
pub open spec fn base_map() -> DataView {
    DataView::Mapping(
        seq![
            (ident("entries"@), DataView::Mapping(Seq::empty())),
            (ident("positions"@), DataView::Mapping(Seq::empty())),
        ],
    )
}

/// Enters `data` under `key` in the map stored under `field` of `map`.
pub open spec fn enter(map: DataView, field: Seq<char>, key: DataView, data: DataView) -> Result<
    DataView,
    ErrorView,
> {
    match spec_index(map, ident(field)) {
        Err(e) => Err(e),
        Ok(None) => Err(ErrorView::MissingEntry(ident(field))),
        Ok(Some(entry)) => match spec_insert(entry, key, data) {
            Err(e) => Err(e),
            Ok(new_entry) => spec_overwrite(map, ident(field), new_entry),
        },
    }
}

/// Enters a keyed piece into a template's map: its data under `entries`,
/// its serialized positions under `positions`.
pub open spec fn add_entry(map: DataView, key: DataView, data: DataView, ps: Seq<PositionView>) -> Result<
    DataView,
    ErrorView,
> {
    match enter(map, "entries"@, key, data) {
        Err(e) => Err(e),
        Ok(m) => enter(m, "positions"@, key, serialize_all(ps)),
    }
}

/// The error for the unreachable cases where a cursor would fall outside
/// the streams or move backwards; they are there only to make the
/// definitions below total.
pub open spec fn out_of_step() -> ErrorView {
    ErrorView::StalledList
}

/// Builds the template that the decision stream names at `c`.
pub open spec fn spec_build(s: Streams, c: Cursor, add_passes: bool) -> (Cursor, Built)
    decreases remaining(s, c), 0int, 0int,
{
    if !in_bounds(s, c) {
        (c, Err(out_of_step()))
    } else if c.decision >= s.decisions.len() {
        (c, Err(ErrorView::MissingDecision))
    } else {
        let d = skip_filter(s.decisions, c.decision);
        let c1 = Cursor { decision: d, token: c.token };
        if d >= s.decisions.len() {
            (c1, Err(ErrorView::MissingDecision))
        } else {
            match s.decisions[d] {
                Decision::Template(name) => match template_named(s.templates, name@) {
                    None => (c1, Err(ErrorView::MissingTemplate(name@))),
                    Some(template) => if d + 1 >= s.decisions.len() {
                        (c1, Err(ErrorView::MissingDecision))
                    } else {
                        match s.decisions[d + 1] {
                            Decision::Flavor(f) => {
                                let c2 = Cursor { decision: d + 2, token: c.token };
                                let start = if add_passes && template.passes is Some {
                                    spec_insert(
                                        base_map(),
                                        DataView::Keyword("pass"@),
                                        template.passes->0@,
                                    )
                                } else {
                                    Ok(base_map())
                                };
                                match start {
                                    Err(e) => (c2, Err(e)),
                                    Ok(map) => if f >= template.flavors.len() {
                                        (c2, Err(ErrorView::MissingFlavor(f as nat)))
                                    } else {
                                        let (c3, r) = spec_fold(
                                            s,
                                            c2,
                                            template.flavors@[f as int].pieces@,
                                            0,
                                            map,
                                            Seq::empty(),
                                        );
                                        match r {
                                            Err(e) => (c3, Err(e)),
                                            Ok((m, tps)) => {
                                                let sp = spec_range(tps);
                                                match spec_overwrite(
                                                    m,
                                                    ident("position"@),
                                                    serialize_all(sp),
                                                ) {
                                                    Ok(fin) => (c3, Ok((fin, sp))),
                                                    Err(e) => (c3, Err(e)),
                                                }
                                            },
                                        }
                                    },
                                }
                            },
                            _ => (c1, Err(ErrorView::UnexpectedDecision("flavor"@))),
                        }
                    },
                },
                _ => (c1, Err(ErrorView::UnexpectedDecision("template"@))),
            }
        }
    }
}

/// Builds the pieces of a template from the `i`-th on into `map`, having
/// collected the positions `tps` so far.
pub open spec fn spec_fold(
    s: Streams,
    c: Cursor,
    pieces: Seq<Piece>,
    i: int,
    map: DataView,
    tps: Seq<PositionView>,
) -> (Cursor, Built)
    decreases remaining(s, c), 2int, pieces.len() - i,
{
    if !in_bounds(s, c) || i < 0 {
        (c, Err(out_of_step()))
    } else if i >= pieces.len() {
        (c, Ok((map, tps)))
    } else {
        let (c2, r) = spec_piece(s, c, pieces[i]);
        match r {
            Err(e) => (c2, Err(e)),
            Ok((key, data, ps)) => if !advanced(s, c, c2) {
                (c2, Err(out_of_step()))
            } else {
                let next = match key {
                    Some(k) => add_entry(map, k, data, ps),
                    None => if pieces[i] is Merge {
                        spec_merge(map, data)
                    } else {
                        Ok(map)
                    },
                };
                match next {
                    Err(e) => (c2, Err(e)),
                    Ok(m) => spec_fold(s, c2, pieces, i + 1, m, tps + ps),
                }
            },
        }
    }
}

/// Builds one piece: its key, its data and the positions it covers.
pub open spec fn spec_piece(s: Streams, c: Cursor, piece: Piece) -> (Cursor, PieceBuilt)
    decreases remaining(s, c), 1int, 0int,
{
    if !in_bounds(s, c) {
        (c, Err(out_of_step()))
    } else {
        match piece {
            Piece::Merge(_) => {
                let (c2, r) = spec_build(s, c, false);
                (c2, with_key(None, r))
            },
            Piece::Template(key, _) => {
                let (c2, r) = spec_build(s, c, true);
                (c2, with_key(key_view(key), r))
            },
            Piece::Comment(key) => {
                let (c2, r) = spec_comment(s, c);
                (c2, with_key(Some(key@), r))
            },
            Piece::Data(key, data) => (c, Ok((Some(key@), data@, Seq::empty()))),
            Piece::List(key, part, separator) => {
                let (c2, r) = spec_list(s, c, *part, separator);
                (c2, with_key(key_view(key), r))
            },
            Piece::Confirmed(key, part, separator) => {
                let (c2, r) = spec_list(s, c, *part, separator);
                (c2, with_key(key_view(key), r))
            },
            Piece::Keyword(key, _) => {
                let (c2, r) = spec_find(s, c, piece);
                (c2, with_key(key_view(key), r))
            },
            Piece::Operator(key, _) => {
                let (c2, r) = spec_find(s, c, piece);
                (c2, with_key(key_view(key), r))
            },
            Piece::Identifier(key, _) => {
                let (c2, r) = spec_find(s, c, piece);
                (c2, with_key(key_view(key), r))
            },
            Piece::TypeIdentifier(key, _) => {
                let (c2, r) = spec_find(s, c, piece);
                (c2, with_key(key_view(key), r))
            },
            Piece::String(key, _) => {
                let (c2, r) = spec_find(s, c, piece);
                (c2, with_key(key_view(key), r))
            },
            Piece::Character(key, _) => {
                let (c2, r) = spec_find(s, c, piece);
                (c2, with_key(key_view(key), r))
            },
            Piece::Integer(key, _) => {
                let (c2, r) = spec_find(s, c, piece);
                (c2, with_key(key_view(key), r))
            },
            Piece::Float(key, _) => {
                let (c2, r) = spec_find(s, c, piece);
                (c2, with_key(key_view(key), r))
            },
        }
    }
}

pub open spec fn with_key(key: Option<DataView>, r: Built) -> PieceBuilt {
    match r {
        Ok((d, ps)) => Ok((key, d, ps)),
        Err(e) => Err(e),
    }
}

pub open spec fn separator_view(separator: Option<Box<Piece>>) -> Option<Piece> {
    match separator {
        Some(b) => Some(*b),
        None => None,
    }
}

/// Builds a list: the decision stream must hold `List` at `c`.
pub open spec fn spec_list(s: Streams, c: Cursor, part: Piece, separator: Option<Box<Piece>>) -> (
    Cursor,
    Built,
)
    decreases remaining(s, c), 0int, 0int,
{
    if !in_bounds(s, c) {
        (c, Err(out_of_step()))
    } else if c.decision >= s.decisions.len() {
        (c, Err(ErrorView::MissingDecision))
    } else if !(s.decisions[c.decision] is List) {
        (c, Err(ErrorView::UnexpectedDecision("list"@)))
    } else {
        spec_items(
            s,
            Cursor { decision: c.decision + 1, token: c.token },
            part,
            separator_view(separator),
            Seq::empty(),
            Seq::empty(),
        )
    }
}

/// The mapping of one list item, with its separator when there is one.
pub open spec fn list_item(
    data: DataView,
    ps: Seq<PositionView>,
    separator: Option<(DataView, Seq<PositionView>)>,
) -> DataView {
    match separator {
        None => DataView::Mapping(
            seq![
                (ident("item"@), data),
                (
                    ident("position"@),
                    DataView::Mapping(seq![(ident("item"@), serialize_all(ps))]),
                ),
            ],
        ),
        Some((sd, sps)) => DataView::Mapping(
            seq![
                (ident("item"@), data),
                (ident("separator"@), sd),
                (
                    ident("position"@),
                    DataView::Mapping(
                        seq![
                            (ident("item"@), serialize_all(ps)),
                            (ident("separator"@), serialize_all(sps)),
                        ],
                    ),
                ),
            ],
        ),
    }
}

/// Builds the items of a list from `c` on, having built `items` and
/// collected the positions `lps` so far.
pub open spec fn spec_items(
    s: Streams,
    c: Cursor,
    part: Piece,
    separator: Option<Piece>,
    items: Seq<DataView>,
    lps: Seq<PositionView>,
) -> (Cursor, Built)
    decreases remaining(s, c), 2int, 0int,
{
    if !in_bounds(s, c) {
        (c, Err(out_of_step()))
    } else {
        let (c2, r) = spec_piece(s, c, part);
        match r {
            Err(e) => (c2, Err(e)),
            Ok((_, pd, pps)) => if !advanced(s, c, c2) {
                (c2, Err(out_of_step()))
            } else {
                let lps2 = lps + pps;
                if c2.decision >= s.decisions.len() {
                    (c2, Err(ErrorView::MissingDecision))
                } else {
                    match s.decisions[c2.decision] {
                        Decision::End => (
                            Cursor { decision: c2.decision + 1, token: c2.token },
                            Ok(
                                (
                                    DataView::List(items.push(list_item(pd, pps, None))),
                                    spec_range(lps2),
                                ),
                            ),
                        ),
                        Decision::Next => {
                            let c3 = Cursor { decision: c2.decision + 1, token: c2.token };
                            match separator {
                                None => spec_items(
                                    s,
                                    c3,
                                    part,
                                    separator,
                                    items.push(list_item(pd, pps, None)),
                                    lps2,
                                ),
                                Some(sp) => {
                                    let (c4, r2) = spec_piece(s, c3, sp);
                                    match r2 {
                                        Err(e) => (c4, Err(e)),
                                        Ok((_, sd, sps)) => if !advanced(s, c3, c4) {
                                            (c4, Err(out_of_step()))
                                        } else {
                                            spec_items(
                                                s,
                                                c4,
                                                part,
                                                separator,
                                                items.push(list_item(pd, pps, Some((sd, sps)))),
                                                lps2 + sps,
                                            )
                                        },
                                    }
                                },
                            }
                        },
                        _ => if remaining(s, c2) < remaining(s, c) {
                            spec_items(s, c2, part, separator, items, lps2)
                        } else {
                            (c2, Err(ErrorView::StalledList))
                        },
                    }
                }
            },
        }
    }
}


pub open spec fn built_view(r: Result<(Data, Vec<Position>), Error>) -> Built {
    match r {
        Ok((d, ps)) => Ok((d@, positions_view(ps@))),
        Err(e) => Err(e@),
    }
}

pub open spec fn piece_view(r: Result<(Option<Data>, (Data, Vec<Position>)), Error>) -> PieceBuilt {
    match r {
        Ok((k, (d, ps))) => Ok((key_view(k), d@, positions_view(ps@))),
        Err(e) => Err(e@),
    }
}

impl Templates {
    /// The first template of the given name.
    pub fn get(&self, name: &Vec<char>) -> (r: Option<&Template>)
        ensures
            match r {
                Some(t) => template_named(*self, name@) == Some(*t),
                None => template_named(*self, name@) is None,
            },
    {
        let mut i: usize = 0;
        while i < self.entries.len()
            invariant
                i <= self.entries.len(),
                template_named(*self, name@) == template_from(self.entries@, name@, i as int),
            decreases self.entries.len() - i,
        {
            if text_equal(&self.entries[i].0, name) {
                return Some(&self.entries[i].1);
            }
            i = i + 1;
        }
        None
    }
}

fn copy_key(k: &Option<Data>) -> (r: Option<Data>)
    ensures
        key_view(r) == key_view(*k),
{
    match k {
        Some(d) => Some(d.duplicate()),
        None => None,
    }
}

fn identifier(s: &str) -> (r: Data)
    ensures
        r@ == ident(s@),
{
    Data::Identifier(text_of(s))
}

fn make_base_map() -> (r: Data)
    ensures
        r@ == base_map(),
{
    broadcast use lemma_mapping_view;
    let mut pairs: Vec<(Data, Data)> = Vec::new();
    let empty_entries: Vec<(Data, Data)> = Vec::new();
    let empty_positions: Vec<(Data, Data)> = Vec::new();
    assert(crate::data::pairs_model(empty_entries@) =~= Seq::<(DataView, DataView)>::empty());
    assert(crate::data::pairs_model(empty_positions@) =~= Seq::<(DataView, DataView)>::empty());
    pairs.push((identifier("entries"), Data::Mapping(empty_entries)));
    pairs.push((identifier("positions"), Data::Mapping(empty_positions)));
    let r = Data::Mapping(pairs);
    assert(crate::data::pairs_model(pairs@) =~= base_map()->Mapping_0);
    r
}

fn token_kind_text(piece: &Piece) -> (r: Vec<char>)
    ensures
        r@ == token_kind(*piece),
{
    match piece {
        Piece::Keyword(..) => text_of("keyword"),
        Piece::Operator(..) => text_of("operator"),
        Piece::Identifier(..) => text_of("identifier"),
        Piece::TypeIdentifier(..) => text_of("type identifier"),
        Piece::String(..) => text_of("string"),
        Piece::Character(..) => text_of("character"),
        Piece::Integer(..) => text_of("integer"),
        _ => text_of("float"),
    }
}

/// Enters `data` under `key` in the map stored under `field` of `map`.
fn enter_exec(map: &Data, field: &str, key: &Data, data: Data) -> (r: Result<Data, Error>)
    ensures
        data_result(r) == enter(map@, field@, key@, data@),
{
    let name = identifier(field);
    match map.index(&name) {
        Err(e) => Err(e),
        Ok(None) => Err(Error::MissingEntry(name)),
        Ok(Some(entry)) => match entry.insert(key, data) {
            Err(e) => Err(e),
            Ok(new_entry) => map.overwrite(&name, new_entry),
        },
    }
}

fn make_item(data: Data, ps: &Vec<Position>) -> (r: Data)
    ensures
        r@ == list_item(data@, positions_view(ps@), None),
{
    broadcast use lemma_mapping_view;
    let mut item: Vec<(Data, Data)> = Vec::new();
    let mut position: Vec<(Data, Data)> = Vec::new();
    item.push((identifier("item"), data));
    position.push((identifier("item"), serialize_positions(ps)));
    assert(crate::data::pairs_model(position@) =~= seq![
        (ident("item"@), serialize_all(positions_view(ps@))),
    ]);
    item.push((identifier("position"), Data::Mapping(position)));
    let r = Data::Mapping(item);
    assert(crate::data::pairs_model(item@) =~= r@->Mapping_0);
    assert(crate::data::pairs_model(item@) =~= list_item(data@, positions_view(ps@), None)->Mapping_0);
    r
}

fn make_separated_item(data: Data, ps: &Vec<Position>, separator: Data, sps: &Vec<Position>) -> (r: Data)
    ensures
        r@ == list_item(data@, positions_view(ps@), Some((separator@, positions_view(sps@)))),
{
    broadcast use lemma_mapping_view;
    let mut item: Vec<(Data, Data)> = Vec::new();
    let mut position: Vec<(Data, Data)> = Vec::new();
    let ghost sv = separator@;
    item.push((identifier("item"), data));
    item.push((identifier("separator"), separator));
    position.push((identifier("item"), serialize_positions(ps)));
    position.push((identifier("separator"), serialize_positions(sps)));
    assert(crate::data::pairs_model(position@) =~= seq![
        (ident("item"@), serialize_all(positions_view(ps@))),
        (ident("separator"@), serialize_all(positions_view(sps@))),
    ]);
    item.push((identifier("position"), Data::Mapping(position)));
    let r = Data::Mapping(item);
    assert(crate::data::pairs_model(item@) =~= list_item(
        data@,
        positions_view(ps@),
        Some((sv, positions_view(sps@))),
    )->Mapping_0);
    r
}

pub struct TemplateBuilder<'t> {
    pub token_stream: &'t Vec<Token>,
    decision_stream: &'t Vec<Decision>,
    templates: &'t Templates,
    decision_index: usize,
    pub token_index: usize,
}

impl<'t> TemplateBuilder<'t> {
    pub closed spec fn streams(&self) -> Streams {
        Streams {
            tokens: self.token_stream@,
            decisions: self.decision_stream@,
            templates: *self.templates,
        }
    }

    pub closed spec fn cursor(&self) -> Cursor {
        Cursor { decision: self.decision_index as int, token: self.token_index as int }
    }

    /// The builder stands within both of its streams.
    pub open spec fn wf(&self) -> bool {
        in_bounds(self.streams(), self.cursor())
    }

    pub open spec fn remaining_input(&self) -> int {
        remaining(self.streams(), self.cursor())
    }

    /// A builder at the start of both streams.
    pub fn new(
        token_stream: &'t Vec<Token>,
        decision_stream: &'t Vec<Decision>,
        templates: &'t Templates,
    ) -> (r: Self)
        ensures
            r.streams() == (Streams {
                tokens: token_stream@,
                decisions: decision_stream@,
                templates: *templates,
            }),
            r.cursor() == (Cursor { decision: 0, token: 0 }),
            r.wf(),
    {
        Self {
            token_stream: token_stream,
            decision_stream: decision_stream,
            templates: templates,
            decision_index: 0,
            token_index: 0,
        }
    }

    /// Builds the template that the decision stream names next, as
    /// [`spec_build`] describes; with `add_passes`, the template's passes
    /// are recorded under `pass`.
    ///
    /// A parser never gives the malformed streams below, and a build from
    /// one cannot go on; the builder does not stop the program there but
    /// answers with an error, which stands for that failure and is never a
    /// value built from the malformed stream: `MissingDecision` where the
    /// decision stream ends too early, `UnexpectedDecision` where it holds
    /// no template or no flavor decision (after at most one filter),
    /// `MissingTemplate` for a template name that does not exist,
    /// `MissingFlavor` for a flavor the template lacks, and, from the
    /// pieces, the errors that [`Self::build_piece`] names.
    #[verifier::loop_isolation(false)]
    pub fn build(&mut self, add_passes: bool) -> (r: Result<(Data, Vec<Position>), Error>)
        requires
            old(self).wf(),
        ensures
            final(self).wf(),
            final(self).streams() == old(self).streams(),
            advanced(old(self).streams(), old(self).cursor(), final(self).cursor()),
            spec_build(old(self).streams(), old(self).cursor(), add_passes) == (
                final(self).cursor(),
                built_view(r),
            ),
        decreases old(self).remaining_input(), 0int,
    {
        let ghost s = self.streams();
        let ghost c0 = self.cursor();
        let decisions: &'t Vec<Decision> = self.decision_stream;
        let templates: &'t Templates = self.templates;
        let base = make_base_map();
        if self.decision_index >= decisions.len() {
            return Err(Error::MissingDecision);
        }
        self.skip_filter();
        let d = self.decision_index;
        if d >= decisions.len() {
            return Err(Error::MissingDecision);
        }
        let name = match &decisions[d] {
            Decision::Template(name) => name,
            _ => {
                return Err(Error::UnexpectedDecision(text_of("template")));
            },
        };
        let template = match templates.get(name) {
            Some(t) => t,
            None => {
                return Err(Error::MissingTemplate(copy_text(name)));
            },
        };
        if d + 1 >= decisions.len() {
            return Err(Error::MissingDecision);
        }
        let flavor = match &decisions[d + 1] {
            Decision::Flavor(f) => *f,
            _ => {
                return Err(Error::UnexpectedDecision(text_of("flavor")));
            },
        };
        self.decision_index = d + 2;
        let mut map = if add_passes {
            match &template.passes {
                Some(passes) => match base.insert(&Data::Keyword(text_of("pass")), passes.duplicate()) {
                    Ok(m) => m,
                    Err(e) => {
                        return Err(e);
                    },
                },
                None => base,
            }
        } else {
            base
        };
        if flavor >= template.flavors.len() {
            return Err(Error::MissingFlavor(flavor));
        }
        let pieces = &template.flavors[flavor].pieces;
        let ghost c2 = self.cursor();
        let ghost map0 = map@;
        let mut template_positions: Vec<Position> = Vec::new();
        assert(positions_view(template_positions@) =~= Seq::<PositionView>::empty());
        let mut i: usize = 0;
        while i < pieces.len()
            invariant
                self.wf(),
                self.streams() == s,
                advanced(s, c2, self.cursor()),
                c2.decision >= c0.decision + 2,
                c2.token == c0.token,
                i <= pieces.len(),
                spec_fold(s, c2, pieces@, 0, map0, Seq::empty()) == spec_fold(
                    s,
                    self.cursor(),
                    pieces@,
                    i as int,
                    map@,
                    positions_view(template_positions@),
                ),
            decreases pieces.len() - i,
        {
            let ghost cb = self.cursor();
            let built = self.build_piece(&pieces[i]);
            let (key, (data, positions)) = match built {
                Ok(x) => x,
                Err(e) => {
                    return Err(e);
                },
            };
            let next = match &key {
                Some(k) => {
                    let serialized = serialize_positions(&positions);
                    match enter_exec(&map, "entries", k, data) {
                        Err(e) => Err(e),
                        Ok(m) => enter_exec(&m, "positions", k, serialized),
                    }
                },
                None => match &pieces[i] {
                    Piece::Merge(_) => map.merge(&data),
                    _ => Ok(map),
                },
            };
            map = match next {
                Ok(m) => m,
                Err(e) => {
                    return Err(e);
                },
            };
            extend_positions(&mut template_positions, &positions);
            i = i + 1;
        }
        let self_position = Position::range(template_positions, true);
        let serialized = serialize_positions(&self_position);
        match map.overwrite(&identifier("position"), serialized) {
            Ok(m) => Ok((m, self_position)),
            Err(e) => Err(e),
        }
    }

    /// Steps over a filter decision.
    fn skip_filter(&mut self)
        requires
            old(self).wf(),
        ensures
            final(self).wf(),
            final(self).streams() == old(self).streams(),
            final(self).cursor() == (Cursor {
                decision: skip_filter(old(self).streams().decisions, old(self).cursor().decision),
                token: old(self).cursor().token,
            }),
    {
        if self.decision_index < self.decision_stream.len() {
            match &self.decision_stream[self.decision_index] {
                Decision::Filter(_) => {
                    self.decision_index = self.decision_index + 1;
                },
                _ => {},
            }
        }
    }

    /// Collects the comments before the next token that takes part in parsing.
    ///
    /// When no such token follows, the stream is malformed and reading
    /// cannot go on: `MissingToken` stands for that failure.
    #[verifier::loop_isolation(false)]
    fn collect_comment(&mut self) -> (r: Result<(Data, Vec<Position>), Error>)
        requires
            old(self).wf(),
        ensures
            final(self).wf(),
            final(self).streams() == old(self).streams(),
            advanced(old(self).streams(), old(self).cursor(), final(self).cursor()),
            spec_comment(old(self).streams(), old(self).cursor()) == (
                final(self).cursor(),
                built_view(r),
            ),
    {
        let ghost s = self.streams();
        let ghost c0 = self.cursor();
        let tokens: &'t Vec<Token> = self.token_stream;
        let mut comment: Vec<char> = Vec::new();
        let mut comment_positions: Vec<Position> = Vec::new();
        assert(positions_view(comment_positions@) =~= Seq::<PositionView>::empty());
        loop
            invariant
                self.wf(),
                self.streams() == s,
                tokens@ == s.tokens,
                self.cursor().decision == c0.decision,
                c0.token <= self.cursor().token,
                scan_comment(s.tokens, c0.token, Seq::empty(), Seq::empty()) == scan_comment(
                    s.tokens,
                    self.cursor().token,
                    comment@,
                    positions_view(comment_positions@),
                ),
            decreases tokens.len() - self.token_index,
        {
            let t = self.token_index;
            if t >= tokens.len() {
                return Err(Error::MissingToken);
            }
            if tokens[t].parsable() {
                let positions = Position::range(comment_positions, true);
                return Ok((Data::String(comment), positions));
            }
            match &tokens[t].token_type {
                TokenType::Comment(body) => {
                    extend_positions(&mut comment_positions, &tokens[t].position);
                    crate::data::append_text(&mut comment, body);
                },
                _ => {},
            }
            self.token_index = t + 1;
        }
    }

    /// Reads the token for a token piece.
    ///
    /// A malformed stream cannot be read on from here: `MissingDecision`
    /// stands for a decision stream that has ended, `MissingToken` for a
    /// token stream with no token left to take part in parsing, and
    /// `UnexpectedToken` for a token of another kind than the piece's.
    #[verifier::loop_isolation(false)]
    fn find_token(&mut self, piece: &Piece) -> (r: Result<(Data, Vec<Position>), Error>)
        requires
            old(self).wf(),
        ensures
            final(self).wf(),
            final(self).streams() == old(self).streams(),
            advanced(old(self).streams(), old(self).cursor(), final(self).cursor()),
            spec_find(old(self).streams(), old(self).cursor(), *piece) == (
                final(self).cursor(),
                built_view(r),
            ),
    {
        let ghost s = self.streams();
        let ghost c0 = self.cursor();
        let tokens: &'t Vec<Token> = self.token_stream;
        if self.decision_index >= self.decision_stream.len() {
            return Err(Error::MissingDecision);
        }
        self.skip_filter();
        while self.token_index < tokens.len() && !tokens[self.token_index].parsable()
            invariant
                self.wf(),
                self.streams() == s,
                tokens@ == s.tokens,
                c0.token <= self.cursor().token,
                self.cursor().decision == skip_filter(s.decisions, c0.decision),
                next_parsable(s.tokens, c0.token) == next_parsable(s.tokens, self.cursor().token),
            decreases tokens.len() - self.token_index,
        {
            self.token_index = self.token_index + 1;
        }
        let t = self.token_index;
        if t >= tokens.len() {
            return Err(Error::MissingToken);
        }
        let token = &tokens[t];
        let data = match (piece, &token.token_type) {
            (Piece::Keyword(..), TokenType::Keyword(v)) => Data::Identifier(copy_text(v)),
            (Piece::Operator(..), TokenType::Operator(v)) => Data::Identifier(copy_text(v)),
            (Piece::Identifier(..), TokenType::Identifier(v)) => Data::Identifier(copy_text(v)),
            (Piece::TypeIdentifier(..), TokenType::TypeIdentifier(v)) => Data::Identifier(
                copy_text(v),
            ),
            (Piece::String(..), TokenType::String(v)) => Data::String(copy_text(v)),
            (Piece::Character(..), TokenType::Character(c)) => Data::Character(*c),
            (Piece::Integer(..), TokenType::Integer(i)) => Data::Integer(*i),
            (Piece::Float(..), TokenType::Float(f)) => Data::Float(*f),
            _ => {
                return Err(Error::UnexpectedToken(token_kind_text(piece)));
            },
        };
        self.token_index = t + 1;
        Ok((data, copy_positions(&token.position)))
    }

    /// Builds a list: items built from `part`, separated by `separator`.
    ///
    /// A malformed stream cannot be read on from here: `MissingDecision`
    /// stands for a decision stream that has ended, `UnexpectedDecision` for
    /// one that does not hold `List` where the list starts (no filter is
    /// stepped over first), and `StalledList` for an item that reads
    /// nothing and is followed by neither `Next` nor `End`, which would
    /// repeat for ever.
    #[verifier::loop_isolation(false)]
    fn build_list(&mut self, part: &Piece, separator: &Option<Box<Piece>>) -> (r: Result<
        (Data, Vec<Position>),
        Error,
    >)
        requires
            old(self).wf(),
        ensures
            final(self).wf(),
            final(self).streams() == old(self).streams(),
            advanced(old(self).streams(), old(self).cursor(), final(self).cursor()),
            spec_list(old(self).streams(), old(self).cursor(), *part, *separator) == (
                final(self).cursor(),
                built_view(r),
            ),
        decreases old(self).remaining_input(), 0int,
    {
        let ghost s = self.streams();
        let ghost c0 = self.cursor();
        let decisions: &'t Vec<Decision> = self.decision_stream;
        if self.decision_index >= decisions.len() {
            return Err(Error::MissingDecision);
        }
        match &decisions[self.decision_index] {
            Decision::List => {},
            _ => {
                return Err(Error::UnexpectedDecision(text_of("list")));
            },
        }
        self.decision_index = self.decision_index + 1;
        let mut items: Vec<Data> = Vec::new();
        let mut list_positions: Vec<Position> = Vec::new();
        assert(positions_view(list_positions@) =~= Seq::<PositionView>::empty());
        assert(crate::data::list_model(items@) =~= Seq::<DataView>::empty());
        loop
            invariant
                self.wf(),
                self.streams() == s,
                decisions@ == s.decisions,
                advanced(s, c0, self.cursor()),
                self.cursor().decision > c0.decision,
                spec_list(s, c0, *part, *separator) == spec_items(
                    s,
                    self.cursor(),
                    *part,
                    separator_view(*separator),
                    crate::data::list_model(items@),
                    positions_view(list_positions@),
                ),
            decreases self.remaining_input(),
        {
            let ghost cb = self.cursor();
            let start_decision = self.decision_index;
            let start_token = self.token_index;
            let (_, (part_data, part_positions)) = match self.build_piece(part) {
                Ok(x) => x,
                Err(e) => {
                    return Err(e);
                },
            };
            extend_positions(&mut list_positions, &part_positions);
            let d = self.decision_index;
            if d >= decisions.len() {
                return Err(Error::MissingDecision);
            }
            match &decisions[d] {
                Decision::End => {
                    self.decision_index = d + 1;
                    let ghost before = items@;
                    let item = make_item(part_data, &part_positions);
                    items.push(item);
                    assert(crate::data::list_model(items@) =~= crate::data::list_model(before).push(item@));
                    proof {
                        lemma_list_view(items);
                    }
                    let positions = Position::range(list_positions, true);
                    return Ok((Data::List(items), positions));
                },
                Decision::Next => {
                    self.decision_index = d + 1;
                    match separator {
                        None => {
                            let ghost before = items@;
                            let item = make_item(part_data, &part_positions);
                            items.push(item);
                            assert(crate::data::list_model(items@) =~= crate::data::list_model(before).push(item@));
                        },
                        Some(sp) => {
                            let (_, (separator_data, separator_positions)) = match self.build_piece(sp) {
                                Ok(x) => x,
                                Err(e) => {
                                    return Err(e);
                                },
                            };
                            extend_positions(&mut list_positions, &separator_positions);
                            let ghost before = items@;
                            let item = make_separated_item(
                                part_data,
                                &part_positions,
                                separator_data,
                                &separator_positions,
                            );
                            items.push(item);
                            assert(crate::data::list_model(items@) =~= crate::data::list_model(before).push(item@));
                        },
                    }
                },
                _ => {
                    if self.decision_index == start_decision && self.token_index == start_token {
                        return Err(Error::StalledList);
                    }
                },
            }
        }
    }

    /// Builds one piece: its key, its data and the positions it covers.
    /// A token piece reads its token with [`Self::find_token`], a comment
    /// piece with [`Self::collect_comment`], a list with
    /// [`Self::build_list`] and a template with [`Self::build`]; their
    /// errors for malformed streams pass through unchanged.
    fn build_piece(&mut self, piece: &Piece) -> (r: Result<(Option<Data>, (Data, Vec<Position>)), Error>)
        requires
            old(self).wf(),
        ensures
            final(self).wf(),
            final(self).streams() == old(self).streams(),
            advanced(old(self).streams(), old(self).cursor(), final(self).cursor()),
            spec_piece(old(self).streams(), old(self).cursor(), *piece) == (
                final(self).cursor(),
                piece_view(r),
            ),
        decreases old(self).remaining_input(), 1int,
    {
        match piece {
            Piece::Merge(_) => match self.build(false) {
                Ok(x) => Ok((None, x)),
                Err(e) => Err(e),
            },
            Piece::Template(key, _) => match self.build(true) {
                Ok(x) => Ok((copy_key(key), x)),
                Err(e) => Err(e),
            },
            Piece::Comment(key) => match self.collect_comment() {
                Ok(x) => Ok((Some(key.duplicate()), x)),
                Err(e) => Err(e),
            },
            Piece::Data(key, data) => {
                let none: Vec<Position> = Vec::new();
                assert(positions_view(none@) =~= Seq::<PositionView>::empty());
                Ok((Some(key.duplicate()), (data.duplicate(), none)))
            },
            Piece::List(key, part, separator) => match self.build_list(part, separator) {
                Ok(x) => Ok((copy_key(key), x)),
                Err(e) => Err(e),
            },
            Piece::Confirmed(key, part, separator) => match self.build_list(part, separator) {
                Ok(x) => Ok((copy_key(key), x)),
                Err(e) => Err(e),
            },
            Piece::Keyword(key, _) | Piece::Operator(key, _) | Piece::Identifier(key, _)
            | Piece::TypeIdentifier(key, _) | Piece::String(key, _) | Piece::Character(key, _)
            | Piece::Integer(key, _) | Piece::Float(key, _) => match self.find_token(piece) {
                Ok(x) => Ok((copy_key(key), x)),
                Err(e) => Err(e),
            },
        }
    }
}


/// A built template records the runs of source it covers: its mapping holds,
/// under `position`, the serialized form of the runs that the build gives.
pub proof fn law_build_records_position(s: Streams, c: Cursor, add_passes: bool)
    ensures
        spec_build(s, c, add_passes).1 matches Ok((m, ps)) ==> spec_index(m, ident("position"@))
            == Ok::<Option<DataView>, ErrorView>(Some(serialize_all(ps))),
{
    broadcast use crate::data::lemma_overwrite_reads_back;
}


/// `List` and `Confirmed` pieces build alike.
pub proof fn law_list_confirmed_alike(
    s: Streams,
    c: Cursor,
    key: Option<Data>,
    part: Box<Piece>,
    separator: Option<Box<Piece>>,
)
    ensures
        spec_piece(s, c, Piece::List(key, part, separator)) == spec_piece(
            s,
            c,
            Piece::Confirmed(key, part, separator),
        ),
{
}

/// The key under which a piece enters its data into the template's
/// `entries`, if any.
pub open spec fn piece_key(piece: Piece) -> Option<DataView> {
    match piece {
        Piece::Merge(_) => None,
        Piece::Template(k, _) => key_view(k),
        Piece::Comment(k) => Some(k@),
        Piece::Data(k, _) => Some(k@),
        Piece::List(k, _, _) => key_view(k),
        Piece::Confirmed(k, _, _) => key_view(k),
        Piece::Keyword(k, _) => key_view(k),
        Piece::Operator(k, _) => key_view(k),
        Piece::Identifier(k, _) => key_view(k),
        Piece::TypeIdentifier(k, _) => key_view(k),
        Piece::String(k, _) => key_view(k),
        Piece::Character(k, _) => key_view(k),
        Piece::Integer(k, _) => key_view(k),
        Piece::Float(k, _) => key_view(k),
    }
}

/// The keys of the keyed pieces from the `i`-th on, in order.
pub open spec fn piece_keys(pieces: Seq<Piece>, i: int) -> Seq<DataView>
    decreases pieces.len() - i,
{
    if i < 0 || i >= pieces.len() {
        Seq::empty()
    } else {
        match piece_key(pieces[i]) {
            Some(k) => seq![k] + piece_keys(pieces, i + 1),
            None => piece_keys(pieces, i + 1),
        }
    }
}

/// The keys of a sequence of pairs, in order.
pub open spec fn keys_of(pairs: Seq<(DataView, DataView)>) -> Seq<DataView> {
    pairs.map_values(|p: (DataView, DataView)| p.0)
}

/// The positions of the pieces from the `i`-th on, each built where the one
/// before it stopped, one after another.
pub open spec fn pieces_positions(s: Streams, c: Cursor, pieces: Seq<Piece>, i: int) -> Seq<
    PositionView,
>
    decreases pieces.len() - i,
{
    if i < 0 || i >= pieces.len() {
        Seq::empty()
    } else {
        let (c2, r) = spec_piece(s, c, pieces[i]);
        match r {
            Ok((_, _, ps)) => ps + pieces_positions(s, c2, pieces, i + 1),
            Err(_) => Seq::empty(),
        }
    }
}

/// The cursor after the template and flavor decisions at `c`, and the
/// pieces of the flavor they choose.
pub open spec fn chosen_pieces(s: Streams, c: Cursor) -> Option<(Cursor, Seq<Piece>)> {
    if !in_bounds(s, c) || c.decision >= s.decisions.len() {
        None
    } else {
        let d = skip_filter(s.decisions, c.decision);
        if d + 1 >= s.decisions.len() {
            None
        } else {
            match (s.decisions[d], s.decisions[d + 1]) {
                (Decision::Template(name), Decision::Flavor(f)) => match template_named(
                    s.templates,
                    name@,
                ) {
                    Some(t) => if f < t.flavors.len() {
                        Some(
                            (
                                Cursor { decision: d + 2, token: c.token },
                                t.flavors@[f as int].pieces@,
                            ),
                        )
                    } else {
                        None
                    },
                    None => None,
                },
                _ => None,
            }
        }
    }
}

pub open spec fn no_merge(pieces: Seq<Piece>, i: int) -> bool {
    forall|j: int| i <= j < pieces.len() ==> !(#[trigger] pieces[j] is Merge)
}

proof fn lemma_piece_key(s: Streams, c: Cursor, piece: Piece)
    ensures
        spec_piece(s, c, piece).1 matches Ok((k, _, _)) ==> k == piece_key(piece),
{
}

proof fn lemma_fold_positions(
    s: Streams,
    c: Cursor,
    pieces: Seq<Piece>,
    i: int,
    map: DataView,
    tps: Seq<PositionView>,
)
    requires
        0 <= i,
    ensures
        spec_fold(s, c, pieces, i, map, tps).1 matches Ok((_, out)) ==> out == tps
            + pieces_positions(s, c, pieces, i),
    decreases remaining(s, c), pieces.len() - i,
{
    if in_bounds(s, c) {
        if i >= pieces.len() {
            assert(tps + Seq::<PositionView>::empty() =~= tps);
        } else {
            let (c2, r) = spec_piece(s, c, pieces[i]);
            if let Ok((key, data, ps)) = r {
                if advanced(s, c, c2) {
                    let next = match key {
                        Some(k) => add_entry(map, k, data, ps),
                        None => if pieces[i] is Merge {
                            spec_merge(map, data)
                        } else {
                            Ok(map)
                        },
                    };
                    if let Ok(m) = next {
                        lemma_fold_positions(s, c2, pieces, i + 1, m, tps + ps);
                        assert((tps + ps) + pieces_positions(s, c2, pieces, i + 1) =~= tps + (ps
                            + pieces_positions(s, c2, pieces, i + 1)));
                    }
                }
            }
        }
    }
}

proof fn lemma_fold_entry_keys(
    s: Streams,
    c: Cursor,
    pieces: Seq<Piece>,
    i: int,
    map: DataView,
    tps: Seq<PositionView>,
    entries: DataView,
)
    requires
        0 <= i,
        no_merge(pieces, i),
        spec_index(map, ident("entries"@)) == Ok::<Option<DataView>, ErrorView>(Some(entries)),
        is_mapping(entries),
    ensures
        spec_fold(s, c, pieces, i, map, tps).1 matches Ok((m, _)) ==> (spec_index(
            m,
            ident("entries"@),
        ) matches Ok(Some(e)) && is_mapping(e) && keys_of(entries_of(e)) == keys_of(
            entries_of(entries),
        ) + piece_keys(pieces, i)),
    decreases remaining(s, c), pieces.len() - i,
{
    if in_bounds(s, c) {
        if i >= pieces.len() {
            assert(keys_of(entries_of(entries)) + Seq::<DataView>::empty() =~= keys_of(
                entries_of(entries),
            ));
        } else {
            let (c2, r) = spec_piece(s, c, pieces[i]);
            lemma_piece_key(s, c, pieces[i]);
            assert(!(pieces[i] is Merge));
            if let Ok((key, data, ps)) = r {
                if advanced(s, c, c2) {
                    match key {
                        Some(k) => {
                            if let Ok(m) = add_entry(map, k, data, ps) {
                                reveal_strlit("entries");
                                reveal_strlit("positions");
                                assert("entries"@.len() != "positions"@.len());
                                assert(ident("entries"@) != ident("positions"@));
                                let p = entries_of(entries);
                                crate::data::law_insert_then_index(entries, k, data, k);
                                let ne = DataView::Mapping(p.push((k, data)));
                                assert(spec_insert(entries, k, data) == Ok::<DataView, ErrorView>(ne));
                                let m1 = spec_overwrite(map, ident("entries"@), ne)->Ok_0;
                                crate::data::law_overwrite_then_index(
                                    map,
                                    ident("entries"@),
                                    ne,
                                    ident("positions"@),
                                );
                                let pos = spec_index(m1, ident("positions"@))->Ok_0->Some_0;
                                let np = spec_insert(pos, k, serialize_all(ps))->Ok_0;
                                crate::data::law_overwrite_then_index(
                                    m1,
                                    ident("positions"@),
                                    np,
                                    ident("entries"@),
                                );
                                assert(m == spec_overwrite(m1, ident("positions"@), np)->Ok_0);
                                lemma_fold_entry_keys(s, c2, pieces, i + 1, m, tps + ps, ne);
                                assert(keys_of(p.push((k, data))) =~= keys_of(p).push(k));
                                assert(keys_of(p) + piece_keys(pieces, i) =~= keys_of(p).push(k)
                                    + piece_keys(pieces, i + 1));
                            }
                        },
                        None => {
                            lemma_fold_entry_keys(s, c2, pieces, i + 1, map, tps + ps, entries);
                        },
                    }
                }
            }
        }
    }
}

/// What a successful build gives, said without following the build step
/// by step: the template and flavor that the decisions at `c` choose
/// exist; the runs returned are those of its pieces, one after another,
/// joined by line; and, when no piece merges another template in, the
/// keys under `entries` are exactly the keys of the keyed pieces, in order.
pub proof fn law_build_pieces(s: Streams, c: Cursor, add_passes: bool)
    ensures
        spec_build(s, c, add_passes).1 matches Ok((m, ps)) ==> (chosen_pieces(s, c) matches Some(
            (c2, pieces),
        ) && ps == spec_range(pieces_positions(s, c2, pieces, 0)) && (no_merge(pieces, 0) ==> (
        spec_index(m, ident("entries"@)) matches Ok(Some(e)) && keys_of(entries_of(e))
            == piece_keys(pieces, 0)))),
{
    if let Some((c2, pieces)) = chosen_pieces(s, c) {
        let d = skip_filter(s.decisions, c.decision);
        if let Decision::Template(name) = s.decisions[d] {
            let t = template_named(s.templates, name@)->Some_0;
            let start = if add_passes && t.passes is Some {
                spec_insert(base_map(), DataView::Keyword("pass"@), t.passes->0@)
            } else {
                Ok(base_map())
            };
            if let Ok(map) = start {
                reveal_strlit("entries");
                reveal_strlit("positions");
                reveal_strlit("position");
                reveal_strlit("pass");
                let empty = DataView::Mapping(Seq::empty());
                assert(key_position(entries_of(base_map()), ident("entries"@)) == 0);
                assert(spec_index(map, ident("entries"@)) == Ok::<Option<DataView>, ErrorView>(
                    Some(empty),
                )) by {
                    assert(key_position(entries_of(map), ident("entries"@)) == 0);
                }
                lemma_fold_positions(s, c2, pieces, 0, map, Seq::empty());
                assert(Seq::<PositionView>::empty() + pieces_positions(s, c2, pieces, 0)
                    =~= pieces_positions(s, c2, pieces, 0));
                if no_merge(pieces, 0) {
                    lemma_fold_entry_keys(s, c2, pieces, 0, map, Seq::empty(), empty);
                    assert(keys_of(entries_of(empty)) =~= Seq::<DataView>::empty());
                    assert(Seq::<DataView>::empty() + piece_keys(pieces, 0) =~= piece_keys(pieces, 0));
                }
                let (c3, r) = spec_fold(s, c2, pieces, 0, map, Seq::empty());
                if let Ok((fm, tps)) = r {
                    assert("position"@.len() != "entries"@.len());
                    assert(ident("position"@) != ident("entries"@));
                    if is_mapping(fm) {
                        crate::data::law_overwrite_then_index(
                            fm,
                            ident("position"@),
                            serialize_all(spec_range(tps)),
                            ident("entries"@),
                        );
                    }
                }
            }
        }
    }
}


/// The key under which a template's passes are recorded.
pub open spec fn pass_key() -> DataView {
    DataView::Keyword("pass"@)
}

/// The template that the decisions at `c` name, after at most one filter.
pub open spec fn chosen_template(s: Streams, c: Cursor) -> Option<Template> {
    if !in_bounds(s, c) || c.decision >= s.decisions.len() {
        None
    } else {
        let d = skip_filter(s.decisions, c.decision);
        if d >= s.decisions.len() {
            None
        } else {
            match s.decisions[d] {
                Decision::Template(name) => template_named(s.templates, name@),
                _ => None,
            }
        }
    }
}

proof fn lemma_base_map_has_no_pass()
    ensures
        spec_index(base_map(), pass_key()) == Ok::<Option<DataView>, ErrorView>(None),
{
    let p = entries_of(base_map());
    assert(crate::data::key_position_from(p, pass_key(), 2) == -1);
    assert(crate::data::key_position_from(p, pass_key(), 1) == -1);
    assert(crate::data::key_position_from(p, pass_key(), 0) == -1);
}

/// Entering a keyed piece leaves the passes recorded as they were.
proof fn lemma_add_entry_keeps_pass(map: DataView, key: DataView, data: DataView, ps: Seq<PositionView>)
    requires
        is_mapping(map),
    ensures
        add_entry(map, key, data, ps) matches Ok(m) ==> is_mapping(m) && spec_index(m, pass_key())
            == spec_index(map, pass_key()),
{
    if let Ok(m1) = enter(map, "entries"@, key, data) {
        let entry = spec_index(map, ident("entries"@))->Ok_0->Some_0;
        let ne = spec_insert(entry, key, data)->Ok_0;
        crate::data::law_overwrite_then_index(map, ident("entries"@), ne, pass_key());
        if let Ok(m2) = enter(m1, "positions"@, key, serialize_all(ps)) {
            let entry2 = spec_index(m1, ident("positions"@))->Ok_0->Some_0;
            let ne2 = spec_insert(entry2, key, serialize_all(ps))->Ok_0;
            crate::data::law_overwrite_then_index(m1, ident("positions"@), ne2, pass_key());
        }
    }
}

proof fn lemma_fold_keeps_pass(
    s: Streams,
    c: Cursor,
    pieces: Seq<Piece>,
    i: int,
    map: DataView,
    tps: Seq<PositionView>,
)
    requires
        0 <= i,
        is_mapping(map),
    ensures
        spec_fold(s, c, pieces, i, map, tps).1 matches Ok((m, _)) ==> is_mapping(m) && spec_index(
            m,
            pass_key(),
        ) == spec_index(map, pass_key()),
    decreases remaining(s, c), 2int, pieces.len() - i,
{
    if in_bounds(s, c) && i < pieces.len() {
        let (c2, r) = spec_piece(s, c, pieces[i]);
        if let Ok((key, data, ps)) = r {
            if advanced(s, c, c2) {
                match key {
                    Some(k) => {
                        lemma_add_entry_keeps_pass(map, k, data, ps);
                        if let Ok(m) = add_entry(map, k, data, ps) {
                            lemma_fold_keeps_pass(s, c2, pieces, i + 1, m, tps + ps);
                        }
                    },
                    None => {
                        if pieces[i] is Merge {
                            lemma_build_pass(s, c, false);
                            assert(spec_build(s, c, false).1 == Ok::<(DataView, Seq<PositionView>), ErrorView>((data, ps)));
                            crate::data::lemma_merge_keeps_absent_key(map, data, pass_key());
                            let m = spec_merge(map, data)->Ok_0;
                            lemma_fold_keeps_pass(s, c2, pieces, i + 1, m, tps + ps);
                        } else {
                            lemma_fold_keeps_pass(s, c2, pieces, i + 1, map, tps + ps);
                        }
                    },
                }
            }
        }
    }
}

proof fn lemma_build_pass(s: Streams, c: Cursor, add_passes: bool)
    ensures
        spec_build(s, c, add_passes).1 matches Ok((m, _)) ==> (chosen_template(s, c) matches Some(t)
            && is_mapping(m) && spec_index(m, pass_key()) == Ok::<Option<DataView>, ErrorView>(
            if add_passes {
                key_view(t.passes)
            } else {
                None
            },
        )),
    decreases remaining(s, c), 0int, 0int,
{
    if in_bounds(s, c) && c.decision < s.decisions.len() {
        let d = skip_filter(s.decisions, c.decision);
        if d + 1 < s.decisions.len() {
            if let Decision::Template(name) = s.decisions[d] {
                if let Some(t) = template_named(s.templates, name@) {
                    if let Decision::Flavor(f) = s.decisions[d + 1] {
                        let c2 = Cursor { decision: d + 2, token: c.token };
                        lemma_base_map_has_no_pass();
                        let start = if add_passes && t.passes is Some {
                            spec_insert(base_map(), pass_key(), t.passes->0@)
                        } else {
                            Ok(base_map())
                        };
                        if add_passes && t.passes is Some {
                            crate::data::law_insert_then_index(
                                base_map(),
                                pass_key(),
                                t.passes->0@,
                                pass_key(),
                            );
                        }
                        if let Ok(map) = start {
                            if f < t.flavors.len() {
                                let pieces = t.flavors@[f as int].pieces@;
                                lemma_fold_keeps_pass(s, c2, pieces, 0, map, Seq::empty());
                                let (c3, r) = spec_fold(s, c2, pieces, 0, map, Seq::empty());
                                if let Ok((fm, tps)) = r {
                                    crate::data::law_overwrite_then_index(
                                        fm,
                                        ident("position"@),
                                        serialize_all(spec_range(tps)),
                                        pass_key(),
                                    );
                                }
                            }
                        }
                    }
                }
            }
        }
    }
}

/// A build records the passes of the template it builds, and only those:
/// with `add_passes`, the mapping holds under `pass` exactly the passes of
/// the template that the decisions name (nothing when it has none), and
/// without, nothing. Templates merged in never change that entry.
pub proof fn law_build_passes(s: Streams, c: Cursor, add_passes: bool)
    ensures
        spec_build(s, c, add_passes).1 matches Ok((m, _)) ==> (chosen_template(s, c) matches Some(t)
            && spec_index(m, pass_key()) == Ok::<Option<DataView>, ErrorView>(
            if add_passes {
                key_view(t.passes)
            } else {
                None
            },
        )),
{
    lemma_build_pass(s, c, add_passes);
}


/// The value that a token carries, as data: the text of a string as a
/// string, a character as a character, an integer as an integer, a decimal
/// as a decimal, and the text of a keyword, an operator, an identifier or a
/// type identifier as an identifier. Comments and invalid tokens carry none.
pub open spec fn token_value(tt: TokenTypeView) -> Option<DataView> {
    match tt {
        TokenTypeView::String(s) => Some(DataView::String(s)),
        TokenTypeView::Character(ch) => Some(DataView::Character(ch)),
        TokenTypeView::Integer(i) => Some(DataView::Integer(i)),
        TokenTypeView::Float(f) => Some(DataView::Float(f)),
        TokenTypeView::Keyword(s) => Some(DataView::Identifier(s)),
        TokenTypeView::Operator(s) => Some(DataView::Identifier(s)),
        TokenTypeView::Identifier(s) => Some(DataView::Identifier(s)),
        TokenTypeView::TypeIdentifier(s) => Some(DataView::Identifier(s)),
        _ => None,
    }
}

/// A token piece and a token of its kind.
pub open spec fn reads_kind(piece: Piece, tt: TokenTypeView) -> bool {
    match (piece, tt) {
        (Piece::Keyword(..), TokenTypeView::Keyword(_)) => true,
        (Piece::Operator(..), TokenTypeView::Operator(_)) => true,
        (Piece::Identifier(..), TokenTypeView::Identifier(_)) => true,
        (Piece::TypeIdentifier(..), TokenTypeView::TypeIdentifier(_)) => true,
        (Piece::String(..), TokenTypeView::String(_)) => true,
        (Piece::Character(..), TokenTypeView::Character(_)) => true,
        (Piece::Integer(..), TokenTypeView::Integer(_)) => true,
        (Piece::Float(..), TokenTypeView::Float(_)) => true,
        _ => false,
    }
}

pub open spec fn is_token_piece(piece: Piece) -> bool {
    match piece {
        Piece::Keyword(..) | Piece::Operator(..) | Piece::Identifier(..) | Piece::TypeIdentifier(
            ..,
        ) | Piece::String(..) | Piece::Character(..) | Piece::Integer(..) | Piece::Float(..) => true,
        _ => false,
    }
}

/// A token piece standing before a token of its kind reads that token.
proof fn lemma_token_piece(s: Streams, c: Cursor, piece: Piece)
    requires
        in_bounds(s, c),
        c.decision < s.decisions.len(),
        !(s.decisions[c.decision] is Filter),
        c.token < s.tokens.len(),
        reads_kind(piece, s.tokens[c.token].token_type@),
    ensures
        spec_piece(s, c, piece) == (
            Cursor { decision: c.decision, token: c.token + 1 },
            Ok::<(Option<DataView>, DataView, Seq<PositionView>), ErrorView>(
                (
                    piece_key(piece),
                    token_value(s.tokens[c.token].token_type@)->Some_0,
                    positions_view(s.tokens[c.token].position@),
                ),
            ),
        ),
{
    assert(next_parsable(s.tokens, c.token) == c.token);
}

/// A token piece reads the next token that takes part in parsing, and only
/// one of its own kind; what it enters is the value that token carries, in
/// the kind of data that matches the token (a string stays a string), with
/// the token's runs of source; a filter decision where it stands is
/// stepped over. Whenever the decision stream has not ended
/// and such a token follows, the read succeeds.
pub proof fn law_token_piece_reads_token(s: Streams, c: Cursor, piece: Piece)
    requires
        is_token_piece(piece),
        in_bounds(s, c),
    ensures
        ({
            let t = next_parsable(s.tokens, c.token);
            &&& spec_piece(s, c, piece) matches (c2, Ok((_, data, ps))) ==> (0 <= t < s.tokens.len()
                && reads_kind(piece, s.tokens[t].token_type@) && token_value(
                s.tokens[t].token_type@,
            ) == Some(data) && ps == positions_view(s.tokens[t].position@) && c2.token == t + 1
                && c2.decision == skip_filter(s.decisions, c.decision))
            &&& (c.decision < s.decisions.len() && 0 <= t < s.tokens.len() && reads_kind(
                piece,
                s.tokens[t].token_type@,
            )) ==> spec_piece(s, c, piece).1 is Ok
        }),
{
}


/// The text of a comment token; nothing for any other token.
pub open spec fn comment_text(tok: Token) -> Seq<char> {
    match tok.token_type@ {
        TokenTypeView::Comment(body) => body,
        _ => Seq::empty(),
    }
}

/// The runs of source of a comment token; none for any other token.
pub open spec fn comment_runs(tok: Token) -> Seq<PositionView> {
    match tok.token_type@ {
        TokenTypeView::Comment(_) => positions_view(tok.position@),
        _ => Seq::empty(),
    }
}

proof fn lemma_scan_comment(ts: Seq<Token>, t: int, text: Seq<char>, ps: Seq<PositionView>)
    requires
        0 <= t,
    ensures
        scan_comment(ts, t, text, ps) matches (t2, Ok((x, y))) ==> (t2 == next_parsable(ts, t) && t
            <= t2 < ts.len() && x == text + ts.subrange(t, t2).map_values(
            |tok: Token| comment_text(tok),
        ).flatten() && y == ps + ts.subrange(t, t2).map_values(|tok: Token| comment_runs(tok)).flatten()),
    decreases ts.len() - t,
{
    if t < ts.len() {
        if is_parsable(ts[t].token_type@) {
            let e = ts.subrange(t, t);
            assert(e.map_values(|tok: Token| comment_text(tok)) =~= Seq::<Seq<char>>::empty());
            assert(e.map_values(|tok: Token| comment_runs(tok)) =~= Seq::<Seq<PositionView>>::empty());
            assert(text + Seq::<char>::empty() =~= text);
            assert(ps + Seq::<PositionView>::empty() =~= ps);
        } else {
            let body = comment_text(ts[t]);
            let runs = comment_runs(ts[t]);
            lemma_scan_comment(ts, t + 1, text + body, ps + runs);
            assert(scan_comment(ts, t, text, ps) == scan_comment(ts, t + 1, text + body, ps + runs));
            let (t2, r) = scan_comment(ts, t, text, ps);
            if let Ok((x, y)) = r {
                let sub = ts.subrange(t, t2);
                let rest = ts.subrange(t + 1, t2);
                let mt = sub.map_values(|tok: Token| comment_text(tok));
                let mr = sub.map_values(|tok: Token| comment_runs(tok));
                assert(mt.drop_first() =~= rest.map_values(|tok: Token| comment_text(tok)));
                assert(mr.drop_first() =~= rest.map_values(|tok: Token| comment_runs(tok)));
                assert(mt.first() == body);
                assert(mr.first() == runs);
                assert(mt.flatten() == body + mt.drop_first().flatten());
                assert(mr.flatten() == runs + mr.drop_first().flatten());
                assert((text + body) + rest.map_values(|tok: Token| comment_text(tok)).flatten()
                    =~= text + (body + rest.map_values(|tok: Token| comment_text(tok)).flatten()));
                assert((ps + runs) + rest.map_values(|tok: Token| comment_runs(tok)).flatten()
                    =~= ps + (runs + rest.map_values(|tok: Token| comment_runs(tok)).flatten()));
            }
        }
    }
}

/// A comment piece collects every comment from where the builder stands up
/// to the next token that takes part in parsing, and stops there: its text
/// is the texts of all those comments, one after another, and its runs of
/// source are the runs of all of them, in order, joined by line. It
/// succeeds exactly when such a token follows.
pub proof fn law_comment_collects_all(s: Streams, c: Cursor)
    requires
        in_bounds(s, c),
    ensures
        ({
            let t = next_parsable(s.tokens, c.token);
            let between = s.tokens.subrange(c.token, t);
            &&& spec_comment(s, c) matches (c2, Ok((data, ps))) ==> (c2.token == t && c2.decision
                == c.decision && data
                == DataView::String(between.map_values(|tok: Token| comment_text(tok)).flatten())
                && ps == spec_range(between.map_values(|tok: Token| comment_runs(tok)).flatten()))
            &&& (spec_comment(s, c).1 is Ok <==> t < s.tokens.len())
        }),
{
    lemma_scan_comment(s.tokens, c.token, Seq::empty(), Seq::empty());
    lemma_scan_comment_succeeds(s.tokens, c.token, Seq::empty(), Seq::empty());
    let t = next_parsable(s.tokens, c.token);
    let between = s.tokens.subrange(c.token, t);
    assert(Seq::<char>::empty() + between.map_values(|tok: Token| comment_text(tok)).flatten()
        =~= between.map_values(|tok: Token| comment_text(tok)).flatten());
    assert(Seq::<PositionView>::empty() + between.map_values(|tok: Token| comment_runs(tok)).flatten()
        =~= between.map_values(|tok: Token| comment_runs(tok)).flatten());
}

proof fn lemma_scan_comment_succeeds(ts: Seq<Token>, t: int, text: Seq<char>, ps: Seq<PositionView>)
    requires
        0 <= t,
    ensures
        scan_comment(ts, t, text, ps).1 is Ok <==> next_parsable(ts, t) < ts.len(),
    decreases ts.len() - t,
{
    if t < ts.len() && !is_parsable(ts[t].token_type@) {
        let body = comment_text(ts[t]);
        let runs = comment_runs(ts[t]);
        lemma_scan_comment_succeeds(ts, t + 1, text + body, ps + runs);
        assert(scan_comment(ts, t, text, ps) == scan_comment(ts, t + 1, text + body, ps + runs));
    }
}


/// The token that the `i`-th part of a list reads, when parts and
/// separators each read one token: parts and separators alternate when
/// there is a separator.
pub open spec fn part_token(c: Cursor, separated: bool, i: int) -> int {
    c.token + i + if separated {
        i
    } else {
        0
    }
}

/// The decision stream holds, from `c` on, `List`, then `k` times `Next`,
/// then `End`; and the tokens from `c` on are, for each of the `k + 1`
/// parts, one of the part's kind, each followed (but the last) by one of
/// the separator's kind when there is a separator.
pub open spec fn simple_list(s: Streams, c: Cursor, part: Piece, separator: Option<Piece>, k: int) -> bool {
    &&& in_bounds(s, c)
    &&& 0 <= k
    &&& c.decision + k + 1 < s.decisions.len()
    &&& s.decisions[c.decision] is List
    &&& (forall|j: int| 1 <= j <= k ==> #[trigger] s.decisions[c.decision + j] is Next)
    &&& s.decisions[c.decision + k + 1] is End
    &&& part_token(c, separator is Some, k) < s.tokens.len()
    &&& (forall|i: int|
        0 <= i <= k ==> reads_kind(part, #[trigger] s.tokens[part_token(c, separator is Some, i)].token_type@))
    &&& (separator matches Some(sp) ==> forall|i: int|
        0 <= i < k ==> reads_kind(sp, #[trigger] s.tokens[part_token(c, true, i) + 1].token_type@))
}

/// The `i`-th item of a list reads the value of the `i`-th part's token
/// under `item`, and, but for the last, that of the separator's token
/// under `separator` when there is a separator.
pub open spec fn item_holds(s: Streams, c: Cursor, separator: Option<Piece>, k: int, item: DataView, i: int) -> bool {
    let pt = s.tokens[part_token(c, separator is Some, i)];
    let st = s.tokens[part_token(c, true, i) + 1];
    &&& spec_index(item, ident("item"@)) == Ok::<Option<DataView>, ErrorView>(
        token_value(pt.token_type@),
    )
    &&& spec_index(item, ident("position"@)) matches Ok(Some(pm)) && spec_index(pm, ident("item"@))
        == Ok::<Option<DataView>, ErrorView>(Some(serialize_all(positions_view(pt.position@))))
        && ((separator is Some && i < k) ==> spec_index(pm, ident("separator"@)) == Ok::<
        Option<DataView>,
        ErrorView,
    >(Some(serialize_all(positions_view(st.position@)))))
    &&& (separator is Some && i < k) ==> spec_index(item, ident("separator"@)) == Ok::<
        Option<DataView>,
        ErrorView,
    >(token_value(st.token_type@))
}

/// The runs of source of the tokens from `a` up to `b`, one after another.
pub open spec fn token_runs(ts: Seq<Token>, a: int, b: int) -> Seq<PositionView> {
    ts.subrange(a, b).map_values(|tok: Token| positions_view(tok.position@)).flatten()
}

proof fn lemma_token_runs_step(ts: Seq<Token>, a: int, b: int)
    requires
        0 <= a < b <= ts.len(),
    ensures
        token_runs(ts, a, b) == positions_view(ts[a].position@) + token_runs(ts, a + 1, b),
{
    let m = ts.subrange(a, b).map_values(|tok: Token| positions_view(tok.position@));
    assert(m.drop_first() =~= ts.subrange(a + 1, b).map_values(
        |tok: Token| positions_view(tok.position@),
    ));
    assert(m.first() == positions_view(ts[a].position@));
}

proof fn lemma_token_runs_empty(ts: Seq<Token>, a: int)
    requires
        0 <= a <= ts.len(),
    ensures
        token_runs(ts, a, a) == Seq::<PositionView>::empty(),
{
    assert(ts.subrange(a, a).map_values(|tok: Token| positions_view(tok.position@)) =~= Seq::<
        Seq<PositionView>,
    >::empty());
}

proof fn lemma_list_item_index(data: DataView, ps: Seq<PositionView>, sep: Option<(DataView, Seq<PositionView>)>)
    ensures
        spec_index(list_item(data, ps, sep), ident("item"@)) == Ok::<Option<DataView>, ErrorView>(
            Some(data),
        ),
        spec_index(list_item(data, ps, sep), ident("position"@)) matches Ok(Some(pm))
            && spec_index(pm, ident("item"@)) == Ok::<Option<DataView>, ErrorView>(
            Some(serialize_all(ps)),
        ) && (sep matches Some((_, sps)) ==> spec_index(pm, ident("separator"@)) == Ok::<
            Option<DataView>,
            ErrorView,
        >(Some(serialize_all(sps)))),
        sep matches Some((sd, _)) ==> spec_index(list_item(data, ps, sep), ident("separator"@))
            == Ok::<Option<DataView>, ErrorView>(Some(sd)),
{
    reveal_strlit("item");
    reveal_strlit("separator");
    reveal_strlit("position");
    assert("item"@.len() != "separator"@.len());
    assert("item"@.len() != "position"@.len());
    assert("position"@.len() != "separator"@.len());
    let p = entries_of(list_item(data, ps, sep));
    assert(crate::data::key_position_from(p, ident("item"@), 0) == 0);
    if let Some((sd, sps)) = sep {
        assert(crate::data::key_position_from(p, ident("separator"@), 1) == 1);
        assert(crate::data::key_position_from(p, ident("separator"@), 0) == 1);
        assert(crate::data::key_position_from(p, ident("position"@), 2) == 2);
        assert(crate::data::key_position_from(p, ident("position"@), 1) == 2);
        assert(crate::data::key_position_from(p, ident("position"@), 0) == 2);
        let pm = entries_of(p[2].1);
        assert(crate::data::key_position_from(pm, ident("item"@), 0) == 0);
        assert(crate::data::key_position_from(pm, ident("separator"@), 1) == 1);
        assert(crate::data::key_position_from(pm, ident("separator"@), 0) == 1);
    } else {
        assert(crate::data::key_position_from(p, ident("position"@), 1) == 1);
        assert(crate::data::key_position_from(p, ident("position"@), 0) == 1);
        let pm = entries_of(p[1].1);
        assert(crate::data::key_position_from(pm, ident("item"@), 0) == 0);
    }
}

proof fn lemma_simple_items(
    s: Streams,
    c0: Cursor,
    part: Piece,
    separator: Option<Piece>,
    k: int,
    i: int,
    items: Seq<DataView>,
    lps: Seq<PositionView>,
)
    requires
        simple_list(s, c0, part, separator, k),
        0 <= i <= k,
        items.len() == i,
        forall|m: int| 0 <= m < i ==> item_holds(s, c0, separator, k, #[trigger] items[m], m),
    ensures
        spec_items(
            s,
            Cursor { decision: c0.decision + 1 + i, token: part_token(c0, separator is Some, i) },
            part,
            separator,
            items,
            lps,
        ) matches (c2, Ok((DataView::List(out), ps))) && c2 == (Cursor {
            decision: c0.decision + k + 2,
            token: part_token(c0, separator is Some, k) + 1,
        }) && out.len() == k + 1 && (forall|m: int|
            0 <= m <= k ==> item_holds(s, c0, separator, k, #[trigger] out[m], m)) && ps
            == spec_range(
            lps + token_runs(
                s.tokens,
                part_token(c0, separator is Some, i),
                part_token(c0, separator is Some, k) + 1,
            ),
        ),
    decreases k - i,
{
    let end = part_token(c0, separator is Some, k) + 1;
    let c = Cursor { decision: c0.decision + 1 + i, token: part_token(c0, separator is Some, i) };
    assert(s.decisions[c0.decision + (1 + i)] is Next || s.decisions[c0.decision + (1 + i)] is End);
    assert(reads_kind(part, s.tokens[part_token(c0, separator is Some, i)].token_type@));
    lemma_token_piece(s, c, part);
    let (c2, r) = spec_piece(s, c, part);
    let pd = token_value(s.tokens[c.token].token_type@)->Some_0;
    let pps = positions_view(s.tokens[c.token].position@);
    if i == k {
        let it = list_item(pd, pps, None);
        lemma_list_item_index(pd, pps, None);
        let out = items.push(it);
        assert forall|m: int| 0 <= m <= k implies item_holds(s, c0, separator, k, #[trigger] out[m], m) by {
            if m < i {
                assert(out[m] == items[m]);
            }
        }
        lemma_token_runs_step(s.tokens, c.token, end);
        lemma_token_runs_empty(s.tokens, end);
        assert(pps + Seq::<PositionView>::empty() =~= pps);
    } else {
        assert(s.decisions[c0.decision + (1 + i)] is Next);
        let c3 = Cursor { decision: c2.decision + 1, token: c2.token };
        match separator {
            None => {
                let it = list_item(pd, pps, None);
                lemma_list_item_index(pd, pps, None);
                let next = items.push(it);
                assert forall|m: int| 0 <= m < i + 1 implies item_holds(s, c0, separator, k, #[trigger] next[m], m) by {
                    if m < i {
                        assert(next[m] == items[m]);
                    }
                }
                lemma_simple_items(s, c0, part, separator, k, i + 1, next, lps + pps);
                lemma_token_runs_step(s.tokens, c.token, end);
                assert(lps + pps + token_runs(s.tokens, c.token + 1, end) =~= lps + (pps
                    + token_runs(s.tokens, c.token + 1, end)));
            },
            Some(sp) => {
                assert(s.decisions[c0.decision + (1 + (i + 1))] is Next || s.decisions[c0.decision + (1 + (i + 1))] is End);
                assert(reads_kind(sp, s.tokens[part_token(c0, true, i) + 1].token_type@));
                lemma_token_piece(s, c3, sp);
                let sd = token_value(s.tokens[c3.token].token_type@)->Some_0;
                let sps = positions_view(s.tokens[c3.token].position@);
                let it = list_item(pd, pps, Some((sd, sps)));
                lemma_list_item_index(pd, pps, Some((sd, sps)));
                let next = items.push(it);
                assert forall|m: int| 0 <= m < i + 1 implies item_holds(s, c0, separator, k, #[trigger] next[m], m) by {
                    if m < i {
                        assert(next[m] == items[m]);
                    }
                }
                lemma_simple_items(s, c0, part, separator, k, i + 1, next, lps + pps + sps);
                lemma_token_runs_step(s.tokens, c.token, end);
                lemma_token_runs_step(s.tokens, c.token + 1, end);
                assert(lps + pps + sps + token_runs(s.tokens, c.token + 2, end) =~= lps + (pps
                    + (sps + token_runs(s.tokens, c.token + 2, end))));
            },
        }
    }
}

/// A list whose decision stream reads `List`, then `k` times `Next`, then
/// `End`, gives exactly `k + 1` items, whether or not it has a separator:
/// the `i`-th holds under `item` the value of the token that the `i`-th
/// part reads, and, with a separator, each item but the last holds under
/// `separator` the value of the separator's token that follows it. The
/// list ends past the `End` decision and past the last part's token, and
/// its runs of source are those of all the tokens it read, in order, joined
/// by line; each item records under `position` the runs of its part and of
/// its separator.
pub proof fn law_list_items(s: Streams, c: Cursor, part: Piece, separator: Option<Box<Piece>>, k: int)
    requires
        simple_list(s, c, part, separator_view(separator), k),
    ensures
        spec_list(s, c, part, separator) matches (c2, Ok((DataView::List(items), ps))) && items.len()
            == k + 1 && c2 == (Cursor {
            decision: c.decision + k + 2,
            token: part_token(c, separator is Some, k) + 1,
        }) && (forall|i: int|
            0 <= i <= k ==> item_holds(s, c, separator_view(separator), k, #[trigger] items[i], i))
            && ps == spec_range(token_runs(s.tokens, c.token, part_token(c, separator is Some, k) + 1)),
{
    lemma_simple_items(s, c, part, separator_view(separator), k, 0, Seq::empty(), Seq::empty());
    assert(Seq::<PositionView>::empty() + token_runs(
        s.tokens,
        c.token,
        part_token(c, separator is Some, k) + 1,
    ) =~= token_runs(s.tokens, c.token, part_token(c, separator is Some, k) + 1));
}


/// The entries that the keyed pieces from the `i`-th on give, each built
/// where the one before it stopped: under its key, what `f` makes of its
/// data and runs.
pub open spec fn pieces_entries(
    s: Streams,
    c: Cursor,
    pieces: Seq<Piece>,
    i: int,
    serialized: bool,
) -> Seq<(DataView, DataView)>
    decreases pieces.len() - i,
{
    if i < 0 || i >= pieces.len() {
        Seq::empty()
    } else {
        let (c2, r) = spec_piece(s, c, pieces[i]);
        match r {
            Ok((Some(k), d, ps)) => seq![(k, if serialized {
                serialize_all(ps)
            } else {
                d
            })] + pieces_entries(s, c2, pieces, i + 1, serialized),
            Ok((None, _, _)) => pieces_entries(s, c2, pieces, i + 1, serialized),
            Err(_) => Seq::empty(),
        }
    }
}

proof fn lemma_fold_entries(
    s: Streams,
    c: Cursor,
    pieces: Seq<Piece>,
    i: int,
    map: DataView,
    tps: Seq<PositionView>,
    entries: DataView,
    positions: DataView,
)
    requires
        0 <= i,
        no_merge(pieces, i),
        spec_index(map, ident("entries"@)) == Ok::<Option<DataView>, ErrorView>(Some(entries)),
        spec_index(map, ident("positions"@)) == Ok::<Option<DataView>, ErrorView>(Some(positions)),
        is_mapping(entries),
        is_mapping(positions),
    ensures
        spec_fold(s, c, pieces, i, map, tps).1 matches Ok((m, _)) ==> (spec_index(
            m,
            ident("entries"@),
        ) == Ok::<Option<DataView>, ErrorView>(
            Some(DataView::Mapping(entries_of(entries) + pieces_entries(s, c, pieces, i, false))),
        ) && spec_index(m, ident("positions"@)) == Ok::<Option<DataView>, ErrorView>(
            Some(DataView::Mapping(entries_of(positions) + pieces_entries(s, c, pieces, i, true))),
        )),
    decreases remaining(s, c), pieces.len() - i,
{
    if in_bounds(s, c) {
        if i >= pieces.len() {
            assert(entries_of(entries) + Seq::<(DataView, DataView)>::empty() =~= entries_of(entries));
            assert(entries_of(positions) + Seq::<(DataView, DataView)>::empty() =~= entries_of(positions));
        } else {
            let (c2, r) = spec_piece(s, c, pieces[i]);
            assert(!(pieces[i] is Merge));
            if let Ok((key, data, ps)) = r {
                if advanced(s, c, c2) {
                    match key {
                        Some(k) => {
                            if let Ok(m) = add_entry(map, k, data, ps) {
                                reveal_strlit("entries");
                                reveal_strlit("positions");
                                assert("entries"@.len() != "positions"@.len());
                                assert(ident("entries"@) != ident("positions"@));
                                let p = entries_of(entries);
                                crate::data::law_insert_then_index(entries, k, data, k);
                                let ne = DataView::Mapping(p.push((k, data)));
                                let m1 = spec_overwrite(map, ident("entries"@), ne)->Ok_0;
                                crate::data::law_overwrite_then_index(
                                    map,
                                    ident("entries"@),
                                    ne,
                                    ident("positions"@),
                                );
                                let q = entries_of(positions);
                                crate::data::law_insert_then_index(positions, k, serialize_all(ps), k);
                                let np = DataView::Mapping(q.push((k, serialize_all(ps))));
                                crate::data::law_overwrite_then_index(
                                    m1,
                                    ident("positions"@),
                                    np,
                                    ident("entries"@),
                                );
                                assert(m == spec_overwrite(m1, ident("positions"@), np)->Ok_0);
                                lemma_fold_entries(s, c2, pieces, i + 1, m, tps + ps, ne, np);
                                assert(p.push((k, data)) + pieces_entries(s, c2, pieces, i + 1, false)
                                    =~= p + pieces_entries(s, c, pieces, i, false));
                                assert(q.push((k, serialize_all(ps))) + pieces_entries(s, c2, pieces, i + 1, true)
                                    =~= q + pieces_entries(s, c, pieces, i, true));
                            }
                        },
                        None => {
                            lemma_fold_entries(s, c2, pieces, i + 1, map, tps + ps, entries, positions);
                        },
                    }
                }
            }
        }
    }
}

/// What a build without merged templates enters: under `entries`, for
/// each keyed piece in order, its key and the data that the piece builds
/// where the one before it stopped; under `positions`, the same keys with
/// the serialized runs of each piece.
pub proof fn law_build_entries(s: Streams, c: Cursor, add_passes: bool)
    ensures
        spec_build(s, c, add_passes).1 matches Ok((m, _)) ==> (chosen_pieces(s, c) matches Some(
            (c2, pieces),
        ) && (no_merge(pieces, 0) ==> (spec_index(m, ident("entries"@)) == Ok::<
            Option<DataView>,
            ErrorView,
        >(Some(DataView::Mapping(pieces_entries(s, c2, pieces, 0, false)))) && spec_index(
            m,
            ident("positions"@),
        ) == Ok::<Option<DataView>, ErrorView>(
            Some(DataView::Mapping(pieces_entries(s, c2, pieces, 0, true))),
        )))),
{
    law_build_pieces(s, c, add_passes);
    if let Some((c2, pieces)) = chosen_pieces(s, c) {
        let d = skip_filter(s.decisions, c.decision);
        if let Decision::Template(name) = s.decisions[d] {
            let t = template_named(s.templates, name@)->Some_0;
            let start = if add_passes && t.passes is Some {
                spec_insert(base_map(), DataView::Keyword("pass"@), t.passes->0@)
            } else {
                Ok(base_map())
            };
            if let Ok(map) = start {
                reveal_strlit("entries");
                reveal_strlit("positions");
                reveal_strlit("position");
                reveal_strlit("pass");
                let empty = DataView::Mapping(Seq::empty());
                assert(spec_index(map, ident("entries"@)) == Ok::<Option<DataView>, ErrorView>(
                    Some(empty),
                )) by {
                    assert(key_position(entries_of(map), ident("entries"@)) == 0);
                }
                assert(spec_index(map, ident("positions"@)) == Ok::<Option<DataView>, ErrorView>(
                    Some(empty),
                )) by {
                    assert("entries"@.len() != "positions"@.len());
                    let p = entries_of(map);
                    assert(p[0].0 == ident("entries"@) && p[1].0 == ident("positions"@));
                    assert(p[1].1 == empty);
                    assert(crate::data::key_position_from(p, ident("positions"@), 1) == 1);
                    assert(key_position(p, ident("positions"@)) == 1);
                }
                if no_merge(pieces, 0) {
                    lemma_fold_entries(s, c2, pieces, 0, map, Seq::empty(), empty, empty);
                    assert(Seq::<(DataView, DataView)>::empty() + pieces_entries(s, c2, pieces, 0, false)
                        =~= pieces_entries(s, c2, pieces, 0, false));
                    assert(Seq::<(DataView, DataView)>::empty() + pieces_entries(s, c2, pieces, 0, true)
                        =~= pieces_entries(s, c2, pieces, 0, true));
                }
                let (c3, r) = spec_fold(s, c2, pieces, 0, map, Seq::empty());
                if let Ok((fm, tps)) = r {
                    assert("position"@.len() != "entries"@.len());
                    assert("position"@.len() != "positions"@.len());
                    if is_mapping(fm) {
                        crate::data::law_overwrite_then_index(
                            fm,
                            ident("position"@),
                            serialize_all(spec_range(tps)),
                            ident("entries"@),
                        );
                        crate::data::law_overwrite_then_index(
                            fm,
                            ident("position"@),
                            serialize_all(spec_range(tps)),
                            ident("positions"@),
                        );
                    }
                }
            }
        }
    }
}

} // verus!
