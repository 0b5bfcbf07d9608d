//! The tokenizer for character literals, such as `'a'` or `'\n'`.
use vstd::prelude::*;
use crate::data::{
    Data, DataView, append_text, copy_text, entries_of, is_mapping, literal_text, lookup,
    not_mapping, pairs_model, pair_model,
};
use crate::error::{Error, ErrorView, expected_found, expected_one, text_of};
use crate::registry::VariantRegistry;
use crate::stack::{CharacterStack, StackView, occurs_at};
use crate::token::{Token, TokenType, TokenTypeView, TokenView};

verus! {

pub struct CharacterTokenizer {
    delimiter: (Vec<char>, Vec<char>),
    replace: Vec<(Vec<char>, Vec<char>)>,
}

pub struct CharacterTokenizerView {
    /// The text that opens a literal.
    pub start: Seq<char>,
    /// The text that closes it.
    pub end: Seq<char>,
    /// Escape sequences and what they stand for, longest first.
    pub replace: Seq<(Seq<char>, Seq<char>)>,
}

pub open spec fn text_pairs(v: Seq<(Vec<char>, Vec<char>)>) -> Seq<(Seq<char>, Seq<char>)> {
    v.map_values(|p: (Vec<char>, Vec<char>)| (p.0@, p.1@))
}

impl View for CharacterTokenizer {
    type V = CharacterTokenizerView;

    closed spec fn view(&self) -> CharacterTokenizerView {
        CharacterTokenizerView {
            start: self.delimiter.0@,
            end: self.delimiter.1@,
            replace: text_pairs(self.replace@),
        }
    }
}

impl CharacterTokenizerView {
    pub open spec fn wf(self) -> bool {
        &&& self.start.len() > 0
        &&& self.end.len() > 0
        &&& forall|j: int| 0 <= j < self.replace.len() ==> (#[trigger] self.replace[j]).0.len() > 0
    }
}

/// The first escape sequence of `replace`, from the `j`-th on, that occurs
/// in `s` at `k`; `-1` when none does.
pub open spec fn first_replacement(
    s: Seq<char>,
    k: int,
    replace: Seq<(Seq<char>, Seq<char>)>,
    j: int,
) -> int
    decreases replace.len() - j,
{
    if j < 0 || j >= replace.len() {
        -1
    } else if occurs_at(s, k, replace[j].0) {
        j
    } else {
        first_replacement(s, k, replace, j + 1)
    }
}

/// Reads the body of a literal from `k` on, having collected `acc`: gives
/// where reading stopped and the body, or `None` when the source ended
/// before the closing text.
pub open spec fn scan_body(
    s: Seq<char>,
    k: int,
    end: Seq<char>,
    replace: Seq<(Seq<char>, Seq<char>)>,
    acc: Seq<char>,
) -> (int, Option<Seq<char>>)
    decreases s.len() - k,
{
    if k < 0 {
        (k, None)
    } else if occurs_at(s, k, end) {
        (k + end.len(), Some(acc))
    } else if k >= s.len() {
        (k, None)
    } else {
        let j = first_replacement(s, k, replace, 0);
        if 0 <= j < replace.len() && replace[j].0.len() > 0 && occurs_at(s, k, replace[j].0) {
            scan_body(s, k + replace[j].0.len(), end, replace, acc + replace[j].1)
        } else {
            scan_body(s, k + 1, end, replace, acc.push(s[k]))
        }
    }
}

/// The token for a literal body: a character when the body is exactly one,
/// an invalid token otherwise.
pub open spec fn character_token(body: Option<Seq<char>>) -> TokenTypeView {
    match body {
        None => TokenTypeView::Invalid(
            ErrorView::UnterminatedToken(DataView::Identifier("character"@)),
        ),
        Some(b) => if b.len() != 1 {
            TokenTypeView::Invalid(ErrorView::InvalidCharacterLength(DataView::String(b)))
        } else {
            TokenTypeView::Character(b[0])
        },
    }
}

pub open spec fn delimiter_key() -> DataView {
    DataView::Identifier("delimiter"@)
}

pub open spec fn replace_key() -> DataView {
    DataView::Keyword("replace"@)
}

/// The text of a literal setting.
pub open spec fn unpack_literal(d: DataView) -> Result<Seq<char>, ErrorView> {
    match literal_text(d) {
        Some(t) => Ok(t),
        None => Err(ErrorView::ExpectedFound(expected_one("literal"@), d)),
    }
}

/// The opening and closing texts that the settings give.
pub open spec fn spec_delimiters(settings: DataView) -> Result<(Seq<char>, Seq<char>), ErrorView> {
    match lookup(entries_of(settings), delimiter_key()) {
        None => Err(ErrorView::MissingEntry(delimiter_key())),
        Some(d) => match d {
            DataView::List(items) => if items.len() != 2 {
                Err(
                    ErrorView::InvalidItemCount(
                        DataView::Integer(2),
                        DataView::Integer((items.len() as i64) as int),
                    ),
                )
            } else {
                match unpack_literal(items[0]) {
                    Err(e) => Err(e),
                    Ok(start) => match unpack_literal(items[1]) {
                        Err(e) => Err(e),
                        Ok(end) => if start.len() == 0 || end.len() == 0 {
                            Err(ErrorView::EmptyLiteral)
                        } else {
                            Ok((start, end))
                        },
                    },
                }
            },
            _ => Err(ErrorView::ExpectedFound(expected_one("list"@), d)),
        },
    }
}

/// Where an escape sequence of `n` characters goes in `list`, from the
/// `j`-th entry on: before the first shorter one.
pub open spec fn insert_position(list: Seq<(Seq<char>, Seq<char>)>, n: nat, j: int) -> int
    decreases list.len() - j,
{
    if j < 0 || j >= list.len() {
        list.len() as int
    } else if list[j].0.len() < n {
        j
    } else {
        insert_position(list, n, j + 1)
    }
}

/// `list` with `entry` placed before the first shorter escape sequence, so
/// that longer sequences are tried first.
pub open spec fn insert_by_length(
    list: Seq<(Seq<char>, Seq<char>)>,
    entry: (Seq<char>, Seq<char>),
) -> Seq<(Seq<char>, Seq<char>)> {
    list.insert(insert_position(list, entry.0.len(), 0), entry)
}

pub open spec fn add_replacement(
    acc: Result<Seq<(Seq<char>, Seq<char>)>, ErrorView>,
    pair: (DataView, DataView),
) -> Result<Seq<(Seq<char>, Seq<char>)>, ErrorView> {
    match acc {
        Err(e) => Err(e),
        Ok(list) => match unpack_literal(pair.0) {
            Err(e) => Err(e),
            Ok(from) => match unpack_literal(pair.1) {
                Err(e) => Err(e),
                Ok(to) => if from.len() == 0 {
                    Err(ErrorView::EmptyLiteral)
                } else {
                    Ok(insert_by_length(list, (from, to)))
                },
            },
        },
    }
}

pub open spec fn fold_replacements(pairs: Seq<(DataView, DataView)>) -> Result<
    Seq<(Seq<char>, Seq<char>)>,
    ErrorView,
>
    decreases pairs.len(),
{
    if pairs.len() == 0 {
        Ok(Seq::empty())
    } else {
        add_replacement(fold_replacements(pairs.drop_last()), pairs.last())
    }
}

/// The escape sequences that the settings give, longest first.
pub open spec fn spec_replacements(settings: DataView) -> Result<
    Seq<(Seq<char>, Seq<char>)>,
    ErrorView,
> {
    match lookup(entries_of(settings), replace_key()) {
        None => Ok(Seq::empty()),
        Some(r) => if !is_mapping(r) {
            Err(not_mapping(r))
        } else {
            fold_replacements(entries_of(r))
        },
    }
}

proof fn lemma_fold_error_stays(pairs: Seq<(DataView, DataView)>, i: int, e: ErrorView)
    requires
        0 <= i <= pairs.len(),
        fold_replacements(pairs.take(i)) == Err::<Seq<(Seq<char>, Seq<char>)>, ErrorView>(e),
    ensures
        fold_replacements(pairs) == Err::<Seq<(Seq<char>, Seq<char>)>, ErrorView>(e),
    decreases pairs.len() - i,
{
    if i < pairs.len() {
        assert(pairs.take(i + 1).drop_last() =~= pairs.take(i));
        lemma_fold_error_stays(pairs, i + 1, e);
    } else {
        assert(pairs.take(i) =~= pairs);
    }
}

proof fn lemma_insert_position_bounds(list: Seq<(Seq<char>, Seq<char>)>, n: nat, j: int)
    requires
        0 <= j,
    ensures
        0 <= insert_position(list, n, j) <= list.len(),
    decreases list.len() - j,
{
    if j < list.len() && list[j].0.len() >= n {
        lemma_insert_position_bounds(list, n, j + 1);
    }
}

/// Escape sequences ordered from the longest to the shortest.
pub open spec fn longest_first(list: Seq<(Seq<char>, Seq<char>)>) -> bool {
    forall|i: int, j: int| 0 <= i < j < list.len() ==> list[i].0.len() >= list[j].0.len()
}

proof fn lemma_insert_position_spec(list: Seq<(Seq<char>, Seq<char>)>, n: nat, j: int)
    requires
        0 <= j <= list.len(),
    ensures
        forall|i: int| j <= i < insert_position(list, n, j) ==> list[i].0.len() >= n,
        insert_position(list, n, j) < list.len() ==> list[insert_position(list, n, j)].0.len() < n,
    decreases list.len() - j,
{
    if j < list.len() && list[j].0.len() >= n {
        lemma_insert_position_spec(list, n, j + 1);
    }
}

proof fn lemma_insert_keeps_order(list: Seq<(Seq<char>, Seq<char>)>, entry: (Seq<char>, Seq<char>))
    requires
        longest_first(list),
    ensures
        longest_first(insert_by_length(list, entry)),
{
    let n = entry.0.len();
    lemma_insert_position_spec(list, n, 0);
    lemma_insert_position_bounds(list, n, 0);
    let p = insert_position(list, n, 0);
    let r = insert_by_length(list, entry);
    assert forall|i: int, j: int| 0 <= i < j < r.len() implies r[i].0.len() >= r[j].0.len() by {
        if j < p {
        } else if j == p {
            assert(r[i] == list[i]);
        } else if i < p {
            assert(r[j] == list[j - 1]);
            assert(list[p].0.len() < n);
            if j - 1 > p {
                assert(list[p].0.len() >= list[j - 1].0.len());
            }
        } else if i == p {
            assert(r[j] == list[j - 1]);
            if j - 1 > p {
                assert(list[p].0.len() >= list[j - 1].0.len());
            }
        } else {
            assert(r[i] == list[i - 1]);
            assert(r[j] == list[j - 1]);
        }
    }
}

proof fn lemma_fold_longest_first(pairs: Seq<(DataView, DataView)>)
    ensures
        fold_replacements(pairs) matches Ok(list) ==> longest_first(list),
    decreases pairs.len(),
{
    if pairs.len() > 0 {
        lemma_fold_longest_first(pairs.drop_last());
        if let Ok(list) = fold_replacements(pairs.drop_last()) {
            if let Ok(from) = unpack_literal(pairs.last().0) {
                if let Ok(to) = unpack_literal(pairs.last().1) {
                    lemma_insert_keeps_order(list, (from, to));
                }
            }
        }
    }
}

/// The escape sequences that a character tokenizer is set up with are
/// ordered from the longest to the shortest, so that a longer sequence is
/// always tried before any shorter one.
pub proof fn law_replacements_longest_first(settings: DataView)
    ensures
        spec_replacements(settings) matches Ok(list) ==> longest_first(list),
{
    if let Some(r) = lookup(entries_of(settings), replace_key()) {
        lemma_fold_longest_first(entries_of(r));
    }
}

fn unpack_literal_exec(d: &Data) -> (r: Result<Vec<char>, Error>)
    ensures
        match r {
            Ok(t) => unpack_literal(d@) == Ok::<Seq<char>, ErrorView>(t@),
            Err(e) => unpack_literal(d@) == Err::<Seq<char>, ErrorView>(e@),
        },
{
    match d {
        Data::Identifier(t) => Ok(copy_text(t)),
        Data::Keyword(t) => Ok(copy_text(t)),
        Data::String(t) => Ok(copy_text(t)),
        _ => Err(expected_found("literal", d.duplicate())),
    }
}

/// Places `(from, to)` before the first shorter escape sequence.
fn push_by_length(list: &mut Vec<(Vec<char>, Vec<char>)>, from: Vec<char>, to: Vec<char>)
    ensures
        text_pairs(final(list)@) == insert_by_length(text_pairs(old(list)@), (from@, to@)),
{
    let ghost l = text_pairs(list@);
    let mut j: usize = 0;
    while j < list.len() && list[j].0.len() >= from.len()
        invariant
            j <= list.len(),
            l == text_pairs(list@),
            insert_position(l, from@.len(), 0) == insert_position(l, from@.len(), j as int),
        decreases list.len() - j,
    {
        j = j + 1;
    }
    let ghost before = list@;
    list.insert(j, (from, to));
    assert(text_pairs(list@) =~= l.insert(j as int, (from@, to@)));
}

impl CharacterTokenizer {
    pub open spec fn valid(&self) -> bool {
        self@.wf()
    }

    /// Sets up the tokenizer from its settings, a mapping with a `delimiter`
    /// list of the opening and closing texts and an optional `replace`
    /// mapping of escape sequences to what they stand for. Records in the
    /// registry that the source may hold characters, and makes the opening
    /// text end words on the stack.
    #[verifier::loop_isolation(false)]
    pub fn new(
        settings: &Data,
        character_stack: &mut CharacterStack,
        variant_registry: &mut VariantRegistry,
    ) -> (r: Result<CharacterTokenizer, Error>)
        requires
            old(character_stack).wf(),
        ensures
            final(character_stack).wf(),
            !is_mapping(settings@) ==> {
                &&& r matches Err(e) && e@ == not_mapping(settings@)
                &&& *final(variant_registry) == *old(variant_registry)
                &&& final(character_stack)@ == old(character_stack)@
            },
            is_mapping(settings@) ==> {
                &&& final(variant_registry).has_characters
                &&& match spec_delimiters(settings@) {
                    Err(e) => r matches Err(x) && x@ == e && final(character_stack)@ == old(
                        character_stack,
                    )@,
                    Ok((start, end)) => {
                        &&& final(character_stack)@ == (StackView {
                            breaking: old(character_stack)@.breaking.push(start[0]),
                            signatures: old(character_stack)@.signatures.push(start),
                            ..old(character_stack)@
                        })
                        &&& match spec_replacements(settings@) {
                            Err(e) => r matches Err(x) && x@ == e,
                            Ok(list) => r matches Ok(t) && t@ == (CharacterTokenizerView {
                                start: start,
                                end: end,
                                replace: list,
                            }) && t.valid(),
                        }
                    },
                }
            },
    {
        broadcast use crate::data::lemma_mapping_view, crate::data::lemma_list_view;

        if !settings.is_map() {
            return Err(expected_found("map", settings.duplicate()));
        }
        variant_registry.has_characters = true;
        let delimiter_key = Data::Identifier(text_of("delimiter"));
        let delimiter = match settings.index(&delimiter_key) {
            Ok(Some(d)) => d,
            Ok(None) => {
                return Err(Error::MissingEntry(delimiter_key));
            },
            Err(e) => {
                return Err(e);
            },
        };
        let delimiter_list = match &delimiter {
            Data::List(items) => items,
            _ => {
                return Err(expected_found("list", delimiter.duplicate()));
            },
        };
        if delimiter_list.len() != 2 {
            return Err(
                Error::InvalidItemCount(Data::Integer(2), Data::Integer(#[verifier::truncate] (delimiter_list.len() as i64))),
            );
        }
        let start_delimiter = match unpack_literal_exec(&delimiter_list[0]) {
            Ok(t) => t,
            Err(e) => {
                return Err(e);
            },
        };
        let end_delimiter = match unpack_literal_exec(&delimiter_list[1]) {
            Ok(t) => t,
            Err(e) => {
                return Err(e);
            },
        };
        if start_delimiter.len() == 0 {
            return Err(Error::EmptyLiteral);
        }
        if end_delimiter.len() == 0 {
            return Err(Error::EmptyLiteral);
        }
        character_stack.register_breaking(start_delimiter[0]);
        character_stack.register_signature(copy_text(&start_delimiter));

        let mut replace: Vec<(Vec<char>, Vec<char>)> = Vec::new();
        assert(text_pairs(replace@) =~= Seq::<(Seq<char>, Seq<char>)>::empty());
        let replace_key = Data::Keyword(text_of("replace"));
        let lookup_result = settings.index(&replace_key);
        let replace_lookup = match lookup_result {
            Ok(o) => o,
            Err(e) => {
                return Err(e);
            },
        };
        if let Some(replace_lookup) = replace_lookup {
            if !replace_lookup.is_map() {
                return Err(expected_found("map", replace_lookup.duplicate()));
            }
            let pairs = match replace_lookup.pairs() {
                Ok(p) => p,
                Err(e) => {
                    return Err(e);
                },
            };
            let ghost ps = pairs_model(pairs@);
            assert(ps.take(0) =~= Seq::<(DataView, DataView)>::empty());
            let mut i: usize = 0;
            while i < pairs.len()
                invariant
                    i <= pairs.len(),
                    ps == pairs_model(pairs@),
                    fold_replacements(ps.take(i as int)) == Ok::<
                        Seq<(Seq<char>, Seq<char>)>,
                        ErrorView,
                    >(text_pairs(replace@)),
                    forall|j: int|
                        0 <= j < replace@.len() ==> (#[trigger] text_pairs(replace@)[j]).0.len()
                            > 0,
                decreases pairs.len() - i,
            {
                assert(ps.take(i + 1).drop_last() =~= ps.take(i as int));
                assert(ps.take(i + 1).last() == pair_model(pairs@[i as int]));
                let from = match unpack_literal_exec(&pairs[i].0) {
                    Ok(t) => t,
                    Err(e) => {
                        proof {
                            lemma_fold_error_stays(ps, i + 1, e@);
                        }
                        return Err(e);
                    },
                };
                let to = match unpack_literal_exec(&pairs[i].1) {
                    Ok(t) => t,
                    Err(e) => {
                        proof {
                            lemma_fold_error_stays(ps, i + 1, e@);
                        }
                        return Err(e);
                    },
                };
                if from.len() == 0 {
                    proof {
                        lemma_fold_error_stays(ps, i + 1, ErrorView::EmptyLiteral);
                    }
                    return Err(Error::EmptyLiteral);
                }
                let ghost before = text_pairs(replace@);
                push_by_length(&mut replace, from, to);
                proof {
                    let after = text_pairs(replace@);
                    let p = insert_position(before, from@.len(), 0);
                    lemma_insert_position_bounds(before, from@.len(), 0);
                    assert(after == before.insert(p, (from@, to@)));
                    assert forall|j: int| 0 <= j < after.len() implies (#[trigger] after[j]).0.len()
                        > 0 by {
                        if j < p {
                            assert(after[j] == before[j]);
                        } else if j > p {
                            assert(after[j] == before[j - 1]);
                        }
                    }
                }
                i = i + 1;
            }
            assert(ps.take(pairs.len() as int) =~= ps);
        }
        Ok(CharacterTokenizer { delimiter: (start_delimiter, end_delimiter), replace: replace })
    }
}


impl CharacterTokenizer {
    /// Reads a character literal if one starts at the next character:
    /// gives `false`, having read nothing, when none does. Otherwise reads
    /// it to its closing text, replacing escape sequences, and pushes a
    /// character token, or an invalid token when the source ends first or
    /// the literal does not hold exactly one character.
    pub fn find(&self, character_stack: &mut CharacterStack, tokens: &mut Vec<Token>) -> (r: Result<bool, Error>)
        requires
            self.valid(),
            old(character_stack).wf(),
        ensures
            final(character_stack).wf(),
            ({
                let st = old(character_stack)@;
                if !occurs_at(st.characters, st.index as int, self@.start) {
                    &&& r matches Ok(false)
                    &&& final(character_stack)@ == st
                    &&& final(tokens)@ == old(tokens)@
                } else {
                    let (stop, body) = scan_body(
                        st.characters,
                        (st.index + self@.start.len()) as int,
                        self@.end,
                        self@.replace,
                        Seq::empty(),
                    );
                    &&& r matches Ok(true)
                    &&& final(character_stack)@ == st.advanced((stop - st.index) as nat)
                    &&& final(tokens)@.len() == old(tokens)@.len() + 1
                    &&& final(tokens)@.take(old(tokens)@.len() as int) == old(tokens)@
                    &&& final(tokens)@.last()@ == (TokenView {
                        token_type: character_token(body),
                        position: final(character_stack)@.positions(),
                    })
                }
            }),
    {
        let ghost st = character_stack@;
        if !character_stack.check_string(&self.delimiter.0) {
            return Ok(false);
        }
        let ghost s = st.characters;
        let ghost end = self@.end;
        let ghost rep = self@.replace;
        let ghost target = scan_body(s, (st.index + self@.start.len()) as int, end, rep, Seq::empty());
        let mut character: Vec<char> = Vec::new();
        loop
            invariant_except_break
                character_stack.wf(),
                self.valid(),
                st == old(character_stack)@,
                occurs_at(st.characters, st.index as int, self@.start),
                target == scan_body(s, (st.index + self@.start.len()) as int, end, rep, Seq::empty()),
                s == st.characters,
                end == self@.end,
                rep == self@.replace,
                character_stack@ == st.advanced((character_stack@.index - st.index) as nat),
                st.index <= character_stack@.index <= s.len(),
                scan_body(s, character_stack@.index as int, end, rep, character@) == target,
                tokens@ == old(tokens)@,
            ensures
                character_stack.wf(),
                st == old(character_stack)@,
                occurs_at(st.characters, st.index as int, self@.start),
                target == scan_body(s, (st.index + self@.start.len()) as int, end, rep, Seq::empty()),
                character_stack@ == st.advanced((character_stack@.index - st.index) as nat),
                target == (character_stack@.index as int, Some(character@)),
                tokens@ == old(tokens)@,
            decreases s.len() - character_stack@.index,
        {
            let ghost k = character_stack@.index as int;
            assert(self@.wf());
            if character_stack.check_string(&self.delimiter.1) {
                break;
            }
            if character_stack.is_empty() {
                let error = Error::UnterminatedToken(Data::Identifier(text_of("character")));
                let positions = character_stack.final_positions();
                tokens.push(Token::new(TokenType::Invalid(error), positions));
                assert(tokens@.take(old(tokens)@.len() as int) =~= old(tokens)@);
                return Ok(true);
            }
            let ghost acc0 = character@;
            let mut j: usize = 0;
            let mut replaced = false;
            while j < self.replace.len() && !replaced
                invariant
                    character_stack.wf(),
                    self.valid(),
                    rep == self@.replace,
                    rep.len() == self.replace.len(),
                    j <= self.replace.len(),
                    0 <= k < s.len(),
                    st.index <= k,
                    !occurs_at(s, k, end),
                    s == st.characters,
                    scan_body(s, k, end, rep, acc0) == target,
                    !replaced ==> character_stack@ == st.advanced((k - st.index) as nat),
                    !replaced ==> character@ == acc0,
                    !replaced ==> first_replacement(s, k, rep, 0) == first_replacement(
                        s,
                        k,
                        rep,
                        j as int,
                    ),
                    replaced ==> {
                        let f = first_replacement(s, k, rep, 0);
                        &&& 0 <= f < rep.len()
                        &&& occurs_at(s, k, rep[f].0)
                        &&& character_stack@ == st.advanced((k + rep[f].0.len() - st.index) as nat)
                        &&& character@ == acc0 + rep[f].1
                    },
                decreases self.replace.len() - j, (if replaced { 0int } else { 1int }),
            {
                assert(rep[j as int] == (self.replace@[j as int].0@, self.replace@[j as int].1@));
                if character_stack.check_string(&self.replace[j].0) {
                    append_text(&mut character, &self.replace[j].1);
                    replaced = true;
                } else {
                    j = j + 1;
                }
            }
            if !replaced {
                let c = character_stack.pop();
                match c {
                    Some(c) => {
                        character.push(c);
                    },
                    None => {},
                }
            } else {
                proof {
                    let f = first_replacement(s, k, rep, 0);
                    assert(rep[f].0.len() > 0);
                }
            }
        }
        assert(target.1 == Some(character@));
        if character.len() != 1 {
            let error = Error::InvalidCharacterLength(Data::String(copy_text(&character)));
            let positions = character_stack.final_positions();
            tokens.push(Token::new(TokenType::Invalid(error), positions));
            assert(tokens@.take(old(tokens)@.len() as int) =~= old(tokens)@);
            return Ok(true);
        }
        let positions = character_stack.final_positions();
        tokens.push(Token::new(TokenType::Character(character[0]), positions));
        assert(tokens@.take(old(tokens)@.len() as int) =~= old(tokens)@);
        Ok(true)
    }
}


} // verus!
