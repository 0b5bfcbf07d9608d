//! Source positions: a run of characters on one line of one file.
use vstd::prelude::*;
use crate::data::{Data, DataView, copy_text, text_equal, pairs_model, lemma_mapping_view};
use crate::error::text_of;

verus! {

#[derive(Debug)]
pub struct Position {
    pub file: Option<Vec<char>>,
    /// The line, counted from 1.
    pub line: usize,
    /// The column of the first character, counted from 1.
    pub character: usize,
    /// How many characters the run holds.
    pub length: usize,
}

pub struct PositionView {
    pub file: Option<Seq<char>>,
    pub line: nat,
    pub character: nat,
    pub length: nat,
}

pub open spec fn file_view(f: Option<Vec<char>>) -> Option<Seq<char>> {
    match f {
        Some(v) => Some(v@),
        None => None,
    }
}

impl View for Position {
    type V = PositionView;

    open spec fn view(&self) -> PositionView {
        PositionView {
            file: file_view(self.file),
            line: self.line as nat,
            character: self.character as nat,
            length: self.length as nat,
        }
    }
}

pub open spec fn positions_view(v: Seq<Position>) -> Seq<PositionView> {
    v.map_values(|p: Position| p@)
}

pub open spec fn same_line(a: PositionView, b: PositionView) -> bool {
    a.file == b.file && a.line == b.line
}

pub open spec fn min_nat(a: nat, b: nat) -> nat {
    if a <= b {
        a
    } else {
        b
    }
}

pub open spec fn max_nat(a: nat, b: nat) -> nat {
    if a >= b {
        a
    } else {
        b
    }
}

/// The column just past a run, or `usize::MAX` when that is beyond it.
pub open spec fn end_of(p: PositionView) -> nat {
    min_nat(p.character + p.length, usize::MAX as nat)
}

/// The smallest run on the line of `a` that covers both `a` and `b`.
pub open spec fn cover(a: PositionView, b: PositionView) -> PositionView {
    let start = min_nat(a.character, b.character);
    let end = max_nat(end_of(a), end_of(b));
    PositionView { file: a.file, line: a.line, character: start, length: (end - start) as nat }
}

/// `acc` with `p` added: joined with the last run when that is on the same
/// line, appended as a run of its own otherwise.
pub open spec fn absorb(acc: Seq<PositionView>, p: PositionView) -> Seq<PositionView> {
    if acc.len() > 0 && same_line(acc.last(), p) {
        acc.update(acc.len() - 1, cover(acc.last(), p))
    } else {
        acc.push(p)
    }
}

/// The runs covered by `positions`: consecutive positions on the same line
/// are joined into one.
pub open spec fn spec_range(positions: Seq<PositionView>) -> Seq<PositionView>
    decreases positions.len(),
{
    if positions.len() == 0 {
        Seq::empty()
    } else {
        absorb(spec_range(positions.drop_last()), positions.last())
    }
}

/// No two neighbouring runs are on the same line.
pub open spec fn separated(runs: Seq<PositionView>) -> bool {
    forall|i: int| 0 < i < runs.len() ==> !same_line(#[trigger] runs[i - 1], runs[i])
}

proof fn lemma_range_separated(positions: Seq<PositionView>)
    ensures
        separated(spec_range(positions)),
    decreases positions.len(),
{
    if positions.len() > 0 {
        lemma_range_separated(positions.drop_last());
        let acc = spec_range(positions.drop_last());
        let p = positions.last();
        let r = absorb(acc, p);
        assert forall|i: int| 0 < i < r.len() implies !same_line(#[trigger] r[i - 1], r[i]) by {
            if i < acc.len() {
                assert(!same_line(acc[i - 1], acc[i]));
            }
        }
    }
}

proof fn lemma_range_of_separated(runs: Seq<PositionView>)
    requires
        separated(runs),
    ensures
        spec_range(runs) == runs,
    decreases runs.len(),
{
    if runs.len() > 0 {
        let front = runs.drop_last();
        assert(separated(front)) by {
            assert forall|i: int| 0 < i < front.len() implies !same_line(
                #[trigger] front[i - 1],
                front[i],
            ) by {
                assert(!same_line(runs[i - 1], runs[i]));
            }
        }
        lemma_range_of_separated(front);
        if front.len() > 0 {
            assert(!same_line(runs[runs.len() - 2], runs[runs.len() - 1]));
        }
        assert(front.push(runs.last()) =~= runs);
    }
}

/// Joining runs a second time changes nothing: the runs that
/// `Position::range` gives are already joined.
pub proof fn law_range_idempotent(positions: Seq<PositionView>)
    ensures
        spec_range(spec_range(positions)) == spec_range(positions),
{
    lemma_range_separated(positions);
    lemma_range_of_separated(spec_range(positions));
}

pub open spec fn serialize_view(p: PositionView) -> DataView {
    let base = seq![
        (DataView::Identifier("line"@), DataView::Integer((p.line as i64) as int)),
        (DataView::Identifier("character"@), DataView::Integer((p.character as i64) as int)),
        (DataView::Identifier("length"@), DataView::Integer((p.length as i64) as int)),
    ];
    match p.file {
        Some(f) => DataView::Mapping(base.push((DataView::Identifier("file"@), DataView::String(f)))),
        None => DataView::Mapping(base),
    }
}

/// The serialized forms of a sequence of positions, as a list.
pub open spec fn serialize_all(positions: Seq<PositionView>) -> DataView {
    DataView::List(positions.map_values(|p: PositionView| serialize_view(p)))
}

pub fn copy_file(f: &Option<Vec<char>>) -> (r: Option<Vec<char>>)
    ensures
        file_view(r) == file_view(*f),
{
    match f {
        Some(v) => Some(copy_text(v)),
        None => None,
    }
}

fn same_file(a: &Option<Vec<char>>, b: &Option<Vec<char>>) -> (r: bool)
    ensures
        r == (file_view(*a) == file_view(*b)),
{
    match (a, b) {
        (Some(x), Some(y)) => text_equal(x, y),
        (None, None) => true,
        _ => false,
    }
}

impl Position {
    pub fn copy(&self) -> (r: Position)
        ensures
            r@ == self@,
    {
        Position {
            file: copy_file(&self.file),
            line: self.line,
            character: self.character,
            length: self.length,
        }
    }

    /// The run of `a`'s line that covers both `a` and `b`.
    fn cover(a: &Position, b: &Position) -> (r: Position)
        ensures
            r@ == cover(a@, b@),
    {
        let start = if a.character <= b.character {
            a.character
        } else {
            b.character
        };
        let end_a = a.character.saturating_add(a.length);
        let end_b = b.character.saturating_add(b.length);
        let end = if end_a >= end_b {
            end_a
        } else {
            end_b
        };
        Position { file: copy_file(&a.file), line: a.line, character: start, length: end - start }
    }

    /// Adds `p` to the runs in `acc` as [`absorb`] describes.
    pub fn absorb_into(acc: &mut Vec<Position>, p: &Position)
        ensures
            positions_view(final(acc)@) == absorb(positions_view(old(acc)@), p@),
    {
        let n = acc.len();
        if n > 0 && same_file(&acc[n - 1].file, &p.file) && acc[n - 1].line == p.line {
            let joined = Position::cover(&acc[n - 1], p);
            acc.set(n - 1, joined);
            assert(positions_view(acc@) =~= absorb(positions_view(old(acc)@), p@));
        } else {
            acc.push(p.copy());
            assert(positions_view(acc@) =~= absorb(positions_view(old(acc)@), p@));
        }
    }

    /// The runs covered by `positions`; with `merge` unset the positions
    /// are returned as they are.
    pub fn range(positions: Vec<Position>, merge: bool) -> (r: Vec<Position>)
        ensures
            merge ==> positions_view(r@) == spec_range(positions_view(positions@)),
            !merge ==> positions_view(r@) == positions_view(positions@),
    {
        if !merge {
            return positions;
        }
        let ghost ps = positions_view(positions@);
        let mut out: Vec<Position> = Vec::new();
        let mut i: usize = 0;
        while i < positions.len()
            invariant
                i <= positions.len(),
                ps == positions_view(positions@),
                positions_view(out@) == spec_range(ps.take(i as int)),
            decreases positions.len() - i,
        {
            Position::absorb_into(&mut out, &positions[i]);
            assert(ps.take(i + 1).drop_last() =~= ps.take(i as int));
            i = i + 1;
        }
        assert(ps.take(positions.len() as int) =~= ps);
        out
    }

    /// This position as data: a mapping of `line`, `character` and `length`,
    /// followed by `file` when the position has one.
    pub fn serialize(&self) -> (r: Data)
        ensures
            r@ == serialize_view(self@),
    {
        broadcast use lemma_mapping_view;
        let mut pairs: Vec<(Data, Data)> = Vec::new();
        pairs.push((Data::Identifier(text_of("line")), Data::Integer(self.line as i64)));
        pairs.push((Data::Identifier(text_of("character")), Data::Integer(self.character as i64)));
        pairs.push((Data::Identifier(text_of("length")), Data::Integer(self.length as i64)));
        match &self.file {
            Some(f) => {
                pairs.push((Data::Identifier(text_of("file")), Data::String(copy_text(f))));
            },
            None => {},
        }
        let r = Data::Mapping(pairs);
        assert(pairs_model(pairs@) =~= serialize_view(self@)->Mapping_0);
        r
    }
}

/// The serialized forms of `positions`, as a list.
pub fn serialize_positions(positions: &Vec<Position>) -> (r: Data)
    ensures
        r@ == serialize_all(positions_view(positions@)),
{
    let mut items: Vec<Data> = Vec::new();
    let mut i: usize = 0;
    while i < positions.len()
        invariant
            i <= positions.len(),
            items.len() == i,
            forall|j: int| 0 <= j < i ==> #[trigger] items@[j]@ == serialize_view(positions@[j]@),
        decreases positions.len() - i,
    {
        items.push(positions[i].serialize());
        i = i + 1;
    }
    let r = Data::List(items);
    proof {
        crate::data::lemma_list_view(items);
        assert(crate::data::list_model(items@) =~= positions_view(positions@).map_values(
            |p: PositionView| serialize_view(p),
        ));
    }
    r
}

/// A copy of a sequence of positions.
pub fn copy_positions(positions: &Vec<Position>) -> (r: Vec<Position>)
    ensures
        positions_view(r@) == positions_view(positions@),
{
    let mut out: Vec<Position> = Vec::new();
    let mut i: usize = 0;
    while i < positions.len()
        invariant
            i <= positions.len(),
            out.len() == i,
            positions_view(out@) == positions_view(positions@).take(i as int),
        decreases positions.len() - i,
    {
        out.push(positions[i].copy());
        i = i + 1;
        assert(positions_view(out@) =~= positions_view(positions@).take(i as int));
    }
    assert(positions_view(positions@).take(positions.len() as int) =~= positions_view(positions@));
    out
}


/// Appends copies of the positions of `src` to `dst`.
pub fn extend_positions(dst: &mut Vec<Position>, src: &Vec<Position>)
    ensures
        positions_view(final(dst)@) == positions_view(old(dst)@) + positions_view(src@),
{
    let mut i: usize = 0;
    while i < src.len()
        invariant
            i <= src.len(),
            dst.len() == old(dst).len() + i,
            positions_view(dst@) == positions_view(old(dst)@) + positions_view(src@).take(i as int),
        decreases src.len() - i,
    {
        let ghost before = dst@;
        let q = src[i].copy();
        dst.push(q);
        assert(dst@ == before.push(q));
        assert forall|j: int| 0 <= j < before.len() implies dst@[j]@ == before[j]@ by {}
        assert(positions_view(dst@) =~= positions_view(before).push(src@[i as int]@));
        assert(positions_view(src@).take(i + 1) =~= positions_view(src@).take(i as int).push(src@[i as int]@));
        i = i + 1;
        assert(positions_view(dst@) =~= positions_view(old(dst)@) + positions_view(src@).take(
            i as int,
        ));
    }
    assert(positions_view(src@).take(src.len() as int) =~= positions_view(src@));
}

} // verus!
