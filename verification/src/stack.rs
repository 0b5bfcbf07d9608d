//! The source text being tokenized, read front to back, together with the
//! characters and character sequences that end a word.
use vstd::prelude::*;
use crate::data::copy_text;
use crate::position::{
    Position, PositionView, absorb, copy_file, copy_positions, file_view, positions_view,
    spec_range,
};

verus! {

/// The line of the character at `k`, counted from 1.
pub open spec fn line_at(s: Seq<char>, k: int) -> nat
    decreases k,
{
    if k <= 0 {
        1
    } else if s[k - 1] == '\n' {
        line_at(s, k - 1) + 1
    } else {
        line_at(s, k - 1)
    }
}

/// The column of the character at `k`, counted from 1.
pub open spec fn column_at(s: Seq<char>, k: int) -> nat
    decreases k,
{
    if k <= 0 {
        1
    } else if s[k - 1] == '\n' {
        1
    } else {
        column_at(s, k - 1) + 1
    }
}

/// The position of the single character at `k`.
pub open spec fn char_position(s: Seq<char>, file: Option<Seq<char>>, k: int) -> PositionView {
    PositionView { file: file, line: line_at(s, k), character: column_at(s, k), length: 1 }
}

/// The runs of source covered by the characters from `a` up to `b`.
pub open spec fn span(s: Seq<char>, file: Option<Seq<char>>, a: int, b: int) -> Seq<PositionView> {
    spec_range(Seq::new((b - a) as nat, |i: int| char_position(s, file, a + i)))
}

pub proof fn lemma_line_column_bounds(s: Seq<char>, k: int)
    requires
        0 <= k,
    ensures
        line_at(s, k) <= k + 1,
        column_at(s, k) <= k + 1,
    decreases k,
{
    if k > 0 {
        lemma_line_column_bounds(s, k - 1);
    }
}

proof fn lemma_span_step(s: Seq<char>, file: Option<Seq<char>>, a: int, b: int)
    requires
        a <= b,
    ensures
        span(s, file, a, b + 1) == absorb(span(s, file, a, b), char_position(s, file, b)),
{
    let long = Seq::new((b + 1 - a) as nat, |i: int| char_position(s, file, a + i));
    let short = Seq::new((b - a) as nat, |i: int| char_position(s, file, a + i));
    assert(long.drop_last() =~= short);
}

/// Whether `t` occurs in `s` at `k`.
pub open spec fn occurs_at(s: Seq<char>, k: int, t: Seq<char>) -> bool {
    0 <= k && k + t.len() <= s.len() && s.subrange(k, k + t.len()) == t
}

/// Whether a word ends before the character at `k`: a breaking character
/// or the start of a signature stands there.
pub open spec fn breaks_at(
    s: Seq<char>,
    breaking: Seq<char>,
    signatures: Seq<Seq<char>>,
    k: int,
) -> bool {
    breaking.contains(s[k]) || exists|j: int|
        0 <= j < signatures.len() && signatures[j].len() > 0 && occurs_at(
            s,
            k,
            #[trigger] signatures[j],
        )
}

/// Where the word that goes on at `k` ends: at the first break at or after
/// `k`, or at the end of the source.
pub open spec fn word_end(
    s: Seq<char>,
    breaking: Seq<char>,
    signatures: Seq<Seq<char>>,
    k: int,
) -> int
    decreases s.len() - k,
{
    if k >= s.len() || k < 0 {
        k
    } else if breaks_at(s, breaking, signatures, k) {
        k
    } else {
        word_end(s, breaking, signatures, k + 1)
    }
}

pub struct StackView {
    pub characters: Seq<char>,
    pub file: Option<Seq<char>>,
    /// How many characters have been read.
    pub index: nat,
    /// Where the token being read started.
    pub start: nat,
    pub breaking: Seq<char>,
    pub signatures: Seq<Seq<char>>,
}

impl StackView {
    /// The characters not yet read.
    pub open spec fn rest(self) -> Seq<char> {
        self.characters.subrange(self.index as int, self.characters.len() as int)
    }

    pub open spec fn is_empty(self) -> bool {
        self.index >= self.characters.len()
    }

    /// The runs covered since the current token started.
    pub open spec fn positions(self) -> Seq<PositionView> {
        span(self.characters, self.file, self.start as int, self.index as int)
    }

    /// This stack with `n` more characters read.
    pub open spec fn advanced(self, n: nat) -> StackView {
        StackView { index: self.index + n, ..self }
    }
}

pub struct CharacterStack {
    characters: Vec<char>,
    file: Option<Vec<char>>,
    index: usize,
    start: usize,
    line: usize,
    column: usize,
    positions: Vec<Position>,
    breaking: Vec<char>,
    signatures: Vec<Vec<char>>,
}

impl View for CharacterStack {
    type V = StackView;

    closed spec fn view(&self) -> StackView {
        StackView {
            characters: self.characters@,
            file: file_view(self.file),
            index: self.index as nat,
            start: self.start as nat,
            breaking: self.breaking@,
            signatures: self.signatures@.map_values(|t: Vec<char>| t@),
        }
    }
}

impl CharacterStack {
    /// The stack's bookkeeping agrees with what it has read.
    pub closed spec fn wf(&self) -> bool {
        &&& self.characters.len() < usize::MAX
        &&& self.start <= self.index <= self.characters.len()
        &&& self.line == line_at(self.characters@, self.index as int)
        &&& self.column == column_at(self.characters@, self.index as int)
        &&& positions_view(self.positions@) == span(
            self.characters@,
            file_view(self.file),
            self.start as int,
            self.index as int,
        )
    }

    /// A well-formed stack holds less than `usize::MAX` characters and has
    /// read no further than its end.
    pub proof fn lemma_bounds(&self)
        requires
            self.wf(),
        ensures
            self@.characters.len() < usize::MAX,
            self@.start <= self@.index <= self@.characters.len(),
    {
    }

    /// A stack over `source`, with nothing read yet.
    pub fn new(source: Vec<char>, file: Option<Vec<char>>) -> (r: CharacterStack)
        requires
            source.len() < usize::MAX,
        ensures
            r.wf(),
            r@ == (StackView {
                characters: source@,
                file: file_view(file),
                index: 0,
                start: 0,
                breaking: Seq::empty(),
                signatures: Seq::empty(),
            }),
    {
        let r = CharacterStack {
            characters: source,
            file: file,
            index: 0,
            start: 0,
            line: 1,
            column: 1,
            positions: Vec::new(),
            breaking: Vec::new(),
            signatures: Vec::new(),
        };
        assert(positions_view(r.positions@) =~= span(r.characters@, file_view(r.file), 0, 0));
        assert(r@.signatures =~= Seq::<Seq<char>>::empty());
        r
    }

    /// Whether every character has been read; also tells that a stack
    /// holds less than `usize::MAX` characters and has read no further
    /// than its end.
    pub fn is_empty(&self) -> (r: bool)
        requires
            self.wf(),
        ensures
            r == self@.is_empty(),
            self@.characters.len() < usize::MAX,
            self@.start <= self@.index <= self@.characters.len(),
    {
        self.index >= self.characters.len()
    }

    /// Reads one character.
    fn advance(&mut self)
        requires
            old(self).wf(),
            !old(self)@.is_empty(),
        ensures
            final(self).wf(),
            final(self)@ == old(self)@.advanced(1),
    {
        let ghost s = self.characters@;
        let ghost f = file_view(self.file);
        let k = self.index;
        proof {
            lemma_line_column_bounds(s, k as int);
            lemma_span_step(s, f, self.start as int, k as int);
        }
        let here = Position { file: copy_file(&self.file), line: self.line, character: self.column, length: 1 };
        assert(here@ == char_position(s, f, k as int));
        let mut positions = copy_positions(&self.positions);
        Position::absorb_into(&mut positions, &here);
        let c = self.characters[k];
        let (line, column) = if c == '\n' {
            (self.line + 1, 1)
        } else {
            (self.line, self.column + 1)
        };
        self.line = line;
        self.column = column;
        self.positions = positions;
        self.index = k + 1;
    }

    /// Reads the next character.
    pub fn pop(&mut self) -> (r: Option<char>)
        requires
            old(self).wf(),
        ensures
            final(self).wf(),
            old(self)@.is_empty() ==> r is None && final(self)@ == old(self)@,
            !old(self)@.is_empty() ==> r == Some(old(self)@.characters[old(self)@.index as int])
                && final(self)@ == old(self)@.advanced(1),
    {
        if self.index >= self.characters.len() {
            return None;
        }
        let c = self.characters[self.index];
        self.advance();
        Some(c)
    }

    /// Whether `text` comes next; when it does, it is read.
    pub fn check_string(&mut self, text: &Vec<char>) -> (r: bool)
        requires
            old(self).wf(),
        ensures
            final(self).wf(),
            r == occurs_at(old(self)@.characters, old(self)@.index as int, text@),
            r ==> final(self)@ == old(self)@.advanced(text@.len()),
            !r ==> final(self)@ == old(self)@,
    {
        let n = self.characters.len();
        let k = self.index;
        if text.len() > n - k {
            return false;
        }
        let mut i: usize = 0;
        while i < text.len()
            invariant
                self.wf(),
                n == self.characters@.len(),
                k == self.index,
                k + text.len() <= n,
                i <= text.len(),
                forall|j: int| 0 <= j < i ==> self.characters@[k + j] == text@[j],
            decreases text.len() - i,
        {
            if self.characters[k + i] != text[i] {
                assert(self.characters@.subrange(k as int, k + text.len())[i as int] != text@[i as int]);
                return false;
            }
            i = i + 1;
        }
        assert(self.characters@.subrange(k as int, k + text.len()) =~= text@);
        let ghost before = self@;
        let mut m: usize = 0;
        while m < text.len()
            invariant
                self.wf(),
                m <= text.len(),
                k + text.len() <= before.characters.len(),
                before.index == k,
                self@ == before.advanced(m as nat),
            decreases text.len() - m,
        {
            self.advance();
            m = m + 1;
        }
        true
    }

    /// Marks the start of a new token.
    pub fn start_positions(&mut self)
        requires
            old(self).wf(),
        ensures
            final(self).wf(),
            final(self)@ == (StackView { start: old(self)@.index, ..old(self)@ }),
    {
        self.start = self.index;
        self.positions = Vec::new();
        assert(positions_view(self.positions@) =~= span(
            self.characters@,
            file_view(self.file),
            self.start as int,
            self.index as int,
        ));
    }

    /// The runs of source read since the current token started.
    pub fn final_positions(&self) -> (r: Vec<Position>)
        requires
            self.wf(),
        ensures
            positions_view(r@) == self@.positions(),
    {
        copy_positions(&self.positions)
    }

    /// Reads one character and then the rest of the word it starts, up to
    /// the next break (see [`word_end`]); gives the characters read.
    pub fn till_breaking(&mut self) -> (r: Vec<char>)
        requires
            old(self).wf(),
        ensures
            final(self).wf(),
            old(self)@.is_empty() ==> final(self)@ == old(self)@ && r@.len() == 0,
            !old(self)@.is_empty() ==> {
                let end = word_end(
                    old(self)@.characters,
                    old(self)@.breaking,
                    old(self)@.signatures,
                    old(self)@.index + 1 as int,
                );
                &&& final(self)@ == old(self)@.advanced((end - old(self)@.index) as nat)
                &&& r@ == old(self)@.characters.subrange(old(self)@.index as int, end)
            },
    {
        let mut word: Vec<char> = Vec::new();
        if self.index >= self.characters.len() {
            return word;
        }
        let ghost before = self@;
        word.push(self.characters[self.index]);
        self.advance();
        loop
            invariant_except_break
                self.wf(),
                before.index < self@.index <= before.characters.len(),
                self@ == before.advanced((self@.index - before.index) as nat),
                word@ == before.characters.subrange(before.index as int, self@.index as int),
                word_end(before.characters, before.breaking, before.signatures, before.index + 1 as int)
                    == word_end(before.characters, before.breaking, before.signatures, self@.index as int),
            ensures
                self.wf(),
                self@ == before.advanced((self@.index - before.index) as nat),
                word@ == before.characters.subrange(before.index as int, self@.index as int),
                self@.index == word_end(before.characters, before.breaking, before.signatures, before.index + 1 as int),
            decreases before.characters.len() - self@.index,
        {
            if self.index >= self.characters.len() {
                break;
            }
            if self.breaks_here() {
                break;
            }
            word.push(self.characters[self.index]);
            self.advance();
            assert(word@ =~= before.characters.subrange(before.index as int, self@.index as int));
        }
        word
    }

    /// Whether a break stands at the next character.
    fn breaks_here(&self) -> (r: bool)
        requires
            self.wf(),
            !self@.is_empty(),
        ensures
            r == breaks_at(self@.characters, self@.breaking, self@.signatures, self@.index as int),
    {
        let c = self.characters[self.index];
        let mut i: usize = 0;
        while i < self.breaking.len()
            invariant
                i <= self.breaking.len(),
                self.index < self.characters.len(),
                c == self@.characters[self@.index as int],
                self@.breaking == self.breaking@,
                forall|j: int| 0 <= j < i ==> self.breaking@[j] != c,
            decreases self.breaking.len() - i,
        {
            if self.breaking[i] == c {
                assert(self@.breaking.contains(c));
                return true;
            }
            i = i + 1;
        }
        let ghost sigs = self@.signatures;
        let mut j: usize = 0;
        while j < self.signatures.len()
            invariant
                j <= self.signatures.len(),
                sigs == self@.signatures,
                sigs.len() == self.signatures.len(),
                self.index < self.characters.len(),
                c == self@.characters[self@.index as int],
                !self@.breaking.contains(c),
                forall|m: int|
                    0 <= m < j ==> !(#[trigger] sigs[m].len() > 0 && occurs_at(
                        self@.characters,
                        self@.index as int,
                        sigs[m],
                    )),
            decreases self.signatures.len() - j,
        {
            let t = &self.signatures[j];
            assert(sigs[j as int] == t@);
            if t.len() > 0 && t.len() <= self.characters.len() - self.index {
                let mut k: usize = 0;
                let mut matched = true;
                while k < t.len()
                    invariant
                        k <= t.len(),
                        self.index + t.len() <= self.characters.len(),
                        matched == forall|m: int| 0 <= m < k ==> self.characters@[self.index + m] == t@[m],
                    decreases t.len() - k,
                {
                    if self.characters[self.index + k] != t[k] {
                        matched = false;
                    }
                    k = k + 1;
                }
                if matched {
                    assert(self.characters@.subrange(self.index as int, self.index + t.len()) =~= t@);
                    return true;
                }
                proof {
                    if occurs_at(self@.characters, self@.index as int, t@) {
                        assert forall|m: int| 0 <= m < t.len() implies self.characters@[self.index + m] == t@[m] by {
                            assert(self.characters@.subrange(self.index as int, self.index + t.len())[m] == t@[m]);
                        }
                    }
                }
            }
            j = j + 1;
        }
        false
    }

    /// Makes `c` end words.
    pub fn register_breaking(&mut self, c: char)
        requires
            old(self).wf(),
        ensures
            final(self).wf(),
            final(self)@ == (StackView { breaking: old(self)@.breaking.push(c), ..old(self)@ }),
    {
        let mut breaking = self.breaking.clone();
        assert(breaking@ =~= self.breaking@);
        breaking.push(c);
        self.breaking = breaking;
    }

    /// Makes the start of `signature` end words.
    pub fn register_signature(&mut self, signature: Vec<char>)
        requires
            old(self).wf(),
        ensures
            final(self).wf(),
            final(self)@ == (StackView {
                signatures: old(self)@.signatures.push(signature@),
                ..old(self)@
            }),
    {
        let ghost old_sigs = self.signatures@.map_values(|t: Vec<char>| t@);
        let mut signatures: Vec<Vec<char>> = Vec::new();
        let mut i: usize = 0;
        while i < self.signatures.len()
            invariant
                i <= self.signatures.len(),
                old_sigs == self.signatures@.map_values(|t: Vec<char>| t@),
                signatures.len() == i,
                signatures@.map_values(|t: Vec<char>| t@) == old_sigs.take(i as int),
            decreases self.signatures.len() - i,
        {
            let t = copy_text(&self.signatures[i]);
            let ghost before = signatures@;
            signatures.push(t);
            assert(signatures@ == before.push(t));
            assert(old_sigs[i as int] == t@);
            i = i + 1;
            assert(signatures@.map_values(|t: Vec<char>| t@) =~= old_sigs.take(i as int));
        }
        let ghost before = signatures@;
        signatures.push(signature);
        assert(signatures@ == before.push(signature));
        assert(old_sigs.take(old_sigs.len() as int) =~= old_sigs);
        assert(signatures@.map_values(|t: Vec<char>| t@) =~= old_sigs.push(signature@));
        self.signatures = signatures;
    }
}

} // verus!
