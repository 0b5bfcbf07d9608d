//! Splitting source text into tokens.
use vstd::prelude::*;
use crate::character::{
    CharacterTokenizer, CharacterTokenizerView, character_token, scan_body, first_replacement,
    spec_delimiters, spec_replacements,
};
use crate::data::{Data, DataView, entries_of, is_mapping, lookup, not_mapping};
use crate::error::{Error, ErrorView, text_of};
use crate::position::file_view;
use crate::registry::VariantRegistry;
use crate::stack::{CharacterStack, StackView, occurs_at, word_end};
use crate::token::{Token, TokenType, TokenTypeView, TokenView, tokens_view};

verus! {

/// The key under which the compiler settings hold the settings of the
/// character tokenizer.
pub open spec fn character_settings_key() -> DataView {
    DataView::Keyword("character_tokenizer"@)
}

/// The token for input that no tokenizer accepts.
pub open spec fn unregistered() -> TokenTypeView {
    TokenTypeView::Invalid(ErrorView::UnregisteredCharacter(DataView::Character('!')))
}

pub proof fn lemma_scan_body_advances(
    s: Seq<char>,
    k: int,
    end: Seq<char>,
    replace: Seq<(Seq<char>, Seq<char>)>,
    acc: Seq<char>,
)
    requires
        0 <= k,
    ensures
        scan_body(s, k, end, replace, acc).0 >= k,
    decreases s.len() - k,
{
    if occurs_at(s, k, end) {
    } else if k >= s.len() {
    } else {
        let j = first_replacement(s, k, replace, 0);
        if 0 <= j < replace.len() && replace[j].0.len() > 0 && occurs_at(s, k, replace[j].0) {
            lemma_scan_body_advances(s, k + replace[j].0.len(), end, replace, acc + replace[j].1);
        } else {
            lemma_scan_body_advances(s, k + 1, end, replace, acc.push(s[k]));
        }
    }
}

pub proof fn lemma_word_end_advances(
    s: Seq<char>,
    breaking: Seq<char>,
    signatures: Seq<Seq<char>>,
    k: int,
)
    requires
        0 <= k,
    ensures
        word_end(s, breaking, signatures, k) >= k,
    decreases s.len() - k,
{
    if k < s.len() && !crate::stack::breaks_at(s, breaking, signatures, k) {
        lemma_word_end_advances(s, breaking, signatures, k + 1);
    }
}

/// The stack after one token has been read from `st`, and that token: a
/// character literal when the character tokenizer accepts the input there,
/// an invalid token over the word there otherwise.
pub open spec fn next_token(st: StackView, tokenizer: Option<CharacterTokenizerView>) -> (
    StackView,
    TokenView,
) {
    let started = StackView { start: st.index, ..st };
    match tokenizer {
        Some(t) => if occurs_at(st.characters, st.index as int, t.start) {
            let (stop, body) = scan_body(
                st.characters,
                (st.index + t.start.len()) as int,
                t.end,
                t.replace,
                Seq::empty(),
            );
            let after = started.advanced((stop - st.index) as nat);
            (after, TokenView { token_type: character_token(body), position: after.positions() })
        } else {
            unregistered_word(started)
        },
        None => unregistered_word(started),
    }
}

pub open spec fn unregistered_word(st: StackView) -> (StackView, TokenView) {
    let end = word_end(st.characters, st.breaking, st.signatures, st.index + 1 as int);
    let after = st.advanced((end - st.index) as nat);
    (after, TokenView { token_type: unregistered(), position: after.positions() })
}

/// The tokens read from `st` to the end of the source.
pub open spec fn tokens_from(st: StackView, tokenizer: Option<CharacterTokenizerView>) -> Seq<
    TokenView,
>
    decreases st.characters.len() - st.index,
{
    if st.is_empty() {
        Seq::empty()
    } else {
        let (after, token) = next_token(st, tokenizer);
        if after.index <= st.index || after.index > st.characters.len() {
            seq![token]
        } else {
            seq![token] + tokens_from(after, tokenizer)
        }
    }
}

/// Every token reads at least one character: there are never more tokens
/// than characters left to read.
pub proof fn law_token_count_bounded(st: StackView, tokenizer: Option<CharacterTokenizerView>)
    requires
        st.index <= st.characters.len(),
    ensures
        tokens_from(st, tokenizer).len() <= st.characters.len() - st.index,
    decreases st.characters.len() - st.index,
{
    if !st.is_empty() {
        let (after, token) = next_token(st, tokenizer);
        if !(after.index <= st.index || after.index > st.characters.len()) {
            law_token_count_bounded(after, tokenizer);
        }
    }
}

/// What becomes of one point of the source once the tokenizers have been
/// tried there.
#[derive(Debug)]
pub enum Resolution {
    /// A tokenizer failed: tokenizing stops with its error.
    Failed(Error),
    /// A tokenizer accepted the input and pushed its tokens.
    Accepted,
    /// No tokenizer accepted the input: an invalid token with this error
    /// covers the word there.
    Invalid(Error),
}

pub enum ResolutionView {
    Failed(ErrorView),
    Accepted,
    Invalid(ErrorView),
}

impl View for Resolution {
    type V = ResolutionView;

    open spec fn view(&self) -> ResolutionView {
        match self {
            Resolution::Failed(e) => ResolutionView::Failed(e@),
            Resolution::Accepted => ResolutionView::Accepted,
            Resolution::Invalid(e) => ResolutionView::Invalid(e@),
        }
    }
}

pub open spec fn outcomes_view(v: Seq<Result<bool, Error>>) -> Seq<Result<bool, ErrorView>> {
    v.map_values(|o: Result<bool, Error>| match o {
        Ok(b) => Ok(b),
        Err(e) => Err(e@),
    })
}

/// The resolution of the outcomes, from the `i`-th on, of the tokenizers
/// tried in order at one point: the first that fails or accepts decides;
/// when none does, the error that a tokenizer recorded, or else
/// `UnregisteredCharacter('!')`, marks the input invalid.
pub open spec fn spec_resolve(
    outcomes: Seq<Result<bool, ErrorView>>,
    recorded: Option<ErrorView>,
    i: int,
) -> ResolutionView
    decreases outcomes.len() - i,
{
    if i < 0 || i >= outcomes.len() {
        match recorded {
            Some(e) => ResolutionView::Invalid(e),
            None => ResolutionView::Invalid(unregistered_error()),
        }
    } else {
        match outcomes[i] {
            Err(e) => ResolutionView::Failed(e),
            Ok(true) => ResolutionView::Accepted,
            Ok(false) => spec_resolve(outcomes, recorded, i + 1),
        }
    }
}

pub open spec fn error_option_view(o: Option<Error>) -> Option<ErrorView> {
    match o {
        Some(e) => Some(e@),
        None => None,
    }
}

pub open spec fn unregistered_error() -> ErrorView {
    ErrorView::UnregisteredCharacter(DataView::Character('!'))
}

/// Decides one point of the source from the outcomes, in order, of the
/// tokenizers tried there (trying stops at the first that fails or
/// accepts) and from the error that a tokenizer recorded, if any.
#[verifier::loop_isolation(false)]
pub fn resolve(outcomes: Vec<Result<bool, Error>>, recorded: Option<Error>) -> (r: Resolution)
    ensures
        r@ == spec_resolve(outcomes_view(outcomes@), error_option_view(recorded), 0),
{
    let ghost ov = outcomes_view(outcomes@);
    let ghost rv = error_option_view(recorded);
    let mut outcomes = outcomes;
    let mut i: usize = 0;
    while i < outcomes.len()
        invariant
            i <= outcomes.len(),
            ov == outcomes_view(outcomes@),
            spec_resolve(ov, rv, 0) == spec_resolve(ov, rv, i as int),
        decreases outcomes.len() - i,
    {
        assert(ov[i as int] == match outcomes@[i as int] {
            Ok(b) => Ok::<bool, ErrorView>(b),
            Err(e) => Err(e@),
        });
        match &outcomes[i] {
            Ok(true) => {
                return Resolution::Accepted;
            },
            Ok(false) => {},
            Err(_) => {
                let ghost before = outcomes@;
                let o = outcomes.remove(i);
                assert(o == before[i as int]);
                match o {
                    Err(e) => {
                        return Resolution::Failed(e);
                    },
                    Ok(_) => {
                        return Resolution::Accepted;
                    },
                }
            },
        }
        i = i + 1;
    }
    match recorded {
        Some(e) => Resolution::Invalid(e),
        None => Resolution::Invalid(Error::UnregisteredCharacter(Data::Character('!'))),
    }
}

/// Whether the compiler settings hold settings under the keyword `name`.
pub open spec fn configured(compiler: DataView, name: Seq<char>) -> bool {
    lookup(entries_of(compiler), DataView::Keyword(name)) is Some
}

pub open spec fn unavailable(name: Seq<char>) -> ErrorView {
    ErrorView::UnavailableTokenizer(DataView::Keyword(name))
}

/// The first of `names` that the compiler settings configure.
pub open spec fn first_configured(compiler: DataView, names: Seq<Seq<char>>, i: int) -> Option<
    Seq<char>,
>
    decreases names.len() - i,
{
    if i < 0 || i >= names.len() {
        None
    } else if configured(compiler, names[i]) {
        Some(names[i])
    } else {
        first_configured(compiler, names, i + 1)
    }
}

/// The tokenizers set up before the character tokenizer.
pub open spec fn tokenizers_before() -> Seq<Seq<char>> {
    seq!["comment_tokenizer"@, "number_tokenizer"@, "string_tokenizer"@]
}

/// The tokenizers set up after the character tokenizer.
pub open spec fn tokenizers_after() -> Seq<Seq<char>> {
    seq!["operator_tokenizer"@, "keyword_tokenizer"@, "identifier_tokenizer"@]
}

/// What `tokenize` gives once the character tokenizer is set up (or not
/// configured) and the tokens it would read are `tokens`.
pub open spec fn after_character(
    compiler: DataView,
    r: Result<(Vec<Token>, VariantRegistry), Error>,
    tokens: Seq<TokenView>,
    has_characters: bool,
) -> bool {
    match first_configured(compiler, tokenizers_after(), 0) {
        Some(name) => r matches Err(e) && e@ == unavailable(name),
        None => r matches Ok((t, registry)) && registry.has_characters == has_characters
            && tokens_view(t@) == tokens,
    }
}

/// Fails with `UnavailableTokenizer` when the compiler settings configure
/// the tokenizer of this name.
fn refuse_configured(compiler: &Data, name: &str) -> (r: Result<(), Error>)
    requires
        is_mapping(compiler@),
    ensures
        configured(compiler@, name@) ==> (r matches Err(e) && e@ == unavailable(name@)),
        !configured(compiler@, name@) ==> r is Ok,
{
    let key = Data::Keyword(text_of(name));
    match compiler.index(&key) {
        Ok(Some(_)) => Err(Error::UnavailableTokenizer(key)),
        Ok(None) => Ok(()),
        Err(e) => Err(e),
    }
}

/// Splits `source_string` into tokens.
///
/// The tokenizers are set up from the compiler settings, under the keys
/// `comment_tokenizer`, `number_tokenizer`, `string_tokenizer`,
/// `character_tokenizer`, `operator_tokenizer`, `keyword_tokenizer` and
/// `identifier_tokenizer`, in that order; the first that fails to be set up
/// ends tokenizing with its error. This library provides the character
/// tokenizer (see [`CharacterTokenizer::new`]) only: settings for any of
/// the other six are answered with `UnavailableTokenizer`, in their place
/// in that order, and never silently passed over. So no tokenizer that
/// reads `current_pass`, `build`, `context` or `complete` is ever set up,
/// and these are not read.
///
/// At each point the tokenizers are tried in order and the first that
/// accepts the input there reads it; input that none accepts becomes an
/// invalid token up to the next break (see [`resolve`]).
pub fn tokenize(
    compiler: &Data,
    source_string: Vec<char>,
    source_file: Option<Vec<char>>,
    current_pass: &Option<Vec<char>>,
    build: &Data,
    context: &Data,
    complete: bool,
) -> (r: Result<(Vec<Token>, VariantRegistry), Error>)
    requires
        is_mapping(compiler@),
        source_string.len() < usize::MAX,
    ensures
        ({
            let fresh = StackView {
                characters: source_string@,
                file: file_view(source_file),
                index: 0,
                start: 0,
                breaking: Seq::empty(),
                signatures: Seq::empty(),
            };
            match first_configured(compiler@, tokenizers_before(), 0) {
                Some(name) => r matches Err(e) && e@ == unavailable(name),
                None => match lookup(entries_of(compiler@), character_settings_key()) {
                    None => after_character(compiler@, r, tokens_from(fresh, None), false),
                    Some(settings) => if !is_mapping(settings) {
                        r matches Err(e) && e@ == not_mapping(settings)
                    } else {
                        match spec_delimiters(settings) {
                            Err(x) => r matches Err(e) && e@ == x,
                            Ok((start, end)) => match spec_replacements(settings) {
                                Err(x) => r matches Err(e) && e@ == x,
                                Ok(list) => after_character(
                                    compiler@,
                                    r,
                                    tokens_from(
                                        StackView {
                                            breaking: seq![start[0]],
                                            signatures: seq![start],
                                            ..fresh
                                        },
                                        Some(CharacterTokenizerView { start, end, replace: list }),
                                    ),
                                    true,
                                ),
                            },
                        }
                    },
                },
            }
        }),
{
    let mut character_stack = CharacterStack::new(source_string, source_file);
    let mut variant_registry = VariantRegistry::new();
    let mut token_stream: Vec<Token> = Vec::new();
    let ghost fresh = character_stack@;

    proof {
        reveal_with_fuel(first_configured, 4);
    }
    if let Err(e) = refuse_configured(compiler, "comment_tokenizer") {
        return Err(e);
    }
    if let Err(e) = refuse_configured(compiler, "number_tokenizer") {
        return Err(e);
    }
    if let Err(e) = refuse_configured(compiler, "string_tokenizer") {
        return Err(e);
    }
    let key = Data::Keyword(text_of("character_tokenizer"));
    let character_tokenizer = match compiler.index(&key) {
        Ok(Some(settings)) => match CharacterTokenizer::new(
            &settings,
            &mut character_stack,
            &mut variant_registry,
        ) {
            Ok(t) => Some(t),
            Err(e) => {
                return Err(e);
            },
        },
        Ok(None) => None,
        Err(e) => {
            return Err(e);
        },
    };
    if let Err(e) = refuse_configured(compiler, "operator_tokenizer") {
        return Err(e);
    }
    if let Err(e) = refuse_configured(compiler, "keyword_tokenizer") {
        return Err(e);
    }
    if let Err(e) = refuse_configured(compiler, "identifier_tokenizer") {
        return Err(e);
    }
    let ghost view = tokenizer_view(character_tokenizer);
    let ghost start_state = character_stack@;
    proof {
        assert(tokens_view(token_stream@) =~= Seq::<TokenView>::empty());
    }
    while !character_stack.is_empty()
        invariant
            character_stack.wf(),
            character_tokenizer matches Some(t) ==> t.valid(),
            view == tokenizer_view(character_tokenizer),
            character_stack@.characters == start_state.characters,
            character_stack@.file == start_state.file,
            character_stack@.breaking == start_state.breaking,
            character_stack@.signatures == start_state.signatures,
            tokens_view(token_stream@) + tokens_from(character_stack@, view) == tokens_from(
                start_state,
                view,
            ),
        decreases character_stack@.characters.len() - character_stack@.index,
    {
        let ghost st = character_stack@;
        character_stack.start_positions();
        let mut outcomes: Vec<Result<bool, Error>> = Vec::new();
        match &character_tokenizer {
            Some(tokenizer) => {
                outcomes.push(tokenizer.find(&mut character_stack, &mut token_stream));
            },
            None => {},
        }
        let ghost found = outcomes@.len() == 1 && outcomes@[0] matches Ok(true);
        proof {
            reveal_with_fuel(spec_resolve, 2);
        }
        match resolve(outcomes, None) {
            Resolution::Failed(e) => {
                return Err(e);
            },
            Resolution::Accepted => {},
            Resolution::Invalid(error) => {
                character_stack.till_breaking();
                let positions = character_stack.final_positions();
                token_stream.push(Token::new(TokenType::Invalid(error), positions));
            },
        }
        proof {
            let (after, token) = next_token(st, view);
            match view {
                Some(t) => if occurs_at(st.characters, st.index as int, t.start) {
                    lemma_scan_body_advances(
                        st.characters,
                        (st.index + t.start.len()) as int,
                        t.end,
                        t.replace,
                        Seq::empty(),
                    );
                } else {
                    lemma_word_end_advances(st.characters, st.breaking, st.signatures, st.index + 1 as int);
                },
                None => {
                    lemma_word_end_advances(st.characters, st.breaking, st.signatures, st.index + 1 as int);
                },
            }
            assert(character_stack@ == after);
            assert(after.index > st.index);
            assert(tokens_view(token_stream@) =~= tokens_view(old_tokens(token_stream@)).push(token));
        }
        proof {
            character_stack.lemma_bounds();
        }
    }
    Ok((token_stream, variant_registry))
}

pub open spec fn tokenizer_view(t: Option<CharacterTokenizer>) -> Option<CharacterTokenizerView> {
    match t {
        Some(t) => Some(t@),
        None => None,
    }
}

/// All tokens but the last.
pub open spec fn old_tokens(v: Seq<Token>) -> Seq<Token> {
    v.drop_last()
}

} // verus!
