//! Parse results and the envelopes in which they are answered. An envelope
//! holds the input together with either a result or an error, never both,
//! and never neither.

use vstd::prelude::*;
use vstd::utf8::*;
use crate::derivation::{build_forest, derivation, forest_view, nested_within, Span, TokenView};
use crate::derivation::lemma_derivation_nested;
use crate::label::canonical_rule;
use crate::engine::{admitted, compiled_from, outcome_view, Grammar, Outcome, OutcomeView};
use pest_meta::optimizer::OptimizedRule;
use crate::grammar::{QUELLE_GRAMMAR, START_RULE};
use crate::tree::{canonical_forest, canonical_node, contained, nodes_view, placed, recurse};
use crate::tree::{lemma_canonical_contained, NodeView, Parsed};

verus! {

/// The errors that this library words itself. A rejection by the grammar
/// engine carries the engine's own message instead.
#[derive(Clone, Copy, Debug, PartialEq, Eq)]
pub enum ErrorKind {
    /// The input was empty or could not be read as text.
    InvalidInput,
    /// The engine rejected the input and gave no message.
    Unknown,
    /// The grammar or the derivation was not as it has to be.
    Internal,
    /// The input was accepted and nothing was matched.
    EmptyResult,
}

impl ErrorKind {
    /// The wording of the error.
    pub open spec fn text(self) -> Seq<char> {
        match self {
            ErrorKind::InvalidInput => "Invalid Input Error"@,
            ErrorKind::Unknown => "Unknown Error"@,
            ErrorKind::Internal => "Internal Error"@,
            ErrorKind::EmptyResult => "Syntax error encountered."@,
        }
    }

    /// No error is worded with the empty text.
    pub proof fn lemma_text_not_empty(self)
        ensures
            self.text().len() > 0,
    {
        reveal_strlit("Invalid Input Error");
        reveal_strlit("Unknown Error");
        reveal_strlit("Internal Error");
        reveal_strlit("Syntax error encountered.");
    }

    /// Returns the wording of the error.
    pub fn message(&self) -> (message: String)
        ensures
            message@ == self.text(),
            message@.len() > 0,
    {
        proof {
            self.lemma_text_not_empty();
        }
        match self {
            ErrorKind::InvalidInput => "Invalid Input Error".to_owned(),
            ErrorKind::Unknown => "Unknown Error".to_owned(),
            ErrorKind::Internal => "Internal Error".to_owned(),
            ErrorKind::EmptyResult => "Syntax error encountered.".to_owned(),
        }
    }
}

/// What parsing a statement gave: the canonical nodes of the top-level
/// matches, or the description of a failure. The statement was parsed
/// exactly when `error` is empty.
#[derive(Debug, PartialEq, Eq)]
pub struct ParseResult {
    pub parse: Vec<Parsed>,
    pub error: String,
}

/// The mathematical value of a [`ParseResult`].
pub struct ParseResultView {
    pub parse: Seq<NodeView>,
    pub error: Seq<char>,
}

impl View for ParseResult {
    type V = ParseResultView;

    open spec fn view(&self) -> ParseResultView {
        ParseResultView { parse: nodes_view(self.parse@), error: self.error@ }
    }
}

/// The message of a rejection: the engine's own, or the wording of
/// [`ErrorKind::Unknown`] where the engine gave none.
pub open spec fn rejection_text(message: Seq<char>) -> Seq<char> {
    if message.len() == 0 {
        ErrorKind::Unknown.text()
    } else {
        message
    }
}

/// The parse result that answers what the engine returned for `input`.
/// `None` stands for an engine that could not be set up.
pub open spec fn parse_result_of(outcome: Option<OutcomeView>, input: Seq<char>) -> ParseResultView {
    match outcome {
        Some(OutcomeView::Matched { tokens, rendering }) => match derivation(
            tokens,
            encode_utf8(input),
        ) {
            Some(forest) => ParseResultView {
                parse: canonical_forest(forest, encode_utf8(input)),
                error: Seq::empty(),
            },
            None => ParseResultView { parse: Seq::empty(), error: ErrorKind::Internal.text() },
        },
        Some(OutcomeView::Rejected { message }) => ParseResultView {
            parse: Seq::empty(),
            error: rejection_text(message),
        },
        None => ParseResultView { parse: Seq::empty(), error: ErrorKind::Internal.text() },
    }
}

/// The whole input as a node that holds the top-level nodes of a result.
pub open spec fn input_node(input: Seq<char>, parse: Seq<NodeView>) -> NodeView {
    NodeView { rule: Seq::empty(), text: input, children: parse }
}

/// A parse result never holds both nodes and an error, and the text of every
/// node is a part of the text of the node that holds it, the top-level nodes
/// being parts of the input: the parts lie in the order of the nodes and do
/// not overlap.
pub open spec fn parse_result_sound(result: ParseResultView, input: Seq<char>) -> bool {
    &&& result.error.len() > 0 ==> result.parse.len() == 0
    &&& contained(input_node(input, result.parse))
}

/// Whatever the engine returned, the parse result that answers it is sound,
/// and it reports a failure unless the engine matched the input.
pub proof fn lemma_parse_result_sound(outcome: Option<OutcomeView>, input: Seq<char>)
    ensures
        parse_result_sound(parse_result_of(outcome, input), input),
        !(outcome matches Some(OutcomeView::Matched { .. })) ==> parse_result_of(
            outcome,
            input,
        ).error.len() > 0,
{
    let bytes = encode_utf8(input);
    let result = parse_result_of(outcome, input);
    encode_utf8_valid_utf8(input);
    encode_utf8_decode_utf8(input);
    is_char_boundary_start_end_of_seq(bytes);
    ErrorKind::Unknown.lemma_text_not_empty();
    ErrorKind::Internal.lemma_text_not_empty();
    assert(bytes.subrange(0, bytes.len() as int) =~= bytes);
    let forest = match outcome {
        Some(OutcomeView::Matched { tokens, rendering }) => match derivation(tokens, bytes) {
            Some(forest) => {
                lemma_derivation_nested(tokens, bytes);
                forest
            },
            None => Seq::empty(),
        },
        _ => Seq::empty(),
    };
    assert(nested_within(forest, 0, bytes.len() as int, bytes));
    let whole = Span { rule: Seq::empty(), start: 0, end: bytes.len() as int, inner: forest };
    lemma_canonical_contained(whole, bytes);
    assert(canonical_forest(forest, bytes) =~= result.parse);
    assert(canonical_rule(Seq::<char>::empty()) =~= Seq::<char>::empty());
    assert(canonical_node(whole, bytes) == input_node(input, result.parse));
}

/// A parse result is free of error exactly where the engine matched the
/// input and the tokens that it returned are a derivation of the input.
pub proof fn lemma_parse_result_accepts(outcome: Option<OutcomeView>, input: Seq<char>)
    ensures
        parse_result_of(outcome, input).error.len() == 0 <==> (outcome matches Some(
            OutcomeView::Matched { tokens, .. },
        ) && derivation(tokens, encode_utf8(input)) is Some),
{
    ErrorKind::Unknown.lemma_text_not_empty();
    ErrorKind::Internal.lemma_text_not_empty();
}

/// The canonical tree is a function of the derivation and the input alone:
/// two answers to the same tokens of the same input hold the same nodes,
/// whatever else the engine returned with the tokens.
pub proof fn lemma_parse_result_determined(
    tokens: Seq<TokenView>,
    first: Seq<char>,
    second: Seq<char>,
    input: Seq<char>,
)
    ensures
        parse_result_of(Some(OutcomeView::Matched { tokens, rendering: first }), input)
            == parse_result_of(Some(OutcomeView::Matched { tokens, rendering: second }), input),
{
}

impl ParseResult {
    /// Answers what the engine returned for `input`: the canonical nodes of
    /// a derivation, the message of a rejection, or an internal error where
    /// there was no engine or its tokens are no derivation of `input`.
    pub fn from_outcome(outcome: Option<Outcome>, input: &str) -> (result: ParseResult)
        ensures
            result@ == parse_result_of(outcome_view(outcome), input@),
    {
        let ghost bytes = encode_utf8(input@);
        let mut top: Vec<Parsed> = Vec::new();
        proof {
            assert(nodes_view(top@) =~= Seq::<NodeView>::empty());
        }
        match outcome {
            Some(Outcome::Matched { tokens, rendering }) => {
                match build_forest(&tokens, input) {
                    Some(forest) => {
                        proof {
                            encode_utf8_valid_utf8(input@);
                            lemma_derivation_nested(crate::derivation::tokens_view(tokens@), bytes);
                        }
                        recurse(&forest, input, &mut top);
                        proof {
                            assert(nodes_view(top@) =~= canonical_forest(
                                forest_view(forest@),
                                bytes,
                            ));
                        }
                        ParseResult { parse: top, error: String::new() }
                    },
                    None => ParseResult { parse: top, error: ErrorKind::Internal.message() },
                }
            },
            Some(Outcome::Rejected { message }) => {
                if message.as_str().is_empty() {
                    ParseResult { parse: top, error: ErrorKind::Unknown.message() }
                } else {
                    ParseResult { parse: top, error: message }
                }
            },
            None => ParseResult { parse: top, error: ErrorKind::Internal.message() },
        }
    }
}

/// What the engine may have returned for a statement: where it matched a
/// derivation, the rendering of it is not empty. `None` stands for an
/// engine that could not be set up.
pub open spec fn well_rendered(outcome: Option<OutcomeView>) -> bool {
    outcome matches Some(o) ==> o.rendered()
}

/// Matches a statement against the Quelle grammar, or reports that the
/// grammar could not be set up. Whatever the engine made of the text of the
/// grammar, there is an outcome exactly where the grammar is admitted from
/// its start rule. What the engine then makes of the statement is not known
/// here, but that a derivation comes with a rendering that is not empty.
fn match_statement(stmt: &str) -> (outcome: Option<Outcome>)
    ensures
        exists|rules: Option<Seq<OptimizedRule>>|
            {
                &&& rules matches Some(list) ==> compiled_from(list, QUELLE_GRAMMAR@)
                &&& outcome is Some <==> #[trigger] admitted(rules, START_RULE@)
            },
        well_rendered(outcome_view(outcome)),
{
    match Grammar::compile(START_RULE) {
        Some(grammar) => Some(grammar.parse(stmt)),
        None => None,
    }
}

/// Parses a statement into canonical nodes. What the grammar engine makes of
/// the statement is not known here; whatever it is, the result answers it as
/// [`parse_result_of`] says, so it is sound.
pub fn get_parse(stmt: &str) -> (result: ParseResult)
    ensures
        exists|outcome: Option<OutcomeView>| result@ == #[trigger] parse_result_of(outcome, stmt@),
        parse_result_sound(result@, stmt@),
{
    let outcome = match_statement(stmt);
    proof {
        lemma_parse_result_sound(outcome_view(outcome), stmt@);
    }
    ParseResult::from_outcome(outcome, stmt)
}

/// The raw answer to a statement: the statement, the engine's own rendering
/// of the derivation, and the description of a failure. The statement was
/// parsed exactly when `error` is empty.
#[derive(Debug, PartialEq, Eq)]
pub struct RawParseResult {
    pub input: String,
    pub result: String,
    pub error: String,
}

/// The mathematical value of a [`RawParseResult`].
pub struct RawView {
    pub input: Seq<char>,
    pub result: Seq<char>,
    pub error: Seq<char>,
}

impl View for RawParseResult {
    type V = RawView;

    open spec fn view(&self) -> RawView {
        RawView { input: self.input@, result: self.result@, error: self.error@ }
    }
}

/// The raw answer to what the engine returned for `input`. `None` stands
/// for an engine that could not be set up.
pub open spec fn raw_result_of(outcome: Option<OutcomeView>, input: Seq<char>) -> RawView {
    match outcome {
        Some(OutcomeView::Matched { tokens, rendering }) => RawView {
            input,
            result: rendering,
            error: Seq::empty(),
        },
        Some(OutcomeView::Rejected { message }) => RawView {
            input,
            result: Seq::empty(),
            error: rejection_text(message),
        },
        None => RawView { input, result: Seq::empty(), error: ErrorKind::Internal.text() },
    }
}

/// Whatever the engine returned, the raw answer to it holds either a
/// rendering or an error, never both and never neither.
pub proof fn lemma_raw_result_exclusive(outcome: Option<OutcomeView>, input: Seq<char>)
    requires
        well_rendered(outcome),
    ensures
        raw_result_of(outcome, input).input == input,
        raw_result_of(outcome, input).result.len() == 0 <==> raw_result_of(
            outcome,
            input,
        ).error.len() > 0,
        raw_result_of(outcome, input).error.len() == 0 <==> outcome matches Some(
            OutcomeView::Matched { .. },
        ),
{
    ErrorKind::Unknown.lemma_text_not_empty();
    ErrorKind::Internal.lemma_text_not_empty();
}

impl RawParseResult {
    /// Answers what the engine returned for `input` in raw form: the
    /// engine's rendering of a derivation, the message of a rejection, or
    /// an internal error where there was no engine.
    pub fn from_outcome(outcome: Option<Outcome>, input: &str) -> (raw: RawParseResult)
        ensures
            raw@ == raw_result_of(outcome_view(outcome), input@),
    {
        let input = input.to_owned();
        match outcome {
            Some(Outcome::Matched { tokens, rendering }) => RawParseResult {
                input,
                result: rendering,
                error: String::new(),
            },
            Some(Outcome::Rejected { message }) => {
                if message.as_str().is_empty() {
                    RawParseResult {
                        input,
                        result: String::new(),
                        error: ErrorKind::Unknown.message(),
                    }
                } else {
                    RawParseResult { input, result: String::new(), error: message }
                }
            },
            None => RawParseResult {
                input,
                result: String::new(),
                error: ErrorKind::Internal.message(),
            },
        }
    }

    /// Finishes a raw answer as an envelope: an empty statement is an invalid
    /// input whatever the engine made of it, and an answer that holds
    /// neither a rendering nor an error reports the empty result.
    pub fn normalized(self) -> (raw: RawParseResult)
        ensures
            raw@ == raw_envelope_of(self@),
    {
        if self.input.as_str().is_empty() {
            RawParseResult {
                input: self.input,
                result: String::new(),
                error: ErrorKind::InvalidInput.message(),
            }
        } else if !self.error.as_str().is_empty() {
            RawParseResult { input: self.input, result: String::new(), error: self.error }
        } else if self.result.as_str().is_empty() {
            RawParseResult {
                input: self.input,
                result: String::new(),
                error: ErrorKind::EmptyResult.message(),
            }
        } else {
            self
        }
    }
}

/// The raw envelope that a raw answer becomes: for an empty statement the
/// invalid-input error and no result; else the error of a failure and no
/// result; else, for an empty rendering, the empty-result error; else the
/// rendering and no error.
pub open spec fn raw_envelope_of(raw: RawView) -> RawView {
    if raw.input.len() == 0 {
        RawView { input: raw.input, result: Seq::empty(), error: ErrorKind::InvalidInput.text() }
    } else if raw.error.len() > 0 {
        RawView { input: raw.input, result: Seq::empty(), error: raw.error }
    } else if raw.result.len() == 0 {
        RawView { input: raw.input, result: Seq::empty(), error: ErrorKind::EmptyResult.text() }
    } else {
        raw
    }
}

/// Parses a statement and renders the derivation as the engine does. What
/// the grammar engine makes of the statement is not known here; whatever it
/// is, the result answers it as [`raw_result_of`] says, and exactly one of
/// rendering and error is filled.
pub fn get_parse_raw(stmt: &str) -> (raw: RawParseResult)
    ensures
        exists|outcome: Option<OutcomeView>|
            well_rendered(outcome) && raw@ == #[trigger] raw_result_of(outcome, stmt@),
        raw@.input == stmt@,
        raw@.result.len() == 0 <==> raw@.error.len() > 0,
{
    let outcome = match_statement(stmt);
    proof {
        lemma_raw_result_exclusive(outcome_view(outcome), stmt@);
    }
    RawParseResult::from_outcome(outcome, stmt)
}

/// The structured envelope: the statement, the canonical nodes of its
/// derivation, and the error. Exactly one of `result` and `error` is empty.
#[derive(Debug, PartialEq, Eq)]
pub struct RootParse {
    pub input: String,
    pub result: Vec<Parsed>,
    pub error: String,
}

/// The mathematical value of a [`RootParse`].
pub struct RootView {
    pub input: Seq<char>,
    pub result: Seq<NodeView>,
    pub error: Seq<char>,
}

impl View for RootParse {
    type V = RootView;

    open spec fn view(&self) -> RootView {
        RootView { input: self.input@, result: nodes_view(self.result@), error: self.error@ }
    }
}

/// The structured envelope that a parse result becomes: for an empty
/// statement the invalid-input error and no result; else the error of a
/// failure and no result; else, where nothing was matched, the empty-result
/// error; else the nodes and no error.
pub open spec fn root_envelope_of(input: Seq<char>, parsed: ParseResultView) -> RootView {
    if input.len() == 0 {
        RootView { input, result: Seq::empty(), error: ErrorKind::InvalidInput.text() }
    } else if parsed.error.len() > 0 {
        RootView { input, result: Seq::empty(), error: parsed.error }
    } else if parsed.parse.len() == 0 {
        RootView { input, result: Seq::empty(), error: ErrorKind::EmptyResult.text() }
    } else {
        RootView { input, result: parsed.parse, error: Seq::empty() }
    }
}

impl RootParse {
    /// Wraps the result of parsing `stmt` into the structured envelope.
    pub fn new(stmt: &str, parsed: ParseResult) -> (root: RootParse)
        ensures
            root@ == root_envelope_of(stmt@, parsed@),
    {
        let input = stmt.to_owned();
        let none: Vec<Parsed> = Vec::new();
        proof {
            assert(nodes_view(none@) =~= Seq::<NodeView>::empty());
            assert(parsed.parse@.len() == nodes_view(parsed.parse@).len());
        }
        if stmt.is_empty() {
            RootParse { input, result: none, error: ErrorKind::InvalidInput.message() }
        } else if !parsed.error.as_str().is_empty() {
            RootParse { input, result: none, error: parsed.error }
        } else if parsed.parse.len() == 0 {
            RootParse { input, result: none, error: ErrorKind::EmptyResult.message() }
        } else {
            RootParse { input, result: parsed.parse, error: String::new() }
        }
    }
}

/// In every envelope exactly one of result and error is empty, and an empty
/// statement is answered with the invalid-input error. The nodes of a sound
/// parse result stay parts of the input in the envelope.
pub proof fn lemma_root_envelope(input: Seq<char>, parsed: ParseResultView)
    ensures
        root_envelope_of(input, parsed).input == input,
        root_envelope_of(input, parsed).result.len() == 0 <==> root_envelope_of(
            input,
            parsed,
        ).error.len() > 0,
        input.len() == 0 ==> root_envelope_of(input, parsed).result.len() == 0
            && root_envelope_of(input, parsed).error == ErrorKind::InvalidInput.text(),
        parse_result_sound(parsed, input) ==> contained(
            input_node(input, root_envelope_of(input, parsed).result),
        ),
{
    ErrorKind::InvalidInput.lemma_text_not_empty();
    ErrorKind::EmptyResult.lemma_text_not_empty();
    assert(placed(input_node(input, Seq::empty()), Seq::empty()));
}

/// In every raw envelope exactly one of result and error is empty, and an
/// empty statement is answered with the invalid-input error.
pub proof fn lemma_raw_envelope(raw: RawView)
    ensures
        raw_envelope_of(raw).input == raw.input,
        raw_envelope_of(raw).result.len() == 0 <==> raw_envelope_of(raw).error.len() > 0,
        raw.input.len() == 0 ==> raw_envelope_of(raw).result.len() == 0 && raw_envelope_of(
            raw,
        ).error == ErrorKind::InvalidInput.text(),
{
    ErrorKind::InvalidInput.lemma_text_not_empty();
    ErrorKind::EmptyResult.lemma_text_not_empty();
}

/// The envelope for a caller that asks only whether a statement parses: it
/// holds the error, which is empty exactly when the statement was parsed
/// into at least one node.
#[derive(Debug, PartialEq, Eq)]
pub struct ErrorOnly {
    pub error: String,
}

impl View for ErrorOnly {
    type V = Seq<char>;

    open spec fn view(&self) -> Seq<char> {
        self.error@
    }
}

impl ErrorOnly {
    /// Wraps the result of parsing `stmt` into the error-only envelope: it
    /// holds the error that the structured envelope would hold.
    pub fn new(stmt: &str, parsed: &ParseResult) -> (envelope: ErrorOnly)
        ensures
            envelope@ == root_envelope_of(stmt@, parsed@).error,
    {
        proof {
            assert(parsed.parse@.len() == nodes_view(parsed.parse@).len());
        }
        if stmt.is_empty() {
            ErrorOnly { error: ErrorKind::InvalidInput.message() }
        } else if !parsed.error.as_str().is_empty() {
            ErrorOnly { error: parsed.error.clone() }
        } else if parsed.parse.len() == 0 {
            ErrorOnly { error: ErrorKind::EmptyResult.message() }
        } else {
            ErrorOnly { error: String::new() }
        }
    }
}

/// Parses a statement and answers with the structured envelope.
pub fn structured_envelope(stmt: &str) -> (root: RootParse)
    ensures
        exists|outcome: Option<OutcomeView>|
            root@ == root_envelope_of(
                stmt@,
                #[trigger] parse_result_of(outcome, stmt@),
            ),
        root@.input == stmt@,
        root@.result.len() == 0 <==> root@.error.len() > 0,
        stmt@.len() == 0 ==> root@.result.len() == 0 && root@.error
            == ErrorKind::InvalidInput.text(),
        contained(input_node(stmt@, root@.result)),
{
    let parsed = get_parse(stmt);
    proof {
        lemma_root_envelope(stmt@, parsed@);
    }
    RootParse::new(stmt, parsed)
}

/// Parses a statement and answers with the raw envelope.
pub fn raw_envelope(stmt: &str) -> (raw: RawParseResult)
    ensures
        exists|outcome: Option<OutcomeView>|
            well_rendered(outcome) && raw@ == raw_envelope_of(
                #[trigger] raw_result_of(outcome, stmt@),
            ),
        raw@.input == stmt@,
        raw@.result.len() == 0 <==> raw@.error.len() > 0,
        stmt@.len() == 0 ==> raw@.result.len() == 0 && raw@.error
            == ErrorKind::InvalidInput.text(),
{
    let parsed = get_parse_raw(stmt);
    proof {
        lemma_raw_envelope(parsed@);
    }
    parsed.normalized()
}

/// Parses a statement and answers with the error alone.
pub fn error_envelope(stmt: &str) -> (envelope: ErrorOnly)
    ensures
        exists|outcome: Option<OutcomeView>|
            envelope@ == root_envelope_of(stmt@, #[trigger] parse_result_of(outcome, stmt@)).error,
        stmt@.len() == 0 ==> envelope@ == ErrorKind::InvalidInput.text(),
{
    let parsed = get_parse(stmt);
    ErrorOnly::new(stmt, &parsed)
}

} // verus!
