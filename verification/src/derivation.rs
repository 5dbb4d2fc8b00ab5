//! Derivations: the nested record of which rules matched which spans of the
//! input. The grammar engine hands a derivation over as a flat stream of
//! start and end tokens; this module rebuilds the nesting from that stream
//! and checks that every position in it is usable as a cut into the input.

use vstd::prelude::*;
use vstd::utf8::*;

verus! {

/// One event of a derivation: a rule starts to match, or has finished
/// matching, at a byte position of the input.
#[derive(Debug, PartialEq, Eq)]
pub enum Token {
    Start { rule: String, pos: usize },
    End { rule: String, pos: usize },
}

/// The mathematical value of a [`Token`].
pub enum TokenView {
    Start { rule: Seq<char>, pos: int },
    End { rule: Seq<char>, pos: int },
}

impl TokenView {
    /// The position of the token.
    pub open spec fn pos(self) -> int {
        match self {
            TokenView::Start { pos, .. } => pos,
            TokenView::End { pos, .. } => pos,
        }
    }
}

impl View for Token {
    type V = TokenView;

    open spec fn view(&self) -> TokenView {
        match self {
            Token::Start { rule, pos } => TokenView::Start { rule: rule@, pos: *pos as int },
            Token::End { rule, pos } => TokenView::End { rule: rule@, pos: *pos as int },
        }
    }
}

/// The views of a sequence of tokens, in order.
pub open spec fn tokens_view(tokens: Seq<Token>) -> Seq<TokenView> {
    Seq::new(tokens.len(), |i: int| tokens[i]@)
}

/// A match of the derivation as a mathematical value: the rule, the byte
/// range `start..end` of the input that it covers, and the matches inside it.
pub struct Span {
    pub rule: Seq<char>,
    pub start: int,
    pub end: int,
    pub inner: Seq<Span>,
}

/// A match of the derivation: the rule, the byte range of the input that it
/// covers, and the matches nested inside it, from left to right.
#[derive(Debug, PartialEq, Eq)]
pub struct Match {
    pub rule: String,
    pub start: usize,
    pub end: usize,
    pub inner: Vec<Match>,
}

/// The mathematical value of a match and of the matches nested in it.
pub open spec fn span_of(m: Match) -> Span
    decreases m,
{
    Span {
        rule: m.rule@,
        start: m.start as int,
        end: m.end as int,
        inner: Seq::new(
            m.inner@.len(),
            |i: int|
                if 0 <= i < m.inner@.len() {
                    span_of(m.inner@[i])
                } else {
                    arbitrary()
                },
        ),
    }
}

impl View for Match {
    type V = Span;

    open spec fn view(&self) -> Span {
        span_of(*self)
    }
}

/// The views of a sequence of matches, in order.
pub open spec fn forest_view(matches: Seq<Match>) -> Seq<Span> {
    Seq::new(matches.len(), |i: int| matches[i]@)
}

/// A position at which the input may be cut: inside the input and not in the
/// middle of a character.
pub open spec fn cut(bytes: Seq<u8>, pos: int) -> bool {
    0 <= pos <= bytes.len() && is_char_boundary(bytes, pos)
}

/// The spans of `spans` follow one another from left to right inside
/// `lo..hi`, each begins and ends at a cut, and the same holds, inside each
/// span, of the spans nested in it.
pub open spec fn nested_within(spans: Seq<Span>, lo: int, hi: int, bytes: Seq<u8>) -> bool
    decreases spans,
{
    &&& forall|i: int|
        0 <= i < spans.len() ==> {
            &&& lo <= (#[trigger] spans[i]).start <= spans[i].end <= hi
            &&& cut(bytes, spans[i].start)
            &&& cut(bytes, spans[i].end)
            &&& nested_within(spans[i].inner, spans[i].start, spans[i].end, bytes)
        }
    &&& forall|i: int, j: int|
        0 <= i < j < spans.len() ==> (#[trigger] spans[i]).end <= (#[trigger] spans[j]).start
}

/// A match that has started and has not ended yet: its rule, where it
/// started, and the matches completed inside it so far.
pub struct Frame {
    pub rule: Seq<char>,
    pub start: int,
    pub inner: Seq<Span>,
}

/// Where the reading of a token stream stands: the matches that are open,
/// outermost first, and the position of the last token read. The first
/// frame stands for the whole input and collects the top-level matches.
pub struct Reading {
    pub open: Seq<Frame>,
    pub at: int,
}

/// The reading before any token: only the frame of the whole input is open.
pub open spec fn initial_reading() -> Reading {
    Reading {
        open: seq![Frame { rule: Seq::empty(), start: 0, inner: Seq::empty() }],
        at: 0,
    }
}

/// The reading after one more token, or `None` where the token cannot follow:
/// it lies before the previous token or at no cut of the input, or it ends a
/// match that is not the innermost open one.
pub open spec fn read_token(reading: Reading, token: TokenView, bytes: Seq<u8>) -> Option<Reading> {
    if !(reading.at <= token.pos() && cut(bytes, token.pos())) {
        None
    } else {
        match token {
            TokenView::Start { rule, pos } => Some(
                Reading {
                    open: reading.open.push(Frame { rule, start: pos, inner: Seq::empty() }),
                    at: pos,
                },
            ),
            TokenView::End { rule, pos } => {
                let depth = reading.open.len() as int;
                if depth < 2 || reading.open[depth - 1].rule != rule {
                    None
                } else {
                    let top = reading.open[depth - 1];
                    let below = reading.open[depth - 2];
                    let span = Span { rule, start: top.start, end: pos, inner: top.inner };
                    Some(
                        Reading {
                            open: reading.open.take(depth - 2).push(
                                Frame {
                                    rule: below.rule,
                                    start: below.start,
                                    inner: below.inner.push(span),
                                },
                            ),
                            at: pos,
                        },
                    )
                }
            },
        }
    }
}

/// The reading that `tokens` lead to from `reading`, or `None` where one of
/// them cannot follow those before it.
pub open spec fn read_from(reading: Reading, tokens: Seq<TokenView>, bytes: Seq<u8>) -> Option<
    Reading,
>
    decreases tokens.len(),
{
    if tokens.len() == 0 {
        Some(reading)
    } else {
        match read_from(reading, tokens.drop_last(), bytes) {
            Some(before) => read_token(before, tokens.last(), bytes),
            None => None,
        }
    }
}

/// The reading after all of `tokens`, read from the start.
pub open spec fn read_all(tokens: Seq<TokenView>, bytes: Seq<u8>) -> Option<Reading> {
    read_from(initial_reading(), tokens, bytes)
}

/// The derivation that a token stream denotes over the input `bytes`: the
/// top-level matches, each with its nested matches. It is `None` where the
/// stream is no derivation of that input: a token lies before its
/// predecessor, beyond the input or inside a character, an end token does not
/// close the innermost open match, or a match is left open.
pub open spec fn derivation(tokens: Seq<TokenView>, bytes: Seq<u8>) -> Option<Seq<Span>> {
    match read_all(tokens, bytes) {
        Some(reading) => if reading.open.len() == 1 {
            Some(reading.open[0].inner)
        } else {
            None
        },
        None => None,
    }
}

/// A match that is still open while the token stream is read.
struct OpenMatch {
    rule: String,
    start: usize,
    inner: Vec<Match>,
}

impl View for OpenMatch {
    type V = Frame;

    closed spec fn view(&self) -> Frame {
        Frame { rule: self.rule@, start: self.start as int, inner: forest_view(self.inner@) }
    }
}

/// The views of a stack of open matches, outermost first.
spec fn frames_view(stack: Seq<OpenMatch>) -> Seq<Frame> {
    Seq::new(stack.len(), |i: int| stack[i]@)
}

/// The view of a match holds the views of its inner matches.
pub proof fn lemma_match_view(m: Match)
    ensures
        m@ == (Span {
            rule: m.rule@,
            start: m.start as int,
            end: m.end as int,
            inner: forest_view(m.inner@),
        }),
{
    assert forall|i: int| 0 <= i < m.inner@.len() implies m@.inner[i] == m.inner@[i]@ by {}
    assert(m@.inner =~= forest_view(m.inner@));
}

/// Once a prefix of a token stream cannot be read, the whole stream cannot.
proof fn lemma_unreadable_prefix(tokens: Seq<TokenView>, bytes: Seq<u8>, k: int)
    requires
        0 <= k <= tokens.len(),
        read_all(tokens.take(k), bytes) is None,
    ensures
        read_all(tokens, bytes) is None,
    decreases tokens.len() - k,
{
    if k == tokens.len() {
        assert(tokens.take(k) =~= tokens);
    } else {
        assert(tokens.take(k + 1).drop_last() =~= tokens.take(k));
        lemma_unreadable_prefix(tokens, bytes, k + 1);
    }
}

/// Rebuilds the nesting of a derivation from its token stream, or reports
/// that the stream is no derivation of `input`.
pub fn build_forest(tokens: &Vec<Token>, input: &str) -> (forest: Option<Vec<Match>>)
    ensures
        match forest {
            Some(matches) => derivation(tokens_view(tokens@), encode_utf8(input@)) == Some(
                forest_view(matches@),
            ),
            None => derivation(tokens_view(tokens@), encode_utf8(input@)) is None,
        },
{
    let ghost stream = tokens_view(tokens@);
    let ghost bytes = encode_utf8(input@);
    let mut stack: Vec<OpenMatch> = Vec::new();
    stack.push(OpenMatch { rule: String::new(), start: 0, inner: Vec::new() });
    let mut at: usize = 0;
    let mut i: usize = 0;
    proof {
        assert(stream.take(0) =~= Seq::<TokenView>::empty());
        assert(forest_view(stack@[0].inner@) =~= Seq::<Span>::empty());
        assert(frames_view(stack@) =~= initial_reading().open);
    }
    while i < tokens.len()
        invariant
            0 <= i <= tokens.len(),
            stream == tokens_view(tokens@),
            bytes == encode_utf8(input@),
            read_all(stream.take(i as int), bytes) == Some(
                Reading { open: frames_view(stack@), at: at as int },
            ),
        decreases tokens.len() - i,
    {
        let ghost before = Reading { open: frames_view(stack@), at: at as int };
        proof {
            encode_utf8_valid_utf8(input@);
            assert(stream.take(i + 1).drop_last() =~= stream.take(i as int));
            assert(stream.take(i + 1).last() == tokens@[i as int]@);
        }
        match &tokens[i] {
            Token::Start { rule, pos } => {
                let pos = *pos;
                if !(at <= pos && input.is_char_boundary(pos)) {
                    proof {
                        lemma_unreadable_prefix(stream, bytes, i + 1);
                    }
                    return None;
                }
                stack.push(OpenMatch { rule: rule.clone(), start: pos, inner: Vec::new() });
                at = pos;
                proof {
                    assert(forest_view(Seq::<Match>::empty()) =~= Seq::<Span>::empty());
                    assert(frames_view(stack@) =~= before.open.push(
                        Frame { rule: rule@, start: pos as int, inner: Seq::empty() },
                    ));
                }
            },
            Token::End { rule, pos } => {
                let pos = *pos;
                if !(at <= pos && input.is_char_boundary(pos)) {
                    proof {
                        lemma_unreadable_prefix(stream, bytes, i + 1);
                    }
                    return None;
                }
                if stack.len() < 2 {
                    proof {
                        lemma_unreadable_prefix(stream, bytes, i + 1);
                    }
                    return None;
                }
                let top = stack.pop().unwrap();
                if top.rule != *rule {
                    proof {
                        lemma_unreadable_prefix(stream, bytes, i + 1);
                    }
                    return None;
                }
                let mut below = stack.pop().unwrap();
                let ghost kept = below@;
                let closed = Match { rule: rule.clone(), start: top.start, end: pos, inner: top.inner };
                proof {
                    lemma_match_view(closed);
                }
                below.inner.push(closed);
                stack.push(below);
                at = pos;
                proof {
                    let depth = before.open.len() as int;
                    let span = Span {
                        rule: rule@,
                        start: top.start as int,
                        end: pos as int,
                        inner: before.open[depth - 1].inner,
                    };
                    assert(forest_view(below.inner@) =~= kept.inner.push(span));
                    assert(frames_view(stack@) =~= before.open.take(depth - 2).push(
                        Frame { rule: kept.rule, start: kept.start, inner: kept.inner.push(span) },
                    ));
                }
            },
        }
        i += 1;
    }
    proof {
        assert(stream.take(i as int) =~= stream);
    }
    if stack.len() == 1 {
        let root = stack.pop().unwrap();
        Some(root.inner)
    } else {
        None
    }
}

/// The end of the range in which the matches completed inside the frame at
/// `depth` lie: where the next open match started or, for the innermost
/// frame, the position of the last token read.
pub open spec fn frame_limit(reading: Reading, depth: int) -> int {
    if depth + 1 < reading.open.len() {
        reading.open[depth + 1].start
    } else {
        reading.at
    }
}

/// What holds of every reading that a token stream can reach: each open
/// match started at a cut, no later than the match opened inside it, and the
/// matches completed inside it are nested and lie before that inner match.
pub open spec fn reading_nested(reading: Reading, bytes: Seq<u8>) -> bool {
    &&& reading.open.len() >= 1
    &&& reading.open[0].start == 0
    &&& cut(bytes, reading.at)
    &&& forall|depth: int|
        0 <= depth < reading.open.len() ==> {
            &&& cut(bytes, (#[trigger] reading.open[depth]).start)
            &&& reading.open[depth].start <= frame_limit(reading, depth)
            &&& nested_within(
                reading.open[depth].inner,
                reading.open[depth].start,
                frame_limit(reading, depth),
                bytes,
            )
        }
}

/// Spans nested within a range are nested within any range that ends later.
proof fn lemma_nested_widen(spans: Seq<Span>, lo: int, hi: int, wider: int, bytes: Seq<u8>)
    requires
        nested_within(spans, lo, hi, bytes),
        hi <= wider,
    ensures
        nested_within(spans, lo, wider, bytes),
{
}

/// A span that begins where the spans before it have ended may follow them.
proof fn lemma_nested_push(
    spans: Seq<Span>,
    span: Span,
    lo: int,
    mid: int,
    hi: int,
    bytes: Seq<u8>,
)
    requires
        nested_within(spans, lo, mid, bytes),
        lo <= mid <= span.start <= span.end <= hi,
        cut(bytes, span.start),
        cut(bytes, span.end),
        nested_within(span.inner, span.start, span.end, bytes),
    ensures
        nested_within(spans.push(span), lo, hi, bytes),
{
    let all = spans.push(span);
    assert forall|i: int| 0 <= i < all.len() implies {
        &&& lo <= (#[trigger] all[i]).start <= all[i].end <= hi
        &&& cut(bytes, all[i].start)
        &&& cut(bytes, all[i].end)
        &&& nested_within(all[i].inner, all[i].start, all[i].end, bytes)
    } by {
        if i < spans.len() {
            assert(all[i] == spans[i]);
        }
    }
    assert forall|i: int, j: int| 0 <= i < j < all.len() implies (#[trigger] all[i]).end <= (
    #[trigger] all[j]).start by {
        assert(all[i] == spans[i]);
        if j < spans.len() {
            assert(all[j] == spans[j]);
        }
    }
}

/// Reading one more token keeps the open matches nested.
proof fn lemma_read_token_nested(reading: Reading, token: TokenView, bytes: Seq<u8>)
    requires
        reading_nested(reading, bytes),
        read_token(reading, token, bytes) is Some,
    ensures
        reading_nested(read_token(reading, token, bytes)->0, bytes),
{
    let next = read_token(reading, token, bytes)->0;
    let depth = reading.open.len() as int;
    match token {
        TokenView::Start { rule, pos } => {
            assert forall|d: int| 0 <= d < next.open.len() implies {
                &&& cut(bytes, (#[trigger] next.open[d]).start)
                &&& next.open[d].start <= frame_limit(next, d)
                &&& nested_within(next.open[d].inner, next.open[d].start, frame_limit(next, d), bytes)
            } by {
                if d < depth {
                    assert(next.open[d] == reading.open[d]);
                    if d + 1 < depth {
                        assert(next.open[d + 1] == reading.open[d + 1]);
                        assert(frame_limit(next, d) == frame_limit(reading, d));
                    } else {
                        lemma_nested_widen(
                            reading.open[d].inner,
                            reading.open[d].start,
                            reading.at,
                            pos,
                            bytes,
                        );
                    }
                }
            }
        },
        TokenView::End { rule, pos } => {
            let top = reading.open[depth - 1];
            let below = reading.open[depth - 2];
            let span = Span { rule, start: top.start, end: pos, inner: top.inner };
            lemma_nested_widen(top.inner, top.start, reading.at, pos, bytes);
            assert(frame_limit(reading, depth - 2) == top.start);
            lemma_nested_push(below.inner, span, below.start, top.start, pos, bytes);
            assert forall|d: int| 0 <= d < next.open.len() implies {
                &&& cut(bytes, (#[trigger] next.open[d]).start)
                &&& next.open[d].start <= frame_limit(next, d)
                &&& nested_within(next.open[d].inner, next.open[d].start, frame_limit(next, d), bytes)
            } by {
                if d < depth - 2 {
                    assert(next.open[d] == reading.open[d]);
                    if d + 1 < depth - 2 {
                        assert(next.open[d + 1] == reading.open[d + 1]);
                    }
                    assert(frame_limit(next, d) == frame_limit(reading, d));
                }
            }
        },
    }
}

/// Every reading that a token stream reaches keeps its open matches nested.
proof fn lemma_read_all_nested(tokens: Seq<TokenView>, bytes: Seq<u8>)
    requires
        valid_utf8(bytes),
        read_all(tokens, bytes) is Some,
    ensures
        reading_nested(read_all(tokens, bytes)->0, bytes),
    decreases tokens.len(),
{
    if tokens.len() == 0 {
        assert(nested_within(Seq::<Span>::empty(), 0, 0, bytes));
    } else {
        lemma_read_all_nested(tokens.drop_last(), bytes);
        lemma_read_token_nested(read_all(tokens.drop_last(), bytes)->0, tokens.last(), bytes);
    }
}

/// In a derivation every match lies inside the match that holds it, the
/// matches held by one match follow one another from left to right without
/// overlap, and every match begins and ends at a cut of the input.
pub proof fn lemma_derivation_nested(tokens: Seq<TokenView>, bytes: Seq<u8>)
    requires
        valid_utf8(bytes),
        derivation(tokens, bytes) is Some,
    ensures
        nested_within(derivation(tokens, bytes)->0, 0, bytes.len() as int, bytes),
{
    lemma_read_all_nested(tokens, bytes);
    let reading = read_all(tokens, bytes)->0;
    assert(frame_limit(reading, 0) == reading.at);
    lemma_nested_widen(reading.open[0].inner, 0, reading.at, bytes.len() as int, bytes);
}

/// The tokens with which a match is written down: its start, the tokens of
/// the matches nested in it, and its end.
pub open spec fn tokens_of(span: Span) -> Seq<TokenView>
    decreases span, 0nat,
{
    seq![TokenView::Start { rule: span.rule, pos: span.start }] + tokens_of_all(span.inner)
        + seq![TokenView::End { rule: span.rule, pos: span.end }]
}

/// The tokens with which a sequence of matches is written down: those of
/// each match, one match after the other.
pub open spec fn tokens_of_all(spans: Seq<Span>) -> Seq<TokenView>
    decreases spans, 1nat,
{
    if spans.len() == 0 {
        Seq::empty()
    } else {
        tokens_of_all(spans.drop_last()) + tokens_of(spans.last())
    }
}

/// The tokens that lead to the open matches of a reading: for each open
/// match its start and the tokens of the matches completed inside it. The
/// outermost frame stands for the input and has no start token.
pub open spec fn tokens_read(open: Seq<Frame>) -> Seq<TokenView>
    decreases open.len(),
{
    if open.len() == 0 {
        Seq::empty()
    } else if open.len() == 1 {
        tokens_of_all(open[0].inner)
    } else {
        tokens_read(open.drop_last()) + seq![
            TokenView::Start { rule: open.last().rule, pos: open.last().start },
        ] + tokens_of_all(open.last().inner)
    }
}

/// The open matches of a reading after the innermost of them has gained the
/// completed matches `spans`.
pub open spec fn gain(open: Seq<Frame>, spans: Seq<Span>) -> Seq<Frame> {
    open.drop_last().push(
        Frame { rule: open.last().rule, start: open.last().start, inner: open.last().inner + spans },
    )
}

/// Reading two streams one after the other is reading their concatenation.
proof fn lemma_read_from_concat(
    reading: Reading,
    first: Seq<TokenView>,
    second: Seq<TokenView>,
    bytes: Seq<u8>,
)
    ensures
        read_from(reading, first + second, bytes) == match read_from(reading, first, bytes) {
            Some(between) => read_from(between, second, bytes),
            None => None,
        },
    decreases second.len(),
{
    if second.len() == 0 {
        assert(first + second =~= first);
    } else {
        assert((first + second).drop_last() =~= first + second.drop_last());
        assert((first + second).last() == second.last());
        lemma_read_from_concat(reading, first, second.drop_last(), bytes);
    }
}

/// Reading one token is one step.
proof fn lemma_read_from_one(reading: Reading, token: TokenView, bytes: Seq<u8>)
    ensures
        read_from(reading, seq![token], bytes) == read_token(reading, token, bytes),
{
    let one = seq![token];
    assert(one.drop_last() =~= Seq::<TokenView>::empty());
    assert(one.last() == token);
    assert(read_from(reading, one.drop_last(), bytes) == Some(reading));
}

/// The tokens of a sequence of matches that ends with `span` are those of
/// the matches before it, followed by those of `span`.
proof fn lemma_tokens_of_push(spans: Seq<Span>, span: Span)
    ensures
        tokens_of_all(spans.push(span)) == tokens_of_all(spans) + tokens_of(span),
{
    let all = spans.push(span);
    assert(all.drop_last() =~= spans);
    assert(all.last() == span);
}

/// One token more is read by one step more.
proof fn lemma_tokens_read_step(reading: Reading, token: TokenView, bytes: Seq<u8>)
    requires
        reading.open.len() >= 1,
        read_token(reading, token, bytes) is Some,
    ensures
        tokens_read(read_token(reading, token, bytes)->0.open) == tokens_read(reading.open).push(
            token,
        ),
{
    let next = read_token(reading, token, bytes)->0;
    let open = reading.open;
    let depth = open.len() as int;
    match token {
        TokenView::Start { rule, pos } => {
            assert(next.open.drop_last() =~= open);
            assert(tokens_of_all(next.open.last().inner) =~= Seq::<TokenView>::empty());
            assert(tokens_read(next.open) =~= tokens_read(open).push(token));
        },
        TokenView::End { rule, pos } => {
            let top = open[depth - 1];
            let below = open[depth - 2];
            let span = Span { rule, start: top.start, end: pos, inner: top.inner };
            let start = TokenView::Start { rule: top.rule, pos: top.start };
            lemma_tokens_of_push(below.inner, span);
            assert(tokens_of(span) == seq![start] + tokens_of_all(top.inner) + seq![token]);
            assert(open.drop_last().last() == below);
            assert(tokens_read(open) == tokens_read(open.drop_last()) + seq![start]
                + tokens_of_all(top.inner));
            if depth == 2 {
                assert(tokens_read(open.drop_last()) == tokens_of_all(below.inner));
                assert(tokens_read(next.open) == tokens_of_all(below.inner.push(span)));
                assert(tokens_read(next.open) =~= tokens_read(open).push(token));
            } else {
                let under = TokenView::Start { rule: below.rule, pos: below.start };
                assert(next.open.drop_last() =~= open.drop_last().drop_last());
                assert(tokens_read(open.drop_last()) == tokens_read(open.drop_last().drop_last())
                    + seq![under] + tokens_of_all(below.inner));
                assert(tokens_read(next.open) == tokens_read(next.open.drop_last()) + seq![under]
                    + tokens_of_all(below.inner.push(span)));
                assert(tokens_read(next.open) =~= tokens_read(open).push(token));
            }
        },
    }
}

/// The open matches of every reading, written down again, are the tokens
/// that were read.
proof fn lemma_tokens_read(tokens: Seq<TokenView>, bytes: Seq<u8>)
    requires
        read_all(tokens, bytes) is Some,
    ensures
        read_all(tokens, bytes)->0.open.len() >= 1,
        tokens_read(read_all(tokens, bytes)->0.open) == tokens,
    decreases tokens.len(),
{
    if tokens.len() == 0 {
        assert(tokens_of_all(Seq::<Span>::empty()) =~= Seq::<TokenView>::empty());
        assert(tokens_read(initial_reading().open) =~= tokens);
    } else {
        lemma_tokens_read(tokens.drop_last(), bytes);
        lemma_tokens_read_step(read_all(tokens.drop_last(), bytes)->0, tokens.last(), bytes);
        assert(tokens.drop_last().push(tokens.last()) =~= tokens);
    }
}

/// A derivation, written down again as tokens, is the token stream that it
/// was rebuilt from.
pub proof fn lemma_derivation_round_trip(tokens: Seq<TokenView>, bytes: Seq<u8>)
    requires
        derivation(tokens, bytes) is Some,
    ensures
        tokens_of_all(derivation(tokens, bytes)->0) == tokens,
{
    lemma_tokens_read(tokens, bytes);
}

/// Reading the tokens of a match that may follow adds that match to the
/// innermost open match.
proof fn lemma_read_span(reading: Reading, span: Span, bytes: Seq<u8>)
    requires
        reading.open.len() >= 1,
        reading.at <= span.start <= span.end,
        cut(bytes, span.start),
        cut(bytes, span.end),
        nested_within(span.inner, span.start, span.end, bytes),
    ensures
        read_from(reading, tokens_of(span), bytes) == Some(
            Reading { open: gain(reading.open, seq![span]), at: span.end },
        ),
    decreases span, 0nat,
{
    let start = TokenView::Start { rule: span.rule, pos: span.start };
    let end = TokenView::End { rule: span.rule, pos: span.end };
    let opened = Reading {
        open: reading.open.push(Frame { rule: span.rule, start: span.start, inner: Seq::empty() }),
        at: span.start,
    };
    lemma_read_from_one(reading, start, bytes);
    assert(read_from(reading, seq![start], bytes) == Some(opened));
    lemma_read_spans(opened, span.inner, span.start, span.end, bytes);
    let filled = read_from(opened, tokens_of_all(span.inner), bytes)->0;
    lemma_read_from_concat(reading, seq![start], tokens_of_all(span.inner), bytes);
    lemma_read_from_concat(reading, seq![start] + tokens_of_all(span.inner), seq![end], bytes);
    lemma_read_from_one(filled, end, bytes);
    let depth = filled.open.len() as int;
    assert(depth == reading.open.len() + 1);
    assert(filled.open[depth - 1].inner =~= span.inner);
    assert(filled.open[depth - 2] == reading.open.last());
    if span.inner.len() > 0 {
        assert(span.inner.last().end <= span.end);
    }
    let closed = read_token(filled, end, bytes)->0;
    assert(filled.open.take(depth - 2) =~= reading.open.drop_last());
    assert(reading.open.last().inner.push(span) =~= reading.open.last().inner + seq![span]);
    assert(closed.open =~= gain(reading.open, seq![span]));
}

/// Reading the tokens of matches that may follow adds those matches to the
/// innermost open match.
proof fn lemma_read_spans(reading: Reading, spans: Seq<Span>, lo: int, hi: int, bytes: Seq<u8>)
    requires
        reading.open.len() >= 1,
        reading.at <= lo,
        nested_within(spans, lo, hi, bytes),
    ensures
        read_from(reading, tokens_of_all(spans), bytes) == Some(
            Reading {
                open: gain(reading.open, spans),
                at: if spans.len() == 0 {
                    reading.at
                } else {
                    spans.last().end
                },
            },
        ),
    decreases spans, 1nat,
{
    if spans.len() == 0 {
        assert(reading.open.last().inner + spans =~= reading.open.last().inner);
        assert(gain(reading.open, spans) =~= reading.open);
    } else {
        let before = spans.drop_last();
        let last = spans.last();
        assert forall|i: int| 0 <= i < before.len() implies before[i] == spans[i] by {}
        assert(nested_within(before, lo, hi, bytes));
        lemma_read_spans(reading, before, lo, hi, bytes);
        let between = read_from(reading, tokens_of_all(before), bytes)->0;
        if before.len() > 0 {
            assert(before.last() == spans[spans.len() - 2]);
            assert(spans[spans.len() - 2].end <= spans[spans.len() - 1].start);
        }
        lemma_read_span(between, last, bytes);
        lemma_read_from_concat(reading, tokens_of_all(before), tokens_of(last), bytes);
        assert(reading.open.last().inner + before + seq![last] =~= reading.open.last().inner
            + spans);
        assert(gain(between.open, seq![last]) =~= gain(reading.open, spans));
    }
}

/// Every sequence of matches that are nested within the input is the
/// derivation of the tokens with which it is written down.
pub proof fn lemma_derivation_complete(forest: Seq<Span>, bytes: Seq<u8>)
    requires
        nested_within(forest, 0, bytes.len() as int, bytes),
    ensures
        derivation(tokens_of_all(forest), bytes) == Some(forest),
{
    lemma_read_spans(initial_reading(), forest, 0, bytes.len() as int, bytes);
    assert(Seq::<Span>::empty() + forest =~= forest);
}

} // verus!
