//! The canonical tree: every match of a derivation becomes a node that holds
//! the rule's canonical identifier, the text that the match covers and the
//! nodes of the matches nested in it, in their order.

use vstd::prelude::*;
use vstd::utf8::*;
use crate::derivation::{cut, forest_view, nested_within, Match, Span};
use crate::label::{canonical_rule, canonical_rule_of};

verus! {

/// A node of the canonical tree.
#[derive(Debug, PartialEq, Eq)]
pub struct Parsed {
    pub rule: String,
    pub text: String,
    pub children: Vec<Parsed>,
}

/// The mathematical value of a [`Parsed`] node.
pub struct NodeView {
    pub rule: Seq<char>,
    pub text: Seq<char>,
    pub children: Seq<NodeView>,
}

/// The mathematical value of a node and of the nodes below it.
pub open spec fn node_of(node: Parsed) -> NodeView
    decreases node,
{
    NodeView {
        rule: node.rule@,
        text: node.text@,
        children: Seq::new(
            node.children@.len(),
            |i: int|
                if 0 <= i < node.children@.len() {
                    node_of(node.children@[i])
                } else {
                    arbitrary()
                },
        ),
    }
}

impl View for Parsed {
    type V = NodeView;

    open spec fn view(&self) -> NodeView {
        node_of(*self)
    }
}

/// The views of a sequence of nodes, in order.
pub open spec fn nodes_view(nodes: Seq<Parsed>) -> Seq<NodeView> {
    Seq::new(nodes.len(), |i: int| nodes[i]@)
}

/// The view of a node holds the views of its children.
pub proof fn lemma_node_view(node: Parsed)
    ensures
        node@ == (NodeView {
            rule: node.rule@,
            text: node.text@,
            children: nodes_view(node.children@),
        }),
{
    assert(node@.children =~= nodes_view(node.children@));
}

/// The text of the input between two byte positions.
pub open spec fn text_between(bytes: Seq<u8>, start: int, end: int) -> Seq<char> {
    decode_utf8(bytes.subrange(start, end))
}

/// The canonical node of a match: the canonical identifier of its rule, the
/// text it covers, and the canonical nodes of the matches nested in it.
pub open spec fn canonical_node(span: Span, bytes: Seq<u8>) -> NodeView
    decreases span, 0nat,
{
    NodeView {
        rule: canonical_rule(span.rule),
        text: text_between(bytes, span.start, span.end),
        children: canonical_forest(span.inner, bytes),
    }
}

/// The canonical nodes of a sequence of matches, in the same order.
pub open spec fn canonical_forest(spans: Seq<Span>, bytes: Seq<u8>) -> Seq<NodeView>
    decreases spans, 1nat,
{
    Seq::new(
        spans.len(),
        |i: int|
            if 0 <= i < spans.len() {
                canonical_node(spans[i], bytes)
            } else {
                arbitrary()
            },
    )
}

/// Cuts the text between two byte positions out of the input.
pub fn slice_text<'a>(input: &'a str, start: usize, end: usize) -> (text: &'a str)
    requires
        start <= end,
        cut(encode_utf8(input@), start as int),
        cut(encode_utf8(input@), end as int),
    ensures
        text@ == text_between(encode_utf8(input@), start as int, end as int),
{
    let ghost bytes = encode_utf8(input@);
    proof {
        encode_utf8_valid_utf8(input@);
        valid_utf8_split(bytes, end as int);
    }
    let (head, _) = input.split_at(end);
    proof {
        if start < end {
            is_char_boundary_iff_not_is_continuation_byte(bytes, start as int);
            is_char_boundary_iff_not_is_continuation_byte(encode_utf8(head@), start as int);
        } else {
            is_char_boundary_start_end_of_seq(encode_utf8(head@));
        }
    }
    let (_, text) = head.split_at(start);
    proof {
        assert(encode_utf8(text@) =~= bytes.subrange(start as int, end as int));
        encode_utf8_decode_utf8(text@);
    }
    text
}

/// Spans nested within a range of the input are nested within the whole
/// input.
proof fn lemma_nested_in_input(spans: Seq<Span>, lo: int, hi: int, bytes: Seq<u8>)
    requires
        nested_within(spans, lo, hi, bytes),
        0 <= lo,
        hi <= bytes.len(),
    ensures
        nested_within(spans, 0, bytes.len() as int, bytes),
{
}

/// Rewrites the matches of a derivation into canonical nodes, depth first
/// and in order, and appends them to `items`.
pub fn recurse(children: &Vec<Match>, input: &str, items: &mut Vec<Parsed>)
    requires
        nested_within(
            forest_view(children@),
            0,
            encode_utf8(input@).len() as int,
            encode_utf8(input@),
        ),
    ensures
        nodes_view(final(items)@) == nodes_view(old(items)@) + canonical_forest(
            forest_view(children@),
            encode_utf8(input@),
        ),
    decreases children,
{
    let ghost bytes = encode_utf8(input@);
    let ghost spans = forest_view(children@);
    let ghost before = nodes_view(items@);
    let mut i: usize = 0;
    while i < children.len()
        invariant
            0 <= i <= children.len(),
            bytes == encode_utf8(input@),
            spans == forest_view(children@),
            nested_within(spans, 0, bytes.len() as int, bytes),
            nodes_view(items@) == before + canonical_forest(spans, bytes).take(i as int),
        decreases children.len() - i,
    {
        let ghost sofar = nodes_view(items@);
        let m = &children[i];
        proof {
            crate::derivation::lemma_match_view(*m);
            assert(spans[i as int] == m@);
            lemma_nested_in_input(m@.inner, m@.start, m@.end, bytes);
        }
        let text = slice_text(input, m.start, m.end).to_owned();
        let mut result: Vec<Parsed> = Vec::new();
        recurse(&m.inner, input, &mut result);
        let rule = canonical_rule_of(m.rule.as_str());
        let item = Parsed { rule, text, children: result };
        proof {
            lemma_node_view(item);
            assert(nodes_view(Seq::<Parsed>::empty()) + canonical_forest(m@.inner, bytes)
                =~= canonical_forest(m@.inner, bytes));
            assert(item@ == canonical_node(spans[i as int], bytes));
        }
        items.push(item);
        proof {
            assert(nodes_view(items@) =~= sofar.push(item@));
            assert(canonical_forest(spans, bytes).take(i + 1) =~= canonical_forest(
                spans,
                bytes,
            ).take(i as int).push(canonical_node(spans[i as int], bytes)));
        }
        i += 1;
    }
    proof {
        assert(canonical_forest(spans, bytes).take(i as int) =~= canonical_forest(spans, bytes));
    }
}

/// The text between two cuts is the text up to a cut between them,
/// followed by the text from there on.
pub proof fn lemma_text_between_split(bytes: Seq<u8>, from: int, mid: int, to: int)
    requires
        valid_utf8(bytes),
        from <= mid <= to,
        cut(bytes, from),
        cut(bytes, mid),
        cut(bytes, to),
    ensures
        text_between(bytes, from, to) == text_between(bytes, from, mid) + text_between(
            bytes,
            mid,
            to,
        ),
{
    let head = bytes.subrange(0, to);
    valid_utf8_split(bytes, to);
    if from < to {
        is_char_boundary_iff_not_is_continuation_byte(bytes, from);
        is_char_boundary_iff_not_is_continuation_byte(head, from);
    } else {
        is_char_boundary_start_end_of_seq(head);
    }
    let part = head.subrange(from, to);
    valid_utf8_split(head, from);
    assert(part =~= bytes.subrange(from, to));
    if from < mid < to {
        is_char_boundary_iff_not_is_continuation_byte(bytes, mid);
        is_char_boundary_iff_not_is_continuation_byte(part, mid - from);
    } else {
        is_char_boundary_start_end_of_seq(part);
    }
    decode_utf8_split(part, mid - from);
    assert(part.subrange(0, mid - from) =~= bytes.subrange(from, mid));
    assert(part.subrange(mid - from, part.len() as int) =~= bytes.subrange(mid, to));
}

/// Where in the text of a match the text of a match nested in it begins.
pub open spec fn offset_within(outer: Span, inner: Span, bytes: Seq<u8>) -> int {
    text_between(bytes, outer.start, inner.start).len() as int
}

/// `offsets` places the text of every child inside the text of `node`, one
/// child after the other from left to right, without overlap.
pub open spec fn placed(node: NodeView, offsets: Seq<int>) -> bool {
    &&& offsets.len() == node.children.len()
    &&& forall|i: int|
        0 <= i < node.children.len() ==> {
            &&& 0 <= #[trigger] offsets[i]
            &&& offsets[i] + node.children[i].text.len() <= node.text.len()
            &&& node.text.subrange(offsets[i], offsets[i] + node.children[i].text.len())
                == node.children[i].text
        }
    &&& forall|i: int, j: int|
        #![trigger offsets[i], offsets[j]]
        0 <= i < j < node.children.len() ==> offsets[i] + node.children[i].text.len()
            <= offsets[j]
}

/// The text of every child of `node` is a part of the text of `node`, the
/// parts follow one another in the order of the children, and the same holds
/// of every node below.
pub open spec fn contained(node: NodeView) -> bool
    decreases node,
{
    &&& exists|offsets: Seq<int>| placed(node, offsets)
    &&& forall|i: int| 0 <= i < node.children.len() ==> contained(#[trigger] node.children[i])
}

/// The canonical node of a match whose inner matches are nested in it holds
/// the text of every child as a part of its own text, in order, and so does
/// every node below it.
pub proof fn lemma_canonical_contained(span: Span, bytes: Seq<u8>)
    requires
        valid_utf8(bytes),
        span.start <= span.end,
        cut(bytes, span.start),
        cut(bytes, span.end),
        nested_within(span.inner, span.start, span.end, bytes),
    ensures
        contained(canonical_node(span, bytes)),
    decreases span,
{
    let node = canonical_node(span, bytes);
    let offsets = Seq::new(span.inner.len(), |i: int| offset_within(span, span.inner[i], bytes));
    assert(node.children == canonical_forest(span.inner, bytes));
    assert forall|i: int| 0 <= i < span.inner.len() implies #[trigger] node.children[i]
        == canonical_node(span.inner[i], bytes) && node.children[i].text == text_between(
        bytes,
        span.inner[i].start,
        span.inner[i].end,
    ) by {}
    assert forall|i: int| 0 <= i < node.children.len() implies {
        &&& 0 <= #[trigger] offsets[i]
        &&& offsets[i] + node.children[i].text.len() <= node.text.len()
        &&& node.text.subrange(offsets[i], offsets[i] + node.children[i].text.len())
            == node.children[i].text
    } by {
        let child = span.inner[i];
        lemma_text_between_split(bytes, span.start, child.start, span.end);
        lemma_text_between_split(bytes, child.start, child.end, span.end);
        let before = text_between(bytes, span.start, child.start);
        let within = text_between(bytes, child.start, child.end);
        let after = text_between(bytes, child.end, span.end);
        assert(node.text == before + (within + after));
        assert(node.children[i].text == within);
        assert((before + (within + after)).subrange(
            before.len() as int,
            (before.len() + within.len()) as int,
        ) =~= within);
    }
    assert forall|i: int, j: int|
        #![trigger offsets[i], offsets[j]]
        0 <= i < j < node.children.len() implies offsets[i] + node.children[i].text.len()
        <= offsets[j] by {
        let left = span.inner[i];
        let right = span.inner[j];
        assert(node.children[i].text == text_between(bytes, left.start, left.end));
        lemma_text_between_split(bytes, span.start, left.start, left.end);
        lemma_text_between_split(bytes, span.start, left.end, right.start);
    }
    assert(placed(node, offsets));
    assert forall|i: int| 0 <= i < node.children.len() implies contained(
        #[trigger] node.children[i],
    ) by {
        lemma_canonical_contained(span.inner[i], bytes);
    }
}

/// Every canonical node of a derivation holds the texts of its children as
/// parts of its own text, in order.
pub proof fn lemma_forest_contained(forest: Seq<Span>, lo: int, hi: int, bytes: Seq<u8>)
    requires
        valid_utf8(bytes),
        nested_within(forest, lo, hi, bytes),
    ensures
        forall|i: int|
            0 <= i < forest.len() ==> contained(#[trigger] canonical_forest(forest, bytes)[i]),
{
    assert forall|i: int| 0 <= i < forest.len() implies contained(
        #[trigger] canonical_forest(forest, bytes)[i],
    ) by {
        lemma_canonical_contained(forest[i], bytes);
    }
}

} // verus!
