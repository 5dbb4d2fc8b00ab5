//! Rule identifiers. The engine may label a match with the rule's name
//! followed by a parenthesised annotation; the canonical identifier is the
//! name alone.

use vstd::prelude::*;
use vstd::string::*;

verus! {

/// The index of the first `(` in `label`, or its length where it has none.
pub open spec fn suffix_start(label: Seq<char>) -> int
    decreases label.len(),
{
    if label.len() == 0 || label[0] == '(' {
        0
    } else {
        1 + suffix_start(label.drop_first())
    }
}

/// The canonical identifier of a label: what stands before its first `(`.
/// A label without `(`, or with `(` as its first character, is kept whole.
pub open spec fn canonical_rule(label: Seq<char>) -> Seq<char> {
    if suffix_start(label) > 0 {
        label.take(suffix_start(label))
    } else {
        label
    }
}

/// `suffix_start` lies inside the label, no `(` stands before it, and one
/// stands at it unless it is the label's end.
pub proof fn lemma_suffix_start(label: Seq<char>)
    ensures
        0 <= suffix_start(label) <= label.len(),
        forall|i: int| 0 <= i < suffix_start(label) ==> label[i] != '(',
        suffix_start(label) < label.len() ==> label[suffix_start(label)] == '(',
    decreases label.len(),
{
    if label.len() == 0 || label[0] == '(' {
    } else {
        let rest = label.drop_first();
        lemma_suffix_start(rest);
        assert forall|i: int| 0 <= i < suffix_start(label) implies label[i] != '(' by {
            if i > 0 {
                assert(label[i] == rest[i - 1]);
            }
        }
        if suffix_start(label) < label.len() {
            assert(label[suffix_start(label)] == rest[suffix_start(rest)]);
        }
    }
}

/// The first position that holds `(`, or the end of a label without one, is
/// `suffix_start`.
pub proof fn lemma_suffix_start_is(label: Seq<char>, at: int)
    requires
        0 <= at <= label.len(),
        forall|i: int| 0 <= i < at ==> label[i] != '(',
        at < label.len() ==> label[at] == '(',
    ensures
        suffix_start(label) == at,
{
    lemma_suffix_start(label);
    let found = suffix_start(label);
    if found < at {
        assert(label[found] == '(');
    } else if at < found {
        assert(label[at] == '(');
    }
}

/// Canonical identifiers are fixed points: stripping one again changes
/// nothing.
pub proof fn lemma_canonical_rule_idempotent(label: Seq<char>)
    ensures
        canonical_rule(canonical_rule(label)) == canonical_rule(label),
{
    lemma_suffix_start(label);
    let at = suffix_start(label);
    if at > 0 {
        let name = label.take(at);
        assert forall|i: int| 0 <= i < at implies name[i] != '(' by {
            assert(name[i] == label[i]);
        }
        lemma_suffix_start_is(name, at);
        assert(name.take(at) =~= name);
    }
}

/// A canonical identifier holds no `(`, unless the label began with one.
pub proof fn lemma_canonical_rule_plain(label: Seq<char>)
    requires
        label.len() > 0 ==> label[0] != '(',
    ensures
        forall|i: int| 0 <= i < canonical_rule(label).len() ==> canonical_rule(label)[i] != '(',
{
    lemma_suffix_start(label);
}

/// Strips the annotation from a label: returns what stands before its first
/// `(`, and the whole label where it has no `(` or begins with one.
pub fn canonical_rule_of(label: &str) -> (name: String)
    ensures
        name@ == canonical_rule(label@),
{
    let len = label.unicode_len();
    let mut at: usize = 0;
    while at < len && label.get_char(at) != '('
        invariant
            0 <= at <= len,
            len == label@.len(),
            forall|i: int| 0 <= i < at ==> label@[i] != '(',
        decreases len - at,
    {
        at += 1;
    }
    proof {
        lemma_suffix_start_is(label@, at as int);
    }
    if at > 0 {
        label.substring_char(0, at).to_owned()
    } else {
        label.to_owned()
    }
}

} // verus!
