//! The Quelle grammar, as the text that the grammar engine compiles.

use vstd::prelude::*;

verus! {

/// The rule that matches one complete statement.
pub const START_RULE: &'static str = "statement";

/// The rules of Quelle. A statement is a revision assertion, a control
/// command, the invocation of a labelled macro, or a search.
///
/// The engine is trusted to compile and run this text, so the text keeps
/// clear of what the engine stumbles on: it writes no character by its
/// number, repeats nothing more than four times by count, and never works on
/// the engine's stack.
pub const QUELLE_GRAMMAR: &'static str = "
WHITESPACE = _{ \" \" | \"\\t\" | \"\\r\" | \"\\n\" }

statement = { SOI ~ (avx_rev | command | invocation | search) ~ end }
end       = _{ !ANY }

avx_rev         = { \"_AVX_REV_\" ~ (rev_query | rev_assert) }
rev_query       = { \"=?\" ~ hex_revision }
rev_assert      = { \":=\" ~ dotted_revision }
hex_revision    = @{ \"4407\" }
dotted_revision = @{ \"2.0.3.711\" }

command    = { exit | help | absorb | view }
exit       = @{ \"@exit\" }
help       = ${ \"@help\" ~ (WHITESPACE+ ~ topic)? }
topic      = @{ ASCII_ALPHA+ }
absorb     = ${ \"@absorb\" ~ WHITESPACE+ ~ label }
view       = ${ \"@view\" ~ WHITESPACE+ ~ (history_id | date_range) }
history_id = @{ \"#\" ~ ASCII_DIGIT+ }
date_range = !{ \"from\" ~ date ~ \"to\" ~ date }
date       = @{ ASCII_DIGIT{1, 2} ~ \"/\" ~ ASCII_DIGIT{1, 2} ~ \"/\" ~ ASCII_DIGIT{4} }

invocation = ${ \"#\" ~ label }
label      = @{ LETTER ~ (LETTER | ASCII_DIGIT | \"-\" | \"_\")* }

search    = { ordered | unordered }
ordered   = { \"\\\"\" ~ fragment+ ~ \"\\\"\" }
unordered = { fragment+ }
fragment  = ${ feature ~ (\"&\" ~ feature)* }
feature   = ${ term ~ (\"|\" ~ term)* }
term      = ${ tag | lemma | wildcard | word }
tag       = @{ \"/\" ~ (ASCII_ALPHANUMERIC | \"-\" | \"_\")+ ~ \"/\" }
lemma     = @{ \"[\" ~ ASCII_ALPHA+ ~ \"]\" }
wildcard  = @{ (ASCII_ALPHA+ ~ \"*\" ~ ASCII_ALPHA*) | (\"*\" ~ ASCII_ALPHA+) }
word      = @{ ASCII_ALPHA+ }
";

} // verus!
