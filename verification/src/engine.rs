//! The grammar engine. The rules of the Quelle grammar are compiled and run
//! by the `pest` crates; this module is the only place that calls them. The
//! engine is handed no other grammar: on some texts it panics, and the text
//! of the Quelle grammar is none of them. What the engine returns is handed
//! on as plain values, and nothing is assumed of it beyond what is stated
//! here.

use vstd::prelude::*;
use pest_meta::optimizer::OptimizedRule;
use pest_vm::Vm;
use crate::derivation::{tokens_view, Token, TokenView};
use crate::grammar::QUELLE_GRAMMAR;

verus! {

/// A rule of a grammar in the form that the engine runs. Opaque here.
#[verifier::external_type_specification]
#[verifier::external_body]
pub struct ExOptimizedRule(OptimizedRule);

/// The machine that runs the rules of a grammar. Opaque here.
#[verifier::external_type_specification]
#[verifier::external_body]
pub struct ExVm(Vm);

/// Holds where `pest_meta` has accepted the text `grammar` and `rules` are
/// the rules that it made of it. Rules that it accepts refer to no rule that
/// is neither among them nor built into the engine.
pub uninterp spec fn compiled_from(rules: Seq<OptimizedRule>, grammar: Seq<char>) -> bool;

/// The name under which a rule is defined.
pub uninterp spec fn rule_name(rule: OptimizedRule) -> Seq<char>;

/// Holds where the machine `vm` was made from the list `rules`. The machine
/// keeps the rules of the list by their names: it holds no order, and of
/// two rules with one name only the later.
pub uninterp spec fn made_from(vm: Vm, rules: Seq<OptimizedRule>) -> bool;

/// Whether one of `rules` is defined under `name`.
pub open spec fn defines(rules: Seq<OptimizedRule>, name: Seq<char>) -> bool {
    exists|i: int| 0 <= i < rules.len() && rule_name(#[trigger] rules[i]) == name
}

/// Whether a grammar is admitted, given what the engine made of the text of
/// the Quelle grammar: the engine returned rules for it, and one of them is
/// defined under `start`. `None` stands for a text that the engine did not
/// accept.
pub open spec fn admitted(rules: Option<Seq<OptimizedRule>>, start: Seq<char>) -> bool {
    &&& rules matches Some(list)
    &&& defines(list, start)
}

/// The view of the rules that the engine returned, where it returned any.
pub open spec fn rules_view(rules: Option<Vec<OptimizedRule>>) -> Option<Seq<OptimizedRule>> {
    match rules {
        Some(list) => Some(list@),
        None => None,
    }
}

/// Rules that the engine can run from the rule `start`: they are rules of
/// the Quelle grammar, and they define `start`.
pub open spec fn runnable(rules: Seq<OptimizedRule>, start: Seq<char>) -> bool {
    &&& defines(rules, start)
    &&& compiled_from(rules, QUELLE_GRAMMAR@)
}

/// What the engine made of an input: the derivation that it matched, as its
/// token stream and in the engine's own rendering, or the message with which
/// it rejected the input.
#[derive(Debug, PartialEq, Eq)]
pub enum Outcome {
    Matched { tokens: Vec<Token>, rendering: String },
    Rejected { message: String },
}

/// The mathematical value of an [`Outcome`].
pub enum OutcomeView {
    Matched { tokens: Seq<TokenView>, rendering: Seq<char> },
    Rejected { message: Seq<char> },
}

impl View for Outcome {
    type V = OutcomeView;

    open spec fn view(&self) -> OutcomeView {
        match self {
            Outcome::Matched { tokens, rendering } => OutcomeView::Matched {
                tokens: tokens_view(tokens@),
                rendering: rendering@,
            },
            Outcome::Rejected { message } => OutcomeView::Rejected { message: message@ },
        }
    }
}

impl OutcomeView {
    /// A derivation that the engine matched comes with a rendering, which is
    /// never empty: it is enclosed in brackets.
    pub open spec fn rendered(self) -> bool {
        self matches OutcomeView::Matched { rendering, .. } ==> rendering.len() > 0
    }
}

/// The view of what the engine returned, where there was an engine.
pub open spec fn outcome_view(outcome: Option<Outcome>) -> Option<OutcomeView> {
    match outcome {
        Some(o) => Some(o@),
        None => None,
    }
}

/// Calls `pest_meta::parse_and_optimize` on the text of a grammar and keeps
/// the rules. The call panics on some texts: on an escape `\u{..}` that
/// names no character, on a repetition count at the limit of its type, on
/// a slice of the stack with a bound beyond its type. So the text must be
/// that of the Quelle grammar, which holds no such escape, no count above
/// four and no word that works on the stack. Believed of the call: rules
/// that it returns are those of a text that it has accepted. Nothing is
/// claimed of whether it accepts the text.
#[verifier::external_body]
fn optimize(grammar: &str) -> (rules: Option<Vec<OptimizedRule>>)
    requires
        grammar@ == QUELLE_GRAMMAR@,
    ensures
        rules matches Some(list) ==> compiled_from(list@, grammar@),
{
    pest_meta::parse_and_optimize(grammar).ok().map(|(_, rules)| rules)
}

/// Reads the field `name` of a rule.
#[verifier::external_body]
fn name_of(rule: &OptimizedRule) -> (name: String)
    ensures
        name@ == rule_name(*rule),
{
    rule.name.clone()
}

/// Calls `pest_vm::Vm::new`. Believed of it: the machine that it returns
/// was made from the list that it was given.
#[verifier::external_body]
fn load(rules: Vec<OptimizedRule>) -> (vm: Vm)
    ensures
        made_from(vm, rules@),
{
    Vm::new(rules)
}

/// Calls `pest_vm::Vm::parse` and turns what it returns into plain values:
/// the tokens of the pairs and their rendering with rules and positions, or
/// the text of the error. The call panics on a rule that the machine does
/// not know and on a rule that peeks into or pops from the engine's stack
/// while it is empty, and rules that work on the stack may repeat for ever;
/// so the machine must have been made from rules of the Quelle grammar,
/// which leaves the stack alone, and they must define `rule`. Believed of
/// the call: the rendering of pairs is never empty, since it is written
/// between two brackets. Nothing else is claimed of the outcome: beyond the
/// rules and the input it depends on the native stack that is left and on
/// the limits that the process has set for the engine.
#[verifier::external_body]
fn run(vm: &Vm, rule: &str, input: &str) -> (outcome: Outcome)
    requires
        exists|rules: Seq<OptimizedRule>|
            #[trigger] made_from(*vm, rules) && runnable(rules, rule@),
    ensures
        outcome@.rendered(),
{
    match vm.parse(rule, input) {
        Ok(pairs) => Outcome::Matched {
            rendering: format!("{:#}", pairs),
            tokens: pairs.tokens().map(|token| match token {
                pest::Token::Start { rule, pos } => {
                    Token::Start { rule: rule.to_string(), pos: pos.pos() }
                },
                pest::Token::End { rule, pos } => {
                    Token::End { rule: rule.to_string(), pos: pos.pos() }
                },
            }).collect(),
        },
        Err(error) => Outcome::Rejected { message: error.to_string() },
    }
}

/// The compiled Quelle grammar together with the rule at which matching
/// starts. It remembers the list of rules that its machine was made from.
pub struct Grammar {
    vm: Vm,
    start: String,
    given: Ghost<Seq<OptimizedRule>>,
}

impl Grammar {
    /// The machine of a grammar was always made from rules of the Quelle
    /// grammar that define its start rule.
    #[verifier::type_invariant]
    spec fn ready(self) -> bool {
        made_from(self.vm, self.given@) && runnable(self.given@, self.start@)
    }

    /// The rule at which matching starts.
    pub closed spec fn start_rule(self) -> Seq<char> {
        self.start@
    }

    /// Whether the grammar was made from the list `rules`.
    pub closed spec fn made_of(self, rules: Seq<OptimizedRule>) -> bool {
        self.given@ == rules
    }

    /// Makes a grammar of what the engine made of the text of the Quelle
    /// grammar, where the grammar is admitted: the engine returned rules,
    /// and one of them is defined under `start`. The grammar is then made
    /// from those rules and starts at `start`.
    pub fn from_rules(rules: Option<Vec<OptimizedRule>>, start: &str) -> (grammar: Option<Grammar>)
        requires
            rules matches Some(list) ==> compiled_from(list@, QUELLE_GRAMMAR@),
        ensures
            grammar is Some <==> admitted(rules_view(rules), start@),
            grammar matches Some(g) ==> {
                &&& g.start_rule() == start@
                &&& rules matches Some(list)
                &&& g.made_of(list@)
            },
    {
        match rules {
            None => None,
            Some(list) => {
                let start = start.to_owned();
                let mut found = false;
                let mut i: usize = 0;
                while i < list.len()
                    invariant
                        0 <= i <= list.len(),
                        found ==> defines(list@, start@),
                        !found ==> forall|k: int|
                            0 <= k < i ==> rule_name(#[trigger] list@[k]) != start@,
                    decreases list.len() - i,
                {
                    let name = name_of(&list[i]);
                    if name == start {
                        found = true;
                    }
                    i += 1;
                }
                if found {
                    let given = Ghost(list@);
                    let vm = load(list);
                    Some(Grammar { vm, start, given })
                } else {
                    None
                }
            },
        }
    }

    /// Compiles the Quelle grammar for matching from the rule `start`: hands
    /// its text to the engine and makes a grammar of what the engine
    /// returned. Whether the engine accepts the text is not known here;
    /// whatever it made of it, a grammar is returned exactly where that is
    /// admitted, and it is made from the rules that the engine returned.
    pub fn compile(start: &str) -> (grammar: Option<Grammar>)
        ensures
            exists|rules: Option<Seq<OptimizedRule>>|
                {
                    &&& rules matches Some(list) ==> compiled_from(list, QUELLE_GRAMMAR@)
                    &&& grammar is Some <==> #[trigger] admitted(rules, start@)
                    &&& grammar matches Some(g) ==> {
                        &&& g.start_rule() == start@
                        &&& rules matches Some(list)
                        &&& g.made_of(list)
                    }
                },
    {
        let rules = optimize(QUELLE_GRAMMAR);
        let grammar = Grammar::from_rules(rules, start);
        proof {
            assert(grammar is Some <==> admitted(rules_view(rules), start@));
        }
        grammar
    }

    /// Matches `input` against the start rule of the grammar. What the
    /// engine makes of the input is not known here, but for this: a
    /// derivation that it matched comes with a rendering that is not empty.
    pub fn parse(&self, input: &str) -> (outcome: Outcome)
        ensures
            outcome@.rendered(),
    {
        proof {
            use_type_invariant(self);
        }
        run(&self.vm, self.start.as_str(), input)
    }
}

} // verus!
