//! The revision self-check. A revision is written as a statement of Quelle
//! and parsed like any other; it is confirmed only where the grammar matches
//! that statement as a revision assertion and as nothing else. Two encodings
//! of a revision are served, each by a function of its own: the short one,
//! sixteen bits written as four hexadecimal digits, and the structured one,
//! a decimal number that holds major, minor, year, month and day.

use vstd::arithmetic::div_mod::{lemma_div_denominator, lemma_fundamental_div_mod};
use vstd::prelude::*;
use vstd::string::*;
use vstd::utf8::*;
use crate::engine::OutcomeView;
use crate::envelope::{get_parse, parse_result_of, ParseResult, ParseResultView};
use crate::tree::{lemma_node_view, nodes_view};

verus! {

/// The revision that identifies this build of the library.
pub const LIBRARY_REVISION: u16 = 0x4407;

/// Returns the revision of this build; no statement is parsed for it.
pub fn get_library_revision() -> (revision: u16)
    ensures
        revision == LIBRARY_REVISION,
{
    LIBRARY_REVISION
}

/// The digits by their value, for every base up to sixteen.
pub const DIGITS: &'static str = "0123456789ABCDEF";

/// The codes of the months by their number: one character each, the
/// letters A, B and C for October to December, and X for the number zero,
/// which is no month.
pub const MONTH_CODES: &'static str = "X123456789ABC";

/// The digit that stands for `value`, which is below sixteen.
pub open spec fn digit(value: int) -> Seq<char> {
    DIGITS@.subrange(value, value + 1)
}

/// A number in decimal writing, without leading zeros.
pub open spec fn decimal(value: nat) -> Seq<char>
    decreases value,
{
    if value < 10 {
        digit(value as int)
    } else {
        decimal(value / 10) + digit(value as int % 10)
    }
}

/// A number in decimal writing, in two digits at least.
pub open spec fn two_digits(value: nat) -> Seq<char> {
    if value < 10 {
        digit(0) + digit(value as int)
    } else {
        decimal(value)
    }
}

/// The code of a month: that of [`MONTH_CODES`] up to twelve, and X for
/// every greater number.
pub open spec fn month_code(month: int) -> Seq<char> {
    if 0 <= month <= 12 {
        MONTH_CODES@.subrange(month, month + 1)
    } else {
        MONTH_CODES@.subrange(0, 1)
    }
}

/// A revision of the short encoding in writing: four hexadecimal digits,
/// upper case, the most significant first.
pub open spec fn hex_text(revision: u16) -> Seq<char> {
    digit(revision as int / 4096) + digit(revision as int / 256 % 16) + digit(
        revision as int / 16 % 16,
    ) + digit(revision as int % 16)
}

/// The statement that asserts a revision of the short encoding.
pub open spec fn hex_statement(revision: u16) -> Seq<char> {
    "_AVX_REV_ =? "@ + hex_text(revision)
}

/// The parts of a revision of the structured encoding.
#[derive(Clone, Copy, Debug, PartialEq, Eq)]
pub struct Parts {
    pub major: u32,
    pub minor: u32,
    pub year: u32,
    pub month: u32,
    pub day: u32,
}

/// The parts that a revision of the structured encoding holds: the revision
/// is `major * 1_000_000 + minor * 100_000 + year * 10_000 + month * 100 +
/// day`, with minor and year below ten and month and day below a hundred.
pub open spec fn parts_of(revision: u32) -> Parts {
    Parts {
        major: revision / 1_000_000,
        minor: revision / 100_000 % 10,
        year: revision / 10_000 % 10,
        month: revision / 100 % 100,
        day: revision % 100,
    }
}

/// A revision of the structured encoding is put together again from its
/// parts, and minor and year are single digits, month and day below a
/// hundred.
pub proof fn lemma_parts_compose(revision: u32)
    ensures
        parts_of(revision).major * 1_000_000 + parts_of(revision).minor * 100_000 + parts_of(
            revision,
        ).year * 10_000 + parts_of(revision).month * 100 + parts_of(revision).day == revision,
        parts_of(revision).minor <= 9,
        parts_of(revision).year <= 9,
        parts_of(revision).month <= 99,
        parts_of(revision).day <= 99,
{
    let whole = revision as int;
    let above_day = whole / 100;
    let above_month = above_day / 100;
    let above_year = above_month / 10;
    lemma_div_denominator(whole, 100, 100);
    lemma_div_denominator(whole, 10_000, 10);
    lemma_div_denominator(whole, 100_000, 10);
    assert(above_month == whole / 10_000);
    assert(above_year == whole / 100_000);
    assert(above_year / 10 == whole / 1_000_000);
    lemma_fundamental_div_mod(whole, 100);
    lemma_fundamental_div_mod(above_day, 100);
    lemma_fundamental_div_mod(above_month, 10);
    lemma_fundamental_div_mod(above_year, 10);
}

impl Parts {
    /// The parts that can belong to a revision of the grammar: major from 1
    /// to 9, minor up to 9, year from 3 to 9, month from 1 to 12, day from 1
    /// to 31.
    pub open spec fn in_range(self) -> bool {
        &&& 1 <= self.major <= 9
        &&& self.minor <= 9
        &&& 3 <= self.year <= 9
        &&& 1 <= self.month <= 12
        &&& 1 <= self.day <= 31
    }

    /// The parts in writing: major, minor and year in decimal, each
    /// followed by a dot, then the code of the month and the day in two
    /// digits.
    pub open spec fn text(self) -> Seq<char> {
        decimal(self.major as nat) + "."@ + decimal(self.minor as nat) + "."@ + decimal(
            self.year as nat,
        ) + "."@ + month_code(self.month as int) + two_digits(self.day as nat)
    }
}

/// The statement that asserts a revision of the structured encoding.
pub open spec fn dotted_statement(parts: Parts) -> Seq<char> {
    "_AVX_REV_ := "@ + parts.text()
}

/// Whether a parse result confirms a revision: the statement was parsed
/// without error into exactly one node of the rule `statement`, and that
/// node holds exactly one node, of the rule `avx_rev`.
pub open spec fn confirms(parsed: ParseResultView) -> bool {
    &&& parsed.error.len() == 0
    &&& parsed.parse.len() == 1
    &&& parsed.parse[0].rule == "statement"@
    &&& parsed.parse[0].children.len() == 1
    &&& parsed.parse[0].children[0].rule == "avx_rev"@
}

/// Returns the digit that stands for `value`.
fn digit_of(value: usize) -> (text: &'static str)
    requires
        value < 16,
    ensures
        text@ == digit(value as int),
{
    proof {
        reveal_strlit("0123456789ABCDEF");
    }
    DIGITS.substring_ascii(value, value + 1)
}

/// Returns the code of a month.
fn month_code_of(month: u32) -> (text: &'static str)
    ensures
        text@ == month_code(month as int),
{
    proof {
        reveal_strlit("X123456789ABC");
    }
    if month <= 12 {
        MONTH_CODES.substring_ascii(month as usize, month as usize + 1)
    } else {
        MONTH_CODES.substring_ascii(0, 1)
    }
}

/// Writes a number in decimal.
pub fn decimal_of(value: u32) -> (text: String)
    ensures
        text@ == decimal(value as nat),
    decreases value,
{
    if value < 10 {
        digit_of(value as usize).to_owned()
    } else {
        let mut text = decimal_of(value / 10);
        text.append(digit_of((value % 10) as usize));
        text
    }
}

/// Writes a number in decimal, in two digits at least.
pub fn two_digits_of(value: u32) -> (text: String)
    ensures
        text@ == two_digits(value as nat),
{
    if value < 10 {
        let mut text = digit_of(0).to_owned();
        text.append(digit_of(value as usize));
        text
    } else {
        decimal_of(value)
    }
}

/// Writes the statement that asserts a revision of the short encoding.
pub fn hex_statement_of(revision: u16) -> (statement: String)
    ensures
        statement@ == hex_statement(revision),
{
    let value: usize = revision as usize;
    let mut statement = "_AVX_REV_ =? ".to_owned();
    statement.append(digit_of(value / 4096));
    statement.append(digit_of(value / 256 % 16));
    statement.append(digit_of(value / 16 % 16));
    statement.append(digit_of(value % 16));
    proof {
        assert(statement@ =~= hex_statement(revision));
    }
    statement
}

/// Reads the parts out of a revision of the structured encoding.
pub fn split_revision(revision: u32) -> (parts: Parts)
    ensures
        parts == parts_of(revision),
{
    Parts {
        major: revision / 1_000_000,
        minor: revision / 100_000 % 10,
        year: revision / 10_000 % 10,
        month: revision / 100 % 100,
        day: revision % 100,
    }
}

/// Tells whether the parts can belong to a revision of the grammar.
pub fn parts_in_range(parts: &Parts) -> (ok: bool)
    ensures
        ok == parts.in_range(),
{
    1 <= parts.major && parts.major <= 9 && parts.minor <= 9 && 3 <= parts.year && parts.year <= 9
        && 1 <= parts.month && parts.month <= 12 && 1 <= parts.day && parts.day <= 31
}

/// Writes the statement that asserts a revision of the structured encoding.
pub fn dotted_statement_of(parts: &Parts) -> (statement: String)
    ensures
        statement@ == dotted_statement(*parts),
{
    let mut statement = "_AVX_REV_ := ".to_owned();
    statement.append(decimal_of(parts.major).as_str());
    statement.append(".");
    statement.append(decimal_of(parts.minor).as_str());
    statement.append(".");
    statement.append(decimal_of(parts.year).as_str());
    statement.append(".");
    statement.append(month_code_of(parts.month));
    statement.append(two_digits_of(parts.day).as_str());
    proof {
        assert(statement@ =~= dotted_statement(*parts));
    }
    statement
}

/// Writes the statement that is parsed for a revision of the structured
/// encoding. There is one exactly for a revision whose parts are all in
/// range; for every other revision nothing is written, so nothing is handed
/// to the grammar.
pub fn structured_statement_of(revision: u32) -> (statement: Option<String>)
    ensures
        statement is Some <==> parts_of(revision).in_range(),
        statement matches Some(text) ==> text@ == dotted_statement(parts_of(revision)),
{
    let parts = split_revision(revision);
    if parts_in_range(&parts) {
        Some(dotted_statement_of(&parts))
    } else {
        None
    }
}

/// Tells whether a parse result confirms a revision.
pub fn confirms_revision(parsed: &ParseResult) -> (ok: bool)
    ensures
        ok == confirms(parsed@),
{
    if !parsed.error.as_str().is_empty() || parsed.parse.len() != 1 {
        return false;
    }
    let top = &parsed.parse[0];
    proof {
        lemma_node_view(*top);
        assert(parsed@.parse[0] == top@);
    }
    if top.children.len() != 1 {
        return false;
    }
    let child = &top.children[0];
    proof {
        assert(top@.children[0] == child@);
    }
    let statement = "statement".to_owned();
    let avx_rev = "avx_rev".to_owned();
    top.rule == statement && child.rule == avx_rev
}

/// The answer of the self-check to a revision of the short encoding, given
/// what the engine returned for the statement of the revision: the revision
/// where the parse result confirms it, and zero in every other case.
pub open spec fn short_answer(ymdd: u16, outcome: Option<OutcomeView>) -> u16 {
    if confirms(parse_result_of(outcome, hex_statement(ymdd))) {
        ymdd
    } else {
        0
    }
}

/// The answer of the self-check to a revision of the structured encoding,
/// given what the engine would return for the statement of the revision:
/// zero for a revision with a part out of range, whatever the engine would
/// return; else the revision where the parse result confirms it, and zero in
/// every other case.
pub open spec fn structured_answer(revision: u32, outcome: Option<OutcomeView>) -> u32 {
    if parts_of(revision).in_range() && confirms(
        parse_result_of(outcome, dotted_statement(parts_of(revision))),
    ) {
        revision
    } else {
        0
    }
}

/// A revision of the structured encoding with a part out of range is
/// answered with zero, whatever the engine would make of it.
pub proof fn lemma_out_of_range_rejected(revision: u32, outcome: Option<OutcomeView>)
    requires
        !parts_of(revision).in_range(),
    ensures
        structured_answer(revision, outcome) == 0,
{
}

/// A revision of the structured encoding whose year lies below the least
/// year is answered with zero, whatever the engine would make of it.
pub proof fn lemma_year_below_minimum_rejected(revision: u32, outcome: Option<OutcomeView>)
    requires
        revision / 10_000 % 10 < 3,
    ensures
        structured_answer(revision, outcome) == 0,
{
}

/// Checks a revision of the short encoding against the grammar: returns the
/// revision where parsing its statement confirms it, and zero in every
/// other case. What the grammar engine makes of the statement is not known
/// here, so the result is stated over every outcome of it.
pub fn assert_grammar_revision_internal(ymdd: u16) -> (revision: u16)
    ensures
        exists|outcome: Option<OutcomeView>| revision == #[trigger] short_answer(ymdd, outcome),
{
    let statement = hex_statement_of(ymdd);
    let parsed = get_parse(statement.as_str());
    let holds = confirms_revision(&parsed);
    proof {
        let outcome = choose|outcome: Option<OutcomeView>|
            parsed@ == #[trigger] parse_result_of(outcome, statement@);
        assert(short_answer(ymdd, outcome) == if holds {
            ymdd
        } else {
            0
        });
    }
    if holds {
        ymdd
    } else {
        0
    }
}

/// Checks a revision of the structured encoding against the grammar. A
/// revision with a part out of range has no statement and is answered with
/// zero; the grammar is not asked. Else the revision is returned where
/// parsing its statement confirms it, and zero in every other case.
pub fn assert_structured_revision_internal(revision: u32) -> (confirmed: u32)
    ensures
        exists|outcome: Option<OutcomeView>|
            confirmed == #[trigger] structured_answer(revision, outcome),
        !parts_of(revision).in_range() ==> confirmed == 0,
{
    match structured_statement_of(revision) {
        None => {
            proof {
                assert(structured_answer(revision, None) == 0);
            }
            0
        },
        Some(statement) => {
            let parsed = get_parse(statement.as_str());
            let holds = confirms_revision(&parsed);
            proof {
                let outcome = choose|outcome: Option<OutcomeView>|
                    parsed@ == #[trigger] parse_result_of(outcome, statement@);
                assert(structured_answer(revision, outcome) == if holds {
                    revision
                } else {
                    0
                });
            }
            if holds {
                revision
            } else {
                0
            }
        },
    }
}

} // verus!
