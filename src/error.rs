//! The rules of the grammar, and errors that parsing reports.
use vstd::prelude::*;

verus! {

/// A rule of the grammar, named in syntax errors as what was expected.
#[allow(non_camel_case_types)]
#[derive(Debug, Clone, Copy, PartialEq, Eq, Hash, PartialOrd, Ord)]
pub enum Rule {
    input,
    statement_set,
    argument,
    statement,
    grouper_opening,
    grouper_closing,
    statement_separator,
    statement_set_opening,
    statement_set_closing,
    conclusion_indicator,
    premise,
    conclusion,
    formula,
    compound_formula,
    atomic_formula,
    simple_predicate,
    simple_statement,
    compound_formula_conjunction,
    compound_formula_negation,
    compound_formula_disjunction,
    compound_formula_conditional,
    complex_statement,
    conjunction_connective,
    negation_connective,
    disjunction_connective,
    conditional_connective,
    existential_statement,
    universal_statement,
    logical_conjunction,
    logical_negation,
    logical_disjunction,
    logical_conditional,
    subscript_number,
    simple_statement_letter_alpha,
    simple_statement_letter,
    singular_statement,
    singular_term_alpha,
    singular_term,
    variable_alpha,
    variable,
    superscript_number,
    predicate_letter_alpha,
    predicate_letter,
    existential_quantifier,
    universal_quantifier,
    EOI,
    WHITESPACE,
}

/// The phrase by which a rule is named in messages.
pub open spec fn rule_phrase(r: Rule) -> Seq<char> {
    match r {
        Rule::input => "input"@,
        Rule::statement_set => "statement set"@,
        Rule::argument => "argument"@,
        Rule::statement => "statement"@,
        Rule::grouper_opening => "grouper opening"@,
        Rule::grouper_closing => "grouper closing"@,
        Rule::statement_separator => "statement separator"@,
        Rule::statement_set_opening => "statement set opening"@,
        Rule::statement_set_closing => "statement set closing"@,
        Rule::conclusion_indicator => "conclusion indicator"@,
        Rule::premise => "premise"@,
        Rule::conclusion => "conclusion"@,
        Rule::formula => "formula"@,
        Rule::compound_formula => "compound formula"@,
        Rule::atomic_formula => "atomic formula"@,
        Rule::simple_predicate => "simple predicate"@,
        Rule::simple_statement => "simple statement"@,
        Rule::compound_formula_conjunction => "conjunction of formulas"@,
        Rule::compound_formula_negation => "negation of a formula"@,
        Rule::compound_formula_disjunction => "disjunction of formulas"@,
        Rule::compound_formula_conditional => "conditional formula"@,
        Rule::complex_statement => "complex statement"@,
        Rule::conjunction_connective => "conjunction connective"@,
        Rule::negation_connective => "negation connective"@,
        Rule::disjunction_connective => "disjunction connective"@,
        Rule::conditional_connective => "conditional connective"@,
        Rule::existential_statement => "existential statement"@,
        Rule::universal_statement => "universal statement"@,
        Rule::logical_conjunction => "logical conjunction"@,
        Rule::logical_negation => "logical negation"@,
        Rule::logical_disjunction => "logical disjunction"@,
        Rule::logical_conditional => "logical conditional"@,
        Rule::subscript_number => "subscript"@,
        Rule::simple_statement_letter_alpha => "simple statement letter"@,
        Rule::simple_statement_letter => "simple statement letter"@,
        Rule::singular_statement => "singular statement"@,
        Rule::singular_term_alpha => "singular term"@,
        Rule::singular_term => "singular term"@,
        Rule::variable_alpha => "variable"@,
        Rule::variable => "variable"@,
        Rule::superscript_number => "degree"@,
        Rule::predicate_letter_alpha => "predicate letter"@,
        Rule::predicate_letter => "predicate letter"@,
        Rule::existential_quantifier => "existential quantifier"@,
        Rule::universal_quantifier => "universal quantifier"@,
        Rule::EOI => "EOI"@,
        Rule::WHITESPACE => "white space"@,
    }
}

} // verus!

verus! {

/// The class of a parse error.
#[derive(Debug, Clone, Copy, PartialEq, Eq, Structural)]
pub enum ParseErrorKind {
    /// The input does not follow the grammar.
    Syntax,
    /// A predicate letter's degree differs from the number of its terms.
    DegreeMismatch,
    /// A predicate names a variable that no enclosing quantifier binds.
    FreeVariable,
}

/// Line and column, from 1, of the character at `at`: each line feed before
/// it starts a new line, so that a carriage return and line feed count once;
/// every other character moves one column on.
pub open spec fn line_col_count(input: Seq<char>, at: int) -> (int, int)
    decreases at,
{
    if at <= 0 {
        (1, 1)
    } else {
        let before = line_col_count(input, at - 1);
        if input[at - 1] == '\n' {
            (before.0 + 1, 1)
        } else {
            (before.0, before.1 + 1)
        }
    }
}

/// The position of the character at `at`, as pest reports it.
pub open spec fn line_col_of(input: Seq<char>, at: int) -> (usize, usize) {
    (line_col_count(input, at).0 as usize, line_col_count(input, at).1 as usize)
}

/// The message that pest renders for a custom error over a span.
pub uninterp spec fn custom_error_text(
    input: Seq<char>,
    start: int,
    end: int,
    message: Seq<char>,
) -> Seq<char>;

/// The message that pest renders for a syntax error at a position.
pub uninterp spec fn parsing_error_text(input: Seq<char>, at: int, expected: Rule) -> Seq<char>;

/// Relies on pest's `Position::line_col`, which walks the characters before
/// the position from (1, 1): a line feed, alone or after a carriage return,
/// goes to the next line, any other character to the next column. The
/// character index is turned into pest's byte position.
#[verifier::external_body]
fn line_col(input: &str, at: usize) -> (r: (usize, usize))
    requires
        at <= input@.len(),
    ensures
        r == line_col_of(input@, at as int),
        r.0 >= 1,
        r.1 >= 1,
{
    let byte = input.char_indices().nth(at).map_or(input.len(), |(b, _)| b);
    pest::Position::new(input, byte).unwrap().line_col()
}

/// Relies on pest's `Error::new_from_span` with a custom message, and on its
/// `Display`, which underlines the span in the input. Character indices are
/// turned into pest's byte positions.
#[verifier::external_body]
fn render_custom_error(input: &str, start: usize, end: usize, message: &str) -> (r: String)
    requires
        start <= end <= input@.len(),
    ensures
        r@ == custom_error_text(input@, start as int, end as int, message@),
{
    let byte = |k: usize| input.char_indices().nth(k).map_or(input.len(), |(b, _)| b);
    let span = pest::Span::new(input, byte(start), byte(end)).unwrap();
    let variant = pest::error::ErrorVariant::<Rule>::CustomError { message: message.to_owned() };
    format!("{}", pest::error::Error::new_from_span(variant, span).renamed_rules(ParseError::renamed_rules))
}

/// Relies on pest's `Error::new_from_pos` with the rule that was expected,
/// its `renamed_rules`, which names that rule by `ParseError::renamed_rules`,
/// and its `Display`.
#[verifier::external_body]
fn render_parsing_error(input: &str, at: usize, expected: Rule) -> (r: String)
    requires
        at <= input@.len(),
    ensures
        r@ == parsing_error_text(input@, at as int, expected),
{
    let byte = input.char_indices().nth(at).map_or(input.len(), |(b, _)| b);
    let variant = pest::error::ErrorVariant::ParsingError { positives: vec![expected], negatives: vec![] };
    let pos = pest::Position::new(input, byte).unwrap();
    format!("{}", pest::error::Error::new_from_pos(variant, pos).renamed_rules(ParseError::renamed_rules))
}

/// An error that parsing reports, be it a syntax error or a semantic one.
///
/// Besides line and column, it holds a message that underlines where the
/// error occurred and says which error it is.
#[derive(Debug)]
pub struct ParseError {
    /// (line, column)
    pub location: (usize, usize),
    pub kind: ParseErrorKind,
    pub decorated_message: String,
}

impl ParseError {
    /// A semantic error over the characters `start..end` of `input`.
    pub fn new_from_custom_error(
        input: &str,
        start: usize,
        end: usize,
        decorated_message: &str,
        kind: ParseErrorKind,
    ) -> (r: ParseError)
        requires
            start <= end <= input@.len(),
        ensures
            r.location == line_col_of(input@, start as int),
            r.location.0 >= 1 && r.location.1 >= 1,
            r.kind == kind,
            r.decorated_message@ == custom_error_text(input@, start as int, end as int, decorated_message@),
    {
        ParseError {
            location: line_col(input, start),
            kind,
            decorated_message: render_custom_error(input, start, end, decorated_message),
        }
    }

    /// A syntax error at character `at` of `input`, where `expected` failed.
    pub fn new_from_parsing_error(input: &str, at: usize, expected: Rule) -> (r: ParseError)
        requires
            at <= input@.len(),
        ensures
            r.location == line_col_of(input@, at as int),
            r.location.0 >= 1 && r.location.1 >= 1,
            r.kind == ParseErrorKind::Syntax,
            r.decorated_message@ == parsing_error_text(input@, at as int, expected),
    {
        ParseError {
            location: line_col(input, at),
            kind: ParseErrorKind::Syntax,
            decorated_message: render_parsing_error(input, at, expected),
        }
    }

    /// The phrase that names a rule in messages.
    pub fn renamed_rules(r: &Rule) -> (s: String)
        ensures
            s@ == rule_phrase(*r),
    {
        let phrase: &str = match r {
            Rule::input => "input",
            Rule::statement_set => "statement set",
            Rule::argument => "argument",
            Rule::statement => "statement",
            Rule::grouper_opening => "grouper opening",
            Rule::grouper_closing => "grouper closing",
            Rule::statement_separator => "statement separator",
            Rule::statement_set_opening => "statement set opening",
            Rule::statement_set_closing => "statement set closing",
            Rule::conclusion_indicator => "conclusion indicator",
            Rule::premise => "premise",
            Rule::conclusion => "conclusion",
            Rule::formula => "formula",
            Rule::compound_formula => "compound formula",
            Rule::atomic_formula => "atomic formula",
            Rule::simple_predicate => "simple predicate",
            Rule::simple_statement => "simple statement",
            Rule::compound_formula_conjunction => "conjunction of formulas",
            Rule::compound_formula_negation => "negation of a formula",
            Rule::compound_formula_disjunction => "disjunction of formulas",
            Rule::compound_formula_conditional => "conditional formula",
            Rule::complex_statement => "complex statement",
            Rule::conjunction_connective => "conjunction connective",
            Rule::negation_connective => "negation connective",
            Rule::disjunction_connective => "disjunction connective",
            Rule::conditional_connective => "conditional connective",
            Rule::existential_statement => "existential statement",
            Rule::universal_statement => "universal statement",
            Rule::logical_conjunction => "logical conjunction",
            Rule::logical_negation => "logical negation",
            Rule::logical_disjunction => "logical disjunction",
            Rule::logical_conditional => "logical conditional",
            Rule::subscript_number => "subscript",
            Rule::simple_statement_letter_alpha => "simple statement letter",
            Rule::simple_statement_letter => "simple statement letter",
            Rule::singular_statement => "singular statement",
            Rule::singular_term_alpha => "singular term",
            Rule::singular_term => "singular term",
            Rule::variable_alpha => "variable",
            Rule::variable => "variable",
            Rule::superscript_number => "degree",
            Rule::predicate_letter_alpha => "predicate letter",
            Rule::predicate_letter => "predicate letter",
            Rule::existential_quantifier => "existential quantifier",
            Rule::universal_quantifier => "universal quantifier",
            Rule::EOI => "EOI",
            Rule::WHITESPACE => "white space",
        };
        phrase.to_owned()
    }

    /// The rendered message.
    pub fn message(&self) -> (r: String)
        ensures
            r@ == self.decorated_message@,
    {
        self.decorated_message.clone()
    }
}

/// An error with its position and rendered message.
pub struct Error {
    pub decorated_message: String,
    pub position: (usize, usize),
}

impl Error {
    /// An error over the characters `start..end` of `input`.
    pub fn new_from_custom_error(input: &str, start: usize, end: usize, decorated_message: &str) -> (r: Error)
        requires
            start <= end <= input@.len(),
        ensures
            r.position == line_col_of(input@, start as int),
            r.decorated_message@ == custom_error_text(input@, start as int, end as int, decorated_message@),
    {
        Error {
            position: line_col(input, start),
            decorated_message: render_custom_error(input, start, end, decorated_message),
        }
    }

    /// A syntax error at character `at` of `input`, where `expected` failed.
    pub fn new_from_parsing_error(input: &str, at: usize, expected: Rule) -> (r: Error)
        requires
            at <= input@.len(),
        ensures
            r.position == line_col_of(input@, at as int),
            r.decorated_message@ == parsing_error_text(input@, at as int, expected),
    {
        Error {
            position: line_col(input, at),
            decorated_message: render_parsing_error(input, at, expected),
        }
    }
}

} // verus!
