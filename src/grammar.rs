//! The concrete syntax: how each node of the abstract syntax is written as
//! tokens, and a recursive-descent recogniser that builds the node a token
//! sequence writes.
use crate::ast::{
    same_predicate, same_statement, same_statements, same_tree,
    Degree, ParseTree, Predicate, PredicateLetter, SimpleStatementLetter, SingularTerm, Statement,
    Subscript, Term, Variable,
};
use crate::error::Rule;
use crate::lexer::{token_valid, TokenKind};
use vstd::prelude::*;

verus! {

pub open spec fn is_upper(c: char) -> bool {
    0x41 <= c as u32 && c as u32 <= 0x5A
}

/// Lowercase letters `a` to `t` name individuals.
pub open spec fn is_term_letter(c: char) -> bool {
    0x61 <= c as u32 && c as u32 <= 0x74
}

/// Lowercase letters `u` to `z` are variables.
pub open spec fn is_variable_letter(c: char) -> bool {
    0x75 <= c as u32 && c as u32 <= 0x7A
}

pub open spec fn subscript_tokens(s: Subscript) -> Seq<TokenKind> {
    match s.0 {
        Some(n) => seq![TokenKind::Sub(n)],
        None => seq![],
    }
}

pub open spec fn predicate_letter_tokens(l: PredicateLetter) -> Seq<TokenKind> {
    seq![TokenKind::Upper(l.0)] + subscript_tokens(l.1) + seq![TokenKind::Sup((l.2).0)]
}

pub open spec fn term_tokens(t: Term) -> Seq<TokenKind> {
    match t {
        Term::SingularTerm(s) => seq![TokenKind::Lower(s.0)] + subscript_tokens(s.1),
        Term::Variable(v) => seq![TokenKind::Lower(v.0)] + subscript_tokens(v.1),
    }
}

pub open spec fn term_ok(t: Term) -> bool {
    match t {
        Term::SingularTerm(s) => is_term_letter(s.0),
        Term::Variable(v) => is_variable_letter(v.0),
    }
}

pub open spec fn terms_tokens(ts: Seq<Term>) -> Seq<TokenKind>
    decreases ts.len(),
{
    if ts.len() == 0 {
        seq![]
    } else {
        terms_tokens(ts.drop_last()) + term_tokens(ts.last())
    }
}

pub open spec fn as_terms(ts: Seq<SingularTerm>) -> Seq<Term> {
    ts.map_values(|t: SingularTerm| Term::SingularTerm(t))
}

pub open spec fn predicate_letter_ok(l: PredicateLetter) -> bool {
    is_upper(l.0)
}

/// The tokens that write a predicate.
pub open spec fn predicate_tokens(p: Predicate) -> Seq<TokenKind>
    decreases p,
{
    match p {
        Predicate::Simple(l, ts) => predicate_letter_tokens(l) + terms_tokens(ts@),
        Predicate::Conjunctive(a, b) => seq![TokenKind::GroupOpen] + predicate_tokens(*a) + seq![
            TokenKind::And,
        ] + predicate_tokens(*b) + seq![TokenKind::GroupClose],
        Predicate::Negative(a) => seq![TokenKind::Not] + predicate_tokens(*a),
        Predicate::Disjunctive(a, b) => seq![TokenKind::GroupOpen] + predicate_tokens(*a) + seq![
            TokenKind::Or,
        ] + predicate_tokens(*b) + seq![TokenKind::GroupClose],
        Predicate::Conditional(a, b) => seq![TokenKind::GroupOpen] + predicate_tokens(*a) + seq![
            TokenKind::Implies,
        ] + predicate_tokens(*b) + seq![TokenKind::GroupClose],
    }
}

/// A predicate that the surface syntax can write: letters of the right
/// kind, and at least one term after each predicate letter.
pub open spec fn predicate_shape_ok(p: Predicate) -> bool
    decreases p,
{
    match p {
        Predicate::Simple(l, ts) => predicate_letter_ok(l) && ts@.len() > 0 && forall|i: int|
            0 <= i < ts@.len() ==> #[trigger] term_ok(ts@[i]),
        Predicate::Conjunctive(a, b) => predicate_shape_ok(*a) && predicate_shape_ok(*b),
        Predicate::Negative(a) => predicate_shape_ok(*a),
        Predicate::Disjunctive(a, b) => predicate_shape_ok(*a) && predicate_shape_ok(*b),
        Predicate::Conditional(a, b) => predicate_shape_ok(*a) && predicate_shape_ok(*b),
    }
}

/// The tokens that write a statement.
pub open spec fn statement_tokens(s: Statement) -> Seq<TokenKind>
    decreases s,
{
    match s {
        Statement::Simple(l) => seq![TokenKind::Upper(l.0)] + subscript_tokens(l.1),
        Statement::Singular(l, ts) => predicate_letter_tokens(l) + terms_tokens(as_terms(ts@)),
        Statement::LogicalConjunction(a, b) => seq![TokenKind::GroupOpen] + statement_tokens(*a)
            + seq![TokenKind::And] + statement_tokens(*b) + seq![TokenKind::GroupClose],
        Statement::LogicalNegation(a) => seq![TokenKind::Not] + statement_tokens(*a),
        Statement::LogicalDisjunction(a, b) => seq![TokenKind::GroupOpen] + statement_tokens(*a)
            + seq![TokenKind::Or] + statement_tokens(*b) + seq![TokenKind::GroupClose],
        Statement::LogicalConditional(a, b) => seq![TokenKind::GroupOpen] + statement_tokens(*a)
            + seq![TokenKind::Implies] + statement_tokens(*b) + seq![TokenKind::GroupClose],
        Statement::Existential(v, p) => seq![TokenKind::Exists] + term_tokens(Term::Variable(v))
            + predicate_tokens(p),
        Statement::Universal(v, p) => seq![TokenKind::ForAll] + term_tokens(Term::Variable(v))
            + predicate_tokens(p),
    }
}

/// A statement that the surface syntax can write.
pub open spec fn statement_shape_ok(s: Statement) -> bool
    decreases s,
{
    match s {
        Statement::Simple(l) => is_upper(l.0),
        Statement::Singular(l, ts) => predicate_letter_ok(l) && ts@.len() > 0 && forall|i: int|
            0 <= i < ts@.len() ==> is_term_letter(#[trigger] ts@[i].0),
        Statement::LogicalConjunction(a, b) => statement_shape_ok(*a) && statement_shape_ok(*b),
        Statement::LogicalNegation(a) => statement_shape_ok(*a),
        Statement::LogicalDisjunction(a, b) => statement_shape_ok(*a) && statement_shape_ok(*b),
        Statement::LogicalConditional(a, b) => statement_shape_ok(*a) && statement_shape_ok(*b),
        Statement::Existential(v, p) => is_variable_letter(v.0) && predicate_shape_ok(p),
        Statement::Universal(v, p) => is_variable_letter(v.0) && predicate_shape_ok(p),
    }
}

/// Statements separated by commas.
pub open spec fn statements_tokens(ss: Seq<Statement>) -> Seq<TokenKind>
    decreases ss.len(),
{
    if ss.len() == 0 {
        seq![]
    } else if ss.len() == 1 {
        statement_tokens(ss[0])
    } else {
        statements_tokens(ss.drop_last()) + seq![TokenKind::Separator] + statement_tokens(ss.last())
    }
}

pub open spec fn statements_shape_ok(ss: Seq<Statement>) -> bool {
    ss.len() > 0 && forall|i: int| 0 <= i < ss.len() ==> #[trigger] statement_shape_ok(ss[i])
}

/// The tokens that write a whole input.
pub open spec fn tree_tokens(t: ParseTree) -> Seq<TokenKind> {
    match t {
        ParseTree::StatementSet(ss) => seq![TokenKind::SetOpen] + statements_tokens(ss@) + seq![
            TokenKind::SetClose,
        ],
        ParseTree::Argument(ps, c) => statements_tokens(ps@) + seq![TokenKind::Therefore]
            + statement_tokens(c),
    }
}

pub open spec fn tree_shape_ok(t: ParseTree) -> bool {
    match t {
        ParseTree::StatementSet(ss) => statements_shape_ok(ss@),
        ParseTree::Argument(ps, c) => statements_shape_ok(ps@) && statement_shape_ok(c),
    }
}

/// Where parsing stopped, and the rule that the token there failed.
#[derive(Debug, Clone, Copy, PartialEq, Eq)]
pub struct Expected {
    pub at: usize,
    pub rule: Rule,
}

/// `toks[pos..end]` is exactly `w`.
pub open spec fn writes(toks: Seq<TokenKind>, pos: int, end: int, w: Seq<TokenKind>) -> bool {
    0 <= pos <= end <= toks.len() && toks.subrange(pos, end) == w
}

/// The token at `i`, if any, cannot continue a statement or predicate that
/// ends there: it is no letter, subscript or superscript.
pub open spec fn stops(toks: Seq<TokenKind>, i: int) -> bool {
    i == toks.len() || !(toks[i] is Lower || toks[i] is Sub || toks[i] is Sup)
}

/// `toks` holds `w` from `pos` on.
pub open spec fn written_at(toks: Seq<TokenKind>, pos: int, w: Seq<TokenKind>) -> bool {
    0 <= pos && pos + w.len() <= toks.len() && toks.subrange(pos, pos + w.len()) == w
}

/// The subscript that the grammar reads at `i`, and where reading stops.
pub open spec fn subscript_at(toks: Seq<TokenKind>, i: int) -> (Subscript, int) {
    if 0 <= i < toks.len() && toks[i] is Sub {
        (Subscript(Some(toks[i]->Sub_0)), i + 1)
    } else {
        (Subscript(None), i)
    }
}

/// A term that a list may hold starts at `j`.
pub open spec fn term_starts(toks: Seq<TokenKind>, j: int, singular_only: bool) -> bool {
    &&& 0 <= j < toks.len()
    &&& toks[j] is Lower
    &&& (is_term_letter(toks[j]->Lower_0) || (!singular_only && is_variable_letter(toks[j]->Lower_0)))
}

/// `hs` is a list of terms that the grammar can write at `pos`, ending where
/// no term can continue it.
pub open spec fn terms_at(toks: Seq<TokenKind>, pos: int, hs: Seq<Term>, singular_only: bool) -> bool {
    &&& hs.len() > 0
    &&& forall|i: int| 0 <= i < hs.len() ==> #[trigger] term_ok(hs[i])
    &&& singular_only ==> forall|i: int| 0 <= i < hs.len() ==> (#[trigger] hs[i]) is SingularTerm
    &&& written_at(toks, pos, terms_tokens(hs))
    &&& stops(toks, pos + terms_tokens(hs).len())
}

proof fn lemma_written_split(toks: Seq<TokenKind>, pos: int, a: Seq<TokenKind>, b: Seq<TokenKind>)
    requires
        written_at(toks, pos, a + b),
    ensures
        written_at(toks, pos, a),
        written_at(toks, pos + a.len(), b),
{
    let w = a + b;
    assert forall|k: int| 0 <= k < a.len() implies toks.subrange(pos, pos + a.len())[k] == a[k] by {
        assert(toks.subrange(pos, pos + w.len())[k] == w[k]);
    }
    assert(toks.subrange(pos, pos + a.len()) =~= a);
    assert forall|k: int| 0 <= k < b.len() implies toks.subrange(pos + a.len(), pos + a.len() + b.len())[k] == b[k] by {
        assert(toks.subrange(pos, pos + w.len())[a.len() + k] == w[a.len() + k]);
    }
    assert(toks.subrange(pos + a.len(), pos + a.len() + b.len()) =~= b);
}

proof fn lemma_written_index(toks: Seq<TokenKind>, pos: int, w: Seq<TokenKind>, k: int)
    requires
        written_at(toks, pos, w),
        0 <= k < w.len(),
    ensures
        toks[pos + k] == w[k],
{
    assert(toks.subrange(pos, pos + w.len())[k] == w[k]);
}

proof fn lemma_terms_take(hs: Seq<Term>, k: int)
    requires
        0 <= k <= hs.len(),
    ensures
        terms_tokens(hs) == terms_tokens(hs.take(k)) + terms_tokens(hs.skip(k)),
    decreases hs.len(),
{
    if k == hs.len() {
        assert(hs.take(k) =~= hs);
        assert(hs.skip(k) =~= Seq::<Term>::empty());
        assert(terms_tokens(hs) + seq![] =~= terms_tokens(hs));
    } else {
        lemma_terms_take(hs.drop_last(), k);
        assert(hs.drop_last().take(k) =~= hs.take(k));
        assert(hs.skip(k).drop_last() =~= hs.drop_last().skip(k));
        assert(hs.skip(k).last() == hs.last());
        assert(terms_tokens(hs.skip(k)) == terms_tokens(hs.skip(k).drop_last()) + term_tokens(hs.skip(k).last()));
        assert(terms_tokens(hs) =~= terms_tokens(hs.take(k)) + terms_tokens(hs.skip(k)));
    }
}

proof fn lemma_terms_nonempty_start(hs: Seq<Term>)
    requires
        hs.len() > 0,
    ensures
        terms_tokens(hs).len() > 0,
        terms_tokens(hs)[0] == term_tokens(hs[0])[0],
        terms_tokens(hs) == term_tokens(hs[0]) + terms_tokens(hs.skip(1)),
{
    lemma_terms_take(hs, 1);
    assert(hs.take(1).drop_last() =~= Seq::<Term>::empty());
    assert(hs.take(1).last() == hs[0]);
    assert(terms_tokens(Seq::<Term>::empty()) == Seq::<TokenKind>::empty());
    assert(terms_tokens(hs.take(1)) == terms_tokens(Seq::<Term>::empty()) + term_tokens(hs[0]));
    assert(terms_tokens(hs.take(1)) =~= term_tokens(hs[0]));
}

/// `p` is a predicate that the grammar can write at `pos`, ending where no
/// letter, subscript or superscript can continue it.
pub open spec fn predicate_at(toks: Seq<TokenKind>, pos: int, p: Predicate) -> bool {
    &&& predicate_shape_ok(p)
    &&& written_at(toks, pos, predicate_tokens(p))
    &&& stops(toks, pos + predicate_tokens(p).len())
}

/// The operands and connective of a binary predicate.
pub open spec fn predicate_parts(p: Predicate) -> Option<(Predicate, TokenKind, Predicate)> {
    match p {
        Predicate::Conjunctive(a, b) => Some((*a, TokenKind::And, *b)),
        Predicate::Disjunctive(a, b) => Some((*a, TokenKind::Or, *b)),
        Predicate::Conditional(a, b) => Some((*a, TokenKind::Implies, *b)),
        _ => None,
    }
}

proof fn lemma_predicate_first(p: Predicate)
    ensures
        predicate_tokens(p).len() > 0,
        p is Negative <==> predicate_tokens(p)[0] == TokenKind::Not,
        predicate_parts(p) is Some <==> predicate_tokens(p)[0] == TokenKind::GroupOpen,
        p is Simple <==> predicate_tokens(p)[0] is Upper,
        p matches Predicate::Simple(l, _) ==> predicate_tokens(p)[0] == TokenKind::Upper(l.0),
        predicate_parts(p) matches Some((a, op, b)) ==> predicate_tokens(p) == seq![TokenKind::GroupOpen]
            + predicate_tokens(a) + seq![op] + predicate_tokens(b) + seq![TokenKind::GroupClose],
{
}

/// `st` is a statement that the grammar can write at `pos`, ending where no
/// letter, subscript or superscript can continue it.
pub open spec fn statement_at(toks: Seq<TokenKind>, pos: int, st: Statement) -> bool {
    &&& statement_shape_ok(st)
    &&& written_at(toks, pos, statement_tokens(st))
    &&& stops(toks, pos + statement_tokens(st).len())
}

/// The operands and connective of a binary statement.
pub open spec fn statement_parts(st: Statement) -> Option<(Statement, TokenKind, Statement)> {
    match st {
        Statement::LogicalConjunction(a, b) => Some((*a, TokenKind::And, *b)),
        Statement::LogicalDisjunction(a, b) => Some((*a, TokenKind::Or, *b)),
        Statement::LogicalConditional(a, b) => Some((*a, TokenKind::Implies, *b)),
        _ => None,
    }
}

/// The quantifier token, variable and predicate of a quantified statement.
pub open spec fn quantified_parts(st: Statement) -> Option<(TokenKind, Variable, Predicate)> {
    match st {
        Statement::Existential(v, p) => Some((TokenKind::Exists, v, p)),
        Statement::Universal(v, p) => Some((TokenKind::ForAll, v, p)),
        _ => None,
    }
}

proof fn lemma_statement_first(st: Statement)
    ensures
        statement_tokens(st).len() > 0,
        st is LogicalNegation <==> statement_tokens(st)[0] == TokenKind::Not,
        statement_parts(st) is Some <==> statement_tokens(st)[0] == TokenKind::GroupOpen,
        quantified_parts(st) is Some <==> (statement_tokens(st)[0] == TokenKind::Exists
            || statement_tokens(st)[0] == TokenKind::ForAll),
        (st is Simple || st is Singular) <==> statement_tokens(st)[0] is Upper,
        st matches Statement::Simple(l) ==> statement_tokens(st)[0] == TokenKind::Upper(l.0),
        st matches Statement::Singular(l, _) ==> statement_tokens(st)[0] == TokenKind::Upper(l.0),
        statement_parts(st) matches Some((a, op, b)) ==> statement_tokens(st) == seq![TokenKind::GroupOpen]
            + statement_tokens(a) + seq![op] + statement_tokens(b) + seq![TokenKind::GroupClose],
        quantified_parts(st) matches Some((q, v, p)) ==> statement_tokens(st)[0] == q
            && statement_tokens(st) == seq![q] + term_tokens(Term::Variable(v)) + predicate_tokens(p),
{
}

proof fn lemma_as_terms_injective(a: Seq<SingularTerm>, b: Seq<SingularTerm>)
    requires
        as_terms(a) == as_terms(b),
    ensures
        a == b,
{
    assert(as_terms(a).len() == a.len());
    assert(as_terms(b).len() == b.len());
    assert forall|i: int| 0 <= i < a.len() implies a[i] == b[i] by {
        assert(as_terms(a)[i] == Term::SingularTerm(a[i]));
        assert(as_terms(b)[i] == Term::SingularTerm(b[i]));
    }
    assert(a =~= b);
}

/// `hs` is a list of statements that the grammar can write at `pos`, ending
/// where no comma, letter, subscript or superscript can continue it.
pub open spec fn statements_at(toks: Seq<TokenKind>, pos: int, hs: Seq<Statement>) -> bool {
    let end = pos + statements_tokens(hs).len();
    &&& statements_shape_ok(hs)
    &&& written_at(toks, pos, statements_tokens(hs))
    &&& stops(toks, end)
    &&& (end == toks.len() || toks[end] != TokenKind::Separator)
}

proof fn lemma_statements_take(hs: Seq<Statement>, k: int)
    requires
        0 < k < hs.len(),
    ensures
        statements_tokens(hs) == statements_tokens(hs.take(k)) + seq![TokenKind::Separator]
            + statements_tokens(hs.skip(k)),
    decreases hs.len(),
{
    let dl = hs.drop_last();
    assert(hs.skip(k).drop_last() =~= dl.skip(k));
    assert(hs.skip(k).last() == hs.last());
    if k == hs.len() - 1 {
        assert(dl =~= hs.take(k));
        assert(hs.skip(k) =~= seq![hs.last()]);
        assert(statements_tokens(hs.skip(k)) == statement_tokens(hs.last()));
    } else {
        lemma_statements_take(dl, k);
        assert(dl.take(k) =~= hs.take(k));
        assert(statements_tokens(hs.skip(k)) == statements_tokens(dl.skip(k)) + seq![TokenKind::Separator]
            + statement_tokens(hs.last()));
    }
    assert(statements_tokens(hs) =~= statements_tokens(hs.take(k)) + seq![TokenKind::Separator]
        + statements_tokens(hs.skip(k)));
}

/// The first statement of a list, and what follows it.
proof fn lemma_statements_front(hs: Seq<Statement>)
    requires
        hs.len() > 0,
    ensures
        hs.len() == 1 ==> statements_tokens(hs) == statement_tokens(hs[0]),
        hs.len() > 1 ==> statements_tokens(hs) == statement_tokens(hs[0]) + seq![TokenKind::Separator]
            + statements_tokens(hs.skip(1)),
{
    if hs.len() > 1 {
        lemma_statements_take(hs, 1);
        assert(hs.take(1) =~= seq![hs[0]]);
    }
}

/// The recogniser of the surface grammar.
pub struct GeneratedParser;

impl GeneratedParser {
    fn subscript(toks: &Vec<TokenKind>, pos: usize) -> (r: (Subscript, usize))
        requires
            pos <= toks.len(),
        ensures
            writes(toks@, pos as int, r.1 as int, subscript_tokens(r.0)),
            (r.0, r.1 as int) == subscript_at(toks@, pos as int),
    {
        if pos < toks.len() {
            if let TokenKind::Sub(n) = toks[pos] {
                proof {
                    assert(toks@.subrange(pos as int, pos + 1) =~= seq![TokenKind::Sub(n)]);
                }
                return (Subscript(Some(n)), pos + 1);
            }
        }
        proof {
            assert(toks@.subrange(pos as int, pos as int) =~= seq![]);
        }
        (Subscript(None), pos)
    }

    /// A predicate letter whose uppercase letter stands at `pos`.
    fn predicate_letter(toks: &Vec<TokenKind>, pos: usize, c: char) -> (r: Result<
        (PredicateLetter, usize),
        Expected,
    >)
        requires
            pos < toks.len(),
            toks@[pos as int] == TokenKind::Upper(c),
        ensures
            r matches Ok((l, e)) ==> writes(toks@, pos as int, e as int, predicate_letter_tokens(l))
                && predicate_letter_ok(l) && l.0 == c,
            r matches Err(x) ==> x.at <= toks.len(),
            forall|l: PredicateLetter|
                predicate_letter_ok(l) && written_at(toks@, pos as int, #[trigger] predicate_letter_tokens(l))
                    ==> r == Ok::<(PredicateLetter, usize), Expected>(
                    (l, (pos + predicate_letter_tokens(l).len()) as usize),
                ),
    {
        let u = c as u32;
        proof {
            assert forall|l: PredicateLetter|
                predicate_letter_ok(l) && written_at(toks@, pos as int, #[trigger] predicate_letter_tokens(l))
                implies l.0 == c && subscript_at(toks@, pos + 1) == (l.1, pos + 1 + subscript_tokens(l.1).len())
                && toks@[pos + 1 + subscript_tokens(l.1).len()] == TokenKind::Sup((l.2).0) by {
                let w = predicate_letter_tokens(l);
                lemma_written_index(toks@, pos as int, w, 0);
                lemma_written_index(toks@, pos as int, w, 1);
                if l.1.0 is Some {
                    lemma_written_index(toks@, pos as int, w, 2);
                }
            }
        }
        if !(0x41 <= u && u <= 0x5A) {
            return Err(Expected { at: pos, rule: Rule::predicate_letter });
        }
        let (sub, e) = Self::subscript(toks, pos + 1);
        if e < toks.len() {
            if let TokenKind::Sup(d) = toks[e] {
                let l = PredicateLetter(c, sub, Degree(d));
                proof {
                    assert(toks@.subrange(pos as int, e + 1) =~= seq![TokenKind::Upper(c)]
                        + toks@.subrange(pos + 1, e as int) + seq![TokenKind::Sup(d)]);
                }
                return Ok((l, e + 1));
            }
        }
        Err(Expected { at: e, rule: Rule::superscript_number })
    }

    /// Whether a term the list may hold starts at `j`.
    fn starts_term(toks: &Vec<TokenKind>, j: usize, singular_only: bool) -> (r: bool)
        ensures
            r == term_starts(toks@, j as int, singular_only),
    {
        if j >= toks.len() {
            return false;
        }
        match toks[j] {
            TokenKind::Lower(c) => {
                let u = c as u32;
                (0x61 <= u && u <= 0x74) || (!singular_only && 0x75 <= u && u <= 0x7A)
            },
            _ => false,
        }
    }

    /// One or more terms. Where `singular_only`, a variable letter ends the
    /// list instead of joining it.
    fn terms(toks: &Vec<TokenKind>, pos: usize, singular_only: bool) -> (r: Result<
        (Vec<Term>, usize),
        Expected,
    >)
        requires
            pos <= toks.len(),
        ensures
            r matches Ok((ts, e)) ==> writes(toks@, pos as int, e as int, terms_tokens(ts@))
                && ts@.len() > 0 && (forall|i: int| 0 <= i < ts@.len() ==> #[trigger] term_ok(ts@[i]))
                && (singular_only ==> forall|i: int|
                0 <= i < ts@.len() ==> (#[trigger] ts@[i]) is SingularTerm),
            r matches Err(x) ==> x.at <= toks.len(),
            forall|hs: Seq<Term>| #[trigger] terms_at(toks@, pos as int, hs, singular_only) ==> (r matches Ok(
                (ts, e),
            ) && ts@ == hs && e == pos + terms_tokens(hs).len()),
    {
        let mut ts: Vec<Term> = Vec::new();
        let mut j: usize = pos;
        proof {
            assert(toks@.subrange(pos as int, pos as int) =~= seq![]);
        }
        let mut more = Self::starts_term(toks, j, singular_only);
        while more
            invariant
                more == term_starts(toks@, j as int, singular_only),
                pos <= j <= toks.len(),
                writes(toks@, pos as int, j as int, terms_tokens(ts@)),
                forall|i: int| 0 <= i < ts@.len() ==> #[trigger] term_ok(ts@[i]),
                singular_only ==> forall|i: int|
                    0 <= i < ts@.len() ==> (#[trigger] ts@[i]) is SingularTerm,
                forall|hs: Seq<Term>| #[trigger] terms_at(toks@, pos as int, hs, singular_only) ==> ts@.len()
                    <= hs.len() && ts@ == hs.take(ts@.len() as int),
            decreases toks.len() - j,
        {
            let c = match toks[j] {
                TokenKind::Lower(c) => c,
                _ => {
                    proof {
                        assert(false);
                    }
                    'a'
                },
            };
            let u = c as u32;
            let singular = 0x61 <= u && u <= 0x74;
            let (sub, e) = Self::subscript(toks, j + 1);
            let t = if singular {
                Term::SingularTerm(SingularTerm(c, sub))
            } else {
                Term::Variable(Variable(c, sub))
            };
            let ghost old_ts = ts@;
            proof {
                assert(toks@.subrange(pos as int, e as int) =~= toks@.subrange(pos as int, j as int)
                    + seq![TokenKind::Lower(c)] + toks@.subrange(j + 1, e as int));
                assert(ts@.push(t).drop_last() =~= ts@);
                assert(term_tokens(t) == seq![TokenKind::Lower(c)] + subscript_tokens(sub));
                assert forall|hs: Seq<Term>| #[trigger] terms_at(toks@, pos as int, hs, singular_only)
                    implies old_ts.len() < hs.len() && hs[old_ts.len() as int] == t by {
                    let k = old_ts.len() as int;
                    lemma_terms_take(hs, k);
                    assert(hs.take(k) == old_ts);
                    if k == hs.len() {
                        assert(hs.take(k) =~= hs);
                        assert(stops(toks@, j as int));
                        assert(false);
                    }
                    lemma_written_split(toks@, pos as int, terms_tokens(hs.take(k)), terms_tokens(hs.skip(k)));
                    lemma_terms_nonempty_start(hs.skip(k));
                    let rest = hs.skip(k);
                    lemma_written_split(toks@, j as int, term_tokens(rest[0]), terms_tokens(rest.skip(1)));
                    lemma_written_index(toks@, j as int, term_tokens(rest[0]), 0);
                    assert(rest[0] == hs[k]);
                    let q = j + term_tokens(rest[0]).len();
                    if rest.skip(1).len() > 0 {
                        lemma_terms_nonempty_start(rest.skip(1));
                        lemma_written_index(toks@, q, terms_tokens(rest.skip(1)), 0);
                        assert(rest.skip(1)[0] == hs[k + 1]);
                    } else {
                        assert(terms_tokens(hs) =~= terms_tokens(hs.take(k)) + term_tokens(rest[0]) + terms_tokens(rest.skip(1)));
                    }
                    assert(term_ok(hs[k]));
                    match hs[k] {
                        Term::SingularTerm(x) => {
                            if x.1.0 is Some {
                                lemma_written_index(toks@, j as int, term_tokens(rest[0]), 1);
                            }
                        },
                        Term::Variable(x) => {
                            if x.1.0 is Some {
                                lemma_written_index(toks@, j as int, term_tokens(rest[0]), 1);
                            }
                        },
                    }
                }
            }
            ts.push(t);
            proof {
                assert(terms_tokens(ts@) == terms_tokens(old_ts) + term_tokens(t));
                assert forall|i: int| 0 <= i < ts@.len() implies #[trigger] term_ok(ts@[i]) by {
                    if i < old_ts.len() {
                        assert(ts@[i] == old_ts[i]);
                    }
                }
                assert(toks@.subrange(j + 1, e as int) == subscript_tokens(sub));
                assert(toks@.subrange(pos as int, j as int) == terms_tokens(old_ts));
                assert(toks@.subrange(pos as int, e as int) == terms_tokens(ts@));
                assert forall|hs: Seq<Term>| #[trigger] terms_at(toks@, pos as int, hs, singular_only)
                    implies ts@.len() <= hs.len() && ts@ == hs.take(ts@.len() as int) by {
                    assert(hs.take(ts@.len() as int) =~= hs.take(old_ts.len() as int).push(t));
                }
            }
            j = e;
            more = Self::starts_term(toks, j, singular_only);
        }
        proof {
            assert forall|hs: Seq<Term>| #[trigger] terms_at(toks@, pos as int, hs, singular_only)
                implies ts@ == hs by {
                let k = ts@.len() as int;
                if k < hs.len() {
                    lemma_terms_take(hs, k);
                    lemma_written_split(toks@, pos as int, terms_tokens(hs.take(k)), terms_tokens(hs.skip(k)));
                    lemma_terms_nonempty_start(hs.skip(k));
                    lemma_written_index(toks@, j as int, terms_tokens(hs.skip(k)), 0);
                    assert(hs.skip(k)[0] == hs[k]);
                    assert(term_ok(hs[k]));
                    assert(term_starts(toks@, j as int, singular_only));
                    assert(false);
                }
                assert(k == hs.len());
                assert(hs.take(k) =~= hs);
            }
        }
        if ts.len() == 0 {
            let rule = if singular_only { Rule::singular_term } else { Rule::formula };
            return Err(Expected { at: j, rule });
        }
        Ok((ts, j))
    }

    /// The predicate that starts at `pos`.
    pub fn predicate(toks: &Vec<TokenKind>, pos: usize) -> (r: Result<(Predicate, usize), Expected>)
        requires
            pos <= toks.len(),
        ensures
            r matches Ok((p, e)) ==> pos < e && writes(toks@, pos as int, e as int, predicate_tokens(p))
                && predicate_shape_ok(p),
            r matches Err(x) ==> x.at <= toks.len(),
            forall|h: Predicate| #[trigger] predicate_at(toks@, pos as int, h) ==> (r matches Ok((p, e))
                && same_predicate(p, h) && e == pos + predicate_tokens(h).len()),
        decreases toks.len() - pos,
    {
        proof {
            assert forall|h: Predicate| #[trigger] predicate_at(toks@, pos as int, h) implies pos < toks.len()
                && toks@[pos as int] == predicate_tokens(h)[0] by {
                lemma_predicate_first(h);
                lemma_written_index(toks@, pos as int, predicate_tokens(h), 0);
            }
        }
        if pos >= toks.len() {
            return Err(Expected { at: pos, rule: Rule::formula });
        }
        match toks[pos] {
            TokenKind::Not => {
                proof {
                    assert forall|h: Predicate| #[trigger] predicate_at(toks@, pos as int, h) implies h is Negative
                        && predicate_at(toks@, pos + 1, *h->Negative_0) by {
                        lemma_predicate_first(h);
                        let a = *h->Negative_0;
                        lemma_written_split(toks@, pos as int, seq![TokenKind::Not], predicate_tokens(a));
                    }
                }
                let (a, e) = Self::predicate(toks, pos + 1)?;
                let p = Predicate::Negative(Box::new(a));
                proof {
                    assert(toks@.subrange(pos as int, e as int) =~= seq![TokenKind::Not]
                        + toks@.subrange(pos + 1, e as int));
                }
                Ok((p, e))
            },
            TokenKind::GroupOpen => {
                proof {
                    assert forall|h: Predicate| #[trigger] predicate_at(toks@, pos as int, h) implies ({
                        let (a, op, b) = predicate_parts(h)->0;
                        let m = pos + 1 + predicate_tokens(a).len();
                        &&& predicate_parts(h) is Some
                        &&& predicate_at(toks@, pos + 1, a)
                        &&& toks@[m] == op
                        &&& predicate_at(toks@, m + 1, b)
                        &&& toks@[m + 1 + predicate_tokens(b).len()] == TokenKind::GroupClose
                    }) by {
                        lemma_predicate_first(h);
                        let (a, op, b) = predicate_parts(h)->0;
                        let ta = predicate_tokens(a);
                        let tb = predicate_tokens(b);
                        let x = seq![TokenKind::GroupOpen] + ta + seq![op] + tb;
                        lemma_written_split(toks@, pos as int, x, seq![TokenKind::GroupClose]);
                        lemma_written_split(toks@, pos as int, seq![TokenKind::GroupOpen] + ta + seq![op], tb);
                        lemma_written_split(toks@, pos as int, seq![TokenKind::GroupOpen] + ta, seq![op]);
                        lemma_written_split(toks@, pos as int, seq![TokenKind::GroupOpen], ta);
                        lemma_written_index(toks@, pos + 1 + ta.len(), seq![op], 0);
                        lemma_written_index(toks@, pos + x.len(), seq![TokenKind::GroupClose], 0);
                        match h {
                            Predicate::Conjunctive(_, _) => {},
                            Predicate::Disjunctive(_, _) => {},
                            Predicate::Conditional(_, _) => {},
                            _ => {},
                        }
                    }
                }
                let (a, m) = Self::predicate(toks, pos + 1)?;
                if m >= toks.len() {
                    return Err(Expected { at: m, rule: Rule::conjunction_connective });
                }
                let op = toks[m];
                if !(op == TokenKind::And || op == TokenKind::Or || op == TokenKind::Implies) {
                    return Err(Expected { at: m, rule: Rule::conjunction_connective });
                }
                let (b, e) = Self::predicate(toks, m + 1)?;
                if e >= toks.len() || toks[e] != TokenKind::GroupClose {
                    return Err(Expected { at: e, rule: Rule::grouper_closing });
                }
                let p = if op == TokenKind::And {
                    Predicate::Conjunctive(Box::new(a), Box::new(b))
                } else if op == TokenKind::Or {
                    Predicate::Disjunctive(Box::new(a), Box::new(b))
                } else {
                    Predicate::Conditional(Box::new(a), Box::new(b))
                };
                proof {
                    assert(toks@.subrange(pos as int, e + 1) =~= seq![TokenKind::GroupOpen]
                        + toks@.subrange(pos + 1, m as int) + seq![op] + toks@.subrange(
                        m + 1,
                        e as int,
                    ) + seq![TokenKind::GroupClose]);
                }
                Ok((p, e + 1))
            },
            TokenKind::Upper(c) => {
                proof {
                    assert forall|h: Predicate| #[trigger] predicate_at(toks@, pos as int, h) implies ({
                        let l = h->Simple_0;
                        let ts = h->Simple_1@;
                        &&& h is Simple
                        &&& predicate_letter_ok(l)
                        &&& written_at(toks@, pos as int, predicate_letter_tokens(l))
                        &&& terms_at(toks@, pos + predicate_letter_tokens(l).len(), ts, false)
                    }) by {
                        lemma_predicate_first(h);
                        let l = h->Simple_0;
                        let ts = h->Simple_1@;
                        lemma_written_split(toks@, pos as int, predicate_letter_tokens(l), terms_tokens(ts));
                    }
                }
                let (l, m) = Self::predicate_letter(toks, pos, c)?;
                let (ts, e) = Self::terms(toks, m, false)?;
                proof {
                    assert(toks@.subrange(pos as int, e as int) =~= toks@.subrange(pos as int, m as int)
                        + toks@.subrange(m as int, e as int));
                }
                Ok((Predicate::Simple(l, ts), e))
            },
            _ => Err(Expected { at: pos, rule: Rule::formula }),
        }
    }
    fn singular_terms(ts: Vec<Term>) -> (r: Vec<SingularTerm>)
        requires
            forall|i: int| 0 <= i < ts@.len() ==> (#[trigger] ts@[i]) is SingularTerm,
        ensures
            as_terms(r@) == ts@,
            r@.len() == ts@.len(),
            forall|i: int| 0 <= i < r@.len() ==> ts@[i] == Term::SingularTerm(#[trigger] r@[i]),
    {
        let mut r: Vec<SingularTerm> = Vec::new();
        let mut i: usize = 0;
        while i < ts.len()
            invariant
                i <= ts.len(),
                forall|k: int| 0 <= k < ts@.len() ==> (#[trigger] ts@[k]) is SingularTerm,
                r@.len() == i,
                forall|k: int| 0 <= k < i ==> ts@[k] == Term::SingularTerm(#[trigger] r@[k]),
            decreases ts.len() - i,
        {
            match ts[i] {
                Term::SingularTerm(t) => r.push(t),
                Term::Variable(v) => {
                    proof {
                        assert(ts@[i as int] is SingularTerm);
                    }
                    r.push(SingularTerm(v.0, v.1));
                },
            }
            i = i + 1;
        }
        proof {
            assert(as_terms(r@) =~= ts@);
        }
        r
    }

    /// A quantified statement, whose quantifier stands at `pos`.
    fn quantified_statement(toks: &Vec<TokenKind>, pos: usize) -> (r: Result<(Statement, usize), Expected>)
        requires
            pos < toks.len(),
            toks@[pos as int] == TokenKind::Exists || toks@[pos as int] == TokenKind::ForAll,
            forall|h: Statement| #[trigger] statement_at(toks@, pos as int, h) ==> toks@[pos as int]
                == statement_tokens(h)[0],
        ensures
            r matches Ok((st, e)) ==> pos < e && writes(toks@, pos as int, e as int, statement_tokens(st))
                && statement_shape_ok(st),
            r matches Err(x) ==> x.at <= toks.len(),
            forall|h: Statement| #[trigger] statement_at(toks@, pos as int, h) ==> (r matches Ok((st, e))
                && same_statement(st, h) && e == pos + statement_tokens(h).len()),
    {
        proof {
            assert forall|h: Statement| #[trigger] statement_at(toks@, pos as int, h) implies ({
                let (q, v, p) = quantified_parts(h)->0;
                let m = pos + 2 + subscript_tokens(v.1).len();
                &&& quantified_parts(h) is Some
                &&& q == toks@[pos as int]
                &&& pos + 1 < toks.len()
                &&& toks@[pos + 1] == TokenKind::Lower(v.0)
                &&& is_variable_letter(v.0)
                &&& subscript_at(toks@, pos + 2) == (v.1, m)
                &&& predicate_at(toks@, m, p)
            }) by {
                lemma_statement_first(h);
                let (q, v, p) = quantified_parts(h)->0;
                let tv = term_tokens(Term::Variable(v));
                lemma_written_split(toks@, pos as int, seq![q] + tv, predicate_tokens(p));
                lemma_written_split(toks@, pos as int, seq![q], tv);
                lemma_written_split(toks@, pos + 1, seq![TokenKind::Lower(v.0)], subscript_tokens(v.1));
                lemma_written_index(toks@, pos + 1, tv, 0);
                lemma_predicate_first(p);
                let m = pos + 1 + tv.len();
                lemma_written_index(toks@, m, predicate_tokens(p), 0);
                if v.1.0 is Some {
                    lemma_written_index(toks@, pos + 1, tv, 1);
                }
            }
        }
        let q = toks[pos];
        if pos + 1 >= toks.len() {
            return Err(Expected { at: pos + 1, rule: Rule::variable });
        }
        let c = match toks[pos + 1] {
            TokenKind::Lower(c) => c,
            _ => {
                return Err(Expected { at: pos + 1, rule: Rule::variable });
            },
        };
        let u = c as u32;
        if !(0x75 <= u && u <= 0x7A) {
            return Err(Expected { at: pos + 1, rule: Rule::variable });
        }
        let (sub, m) = Self::subscript(toks, pos + 2);
        let v = Variable(c, sub);
        let (p, e) = Self::predicate(toks, m)?;
        proof {
            assert(toks@.subrange(pos as int, e as int) =~= seq![q] + seq![TokenKind::Lower(c)]
                + toks@.subrange(pos + 2, m as int) + toks@.subrange(m as int, e as int));
        }
        proof {
            assert(term_tokens(Term::Variable(v)) == seq![TokenKind::Lower(c)]
                + subscript_tokens(sub));
            assert(toks@.subrange(pos as int, e as int) =~= seq![q] + term_tokens(
                Term::Variable(v),
            ) + predicate_tokens(p));
        }
        if q == TokenKind::Exists {
            Ok((Statement::Existential(v, p), e))
        } else {
            Ok((Statement::Universal(v, p), e))
        }
    }

    /// A simple or singular statement, whose uppercase letter stands at `pos`.
    fn atomic_statement(toks: &Vec<TokenKind>, pos: usize, c: char) -> (r: Result<(Statement, usize), Expected>)
        requires
            pos < toks.len(),
            toks@[pos as int] == TokenKind::Upper(c),
            forall|h: Statement| #[trigger] statement_at(toks@, pos as int, h) ==> toks@[pos as int]
                == statement_tokens(h)[0],
        ensures
            r matches Ok((st, e)) ==> pos < e && writes(toks@, pos as int, e as int, statement_tokens(st))
                && statement_shape_ok(st),
            r matches Err(x) ==> x.at <= toks.len(),
            forall|h: Statement| #[trigger] statement_at(toks@, pos as int, h) ==> (r matches Ok((st, e))
                && same_statement(st, h) && e == pos + statement_tokens(h).len()),
    {
        proof {
            let m = subscript_at(toks@, pos + 1).1;
            assert forall|h: Statement| #[trigger] statement_at(toks@, pos as int, h) implies ({
                ||| h matches Statement::Simple(l) && l.0 == c && is_upper(c) && subscript_at(toks@, pos + 1) == (l.1, pos
                    + statement_tokens(h).len()) && !(m < toks.len() && toks@[m] is Sup)
                ||| h matches Statement::Singular(l, ts) && predicate_letter_ok(l) && written_at(
                    toks@,
                    pos as int,
                    predicate_letter_tokens(l),
                ) && terms_at(toks@, pos + predicate_letter_tokens(l).len(), as_terms(ts@), true)
                    && m < toks.len() && toks@[m] is Sup
            }) by {
                lemma_statement_first(h);
                let w = statement_tokens(h);
                match h {
                    Statement::Simple(l) => {
                        if l.1.0 is Some {
                            lemma_written_index(toks@, pos as int, w, 1);
                        }
                    },
                    Statement::Singular(l, ts) => {
                        let hs = as_terms(ts@);
                        lemma_written_split(toks@, pos as int, predicate_letter_tokens(l), terms_tokens(hs));
                        lemma_written_index(toks@, pos as int, predicate_letter_tokens(l), 1);
                        if l.1.0 is Some {
                            lemma_written_index(toks@, pos as int, predicate_letter_tokens(l), 2);
                        }
                        assert forall|i: int| 0 <= i < hs.len() implies #[trigger] term_ok(hs[i]) by {
                            assert(is_term_letter(ts@[i].0));
                        }
                        assert forall|i: int| 0 <= i < hs.len() implies (#[trigger] hs[i]) is SingularTerm by {}
                    },
                    _ => {},
                }
            }
        }
        let u = c as u32;
        if !(0x41 <= u && u <= 0x5A) {
            return Err(Expected { at: pos, rule: Rule::simple_statement_letter });
        }
        let (sub, m) = Self::subscript(toks, pos + 1);
        let degree = if m < toks.len() {
            match toks[m] {
                TokenKind::Sup(d) => Some(d),
                _ => None,
            }
        } else {
            None
        };
        match degree {
            None => {
                proof {
                    assert(toks@.subrange(pos as int, m as int) =~= seq![TokenKind::Upper(c)]
                        + toks@.subrange(pos + 1, m as int));
                }
                proof {
                    assert(statement_tokens(Statement::Simple(SimpleStatementLetter(c, sub)))
                        == seq![TokenKind::Upper(c)] + subscript_tokens(sub));
                }
                Ok((Statement::Simple(SimpleStatementLetter(c, sub)), m))
            },
            Some(d) => {
                let (l, m2) = Self::predicate_letter(toks, pos, c)?;
                let (ts, e) = Self::terms(toks, m2, true)?;
                let sts = Self::singular_terms(ts);
                proof {
                    assert forall|h: Statement| #[trigger] statement_at(toks@, pos as int, h)
                        implies h->Singular_1@ == sts@ by {
                        lemma_as_terms_injective(h->Singular_1@, sts@);
                    }
                    assert(toks@.subrange(pos as int, e as int) =~= toks@.subrange(
                        pos as int,
                        m2 as int,
                    ) + toks@.subrange(m2 as int, e as int));
                    assert forall|i: int| 0 <= i < sts@.len() implies is_term_letter(
                        #[trigger] sts@[i].0,
                    ) by {
                        assert(term_ok(ts@[i]));
                    }
                    assert(statement_tokens(Statement::Singular(l, sts))
                        == predicate_letter_tokens(l) + terms_tokens(ts@));
                }
                Ok((Statement::Singular(l, sts), e))
            },
        }
    }

    /// The statement that starts at `pos`.
    pub fn statement(toks: &Vec<TokenKind>, pos: usize) -> (r: Result<(Statement, usize), Expected>)
        requires
            pos <= toks.len(),
        ensures
            r matches Ok((st, e)) ==> pos < e && writes(toks@, pos as int, e as int, statement_tokens(st))
                && statement_shape_ok(st),
            r matches Err(x) ==> x.at <= toks.len(),
            forall|h: Statement| #[trigger] statement_at(toks@, pos as int, h) ==> (r matches Ok((st, e))
                && same_statement(st, h) && e == pos + statement_tokens(h).len()),
        decreases toks.len() - pos,
    {
        proof {
            assert forall|h: Statement| #[trigger] statement_at(toks@, pos as int, h) implies pos < toks.len()
                && toks@[pos as int] == statement_tokens(h)[0] by {
                lemma_statement_first(h);
                lemma_written_index(toks@, pos as int, statement_tokens(h), 0);
            }
        }
        if pos >= toks.len() {
            return Err(Expected { at: pos, rule: Rule::statement });
        }
        match toks[pos] {
            TokenKind::Not => {
                proof {
                    assert forall|h: Statement| #[trigger] statement_at(toks@, pos as int, h) implies h is LogicalNegation
                        && statement_at(toks@, pos + 1, *h->LogicalNegation_0) by {
                        lemma_statement_first(h);
                        let a = *h->LogicalNegation_0;
                        lemma_written_split(toks@, pos as int, seq![TokenKind::Not], statement_tokens(a));
                    }
                }
                let (a, e) = Self::statement(toks, pos + 1)?;
                proof {
                    assert(toks@.subrange(pos as int, e as int) =~= seq![TokenKind::Not]
                        + toks@.subrange(pos + 1, e as int));
                }
                Ok((Statement::LogicalNegation(Box::new(a)), e))
            },
            TokenKind::GroupOpen => {
                proof {
                    assert forall|h: Statement| #[trigger] statement_at(toks@, pos as int, h) implies ({
                        let (a, op, b) = statement_parts(h)->0;
                        let m = pos + 1 + statement_tokens(a).len();
                        &&& statement_parts(h) is Some
                        &&& statement_at(toks@, pos + 1, a)
                        &&& toks@[m] == op
                        &&& statement_at(toks@, m + 1, b)
                        &&& toks@[m + 1 + statement_tokens(b).len()] == TokenKind::GroupClose
                    }) by {
                        lemma_statement_first(h);
                        let (a, op, b) = statement_parts(h)->0;
                        let ta = statement_tokens(a);
                        let tb = statement_tokens(b);
                        let x = seq![TokenKind::GroupOpen] + ta + seq![op] + tb;
                        lemma_written_split(toks@, pos as int, x, seq![TokenKind::GroupClose]);
                        lemma_written_split(toks@, pos as int, seq![TokenKind::GroupOpen] + ta + seq![op], tb);
                        lemma_written_split(toks@, pos as int, seq![TokenKind::GroupOpen] + ta, seq![op]);
                        lemma_written_split(toks@, pos as int, seq![TokenKind::GroupOpen], ta);
                        lemma_written_index(toks@, pos + 1 + ta.len(), seq![op], 0);
                        lemma_written_index(toks@, pos + x.len(), seq![TokenKind::GroupClose], 0);
                    }
                }
                let (a, m) = Self::statement(toks, pos + 1)?;
                if m >= toks.len() {
                    return Err(Expected { at: m, rule: Rule::conjunction_connective });
                }
                let op = toks[m];
                if !(op == TokenKind::And || op == TokenKind::Or || op == TokenKind::Implies) {
                    return Err(Expected { at: m, rule: Rule::conjunction_connective });
                }
                let (b, e) = Self::statement(toks, m + 1)?;
                if e >= toks.len() || toks[e] != TokenKind::GroupClose {
                    return Err(Expected { at: e, rule: Rule::grouper_closing });
                }
                let st = if op == TokenKind::And {
                    Statement::LogicalConjunction(Box::new(a), Box::new(b))
                } else if op == TokenKind::Or {
                    Statement::LogicalDisjunction(Box::new(a), Box::new(b))
                } else {
                    Statement::LogicalConditional(Box::new(a), Box::new(b))
                };
                proof {
                    assert(toks@.subrange(pos as int, e + 1) =~= seq![TokenKind::GroupOpen]
                        + toks@.subrange(pos + 1, m as int) + seq![op] + toks@.subrange(
                        m + 1,
                        e as int,
                    ) + seq![TokenKind::GroupClose]);
                }
                Ok((st, e + 1))
            },
            TokenKind::Exists | TokenKind::ForAll => Self::quantified_statement(toks, pos),
            TokenKind::Upper(c) => Self::atomic_statement(toks, pos, c),
            _ => Err(Expected { at: pos, rule: Rule::statement }),
        }
    }

    /// Statements separated by commas, from `pos` up to the first token that
    /// is no separator.
    fn statement_list(toks: &Vec<TokenKind>, pos: usize) -> (r: Result<
        (Vec<Statement>, usize),
        Expected,
    >)
        requires
            pos <= toks.len(),
        ensures
            r matches Ok((v, e)) ==> writes(toks@, pos as int, e as int, statements_tokens(v@))
                && statements_shape_ok(v@) && (e == toks.len() || toks@[e as int]
                != TokenKind::Separator),
            r matches Err(x) ==> x.at <= toks.len(),
            forall|hs: Seq<Statement>| #[trigger] statements_at(toks@, pos as int, hs) ==> (r matches Ok(
                (v, e),
            ) && same_statements(v@, hs) && e == pos + statements_tokens(hs).len()),
    {
        proof {
            assert forall|hs: Seq<Statement>| #[trigger] statements_at(toks@, pos as int, hs) implies statement_at(
                toks@,
                pos as int,
                hs[0],
            ) by {
                lemma_statements_front(hs);
                assert(statement_shape_ok(hs[0]));
                if hs.len() > 1 {
                    lemma_written_split(toks@, pos as int, statement_tokens(hs[0]) + seq![TokenKind::Separator], statements_tokens(hs.skip(1)));
                    lemma_written_split(toks@, pos as int, statement_tokens(hs[0]), seq![TokenKind::Separator]);
                    lemma_written_index(toks@, pos + statement_tokens(hs[0]).len(), seq![TokenKind::Separator], 0);
                }
            }
        }
        let (first, mut j) = Self::statement(toks, pos)?;
        let mut v: Vec<Statement> = Vec::new();
        v.push(first);
        proof {
            assert(statements_tokens(v@) == statement_tokens(first));
            assert forall|hs: Seq<Statement>| #[trigger] statements_at(toks@, pos as int, hs) implies v@.len()
                <= hs.len() && same_statements(v@, hs.take(v@.len() as int)) && j == pos + statements_tokens(
                hs.take(v@.len() as int),
            ).len() by {
                assert(hs.take(1) =~= seq![hs[0]]);
                assert(statements_tokens(hs.take(1)) == statement_tokens(hs[0]));
                assert(same_statement(v@[0], hs.take(1)[0]));
            }
        }
        while j < toks.len() && toks[j] == TokenKind::Separator
            invariant
                pos < j <= toks.len(),
                writes(toks@, pos as int, j as int, statements_tokens(v@)),
                statements_shape_ok(v@),
                forall|hs: Seq<Statement>| #[trigger] statements_at(toks@, pos as int, hs) ==> v@.len() <= hs.len()
                    && same_statements(v@, hs.take(v@.len() as int)) && j == pos + statements_tokens(
                    hs.take(v@.len() as int),
                ).len(),
            decreases toks.len() - j,
        {
            proof {
                assert forall|hs: Seq<Statement>| #[trigger] statements_at(toks@, pos as int, hs) implies v@.len()
                    < hs.len() && statement_at(toks@, j + 1, hs[v@.len() as int]) by {
                    let k = v@.len() as int;
                    if k == hs.len() {
                        assert(hs.take(k) =~= hs);
                        assert(false);
                    }
                    lemma_statements_take(hs, k);
                    let rest = hs.skip(k);
                    lemma_written_split(toks@, pos as int, statements_tokens(hs.take(k)) + seq![TokenKind::Separator], statements_tokens(rest));
                    lemma_statements_front(rest);
                    assert(rest[0] == hs[k]);
                    assert(statement_shape_ok(hs[k]));
                    if rest.len() > 1 {
                        lemma_written_split(toks@, j + 1, statement_tokens(hs[k]) + seq![TokenKind::Separator], statements_tokens(rest.skip(1)));
                        lemma_written_split(toks@, j + 1, statement_tokens(hs[k]), seq![TokenKind::Separator]);
                        lemma_written_index(toks@, j + 1 + statement_tokens(hs[k]).len(), seq![TokenKind::Separator], 0);
                    } else {
                        assert(statements_tokens(hs) =~= statements_tokens(hs.take(k)) + seq![TokenKind::Separator] + statement_tokens(hs[k]));
                    }
                }
            }
            let (st, e) = Self::statement(toks, j + 1)?;
            let ghost old_v = v@;
            proof {
                assert(toks@.subrange(pos as int, e as int) =~= toks@.subrange(pos as int, j as int)
                    + seq![TokenKind::Separator] + toks@.subrange(j + 1, e as int));
                assert(old_v.push(st).drop_last() =~= old_v);
            }
            v.push(st);
            proof {
                assert(statements_tokens(v@) == statements_tokens(old_v) + seq![TokenKind::Separator]
                    + statement_tokens(st));
                assert forall|i: int| 0 <= i < v@.len() implies #[trigger] statement_shape_ok(v@[i]) by {
                    if i < old_v.len() {
                        assert(v@[i] == old_v[i]);
                    }
                }
            }
            proof {
                assert forall|hs: Seq<Statement>| #[trigger] statements_at(toks@, pos as int, hs) implies v@.len()
                    <= hs.len() && same_statements(v@, hs.take(v@.len() as int)) && e == pos + statements_tokens(
                    hs.take(v@.len() as int),
                ).len() by {
                    let k = old_v.len() as int;
                    assert(hs.take(k + 1).drop_last() =~= hs.take(k));
                    assert(hs.take(k + 1).last() == hs[k]);
                    assert forall|i: int| 0 <= i < v@.len() implies #[trigger] same_statement(v@[i], hs.take(k + 1)[i]) by {
                        if i < k {
                            assert(v@[i] == old_v[i]);
                            assert(same_statement(old_v[i], hs.take(k)[i]));
                        }
                    }
                }
            }
            j = e;
        }
        proof {
            assert forall|hs: Seq<Statement>| #[trigger] statements_at(toks@, pos as int, hs) implies same_statements(v@, hs)
                && j == pos + statements_tokens(hs).len() by {
                let k = v@.len() as int;
                if k < hs.len() {
                    lemma_statements_take(hs, k);
                    lemma_written_split(toks@, pos as int, statements_tokens(hs.take(k)) + seq![TokenKind::Separator], statements_tokens(hs.skip(k)));
                    lemma_written_split(toks@, pos as int, statements_tokens(hs.take(k)), seq![TokenKind::Separator]);
                    lemma_written_index(toks@, j as int, seq![TokenKind::Separator], 0);
                    assert(false);
                }
                assert(hs.take(k) =~= hs);
            }
        }
        Ok((v, j))
    }

    /// The parse tree that the tokens write: a statement set between braces,
    /// or premises, a conclusion indicator and a conclusion.
    pub fn parse(toks: &Vec<TokenKind>) -> (r: Result<ParseTree, Expected>)
        ensures
            r matches Ok(t) ==> tree_tokens(t) == toks@ && tree_shape_ok(t),
            r matches Err(x) ==> x.at <= toks.len(),
            forall|t: ParseTree| tree_shape_ok(t) && #[trigger] tree_tokens(t) == toks@ ==> (r matches Ok(p)
                && same_tree(p, t)),
    {
        proof {
            assert forall|t: ParseTree| tree_shape_ok(t) && #[trigger] tree_tokens(t) == toks@ implies ({
                match t {
                    ParseTree::StatementSet(ss) => toks@.len() > 0 && toks@[0] == TokenKind::SetOpen
                        && statements_at(toks@, 1, ss@) && toks@[1 + statements_tokens(ss@).len() as int]
                        == TokenKind::SetClose && toks@.len() == 2 + statements_tokens(ss@).len(),
                    ParseTree::Argument(ps, c) => (toks@.len() == 0 || toks@[0] != TokenKind::SetOpen)
                        && statements_at(toks@, 0, ps@) && toks@[statements_tokens(ps@).len() as int]
                        == TokenKind::Therefore && statement_at(
                        toks@,
                        statements_tokens(ps@).len() + 1int,
                        c,
                    ) && toks@.len() == statements_tokens(ps@).len() + 1 + statement_tokens(c).len(),
                }
            }) by {
                assert(toks@.subrange(0, toks@.len() as int) =~= toks@);
                match t {
                    ParseTree::StatementSet(ss) => {
                        let w = statements_tokens(ss@);
                        lemma_written_split(toks@, 0, seq![TokenKind::SetOpen] + w, seq![TokenKind::SetClose]);
                        lemma_written_split(toks@, 0, seq![TokenKind::SetOpen], w);
                    },
                    ParseTree::Argument(ps, c) => {
                        let w = statements_tokens(ps@);
                        lemma_written_split(toks@, 0, w + seq![TokenKind::Therefore], statement_tokens(c));
                        lemma_written_split(toks@, 0, w, seq![TokenKind::Therefore]);
                        lemma_statements_front(ps@);
                        lemma_statement_first(ps@[0]);
                        if ps@.len() > 1 {
                            lemma_written_split(toks@, 0, statement_tokens(ps@[0]) + seq![TokenKind::Separator], statements_tokens(ps@.skip(1)));
                            lemma_written_split(toks@, 0, statement_tokens(ps@[0]), seq![TokenKind::Separator]);
                        }
                        lemma_written_index(toks@, 0, statement_tokens(ps@[0]), 0);
                    },
                }
            }
        }
        if toks.len() > 0 && toks[0] == TokenKind::SetOpen {
            let (v, e) = Self::statement_list(toks, 1)?;
            if e >= toks.len() || toks[e] != TokenKind::SetClose {
                return Err(Expected { at: e, rule: Rule::statement_set_closing });
            }
            if e + 1 != toks.len() {
                return Err(Expected { at: e + 1, rule: Rule::EOI });
            }
            proof {
                assert(toks@ =~= seq![TokenKind::SetOpen] + toks@.subrange(1, e as int) + seq![
                    TokenKind::SetClose,
                ]);
            }
            Ok(ParseTree::StatementSet(v))
        } else {
            let (v, e) = Self::statement_list(toks, 0)?;
            if e >= toks.len() || toks[e] != TokenKind::Therefore {
                return Err(Expected { at: e, rule: Rule::conclusion_indicator });
            }
            let (c, f) = Self::statement(toks, e + 1)?;
            if f != toks.len() {
                return Err(Expected { at: f, rule: Rule::EOI });
            }
            proof {
                assert(toks@ =~= toks@.subrange(0, e as int) + seq![TokenKind::Therefore]
                    + toks@.subrange(e + 1, f as int));
            }
            Ok(ParseTree::Argument(v, c))
        }
    }
}

/// Every letter token holds a letter of its case.
pub open spec fn all_valid(ts: Seq<TokenKind>) -> bool {
    forall|k: int| 0 <= k < ts.len() ==> #[trigger] token_valid(ts[k])
}

proof fn lemma_valid_concat(a: Seq<TokenKind>, b: Seq<TokenKind>)
    requires
        all_valid(a),
        all_valid(b),
    ensures
        all_valid(a + b),
{
    assert forall|k: int| 0 <= k < (a + b).len() implies #[trigger] token_valid((a + b)[k]) by {
        if k < a.len() {
            assert((a + b)[k] == a[k]);
        } else {
            assert((a + b)[k] == b[k - a.len()]);
        }
    }
}

proof fn lemma_terms_valid(ts: Seq<Term>)
    requires
        forall|i: int| 0 <= i < ts.len() ==> #[trigger] term_ok(ts[i]),
    ensures
        all_valid(terms_tokens(ts)),
    decreases ts.len(),
{
    if ts.len() > 0 {
        assert forall|i: int| 0 <= i < ts.drop_last().len() implies #[trigger] term_ok(ts.drop_last()[i]) by {
            assert(term_ok(ts[i]));
        }
        lemma_terms_valid(ts.drop_last());
        let t = ts.last();
        assert(term_ok(t));
        match t {
            Term::SingularTerm(x) => {
                lemma_valid_concat(seq![TokenKind::Lower(x.0)], subscript_tokens(x.1));
            },
            Term::Variable(x) => {
                lemma_valid_concat(seq![TokenKind::Lower(x.0)], subscript_tokens(x.1));
            },
        }
        lemma_valid_concat(terms_tokens(ts.drop_last()), term_tokens(t));
    }
}

proof fn lemma_letter_valid(l: PredicateLetter)
    requires
        predicate_letter_ok(l),
    ensures
        all_valid(predicate_letter_tokens(l)),
{
    lemma_valid_concat(seq![TokenKind::Upper(l.0)], subscript_tokens(l.1));
    lemma_valid_concat(seq![TokenKind::Upper(l.0)] + subscript_tokens(l.1), seq![TokenKind::Sup((l.2).0)]);
}

proof fn lemma_binary_valid(x: Seq<TokenKind>, op: TokenKind, y: Seq<TokenKind>)
    requires
        all_valid(x),
        all_valid(y),
        token_valid(op),
    ensures
        all_valid(seq![TokenKind::GroupOpen] + x + seq![op] + y + seq![TokenKind::GroupClose]),
{
    lemma_valid_concat(seq![TokenKind::GroupOpen], x);
    lemma_valid_concat(seq![TokenKind::GroupOpen] + x, seq![op]);
    lemma_valid_concat(seq![TokenKind::GroupOpen] + x + seq![op], y);
    lemma_valid_concat(seq![TokenKind::GroupOpen] + x + seq![op] + y, seq![TokenKind::GroupClose]);
}

proof fn lemma_predicate_valid(p: Predicate)
    requires
        predicate_shape_ok(p),
    ensures
        all_valid(predicate_tokens(p)),
    decreases p,
{
    match p {
        Predicate::Simple(l, ts) => {
            lemma_letter_valid(l);
            lemma_terms_valid(ts@);
            lemma_valid_concat(predicate_letter_tokens(l), terms_tokens(ts@));
        },
        Predicate::Negative(a) => {
            lemma_predicate_valid(*a);
            lemma_valid_concat(seq![TokenKind::Not], predicate_tokens(*a));
        },
        _ => {
            let (a, op, b) = predicate_parts(p)->0;
            lemma_predicate_valid(a);
            lemma_predicate_valid(b);
            lemma_binary_valid(predicate_tokens(a), op, predicate_tokens(b));
            lemma_predicate_first(p);
        },
    }
}

proof fn lemma_statement_valid(st: Statement)
    requires
        statement_shape_ok(st),
    ensures
        all_valid(statement_tokens(st)),
    decreases st,
{
    lemma_statement_first(st);
    match st {
        Statement::Simple(l) => {
            lemma_valid_concat(seq![TokenKind::Upper(l.0)], subscript_tokens(l.1));
        },
        Statement::Singular(l, ts) => {
            lemma_letter_valid(l);
            let hs = as_terms(ts@);
            assert forall|i: int| 0 <= i < hs.len() implies #[trigger] term_ok(hs[i]) by {
                assert(is_term_letter(ts@[i].0));
            }
            lemma_terms_valid(hs);
            lemma_valid_concat(predicate_letter_tokens(l), terms_tokens(hs));
        },
        Statement::LogicalNegation(a) => {
            lemma_statement_valid(*a);
            lemma_valid_concat(seq![TokenKind::Not], statement_tokens(*a));
        },
        Statement::Existential(v, p) | Statement::Universal(v, p) => {
            let (q, _, _) = quantified_parts(st)->0;
            lemma_predicate_valid(p);
            lemma_valid_concat(seq![TokenKind::Lower(v.0)], subscript_tokens(v.1));
            lemma_valid_concat(seq![q], term_tokens(Term::Variable(v)));
            lemma_valid_concat(seq![q] + term_tokens(Term::Variable(v)), predicate_tokens(p));
        },
        _ => {
            let (a, op, b) = statement_parts(st)->0;
            lemma_statement_valid(a);
            lemma_statement_valid(b);
            lemma_binary_valid(statement_tokens(a), op, statement_tokens(b));
        },
    }
}

proof fn lemma_statements_valid(ss: Seq<Statement>)
    requires
        forall|i: int| 0 <= i < ss.len() ==> #[trigger] statement_shape_ok(ss[i]),
    ensures
        all_valid(statements_tokens(ss)),
    decreases ss.len(),
{
    if ss.len() == 1 {
        lemma_statement_valid(ss[0]);
    } else if ss.len() > 1 {
        assert forall|i: int| 0 <= i < ss.drop_last().len() implies #[trigger] statement_shape_ok(ss.drop_last()[i]) by {
            assert(statement_shape_ok(ss[i]));
        }
        lemma_statements_valid(ss.drop_last());
        lemma_statement_valid(ss.last());
        lemma_valid_concat(statements_tokens(ss.drop_last()), seq![TokenKind::Separator]);
        lemma_valid_concat(statements_tokens(ss.drop_last()) + seq![TokenKind::Separator], statement_tokens(ss.last()));
    }
}

/// The tokens of a tree of the surface syntax are all valid.
pub proof fn lemma_tree_valid(t: ParseTree)
    requires
        tree_shape_ok(t),
    ensures
        all_valid(tree_tokens(t)),
{
    match t {
        ParseTree::StatementSet(ss) => {
            lemma_statements_valid(ss@);
            lemma_valid_concat(seq![TokenKind::SetOpen], statements_tokens(ss@));
            lemma_valid_concat(seq![TokenKind::SetOpen] + statements_tokens(ss@), seq![TokenKind::SetClose]);
        },
        ParseTree::Argument(ps, c) => {
            lemma_statements_valid(ps@);
            lemma_statement_valid(c);
            lemma_valid_concat(statements_tokens(ps@), seq![TokenKind::Therefore]);
            lemma_valid_concat(statements_tokens(ps@) + seq![TokenKind::Therefore], statement_tokens(c));
        },
    }
}

} // verus!
