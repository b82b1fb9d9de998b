//! Parsing: tokens are read by the grammar, and the tree it builds is then
//! tested for degree agreement and for variables in scope.
use crate::ast::{
    same_predicate, same_statement, same_statements, same_tree, ParseTree, Predicate, Statement, Term,
    Variable,
};
use crate::error::{line_col_of, parsing_error_text, custom_error_text, ParseError, ParseErrorKind, Rule};
use crate::grammar::{
    lemma_tree_valid, predicate_tokens, statement_tokens, statements_tokens, term_tokens, terms_tokens, tree_shape_ok,
    tree_tokens, GeneratedParser,
};
use crate::lexer::{lemma_tokens_text_lexes, lex, lex_from, pair_spans, spans_from, tokens_text};
use vstd::prelude::*;

verus! {

/// Every predicate letter has as many terms as its degree.
pub open spec fn predicate_degrees_ok(p: Predicate) -> bool
    decreases p,
{
    match p {
        Predicate::Simple(l, ts) => (l.2).0 == ts@.len(),
        Predicate::Conjunctive(a, b) => predicate_degrees_ok(*a) && predicate_degrees_ok(*b),
        Predicate::Negative(a) => predicate_degrees_ok(*a),
        Predicate::Disjunctive(a, b) => predicate_degrees_ok(*a) && predicate_degrees_ok(*b),
        Predicate::Conditional(a, b) => predicate_degrees_ok(*a) && predicate_degrees_ok(*b),
    }
}

/// Every variable term of `p` is one of `scope`.
pub open spec fn predicate_in_scope(p: Predicate, scope: Seq<Variable>) -> bool
    decreases p,
{
    match p {
        Predicate::Simple(l, ts) => forall|i: int|
            0 <= i < ts@.len() ==> (#[trigger] ts@[i] matches Term::Variable(v) ==> scope.contains(v)),
        Predicate::Conjunctive(a, b) => predicate_in_scope(*a, scope) && predicate_in_scope(*b, scope),
        Predicate::Negative(a) => predicate_in_scope(*a, scope),
        Predicate::Disjunctive(a, b) => predicate_in_scope(*a, scope) && predicate_in_scope(*b, scope),
        Predicate::Conditional(a, b) => predicate_in_scope(*a, scope) && predicate_in_scope(*b, scope),
    }
}

/// Every predicate letter in `s` has as many terms as its degree.
pub open spec fn statement_degrees_ok(s: Statement) -> bool
    decreases s,
{
    match s {
        Statement::Simple(_) => true,
        Statement::Singular(l, ts) => (l.2).0 == ts@.len(),
        Statement::LogicalConjunction(a, b) => statement_degrees_ok(*a) && statement_degrees_ok(*b),
        Statement::LogicalNegation(a) => statement_degrees_ok(*a),
        Statement::LogicalDisjunction(a, b) => statement_degrees_ok(*a) && statement_degrees_ok(*b),
        Statement::LogicalConditional(a, b) => statement_degrees_ok(*a) && statement_degrees_ok(*b),
        Statement::Existential(_, p) => predicate_degrees_ok(p),
        Statement::Universal(_, p) => predicate_degrees_ok(p),
    }
}

/// Every variable in a quantified predicate of `s` is the quantifier's own.
pub open spec fn statement_scope_ok(s: Statement) -> bool
    decreases s,
{
    match s {
        Statement::Simple(_) => true,
        Statement::Singular(_, _) => true,
        Statement::LogicalConjunction(a, b) => statement_scope_ok(*a) && statement_scope_ok(*b),
        Statement::LogicalNegation(a) => statement_scope_ok(*a),
        Statement::LogicalDisjunction(a, b) => statement_scope_ok(*a) && statement_scope_ok(*b),
        Statement::LogicalConditional(a, b) => statement_scope_ok(*a) && statement_scope_ok(*b),
        Statement::Existential(v, p) => predicate_in_scope(p, seq![v]),
        Statement::Universal(v, p) => predicate_in_scope(p, seq![v]),
    }
}

pub open spec fn statement_valid(s: Statement) -> bool {
    statement_degrees_ok(s) && statement_scope_ok(s)
}

pub open spec fn tree_statements(t: ParseTree) -> Seq<Statement> {
    match t {
        ParseTree::StatementSet(ss) => ss@,
        ParseTree::Argument(ps, c) => ps@.push(c),
    }
}

pub open spec fn tree_degrees_ok(t: ParseTree) -> bool {
    forall|i: int| 0 <= i < tree_statements(t).len() ==> #[trigger] statement_degrees_ok(
        tree_statements(t)[i],
    )
}

pub open spec fn tree_scope_ok(t: ParseTree) -> bool {
    forall|i: int| 0 <= i < tree_statements(t).len() ==> #[trigger] statement_scope_ok(
        tree_statements(t)[i],
    )
}

/// A tree that the parser accepts: it writes in the surface syntax, its
/// degrees agree and it has no free variable.
pub open spec fn tree_well_formed(t: ParseTree) -> bool {
    tree_shape_ok(t) && tree_degrees_ok(t) && tree_scope_ok(t)
}

/// `input` lexes to the tokens that write `t`, a tree of the surface syntax.
pub open spec fn reads_as(input: Seq<char>, t: ParseTree) -> bool {
    lex_from(input, 0) == Some(tree_tokens(t)) && tree_shape_ok(t)
}

/// Structurally equal predicates pass the same tests.
pub proof fn lemma_same_predicate_validity(a: Predicate, b: Predicate, scope: Seq<Variable>)
    requires
        same_predicate(a, b),
    ensures
        predicate_degrees_ok(a) == predicate_degrees_ok(b),
        predicate_in_scope(a, scope) == predicate_in_scope(b, scope),
    decreases a,
{
    match (a, b) {
        (Predicate::Conjunctive(a1, a2), Predicate::Conjunctive(b1, b2))
        | (Predicate::Disjunctive(a1, a2), Predicate::Disjunctive(b1, b2))
        | (Predicate::Conditional(a1, a2), Predicate::Conditional(b1, b2)) => {
            lemma_same_predicate_validity(*a1, *b1, scope);
            lemma_same_predicate_validity(*a2, *b2, scope);
        },
        (Predicate::Negative(a1), Predicate::Negative(b1)) => {
            lemma_same_predicate_validity(*a1, *b1, scope);
        },
        _ => {},
    }
}

/// Structurally equal statements pass the same tests.
pub proof fn lemma_same_statement_validity(a: Statement, b: Statement)
    requires
        same_statement(a, b),
    ensures
        statement_degrees_ok(a) == statement_degrees_ok(b),
        statement_scope_ok(a) == statement_scope_ok(b),
    decreases a,
{
    match (a, b) {
        (Statement::LogicalConjunction(a1, a2), Statement::LogicalConjunction(b1, b2))
        | (Statement::LogicalDisjunction(a1, a2), Statement::LogicalDisjunction(b1, b2))
        | (Statement::LogicalConditional(a1, a2), Statement::LogicalConditional(b1, b2)) => {
            lemma_same_statement_validity(*a1, *b1);
            lemma_same_statement_validity(*a2, *b2);
        },
        (Statement::LogicalNegation(a1), Statement::LogicalNegation(b1)) => {
            lemma_same_statement_validity(*a1, *b1);
        },
        (Statement::Existential(v1, p1), Statement::Existential(v2, p2))
        | (Statement::Universal(v1, p1), Statement::Universal(v2, p2)) => {
            lemma_same_predicate_validity(p1, p2, seq![v1]);
        },
        _ => {},
    }
}

/// Structurally equal trees pass the same tests.
pub proof fn lemma_same_tree_validity(a: ParseTree, b: ParseTree)
    requires
        same_tree(a, b),
    ensures
        tree_degrees_ok(a) == tree_degrees_ok(b),
        tree_scope_ok(a) == tree_scope_ok(b),
{
    let sa = tree_statements(a);
    let sb = tree_statements(b);
    assert(sa.len() == sb.len());
    assert forall|i: int| 0 <= i < sa.len() implies statement_degrees_ok(#[trigger] sa[i]) == statement_degrees_ok(sb[i])
        && statement_scope_ok(sa[i]) == statement_scope_ok(sb[i]) by {
        match (a, b) {
            (ParseTree::StatementSet(x), ParseTree::StatementSet(y)) => {
                assert(same_statement(x@[i], y@[i]));
            },
            (ParseTree::Argument(x, c), ParseTree::Argument(y, d)) => {
                if i < x@.len() {
                    assert(same_statement(x@[i], y@[i]));
                    assert(sa[i] == x@[i] && sb[i] == y@[i]);
                } else {
                    assert(sa[i] == c && sb[i] == d);
                }
            },
            _ => {},
        }
        lemma_same_statement_validity(sa[i], sb[i]);
    }
    if tree_degrees_ok(b) {
        assert forall|i: int| 0 <= i < sa.len() implies #[trigger] statement_degrees_ok(sa[i]) by {
            assert(statement_degrees_ok(sb[i]));
        }
    }
    if tree_degrees_ok(a) {
        assert forall|i: int| 0 <= i < sb.len() implies #[trigger] statement_degrees_ok(sb[i]) by {
            assert(statement_degrees_ok(sa[i]));
        }
    }
    if tree_scope_ok(b) {
        assert forall|i: int| 0 <= i < sa.len() implies #[trigger] statement_scope_ok(sa[i]) by {
            assert(statement_scope_ok(sb[i]));
        }
    }
    if tree_scope_ok(a) {
        assert forall|i: int| 0 <= i < sb.len() implies #[trigger] statement_scope_ok(sb[i]) by {
            assert(statement_scope_ok(sa[i]));
        }
    }
}

/// The canonical text of a tree: each of its tokens in its canonical
/// glyph, followed by a space.
pub open spec fn tree_text(t: ParseTree) -> Seq<char> {
    tokens_text(tree_tokens(t))
}

/// Rendering a tree of the surface syntax as canonical text and reading the
/// text back gives the tree. Together with the contract of `Parser::parse`,
/// an accepted tree, rendered and parsed again, comes back structurally
/// equal.
pub proof fn lemma_canonical_text_reads_back(t: ParseTree)
    requires
        tree_shape_ok(t),
    ensures
        reads_as(tree_text(t), t),
{
    lemma_tree_valid(t);
    let s = tree_text(t);
    assert(s.subrange(0, s.len() as int) =~= s);
    lemma_tokens_text_lexes(s, 0, tree_tokens(t));
}

/// The first of two outcomes that is an offence.
pub open spec fn first_of(x: Option<(ParseErrorKind, int, int)>, y: Option<(ParseErrorKind, int, int)>) -> Option<
    (ParseErrorKind, int, int),
> {
    if x is Some { x } else { y }
}

/// The first offending site of a predicate whose tokens start at `off`, in
/// source order: its kind and the range of its tokens. At a simple predicate
/// the degree is tested before the scope.
pub open spec fn predicate_offence(p: Predicate, off: int, scope: Seq<Variable>) -> Option<
    (ParseErrorKind, int, int),
>
    decreases p,
{
    match p {
        Predicate::Simple(l, ts) => {
            let end = off + predicate_tokens(p).len();
            if (l.2).0 != ts@.len() {
                Some((ParseErrorKind::DegreeMismatch, off, end))
            } else if !predicate_in_scope(p, scope) {
                Some((ParseErrorKind::FreeVariable, off, end))
            } else {
                None
            }
        },
        Predicate::Negative(a) => predicate_offence(*a, off + 1, scope),
        Predicate::Conjunctive(a, b) | Predicate::Disjunctive(a, b) | Predicate::Conditional(a, b) =>
            first_of(
            predicate_offence(*a, off + 1, scope),
            predicate_offence(*b, off + 2 + predicate_tokens(*a).len(), scope),
        ),
    }
}

/// The first offending site of a statement whose tokens start at `off`.
pub open spec fn statement_offence(s: Statement, off: int) -> Option<(ParseErrorKind, int, int)>
    decreases s,
{
    match s {
        Statement::Simple(_) => None,
        Statement::Singular(l, ts) => if (l.2).0 != ts@.len() {
            Some((ParseErrorKind::DegreeMismatch, off, off + statement_tokens(s).len()))
        } else {
            None
        },
        Statement::LogicalNegation(a) => statement_offence(*a, off + 1),
        Statement::LogicalConjunction(a, b) | Statement::LogicalDisjunction(a, b)
        | Statement::LogicalConditional(a, b) => first_of(
            statement_offence(*a, off + 1),
            statement_offence(*b, off + 2 + statement_tokens(*a).len()),
        ),
        Statement::Existential(v, p) | Statement::Universal(v, p) => predicate_offence(
            p,
            off + 1 + term_tokens(Term::Variable(v)).len(),
            seq![v],
        ),
    }
}

/// The first offending site of statements separated by commas, whose tokens
/// start at `base`.
pub open spec fn statements_offence(ss: Seq<Statement>, base: int) -> Option<(ParseErrorKind, int, int)>
    decreases ss.len(),
{
    if ss.len() == 0 {
        None
    } else if ss.len() == 1 {
        statement_offence(ss[0], base)
    } else {
        first_of(
            statements_offence(ss.drop_last(), base),
            statement_offence(ss.last(), base + statements_tokens(ss.drop_last()).len() + 1),
        )
    }
}

/// The first offending site of a tree, as token positions in its tokens.
pub open spec fn tree_offence(t: ParseTree) -> Option<(ParseErrorKind, int, int)> {
    match t {
        ParseTree::StatementSet(ss) => statements_offence(ss@, 1),
        ParseTree::Argument(ps, c) => first_of(
            statements_offence(ps@, 0),
            statement_offence(c, statements_tokens(ps@).len() + 1int),
        ),
    }
}

/// The reason given in the message of a semantic error.
pub open spec fn offence_reason(k: ParseErrorKind) -> Seq<char> {
    if k == ParseErrorKind::DegreeMismatch {
        "degree doesn't match number of terms specified"@
    } else {
        "predicate binds to variable that isn't in scope"@
    }
}

proof fn lemma_statements_offence_prefix(ss: Seq<Statement>, base: int, k: int)
    requires
        0 < k <= ss.len(),
        statements_offence(ss.take(k), base) is Some,
    ensures
        statements_offence(ss, base) == statements_offence(ss.take(k), base),
    decreases ss.len(),
{
    if k < ss.len() {
        assert(ss.drop_last().take(k) =~= ss.take(k));
        lemma_statements_offence_prefix(ss.drop_last(), base, k);
    } else {
        assert(ss.take(k) =~= ss);
    }
}

/// Structurally equal predicates are written alike and offend alike.
pub proof fn lemma_same_predicate_offence(a: Predicate, b: Predicate, off: int, scope: Seq<Variable>)
    requires
        same_predicate(a, b),
    ensures
        predicate_tokens(a) == predicate_tokens(b),
        predicate_offence(a, off, scope) == predicate_offence(b, off, scope),
    decreases a,
{
    match (a, b) {
        (Predicate::Conjunctive(a1, a2), Predicate::Conjunctive(b1, b2))
        | (Predicate::Disjunctive(a1, a2), Predicate::Disjunctive(b1, b2))
        | (Predicate::Conditional(a1, a2), Predicate::Conditional(b1, b2)) => {
            lemma_same_predicate_offence(*a1, *b1, off + 1, scope);
            lemma_same_predicate_offence(*a2, *b2, off + 2 + predicate_tokens(*a1).len(), scope);
        },
        (Predicate::Negative(a1), Predicate::Negative(b1)) => {
            lemma_same_predicate_offence(*a1, *b1, off + 1, scope);
        },
        _ => {},
    }
}

/// Structurally equal statements are written alike and offend alike.
pub proof fn lemma_same_statement_offence(a: Statement, b: Statement, off: int)
    requires
        same_statement(a, b),
    ensures
        statement_tokens(a) == statement_tokens(b),
        statement_offence(a, off) == statement_offence(b, off),
    decreases a,
{
    match (a, b) {
        (Statement::LogicalConjunction(a1, a2), Statement::LogicalConjunction(b1, b2))
        | (Statement::LogicalDisjunction(a1, a2), Statement::LogicalDisjunction(b1, b2))
        | (Statement::LogicalConditional(a1, a2), Statement::LogicalConditional(b1, b2)) => {
            lemma_same_statement_offence(*a1, *b1, off + 1);
            lemma_same_statement_offence(*a2, *b2, off + 2 + statement_tokens(*a1).len());
        },
        (Statement::LogicalNegation(a1), Statement::LogicalNegation(b1)) => {
            lemma_same_statement_offence(*a1, *b1, off + 1);
        },
        (Statement::Existential(v1, p1), Statement::Existential(v2, p2))
        | (Statement::Universal(v1, p1), Statement::Universal(v2, p2)) => {
            lemma_same_predicate_offence(p1, p2, off + 1 + term_tokens(Term::Variable(v1)).len(), seq![v1]);
        },
        _ => {},
    }
}

proof fn lemma_same_statements_offence(a: Seq<Statement>, b: Seq<Statement>, base: int)
    requires
        same_statements(a, b),
    ensures
        statements_tokens(a) == statements_tokens(b),
        statements_offence(a, base) == statements_offence(b, base),
    decreases a.len(),
{
    if a.len() == 1 {
        assert(same_statement(a[0], b[0]));
        lemma_same_statement_offence(a[0], b[0], base);
    } else if a.len() > 1 {
        assert forall|i: int| 0 <= i < a.drop_last().len() implies #[trigger] same_statement(a.drop_last()[i], b.drop_last()[i]) by {
            assert(same_statement(a[i], b[i]));
        }
        lemma_same_statements_offence(a.drop_last(), b.drop_last(), base);
        assert(same_statement(a[a.len() - 1], b[b.len() - 1]));
        lemma_same_statement_offence(a.last(), b.last(), base + statements_tokens(a.drop_last()).len() + 1);
    }
}

/// Structurally equal trees are written alike and offend alike.
pub proof fn lemma_same_tree_offence(a: ParseTree, b: ParseTree)
    requires
        same_tree(a, b),
    ensures
        tree_offence(a) == tree_offence(b),
{
    match (a, b) {
        (ParseTree::StatementSet(x), ParseTree::StatementSet(y)) => {
            lemma_same_statements_offence(x@, y@, 1);
        },
        (ParseTree::Argument(x, c), ParseTree::Argument(y, d)) => {
            lemma_same_statements_offence(x@, y@, 0);
            lemma_same_statement_offence(c, d, statements_tokens(x@).len() + 1int);
        },
        _ => {},
    }
}

/// A semantic error over the tokens `first..last`.
struct Offence {
    kind: ParseErrorKind,
    first: usize,
    last: usize,
}

spec fn offence_ok(o: Offence, off: int, end: int) -> bool {
    &&& off <= o.first < o.last <= end
    &&& o.kind != ParseErrorKind::Syntax
}

/// The parser of statement sets and arguments.
pub struct Parser {}

impl Parser {
    pub fn new() -> (r: Self) {
        Parser {}
    }

    fn subscript_width(present: bool) -> (r: usize)
        ensures
            r == if present { 1usize } else { 0usize },
    {
        if present { 1 } else { 0 }
    }

    /// The number of tokens that write `ts`, and whether each variable among
    /// them is in `stack`.
    fn scan_terms(ts: &Vec<Term>, stack: &Vec<Variable>, limit: usize) -> (r: (usize, bool))
        requires
            terms_tokens(ts@).len() <= limit,
        ensures
            r.0 == terms_tokens(ts@).len(),
            r.1 == forall|i: int|
                0 <= i < ts@.len() ==> (#[trigger] ts@[i] matches Term::Variable(v) ==> stack@.contains(v)),
    {
        let mut width: usize = 0;
        let mut bound = true;
        let mut i: usize = 0;
        while i < ts.len()
            invariant
                i <= ts.len(),
                terms_tokens(ts@).len() <= limit,
                width == terms_tokens(ts@.take(i as int)).len(),
                bound == forall|k: int|
                    0 <= k < i ==> (#[trigger] ts@[k] matches Term::Variable(v) ==> stack@.contains(v)),
            decreases ts.len() - i,
        {
            proof {
                assert(ts@.take(i + 1).drop_last() =~= ts@.take(i as int));
                lemma_terms_tokens_prefix(ts@, i + 1);
            }
            let (w, v) = match ts[i] {
                Term::SingularTerm(t) => (1 + Self::subscript_width(t.1.0.is_some()), None),
                Term::Variable(x) => (1 + Self::subscript_width(x.1.0.is_some()), Some(x)),
            };
            assert(w == term_tokens(ts@[i as int]).len());
            if let Some(x) = v {
                let mut found = false;
                let mut k: usize = 0;
                while k < stack.len()
                    invariant
                        k <= stack.len(),
                        found == exists|j: int| 0 <= j < k && stack@[j] == x,
                    decreases stack.len() - k,
                {
                    if stack[k] == x {
                        found = true;
                    }
                    k = k + 1;
                }
                proof {
                    if found {
                        let j = choose|j: int| 0 <= j < k && stack@[j] == x;
                        assert(stack@.contains(x));
                    } else {
                        assert(!stack@.contains(x));
                    }
                }
                bound = bound && found;
            }
            width = width + w;
            i = i + 1;
        }
        proof {
            assert(ts@.take(i as int) =~= ts@);
        }
        (width, bound)
    }

    /// Validates a predicate whose tokens start at `off`. Returns where they
    /// end, or the first offence in the predicate.
    fn validate_predicate(&self, p: &Predicate, off: usize, stack: &Vec<Variable>, limit: usize) -> (r: Result<usize, Offence>)
        requires
            off + predicate_tokens(*p).len() <= limit,
        ensures
            r matches Ok(e) ==> e == off + predicate_tokens(*p).len() && predicate_degrees_ok(*p)
                && predicate_in_scope(*p, stack@),
            r matches Err(o) ==> offence_ok(o, off as int, off + predicate_tokens(*p).len()) && (
            o.kind == ParseErrorKind::DegreeMismatch ==> !predicate_degrees_ok(*p)) && (o.kind
                == ParseErrorKind::FreeVariable ==> !predicate_in_scope(*p, stack@)),
            r is Ok <==> predicate_offence(*p, off as int, stack@) is None,
            r matches Err(o) ==> predicate_offence(*p, off as int, stack@) == Some(
                (o.kind, o.first as int, o.last as int),
            ),
        decreases p,
    {
        match p {
            Predicate::Simple(l, ts) => {
                let lw = 2 + Self::subscript_width(l.1.0.is_some());
                let (tw, bound) = Self::scan_terms(ts, stack, limit);
                let end = off + lw + tw;
                if l.2.0 != ts.len() as u64 {
                    return Err(Offence { kind: ParseErrorKind::DegreeMismatch, first: off, last: end });
                }
                if !bound {
                    return Err(Offence { kind: ParseErrorKind::FreeVariable, first: off, last: end });
                }
                Ok(end)
            },
            Predicate::Negative(a) => self.validate_predicate(a, off + 1, stack, limit),
            Predicate::Conjunctive(a, b) | Predicate::Disjunctive(a, b) | Predicate::Conditional(a, b) => {
                let m = self.validate_predicate(a, off + 1, stack, limit)?;
                let e = self.validate_predicate(b, m + 1, stack, limit)?;
                Ok(e + 1)
            },
        }
    }

    /// Parses `input`: a statement set between braces, or premises and a
    /// conclusion. The tree is returned where the input is written in the
    /// grammar, every predicate letter has as many terms as its degree, and
    /// every variable in a predicate is bound by the enclosing quantifier.
    pub fn parse(&self, input: &str) -> (r: Result<ParseTree, ParseError>)
        ensures
            r matches Ok(t) ==> reads_as(input@, t) && tree_well_formed(t),
            forall|t0: ParseTree| #[trigger] reads_as(input@, t0) && tree_well_formed(t0) ==> (r matches Ok(t)
                && same_tree(t, t0)),
            r matches Err(e) ==> (e.kind == ParseErrorKind::Syntax <==> !exists|t0: ParseTree|
                #[trigger] reads_as(input@, t0)),
            r matches Err(e) ==> (e.kind == ParseErrorKind::DegreeMismatch ==> forall|t0: ParseTree|
                #[trigger] reads_as(input@, t0) ==> !tree_degrees_ok(t0)),
            r matches Err(e) ==> (e.kind == ParseErrorKind::FreeVariable ==> forall|t0: ParseTree|
                #[trigger] reads_as(input@, t0) ==> !tree_scope_ok(t0)),
            r matches Err(e) ==> e.location.0 >= 1 && e.location.1 >= 1,
            r matches Err(e) ==> (e.kind == ParseErrorKind::Syntax ==> exists|at: int, rule: Rule|
                0 <= at <= input@.len() && e.location == line_col_of(input@, at)
                && e.decorated_message@ == parsing_error_text(input@, at, rule)),
            forall|t0: ParseTree| #[trigger] reads_as(input@, t0) ==> match tree_offence(t0) {
                None => r is Ok,
                Some(x) => r matches Err(e) && e.kind == x.0 && e.location == line_col_of(
                    input@,
                    spans_from(input@, 0)[x.1].0,
                ) && e.decorated_message@ == custom_error_text(
                    input@,
                    spans_from(input@, 0)[x.1].0,
                    spans_from(input@, 0)[x.2 - 1].1,
                    offence_reason(x.0),
                ),
            },
            forall|t0: ParseTree| #[trigger] reads_as(input@, t0) && !(tree_degrees_ok(t0) && tree_scope_ok(t0))
                ==> r is Err,
            forall|t0: ParseTree| #[trigger] reads_as(input@, t0) && tree_scope_ok(t0) && !tree_degrees_ok(t0)
                ==> (r matches Err(e) && e.kind == ParseErrorKind::DegreeMismatch),
            forall|t0: ParseTree| #[trigger] reads_as(input@, t0) && tree_degrees_ok(t0) && !tree_scope_ok(t0)
                ==> (r matches Err(e) && e.kind == ParseErrorKind::FreeVariable),
    {
        let n = input.unicode_len();
        let mut chars: Vec<char> = Vec::new();
        let mut i: usize = 0;
        while i < n
            invariant
                i <= n,
                n == input@.len(),
                chars@ == input@.take(i as int),
            decreases n - i,
        {
            chars.push(input.get_char(i));
            i = i + 1;
            proof {
                assert(chars@ =~= input@.take(i as int));
            }
        }
        proof {
            assert(chars@ =~= input@);
        }
        let lexed = match lex(&chars) {
            Ok(l) => l,
            Err(p) => {
                let e = ParseError::new_from_parsing_error(input, p, Rule::statement);
                assert(e.location == line_col_of(input@, p as int));
                return Err(e);
            },
        };
        let toks = &lexed.kinds;
        let tree = match GeneratedParser::parse(toks) {
            Ok(t) => t,
            Err(x) => {
                let at = if x.at < toks.len() { lexed.starts[x.at] } else { n };
                let e = ParseError::new_from_parsing_error(input, at, x.rule);
                assert(e.location == line_col_of(input@, at as int));
                return Err(e);
            },
        };
        let ghost gt = tree;
        proof {
            assert forall|t0: ParseTree| #[trigger] reads_as(input@, t0) implies same_tree(gt, t0) && tree_degrees_ok(gt)
                == tree_degrees_ok(t0) && tree_scope_ok(gt) == tree_scope_ok(t0) && tree_offence(gt)
                == tree_offence(t0) by {
                lemma_same_tree_validity(gt, t0);
                lemma_same_tree_offence(gt, t0);
            }
            assert(reads_as(input@, gt));
        }
        let validated = match &tree {
            ParseTree::StatementSet(v) => self.validate_statements(v, 1, toks.len()),
            ParseTree::Argument(v, c) => match self.validate_statements(v, 0, toks.len()) {
                Ok(e) => self.validate_statement(c, e + 1, toks.len()),
                Err(o) => Err(o),
            },
        };
        proof {
            let ss = tree_statements(gt);
            if let ParseTree::Argument(v, c) = gt {
                assert forall|k: int| 0 <= k < v@.len() implies ss[k] == v@[k] by {}
                assert(ss[v@.len() as int] == c);
            }
            assert(validated is Ok <==> tree_offence(gt) is None);
            assert(validated matches Err(o) ==> tree_offence(gt) == Some(
                (o.kind, o.first as int, o.last as int),
            ));
            assert(pair_spans(lexed.starts@, lexed.ends@) == spans_from(input@, 0));
        }
        match validated {
            Ok(_) => {
                proof {
                    let ss = tree_statements(gt);
                    assert forall|k: int| 0 <= k < ss.len() implies #[trigger] statement_valid(ss[k]) by {
                        if let ParseTree::Argument(v, c) = gt {
                            if k < v@.len() {
                                assert(statement_valid(v@[k]));
                            }
                        }
                    }
                    assert forall|k: int| 0 <= k < ss.len() implies #[trigger] statement_degrees_ok(ss[k]) by {
                        assert(statement_valid(ss[k]));
                    }
                    assert forall|k: int| 0 <= k < ss.len() implies #[trigger] statement_scope_ok(ss[k]) by {
                        assert(statement_valid(ss[k]));
                    }
                }
                Ok(tree)
            },
            Err(o) => {
                let start = lexed.starts[o.first];
                let end = lexed.ends[o.last - 1];
                proof {
                    if o.first < o.last - 1 {
                        assert(lexed.ends@[o.first as int] <= lexed.starts@[o.last - 1]);
                    }
                    assert(lexed.starts@[o.last - 1] < lexed.ends@[o.last - 1]);
                    assert(lexed.starts@[o.first as int] < lexed.ends@[o.first as int]);
                    let ss = tree_statements(gt);
                    if o.kind == ParseErrorKind::DegreeMismatch {
                        if let ParseTree::Argument(v, c) = gt {
                            if !statement_degrees_ok(c) {
                                assert(!statement_degrees_ok(ss[v@.len() as int]));
                            } else {
                                let k = choose|k: int| 0 <= k < v@.len() && !#[trigger] statement_degrees_ok(v@[k]);
                                assert(!statement_degrees_ok(ss[k]));
                            }
                        } else {
                            let k = choose|k: int| 0 <= k < ss.len() && !#[trigger] statement_degrees_ok(ss[k]);
                        }
                    }
                    if o.kind == ParseErrorKind::FreeVariable {
                        if let ParseTree::Argument(v, c) = gt {
                            if !statement_scope_ok(c) {
                                assert(!statement_scope_ok(ss[v@.len() as int]));
                            } else {
                                let k = choose|k: int| 0 <= k < v@.len() && !#[trigger] statement_scope_ok(v@[k]);
                                assert(!statement_scope_ok(ss[k]));
                            }
                        } else {
                            let k = choose|k: int| 0 <= k < ss.len() && !#[trigger] statement_scope_ok(ss[k]);
                        }
                    }
                }
                let message = if o.kind == ParseErrorKind::DegreeMismatch {
                    "degree doesn't match number of terms specified"
                } else {
                    "predicate binds to variable that isn't in scope"
                };
                let e = ParseError::new_from_custom_error(input, start, end, message, o.kind);
                assert(e.location == line_col_of(input@, start as int));
                proof {
                    assert(spans_from(input@, 0)[o.first as int].0 == start);
                    assert(spans_from(input@, 0)[o.last - 1].1 == end);
                    assert(message@ == offence_reason(o.kind));
                }
                Err(e)
            },
        }
    }

    /// Validates statements separated by commas, whose tokens start at `base`.
    fn validate_statements(&self, v: &Vec<Statement>, base: usize, limit: usize) -> (r: Result<usize, Offence>)
        requires
            base + statements_tokens(v@).len() <= limit,
        ensures
            r matches Ok(e) ==> e == base + statements_tokens(v@).len() && forall|i: int|
                0 <= i < v@.len() ==> #[trigger] statement_valid(v@[i]),
            r matches Err(o) ==> offence_ok(o, base as int, base + statements_tokens(v@).len()) && (
            o.kind == ParseErrorKind::DegreeMismatch ==> exists|i: int|
                0 <= i < v@.len() && !#[trigger] statement_degrees_ok(v@[i])) && (o.kind
                == ParseErrorKind::FreeVariable ==> exists|i: int|
                0 <= i < v@.len() && !#[trigger] statement_scope_ok(v@[i])),
            r is Ok <==> statements_offence(v@, base as int) is None,
            r matches Err(o) ==> statements_offence(v@, base as int) == Some(
                (o.kind, o.first as int, o.last as int),
            ),
    {
        let mut off = base;
        let mut i: usize = 0;
        while i < v.len()
            invariant
                i <= v.len(),
                v.len() > 0 ==> i < v.len(),
                base + statements_tokens(v@).len() <= limit,
                off == base + statements_tokens(v@.take(i as int)).len() + if i > 0 { 1int } else { 0int },
                statements_tokens(v@.take(i as int)).len() + if i > 0 { 1int } else { 0int }
                    <= statements_tokens(v@).len() + 1,
                forall|k: int| 0 <= k < i ==> #[trigger] statement_valid(v@[k]),
                statements_offence(v@.take(i as int), base as int) is None,
            decreases v.len() - i,
        {
            proof {
                lemma_statements_tokens_prefix(v@, i + 1);
                assert(v@.take(i + 1).drop_last() =~= v@.take(i as int));
                if i == 0 {
                    assert(v@.take(1)[0] == v@[0]);
                }
                assert(v@.take(i + 1).last() == v@[i as int]);
            }
            proof {
                assert(statements_offence(v@.take(i + 1), base as int) == first_of(
                    statements_offence(v@.take(i as int), base as int),
                    statement_offence(v@[i as int], off as int),
                ));
            }
            let e = match self.validate_statement(&v[i], off, limit) {
                Ok(e) => e,
                Err(o) => {
                    proof {
                        lemma_statements_offence_prefix(v@, base as int, i + 1);
                    }
                    return Err(o);
                },
            };
            if i + 1 == v.len() {
                proof {
                    assert(v@.take(i + 1) =~= v@);
                }
                return Ok(e);
            }
            off = e + 1;
            i = i + 1;
            proof {
                if i < v.len() {
                    lemma_statements_tokens_prefix(v@, i + 1);
                }
            }
        }
        Ok(base)
    }

    /// Validates a statement whose tokens start at `off`.
    fn validate_statement(&self, s: &Statement, off: usize, limit: usize) -> (r: Result<usize, Offence>)
        requires
            off + statement_tokens(*s).len() <= limit,
        ensures
            r matches Ok(e) ==> e == off + statement_tokens(*s).len() && statement_valid(*s),
            r matches Err(o) ==> offence_ok(o, off as int, off + statement_tokens(*s).len()) && (
            o.kind == ParseErrorKind::DegreeMismatch ==> !statement_degrees_ok(*s)) && (o.kind
                == ParseErrorKind::FreeVariable ==> !statement_scope_ok(*s)),
            r is Ok <==> statement_offence(*s, off as int) is None,
            r matches Err(o) ==> statement_offence(*s, off as int) == Some(
                (o.kind, o.first as int, o.last as int),
            ),
        decreases s,
    {
        match s {
            Statement::Simple(l) => Ok(off + 1 + Self::subscript_width(l.1.0.is_some())),
            Statement::Singular(l, ts) => {
                let lw = 2 + Self::subscript_width(l.1.0.is_some());
                let mut tw: usize = 0;
                let mut i: usize = 0;
                while i < ts.len()
                    invariant
                        i <= ts.len(),
                        off + statement_tokens(*s).len() <= limit,
                        *s == Statement::Singular(*l, *ts),
                        tw == terms_tokens(crate::grammar::as_terms(ts@.take(i as int))).len(),
                    decreases ts.len() - i,
                {
                    proof {
                        let all = crate::grammar::as_terms(ts@);
                        assert(crate::grammar::as_terms(ts@.take(i + 1)) =~= all.take(i + 1));
                        assert(crate::grammar::as_terms(ts@.take(i as int)) =~= all.take(i as int));
                        assert(all.take(i + 1).drop_last() =~= all.take(i as int));
                        lemma_terms_tokens_prefix(all, i + 1);
                    }
                    tw = tw + 1 + Self::subscript_width(ts[i].1.0.is_some());
                    i = i + 1;
                }
                proof {
                    assert(ts@.take(i as int) =~= ts@);
                }
                let end = off + lw + tw;
                if l.2.0 != ts.len() as u64 {
                    return Err(Offence { kind: ParseErrorKind::DegreeMismatch, first: off, last: end });
                }
                Ok(end)
            },
            Statement::LogicalNegation(a) => self.validate_statement(a, off + 1, limit),
            Statement::LogicalConjunction(a, b) | Statement::LogicalDisjunction(a, b)
            | Statement::LogicalConditional(a, b) => {
                let m = self.validate_statement(a, off + 1, limit)?;
                let e = self.validate_statement(b, m + 1, limit)?;
                Ok(e + 1)
            },
            Statement::Existential(v, p) | Statement::Universal(v, p) => {
                let mut stack: Vec<Variable> = Vec::new();
                stack.push(*v);
                proof {
                    assert(stack@ =~= seq![*v]);
                }
                let vw = 1 + Self::subscript_width(v.1.0.is_some());
                self.validate_predicate(p, off + 1 + vw, &stack, limit)
            },
        }
    }
}

proof fn lemma_statements_tokens_prefix(ss: Seq<Statement>, k: int)
    requires
        0 < k <= ss.len(),
    ensures
        statements_tokens(ss.take(k)).len() + if k < ss.len() { 1int } else { 0int }
            <= statements_tokens(ss).len(),
    decreases ss.len(),
{
    if k < ss.len() {
        assert(ss.drop_last().take(k) =~= ss.take(k));
        if k < ss.len() - 1 {
            lemma_statements_tokens_prefix(ss.drop_last(), k);
        } else {
            assert(ss.take(k) =~= ss.drop_last());
        }
    } else {
        assert(ss.take(k) =~= ss);
    }
}

proof fn lemma_terms_tokens_prefix(ts: Seq<Term>, k: int)
    requires
        0 <= k <= ts.len(),
    ensures
        terms_tokens(ts.take(k)).len() <= terms_tokens(ts).len(),
    decreases ts.len(),
{
    if k < ts.len() {
        assert(ts.drop_last().take(k) =~= ts.take(k));
        lemma_terms_tokens_prefix(ts.drop_last(), k);
    } else {
        assert(ts.take(k) =~= ts);
    }
}

} // verus!
