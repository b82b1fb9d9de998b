//! The abstract syntax of statements, predicates and parse trees.
use vstd::prelude::*;

verus! {

/// An optional numeric tag on a letter. An absent subscript differs from a
/// subscript of zero.
#[derive(Debug, Clone, Copy, PartialEq, Eq, Structural)]
pub struct Subscript(pub Option<u64>);

impl Subscript {
    /// True when the subscript is present and equals `rhs`.
    pub fn eq_number(&self, rhs: u64) -> (r: bool)
        ensures
            r == (self.0 == Some(rhs)),
    {
        match self.0 {
            Some(lhs) => lhs == rhs,
            None => false,
        }
    }
}

/// A sentence letter: an uppercase letter and its subscript.
#[derive(Debug, Clone, Copy, PartialEq, Eq, Structural)]
pub struct SimpleStatementLetter(pub char, pub Subscript);

/// A constant naming an individual.
#[derive(Debug, Clone, Copy, PartialEq, Eq, Structural)]
pub struct SingularTerm(pub char, pub Subscript);

/// A variable that a quantifier binds.
#[derive(Debug, Clone, Copy, PartialEq, Eq, Structural)]
pub struct Variable(pub char, pub Subscript);

/// The arity of a predicate letter.
#[derive(Debug, Clone, Copy, PartialEq, Eq, Structural)]
pub struct Degree(pub u64);

impl Degree {
    /// True when the degree equals `rhs`.
    pub fn eq_number(&self, rhs: u64) -> (r: bool)
        ensures
            r == (self.0 == rhs),
    {
        self.0 == rhs
    }
}

/// A predicate letter: uppercase letter, subscript and degree.
#[derive(Debug, Clone, Copy, PartialEq, Eq, Structural)]
pub struct PredicateLetter(pub char, pub Subscript, pub Degree);

/// An argument place of a predicate.
#[derive(Debug, Clone, Copy, PartialEq, Eq, Structural)]
pub enum Term {
    SingularTerm(SingularTerm),
    Variable(Variable),
}

/// A closed formula.
#[derive(Debug)]
pub enum Statement {
    Simple(SimpleStatementLetter),
    Singular(PredicateLetter, Vec<SingularTerm>),
    LogicalConjunction(Box<Statement>, Box<Statement>),
    LogicalNegation(Box<Statement>),
    LogicalDisjunction(Box<Statement>, Box<Statement>),
    LogicalConditional(Box<Statement>, Box<Statement>),
    Existential(Variable, Predicate),
    Universal(Variable, Predicate),
}

/// An open formula, found under a quantifier.
#[derive(Debug)]
pub enum Predicate {
    Simple(PredicateLetter, Vec<Term>),
    Conjunctive(Box<Predicate>, Box<Predicate>),
    Negative(Box<Predicate>),
    Disjunctive(Box<Predicate>, Box<Predicate>),
    Conditional(Box<Predicate>, Box<Predicate>),
}

/// What an input holds: a set of statements, or premises and a conclusion.
#[derive(Debug)]
pub enum ParseTree {
    StatementSet(Vec<Statement>),
    Argument(Vec<Statement>, Statement),
}

/// Structural equality of predicates, comparing term lists by their contents.
pub open spec fn same_predicate(a: Predicate, b: Predicate) -> bool
    decreases a,
{
    match (a, b) {
        (Predicate::Simple(l1, t1), Predicate::Simple(l2, t2)) => l1 == l2 && t1@ == t2@,
        (Predicate::Conjunctive(a1, a2), Predicate::Conjunctive(b1, b2)) => same_predicate(*a1, *b1)
            && same_predicate(*a2, *b2),
        (Predicate::Negative(a1), Predicate::Negative(b1)) => same_predicate(*a1, *b1),
        (Predicate::Disjunctive(a1, a2), Predicate::Disjunctive(b1, b2)) => same_predicate(*a1, *b1)
            && same_predicate(*a2, *b2),
        (Predicate::Conditional(a1, a2), Predicate::Conditional(b1, b2)) => same_predicate(*a1, *b1)
            && same_predicate(*a2, *b2),
        _ => false,
    }
}

/// Structural equality of statements, comparing term lists by their contents.
pub open spec fn same_statement(a: Statement, b: Statement) -> bool
    decreases a,
{
    match (a, b) {
        (Statement::Simple(l1), Statement::Simple(l2)) => l1 == l2,
        (Statement::Singular(l1, t1), Statement::Singular(l2, t2)) => l1 == l2 && t1@ == t2@,
        (Statement::LogicalConjunction(a1, a2), Statement::LogicalConjunction(b1, b2)) =>
            same_statement(*a1, *b1) && same_statement(*a2, *b2),
        (Statement::LogicalNegation(a1), Statement::LogicalNegation(b1)) => same_statement(*a1, *b1),
        (Statement::LogicalDisjunction(a1, a2), Statement::LogicalDisjunction(b1, b2)) =>
            same_statement(*a1, *b1) && same_statement(*a2, *b2),
        (Statement::LogicalConditional(a1, a2), Statement::LogicalConditional(b1, b2)) =>
            same_statement(*a1, *b1) && same_statement(*a2, *b2),
        (Statement::Existential(v1, p1), Statement::Existential(v2, p2)) => v1 == v2
            && same_predicate(p1, p2),
        (Statement::Universal(v1, p1), Statement::Universal(v2, p2)) => v1 == v2 && same_predicate(
            p1,
            p2,
        ),
        _ => false,
    }
}

/// Element-wise structural equality of two statement lists.
pub open spec fn same_statements(a: Seq<Statement>, b: Seq<Statement>) -> bool {
    a.len() == b.len() && forall|i: int| 0 <= i < a.len() ==> #[trigger] same_statement(a[i], b[i])
}

/// Structural equality of parse trees.
pub open spec fn same_tree(a: ParseTree, b: ParseTree) -> bool {
    match (a, b) {
        (ParseTree::StatementSet(s1), ParseTree::StatementSet(s2)) => same_statements(s1@, s2@),
        (ParseTree::Argument(p1, c1), ParseTree::Argument(p2, c2)) => same_statements(p1@, p2@)
            && same_statement(c1, c2),
        _ => false,
    }
}

fn equal_terms(a: &Vec<Term>, b: &Vec<Term>) -> (r: bool)
    ensures
        r == (a@ == b@),
{
    if a.len() != b.len() {
        return false;
    }
    let mut i: usize = 0;
    while i < a.len()
        invariant
            i <= a.len(),
            a.len() == b.len(),
            forall|k: int| 0 <= k < i ==> a@[k] == b@[k],
        decreases a.len() - i,
    {
        if a[i] != b[i] {
            return false;
        }
        i = i + 1;
    }
    proof {
        assert(a@ =~= b@);
    }
    true
}

fn equal_singular_terms(a: &Vec<SingularTerm>, b: &Vec<SingularTerm>) -> (r: bool)
    ensures
        r == (a@ == b@),
{
    if a.len() != b.len() {
        return false;
    }
    let mut i: usize = 0;
    while i < a.len()
        invariant
            i <= a.len(),
            a.len() == b.len(),
            forall|k: int| 0 <= k < i ==> a@[k] == b@[k],
        decreases a.len() - i,
    {
        if a[i] != b[i] {
            return false;
        }
        i = i + 1;
    }
    proof {
        assert(a@ =~= b@);
    }
    true
}

/// Whether two predicates are structurally equal.
pub fn predicates_equal(a: &Predicate, b: &Predicate) -> (r: bool)
    ensures
        r == same_predicate(*a, *b),
    decreases a,
{
    match (a, b) {
        (Predicate::Simple(l1, t1), Predicate::Simple(l2, t2)) => *l1 == *l2 && equal_terms(t1, t2),
        (Predicate::Conjunctive(a1, a2), Predicate::Conjunctive(b1, b2))
        | (Predicate::Disjunctive(a1, a2), Predicate::Disjunctive(b1, b2))
        | (Predicate::Conditional(a1, a2), Predicate::Conditional(b1, b2)) => predicates_equal(a1, b1)
            && predicates_equal(a2, b2),
        (Predicate::Negative(a1), Predicate::Negative(b1)) => predicates_equal(a1, b1),
        _ => false,
    }
}

/// Whether two statements are structurally equal.
pub fn statements_equal(a: &Statement, b: &Statement) -> (r: bool)
    ensures
        r == same_statement(*a, *b),
    decreases a,
{
    match (a, b) {
        (Statement::Simple(l1), Statement::Simple(l2)) => *l1 == *l2,
        (Statement::Singular(l1, t1), Statement::Singular(l2, t2)) => *l1 == *l2 && equal_singular_terms(t1, t2),
        (Statement::LogicalConjunction(a1, a2), Statement::LogicalConjunction(b1, b2))
        | (Statement::LogicalDisjunction(a1, a2), Statement::LogicalDisjunction(b1, b2))
        | (Statement::LogicalConditional(a1, a2), Statement::LogicalConditional(b1, b2)) =>
            statements_equal(a1, b1) && statements_equal(a2, b2),
        (Statement::LogicalNegation(a1), Statement::LogicalNegation(b1)) => statements_equal(a1, b1),
        (Statement::Existential(v1, p1), Statement::Existential(v2, p2))
        | (Statement::Universal(v1, p1), Statement::Universal(v2, p2)) => *v1 == *v2 && predicates_equal(
            p1,
            p2,
        ),
        _ => false,
    }
}

impl PartialEq for Predicate {
    fn eq(&self, other: &Predicate) -> (r: bool)
        ensures
            r == same_predicate(*self, *other),
    {
        predicates_equal(self, other)
    }
}

impl vstd::std_specs::cmp::PartialEqSpecImpl for Predicate {
    open spec fn obeys_eq_spec() -> bool {
        true
    }

    open spec fn eq_spec(&self, other: &Predicate) -> bool {
        same_predicate(*self, *other)
    }
}

impl PartialEq for Statement {
    fn eq(&self, other: &Statement) -> (r: bool)
        ensures
            r == same_statement(*self, *other),
    {
        statements_equal(self, other)
    }
}

impl vstd::std_specs::cmp::PartialEqSpecImpl for Statement {
    open spec fn obeys_eq_spec() -> bool {
        true
    }

    open spec fn eq_spec(&self, other: &Statement) -> bool {
        same_statement(*self, *other)
    }
}

fn copy_terms<T: Copy>(v: &Vec<T>) -> (r: Vec<T>)
    ensures
        r@ == v@,
{
    let mut r: Vec<T> = Vec::new();
    let mut i: usize = 0;
    while i < v.len()
        invariant
            i <= v.len(),
            r@ == v@.subrange(0, i as int),
        decreases v.len() - i,
    {
        r.push(v[i]);
        i = i + 1;
        proof {
            assert(r@ =~= v@.subrange(0, i as int));
        }
    }
    proof {
        assert(r@ =~= v@);
    }
    r
}

/// A copy of a predicate.
pub fn copy_predicate(p: &Predicate) -> (r: Predicate)
    ensures
        same_predicate(r, *p),
    decreases p,
{
    match p {
        Predicate::Simple(l, ts) => Predicate::Simple(*l, copy_terms(ts)),
        Predicate::Conjunctive(a, b) => Predicate::Conjunctive(
            Box::new(copy_predicate(a)),
            Box::new(copy_predicate(b)),
        ),
        Predicate::Negative(a) => Predicate::Negative(Box::new(copy_predicate(a))),
        Predicate::Disjunctive(a, b) => Predicate::Disjunctive(
            Box::new(copy_predicate(a)),
            Box::new(copy_predicate(b)),
        ),
        Predicate::Conditional(a, b) => Predicate::Conditional(
            Box::new(copy_predicate(a)),
            Box::new(copy_predicate(b)),
        ),
    }
}

/// A copy of a statement.
pub fn copy_statement(s: &Statement) -> (r: Statement)
    ensures
        same_statement(r, *s),
    decreases s,
{
    match s {
        Statement::Simple(l) => Statement::Simple(*l),
        Statement::Singular(l, ts) => Statement::Singular(*l, copy_terms(ts)),
        Statement::LogicalConjunction(a, b) => Statement::LogicalConjunction(
            Box::new(copy_statement(a)),
            Box::new(copy_statement(b)),
        ),
        Statement::LogicalNegation(a) => Statement::LogicalNegation(Box::new(copy_statement(a))),
        Statement::LogicalDisjunction(a, b) => Statement::LogicalDisjunction(
            Box::new(copy_statement(a)),
            Box::new(copy_statement(b)),
        ),
        Statement::LogicalConditional(a, b) => Statement::LogicalConditional(
            Box::new(copy_statement(a)),
            Box::new(copy_statement(b)),
        ),
        Statement::Existential(v, p) => Statement::Existential(*v, copy_predicate(p)),
        Statement::Universal(v, p) => Statement::Universal(*v, copy_predicate(p)),
    }
}

/// A copy of a list of statements.
pub fn copy_statements(v: &Vec<Statement>) -> (r: Vec<Statement>)
    ensures
        same_statements(r@, v@),
{
    let mut r: Vec<Statement> = Vec::new();
    let mut i: usize = 0;
    while i < v.len()
        invariant
            i <= v.len(),
            r.len() == i,
            forall|k: int| 0 <= k < i ==> #[trigger] same_statement(r@[k], v@[k]),
        decreases v.len() - i,
    {
        r.push(copy_statement(&v[i]));
        i = i + 1;
    }
    r
}

impl Clone for Predicate {
    fn clone(&self) -> (r: Self)
        ensures
            same_predicate(r, *self),
    {
        copy_predicate(self)
    }
}

impl Clone for Statement {
    fn clone(&self) -> (r: Self)
        ensures
            same_statement(r, *self),
    {
        copy_statement(self)
    }
}

impl Clone for ParseTree {
    fn clone(&self) -> (r: Self)
        ensures
            same_tree(r, *self),
    {
        match self {
            ParseTree::StatementSet(v) => ParseTree::StatementSet(copy_statements(v)),
            ParseTree::Argument(v, c) => ParseTree::Argument(copy_statements(v), copy_statement(c)),
        }
    }
}

} // verus!
