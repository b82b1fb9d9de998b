use tableau::ast::{ParseTree, Predicate, SingularTerm, Statement, Subscript, Term, Variable};
use tableau::error::{Error, ParseError, ParseErrorKind, Rule};
use tableau::parser::Parser;

fn statements(input: &str) -> Vec<Statement> {
    match Parser::new().parse(input) {
        Ok(ParseTree::StatementSet(statements)) => statements,
        _ => panic!("expected a statement set"),
    }
}

fn error_kind(input: &str) -> ParseErrorKind {
    match Parser::new().parse(input) {
        Ok(_) => panic!("expected an error"),
        Err(e) => e.kind,
    }
}

#[test]
fn custom_error_provides_correct_position_info() {
    let e = Error::new_from_custom_error("Hello world!", 0, 4, "missing comma");
    assert!(e.position.0 == 1 && e.position.1 == 1);
}

#[test]
fn parses_statement_set() {
    let parser = Parser::new();

    match parser.parse("{A, B, C, D, F, G}") {
        Ok(parse_tree) => match parse_tree {
            ParseTree::StatementSet(_) => {}
            _ => assert!(false),
        },
        _ => assert!(false),
    };
}

#[test]
fn parses_argument() {
    let parser = Parser::new();

    match parser.parse("A, B, C, D, F .:. G") {
        Ok(parse_tree) => match parse_tree {
            ParseTree::Argument(_, _) => {}
            _ => assert!(false),
        },
        _ => assert!(false),
    }
}

#[test]
fn parses_logical_conjunction() {
    let parser = Parser::new();

    match parser.parse("{(A & B)}") {
        Ok(parse_tree) => match parse_tree {
            ParseTree::StatementSet(mut statements) => {
                assert!(statements.len() == 1);
                match statements.pop().unwrap() {
                    Statement::LogicalConjunction(a, b) => match (*a, *b) {
                        (Statement::Simple(_), Statement::Simple(_)) => {}
                        _ => assert!(false),
                    },
                    _ => assert!(false),
                }
            }
            _ => assert!(false),
        },
        _ => assert!(false),
    }
}

#[test]
fn parses_logical_negation() {
    let parser = Parser::new();

    match parser.parse("{~A}") {
        Ok(parse_tree) => match parse_tree {
            ParseTree::StatementSet(mut statements) => {
                assert!(statements.len() == 1);
                match statements.pop().unwrap() {
                    Statement::LogicalNegation(a) => match *a {
                        Statement::Simple(_) => {}
                        _ => assert!(false),
                    },
                    _ => assert!(false),
                }
            }
            _ => assert!(false),
        },
        _ => assert!(false),
    }
}

#[test]
fn parses_logical_disjunction() {
    let parser = Parser::new();

    match parser.parse("{(A ∨ B)}") {
        Ok(parse_tree) => match parse_tree {
            ParseTree::StatementSet(mut statements) => {
                assert!(statements.len() == 1);
                match statements.pop().unwrap() {
                    Statement::LogicalDisjunction(a, b) => match (*a, *b) {
                        (Statement::Simple(_), Statement::Simple(_)) => {}
                        _ => assert!(false),
                    },
                    _ => assert!(false),
                }
            }
            _ => assert!(false),
        },
        _ => assert!(false),
    }
}

#[test]
fn parses_logical_conditional() {
    let parser = Parser::new();

    match parser.parse("{(A ⊃ B)}") {
        Ok(parse_tree) => match parse_tree {
            ParseTree::StatementSet(mut statements) => {
                assert!(statements.len() == 1);
                match statements.pop().unwrap() {
                    Statement::LogicalConditional(a, b) => match (*a, *b) {
                        (Statement::Simple(_), Statement::Simple(_)) => {}
                        _ => assert!(false),
                    },
                    _ => assert!(false),
                }
            }
            _ => assert!(false),
        },
        _ => assert!(false),
    }
}

#[test]
fn parses_existential_statement() {
    let parser = Parser::new();

    match parser.parse("{∃z(A¹z & B¹z)}") {
        Ok(parse_tree) => match parse_tree {
            ParseTree::StatementSet(mut statements) => {
                assert!(statements.len() == 1);
                match statements.pop().unwrap() {
                    Statement::Existential(a, b) => match (a, b) {
                        (Variable(_, _), Predicate::Conjunctive(_, _)) => {}
                        _ => assert!(false),
                    },
                    _ => assert!(false),
                }
            }
            _ => assert!(false),
        },
        _ => assert!(false),
    }
}

#[test]
fn understands_that_degree_means_number_of_terms() {
    let parser = Parser::new();

    match parser.parse("{∃zA¹zs}") {
        Ok(_) => assert!(false),
        _ => {}
    }
}

#[test]
fn keeps_track_of_variable_stack() {
    let parser = Parser::new();

    match parser.parse("{∃zA¹y}") {
        Ok(_) => assert!(false),
        _ => {}
    }
}

#[test]
fn parses_universal_statement() {
    let parser = Parser::new();

    match parser.parse("{∀z(A¹z & B¹z)}") {
        Ok(parse_tree) => match parse_tree {
            ParseTree::StatementSet(mut statements) => {
                assert!(statements.len() == 1);
                match statements.pop().unwrap() {
                    Statement::Universal(a, b) => match (a, b) {
                        (Variable(_, _), Predicate::Conjunctive(_, _)) => {}
                        _ => assert!(false),
                    },
                    _ => assert!(false),
                }
            }
            _ => assert!(false),
        },
        _ => assert!(false),
    }
}

#[test]
fn parses_simple_statement_with_subscript() {
    let parser = Parser::new();

    match parser.parse("{A₂}") {
        Ok(parse_tree) => match parse_tree {
            ParseTree::StatementSet(mut statements) => {
                assert!(statements.len() == 1);
                match statements.pop().unwrap() {
                    Statement::Simple(st_letter) => {
                        assert!(st_letter.0 == 'A');
                        assert!(st_letter.1 == Subscript(Some(2)));
                    }
                    _ => assert!(false),
                }
            }
            _ => assert!(false),
        },
        _ => assert!(false),
    }
}

#[test]
fn parses_singular_statement() {
    let parser = Parser::new();

    match parser.parse("{A₂¹b}") {
        Ok(parse_tree) => match parse_tree {
            ParseTree::StatementSet(mut statements) => {
                assert!(statements.len() == 1);
                match statements.pop().unwrap() {
                    Statement::Singular(predicate_letter, mut terms) => {
                        assert!(predicate_letter.0 == 'A');
                        assert!(predicate_letter.1.eq_number(2));
                        assert!(predicate_letter.2.eq_number(1));
                        assert!(terms.len() == 1);
                        assert!(terms.pop().unwrap() == SingularTerm('b', Subscript(None)));
                    }
                    _ => assert!(false),
                }
            }
            _ => assert!(false),
        },
        _ => assert!(false),
    }
}

#[test]
fn singular_statement_doesnt_allow_variables() {
    let parser = Parser::new();

    match parser.parse("{A₂¹x}") {
        Ok(_) => assert!(false),
        _ => {}
    }
}

#[test]
fn statement_set_of_three_letters() {
    let sts = statements("{A, B, C}");
    assert_eq!(sts.len(), 3);
    for (st, letter) in sts.iter().zip(['A', 'B', 'C']) {
        match st {
            Statement::Simple(l) => {
                assert_eq!(l.0, letter);
                assert_eq!(l.1, Subscript(None));
            }
            _ => panic!("expected a simple statement"),
        }
    }
}

#[test]
fn argument_keeps_premises_in_order() {
    match Parser::new().parse("A, B .:. C") {
        Ok(ParseTree::Argument(premises, conclusion)) => {
            assert_eq!(premises.len(), 2);
            assert!(matches!(&premises[0], Statement::Simple(l) if l.0 == 'A'));
            assert!(matches!(&premises[1], Statement::Simple(l) if l.0 == 'B'));
            assert!(matches!(conclusion, Statement::Simple(l) if l.0 == 'C'));
        }
        _ => panic!("expected an argument"),
    }
}

#[test]
fn therefore_glyph_and_negation_sign() {
    match Parser::new().parse("¬A ∴ B") {
        Ok(ParseTree::Argument(premises, conclusion)) => {
            assert_eq!(premises.len(), 1);
            assert!(matches!(&premises[0], Statement::LogicalNegation(_)));
            assert!(matches!(conclusion, Statement::Simple(l) if l.0 == 'B'));
        }
        _ => panic!("expected an argument"),
    }
}

#[test]
fn singular_statement_fields() {
    let sts = statements("{A₂¹b}");
    match &sts[0] {
        Statement::Singular(l, terms) => {
            assert_eq!(l.0, 'A');
            assert_eq!(l.1, Subscript(Some(2)));
            assert_eq!((l.2).0, 1);
            assert_eq!(terms, &vec![SingularTerm('b', Subscript(None))]);
        }
        _ => panic!("expected a singular statement"),
    }
}

#[test]
fn existential_structure_in_full() {
    let sts = statements("{∃z(A¹z & B¹z)}");
    match &sts[0] {
        Statement::Existential(v, Predicate::Conjunctive(a, b)) => {
            assert_eq!(*v, Variable('z', Subscript(None)));
            let z = Term::Variable(Variable('z', Subscript(None)));
            match (&**a, &**b) {
                (Predicate::Simple(la, ta), Predicate::Simple(lb, tb)) => {
                    assert_eq!(la.0, 'A');
                    assert_eq!(lb.0, 'B');
                    assert_eq!(ta, &vec![z]);
                    assert_eq!(tb, &vec![z]);
                }
                _ => panic!("expected simple predicates"),
            }
        }
        _ => panic!("expected an existential statement"),
    }
}

#[test]
fn degree_mismatch_is_reported() {
    assert_eq!(error_kind("{∃zA¹zs}"), ParseErrorKind::DegreeMismatch);
    assert_eq!(error_kind("{A²b}"), ParseErrorKind::DegreeMismatch);
}

#[test]
fn free_variable_is_reported() {
    assert_eq!(error_kind("{∃zA¹y}"), ParseErrorKind::FreeVariable);
}

#[test]
fn variable_in_singular_statement_is_a_syntax_error() {
    assert_eq!(error_kind("{A₂¹x}"), ParseErrorKind::Syntax);
}

#[test]
fn syntax_errors() {
    assert_eq!(error_kind("{A, B"), ParseErrorKind::Syntax);
    assert_eq!(error_kind("{(A & B}"), ParseErrorKind::Syntax);
    assert_eq!(error_kind("A, B"), ParseErrorKind::Syntax);
    assert_eq!(error_kind("{A} B"), ParseErrorKind::Syntax);
    assert_eq!(error_kind("{A # B}"), ParseErrorKind::Syntax);
    assert_eq!(error_kind(""), ParseErrorKind::Syntax);
    assert_eq!(error_kind("{}"), ParseErrorKind::Syntax);
}

#[test]
fn subscript_overflow_is_a_syntax_error() {
    assert_eq!(error_kind("{A₉₉₉₉₉₉₉₉₉₉₉₉₉₉₉₉₉₉₉₉₉}"), ParseErrorKind::Syntax);
}

#[test]
fn leading_zeros_give_the_same_subscript() {
    let a = statements("{A₀₇}");
    let b = statements("{A₇}");
    assert_eq!(a, b);
    assert!(matches!(&a[0], Statement::Simple(l) if l.1 == Subscript(Some(7))));
}

#[test]
fn absent_subscript_differs_from_zero() {
    assert_ne!(Subscript(None), Subscript(Some(0)));
    assert!(!Subscript(None).eq_number(0));
    assert!(Subscript(Some(0)).eq_number(0));
    assert_ne!(statements("{A}"), statements("{A₀}"));
}

#[test]
fn multi_digit_degree() {
    let sts = statements("{A¹²abcdefghijkl}");
    match &sts[0] {
        Statement::Singular(l, terms) => {
            assert_eq!((l.2).0, 12);
            assert_eq!(terms.len(), 12);
        }
        _ => panic!("expected a singular statement"),
    }
}

#[test]
fn whitespace_between_tokens_is_ignored() {
    assert_eq!(statements("{ ( A &\n B ) }"), statements("{(A&B)}"));
}

#[test]
fn error_location_is_line_and_column() {
    match Parser::new().parse("{A,\n  B #}") {
        Err(e) => {
            assert_eq!(e.kind, ParseErrorKind::Syntax);
            assert_eq!(e.location, (2, 5));
        }
        Ok(_) => panic!("expected an error"),
    }
    match Parser::new().parse("{A,\n ∃zA¹y}") {
        Err(e) => {
            assert_eq!(e.kind, ParseErrorKind::FreeVariable);
            assert_eq!(e.location, (2, 4));
            assert!(e.message().contains("isn't in scope"));
        }
        Ok(_) => panic!("expected an error"),
    }
}

#[test]
fn degree_error_message_underlines_the_statement() {
    match Parser::new().parse("{B, A²b}") {
        Err(e) => {
            assert_eq!(e.location, (1, 5));
            assert!(e.message().contains("degree doesn't match number of terms specified"));
            assert!(e.message().contains("{B, A²b}"));
        }
        Ok(_) => panic!("expected an error"),
    }
}

#[test]
fn syntax_error_names_the_expected_rule() {
    match Parser::new().parse("{A B}") {
        Err(e) => assert!(e.message().contains("statement set closing")),
        Ok(_) => panic!("expected an error"),
    }
}

#[test]
fn rule_names_are_readable() {
    assert_eq!(ParseError::renamed_rules(&Rule::logical_conjunction), "logical conjunction");
    assert_eq!(ParseError::renamed_rules(&Rule::superscript_number), "degree");
    assert_eq!(ParseError::renamed_rules(&Rule::WHITESPACE), "white space");
}

#[test]
fn parse_error_constructors() {
    let e = ParseError::new_from_custom_error("ab\ncd", 3, 5, "bad", ParseErrorKind::DegreeMismatch);
    assert_eq!(e.location, (2, 1));
    assert!(e.message().contains("bad"));
    let e = ParseError::new_from_parsing_error("ab\ncd", 4, Rule::statement);
    assert_eq!(e.location, (2, 2));
    assert_eq!(e.kind, ParseErrorKind::Syntax);
    let e = Error::new_from_parsing_error("abc", 2, Rule::statement);
    assert_eq!(e.position, (1, 3));
}

#[test]
fn clone_keeps_the_tree() {
    let tree = Parser::new().parse("{(A & ∀x(F¹x ⊃ G¹x)), ~B₁}").ok().unwrap();
    let copy = tree.clone();
    match (tree, copy) {
        (ParseTree::StatementSet(a), ParseTree::StatementSet(b)) => assert_eq!(a, b),
        _ => panic!("expected statement sets"),
    }
}

#[test]
fn canonical_text_parses_back() {
    let parsed = statements("{(A₂&∀x(F¹x⊃G²xa₁₀)),~B}");
    let canonical = statements("{ ( A ₂ & ∀ x ( F ¹ x ⊃ G ² x a ₁₀ ) ) , ~ B } ");
    assert_eq!(parsed, canonical);
    match (Parser::new().parse("A∴B"), Parser::new().parse("A ∴ B ")) {
        (Ok(ParseTree::Argument(p1, c1)), Ok(ParseTree::Argument(p2, c2))) => {
            assert_eq!(p1, p2);
            assert_eq!(c1, c2);
        }
        _ => panic!("expected arguments"),
    }
}

#[test]
fn free_variable_reported_before_later_degree_mismatch() {
    assert_eq!(error_kind("{∃zA¹y, B²c}"), ParseErrorKind::FreeVariable);
    assert_eq!(error_kind("{B²c, ∃zA¹y}"), ParseErrorKind::DegreeMismatch);
}

#[test]
fn semantic_error_is_located_at_its_site() {
    match Parser::new().parse("{(A & ~B²c)}") {
        Err(e) => {
            assert_eq!(e.kind, ParseErrorKind::DegreeMismatch);
            assert_eq!(e.location, (1, 8));
        }
        Ok(_) => panic!("expected an error"),
    }
    match Parser::new().parse("{A}\n.:. ∀x(F¹x & G¹y)") {
        Err(e) => assert_eq!(e.kind, ParseErrorKind::Syntax),
        Ok(_) => panic!("expected an error"),
    }
    match Parser::new().parse("A,\n∀x(F¹x & G¹y) .:. B") {
        Err(e) => {
            assert_eq!(e.kind, ParseErrorKind::FreeVariable);
            assert_eq!(e.location, (2, 10));
        }
        Ok(_) => panic!("expected an error"),
    }
}

#[test]
fn degree_is_tested_before_scope() {
    assert_eq!(error_kind("{∃zA²y}"), ParseErrorKind::DegreeMismatch);
    assert_eq!(error_kind("{∃z(A¹y & B²z)}"), ParseErrorKind::FreeVariable);
}
