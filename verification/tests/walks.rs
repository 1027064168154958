use general_simplex::constraints::{dfs_mod, read_terms, Target, Term, WalkError};
use general_simplex::discover::{params_discover, read_params, vars_discover, ParamError};
use general_simplex::parsing::{parse_line, ParseError};
use general_simplex::syntax::{NodeKind, SyntaxNode, SyntaxTree};
use general_simplex::tableau::VariableState;

/// Builds a tree from (grammar name, text, depth) in preorder: a node with
/// text spans the next occurrence of that text, a node without spans its
/// children.
fn build(src: &str, spec: &[(&str, Option<&str>, usize)]) -> SyntaxTree {
    let mut spans: Vec<Option<(usize, usize)>> = Vec::new();
    let mut pos = 0;
    for (_, text, _) in spec {
        match text {
            Some(t) => {
                let k = pos + src[pos..].find(t).unwrap();
                spans.push(Some((k, k + t.len())));
                pos = k + t.len();
            }
            None => spans.push(None),
        }
    }
    let n = spec.len();
    let mut done: Vec<(usize, usize)> = vec![(0, 0); n];
    for i in (0..n).rev() {
        done[i] = match spans[i] {
            Some(s) => s,
            None => {
                let mut lo: Option<usize> = None;
                let mut hi: Option<usize> = None;
                let mut j = i + 1;
                while j < n && spec[j].2 > spec[i].2 {
                    lo = Some(lo.map_or(done[j].0, |l: usize| l.min(done[j].0)));
                    hi = Some(hi.map_or(done[j].1, |h: usize| h.max(done[j].1)));
                    j += 1;
                }
                (lo.unwrap_or(0), hi.unwrap_or(0))
            }
        };
    }
    let nodes: Vec<SyntaxNode> = spec
        .iter()
        .zip(done.iter())
        .map(|((name, _, depth), (s, e))| SyntaxNode::new(name, *s, *e, *depth))
        .collect();
    SyntaxTree::from_preorder(nodes).unwrap()
}

const A_SRC: &str = "2 x + 3 y <= 12 and x - y >= 1";

fn tree_a() -> SyntaxTree {
    build(
        A_SRC,
        &[
            ("source_file", None, 0),
            ("formula", None, 1),
            ("constraint", None, 2),
            ("expression", None, 3),
            ("term", None, 4),
            ("constant", Some("2"), 5),
            ("identifier", Some("x"), 5),
            ("+", Some("+"), 4),
            ("term", None, 4),
            ("constant", Some("3"), 5),
            ("identifier", Some("y"), 5),
            ("op", None, 3),
            ("<=", Some("<="), 4),
            ("expression", None, 3),
            ("term", None, 4),
            ("constant", Some("12"), 5),
            ("and", Some("and"), 2),
            ("constraint", None, 2),
            ("expression", None, 3),
            ("term", None, 4),
            ("identifier", Some("x"), 5),
            ("-", Some("-"), 4),
            ("term", None, 4),
            ("identifier", Some("y"), 5),
            ("op", None, 3),
            (">=", Some(">="), 4),
            ("expression", None, 3),
            ("term", None, 4),
            ("constant", Some("1"), 5),
        ],
    )
}

const B_SRC: &str = "p x + y <= 10 and parameters p : 2";

fn tree_b() -> SyntaxTree {
    build(
        B_SRC,
        &[
            ("source_file", None, 0),
            ("formula", None, 1),
            ("constraint", None, 2),
            ("expression", None, 3),
            ("term", None, 4),
            ("identifier", Some("p"), 5),
            ("identifier", Some("x"), 5),
            ("+", Some("+"), 4),
            ("term", None, 4),
            ("identifier", Some("y"), 5),
            ("op", None, 3),
            ("<=", Some("<="), 4),
            ("expression", None, 3),
            ("term", None, 4),
            ("constant", Some("10"), 5),
            ("and", Some("and"), 2),
            ("parameters", Some("parameters"), 2),
            ("identifier", Some("p"), 2),
            (":", Some(":"), 2),
            ("inter", Some("2"), 2),
        ],
    )
}

fn check_term(
    t: &Term,
    row: usize,
    left_side: bool,
    negated: bool,
    constant: Option<(usize, usize)>,
    factors: &[usize],
    target: Target,
) {
    assert_eq!(t.row, row);
    assert_eq!(t.left_side, left_side);
    assert_eq!(t.negated, negated);
    assert_eq!(t.constant, constant);
    assert_eq!(t.factors, factors.to_vec());
    assert_eq!(t.target, target);
}

#[test]
fn grammar_names_are_classified() {
    assert_eq!(NodeKind::from_grammar_name("constant"), NodeKind::Constant);
    assert_eq!(NodeKind::from_grammar_name("identifier"), NodeKind::Identifier);
    assert_eq!(NodeKind::from_grammar_name("op"), NodeKind::Op);
    assert_eq!(NodeKind::from_grammar_name("and"), NodeKind::And);
    assert_eq!(NodeKind::from_grammar_name("-"), NodeKind::Minus);
    assert_eq!(NodeKind::from_grammar_name("parameters"), NodeKind::Parameters);
    assert_eq!(NodeKind::from_grammar_name("inter"), NodeKind::Inter);
    assert_eq!(NodeKind::from_grammar_name("="), NodeKind::Equal);
    assert_eq!(NodeKind::from_grammar_name("<="), NodeKind::LessEqual);
    assert_eq!(NodeKind::from_grammar_name(">="), NodeKind::GreaterEqual);
    assert_eq!(NodeKind::from_grammar_name("term"), NodeKind::Other);
}

#[test]
fn invalid_preorders_are_refused() {
    assert!(SyntaxTree::from_preorder(vec![]).is_none());
    assert!(SyntaxTree::from_preorder(vec![SyntaxNode::new("a", 0, 0, 1)]).is_none());
    assert!(SyntaxTree::from_preorder(vec![
        SyntaxNode::new("a", 0, 0, 0),
        SyntaxNode::new("b", 0, 0, 2)
    ])
    .is_none());
    assert!(SyntaxTree::from_preorder(vec![
        SyntaxNode::new("a", 0, 0, 0),
        SyntaxNode::new("b", 0, 0, 1),
        SyntaxNode::new("c", 0, 0, 0)
    ])
    .is_none());
}

#[test]
fn cursor_moves_like_a_tree_cursor() {
    let t = tree_a();
    let mut c = t.walk();
    assert!(!c.goto_parent());
    assert!(!c.goto_next_sibling());
    assert!(c.goto_first_child());
    assert!(c.goto_first_child());
    assert_eq!(c.node().kind, NodeKind::Other);
    assert!(c.goto_next_sibling());
    assert_eq!(c.node().kind, NodeKind::And);
    assert!(c.goto_next_sibling());
    assert!(!c.goto_next_sibling());
    assert!(c.goto_parent());
    assert!(c.goto_parent());
    assert_eq!(c.node().start_byte, 0);
    assert!(!c.goto_parent());
}

#[test]
fn variables_are_numbered_in_order_of_first_use() {
    let t = tree_a();
    let params: Vec<(Vec<u8>, i32)> = Vec::new();
    let mut vars: Vec<Vec<u8>> = Vec::new();
    let ands = vars_discover(&mut t.walk(), A_SRC.as_bytes(), &mut vars, &params);
    assert_eq!(ands, 1);
    assert_eq!(vars, vec![b"x".to_vec(), b"y".to_vec()]);
}

#[test]
fn parameters_are_not_variables() {
    let t = tree_b();
    let mut params: Vec<(Vec<u8>, i32)> = Vec::new();
    params_discover(&mut t.walk(), B_SRC.as_bytes(), &mut params);
    assert_eq!(params, vec![(b"p".to_vec(), 2)]);
    let mut vars: Vec<Vec<u8>> = Vec::new();
    let ands = vars_discover(&mut t.walk(), B_SRC.as_bytes(), &mut vars, &params);
    assert_eq!(ands, 1);
    assert_eq!(vars, vec![b"x".to_vec(), b"y".to_vec()]);
}

#[test]
fn no_parameters_without_the_keyword() {
    let t = tree_a();
    let mut params: Vec<(Vec<u8>, i32)> = Vec::new();
    params_discover(&mut t.walk(), A_SRC.as_bytes(), &mut params);
    assert!(params.is_empty());
}

#[test]
fn first_declaration_of_a_parameter_stands() {
    let src = "x <= 1 and parameters p : 2 p : 5 q : 1";
    let t = build(
        src,
        &[
            ("source_file", None, 0),
            ("formula", None, 1),
            ("constraint", None, 2),
            ("expression", None, 3),
            ("term", None, 4),
            ("identifier", Some("x"), 5),
            ("op", None, 3),
            ("<=", Some("<="), 4),
            ("expression", None, 3),
            ("term", None, 4),
            ("constant", Some("1"), 5),
            ("and", Some("and"), 2),
            ("parameters", Some("parameters"), 2),
            ("identifier", Some("p"), 2),
            (":", Some(":"), 2),
            ("inter", Some("2"), 2),
            ("identifier", Some("p"), 2),
            (":", Some(":"), 2),
            ("inter", Some("5"), 2),
            ("identifier", Some("q"), 2),
            (":", Some(":"), 2),
            ("inter", Some("1"), 2),
        ],
    );
    let mut params: Vec<(Vec<u8>, i32)> = Vec::new();
    params_discover(&mut t.walk(), src.as_bytes(), &mut params);
    assert_eq!(params, vec![(b"p".to_vec(), 2), (b"q".to_vec(), 1)]);
}

#[test]
fn parameter_errors() {
    let src = "parameters p";
    let t = build(
        src,
        &[
            ("source_file", None, 0),
            ("formula", None, 1),
            ("x", None, 2),
            ("parameters", Some("parameters"), 2),
            ("identifier", Some("p"), 2),
        ],
    );
    let mut params: Vec<(Vec<u8>, i32)> = Vec::new();
    let r = read_params(&mut t.walk(), src.as_bytes(), &mut params);
    assert!(matches!(r, Err(ParamError::ValueMissing)));

    let src = "parameters p : k";
    let t = build(
        src,
        &[
            ("source_file", None, 0),
            ("formula", None, 1),
            ("x", None, 2),
            ("parameters", Some("parameters"), 2),
            ("identifier", Some("p"), 2),
            (":", Some(":"), 2),
            ("inter", Some("k"), 2),
        ],
    );
    let mut params: Vec<(Vec<u8>, i32)> = Vec::new();
    let r = read_params(&mut t.walk(), src.as_bytes(), &mut params);
    assert!(matches!(r, Err(ParamError::ValueNotInteger { start: 15, end: 16 })));

    let t = SyntaxTree::from_preorder(vec![
        SyntaxNode::new("source_file", 0, 20, 0),
        SyntaxNode::new("formula", 0, 20, 1),
        SyntaxNode::new("x", 0, 0, 2),
        SyntaxNode::new("parameters", 0, 1, 2),
        SyntaxNode::new("identifier", 0, 1, 2),
        SyntaxNode::new("inter", 10, 20, 2),
    ])
    .unwrap();
    let mut params: Vec<(Vec<u8>, i32)> = Vec::new();
    let r = read_params(&mut t.walk(), b"p", &mut params);
    assert!(matches!(r, Err(ParamError::ValueOutsideSource { start: 10, end: 20 })));
}

#[test]
fn declarations_before_an_error_stay_in_the_table() {
    let src = "parameters p : 2 q : 99999999999";
    let t = build(
        src,
        &[
            ("source_file", None, 0),
            ("formula", None, 1),
            ("x", None, 2),
            ("parameters", Some("parameters"), 2),
            ("identifier", Some("p"), 2),
            (":", Some(":"), 2),
            ("inter", Some("2"), 2),
            ("identifier", Some("q"), 2),
            (":", Some(":"), 2),
            ("inter", Some("99999999999"), 2),
        ],
    );
    let mut params: Vec<(Vec<u8>, i32)> = Vec::new();
    let r = read_params(&mut t.walk(), src.as_bytes(), &mut params);
    assert!(matches!(r, Err(ParamError::ValueNotInteger { start: 21, end: 32 })));
    assert_eq!(params, vec![(b"p".to_vec(), 2)]);
}

#[test]
fn readable_terms_are_read_alike_by_both_walks() {
    let t = tree_a();
    let params: Vec<(Vec<u8>, i32)> = Vec::new();
    let vars = vec![b"x".to_vec(), b"y".to_vec()];
    let (mut l1, mut n1, mut t1) = (true, 0usize, Vec::new());
    let r = read_terms(
        &mut t.walk(),
        A_SRC.as_bytes(),
        &mut l1,
        &vars,
        &mut t1,
        &mut n1,
        VariableState::Free,
        false,
        &params,
    );
    assert!(r.is_ok());
    let (mut l2, mut n2, mut t2) = (true, 0usize, Vec::new());
    dfs_mod(
        &mut t.walk(),
        A_SRC.as_bytes(),
        &mut l2,
        &vars,
        &mut t2,
        &mut n2,
        VariableState::Free,
        false,
        &params,
    );
    assert_eq!((l1, n1, t1.len()), (l2, n2, t2.len()));
    for (a, b) in t1.iter().zip(t2.iter()) {
        assert_eq!((a.row, a.left_side, a.negated, a.constant, &a.factors, a.target), (b.row, b.left_side, b.negated, b.constant, &b.factors, b.target));
    }
}

#[test]
fn terms_of_two_constraints() {
    let t = tree_a();
    let params: Vec<(Vec<u8>, i32)> = Vec::new();
    let vars = vec![b"x".to_vec(), b"y".to_vec()];
    let mut left = true;
    let mut num_eq: usize = 0;
    let mut terms: Vec<Term> = Vec::new();
    dfs_mod(
        &mut t.walk(),
        A_SRC.as_bytes(),
        &mut left,
        &vars,
        &mut terms,
        &mut num_eq,
        VariableState::Free,
        false,
        &params,
    );
    assert_eq!(num_eq, 1);
    assert!(!left);
    assert_eq!(terms.len(), 6);
    check_term(&terms[0], 0, true, false, Some((0, 1)), &[], Target::Variable(0));
    check_term(&terms[1], 0, true, false, Some((6, 7)), &[], Target::Variable(1));
    check_term(&terms[2], 0, false, false, Some((13, 15)), &[], Target::Bound(VariableState::AtUpperBound));
    check_term(&terms[3], 1, true, false, None, &[], Target::Variable(0));
    check_term(&terms[4], 1, true, true, None, &[], Target::Variable(1));
    check_term(&terms[5], 1, false, false, Some((29, 30)), &[], Target::Bound(VariableState::AtLowerBound));
}

#[test]
fn parameters_multiply_terms_and_end_the_walk() {
    let t = tree_b();
    let params: Vec<(Vec<u8>, i32)> = vec![(b"p".to_vec(), 2)];
    let vars = vec![b"x".to_vec(), b"y".to_vec()];
    let mut left = true;
    let mut num_eq: usize = 0;
    let mut terms: Vec<Term> = Vec::new();
    dfs_mod(
        &mut t.walk(),
        B_SRC.as_bytes(),
        &mut left,
        &vars,
        &mut terms,
        &mut num_eq,
        VariableState::Free,
        false,
        &params,
    );
    assert_eq!(num_eq, 1);
    assert!(left);
    assert_eq!(terms.len(), 3);
    check_term(&terms[0], 0, true, false, None, &[0], Target::Variable(0));
    check_term(&terms[1], 0, true, false, None, &[], Target::Variable(1));
    check_term(&terms[2], 0, false, false, Some((11, 13)), &[], Target::Bound(VariableState::AtUpperBound));
}

#[test]
fn a_term_with_two_variables_is_refused() {
    let src = "3 x y = 1";
    let t = build(
        src,
        &[
            ("source_file", None, 0),
            ("formula", None, 1),
            ("constraint", None, 2),
            ("expression", None, 3),
            ("term", None, 4),
            ("constant", Some("3"), 5),
            ("identifier", Some("x"), 5),
            ("identifier", Some("y"), 5),
            ("op", None, 3),
            ("=", Some("="), 4),
            ("expression", None, 3),
            ("term", None, 4),
            ("constant", Some("1"), 5),
        ],
    );
    let params: Vec<(Vec<u8>, i32)> = Vec::new();
    let mut vars: Vec<Vec<u8>> = Vec::new();
    vars_discover(&mut t.walk(), src.as_bytes(), &mut vars, &params);
    assert_eq!(vars, vec![b"x".to_vec(), b"y".to_vec()]);
    let mut left = true;
    let mut num_eq: usize = 0;
    let mut terms: Vec<Term> = Vec::new();
    let r = read_terms(
        &mut t.walk(),
        src.as_bytes(),
        &mut left,
        &vars,
        &mut terms,
        &mut num_eq,
        VariableState::Free,
        false,
        &params,
    );
    assert!(matches!(r, Err(WalkError::TwoVariables { constant: Some((0, 1)) })));
    assert!(terms.is_empty());
}

#[test]
fn an_unknown_variable_is_refused() {
    let t = tree_a();
    let params: Vec<(Vec<u8>, i32)> = Vec::new();
    let vars = vec![b"x".to_vec()];
    let mut left = true;
    let mut num_eq: usize = 0;
    let mut terms: Vec<Term> = Vec::new();
    let r = read_terms(
        &mut t.walk(),
        A_SRC.as_bytes(),
        &mut left,
        &vars,
        &mut terms,
        &mut num_eq,
        VariableState::Free,
        false,
        &params,
    );
    assert!(matches!(r, Err(WalkError::UnknownVariable { constant: Some((6, 7)) })));
    assert_eq!(terms.len(), 1);
}

#[test]
fn an_operator_without_sign_is_refused() {
    let t = SyntaxTree::from_preorder(vec![
        SyntaxNode::new("source_file", 0, 1, 0),
        SyntaxNode::new("op", 0, 1, 1),
    ])
    .unwrap();
    let params: Vec<(Vec<u8>, i32)> = Vec::new();
    let vars: Vec<Vec<u8>> = Vec::new();
    let mut left = true;
    let mut num_eq: usize = 0;
    let mut terms: Vec<Term> = Vec::new();
    let r = read_terms(
        &mut t.walk(),
        b"=",
        &mut left,
        &vars,
        &mut terms,
        &mut num_eq,
        VariableState::Free,
        false,
        &params,
    );
    assert!(matches!(r, Err(WalkError::OperatorWithoutChild)));
}

#[test]
fn a_constant_outside_the_source_is_refused() {
    let t = SyntaxTree::from_preorder(vec![
        SyntaxNode::new("source_file", 0, 1, 0),
        SyntaxNode::new("constant", 3, 9, 1),
    ])
    .unwrap();
    let params: Vec<(Vec<u8>, i32)> = Vec::new();
    let vars: Vec<Vec<u8>> = Vec::new();
    let mut left = true;
    let mut num_eq: usize = 0;
    let mut terms: Vec<Term> = Vec::new();
    let r = read_terms(
        &mut t.walk(),
        b"1",
        &mut left,
        &vars,
        &mut terms,
        &mut num_eq,
        VariableState::Free,
        false,
        &params,
    );
    assert!(matches!(r, Err(WalkError::ConstantOutsideSource { start: 3, end: 9 })));
}

#[test]
fn a_parser_without_a_language_gives_no_tree() {
    let mut parser = tree_sitter::Parser::new();
    assert_eq!(parse_line(&mut parser, "x <= 1").err(), Some(ParseError::NoTree));
}

#[test]
fn a_second_variable_walk_adds_nothing() {
    let t = tree_a();
    let params: Vec<(Vec<u8>, i32)> = Vec::new();
    let mut vars: Vec<Vec<u8>> = Vec::new();
    let first = vars_discover(&mut t.walk(), A_SRC.as_bytes(), &mut vars, &params);
    let after_first = vars.clone();
    let second = vars_discover(&mut t.walk(), A_SRC.as_bytes(), &mut vars, &params);
    assert_eq!(first, second);
    assert_eq!(vars, after_first);
}

#[test]
fn a_variable_walk_only_appends_to_the_table() {
    let t = tree_b();
    // a table that already names the parameter keeps its entries in place
    let params: Vec<(Vec<u8>, i32)> = vec![(b"p".to_vec(), 2)];
    let mut vars: Vec<Vec<u8>> = vec![b"y".to_vec(), b"p".to_vec()];
    vars_discover(&mut t.walk(), B_SRC.as_bytes(), &mut vars, &params);
    assert_eq!(vars, vec![b"y".to_vec(), b"p".to_vec(), b"x".to_vec()]);
}
