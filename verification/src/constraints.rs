//! The walk over the syntax tree of one line that reads its linear terms.
//!
//! Every term (a constant, a variable, or a product of both with parameters)
//! becomes a `Term`: which constraint row it belongs to, on which side of the
//! relation it stands, whether a minus sign precedes it, the byte span of its
//! constant, the parameters that multiply it, and whether it adds to the
//! coefficient of a variable or to the bound of the row.
use vstd::prelude::*;
use crate::discover::{climb, left_behind, node_text, scan_to_identifier};
use crate::names::{copy_span, find_name, find_param, param_names, span_text};
use crate::syntax::{NodeKind, SyntaxTree, SyntaxCursor};
use crate::tableau::VariableState;

verus! {

/// What a term adds to.
#[derive(Clone, Copy, Debug, PartialEq, Eq, Structural)]
pub enum Target {
    /// the bound of its row, whose kind becomes the given one
    Bound(VariableState),
    /// the coefficient of the variable with this index in its row
    Variable(usize),
}

/// One term of a constraint.
#[derive(Clone, Debug)]
pub struct Term {
    /// the constraint row
    pub row: usize,
    /// `true` before the relation sign, `false` after it
    pub left_side: bool,
    /// a minus sign stands before the term
    pub negated: bool,
    /// the byte span of the constant, when the term starts with one
    pub constant: Option<(usize, usize)>,
    /// the parameters that multiply the term, by index, in order
    pub factors: Vec<usize>,
    pub target: Target,
}

/// The mathematical value of a `Term`.
pub struct TermModel {
    pub row: nat,
    pub left_side: bool,
    pub negated: bool,
    pub constant: Option<(usize, usize)>,
    pub factors: Seq<usize>,
    pub target: Target,
}

impl View for Term {
    type V = TermModel;

    open spec fn view(&self) -> TermModel {
        TermModel {
            row: self.row as nat,
            left_side: self.left_side,
            negated: self.negated,
            constant: self.constant,
            factors: self.factors@,
            target: self.target,
        }
    }
}

/// Why a walk stopped.
#[derive(Clone, Copy, Debug)]
pub enum WalkError {
    /// an `op` node has no child
    OperatorWithoutChild,
    /// the span of a constant does not lie within the source
    ConstantOutsideSource { start: usize, end: usize },
    /// a term names two variables; `constant` is the span of its constant
    TwoVariables { constant: Option<(usize, usize)> },
    /// a term names a variable that is not in the table; `constant` is the
    /// span of its constant
    UnknownVariable { constant: Option<(usize, usize)> },
}

/// The state that the walk shares between all its calls.
pub struct WalkGlobals {
    /// `true` before a relation sign of the current constraint
    pub left: bool,
    /// the current constraint row
    pub num_eq: nat,
    /// the terms read so far
    pub terms: Seq<TermModel>,
}

/// The bound kind after the relation `name`, or `state` when `name` is none.
pub open spec fn relation_state(name: NodeKind, state: VariableState) -> VariableState {
    match name {
        NodeKind::Equal => VariableState::EqualBound,
        NodeKind::LessEqual => VariableState::AtUpperBound,
        NodeKind::GreaterEqual => VariableState::AtLowerBound,
        _ => state,
    }
}

/// The run of sibling identifiers of a term from `c` on: each parameter is
/// appended to `factors`, and the first other name becomes the variable; a
/// second one is an error. Gives the result and where the cursor stops.
pub open spec fn identifier_run(
    t: SyntaxTree,
    src: Seq<u8>,
    params: Seq<(Seq<u8>, i32)>,
    c: int,
    factors: Seq<usize>,
    var: Option<Seq<u8>>,
) -> (Result<(Seq<usize>, Option<Seq<u8>>), ()>, int)
    decreases t.len() - c,
{
    if !(0 <= c < t.len()) {
        (Ok((factors, var)), c)
    } else {
        let step: Result<(Seq<usize>, Option<Seq<u8>>), ()> = match node_text(t, src, c) {
            Some(tx) => match param_names(params).index_of_first(tx) {
                Some(k) => Ok((factors.push(k as usize), var)),
                None => if var is Some {
                    Err(())
                } else {
                    Ok((factors, Some(tx)))
                },
            },
            None => Ok((factors, var)),
        };
        match step {
            Err(()) => (Err(()), c),
            Ok((f1, v1)) => {
                let (c2, found) = scan_to_identifier(t, c);
                if found && c < c2 < t.len() {
                    identifier_run(t, src, params, c2, f1, v1)
                } else {
                    (Ok((f1, v1)), c2)
                }
            },
        }
    }
}

/// The term read at `c` (a constant or an identifier, by `name`), and where
/// the cursor stops.
pub open spec fn term_at(
    t: SyntaxTree,
    src: Seq<u8>,
    vars: Seq<Seq<u8>>,
    params: Seq<(Seq<u8>, i32)>,
    c: int,
    name: NodeKind,
    left: bool,
    row: nat,
    state: VariableState,
    minus: bool,
) -> (Result<TermModel, WalkError>, int) {
    let node = t.nodes()[c];
    let constant = if name == NodeKind::Constant {
        Some((node.start_byte, node.end_byte))
    } else {
        None
    };
    if name == NodeKind::Constant && span_text(
        src,
        node.start_byte as int,
        node.end_byte as int,
    ) is None {
        (
            Err(WalkError::ConstantOutsideSource { start: node.start_byte, end: node.end_byte }),
            c,
        )
    } else {
        let (c1, go) = if name == NodeKind::Constant {
            match t.next_sibling(c) {
                Some(s) => (s, t.kind(s) == NodeKind::Identifier),
                None => (c, false),
            }
        } else {
            (c, name == NodeKind::Identifier)
        };
        let (res, c2) = if go {
            identifier_run(t, src, params, c1, seq![], None)
        } else {
            (Ok((seq![], None)), c1)
        };
        finish_term(res, c2, constant, vars, left, row, state, minus)
    }
}

/// The term made of what the identifier run `res` gave, the cursor staying
/// at `c2`.
pub open spec fn finish_term(
    res: Result<(Seq<usize>, Option<Seq<u8>>), ()>,
    c2: int,
    constant: Option<(usize, usize)>,
    vars: Seq<Seq<u8>>,
    left: bool,
    row: nat,
    state: VariableState,
    minus: bool,
) -> (Result<TermModel, WalkError>, int) {
    match res {
        Err(()) => (Err(WalkError::TwoVariables { constant }), c2),
        Ok((factors, var)) => {
            let target = match var {
                None => Ok(Target::Bound(state)),
                Some(tx) => if tx.len() == 0 {
                    Ok(Target::Bound(state))
                } else {
                    match vars.index_of_first(tx) {
                        Some(k) => Ok(Target::Variable(k as usize)),
                        None => Err(WalkError::UnknownVariable { constant }),
                    }
                },
            };
            match target {
                Ok(tg) => (
                    Ok(
                        TermModel {
                            row,
                            left_side: left,
                            negated: minus,
                            constant,
                            factors,
                            target: tg,
                        },
                    ),
                    c2,
                ),
                Err(e) => (Err(e), c2),
            }
        },
    }
}

/// The walk of `dfs_mod` entered at node `i` with the bound kind `state` and
/// the sign flag `minus`: the shared state after it, and where the cursor
/// ends or why the walk stopped.
pub open spec fn dfs_walk(
    t: SyntaxTree,
    src: Seq<u8>,
    vars: Seq<Seq<u8>>,
    params: Seq<(Seq<u8>, i32)>,
    i: int,
    g: WalkGlobals,
    state: VariableState,
    minus: bool,
) -> Option<(WalkGlobals, Result<int, WalkError>)>
    decreases t.len() - i, 1int,
{
    if !(0 <= i < t.len()) {
        None
    } else if t.kind(i) == NodeKind::Op && t.first_child(i) is None {
        Some((g, Err(WalkError::OperatorWithoutChild)))
    } else {
        let is_op = t.kind(i) == NodeKind::Op;
        let name = if is_op {
            t.kind(i + 1)
        } else {
            t.kind(i)
        };
        let state1 = if is_op {
            relation_state(name, state)
        } else {
            state
        };
        let g1 = if is_op {
            WalkGlobals { left: false, num_eq: g.num_eq, terms: g.terms }
        } else {
            g
        };
        let g2 = if name == NodeKind::And {
            WalkGlobals { left: true, num_eq: g1.num_eq + 1, terms: g1.terms }
        } else {
            g1
        };
        let minus1 = name == NodeKind::Minus || minus;
        if name == NodeKind::Parameters {
            Some((g2, Ok(climb(t, i))))
        } else if name == NodeKind::Constant || name == NodeKind::Identifier {
            let (r, c) = term_at(t, src, vars, params, i, name, g2.left, g2.num_eq, state1, minus1);
            match r {
                Ok(tm) => Some(
                    (WalkGlobals { left: g2.left, num_eq: g2.num_eq, terms: g2.terms.push(tm) }, Ok(
                        climb(t, c),
                    )),
                ),
                Err(e) => Some((g2, Err(e))),
            }
        } else {
            let has_child = t.first_child(i) is Some && i + 1 < t.len();
            let first = if has_child {
                dfs_walk(t, src, vars, params, i + 1, g2, state1, minus1)
            } else {
                Some((g2, Ok(i)))
            };
            let minus2 = if has_child {
                false
            } else {
                minus1
            };
            match first {
                None => None,
                Some((g3, Err(e))) => Some((g3, Err(e))),
                Some((g3, Ok(c1))) => match dfs_walk_siblings(
                    t,
                    src,
                    vars,
                    params,
                    c1,
                    g3,
                    state1,
                    minus2,
                    i,
                ) {
                    None => None,
                    Some((g4, Err(e))) => Some((g4, Err(e))),
                    Some((g4, Ok(c2))) => Some((g4, Ok(climb(t, c2)))),
                },
            }
        }
    }
}

/// The loop of `dfs_walk` over next siblings from `c`; `lo` is the node
/// last entered.
pub open spec fn dfs_walk_siblings(
    t: SyntaxTree,
    src: Seq<u8>,
    vars: Seq<Seq<u8>>,
    params: Seq<(Seq<u8>, i32)>,
    c: int,
    g: WalkGlobals,
    state: VariableState,
    minus: bool,
    lo: int,
) -> Option<(WalkGlobals, Result<int, WalkError>)>
    decreases t.len() - lo, 0int,
{
    if !(0 <= lo < t.len()) {
        None
    } else {
        match t.next_sibling(c) {
            None => Some((g, Ok(c))),
            Some(s) => if lo < s < t.len() {
                match dfs_walk(t, src, vars, params, s, g, state, minus) {
                    None => None,
                    Some((g1, Err(e))) => Some((g1, Err(e))),
                    Some((g1, Ok(c1))) => dfs_walk_siblings(
                        t,
                        src,
                        vars,
                        params,
                        c1,
                        g1,
                        state,
                        false,
                        s,
                    ),
                }
            } else {
                None
            },
        }
    }
}

/// A term that the tables can hold: its variable and its parameters have
/// indices within the tables, and its row is at most `rows`.
pub open spec fn term_fits(tm: TermModel, nvars: nat, nparams: nat, rows: nat) -> bool {
    &&& tm.row <= rows
    &&& (tm.target matches Target::Variable(k) ==> k < nvars)
    &&& forall|q: int| 0 <= q < tm.factors.len() ==> #[trigger] tm.factors[q] < nparams
}

/// Every term of `terms` fits the tables (see `term_fits`).
pub open spec fn terms_fit(terms: Seq<TermModel>, nvars: nat, nparams: nat, rows: nat) -> bool {
    forall|q: int| 0 <= q < terms.len() ==> term_fits(#[trigger] terms[q], nvars, nparams, rows)
}

proof fn lemma_identifier_run_fits(
    t: SyntaxTree,
    src: Seq<u8>,
    params: Seq<(Seq<u8>, i32)>,
    c: int,
    factors: Seq<usize>,
    var: Option<Seq<u8>>,
)
    requires
        forall|q: int| 0 <= q < factors.len() ==> #[trigger] factors[q] < params.len(),
    ensures
        identifier_run(t, src, params, c, factors, var).0 matches Ok((f, _)) ==> forall|q: int|
            0 <= q < f.len() ==> #[trigger] f[q] < params.len(),
    decreases t.len() - c,
{
    if 0 <= c < t.len() {
        if let Some(tx) = node_text(t, src, c) {
            param_names(params).index_of_first_ensures(tx);
        }
        let step: Result<(Seq<usize>, Option<Seq<u8>>), ()> = match node_text(t, src, c) {
            Some(tx) => match param_names(params).index_of_first(tx) {
                Some(k) => Ok((factors.push(k as usize), var)),
                None => if var is Some {
                    Err(())
                } else {
                    Ok((factors, Some(tx)))
                },
            },
            None => Ok((factors, var)),
        };
        if let Ok((f1, v1)) = step {
            assert(forall|q: int| 0 <= q < f1.len() ==> #[trigger] f1[q] < params.len());
            let (c2, found) = scan_to_identifier(t, c);
            if found && c < c2 < t.len() {
                lemma_identifier_run_fits(t, src, params, c2, f1, v1);
            }
        }
    }
}

proof fn lemma_term_at_fits(
    t: SyntaxTree,
    src: Seq<u8>,
    vars: Seq<Seq<u8>>,
    params: Seq<(Seq<u8>, i32)>,
    c: int,
    name: NodeKind,
    left: bool,
    row: nat,
    state: VariableState,
    minus: bool,
)
    ensures
        term_at(t, src, vars, params, c, name, left, row, state, minus).0 matches Ok(tm)
            ==> term_fits(tm, vars.len(), params.len(), row) && tm.row == row,
{
    let (c1, go) = if name == NodeKind::Constant {
        match t.next_sibling(c) {
            Some(s) => (s, t.kind(s) == NodeKind::Identifier),
            None => (c, false),
        }
    } else {
        (c, name == NodeKind::Identifier)
    };
    if go {
        lemma_identifier_run_fits(t, src, params, c1, seq![], None);
        if let Ok((f, var)) = identifier_run(t, src, params, c1, seq![], None).0 {
            if let Some(tx) = var {
                vars.index_of_first_ensures(tx);
            }
        }
    }
}

/// What the term walk keeps: the terms read before stay as they were, the
/// row count only grows, and every term read refers to a variable and to
/// parameters within the tables and to a row within the count.
#[verifier::rlimit(40)]
pub proof fn lemma_dfs_walk_terms_fit(
    t: SyntaxTree,
    src: Seq<u8>,
    vars: Seq<Seq<u8>>,
    params: Seq<(Seq<u8>, i32)>,
    i: int,
    g: WalkGlobals,
    state: VariableState,
    minus: bool,
)
    requires
        terms_fit(g.terms, vars.len(), params.len(), g.num_eq),
    ensures
        dfs_walk(t, src, vars, params, i, g, state, minus) matches Some((g2, _)) ==> {
            &&& terms_fit(g2.terms, vars.len(), params.len(), g2.num_eq)
            &&& g.num_eq <= g2.num_eq
            &&& g.terms.is_prefix_of(g2.terms)
        },
    decreases t.len() - i, 1int,
{
    assert(g.terms =~= g.terms.subrange(0, g.terms.len() as int));
    if 0 <= i < t.len() && !(t.kind(i) == NodeKind::Op && t.first_child(i) is None) {
        let is_op = t.kind(i) == NodeKind::Op;
        let name = if is_op {
            t.kind(i + 1)
        } else {
            t.kind(i)
        };
        let state1 = if is_op {
            relation_state(name, state)
        } else {
            state
        };
        let g1 = if is_op {
            WalkGlobals { left: false, num_eq: g.num_eq, terms: g.terms }
        } else {
            g
        };
        let g2 = if name == NodeKind::And {
            WalkGlobals { left: true, num_eq: g1.num_eq + 1, terms: g1.terms }
        } else {
            g1
        };
        let minus1 = name == NodeKind::Minus || minus;
        assert(terms_fit(g2.terms, vars.len(), params.len(), g2.num_eq));
        if name == NodeKind::Parameters {
        } else if name == NodeKind::Constant || name == NodeKind::Identifier {
            lemma_term_at_fits(t, src, vars, params, i, name, g2.left, g2.num_eq, state1, minus1);
            let (r, c) = term_at(t, src, vars, params, i, name, g2.left, g2.num_eq, state1, minus1);
            if let Ok(tm) = r {
                let ts = g2.terms.push(tm);
                assert(g.terms =~= ts.subrange(0, g.terms.len() as int));
                assert(terms_fit(ts, vars.len(), params.len(), g2.num_eq)) by {
                    assert forall|q: int| 0 <= q < ts.len() implies term_fits(
                        #[trigger] ts[q],
                        vars.len(),
                        params.len(),
                        g2.num_eq,
                    ) by {
                        if q < g2.terms.len() {
                            assert(ts[q] == g2.terms[q]);
                        }
                    }
                }
            }
        } else {
            let has_child = t.first_child(i) is Some && i + 1 < t.len();
            let first = if has_child {
                lemma_dfs_walk_terms_fit(t, src, vars, params, i + 1, g2, state1, minus1);
                dfs_walk(t, src, vars, params, i + 1, g2, state1, minus1)
            } else {
                Some((g2, Ok(i)))
            };
            let minus2 = if has_child {
                false
            } else {
                minus1
            };
            if let Some((g3, Ok(c1))) = first {
                lemma_dfs_walk_siblings_terms_fit(t, src, vars, params, c1, g3, state1, minus2, i);
                if let Some((g4, _)) = dfs_walk_siblings(t, src, vars, params, c1, g3, state1, minus2, i) {
                    assert(g.terms =~= g4.terms.subrange(0, g.terms.len() as int)) by {
                        assert(g.terms =~= g3.terms.subrange(0, g.terms.len() as int));
                        assert(g3.terms =~= g4.terms.subrange(0, g3.terms.len() as int));
                    }
                }
            }
        }
    }
}

/// The sibling loop of the term walk keeps what `lemma_dfs_walk_terms_fit`
/// says.
pub proof fn lemma_dfs_walk_siblings_terms_fit(
    t: SyntaxTree,
    src: Seq<u8>,
    vars: Seq<Seq<u8>>,
    params: Seq<(Seq<u8>, i32)>,
    c: int,
    g: WalkGlobals,
    state: VariableState,
    minus: bool,
    lo: int,
)
    requires
        terms_fit(g.terms, vars.len(), params.len(), g.num_eq),
    ensures
        dfs_walk_siblings(t, src, vars, params, c, g, state, minus, lo) matches Some((g2, _)) ==> {
            &&& terms_fit(g2.terms, vars.len(), params.len(), g2.num_eq)
            &&& g.num_eq <= g2.num_eq
            &&& g.terms.is_prefix_of(g2.terms)
        },
    decreases t.len() - lo, 0int,
{
    assert(g.terms =~= g.terms.subrange(0, g.terms.len() as int));
    if 0 <= lo < t.len() {
        if let Some(s) = t.next_sibling(c) {
            if lo < s < t.len() {
                lemma_dfs_walk_terms_fit(t, src, vars, params, s, g, state, minus);
                if let Some((g1, Ok(c1))) = dfs_walk(t, src, vars, params, s, g, state, minus) {
                    lemma_dfs_walk_siblings_terms_fit(t, src, vars, params, c1, g1, state, false, s);
                    if let Some((g2, _)) = dfs_walk_siblings(t, src, vars, params, c1, g1, state, false, s) {
                        assert(g.terms =~= g2.terms.subrange(0, g.terms.len() as int)) by {
                            assert(g.terms =~= g1.terms.subrange(0, g.terms.len() as int));
                            assert(g1.terms =~= g2.terms.subrange(0, g1.terms.len() as int));
                        }
                    }
                }
            }
        }
    }
}

/// The term walk only appends to the terms read before.
pub proof fn lemma_dfs_walk_prefix(
    t: SyntaxTree,
    src: Seq<u8>,
    vars: Seq<Seq<u8>>,
    params: Seq<(Seq<u8>, i32)>,
    i: int,
    g: WalkGlobals,
    state: VariableState,
    minus: bool,
)
    ensures
        dfs_walk(t, src, vars, params, i, g, state, minus) matches Some((g2, _))
            ==> g.terms.is_prefix_of(g2.terms),
    decreases t.len() - i, 1int,
{
    assert(g.terms =~= g.terms.subrange(0, g.terms.len() as int));
    if 0 <= i < t.len() && !(t.kind(i) == NodeKind::Op && t.first_child(i) is None) {
        let is_op = t.kind(i) == NodeKind::Op;
        let name = if is_op {
            t.kind(i + 1)
        } else {
            t.kind(i)
        };
        let state1 = if is_op {
            relation_state(name, state)
        } else {
            state
        };
        let g1 = if is_op {
            WalkGlobals { left: false, num_eq: g.num_eq, terms: g.terms }
        } else {
            g
        };
        let g2 = if name == NodeKind::And {
            WalkGlobals { left: true, num_eq: g1.num_eq + 1, terms: g1.terms }
        } else {
            g1
        };
        let minus1 = name == NodeKind::Minus || minus;
        if name == NodeKind::Parameters {
        } else if name == NodeKind::Constant || name == NodeKind::Identifier {
            let (r, c) = term_at(t, src, vars, params, i, name, g2.left, g2.num_eq, state1, minus1);
            if let Ok(tm) = r {
                assert(g.terms =~= g2.terms.push(tm).subrange(0, g.terms.len() as int));
            }
        } else {
            let has_child = t.first_child(i) is Some && i + 1 < t.len();
            let first = if has_child {
                lemma_dfs_walk_prefix(t, src, vars, params, i + 1, g2, state1, minus1);
                dfs_walk(t, src, vars, params, i + 1, g2, state1, minus1)
            } else {
                Some((g2, Ok(i)))
            };
            let minus2 = if has_child {
                false
            } else {
                minus1
            };
            if let Some((g3, Ok(c1))) = first {
                lemma_dfs_walk_siblings_prefix(t, src, vars, params, c1, g3, state1, minus2, i);
                if let Some((g4, _)) = dfs_walk_siblings(t, src, vars, params, c1, g3, state1, minus2, i) {
                    assert(g.terms =~= g4.terms.subrange(0, g.terms.len() as int)) by {
                        assert(g.terms =~= g3.terms.subrange(0, g.terms.len() as int));
                        assert(g3.terms =~= g4.terms.subrange(0, g3.terms.len() as int));
                    }
                }
            }
        }
    }
}

/// The sibling loop of the term walk only appends to the terms read before.
pub proof fn lemma_dfs_walk_siblings_prefix(
    t: SyntaxTree,
    src: Seq<u8>,
    vars: Seq<Seq<u8>>,
    params: Seq<(Seq<u8>, i32)>,
    c: int,
    g: WalkGlobals,
    state: VariableState,
    minus: bool,
    lo: int,
)
    ensures
        dfs_walk_siblings(t, src, vars, params, c, g, state, minus, lo) matches Some((g2, _))
            ==> g.terms.is_prefix_of(g2.terms),
    decreases t.len() - lo, 0int,
{
    assert(g.terms =~= g.terms.subrange(0, g.terms.len() as int));
    if 0 <= lo < t.len() {
        if let Some(s) = t.next_sibling(c) {
            if lo < s < t.len() {
                lemma_dfs_walk_prefix(t, src, vars, params, s, g, state, minus);
                if let Some((g1, Ok(c1))) = dfs_walk(t, src, vars, params, s, g, state, minus) {
                    lemma_dfs_walk_siblings_prefix(t, src, vars, params, c1, g1, state, false, s);
                    if let Some((g2, _)) = dfs_walk_siblings(t, src, vars, params, c1, g1, state, false, s) {
                        assert(g.terms =~= g2.terms.subrange(0, g.terms.len() as int)) by {
                            assert(g.terms =~= g1.terms.subrange(0, g.terms.len() as int));
                            assert(g1.terms =~= g2.terms.subrange(0, g1.terms.len() as int));
                        }
                    }
                }
            }
        }
    }
}

/// Node `x` leads down to a bare constant at `x + k`: `x + k` is a constant
/// within the source that no identifier follows, and `x` .. `x + k - 1`
/// are plain grouping nodes (no relation, `and`, `-`, `parameters`,
/// constant or identifier) that each enter their first child.
pub open spec fn leads_to_constant(t: SyntaxTree, src: Seq<u8>, x: int, k: nat) -> bool
    decreases k,
{
    &&& 0 <= x < t.len()
    &&& if k == 0 {
        &&& t.kind(x) == NodeKind::Constant
        &&& span_text(src, t.nodes()[x].start_byte as int, t.nodes()[x].end_byte as int) is Some
        &&& t.next_sibling(x) matches Some(s2) ==> t.kind(s2) != NodeKind::Identifier
    } else {
        &&& t.kind(x) != NodeKind::Op
        &&& t.kind(x) != NodeKind::And
        &&& t.kind(x) != NodeKind::Minus
        &&& t.kind(x) != NodeKind::Parameters
        &&& t.kind(x) != NodeKind::Constant
        &&& t.kind(x) != NodeKind::Identifier
        &&& t.first_child(x) is Some
        &&& x + 1 < t.len()
        &&& leads_to_constant(t, src, x + 1, (k - 1) as nat)
    }
}

/// The walk entered at a node that leads down to a bare constant reads
/// that constant first, as a bound of the kind in force, on the current
/// side of the current row.
proof fn lemma_walk_reads_constant_first(
    t: SyntaxTree,
    src: Seq<u8>,
    vars: Seq<Seq<u8>>,
    params: Seq<(Seq<u8>, i32)>,
    x: int,
    k: nat,
    g: WalkGlobals,
    state: VariableState,
)
    requires
        leads_to_constant(t, src, x, k),
    ensures
        dfs_walk(t, src, vars, params, x, g, state, false) matches Some((g2, _)) ==> {
            let n = t.nodes()[x + k];
            let tm = g2.terms[g.terms.len() as int];
            &&& g2.terms.len() > g.terms.len()
            &&& tm == TermModel {
                row: g.num_eq,
                left_side: g.left,
                negated: false,
                constant: Some((n.start_byte, n.end_byte)),
                factors: seq![],
                target: Target::Bound(state),
            }
        },
    decreases k,
{
    let n = t.nodes()[x + k];
    let tm = TermModel {
        row: g.num_eq,
        left_side: g.left,
        negated: false,
        constant: Some((n.start_byte, n.end_byte)),
        factors: seq![],
        target: Target::Bound(state),
    };
    if k == 0 {
        let (r, c) = term_at(t, src, vars, params, x, NodeKind::Constant, g.left, g.num_eq, state, false);
        assert(r == Ok::<TermModel, WalkError>(tm));
        assert(g.terms.push(tm)[g.terms.len() as int] == tm);
    } else {
        lemma_walk_reads_constant_first(t, src, vars, params, x + 1, (k - 1) as nat, g, state);
        lemma_dfs_walk_prefix(t, src, vars, params, x + 1, g, state, false);
        assert(x + 1 + (k - 1) == x + k);
        if let Some((g3, r3)) = dfs_walk(t, src, vars, params, x + 1, g, state, false) {
            assert(g3.terms[g.terms.len() as int] == tm);
            if let Ok(c1) = r3 {
                lemma_dfs_walk_siblings_prefix(t, src, vars, params, c1, g3, state, false, x);
                if let Some((g4, _)) = dfs_walk_siblings(t, src, vars, params, c1, g3, state, false, x) {
                    assert(g4.terms[g.terms.len() as int] == g3.terms.subrange(
                        0,
                        g3.terms.len() as int,
                    )[g.terms.len() as int]);
                }
            }
        }
    }
}

/// A relation sign sets the kind of the bound that follows it: when an
/// `op` node holds just the sign `=` (`<=`, `>=`) and the node after it
/// leads down to a bare constant, the first term that the walk from the
/// `op` node reads is that constant, on the right-hand side of the current
/// row, as the row's bound of kind `EqualBound` (`AtUpperBound`,
/// `AtLowerBound`), whatever kind was in force before.
pub proof fn lemma_relation_sets_bound_kind(
    t: SyntaxTree,
    src: Seq<u8>,
    vars: Seq<Seq<u8>>,
    params: Seq<(Seq<u8>, i32)>,
    i: int,
    k: nat,
    g: WalkGlobals,
    state: VariableState,
    minus: bool,
)
    requires
        t.wf(),
        0 <= i < t.len(),
        t.kind(i) == NodeKind::Op,
        t.first_child(i) is Some,
        t.first_child(i + 1) is None,
        t.next_sibling(i + 1) is None,
        t.kind(i + 1) == NodeKind::Equal || t.kind(i + 1) == NodeKind::LessEqual || t.kind(i + 1)
            == NodeKind::GreaterEqual,
        t.next_sibling(i) is Some,
        leads_to_constant(t, src, t.next_sibling(i)->0, k),
    ensures
        dfs_walk(t, src, vars, params, i, g, state, minus) matches Some((g2, _)) ==> {
            let n = t.nodes()[t.next_sibling(i)->0 + k];
            let tm = g2.terms[g.terms.len() as int];
            &&& g2.terms.len() > g.terms.len()
            &&& tm.row == g.num_eq
            &&& !tm.left_side
            &&& !tm.negated
            &&& tm.constant == Some((n.start_byte, n.end_byte))
            &&& tm.factors.len() == 0
            &&& t.kind(i + 1) == NodeKind::Equal ==> tm.target == Target::Bound(
                VariableState::EqualBound,
            )
            &&& t.kind(i + 1) == NodeKind::LessEqual ==> tm.target == Target::Bound(
                VariableState::AtUpperBound,
            )
            &&& t.kind(i + 1) == NodeKind::GreaterEqual ==> tm.target == Target::Bound(
                VariableState::AtLowerBound,
            )
        },
{
    let s = t.next_sibling(i)->0;
    t.lemma_end_of(i);
    t.lemma_first_child_parent(i);
    let name = t.kind(i + 1);
    let state1 = relation_state(name, state);
    let g2 = WalkGlobals { left: false, num_eq: g.num_eq, terms: g.terms };
    // the sign node is a leaf without siblings: the walk comes back to `i`
    assert(dfs_walk_siblings(t, src, vars, params, i + 1, g2, state1, minus, i + 1) == Some(
        (g2, Ok::<int, WalkError>(i + 1)),
    ));
    assert(dfs_walk(t, src, vars, params, i + 1, g2, state1, minus) == Some(
        (g2, Ok::<int, WalkError>(i)),
    ));
    // then the node after the sign is walked with the relation's bound kind
    assert(i < s < t.len());
    lemma_walk_reads_constant_first(t, src, vars, params, s, k, g2, state1);
    lemma_dfs_walk_prefix(t, src, vars, params, s, g2, state1, false);
    let whole = dfs_walk(t, src, vars, params, i, g, state, minus);
    let rest = dfs_walk_siblings(t, src, vars, params, i, g2, state1, false, i);
    assert(whole == match rest {
        None => None,
        Some((g4, Err(e))) => Some((g4, Err(e))),
        Some((g4, Ok(c2))) => Some((g4, Ok(climb(t, c2)))),
    });
    if let Some((g3, r3)) = dfs_walk(t, src, vars, params, s, g2, state1, false) {
        if let Ok(c1) = r3 {
            assert(rest == dfs_walk_siblings(t, src, vars, params, c1, g3, state1, false, s));
            lemma_dfs_walk_siblings_prefix(t, src, vars, params, c1, g3, state1, false, s);
            if let Some((g4, _)) = dfs_walk_siblings(t, src, vars, params, c1, g3, state1, false, s) {
                assert(g4.terms[g.terms.len() as int] == g3.terms.subrange(
                    0,
                    g3.terms.len() as int,
                )[g.terms.len() as int]);
            }
        } else {
            assert(rest == Some((g3, r3)));
        }
    } else {
        assert(rest is None);
    }
}

/// The shared state of the walk as values.
pub open spec fn globals(left: bool, num_eq: usize, terms: Seq<Term>) -> WalkGlobals {
    WalkGlobals { left, num_eq: num_eq as nat, terms: terms.map_values(|x: Term| x@) }
}

/// The node at `c` is `c` itself or one of its later siblings.
pub open spec fn same_or_later_sibling(t: SyntaxTree, c: int, p: int) -> bool {
    p == c || (0 < c < p && t.parent_of(p) == t.parent_of(c))
}

/// Reads the term at the cursor, which stands on a constant or an
/// identifier (`name`, the kind it is read as), and leaves the cursor on the
/// last sibling it looked at.
fn read_term(
    tc: &mut SyntaxCursor<'_>,
    src: &[u8],
    vars: &Vec<Vec<u8>>,
    params: &Vec<(Vec<u8>, i32)>,
    name: NodeKind,
    left: bool,
    num_eq: usize,
    state: VariableState,
    minus: bool,
) -> (r: Result<Term, WalkError>)
    requires
        name == NodeKind::Constant || name == NodeKind::Identifier,
    ensures
        final(tc).wf(),
        final(tc).tree() == old(tc).tree(),
        same_or_later_sibling(old(tc).tree(), old(tc).pos(), final(tc).pos()),
        term_at(
            old(tc).tree(),
            src@,
            vars.deep_view(),
            params.deep_view(),
            old(tc).pos(),
            name,
            left,
            num_eq as nat,
            state,
            minus,
        ) == (match r {
            Ok(tm) => Ok(tm@),
            Err(e) => Err(e),
        }, final(tc).pos()),
{
    proof {
        use_type_invariant(&*tc);
    }
    let ghost t = tc.tree();
    let ghost c = tc.pos();
    let ghost pv = params.deep_view();
    let ghost old_name = name;
    let node = tc.node();
    let mut constant: Option<(usize, usize)> = None;
    let mut sibling_exists = true;
    let mut kind = name;
    if kind == NodeKind::Constant {
        constant = Some((node.start_byte, node.end_byte));
        if !(node.start_byte <= node.end_byte && node.end_byte <= src.len()) {
            return Err(WalkError::ConstantOutsideSource { start: node.start_byte, end: node.end_byte });
        }
        sibling_exists = tc.goto_next_sibling();
        proof {
            if sibling_exists {
                t.lemma_next_sibling_parent(c);
            }
        }
        kind = tc.node().kind;
    }
    let ghost c1 = tc.pos();
    let ghost go = kind == NodeKind::Identifier && sibling_exists;
    let ghost goal = if go {
        identifier_run(t, src@, pv, c1, seq![], None)
    } else {
        (Ok((seq![], None)), c1)
    };
    let mut factors: Vec<usize> = Vec::new();
    let mut id: Vec<u8> = Vec::new();
    let mut id_found = false;
    while kind == NodeKind::Identifier && sibling_exists
        invariant
            tc.wf(),
            tc.tree() == t,
            t == old(tc).tree(),
            c == old(tc).pos(),
            old_name == name,
            pv == params.deep_view(),
            0 <= c < t.len(),
            kind == t.kind(tc.pos()) || tc.pos() == c,
            same_or_later_sibling(t, c, tc.pos()),
            !id_found ==> id@.len() == 0,
            term_at(t, src@, vars.deep_view(), pv, c, old_name, left, num_eq as nat, state, minus)
                == finish_term(goal.0, goal.1, constant, vars.deep_view(), left, num_eq as nat, state, minus),
            goal == if kind == NodeKind::Identifier && sibling_exists {
                identifier_run(t, src@, pv, tc.pos(), factors@, if id_found {
                    Some(id@)
                } else {
                    None
                })
            } else {
                (Ok((factors@, if id_found {
                    Some(id@)
                } else {
                    None
                })), tc.pos())
            },
        decreases t.len() - tc.pos() + (if sibling_exists { 1int } else { 0int }),
    {
        let ghost cur = tc.pos();
        let ghost fin = factors@;
        let ghost vin: Option<Seq<u8>> = if id_found {
            Some(id@)
        } else {
            None
        };
        let node = tc.node();
        match copy_span(src, node.start_byte, node.end_byte) {
            Some(tx) => match find_param(params, tx.as_slice()) {
                Some(k) => {
                    factors.push(k);
                },
                None => {
                    if id_found {
                        return Err(WalkError::TwoVariables { constant });
                    }
                    id_found = true;
                    id = tx;
                },
            },
            None => {},
        }
        let ghost scan = scan_to_identifier(t, cur);
        sibling_exists = tc.goto_next_sibling();
        proof {
            if sibling_exists {
                t.lemma_next_sibling_parent(cur);
            }
        }
        kind = tc.node().kind;
        while kind != NodeKind::Identifier && sibling_exists
            invariant
                tc.wf(),
                tc.tree() == t,
                0 <= c < t.len(),
                0 <= cur < t.len(),
                same_or_later_sibling(t, c, cur),
                kind == t.kind(tc.pos()),
                cur <= tc.pos() < t.len(),
                sibling_exists ==> cur < tc.pos(),
                tc.pos() == cur || (0 < cur && t.parent_of(tc.pos()) == t.parent_of(cur)),
                scan == scan_to_identifier(t, cur),
                sibling_exists ==> scan == (if kind == NodeKind::Identifier {
                    (tc.pos(), true)
                } else {
                    scan_to_identifier(t, tc.pos())
                }),
                !sibling_exists ==> scan == (tc.pos(), false),
            decreases t.len() - tc.pos() + (if sibling_exists { 1int } else { 0int }),
        {
            let ghost p = tc.pos();
            sibling_exists = tc.goto_next_sibling();
            proof {
                if sibling_exists {
                    t.lemma_next_sibling_parent(p);
                }
            }
            kind = tc.node().kind;
        }
    }
    let target = if id.len() == 0 {
        Target::Bound(state)
    } else {
        match find_name(vars, id.as_slice()) {
            Some(k) => Target::Variable(k),
            None => {
                return Err(WalkError::UnknownVariable { constant });
            },
        }
    };
    Ok(Term { row: num_eq, left_side: left, negated: minus, constant, factors, target })
}

/// The walk entered at node `i` reads every term: each term is linear (it
/// names at most one variable besides parameters), names only variables of
/// the table, has its constant within the source, and every relation node
/// holds a relation sign.
pub open spec fn terms_readable(
    t: SyntaxTree,
    src: Seq<u8>,
    vars: Seq<Seq<u8>>,
    params: Seq<(Seq<u8>, i32)>,
    i: int,
    g: WalkGlobals,
    state: VariableState,
    minus: bool,
) -> bool {
    dfs_walk(t, src, vars, params, i, g, state, minus) matches Some((_, Ok(_)))
}

/// Reads the terms of the walk entered at the cursor, with the bound kind
/// `state` and the sign flag `minus`: a relation node sets the bound kind for
/// what follows it and moves to the right-hand side (`left` becomes false),
/// an `and` node starts the next constraint row, a `-` node negates the term
/// that follows, `parameters` ends the walk, and every constant or
/// identifier starts a term. The terms are appended to `terms`. Every term
/// must be readable (see `read_terms`, which tells).
pub fn dfs_mod(
    tc: &mut SyntaxCursor<'_>,
    src: &[u8],
    left: &mut bool,
    vars: &Vec<Vec<u8>>,
    terms: &mut Vec<Term>,
    num_eq: &mut usize,
    state: VariableState,
    minus: bool,
    params: &Vec<(Vec<u8>, i32)>,
)
    requires
        *old(num_eq) + (old(tc).tree().len() - old(tc).pos()) <= usize::MAX,
        terms_readable(
            old(tc).tree(),
            src@,
            vars.deep_view(),
            params.deep_view(),
            old(tc).pos(),
            globals(*old(left), *old(num_eq), old(terms)@),
            state,
            minus,
        ),
    ensures
        final(tc).wf(),
        final(tc).tree() == old(tc).tree(),
        dfs_walk(
            old(tc).tree(),
            src@,
            vars.deep_view(),
            params.deep_view(),
            old(tc).pos(),
            globals(*old(left), *old(num_eq), old(terms)@),
            state,
            minus,
        ) == Some((globals(*final(left), *final(num_eq), final(terms)@), Ok::<int, WalkError>(final(tc).pos()))),
        left_behind(old(tc).tree(), old(tc).pos(), final(tc).pos()),
        *final(num_eq) <= *old(num_eq) + (old(tc).tree().end_of(final(tc).pos()) - old(tc).pos()),
        terms_fit(
            globals(*old(left), *old(num_eq), old(terms)@).terms,
            vars@.len(),
            params@.len(),
            *old(num_eq) as nat,
        ) ==> terms_fit(
            globals(*final(left), *final(num_eq), final(terms)@).terms,
            vars@.len(),
            params@.len(),
            *final(num_eq) as nat,
        ),
{
    proof {
        use_type_invariant(&*tc);
    }
    let _ = read_terms(tc, src, left, vars, terms, num_eq, state, minus, params);
}

/// Reads the terms as `dfs_mod` does, and tells whether every term could be
/// read: on an error, `terms` holds the terms read before it (see
/// `dfs_walk`).
#[verifier::rlimit(60)]
pub fn read_terms(
    tc: &mut SyntaxCursor<'_>,
    src: &[u8],
    left: &mut bool,
    vars: &Vec<Vec<u8>>,
    terms: &mut Vec<Term>,
    num_eq: &mut usize,
    state: VariableState,
    minus: bool,
    params: &Vec<(Vec<u8>, i32)>,
) -> (r: Result<(), WalkError>)
    requires
        *old(num_eq) + (old(tc).tree().len() - old(tc).pos()) <= usize::MAX,
    ensures
        final(tc).wf(),
        final(tc).tree() == old(tc).tree(),
        dfs_walk(
            old(tc).tree(),
            src@,
            vars.deep_view(),
            params.deep_view(),
            old(tc).pos(),
            globals(*old(left), *old(num_eq), old(terms)@),
            state,
            minus,
        ) == Some(
            (globals(*final(left), *final(num_eq), final(terms)@), match r {
                Ok(()) => Ok(final(tc).pos()),
                Err(e) => Err(e),
            }),
        ),
        r is Ok ==> left_behind(old(tc).tree(), old(tc).pos(), final(tc).pos()),
        r is Ok ==> *final(num_eq) <= *old(num_eq) + (old(tc).tree().end_of(final(tc).pos())
            - old(tc).pos()),
        terms_fit(
            globals(*old(left), *old(num_eq), old(terms)@).terms,
            vars@.len(),
            params@.len(),
            *old(num_eq) as nat,
        ) ==> terms_fit(
            globals(*final(left), *final(num_eq), final(terms)@).terms,
            vars@.len(),
            params@.len(),
            *final(num_eq) as nat,
        ),
    decreases old(tc).tree().len() - old(tc).pos(),
{
    proof {
        use_type_invariant(&*tc);
    }
    let ghost t = tc.tree();
    let ghost x = tc.pos();
    let ghost pv = params.deep_view();
    let ghost vv = vars.deep_view();
    let ghost n0 = *num_eq;
    let len = tc.tree_len();
    proof {
        t.lemma_end_of(x);
        let g0 = globals(*left, *num_eq, terms@);
        if terms_fit(g0.terms, vars@.len(), params@.len(), *num_eq as nat) {
            lemma_dfs_walk_terms_fit(t, src@, vv, pv, x, g0, state, minus);
        }
    }
    let mut st = state;
    let mut mn = minus;
    let mut name = tc.node().kind;
    if name == NodeKind::Op {
        if !tc.goto_first_child() {
            return Err(WalkError::OperatorWithoutChild);
        }
        name = tc.node().kind;
        st = match name {
            NodeKind::Equal => VariableState::EqualBound,
            NodeKind::LessEqual => VariableState::AtUpperBound,
            NodeKind::GreaterEqual => VariableState::AtLowerBound,
            _ => st,
        };
        proof {
            t.lemma_first_child_parent(x);
        }
        tc.goto_parent();
        *left = false;
    }
    if name == NodeKind::And {
        *num_eq = *num_eq + 1;
        *left = true;
    }
    if name == NodeKind::Minus {
        mn = true;
    }
    if name == NodeKind::Parameters {
        proof {
            if x > 0 {
                t.lemma_parent_encloses(x);
                t.lemma_parent_of(x);
                t.lemma_end_of(t.parent_of(x));
            }
        }
        tc.goto_parent();
        return Ok(());
    }
    if name != NodeKind::Constant && name != NodeKind::Identifier {
        let ghost g2 = globals(*left, *num_eq, terms@);
        let ghost minus1 = mn;
        if tc.goto_first_child() {
            let r = read_terms(tc, src, left, vars, terms, num_eq, st, mn, params);
            match r {
                Err(e) => {
                    return Err(e);
                },
                Ok(()) => {},
            }
            proof {
                t.lemma_end_of(tc.pos());
            }
            mn = false;
        }
        let ghost c1 = tc.pos();
        let ghost g3 = globals(*left, *num_eq, terms@);
        let ghost goal = dfs_walk_siblings(t, src@, vv, pv, c1, g3, st, mn, x);
        let ghost mut lo = x;
        loop
            invariant
                tc.wf(),
                tc.tree() == t,
                t == old(tc).tree(),
                x == old(tc).pos(),
                pv == params.deep_view(),
                vv == vars.deep_view(),
                n0 == *old(num_eq),
                len == t.len(),
                0 <= x <= lo < t.len(),
                n0 + (t.len() - x) <= usize::MAX,
                t.is_ancestor_or_self(tc.pos(), lo),
                t.is_ancestor_or_self(tc.pos(), x),
                *num_eq <= n0 + (t.end_of(tc.pos()) - x),
                goal == dfs_walk_siblings(
                    t,
                    src@,
                    vv,
                    pv,
                    tc.pos(),
                    globals(*left, *num_eq, terms@),
                    st,
                    mn,
                    lo,
                ),
                terms_fit(
                    globals(*old(left), *old(num_eq), old(terms)@).terms,
                    vars@.len(),
                    params@.len(),
                    *old(num_eq) as nat,
                ) ==> (dfs_walk(
                    t,
                    src@,
                    vv,
                    pv,
                    x,
                    globals(*old(left), *old(num_eq), old(terms)@),
                    state,
                    minus,
                ) matches Some((gf, _)) ==> terms_fit(
                    gf.terms,
                    vars@.len(),
                    params@.len(),
                    gf.num_eq,
                )),
                dfs_walk(t, src@, vv, pv, x, globals(*old(left), *old(num_eq), old(terms)@), state, minus)
                    == match goal {
                    None => None,
                    Some((g4, Err(e))) => Some((g4, Err(e))),
                    Some((g4, Ok(c2))) => Some((g4, Ok(climb(t, c2)))),
                },
            ensures
                tc.wf(),
                tc.tree() == t,
                t.is_ancestor_or_self(tc.pos(), x),
                *num_eq <= n0 + (t.end_of(tc.pos()) - x),
                goal == Some((globals(*left, *num_eq, terms@), Ok::<int, WalkError>(tc.pos()))),
            decreases t.len() - lo,
        {
            let ghost c = tc.pos();
            proof {
                t.lemma_end_of(c);
            }
            if !tc.goto_next_sibling() {
                break;
            }
            let ghost s = tc.pos();
            assert(x < s);
            let ghost gin = globals(*left, *num_eq, terms@);
            let r = read_terms(tc, src, left, vars, terms, num_eq, st, mn, params);
            match r {
                Err(e) => {
                    return Err(e);
                },
                Ok(()) => {},
            }
            proof {
                let c2 = tc.pos();
                t.lemma_end_of(c2);
                t.lemma_sibling_ancestor(c, c2, x);
                t.lemma_sibling_ancestor(c, c2, lo);
                lo = s;
            }
            mn = false;
        }
        proof {
            let c = tc.pos();
            if c > 0 {
                t.lemma_parent_encloses(c);
            }
            t.lemma_end_of(c);
        }
    } else {
        let ghost g2 = globals(*left, *num_eq, terms@);
        let r = read_term(tc, src, vars, params, name, *left, *num_eq, st, mn);
        match r {
            Ok(term) => {
                let ghost old_terms = terms@;
                terms.push(term);
                proof {
                    assert(terms@.map_values(|y: Term| y@) =~= old_terms.map_values(|y: Term| y@).push(
                        term@,
                    ));
                }
            },
            Err(e) => {
                return Err(e);
            },
        }
        proof {
            let c = tc.pos();
            if x > 0 {
                t.lemma_parent_encloses(x);
                t.lemma_parent_of(x);
                t.lemma_end_of(t.parent_of(x));
            }
        }
    }
    tc.goto_parent();
    Ok(())
}

} // verus!
