//! Walks over the syntax tree of one line that collect its parameters and
//! its variables.
use vstd::prelude::*;
use crate::names::{copy_span, find_name, find_param, param_names, span_text};
use crate::numbers::{decimal_i32, parse_i32};
use crate::syntax::{NodeKind, SyntaxTree, SyntaxCursor};

verus! {

/// The variable table after meeting the identifier text `name`: a name that
/// is neither a parameter nor already known is appended.
pub open spec fn record_variable(
    vars: Seq<Seq<u8>>,
    params: Seq<(Seq<u8>, i32)>,
    name: Seq<u8>,
) -> Seq<Seq<u8>> {
    if param_names(params).contains(name) || vars.contains(name) {
        vars
    } else {
        vars.push(name)
    }
}

/// Where a cursor goes up to: the parent, or the root itself.
pub open spec fn climb(t: SyntaxTree, c: int) -> int {
    match t.parent(c) {
        Some(p) => p,
        None => c,
    }
}

/// A walk that started at `x` and ended at `c` has left `x` for one of its
/// ancestors (or stayed on the root).
pub open spec fn left_behind(t: SyntaxTree, x: int, c: int) -> bool {
    ||| c < x && t.is_ancestor_or_self(c, x)
    ||| c == x && x == 0
}

/// Moving over next siblings from `c` until an identifier: where the cursor
/// stops, and whether it stopped on an identifier.
pub open spec fn scan_to_identifier(t: SyntaxTree, c: int) -> (int, bool)
    decreases t.len() - c,
{
    if 0 <= c < t.len() {
        match t.next_sibling(c) {
            Some(s) => if c < s < t.len() {
                if t.kind(s) == NodeKind::Identifier {
                    (s, true)
                } else {
                    scan_to_identifier(t, s)
                }
            } else {
                (c, false)
            },
            None => (c, false),
        }
    } else {
        (c, false)
    }
}

/// The text of node `i`, when its span lies within the source.
pub open spec fn node_text(t: SyntaxTree, src: Seq<u8>, i: int) -> Option<Seq<u8>> {
    span_text(src, t.nodes()[i].start_byte as int, t.nodes()[i].end_byte as int)
}

/// A run of sibling identifiers from `c` on, each recorded as a variable:
/// the variable table after it and where the cursor stops.
pub open spec fn variable_run(
    t: SyntaxTree,
    src: Seq<u8>,
    params: Seq<(Seq<u8>, i32)>,
    c: int,
    vars: Seq<Seq<u8>>,
) -> (Seq<Seq<u8>>, int)
    decreases t.len() - c,
{
    if 0 <= c < t.len() {
        let vars1 = match node_text(t, src, c) {
            Some(name) => record_variable(vars, params, name),
            None => vars,
        };
        let (c2, found) = scan_to_identifier(t, c);
        if found && c < c2 < t.len() {
            variable_run(t, src, params, c2, vars1)
        } else {
            (vars1, c2)
        }
    } else {
        (vars, c)
    }
}

/// The walk of `vars_discover` entered at node `i`: the variable table after
/// it, the number of `and` nodes it met, and where the cursor ends.
pub open spec fn vars_walk(
    t: SyntaxTree,
    src: Seq<u8>,
    params: Seq<(Seq<u8>, i32)>,
    i: int,
    vars: Seq<Seq<u8>>,
) -> Option<(Seq<Seq<u8>>, nat, int)>
    decreases t.len() - i, 1int,
{
    if !(0 <= i < t.len()) {
        None
    } else if t.kind(i) == NodeKind::Identifier {
        let (v, c) = variable_run(t, src, params, i, vars);
        Some((v, 0, climb(t, c)))
    } else {
        let a0: nat = if t.kind(i) == NodeKind::And {
            1
        } else {
            0
        };
        let first = if t.first_child(i) is Some && i + 1 < t.len() {
            vars_walk(t, src, params, i + 1, vars)
        } else {
            Some((vars, 0, i))
        };
        match first {
            None => None,
            Some((v1, a1, c1)) => match vars_walk_siblings(t, src, params, c1, v1, i) {
                None => None,
                Some((v2, a2, c2)) => Some((v2, a0 + a1 + a2, climb(t, c2))),
            },
        }
    }
}

/// The loop of `vars_walk` over next siblings from `c`; `lo` is the node
/// last entered.
pub open spec fn vars_walk_siblings(
    t: SyntaxTree,
    src: Seq<u8>,
    params: Seq<(Seq<u8>, i32)>,
    c: int,
    vars: Seq<Seq<u8>>,
    lo: int,
) -> Option<(Seq<Seq<u8>>, nat, int)>
    decreases t.len() - lo, 0int,
{
    if !(0 <= lo < t.len()) {
        None
    } else {
        match t.next_sibling(c) {
            None => Some((vars, 0, c)),
            Some(s) => if lo < s < t.len() {
                match vars_walk(t, src, params, s, vars) {
                    None => None,
                    Some((v1, a1, c1)) => match vars_walk_siblings(t, src, params, c1, v1, s) {
                        None => None,
                        Some((v2, a2, c2)) => Some((v2, a1 + a2, c2)),
                    },
                }
            } else {
                None
            },
        }
    }
}

/// Records identifier text `name` as a variable unless it is a parameter or
/// already recorded.
fn record_variable_exec(vars: &mut Vec<Vec<u8>>, params: &Vec<(Vec<u8>, i32)>, name: Vec<u8>)
    ensures
        final(vars).deep_view() == record_variable(old(vars).deep_view(), params.deep_view(), name@),
{
    if find_param(params, name.as_slice()).is_none() && find_name(vars, name.as_slice()).is_none() {
        let ghost old_dv = vars.deep_view();
        vars.push(name);
        assert(vars.deep_view() =~= old_dv.push(name@)) by {
            assert(vars.deep_view()[old_dv.len() as int] =~= name@);
        }
    }
}

/// Collects the variables of the subtree walk entered at the cursor: every
/// identifier that is not a parameter gets the next free index, in the order
/// first met. Returns the number of `and` nodes met.
pub fn vars_discover(
    tc: &mut SyntaxCursor<'_>,
    src: &[u8],
    vars: &mut Vec<Vec<u8>>,
    params: &Vec<(Vec<u8>, i32)>,
) -> (ands: usize)
    ensures
        final(tc).wf(),
        final(tc).tree() == old(tc).tree(),
        vars_walk(old(tc).tree(), src@, params.deep_view(), old(tc).pos(), old(vars).deep_view())
            == Some((final(vars).deep_view(), ands as nat, final(tc).pos())),
        left_behind(old(tc).tree(), old(tc).pos(), final(tc).pos()),
        ands <= old(tc).tree().end_of(final(tc).pos()) - old(tc).pos(),
        distinct_variables(old(vars).deep_view(), params.deep_view()) ==> distinct_variables(
            final(vars).deep_view(),
            params.deep_view(),
        ),
        old(vars).deep_view().is_prefix_of(final(vars).deep_view()),
        old(tc).pos() == 0 && no_and_behind_identifiers(old(tc).tree()) ==> ands == and_count(
            old(tc).tree(),
            0,
            old(tc).tree().len(),
        ),
    decreases old(tc).tree().len() - old(tc).pos(),
{
    proof {
        use_type_invariant(&*tc);
    }
    let ghost t = tc.tree();
    let ghost x = tc.pos();
    let ghost pv = params.deep_view();
    let ghost v0 = vars.deep_view();
    let len = tc.tree_len();
    proof {
        t.lemma_end_of(x);
        if distinct_variables(v0, pv) {
            lemma_vars_walk_distinct(t, src@, pv, x, v0);
        }
        lemma_vars_walk_prefix(t, src@, pv, x, v0);
        if x == 0 && no_and_behind_identifiers(t) {
            lemma_vars_walk_counts_every_and(t, src@, pv, v0);
        }
    }
    let mut name = tc.node().kind;
    let mut count: usize = 0;
    if name != NodeKind::Identifier {
        if name == NodeKind::And {
            count = 1;
        }
        if tc.goto_first_child() {
            let a = vars_discover(tc, src, vars, params);
            proof {
                t.lemma_end_of(tc.pos());
            }
            count = count + a;
        }
        let ghost c1 = tc.pos();
        let ghost v1 = vars.deep_view();
        let ghost base = count;
        let ghost goal = vars_walk_siblings(t, src@, pv, c1, v1, x);
        let ghost mut lo = x;
        loop
            invariant
                tc.wf(),
                tc.tree() == t,
                t == old(tc).tree(),
                x == old(tc).pos(),
                pv == params.deep_view(),
                len == t.len(),
                0 <= x <= lo < t.len(),
                t.is_ancestor_or_self(tc.pos(), lo),
                t.is_ancestor_or_self(tc.pos(), x),
                base <= count,
                count <= t.end_of(tc.pos()) - x,
                goal == vars_walk_siblings(t, src@, pv, c1, v1, x),
                match vars_walk_siblings(t, src@, pv, tc.pos(), vars.deep_view(), lo) {
                    Some((v2, a2, c2)) => goal == Some((v2, (count - base) as nat + a2, c2)),
                    None => goal is None,
                },
            ensures
                tc.wf(),
                tc.tree() == t,
                t.is_ancestor_or_self(tc.pos(), x),
                count <= t.end_of(tc.pos()) - x,
                base <= count,
                goal == Some((vars.deep_view(), (count - base) as nat, tc.pos())),
            decreases t.len() - lo,
        {
            let ghost c = tc.pos();
            proof {
                t.lemma_end_of(c);
            }
            if !tc.goto_next_sibling() {
                break;
            }
            let ghost s = tc.pos();
            let ghost vin = vars.deep_view();
            assert(x < s);
            let a = vars_discover(tc, src, vars, params);
            proof {
                let c2 = tc.pos();
                t.lemma_end_of(c2);
                t.lemma_sibling_ancestor(c, c2, x);
                t.lemma_sibling_ancestor(c, c2, lo);
                assert(vars_walk(t, src@, pv, s, vin) == Some((vars.deep_view(), a as nat, c2)));
                lo = s;
            }
            count = count + a;
        }
        proof {
            let c = tc.pos();
            if c > 0 {
                t.lemma_parent_encloses(c);
            }
            t.lemma_end_of(c);
        }
    } else {
        let mut sibling_exists = true;
        let ghost goal = variable_run(t, src@, pv, x, v0);
        while name == NodeKind::Identifier && sibling_exists
            invariant
                tc.wf(),
                tc.tree() == t,
                t == old(tc).tree(),
                x == old(tc).pos(),
                pv == params.deep_view(),
                len == t.len(),
                0 <= x < t.len(),
                name == t.kind(tc.pos()),
                tc.pos() == x || (0 < x < tc.pos() && t.parent_of(tc.pos()) == t.parent_of(x)),
                count == 0,
                goal == variable_run(t, src@, pv, x, v0),
                if name == NodeKind::Identifier && sibling_exists {
                    goal == variable_run(t, src@, pv, tc.pos(), vars.deep_view())
                } else {
                    goal == (vars.deep_view(), tc.pos())
                },
            decreases t.len() - tc.pos() + (if sibling_exists { 1int } else { 0int }),
        {
            let ghost cur = tc.pos();
            let ghost vin = vars.deep_view();
            let node = tc.node();
            match copy_span(src, node.start_byte, node.end_byte) {
                Some(id) => record_variable_exec(vars, params, id),
                None => {},
            }
            let ghost scan = scan_to_identifier(t, cur);
            let ghost vars1 = vars.deep_view();
            assert(vars1 == match node_text(t, src@, cur) {
                Some(nm) => record_variable(vin, pv, nm),
                None => vin,
            });
            sibling_exists = tc.goto_next_sibling();
            proof {
                if sibling_exists {
                    t.lemma_next_sibling_parent(cur);
                }
            }
            name = tc.node().kind;
            while name != NodeKind::Identifier && sibling_exists
                invariant
                    tc.wf(),
                    tc.tree() == t,
                    len == t.len(),
                    0 <= cur < t.len(),
                    name == t.kind(tc.pos()),
                    cur <= tc.pos() < t.len(),
                    sibling_exists ==> cur < tc.pos(),
                    tc.pos() == cur || (0 < cur && t.parent_of(tc.pos()) == t.parent_of(cur)),
                    scan == scan_to_identifier(t, cur),
                    sibling_exists ==> scan == (if name == NodeKind::Identifier {
                        (tc.pos(), true)
                    } else {
                        scan_to_identifier(t, tc.pos())
                    }),
                    !sibling_exists ==> scan == (tc.pos(), false),
                decreases t.len() - tc.pos() + (if sibling_exists { 1int } else { 0int }),
            {
                let ghost p = tc.pos();
                sibling_exists = tc.goto_next_sibling();
                proof {
                    if sibling_exists {
                        t.lemma_next_sibling_parent(p);
                    }
                }
                name = tc.node().kind;
            }
            proof {
                assert(variable_run(t, src@, pv, cur, vin) == (if scan.1 && cur < scan.0 < t.len() {
                    variable_run(t, src@, pv, scan.0, vars1)
                } else {
                    (vars1, scan.0)
                }));
            }
        }
        proof {
            let c = tc.pos();
            if x > 0 {
                t.lemma_parent_encloses(x);
                t.lemma_parent_of(x);
                t.lemma_end_of(t.parent_of(x));
            }
        }
    }
    tc.goto_parent();
    count
}

/// A variable table that names each variable once and holds no parameter
/// name.
pub open spec fn distinct_variables(vars: Seq<Seq<u8>>, params: Seq<(Seq<u8>, i32)>) -> bool {
    &&& vars.no_duplicates()
    &&& forall|k: int| 0 <= k < vars.len() ==> !param_names(params).contains(#[trigger] vars[k])
}

proof fn lemma_record_variable_distinct(
    vars: Seq<Seq<u8>>,
    params: Seq<(Seq<u8>, i32)>,
    name: Seq<u8>,
)
    requires
        distinct_variables(vars, params),
    ensures
        distinct_variables(record_variable(vars, params, name), params),
        vars.is_prefix_of(record_variable(vars, params, name)),
{
    let r = record_variable(vars, params, name);
    assert(vars =~= r.subrange(0, vars.len() as int));
    if !(param_names(params).contains(name) || vars.contains(name)) {
        assert forall|i: int, j: int| 0 <= i < r.len() && 0 <= j < r.len() && i != j implies r[i]
            != r[j] by {
            if i == vars.len() {
                assert(vars.contains(r[j]));
            } else if j == vars.len() {
                assert(vars.contains(r[i]));
            }
        }
    }
}

proof fn lemma_variable_run_distinct(
    t: SyntaxTree,
    src: Seq<u8>,
    params: Seq<(Seq<u8>, i32)>,
    c: int,
    vars: Seq<Seq<u8>>,
)
    requires
        distinct_variables(vars, params),
    ensures
        distinct_variables(variable_run(t, src, params, c, vars).0, params),
        vars.is_prefix_of(variable_run(t, src, params, c, vars).0),
    decreases t.len() - c,
{
    if 0 <= c < t.len() {
        let vars1 = match node_text(t, src, c) {
            Some(name) => record_variable(vars, params, name),
            None => vars,
        };
        if let Some(name) = node_text(t, src, c) {
            lemma_record_variable_distinct(vars, params, name);
        }
        let (c2, found) = scan_to_identifier(t, c);
        if found && c < c2 < t.len() {
            lemma_variable_run_distinct(t, src, params, c2, vars1);
            let v = variable_run(t, src, params, c2, vars1).0;
            assert(vars =~= v.subrange(0, vars.len() as int)) by {
                assert(vars =~= vars1.subrange(0, vars.len() as int));
                assert(vars1 =~= v.subrange(0, vars1.len() as int));
            }
        }
    }
}

proof fn lemma_variable_run_prefix(
    t: SyntaxTree,
    src: Seq<u8>,
    params: Seq<(Seq<u8>, i32)>,
    c: int,
    vars: Seq<Seq<u8>>,
)
    ensures
        vars.is_prefix_of(variable_run(t, src, params, c, vars).0),
    decreases t.len() - c,
{
    assert(vars =~= vars.subrange(0, vars.len() as int));
    if 0 <= c < t.len() {
        let vars1 = match node_text(t, src, c) {
            Some(name) => record_variable(vars, params, name),
            None => vars,
        };
        assert(vars =~= vars1.subrange(0, vars.len() as int));
        let (c2, found) = scan_to_identifier(t, c);
        if found && c < c2 < t.len() {
            lemma_variable_run_prefix(t, src, params, c2, vars1);
            let v = variable_run(t, src, params, c2, vars1).0;
            assert(vars =~= v.subrange(0, vars.len() as int)) by {
                assert(vars1 =~= v.subrange(0, vars1.len() as int));
            }
        }
    }
}

/// The variable walk only appends to the table: whatever the table holds,
/// every variable known before keeps its index, and each new one takes the
/// next free index.
pub proof fn lemma_vars_walk_prefix(
    t: SyntaxTree,
    src: Seq<u8>,
    params: Seq<(Seq<u8>, i32)>,
    i: int,
    vars: Seq<Seq<u8>>,
)
    ensures
        vars_walk(t, src, params, i, vars) matches Some((v, _, _)) ==> vars.is_prefix_of(v),
    decreases t.len() - i, 1int,
{
    assert(vars =~= vars.subrange(0, vars.len() as int));
    if 0 <= i < t.len() {
        if t.kind(i) == NodeKind::Identifier {
            lemma_variable_run_prefix(t, src, params, i, vars);
        } else {
            let first = if t.first_child(i) is Some && i + 1 < t.len() {
                lemma_vars_walk_prefix(t, src, params, i + 1, vars);
                vars_walk(t, src, params, i + 1, vars)
            } else {
                Some((vars, 0nat, i))
            };
            if let Some((v1, a1, c1)) = first {
                lemma_vars_walk_siblings_prefix(t, src, params, c1, v1, i);
                if let Some((v2, a2, c2)) = vars_walk_siblings(t, src, params, c1, v1, i) {
                    assert(vars =~= v2.subrange(0, vars.len() as int)) by {
                        assert(vars =~= v1.subrange(0, vars.len() as int));
                        assert(v1 =~= v2.subrange(0, v1.len() as int));
                    }
                }
            }
        }
    }
}

/// The sibling loop of the variable walk only appends to the table (see
/// `lemma_vars_walk_prefix`).
pub proof fn lemma_vars_walk_siblings_prefix(
    t: SyntaxTree,
    src: Seq<u8>,
    params: Seq<(Seq<u8>, i32)>,
    c: int,
    vars: Seq<Seq<u8>>,
    lo: int,
)
    ensures
        vars_walk_siblings(t, src, params, c, vars, lo) matches Some((v, _, _))
            ==> vars.is_prefix_of(v),
    decreases t.len() - lo, 0int,
{
    assert(vars =~= vars.subrange(0, vars.len() as int));
    if 0 <= lo < t.len() {
        if let Some(s) = t.next_sibling(c) {
            if lo < s < t.len() {
                lemma_vars_walk_prefix(t, src, params, s, vars);
                if let Some((v1, a1, c1)) = vars_walk(t, src, params, s, vars) {
                    lemma_vars_walk_siblings_prefix(t, src, params, c1, v1, s);
                    if let Some((v2, a2, c2)) = vars_walk_siblings(t, src, params, c1, v1, s) {
                        assert(vars =~= v2.subrange(0, vars.len() as int)) by {
                            assert(vars =~= v1.subrange(0, vars.len() as int));
                            assert(v1 =~= v2.subrange(0, v1.len() as int));
                        }
                    }
                }
            }
        }
    }
}

/// What the variable walk keeps: a table that names each variable once and
/// holds no parameter name still does so after the walk, and the variables
/// known before keep their indices (the table only grows at its end).
pub proof fn lemma_vars_walk_distinct(
    t: SyntaxTree,
    src: Seq<u8>,
    params: Seq<(Seq<u8>, i32)>,
    i: int,
    vars: Seq<Seq<u8>>,
)
    requires
        distinct_variables(vars, params),
    ensures
        vars_walk(t, src, params, i, vars) matches Some((v, _, _)) ==> distinct_variables(v, params)
            && vars.is_prefix_of(v),
    decreases t.len() - i, 1int,
{
    if 0 <= i < t.len() {
        if t.kind(i) == NodeKind::Identifier {
            lemma_variable_run_distinct(t, src, params, i, vars);
        } else {
            let first = if t.first_child(i) is Some && i + 1 < t.len() {
                lemma_vars_walk_distinct(t, src, params, i + 1, vars);
                vars_walk(t, src, params, i + 1, vars)
            } else {
                Some((vars, 0nat, i))
            };
            if let Some((v1, a1, c1)) = first {
                lemma_vars_walk_siblings_distinct(t, src, params, c1, v1, i);
                if let Some((v2, a2, c2)) = vars_walk_siblings(t, src, params, c1, v1, i) {
                    assert(vars =~= v2.subrange(0, vars.len() as int)) by {
                        assert(vars =~= v1.subrange(0, vars.len() as int));
                        assert(v1 =~= v2.subrange(0, v1.len() as int));
                    }
                }
            }
        }
    }
}

/// The sibling loop of the variable walk keeps the table as
/// `lemma_vars_walk_distinct` says.
pub proof fn lemma_vars_walk_siblings_distinct(
    t: SyntaxTree,
    src: Seq<u8>,
    params: Seq<(Seq<u8>, i32)>,
    c: int,
    vars: Seq<Seq<u8>>,
    lo: int,
)
    requires
        distinct_variables(vars, params),
    ensures
        vars_walk_siblings(t, src, params, c, vars, lo) matches Some((v, _, _))
            ==> distinct_variables(v, params) && vars.is_prefix_of(v),
    decreases t.len() - lo, 0int,
{
    if 0 <= lo < t.len() {
        if let Some(s) = t.next_sibling(c) {
            if lo < s < t.len() {
                lemma_vars_walk_distinct(t, src, params, s, vars);
                if let Some((v1, a1, c1)) = vars_walk(t, src, params, s, vars) {
                    lemma_vars_walk_siblings_distinct(t, src, params, c1, v1, s);
                    if let Some((v2, a2, c2)) = vars_walk_siblings(t, src, params, c1, v1, s) {
                        assert(vars =~= v2.subrange(0, vars.len() as int)) by {
                            assert(vars =~= v1.subrange(0, vars.len() as int));
                            assert(v1 =~= v2.subrange(0, v1.len() as int));
                        }
                    }
                }
            }
        } else {
            assert(vars =~= vars.subrange(0, vars.len() as int));
        }
    }
}

/// Every name of `a` is in `w` or is a parameter.
pub open spec fn names_covered(a: Seq<Seq<u8>>, w: Seq<Seq<u8>>, params: Seq<(Seq<u8>, i32)>) -> bool {
    forall|x: Seq<u8>| #[trigger] a.contains(x) ==> w.contains(x) || param_names(params).contains(x)
}

proof fn lemma_record_variable_grows(vars: Seq<Seq<u8>>, params: Seq<(Seq<u8>, i32)>, name: Seq<u8>)
    ensures
        forall|x: Seq<u8>| vars.contains(x) ==> #[trigger] record_variable(vars, params, name).contains(x),
        record_variable(vars, params, name).contains(name) || param_names(params).contains(name),
{
    let r = record_variable(vars, params, name);
    if !(param_names(params).contains(name) || vars.contains(name)) {
        assert(r[vars.len() as int] == name);
        assert forall|x: Seq<u8>| vars.contains(x) implies #[trigger] r.contains(x) by {
            let k = choose|k: int| 0 <= k < vars.len() && vars[k] == x;
            assert(r[k] == x);
        }
    }
}

proof fn lemma_variable_run_grows(
    t: SyntaxTree,
    src: Seq<u8>,
    params: Seq<(Seq<u8>, i32)>,
    c: int,
    vars: Seq<Seq<u8>>,
)
    ensures
        forall|x: Seq<u8>| vars.contains(x) ==> #[trigger] variable_run(t, src, params, c, vars).0.contains(x),
    decreases t.len() - c,
{
    if 0 <= c < t.len() {
        let vars1 = match node_text(t, src, c) {
            Some(name) => record_variable(vars, params, name),
            None => vars,
        };
        if let Some(name) = node_text(t, src, c) {
            lemma_record_variable_grows(vars, params, name);
        }
        let (c2, found) = scan_to_identifier(t, c);
        let fin = variable_run(t, src, params, c, vars).0;
        if found && c < c2 < t.len() {
            lemma_variable_run_grows(t, src, params, c2, vars1);
            assert(fin == variable_run(t, src, params, c2, vars1).0);
        } else {
            assert(fin == vars1);
        }
        assert forall|x: Seq<u8>| vars.contains(x) implies #[trigger] fin.contains(x) by {
            assert(vars1.contains(x));
            if found && c < c2 < t.len() {
                assert(variable_run(t, src, params, c2, vars1).0.contains(x));
            }
        }
    }
}

/// A run of identifiers whose names are all known already leaves the table
/// as it is, and stops where it would stop with any other table.
proof fn lemma_variable_run_settled(
    t: SyntaxTree,
    src: Seq<u8>,
    params: Seq<(Seq<u8>, i32)>,
    c: int,
    vars: Seq<Seq<u8>>,
    w: Seq<Seq<u8>>,
)
    requires
        names_covered(variable_run(t, src, params, c, vars).0, w, params),
    ensures
        variable_run(t, src, params, c, w) == (w, variable_run(t, src, params, c, vars).1),
    decreases t.len() - c,
{
    if 0 <= c < t.len() {
        let vars1 = match node_text(t, src, c) {
            Some(name) => record_variable(vars, params, name),
            None => vars,
        };
        let (c2, found) = scan_to_identifier(t, c);
        let fin = variable_run(t, src, params, c, vars).0;
        if found && c < c2 < t.len() {
            lemma_variable_run_grows(t, src, params, c2, vars1);
            assert(fin == variable_run(t, src, params, c2, vars1).0);
        } else {
            assert(fin == vars1);
        }
        if let Some(name) = node_text(t, src, c) {
            lemma_record_variable_grows(vars, params, name);
            if vars1.contains(name) {
                if found && c < c2 < t.len() {
                    assert(variable_run(t, src, params, c2, vars1).0.contains(name));
                }
                assert(fin.contains(name));
            }
            assert(record_variable(w, params, name) == w);
        }
        if found && c < c2 < t.len() {
            lemma_variable_run_settled(t, src, params, c2, vars1, w);
        }
    }
}

proof fn lemma_vars_walk_grows(
    t: SyntaxTree,
    src: Seq<u8>,
    params: Seq<(Seq<u8>, i32)>,
    i: int,
    vars: Seq<Seq<u8>>,
)
    ensures
        vars_walk(t, src, params, i, vars) matches Some((v, _, _)) ==> forall|x: Seq<u8>|
            vars.contains(x) ==> #[trigger] v.contains(x),
    decreases t.len() - i, 1int,
{
    if 0 <= i < t.len() {
        if t.kind(i) == NodeKind::Identifier {
            lemma_variable_run_grows(t, src, params, i, vars);
        } else {
            let first = if t.first_child(i) is Some && i + 1 < t.len() {
                lemma_vars_walk_grows(t, src, params, i + 1, vars);
                vars_walk(t, src, params, i + 1, vars)
            } else {
                Some((vars, 0nat, i))
            };
            if let Some((v1, a1, c1)) = first {
                lemma_vars_walk_siblings_grows(t, src, params, c1, v1, i);
            }
        }
    }
}

proof fn lemma_vars_walk_siblings_grows(
    t: SyntaxTree,
    src: Seq<u8>,
    params: Seq<(Seq<u8>, i32)>,
    c: int,
    vars: Seq<Seq<u8>>,
    lo: int,
)
    ensures
        vars_walk_siblings(t, src, params, c, vars, lo) matches Some((v, _, _)) ==> forall|
            x: Seq<u8>,
        | vars.contains(x) ==> #[trigger] v.contains(x),
    decreases t.len() - lo, 0int,
{
    if 0 <= lo < t.len() {
        if let Some(s) = t.next_sibling(c) {
            if lo < s < t.len() {
                lemma_vars_walk_grows(t, src, params, s, vars);
                if let Some((v1, a1, c1)) = vars_walk(t, src, params, s, vars) {
                    lemma_vars_walk_siblings_grows(t, src, params, c1, v1, s);
                }
            }
        }
    }
}

proof fn lemma_vars_walk_settled(
    t: SyntaxTree,
    src: Seq<u8>,
    params: Seq<(Seq<u8>, i32)>,
    i: int,
    vars: Seq<Seq<u8>>,
    w: Seq<Seq<u8>>,
)
    requires
        vars_walk(t, src, params, i, vars) matches Some((v, _, _)) ==> names_covered(v, w, params),
    ensures
        vars_walk(t, src, params, i, vars) matches Some((v, a, c)) ==> vars_walk(t, src, params, i, w)
            == Some((w, a, c)),
    decreases t.len() - i, 1int,
{
    if 0 <= i < t.len() {
        if t.kind(i) == NodeKind::Identifier {
            lemma_variable_run_settled(t, src, params, i, vars, w);
        } else {
            let has_child = t.first_child(i) is Some && i + 1 < t.len();
            let first = if has_child {
                vars_walk(t, src, params, i + 1, vars)
            } else {
                Some((vars, 0nat, i))
            };
            if let Some((v1, a1, c1)) = first {
                lemma_vars_walk_siblings_grows(t, src, params, c1, v1, i);
                if let Some((v2, a2, c2)) = vars_walk_siblings(t, src, params, c1, v1, i) {
                    if has_child {
                        assert(names_covered(v1, w, params)) by {
                            assert forall|x: Seq<u8>| #[trigger] v1.contains(x) implies w.contains(x)
                                || param_names(params).contains(x) by {
                                assert(v2.contains(x));
                            }
                        }
                        lemma_vars_walk_settled(t, src, params, i + 1, vars, w);
                    }
                    lemma_vars_walk_siblings_settled(t, src, params, c1, v1, w, i);
                }
            }
        }
    }
}

proof fn lemma_vars_walk_siblings_settled(
    t: SyntaxTree,
    src: Seq<u8>,
    params: Seq<(Seq<u8>, i32)>,
    c: int,
    vars: Seq<Seq<u8>>,
    w: Seq<Seq<u8>>,
    lo: int,
)
    requires
        vars_walk_siblings(t, src, params, c, vars, lo) matches Some((v, _, _)) ==> names_covered(
            v,
            w,
            params,
        ),
    ensures
        vars_walk_siblings(t, src, params, c, vars, lo) matches Some((v, a, c2))
            ==> vars_walk_siblings(t, src, params, c, w, lo) == Some((w, a, c2)),
    decreases t.len() - lo, 0int,
{
    if 0 <= lo < t.len() {
        if let Some(s) = t.next_sibling(c) {
            if lo < s < t.len() {
                if let Some((v1, a1, c1)) = vars_walk(t, src, params, s, vars) {
                    lemma_vars_walk_siblings_grows(t, src, params, c1, v1, s);
                    if let Some((v2, a2, c2)) = vars_walk_siblings(t, src, params, c1, v1, s) {
                        assert(names_covered(v1, w, params)) by {
                            assert forall|x: Seq<u8>| #[trigger] v1.contains(x) implies w.contains(x)
                                || param_names(params).contains(x) by {
                                assert(v2.contains(x));
                            }
                        }
                        lemma_vars_walk_settled(t, src, params, s, vars, w);
                        lemma_vars_walk_siblings_settled(t, src, params, c1, v1, w, s);
                    }
                }
            }
        }
    }
}

/// Walking the same subtree again with the table that a walk produced adds
/// nothing: the table stays as it is, and the count of `and` nodes and where
/// the walk ends are the same.
pub proof fn lemma_vars_walk_twice(
    t: SyntaxTree,
    src: Seq<u8>,
    params: Seq<(Seq<u8>, i32)>,
    i: int,
    vars: Seq<Seq<u8>>,
)
    ensures
        vars_walk(t, src, params, i, vars) matches Some((v, a, c)) ==> vars_walk(t, src, params, i, v)
            == Some((v, a, c)),
{
    if let Some((v, a, c)) = vars_walk(t, src, params, i, vars) {
        assert(names_covered(v, v, params));
        lemma_vars_walk_settled(t, src, params, i, vars, v);
    }
}

/// The number of `and` nodes at positions `a` .. `b - 1`.
pub open spec fn and_count(t: SyntaxTree, a: int, b: int) -> nat
    decreases b - a,
{
    if a >= b {
        0
    } else {
        and_count(t, a, b - 1) + if t.kind(b - 1) == NodeKind::And {
            1nat
        } else {
            0nat
        }
    }
}

proof fn lemma_and_count_split(t: SyntaxTree, a: int, b: int, c: int)
    requires
        a <= b <= c,
    ensures
        and_count(t, a, c) == and_count(t, a, b) + and_count(t, b, c),
    decreases c - b,
{
    if b < c {
        lemma_and_count_split(t, a, b, c - 1);
    }
}

/// No `and` node stands after an identifier among the later siblings of the
/// identifier or inside them (the identifiers of a term are followed only by
/// the rest of the term).
pub open spec fn no_and_behind_identifiers(t: SyntaxTree) -> bool {
    forall|k: int, j: int|
        #![trigger t.kind(k), t.kind(j)]
        0 <= k < t.len() && t.kind(k) == NodeKind::Identifier && k < j < t.end_of(climb(t, k))
            ==> t.kind(j) != NodeKind::And
}

proof fn lemma_subtree_end(t: SyntaxTree, a: int, b: int)
    requires
        t.wf(),
        0 <= a <= b < t.end_of(a),
        a < t.len(),
    ensures
        t.end_of(b) <= t.end_of(a),
{
    t.lemma_end_of(a);
    t.lemma_end_of(b);
    let ea = t.end_of(a);
    if t.end_of(b) > ea && ea < t.len() {
        if b > a {
            assert(t.depth(b) > t.depth(a));
        }
        assert(t.depth(ea) > t.depth(b));
    }
}

proof fn lemma_last_child_end(t: SyntaxTree, r: int)
    requires
        t.wf(),
        0 < r < t.len(),
        t.next_sibling(r) is None,
    ensures
        t.end_of(r) == t.end_of(t.parent_of(r)),
{
    let p = t.parent_of(r);
    t.lemma_parent_encloses(r);
    t.lemma_parent_of(r);
    t.lemma_end_of(r);
    t.lemma_end_of(p);
    let e = t.end_of(r);
    if e < t.end_of(p) {
        assert(t.depth(e) > t.depth(p));
        assert(t.depth(e) == t.depth(r));
    }
}

proof fn lemma_scan_end(t: SyntaxTree, c: int)
    requires
        t.wf(),
        0 <= c < t.len(),
    ensures
        ({
            let (c2, found) = scan_to_identifier(t, c);
            &&& c <= c2 < t.len()
            &&& found ==> c < c2 && t.kind(c2) == NodeKind::Identifier
            &&& !found ==> t.next_sibling(c2) is None
            &&& c2 == c || (0 < c && t.parent_of(c2) == t.parent_of(c))
        }),
    decreases t.len() - c,
{
    if let Some(s) = t.next_sibling(c) {
        t.lemma_next_sibling_parent(c);
        if t.kind(s) != NodeKind::Identifier {
            lemma_scan_end(t, s);
        }
    }
}

proof fn lemma_variable_run_end(
    t: SyntaxTree,
    src: Seq<u8>,
    params: Seq<(Seq<u8>, i32)>,
    c: int,
    vars: Seq<Seq<u8>>,
)
    requires
        t.wf(),
        0 <= c < t.len(),
    ensures
        ({
            let c2 = variable_run(t, src, params, c, vars).1;
            &&& c <= c2 < t.len()
            &&& t.next_sibling(c2) is None
            &&& c2 == c || (0 < c && t.parent_of(c2) == t.parent_of(c))
        }),
    decreases t.len() - c,
{
    let vars1 = match node_text(t, src, c) {
        Some(name) => record_variable(vars, params, name),
        None => vars,
    };
    lemma_scan_end(t, c);
    let (c2, found) = scan_to_identifier(t, c);
    if found && c < c2 < t.len() {
        lemma_variable_run_end(t, src, params, c2, vars1);
    }
}

/// The variable walk entered at `x` counts the `and` nodes from `x` up to
/// the end of the subtree of the node `r` where it ends, an ancestor of `x`.
proof fn lemma_vars_walk_counts(
    t: SyntaxTree,
    src: Seq<u8>,
    params: Seq<(Seq<u8>, i32)>,
    x: int,
    vars: Seq<Seq<u8>>,
)
    requires
        t.wf(),
        no_and_behind_identifiers(t),
        0 <= x < t.len(),
    ensures
        vars_walk(t, src, params, x, vars) matches Some((_, a, r)) && 0 <= r <= x < t.end_of(r) && (
        x > 0 ==> r < x) && a == and_count(t, x, t.end_of(r)),
    decreases t.len() - x, 1int,
{
    t.lemma_end_of(x);
    assert(and_count(t, x, x) == 0);
    assert(and_count(t, x, x + 1) == (if t.kind(x) == NodeKind::And { 1nat } else { 0nat }));
    if t.kind(x) == NodeKind::Identifier {
        lemma_variable_run_end(t, src, params, x, vars);
        let c2 = variable_run(t, src, params, x, vars).1;
        let r = climb(t, x);
        if x > 0 {
            t.lemma_parent_encloses(x);
            t.lemma_parent_of(x);
            assert(climb(t, c2) == r);
        } else {
            assert(c2 == 0);
        }
        t.lemma_end_of(r);
        assert(and_count(t, x, t.end_of(r)) == 0) by {
            assert forall|j: int| x <= j < t.end_of(r) implies t.kind(j) != NodeKind::And by {
                if j > x {
                    assert(t.kind(x) == NodeKind::Identifier);
                }
            }
            lemma_no_and(t, x, t.end_of(r));
        }
        assert(vars_walk(t, src, params, x, vars) == Some(
            (variable_run(t, src, params, x, vars).0, 0nat, climb(t, c2)),
        ));
        assert(0 <= r <= x < t.end_of(r));
    } else {
        let has_child = t.first_child(x) is Some && x + 1 < t.len();
        if has_child {
            lemma_vars_walk_counts(t, src, params, x + 1, vars);
            let (v1, a1, r1) = vars_walk(t, src, params, x + 1, vars)->0;
            assert(r1 <= x);
            lemma_vars_walk_siblings_counts(t, src, params, r1, v1, x);
            let (v2, a2, r2) = vars_walk_siblings(t, src, params, r1, v1, x)->0;
            lemma_subtree_end(t, r2, r1);
            lemma_and_count_split(t, x + 1, t.end_of(r1), t.end_of(r2));
            lemma_and_count_split(t, x, x + 1, t.end_of(r2));
            lemma_climb_end(t, r2, x);
            assert(vars_walk(t, src, params, x, vars) == Some(
                (v2, (if t.kind(x) == NodeKind::And { 1nat } else { 0nat }) + a1 + a2, climb(t, r2)),
            ));
            assert(a1 == and_count(t, x + 1, t.end_of(r1)));
            assert(a2 == and_count(t, t.end_of(r1), t.end_of(r2)));
            assert(and_count(t, x, x) == 0);
            assert(and_count(t, x, x + 1) == (if t.kind(x) == NodeKind::And { 1nat } else { 0nat }));
        } else {
            assert(t.end_of(x) == x + 1);
            lemma_vars_walk_siblings_counts(t, src, params, x, vars, x);
            let (v2, a2, r2) = vars_walk_siblings(t, src, params, x, vars, x)->0;
            lemma_and_count_split(t, x, x + 1, t.end_of(r2));
            lemma_climb_end(t, r2, x);
        }
    }
}

proof fn lemma_no_and(t: SyntaxTree, a: int, b: int)
    requires
        forall|j: int| a <= j < b ==> t.kind(j) != NodeKind::And,
    ensures
        and_count(t, a, b) == 0,
    decreases b - a,
{
    if a < b {
        lemma_no_and(t, a, b - 1);
    }
}

/// Climbing from `r`, an ancestor of `x` with no next sibling, keeps an
/// ancestor of `x` and the same subtree end.
proof fn lemma_climb_end(t: SyntaxTree, r: int, x: int)
    requires
        t.wf(),
        0 <= r <= x < t.end_of(r),
        x < t.len(),
        t.next_sibling(r) is None,
    ensures
        0 <= climb(t, r) <= x < t.end_of(climb(t, r)),
        x > 0 ==> climb(t, r) < x,
        t.end_of(climb(t, r)) == t.end_of(r),
{
    if r > 0 {
        t.lemma_parent_of(r);
        t.lemma_parent_encloses(r);
        lemma_last_child_end(t, r);
    }
}

/// The sibling loop of the variable walk from `c` counts the `and` nodes
/// from the end of the subtree of `c` up to the end of the subtree of the
/// ancestor `r` of `c` where it stops, which has no next sibling.
proof fn lemma_vars_walk_siblings_counts(
    t: SyntaxTree,
    src: Seq<u8>,
    params: Seq<(Seq<u8>, i32)>,
    c: int,
    vars: Seq<Seq<u8>>,
    lo: int,
)
    requires
        t.wf(),
        no_and_behind_identifiers(t),
        0 <= c <= lo < t.end_of(c),
        lo < t.len(),
    ensures
        vars_walk_siblings(t, src, params, c, vars, lo) matches Some((_, a, r)) && 0 <= r <= c
            < t.end_of(r) && t.next_sibling(r) is None && t.end_of(c) <= t.end_of(r) && a
            == and_count(t, t.end_of(c), t.end_of(r)),
    decreases t.len() - lo, 0int,
{
    t.lemma_end_of(c);
    if let Some(s) = t.next_sibling(c) {
        t.lemma_next_sibling_parent(c);
        lemma_vars_walk_counts(t, src, params, s, vars);
        let (v1, a1, r1) = vars_walk(t, src, params, s, vars)->0;
        t.lemma_sibling_ancestor(c, r1, c);
        lemma_vars_walk_siblings_counts(t, src, params, r1, v1, s);
        let (v2, a2, r2) = vars_walk_siblings(t, src, params, r1, v1, s)->0;
        lemma_subtree_end(t, r2, r1);
        lemma_and_count_split(t, s, t.end_of(r1), t.end_of(r2));
    }
}

/// The variable walk from the root counts every `and` node of the tree, so
/// that a line with `n` conjunctions has `n + 1` constraints, as long as no
/// `and` node stands behind an identifier.
pub proof fn lemma_vars_walk_counts_every_and(
    t: SyntaxTree,
    src: Seq<u8>,
    params: Seq<(Seq<u8>, i32)>,
    vars: Seq<Seq<u8>>,
)
    requires
        t.wf(),
        no_and_behind_identifiers(t),
    ensures
        vars_walk(t, src, params, 0, vars) matches Some((_, a, _)) && a == and_count(t, 0, t.len()),
{
    t.lemma_nonempty();
    t.lemma_root_end();
    lemma_vars_walk_counts(t, src, params, 0, vars);
}

/// Why the parameter declarations could not be read.
#[derive(Clone, Copy, Debug)]
pub enum ParamError {
    /// a declared parameter has no `inter` node after it
    ValueMissing,
    /// the span of a value does not lie within the source
    ValueOutsideSource { start: usize, end: usize },
    /// a value is not a decimal `i32`
    ValueNotInteger { start: usize, end: usize },
}

/// The parameter table after declaring `name` with largest value `max`: the
/// first declaration of a name stands.
pub open spec fn add_param(params: Seq<(Seq<u8>, i32)>, name: Seq<u8>, max: i32) -> Seq<
    (Seq<u8>, i32),
> {
    if param_names(params).contains(name) {
        params
    } else {
        params.push((name, max))
    }
}

/// The first step from `c` over next siblings when the node last read is
/// `name`: it stops on `parameters` or on the last sibling.
pub open spec fn skip_to_parameters(t: SyntaxTree, c: int, name: NodeKind) -> int
    decreases t.len() - c,
{
    if name == NodeKind::Parameters || !(0 <= c < t.len()) {
        c
    } else {
        match t.next_sibling(c) {
            Some(s) => if c < s < t.len() {
                skip_to_parameters(t, s, t.kind(s))
            } else {
                c
            },
            None => c,
        }
    }
}

/// The first later sibling of `c` that is an `inter` node.
pub open spec fn find_inter(t: SyntaxTree, c: int) -> Option<int>
    decreases t.len() - c,
{
    if !(0 <= c < t.len()) {
        None
    } else {
        match t.next_sibling(c) {
            None => None,
            Some(s) => if c < s < t.len() {
                if t.kind(s) == NodeKind::Inter {
                    Some(s)
                } else {
                    find_inter(t, s)
                }
            } else {
                None
            },
        }
    }
}

/// The declarations that follow `c` among its siblings: every identifier is
/// a parameter whose largest value is the next `inter` node. `id` and `num`
/// are the name and value read last. Gives the table after the declarations
/// read, and whether they all were read or why the reading stopped.
pub open spec fn declarations(
    t: SyntaxTree,
    src: Seq<u8>,
    c: int,
    params: Seq<(Seq<u8>, i32)>,
    id: Seq<u8>,
    num: i32,
) -> (Seq<(Seq<u8>, i32)>, Result<(), ParamError>)
    decreases t.len() - c,
{
    if !(0 <= c < t.len()) {
        (params, Ok(()))
    } else {
        match t.next_sibling(c) {
            None => (params, Ok(())),
            Some(s) => if !(c < s < t.len()) {
                (params, Ok(()))
            } else if t.kind(s) != NodeKind::Identifier {
                declarations(t, src, s, params, id, num)
            } else {
                let id1 = match node_text(t, src, s) {
                    Some(tx) => tx,
                    None => id,
                };
                match find_inter(t, s) {
                    None => (params, Err(ParamError::ValueMissing)),
                    Some(v) => {
                        let n = t.nodes()[v];
                        match span_text(src, n.start_byte as int, n.end_byte as int) {
                            None => (
                                params,
                                Err(
                                    ParamError::ValueOutsideSource {
                                        start: n.start_byte,
                                        end: n.end_byte,
                                    },
                                ),
                            ),
                            Some(tx) => match decimal_i32(tx) {
                                None => (
                                    params,
                                    Err(
                                        ParamError::ValueNotInteger {
                                            start: n.start_byte,
                                            end: n.end_byte,
                                        },
                                    ),
                                ),
                                Some(num1) => if s < v < t.len() {
                                    declarations(t, src, v, add_param(params, id1, num1), id1, num1)
                                } else {
                                    (params, Ok(()))
                                },
                            },
                        }
                    },
                }
            },
        }
    }
}

/// Where the cursor goes on `goto_first_child`.
pub open spec fn child_or_stay(t: SyntaxTree, c: int) -> int {
    match t.first_child(c) {
        Some(k) => k,
        None => c,
    }
}

/// What `params_discover` reads from the cursor at `p`: it goes down two
/// levels, skips to the `parameters` node among the siblings there, and
/// reads the declarations after it.
pub open spec fn params_walk(
    t: SyntaxTree,
    src: Seq<u8>,
    p: int,
    params: Seq<(Seq<u8>, i32)>,
) -> (Seq<(Seq<u8>, i32)>, Result<(), ParamError>) {
    let p1 = child_or_stay(t, child_or_stay(t, p));
    let c = skip_to_parameters(t, p1, t.kind(p));
    declarations(t, src, c, params, seq![], 0)
}

/// The parameter declarations only append to the table: whatever it holds,
/// the parameters known before keep their places.
pub proof fn lemma_declarations_prefix(
    t: SyntaxTree,
    src: Seq<u8>,
    c: int,
    params: Seq<(Seq<u8>, i32)>,
    id: Seq<u8>,
    num: i32,
)
    ensures
        params.is_prefix_of(declarations(t, src, c, params, id, num).0),
    decreases t.len() - c,
{
    assert(params =~= params.subrange(0, params.len() as int));
    if 0 <= c < t.len() {
        if let Some(s) = t.next_sibling(c) {
            if c < s < t.len() {
                if t.kind(s) != NodeKind::Identifier {
                    lemma_declarations_prefix(t, src, s, params, id, num);
                } else {
                    let id1 = match node_text(t, src, s) {
                        Some(tx) => tx,
                        None => id,
                    };
                    if let Some(v) = find_inter(t, s) {
                        let n = t.nodes()[v];
                        if let Some(tx) = span_text(src, n.start_byte as int, n.end_byte as int) {
                            if let Some(num1) = decimal_i32(tx) {
                                if s < v < t.len() {
                                    let p1 = add_param(params, id1, num1);
                                    assert(params =~= p1.subrange(0, params.len() as int));
                                    lemma_declarations_prefix(t, src, v, p1, id1, num1);
                                    let p = declarations(t, src, v, p1, id1, num1).0;
                                    assert(params =~= p.subrange(0, params.len() as int)) by {
                                        assert(p1 =~= p.subrange(0, p1.len() as int));
                                    }
                                }
                            }
                        }
                    }
                }
            }
        }
    }
}

proof fn lemma_find_inter_after(t: SyntaxTree, c: int)
    ensures
        find_inter(t, c) matches Some(v) ==> c < v < t.len() && t.kind(v) == NodeKind::Inter,
    decreases t.len() - c,
{
    if 0 <= c < t.len() {
        if let Some(s) = t.next_sibling(c) {
            if c < s < t.len() && t.kind(s) != NodeKind::Inter {
                lemma_find_inter_after(t, s);
            }
        }
    }
}

/// `name` is the whole text of an identifier node after `c`.
pub open spec fn identifier_text_after(t: SyntaxTree, src: Seq<u8>, c: int, name: Seq<u8>) -> bool {
    exists|k: int|
        c < k < t.len() && t.kind(k) == NodeKind::Identifier && #[trigger] node_text(t, src, k)
            == Some(name)
}

/// Every entry of `after` past the entries of `before` is named by the whole
/// text of an identifier node after `c`.
pub open spec fn named_by_identifiers(
    t: SyntaxTree,
    src: Seq<u8>,
    c: int,
    before: Seq<(Seq<u8>, i32)>,
    after: Seq<(Seq<u8>, i32)>,
) -> bool {
    forall|q: int|
        before.len() <= q < after.len() ==> identifier_text_after(t, src, c, #[trigger] after[q].0)
}

proof fn lemma_named_by_earlier(
    t: SyntaxTree,
    src: Seq<u8>,
    c: int,
    s: int,
    before: Seq<(Seq<u8>, i32)>,
    after: Seq<(Seq<u8>, i32)>,
)
    requires
        c <= s,
        named_by_identifiers(t, src, s, before, after),
    ensures
        named_by_identifiers(t, src, c, before, after),
{
    assert forall|q: int| before.len() <= q < after.len() implies identifier_text_after(
        t,
        src,
        c,
        #[trigger] after[q].0,
    ) by {
        assert(identifier_text_after(t, src, s, after[q].0));
        let k = choose|k: int|
            s < k < t.len() && t.kind(k) == NodeKind::Identifier && #[trigger] node_text(t, src, k)
                == Some(after[q].0);
        assert(node_text(t, src, k) == Some(after[q].0));
    }
}

/// Every parameter that the declarations add to the table is named by the
/// whole text of an identifier node that follows `c`, when every such
/// identifier lies within the source.
pub proof fn lemma_declared_names(
    t: SyntaxTree,
    src: Seq<u8>,
    c: int,
    params: Seq<(Seq<u8>, i32)>,
    id: Seq<u8>,
    num: i32,
)
    requires
        forall|k: int|
            c < k < t.len() && #[trigger] t.kind(k) == NodeKind::Identifier ==> node_text(t, src, k)
                is Some,
    ensures
        named_by_identifiers(t, src, c, params, declarations(t, src, c, params, id, num).0),
    decreases t.len() - c,
{
    lemma_declarations_prefix(t, src, c, params, id, num);
    let fin = declarations(t, src, c, params, id, num).0;
    if 0 <= c < t.len() {
        if let Some(s) = t.next_sibling(c) {
            if c < s < t.len() {
                if t.kind(s) != NodeKind::Identifier {
                    lemma_declared_names(t, src, s, params, id, num);
                    assert(fin == declarations(t, src, s, params, id, num).0);
                    lemma_named_by_earlier(t, src, c, s, params, fin);
                    assert(named_by_identifiers(t, src, c, params, fin));
                } else {
                    let id1 = node_text(t, src, s)->0;
                    assert(node_text(t, src, s) is Some);
                    if let Some(v) = find_inter(t, s) {
                        lemma_find_inter_after(t, s);
                        let n = t.nodes()[v];
                        if let Some(tx) = span_text(src, n.start_byte as int, n.end_byte as int) {
                            if let Some(num1) = decimal_i32(tx) {
                                if s < v < t.len() {
                                    let p1 = add_param(params, id1, num1);
                                    lemma_declared_names(t, src, v, p1, id1, num1);
                                    lemma_declarations_prefix(t, src, v, p1, id1, num1);
                                    assert(fin == declarations(t, src, v, p1, id1, num1).0);
                                    if !param_names(params).contains(id1) {
                                        assert(identifier_text_after(t, src, c, id1)) by {
                                            assert(node_text(t, src, s) == Some(id1));
                                        }
                                    }
                                    assert forall|q: int| params.len() <= q < fin.len() implies identifier_text_after(
                                        t,
                                        src,
                                        c,
                                        #[trigger] fin[q].0,
                                    ) by {
                                        if q < p1.len() {
                                            assert(p1.is_prefix_of(fin));
                                            assert(fin[q] == p1.subrange(0, p1.len() as int)[q]);
                                            assert(fin[q] == p1[q]);
                                            assert(p1[q].0 == id1);
                                        } else {
                                            assert(declarations(t, src, v, p1, id1, num1).0[q]
                                                == fin[q]);
                                            assert(identifier_text_after(t, src, v, fin[q].0));
                                            let k = choose|k: int|
                                                v < k < t.len() && t.kind(k) == NodeKind::Identifier
                                                    && #[trigger] node_text(t, src, k) == Some(
                                                    fin[q].0,
                                                );
                                            assert(node_text(t, src, k) == Some(fin[q].0));
                                        }
                                    }
                                    assert(named_by_identifiers(t, src, c, params, fin));
                                } else {
                                    assert(fin =~= params);
                                }
                            } else {
                                assert(fin =~= params);
                            }
                        } else {
                            assert(fin =~= params);
                        }
                    } else {
                        assert(fin =~= params);
                    }
                }
            } else {
                assert(fin =~= params);
            }
        } else {
            assert(fin =~= params);
        }
    } else {
        assert(fin =~= params);
    }
}

proof fn lemma_next_sibling_before(t: SyntaxTree, c: int, y: int)
    requires
        t.wf(),
        0 < c < y < t.len(),
        t.parent_of(y) == t.parent_of(c),
    ensures
        t.next_sibling(c) is Some,
        t.next_sibling(c)->0 <= y,
        t.parent_of(t.next_sibling(c)->0) == t.parent_of(c),
{
    let p = t.parent_of(c);
    t.lemma_parent_of(c);
    t.lemma_parent_of(y);
    t.lemma_parent_encloses(y);
    t.lemma_end_of(c);
    t.lemma_end_of(p);
    let e = t.end_of(c);
    assert(e <= y);
    assert(t.depth(e) > t.depth(p));
    assert(t.next_sibling(c) == Some(e));
    t.lemma_next_sibling_parent(c);
}

proof fn lemma_find_inter_first(t: SyntaxTree, c: int, y: int)
    requires
        t.wf(),
        0 < c < y < t.len(),
        t.parent_of(y) == t.parent_of(c),
        t.kind(y) == NodeKind::Inter,
    ensures
        find_inter(t, c) matches Some(v) && c < v <= y && t.parent_of(v) == t.parent_of(c),
    decreases t.len() - c,
{
    lemma_next_sibling_before(t, c, y);
    let s = t.next_sibling(c)->0;
    t.lemma_end_of(c);
    if t.kind(s) != NodeKind::Inter {
        lemma_find_inter_first(t, s, y);
    }
}

/// Every parameter declared after the `parameters` node `c` is found in the
/// table under the whole text of its identifier, when the declarations are
/// all read: an identifier that directly follows `c` or the value of an
/// earlier declaration is a declaration.
pub proof fn lemma_declared_names_found(
    t: SyntaxTree,
    src: Seq<u8>,
    c: int,
    params: Seq<(Seq<u8>, i32)>,
    id: Seq<u8>,
    num: i32,
    u: int,
    s: int,
)
    requires
        t.wf(),
        0 < c <= u < t.len(),
        forall|k: int|
            c < k < t.len() && #[trigger] t.kind(k) == NodeKind::Identifier ==> node_text(t, src, k)
                is Some,
        u == c || (t.parent_of(u) == t.parent_of(c) && t.kind(u) == NodeKind::Inter),
        t.next_sibling(u) == Some(s),
        t.kind(s) == NodeKind::Identifier,
        declarations(t, src, c, params, id, num).1 is Ok,
    ensures
        param_names(declarations(t, src, c, params, id, num).0).contains(node_text(t, src, s)->0),
    decreases t.len() - c,
{
    t.lemma_end_of(u);
    t.lemma_next_sibling_parent(u);
    if u == c {
        lemma_declarations_names_after_read(t, src, c, params, id, num, s);
    } else {
        lemma_next_sibling_before(t, c, u);
        let s1 = t.next_sibling(c)->0;
        t.lemma_end_of(c);
        if t.kind(s1) != NodeKind::Identifier {
            lemma_declared_names_found(t, src, s1, params, id, num, u, s);
        } else {
            assert(s1 < u);
            lemma_find_inter_first(t, s1, u);
            let v = find_inter(t, s1)->0;
            let id1 = node_text(t, src, s1)->0;
            let n = t.nodes()[v];
            let tx = span_text(src, n.start_byte as int, n.end_byte as int)->0;
            let num1 = decimal_i32(tx)->0;
            let p1 = add_param(params, id1, num1);
            assert(declarations(t, src, c, params, id, num) == declarations(t, src, v, p1, id1, num1));
            lemma_declared_names_found(t, src, v, p1, id1, num1, u, s);
        }
    }
}

/// The identifier `s` right after `c` is read as a declaration.
proof fn lemma_declarations_names_after_read(
    t: SyntaxTree,
    src: Seq<u8>,
    c: int,
    params: Seq<(Seq<u8>, i32)>,
    id: Seq<u8>,
    num: i32,
    s: int,
)
    requires
        t.wf(),
        0 <= c < t.len(),
        forall|k: int|
            c < k < t.len() && #[trigger] t.kind(k) == NodeKind::Identifier ==> node_text(t, src, k)
                is Some,
        t.next_sibling(c) == Some(s),
        t.kind(s) == NodeKind::Identifier,
        declarations(t, src, c, params, id, num).1 is Ok,
    ensures
        param_names(declarations(t, src, c, params, id, num).0).contains(node_text(t, src, s)->0),
{
    t.lemma_end_of(c);
    let id1 = node_text(t, src, s)->0;
    lemma_find_inter_after(t, s);
    let v = find_inter(t, s)->0;
    let n = t.nodes()[v];
    let tx = span_text(src, n.start_byte as int, n.end_byte as int)->0;
    let num1 = decimal_i32(tx)->0;
    let p1 = add_param(params, id1, num1);
    assert(param_names(p1).contains(id1)) by {
        if !param_names(params).contains(id1) {
            assert(param_names(p1)[params.len() as int] == id1);
        }
    }
    lemma_declarations_prefix(t, src, v, p1, id1, num1);
    let fin = declarations(t, src, v, p1, id1, num1).0;
    assert(declarations(t, src, c, params, id, num).0 == fin);
    let k = choose|k: int| 0 <= k < param_names(p1).len() && param_names(p1)[k] == id1;
    assert(fin[k] == p1.subrange(0, p1.len() as int)[k]);
    assert(param_names(fin)[k] == id1);
}

/// The parameter declarations keep the table's names distinct: a table that
/// names each parameter once still does so after them, and the parameters
/// declared before keep their places (the first declaration of a name
/// stands, new names are appended).
pub proof fn lemma_declarations_distinct(
    t: SyntaxTree,
    src: Seq<u8>,
    c: int,
    params: Seq<(Seq<u8>, i32)>,
    id: Seq<u8>,
    num: i32,
)
    requires
        param_names(params).no_duplicates(),
    ensures
        param_names(declarations(t, src, c, params, id, num).0).no_duplicates() && params.is_prefix_of(
            declarations(t, src, c, params, id, num).0,
        ),
    decreases t.len() - c,
{
    assert(params =~= params.subrange(0, params.len() as int));
    if 0 <= c < t.len() {
        if let Some(s) = t.next_sibling(c) {
            if c < s < t.len() {
                if t.kind(s) != NodeKind::Identifier {
                    lemma_declarations_distinct(t, src, s, params, id, num);
                } else {
                    let id1 = match node_text(t, src, s) {
                        Some(tx) => tx,
                        None => id,
                    };
                    if let Some(v) = find_inter(t, s) {
                        let n = t.nodes()[v];
                        if let Some(tx) = span_text(src, n.start_byte as int, n.end_byte as int) {
                            if let Some(num1) = decimal_i32(tx) {
                                if s < v < t.len() {
                                    let p1 = add_param(params, id1, num1);
                                    let names = param_names(params);
                                    let names1 = param_names(p1);
                                    if !names.contains(id1) {
                                        assert(names1 =~= names.push(id1));
                                        assert forall|i: int, j: int|
                                            0 <= i < names1.len() && 0 <= j < names1.len() && i
                                                != j implies names1[i] != names1[j] by {
                                            if i == names.len() {
                                                assert(names.contains(names1[j]));
                                            } else if j == names.len() {
                                                assert(names.contains(names1[i]));
                                            }
                                        }
                                    }
                                    assert(params =~= p1.subrange(0, params.len() as int));
                                    lemma_declarations_distinct(t, src, v, p1, id1, num1);
                                    let p = declarations(t, src, v, p1, id1, num1).0;
                                    assert(params =~= p.subrange(0, params.len() as int)) by {
                                        assert(p1 =~= p.subrange(0, p1.len() as int));
                                    }
                                }
                            }
                        }
                    }
                }
            }
        }
    }
}

/// The parameter declarations of the line at `p` can all be read: every
/// declared parameter has a value after it, within the source, that is a
/// decimal `i32`.
pub open spec fn params_readable(
    t: SyntaxTree,
    src: Seq<u8>,
    p: int,
    params: Seq<(Seq<u8>, i32)>,
) -> bool {
    params_walk(t, src, p, params).1 is Ok
}

/// Collects the parameters declared after the `parameters` node, each with
/// the largest value it takes; a name declared twice keeps its first value.
/// The declarations must all be readable (see `read_params`, which tells).
pub fn params_discover(tc: &mut SyntaxCursor<'_>, src: &[u8], params: &mut Vec<(Vec<u8>, i32)>)
    requires
        params_readable(old(tc).tree(), src@, old(tc).pos(), old(params).deep_view()),
    ensures
        final(tc).wf(),
        final(tc).tree() == old(tc).tree(),
        final(params).deep_view() == params_walk(
            old(tc).tree(),
            src@,
            old(tc).pos(),
            old(params).deep_view(),
        ).0,
        param_names(old(params).deep_view()).no_duplicates() ==> param_names(
            final(params).deep_view(),
        ).no_duplicates(),
        old(params).deep_view().is_prefix_of(final(params).deep_view()),
{
    proof {
        use_type_invariant(&*tc);
    }
    let _ = read_params(tc, src, params);
}

/// Reads the parameter declarations as `params_discover` does, and tells
/// whether they all could be read: on an error, the table holds the
/// declarations read before it.
pub fn read_params(
    tc: &mut SyntaxCursor<'_>,
    src: &[u8],
    params: &mut Vec<(Vec<u8>, i32)>,
) -> (r: Result<(), ParamError>)
    ensures
        final(tc).wf(),
        final(tc).tree() == old(tc).tree(),
        params_walk(old(tc).tree(), src@, old(tc).pos(), old(params).deep_view()) == (
            final(params).deep_view(),
            r,
        ),
        param_names(old(params).deep_view()).no_duplicates() ==> param_names(
            final(params).deep_view(),
        ).no_duplicates(),
        old(params).deep_view().is_prefix_of(final(params).deep_view()),
{
    proof {
        use_type_invariant(&*tc);
    }
    let ghost t = tc.tree();
    let mut name = tc.node().kind;
    let mut id_string: Vec<u8> = Vec::new();
    let mut num: i32 = 0;
    tc.goto_first_child();
    tc.goto_first_child();
    let ghost p1 = tc.pos();
    let ghost c_goal = skip_to_parameters(t, p1, name);
    loop
        invariant
            tc.wf(),
            tc.tree() == t,
            skip_to_parameters(t, tc.pos(), name) == c_goal,
        ensures
            tc.wf(),
            tc.tree() == t,
            tc.pos() == c_goal,
        decreases t.len() - tc.pos(),
    {
        if name == NodeKind::Parameters {
            break;
        }
        let ghost c = tc.pos();
        proof {
            t.lemma_end_of(c);
        }
        if !tc.goto_next_sibling() {
            break;
        }
        name = tc.node().kind;
    }
    let ghost goal = declarations(t, src@, c_goal, params.deep_view(), seq![], 0);
    proof {
        if param_names(params.deep_view()).no_duplicates() {
            lemma_declarations_distinct(t, src@, c_goal, params.deep_view(), seq![], 0);
        }
        lemma_declarations_prefix(t, src@, c_goal, params.deep_view(), seq![], 0);
    }
    assert(goal == params_walk(t, src@, old(tc).pos(), old(params).deep_view()));
    loop
        invariant
            tc.wf(),
            tc.tree() == t,
            t == old(tc).tree(),
            goal == params_walk(t, src@, old(tc).pos(), old(params).deep_view()),
            param_names(old(params).deep_view()).no_duplicates() ==> param_names(goal.0).no_duplicates(),
            old(params).deep_view().is_prefix_of(goal.0),
            goal == declarations(t, src@, tc.pos(), params.deep_view(), id_string@, num),
        ensures
            goal == (params.deep_view(), Ok::<(), ParamError>(())),
            tc.wf(),
            tc.tree() == t,
        decreases t.len() - tc.pos(),
    {
        let ghost c = tc.pos();
        proof {
            t.lemma_end_of(c);
        }
        if !tc.goto_next_sibling() {
            break;
        }
        let ghost s = tc.pos();
        let ghost pin = params.deep_view();
        let ghost id0 = id_string@;
        let ghost num0 = num;
        name = tc.node().kind;
        if name == NodeKind::Identifier {
            let node = tc.node();
            match copy_span(src, node.start_byte, node.end_byte) {
                Some(tx) => {
                    id_string = tx;
                },
                None => {},
            }
            let ghost want = find_inter(t, s);
            loop
                invariant
                    tc.wf(),
                    tc.tree() == t,
                    s <= tc.pos() < t.len(),
                    name == t.kind(tc.pos()),
                    tc.pos() == s ==> name == NodeKind::Identifier,
                    want == find_inter(t, s),
                    t == old(tc).tree(),
                    goal == params_walk(t, src@, old(tc).pos(), old(params).deep_view()),
                    param_names(old(params).deep_view()).no_duplicates() ==> param_names(goal.0).no_duplicates(),
                    old(params).deep_view().is_prefix_of(goal.0),
                    goal == declarations(t, src@, c, pin, id0, num0),
                    pin == params.deep_view(),
                    0 <= c < s < t.len(),
                    t.next_sibling(c) == Some(s),
                    t.kind(s) == NodeKind::Identifier,
                    want == if tc.pos() > s && name == NodeKind::Inter {
                        Some(tc.pos())
                    } else {
                        find_inter(t, tc.pos())
                    },
                ensures
                    tc.wf(),
                    tc.tree() == t,
                    want == Some(tc.pos()),
                    s < tc.pos(),
                    name == NodeKind::Inter,
                decreases t.len() - tc.pos(),
            {
                if name == NodeKind::Inter {
                    break;
                }
                let ghost q = tc.pos();
                proof {
                    t.lemma_end_of(q);
                }
                if !tc.goto_next_sibling() {
                    return Err(ParamError::ValueMissing);
                }
                name = tc.node().kind;
            }
            let node = tc.node();
            let text = match copy_span(src, node.start_byte, node.end_byte) {
                Some(tx) => tx,
                None => {
                    return Err(
                        ParamError::ValueOutsideSource {
                            start: node.start_byte,
                            end: node.end_byte,
                        },
                    );
                },
            };
            match parse_i32(text.as_slice()) {
                Some(v) => {
                    num = v;
                },
                None => {
                    return Err(
                        ParamError::ValueNotInteger { start: node.start_byte, end: node.end_byte },
                    );
                },
            }
            if find_param(params, id_string.as_slice()).is_none() {
                let ghost old_dv = params.deep_view();
                params.push((id_string.clone(), num));
                proof {
                    assert(params.deep_view() =~= old_dv.push((id_string@, num))) by {
                        assert(params.deep_view()[old_dv.len() as int] =~= (id_string@, num));
                    }
                }
            }
        }
    }
    Ok(())
}

} // verus!
