//! The bookkeeping of the general simplex method: bound kinds, the order in
//! which variables are tried, and the choices of the pivoting rule.
use rand::seq::SliceRandom;
use vstd::prelude::*;

verus! {

/// The kind of bound that a variable carries.
#[derive(Clone, Copy, Debug, PartialEq, Eq, Structural)]
pub enum VariableState {
    /// the variable must be at least the bound
    AtLowerBound,
    /// the variable must be at most the bound
    AtUpperBound,
    /// the variable must equal the bound
    EqualBound,
    /// the variable is unbounded
    Free,
}

/// The order in which the variables are tried.
#[derive(Clone, Copy, Debug, PartialEq, Eq, Structural)]
pub enum Sorting {
    /// slack variables first, then the problem's variables, as laid out
    Normal,
    /// the layout order reversed
    Reversed,
    /// a random permutation of the layout order
    Random,
}

/// How the value of a variable compares with its bound `b`, within the
/// tolerance `e` of the solver.
#[derive(Clone, Copy, Debug)]
pub struct Comparison {
    /// value <= b - e
    pub at_or_below_low: bool,
    /// value >= b + e
    pub at_or_above_high: bool,
    /// value > b + e
    pub above_high: bool,
    /// value < b - e
    pub below_low: bool,
}

/// How a coefficient of the pivot row compares with zero, within the
/// tolerance of the solver.
#[derive(Clone, Copy, Debug, PartialEq, Eq, Structural)]
pub enum CoefficientSign {
    /// |c| < e
    Negligible,
    /// c > 0
    Positive,
    /// c < 0
    Negative,
    /// none of these (not a number)
    Unordered,
}

/// The bound that a basic variable of kind `kind` violates, from how its
/// value compares with the bound: a lower bound when it is too small, an
/// upper bound when it is too large.
pub open spec fn violation_of(kind: VariableState, low: bool, high: bool) -> Option<VariableState> {
    match kind {
        VariableState::AtLowerBound => if low {
            Some(VariableState::AtLowerBound)
        } else {
            None
        },
        VariableState::AtUpperBound => if high {
            Some(VariableState::AtUpperBound)
        } else {
            None
        },
        VariableState::EqualBound => if low {
            Some(VariableState::AtLowerBound)
        } else if high {
            Some(VariableState::AtUpperBound)
        } else {
            None
        },
        VariableState::Free => None,
    }
}

/// Whether a non-basic variable of kind `kind` may move in the direction
/// that repairs the violated row: increase when `needs_to_increase`, else
/// decrease. `above_high` and `below_low` compare its value with its bound.
pub open spec fn can_move(
    kind: VariableState,
    needs_to_increase: bool,
    above_high: bool,
    below_low: bool,
) -> bool {
    match kind {
        VariableState::AtLowerBound => needs_to_increase || above_high,
        VariableState::AtUpperBound => !needs_to_increase || below_low,
        VariableState::EqualBound => false,
        VariableState::Free => true,
    }
}

/// Whether a non-basic variable must increase to repair a row that violates
/// a bound of kind `violation`, given the sign of its coefficient there.
pub open spec fn needs_increase(violation: VariableState, sign: CoefficientSign) -> bool {
    match violation {
        VariableState::AtLowerBound => sign == CoefficientSign::Positive,
        VariableState::AtUpperBound => sign == CoefficientSign::Negative,
        _ => false,
    }
}

/// The violated bound of a basic variable (see `violation_of`).
pub fn classify_violation(kind: VariableState, low: bool, high: bool) -> (r: Option<VariableState>)
    ensures
        r == violation_of(kind, low, high),
        kind == VariableState::AtUpperBound ==> (r is Some <==> high),
        kind == VariableState::AtLowerBound ==> (r is Some <==> low),
        kind == VariableState::EqualBound ==> (r is Some <==> low || high),
        kind == VariableState::Free ==> r is None,
        r matches Some(k) ==> (k == VariableState::AtUpperBound && high) || (k
            == VariableState::AtLowerBound && low),
{
    match kind {
        VariableState::AtLowerBound => if low {
            Some(VariableState::AtLowerBound)
        } else {
            None
        },
        VariableState::AtUpperBound => if high {
            Some(VariableState::AtUpperBound)
        } else {
            None
        },
        VariableState::EqualBound => if low {
            Some(VariableState::AtLowerBound)
        } else if high {
            Some(VariableState::AtUpperBound)
        } else {
            None
        },
        VariableState::Free => None,
    }
}

/// Whether a non-basic variable may move to repair a violated row (see
/// `can_move`).
pub fn check_bounds(
    nb_bound_type: VariableState,
    needs_to_increase: bool,
    above_high: bool,
    below_low: bool,
) -> (r: bool)
    ensures
        r == can_move(nb_bound_type, needs_to_increase, above_high, below_low),
        nb_bound_type == VariableState::EqualBound ==> !r,
        nb_bound_type == VariableState::Free ==> r,
        nb_bound_type == VariableState::AtUpperBound ==> (r <==> !needs_to_increase || below_low),
        nb_bound_type == VariableState::AtLowerBound ==> (r <==> needs_to_increase || above_high),
{
    match nb_bound_type {
        VariableState::AtLowerBound => {
            if needs_to_increase {
                true
            } else {
                above_high
            }
        },
        VariableState::AtUpperBound => {
            if needs_to_increase {
                below_low
            } else {
                true
            }
        },
        VariableState::EqualBound => false,
        VariableState::Free => true,
    }
}

/// The mathematical value of a `TableauIndex`.
#[verifier::ext_equal]
pub struct TableauModel {
    pub basics: nat,
    pub non_basics: nat,
    /// the label of the variable at each position
    pub variables: Seq<usize>,
    /// for each column: the label of a problem variable and the position
    /// reported for it
    pub memory: Seq<(usize, usize)>,
    /// for each label: its column while it is non-basic
    pub vars: Seq<Option<usize>>,
    /// for each label: its row while it is basic
    pub basic: Seq<Option<usize>>,
}

/// Which variable stands where in the tableau. Variables are labelled by
/// their first position: the slack variable of row `i` by `i`, the problem
/// variable `k` by `basics + k`. The first `basics` positions hold the basic
/// variables, the others the non-basic ones, by column.
pub struct TableauIndex {
    basics: usize,
    non_basics: usize,
    variables: Vec<usize>,
    memory: Vec<(usize, usize)>,
    vars: Vec<Option<usize>>,
    basic: Vec<Option<usize>>,
}

impl View for TableauIndex {
    type V = TableauModel;

    closed spec fn view(&self) -> TableauModel {
        TableauModel {
            basics: self.basics as nat,
            non_basics: self.non_basics as nat,
            variables: self.variables@,
            memory: self.memory@,
            vars: self.vars@,
            basic: self.basic@,
        }
    }
}

impl TableauModel {
    pub open spec fn total(&self) -> nat {
        self.basics + self.non_basics
    }

    /// The layout is consistent: positions hold distinct labels, a basic
    /// variable is found in its row, a non-basic one in its column, and the
    /// memory names each problem variable by its label.
    pub open spec fn wf(&self) -> bool {
        &&& self.variables.len() == self.total()
        &&& self.vars.len() == self.total()
        &&& self.basic.len() == self.total()
        &&& self.memory.len() == self.non_basics
        &&& forall|p: int| 0 <= p < self.total() ==> #[trigger] self.variables[p] < self.total()
        &&& forall|p: int, q: int|
            0 <= p < q < self.total() ==> self.variables[p] != self.variables[q]
        &&& forall|p: int|
            0 <= p < self.basics ==> self.basic[#[trigger] self.variables[p] as int] == Some(
                p as usize,
            ) && self.vars[self.variables[p] as int] is None
        &&& forall|p: int|
            self.basics <= p < self.total() ==> self.vars[#[trigger] self.variables[p] as int]
                == Some((p - self.basics) as usize) && self.basic[self.variables[p] as int] is None
        &&& forall|k: int|
            0 <= k < self.non_basics ==> (#[trigger] self.memory[k]).0 == self.basics + k
                && self.memory[k].1 < self.total()
        &&& forall|l: int|
            0 <= l < self.total() ==> match #[trigger] self.vars[l] {
                Some(j) => j < self.non_basics && self.variables[self.basics + j] == l,
                None => true,
            }
        &&& forall|l: int|
            0 <= l < self.total() ==> match #[trigger] self.basic[l] {
                Some(j) => j < self.basics && self.variables[j as int] == l,
                None => true,
            }
    }
}

impl TableauModel {
    /// The layout after the basic variable of row `pos` and the non-basic
    /// variable of column `idx` exchange places: the entering variable
    /// becomes basic in row `pos`, the leaving one non-basic in column `idx`,
    /// and the memory entry of column `idx` reports position `pos`.
    pub open spec fn pivoted(self, pos: int, idx: int) -> TableauModel {
        let entering = self.variables[self.basics + idx];
        let leaving = self.variables[pos];
        TableauModel {
            basics: self.basics,
            non_basics: self.non_basics,
            variables: self.variables.update(pos, entering).update(self.basics + idx, leaving),
            memory: self.memory.update(idx, (self.memory[idx].0, pos as usize)),
            vars: self.vars.update(leaving as int, Some(idx as usize)).update(entering as int, None),
            basic: self.basic.update(entering as int, Some(pos as usize)).update(leaving as int, None),
        }
    }
}

/// The bound that the basic variable of row `j` violates, if any.
pub open spec fn row_violation(kinds: Seq<VariableState>, checks: Seq<Comparison>, j: int) -> Option<
    VariableState,
> {
    violation_of(kinds[j], checks[j].at_or_below_low, checks[j].at_or_above_high)
}

/// The non-basic variable of column `j` has a coefficient that is not
/// negligible in the violated row and may move in the direction that
/// repairs it.
pub open spec fn column_movable(
    m: TableauModel,
    violation: VariableState,
    signs: Seq<CoefficientSign>,
    kinds: Seq<VariableState>,
    checks: Seq<Comparison>,
    j: int,
) -> bool {
    let sign = signs[j];
    let p = m.basics + j;
    sign != CoefficientSign::Negligible && can_move(
        kinds[p],
        needs_increase(violation, sign),
        checks[p].above_high,
        checks[p].below_low,
    )
}

/// `order` names every label below `total`.
pub open spec fn covers_all(order: Seq<usize>, total: nat) -> bool {
    forall|l: int| 0 <= l < total ==> #[trigger] order.contains(l as usize)
}

/// The first label in `order`, from index `i` on, that is basic and
/// violates its bound: its row and the kind of bound it violates.
pub open spec fn first_violation(
    m: TableauModel,
    order: Seq<usize>,
    kinds: Seq<VariableState>,
    checks: Seq<Comparison>,
    i: int,
) -> Option<(usize, VariableState)>
    decreases order.len() - i,
{
    if i < 0 || i >= order.len() {
        None
    } else if order[i] >= m.total() {
        first_violation(m, order, kinds, checks, i + 1)
    } else {
        match m.basic[order[i] as int] {
            Some(j) => match row_violation(kinds, checks, j as int) {
                Some(k) => Some((j, k)),
                None => first_violation(m, order, kinds, checks, i + 1),
            },
            None => first_violation(m, order, kinds, checks, i + 1),
        }
    }
}

/// The first variable in `order`, from index `i` on, that is non-basic, has
/// a coefficient that is not negligible in the violated row, and may move in
/// the direction that repairs it: its column.
pub open spec fn first_movable(
    m: TableauModel,
    order: Seq<usize>,
    violation: VariableState,
    signs: Seq<CoefficientSign>,
    kinds: Seq<VariableState>,
    checks: Seq<Comparison>,
    i: int,
) -> Option<usize>
    decreases order.len() - i,
{
    if i < 0 || i >= order.len() {
        None
    } else if order[i] >= m.total() {
        first_movable(m, order, violation, signs, kinds, checks, i + 1)
    } else {
        match m.vars[order[i] as int] {
            Some(j) => {
                if column_movable(m, violation, signs, kinds, checks, j as int) {
                    Some(j)
                } else {
                    first_movable(m, order, violation, signs, kinds, checks, i + 1)
                }
            },
            None => first_movable(m, order, violation, signs, kinds, checks, i + 1),
        }
    }
}

impl TableauIndex {
    #[verifier::type_invariant]
    spec fn consistent(self) -> bool {
        self@.wf()
    }

    /// The initial layout: the slack variable of row `i` is basic in row
    /// `i`, problem variable `k` is non-basic in column `k`.
    pub fn new(basics: usize, non_basics: usize) -> (t: TableauIndex)
        requires
            basics + non_basics <= usize::MAX,
        ensures
            t@.wf(),
            t@.basics == basics,
            t@.non_basics == non_basics,
            forall|p: int| 0 <= p < basics + non_basics ==> #[trigger] t@.variables[p] == p,
            forall|k: int|
                0 <= k < non_basics ==> #[trigger] t@.memory[k] == (
                    (basics + k) as usize,
                    (basics + k) as usize,
                ),
    {
        let total = basics + non_basics;
        let mut variables: Vec<usize> = Vec::new();
        let mut vars: Vec<Option<usize>> = Vec::new();
        let mut basic: Vec<Option<usize>> = Vec::new();
        let mut i: usize = 0;
        while i < total
            invariant
                total == basics + non_basics,
                i <= total,
                variables@.len() == i,
                vars@.len() == i,
                basic@.len() == i,
                forall|p: int| 0 <= p < i ==> #[trigger] variables@[p] == p,
                forall|p: int|
                    0 <= p < i ==> #[trigger] vars@[p] == if p < basics {
                        None
                    } else {
                        Some((p - basics) as usize)
                    },
                forall|p: int|
                    0 <= p < i ==> #[trigger] basic@[p] == if p < basics {
                        Some(p as usize)
                    } else {
                        None
                    },
            decreases total - i,
        {
            variables.push(i);
            if i < basics {
                vars.push(None);
                basic.push(Some(i));
            } else {
                vars.push(Some(i - basics));
                basic.push(None);
            }
            i = i + 1;
        }
        let mut memory: Vec<(usize, usize)> = Vec::new();
        let mut k: usize = 0;
        while k < non_basics
            invariant
                total == basics + non_basics,
                k <= non_basics,
                memory@.len() == k,
                forall|q: int|
                    0 <= q < k ==> #[trigger] memory@[q] == ((basics + q) as usize, (basics
                        + q) as usize),
            decreases non_basics - k,
        {
            memory.push((basics + k, basics + k));
            k = k + 1;
        }
        TableauIndex { basics, non_basics, variables, memory, vars, basic }
    }

    pub fn basics(&self) -> (n: usize)
        ensures
            n == self@.basics,
    {
        self.basics
    }

    pub fn non_basics(&self) -> (n: usize)
        ensures
            n == self@.non_basics,
    {
        self.non_basics
    }

    /// The label of the variable at position `p`.
    pub fn variable_at(&self, p: usize) -> (l: usize)
        requires
            p < self@.total(),
        ensures
            l == self@.variables[p as int],
    {
        proof {
            use_type_invariant(self);
        }
        self.variables[p]
    }

    /// The memory entry of column `k`: a problem variable's label and the
    /// position reported for it.
    pub fn memory_at(&self, k: usize) -> (e: (usize, usize))
        requires
            k < self@.non_basics,
        ensures
            e == self@.memory[k as int],
    {
        proof {
            use_type_invariant(self);
        }
        self.memory[k]
    }

    /// The column of a non-basic label.
    pub fn column_of(&self, label: usize) -> (c: Option<usize>)
        requires
            label < self@.total(),
        ensures
            c == self@.vars[label as int],
    {
        proof {
            use_type_invariant(self);
        }
        self.vars[label]
    }

    /// The row of a basic label.
    pub fn row_of(&self, label: usize) -> (r: Option<usize>)
        requires
            label < self@.total(),
        ensures
            r == self@.basic[label as int],
    {
        proof {
            use_type_invariant(self);
        }
        self.basic[label]
    }
    /// Exchanges the basic variable of row `pos` with the non-basic variable
    /// of column `idx` (see `TableauModel::pivoted`).
    pub fn pivot(&mut self, pos: usize, idx: usize)
        requires
            pos < old(self)@.basics,
            idx < old(self)@.non_basics,
        ensures
            final(self)@.wf(),
            final(self)@ == old(self)@.pivoted(pos as int, idx as int),
    {
        let mut taken = TableauIndex {
            basics: 0,
            non_basics: 0,
            variables: Vec::new(),
            memory: Vec::new(),
            vars: Vec::new(),
            basic: Vec::new(),
        };
        core::mem::swap(self, &mut taken);
        proof {
            use_type_invariant(&taken);
        }
        let ghost m = taken@;
        proof {
            lemma_pivoted_wf(m, pos as int, idx as int);
        }
        let TableauIndex { basics, non_basics, mut variables, mut memory, mut vars, mut basic } =
            taken;
        let index_var = basics + idx;
        let var_at_pos = variables[pos];
        let var_at_index = variables[index_var];
        variables.set(pos, var_at_index);
        variables.set(index_var, var_at_pos);
        if let Some(index) = vars[var_at_index] {
            if index < memory.len() {
                let label = memory[index].0;
                memory.set(index, (label, pos));
            }
        }
        if let Some(index) = vars[var_at_pos] {
            if index < memory.len() {
                let label = memory[index].0;
                memory.set(index, (label, index_var));
            }
        }
        vars.set(var_at_pos, Some(index_var - basics));
        vars.set(var_at_index, None);
        basic.set(var_at_index, Some(pos));
        basic.set(var_at_pos, None);
        let result = TableauIndex { basics, non_basics, variables, memory, vars, basic };
        assert(result@ =~= m.pivoted(pos as int, idx as int));
        *self = result;
    }

    /// The row of the first basic variable among the first `total` labels of
    /// `order` that violates its bound, and the kind of bound it violates;
    /// `None` when there is none. Entries that are not labels are passed
    /// over. `kinds` and `checks` describe each position.
    pub fn check_range(
        &self,
        order: &Vec<usize>,
        kinds: &Vec<VariableState>,
        checks: &Vec<Comparison>,
    ) -> (r: Option<(usize, VariableState)>)
        requires
            order@.len() >= self@.total(),
            kinds@.len() >= self@.total(),
            checks@.len() >= self@.total(),
        ensures
            self@.wf(),
            r == first_violation(self@, order@.take(self@.total() as int), kinds@, checks@, 0),
            r matches Some((j, k)) ==> j < self@.basics && row_violation(kinds@, checks@, j as int)
                == Some(k),
            r matches Some((j, k)) ==> (k == VariableState::AtUpperBound ==> checks@[j as int].at_or_above_high)
                && (k == VariableState::AtLowerBound ==> checks@[j as int].at_or_below_low),
            covers_all(order@.take(self@.total() as int), self@.total()) ==> (r is None <==> forall|
                j: int,
            | 0 <= j < self@.basics ==> #[trigger] row_violation(kinds@, checks@, j) is None),
    {
        proof {
            use_type_invariant(self);
        }
        let total = self.variables.len();
        let ghost ord = order@.take(total as int);
        proof {
            lemma_first_violation_from(self@, ord, kinds@, checks@, 0);
            lemma_reported_violation_meaning(self@, ord, kinds@, checks@);
            if covers_all(ord, self@.total()) {
                lemma_first_violation_complete(self@, ord, kinds@, checks@);
            }
        }
        let mut i: usize = 0;
        while i < total
            invariant
                self@.wf(),
                total == self@.total(),
                ord == order@.take(total as int),
                order@.len() >= total,
                kinds@.len() >= total,
                checks@.len() >= total,
                i <= total,
                first_violation(self@, ord, kinds@, checks@, 0) == first_violation(
                    self@,
                    ord,
                    kinds@,
                    checks@,
                    i as int,
                ),
            decreases total - i,
        {
            let var = order[i];
            assert(ord[i as int] == var);
            if var < total {
                if let Some(j) = self.basic[var] {
                    let c = checks[j];
                    let v = classify_violation(kinds[j], c.at_or_below_low, c.at_or_above_high);
                    if let Some(kind) = v {
                        return Some((j, kind));
                    }
                }
            }
            i = i + 1;
        }
        None
    }

    /// The column of the first non-basic variable among the first `total`
    /// labels of `order` that can enter the basis to repair a row violating
    /// a bound of kind `violation`; `None` when there is none. Entries that
    /// are not labels are passed over. `signs` gives, by column, how the
    /// row's coefficients compare with zero; `kinds` and `checks` describe
    /// each position.
    pub fn suitable_var(
        &self,
        order: &Vec<usize>,
        violation: VariableState,
        signs: &Vec<CoefficientSign>,
        kinds: &Vec<VariableState>,
        checks: &Vec<Comparison>,
    ) -> (r: Option<usize>)
        requires
            order@.len() >= self@.total(),
            signs@.len() >= self@.non_basics,
            kinds@.len() >= self@.total(),
            checks@.len() >= self@.total(),
        ensures
            self@.wf(),
            r == first_movable(
                self@,
                order@.take(self@.total() as int),
                violation,
                signs@,
                kinds@,
                checks@,
                0,
            ),
            r matches Some(j) ==> j < self@.non_basics && column_movable(
                self@,
                violation,
                signs@,
                kinds@,
                checks@,
                j as int,
            ),
            r matches Some(j) ==> self@.vars[self@.variables[self@.basics + j] as int] == Some(j),
            r matches Some(j) ==> {
                let p = self@.basics + j;
                let rise = (violation == VariableState::AtLowerBound && signs@[j as int]
                    == CoefficientSign::Positive) || (violation == VariableState::AtUpperBound
                    && signs@[j as int] == CoefficientSign::Negative);
                &&& kinds@[p] != VariableState::EqualBound
                &&& rise && kinds@[p] == VariableState::AtUpperBound ==> checks@[p].below_low
                &&& !rise && kinds@[p] == VariableState::AtLowerBound ==> checks@[p].above_high
            },
            covers_all(order@.take(self@.total() as int), self@.total()) ==> (r is None <==> forall|
                j: int,
            | 0 <= j < self@.non_basics ==> !#[trigger] column_movable(
                self@,
                violation,
                signs@,
                kinds@,
                checks@,
                j,
            )),
    {
        proof {
            use_type_invariant(self);
        }
        let total = self.variables.len();
        let ghost ord = order@.take(total as int);
        proof {
            lemma_first_movable_from(self@, ord, violation, signs@, kinds@, checks@, 0);
            lemma_entering_column_meaning(self@, ord, violation, signs@, kinds@, checks@);
            if covers_all(ord, self@.total()) {
                lemma_first_movable_complete(self@, ord, violation, signs@, kinds@, checks@);
            }
        }
        let mut i: usize = 0;
        while i < total
            invariant
                self@.wf(),
                total == self@.total(),
                ord == order@.take(total as int),
                order@.len() >= total,
                signs@.len() >= self@.non_basics,
                kinds@.len() >= total,
                checks@.len() >= total,
                i <= total,
                first_movable(self@, ord, violation, signs@, kinds@, checks@, 0) == first_movable(
                    self@,
                    ord,
                    violation,
                    signs@,
                    kinds@,
                    checks@,
                    i as int,
                ),
            decreases total - i,
        {
            let var = order[i];
            assert(ord[i as int] == var);
            if var < total {
                if let Some(j) = self.vars[var] {
                    let sign = signs[j];
                    if sign != CoefficientSign::Negligible {
                        let p = self.basics + j;
                        let needs_to_increase = match violation {
                            VariableState::AtLowerBound => sign == CoefficientSign::Positive,
                            VariableState::AtUpperBound => sign == CoefficientSign::Negative,
                            _ => false,
                        };
                        let c = checks[p];
                        if check_bounds(kinds[p], needs_to_increase, c.above_high, c.below_low) {
                            return Some(j);
                        }
                    }
                }
            }
            i = i + 1;
        }
        None
    }
}

/// Pivoting keeps the layout consistent.
pub proof fn lemma_pivoted_wf(m: TableauModel, pos: int, idx: int)
    requires
        m.wf(),
        0 <= pos < m.basics,
        0 <= idx < m.non_basics,
    ensures
        m.pivoted(pos, idx).wf(),
{
    let n = m.pivoted(pos, idx);
    let b = m.basics as int;
    let x = m.variables[b + idx] as int;
    let y = m.variables[pos] as int;
    assert(m.vars[x] == Some(idx as usize));
    assert(m.basic[y] == Some(pos as usize));
    assert(x != y);
    assert forall|p: int| 0 <= p < n.total() implies #[trigger] n.variables[p] < n.total() by {
        if p != pos && p != b + idx {
            assert(n.variables[p] == m.variables[p]);
        }
    }
    assert forall|p: int, q: int| 0 <= p < q < n.total() implies n.variables[p] != n.variables[q] by {
        if p != pos && p != b + idx && q != pos && q != b + idx {
        } else if p == pos {
            if q != b + idx {
                assert(m.variables[b + idx] != m.variables[q]);
            }
        } else if p == b + idx {
            assert(m.variables[pos] != m.variables[q]);
        } else if q == pos {
            assert(m.variables[b + idx] != m.variables[p]);
        } else {
            assert(m.variables[pos] != m.variables[p]);
        }
    }
    assert forall|p: int| 0 <= p < n.basics implies n.basic[#[trigger] n.variables[p] as int] == Some(
        p as usize,
    ) && n.vars[n.variables[p] as int] is None by {
        if p != pos {
            let l = m.variables[p];
            assert(m.basic[l as int] == Some(p as usize));
            assert(l != x && l != y);
        }
    }
    assert forall|p: int| n.basics <= p < n.total() implies n.vars[#[trigger] n.variables[p] as int]
        == Some((p - n.basics) as usize) && n.basic[n.variables[p] as int] is None by {
        if p != b + idx {
            let l = m.variables[p];
            assert(m.vars[l as int] == Some((p - b) as usize));
            assert(l != x && l != y);
        }
    }
    assert forall|l: int| 0 <= l < n.total() implies match #[trigger] n.vars[l] {
        Some(j) => j < n.non_basics && n.variables[n.basics + j] == l,
        None => true,
    } by {
        if l != x && l != y {
            match m.vars[l] {
                Some(j) => {
                    assert(m.variables[b + j] == l);
                    assert(j != idx);
                },
                None => {},
            }
        }
    }
    assert forall|l: int| 0 <= l < n.total() implies match #[trigger] n.basic[l] {
        Some(j) => j < n.basics && n.variables[j as int] == l,
        None => true,
    } by {
        if l != x && l != y {
            match m.basic[l] {
                Some(j) => {
                    assert(m.variables[j as int] == l);
                    assert(j != pos);
                },
                None => {},
            }
        }
    }
    assert forall|k: int| 0 <= k < n.non_basics implies (#[trigger] n.memory[k]).0 == n.basics + k
        && n.memory[k].1 < n.total() by {
        if k != idx {
            assert(n.memory[k] == m.memory[k]);
        }
    }
}

/// Pivoting the same row and column again undoes the exchange: every
/// variable is back in its place, and only the memory entry of the column
/// keeps the position that the first pivot reported.
pub proof fn lemma_pivot_twice(m: TableauModel, pos: int, idx: int)
    requires
        m.wf(),
        0 <= pos < m.basics,
        0 <= idx < m.non_basics,
    ensures
        m.pivoted(pos, idx).pivoted(pos, idx).variables == m.variables,
        m.pivoted(pos, idx).pivoted(pos, idx).vars == m.vars,
        m.pivoted(pos, idx).pivoted(pos, idx).basic == m.basic,
        m.pivoted(pos, idx).pivoted(pos, idx).memory == m.pivoted(pos, idx).memory,
{
    let n = m.pivoted(pos, idx);
    let n2 = n.pivoted(pos, idx);
    let b = m.basics as int;
    let x = m.variables[b + idx] as int;
    let y = m.variables[pos] as int;
    assert(m.vars[x] == Some(idx as usize));
    assert(m.basic[y] == Some(pos as usize));
    assert(m.vars[y] is None);
    assert(m.basic[x] is None);
    assert(x != y);
    assert(n2.variables =~= m.variables);
    assert(n2.vars =~= m.vars);
    assert(n2.basic =~= m.basic);
    assert(n2.memory =~= n.memory);
}

proof fn lemma_first_violation_from(
    m: TableauModel,
    order: Seq<usize>,
    kinds: Seq<VariableState>,
    checks: Seq<Comparison>,
    i: int,
)
    requires
        m.wf(),
        0 <= i <= order.len(),
    ensures
        first_violation(m, order, kinds, checks, i) is None <==> forall|q: int|
            i <= q < order.len() && #[trigger] order[q] < m.total() ==> (m.basic[order[q] as int] matches Some(
                j,
            ) ==> row_violation(kinds, checks, j as int) is None),
        first_violation(m, order, kinds, checks, i) matches Some((j, k)) ==> j < m.basics
            && row_violation(kinds, checks, j as int) == Some(k),
    decreases order.len() - i,
{
    if i < order.len() {
        lemma_first_violation_from(m, order, kinds, checks, i + 1);
        if order[i] < m.total() {
            if let Some(j) = m.basic[order[i] as int] {
                assert(j < m.basics);
            }
        }
        if first_violation(m, order, kinds, checks, i) is None {
            assert forall|q: int| i <= q < order.len() && #[trigger] order[q] < m.total() implies (
            m.basic[order[q] as int] matches Some(j) ==> row_violation(kinds, checks, j as int)
                is None) by {
                if q > i {
                }
            }
        }
    }
}

/// The bound check is complete: when every label appears in `order`, it
/// reports no row exactly when every basic variable satisfies its bound, and
/// a row that it reports holds a basic variable that violates the reported
/// bound.
pub proof fn lemma_first_violation_complete(
    m: TableauModel,
    order: Seq<usize>,
    kinds: Seq<VariableState>,
    checks: Seq<Comparison>,
)
    requires
        m.wf(),
        covers_all(order, m.total()),
    ensures
        first_violation(m, order, kinds, checks, 0) is None <==> forall|j: int|
            0 <= j < m.basics ==> #[trigger] row_violation(kinds, checks, j) is None,
        first_violation(m, order, kinds, checks, 0) matches Some((j, k)) ==> j < m.basics
            && row_violation(kinds, checks, j as int) == Some(k),
{
    lemma_first_violation_from(m, order, kinds, checks, 0);
    if first_violation(m, order, kinds, checks, 0) is None {
        assert forall|j: int| 0 <= j < m.basics implies #[trigger] row_violation(kinds, checks, j)
            is None by {
            let l = m.variables[j];
            assert(m.basic[l as int] == Some(j as usize));
            assert(l < m.total());
            assert(order.contains((l as int) as usize));
            let q = choose|q: int| 0 <= q < order.len() && order[q] == l;
            assert(m.basic[order[q] as int] == Some(j as usize));
        }
    } else {
        let (j, k) = first_violation(m, order, kinds, checks, 0).unwrap();
        assert(row_violation(kinds, checks, j as int) is Some);
    }
}

proof fn lemma_first_movable_from(
    m: TableauModel,
    order: Seq<usize>,
    violation: VariableState,
    signs: Seq<CoefficientSign>,
    kinds: Seq<VariableState>,
    checks: Seq<Comparison>,
    i: int,
)
    requires
        m.wf(),
        0 <= i <= order.len(),
    ensures
        first_movable(m, order, violation, signs, kinds, checks, i) is None <==> forall|q: int|
            i <= q < order.len() && #[trigger] order[q] < m.total() ==> (m.vars[order[q] as int] matches Some(
                j,
            ) ==> !column_movable(m, violation, signs, kinds, checks, j as int)),
        first_movable(m, order, violation, signs, kinds, checks, i) matches Some(j) ==> j
            < m.non_basics && column_movable(m, violation, signs, kinds, checks, j as int),
    decreases order.len() - i,
{
    if i < order.len() {
        lemma_first_movable_from(m, order, violation, signs, kinds, checks, i + 1);
        if order[i] < m.total() {
            if let Some(j) = m.vars[order[i] as int] {
                assert(j < m.non_basics);
            }
        }
        if first_movable(m, order, violation, signs, kinds, checks, i) is None {
            assert forall|q: int| i <= q < order.len() && #[trigger] order[q] < m.total() implies (
            m.vars[order[q] as int] matches Some(j) ==> !column_movable(
                m,
                violation,
                signs,
                kinds,
                checks,
                j as int,
            )) by {
                if q > i {
                }
            }
        }
    }
}

/// The entering-variable search is complete: when every label appears in
/// `order`, it finds no column exactly when no non-basic variable can move
/// to repair the violated row, and a column that it finds can.
pub proof fn lemma_first_movable_complete(
    m: TableauModel,
    order: Seq<usize>,
    violation: VariableState,
    signs: Seq<CoefficientSign>,
    kinds: Seq<VariableState>,
    checks: Seq<Comparison>,
)
    requires
        m.wf(),
        covers_all(order, m.total()),
    ensures
        first_movable(m, order, violation, signs, kinds, checks, 0) is None <==> forall|j: int|
            0 <= j < m.non_basics ==> !#[trigger] column_movable(
                m,
                violation,
                signs,
                kinds,
                checks,
                j,
            ),
        first_movable(m, order, violation, signs, kinds, checks, 0) matches Some(j) ==> j
            < m.non_basics && column_movable(m, violation, signs, kinds, checks, j as int),
{
    lemma_first_movable_from(m, order, violation, signs, kinds, checks, 0);
    if first_movable(m, order, violation, signs, kinds, checks, 0) is None {
        assert forall|j: int| 0 <= j < m.non_basics implies !#[trigger] column_movable(
            m,
            violation,
            signs,
            kinds,
            checks,
            j,
        ) by {
            let l = m.variables[m.basics + j];
            assert(m.vars[l as int] == Some(j as usize));
            assert(l < m.total());
            assert(order.contains((l as int) as usize));
            let q = choose|q: int| 0 <= q < order.len() && order[q] == l;
            assert(m.vars[order[q] as int] == Some(j as usize));
        }
    } else {
        let j = first_movable(m, order, violation, signs, kinds, checks, 0).unwrap();
        assert(column_movable(m, violation, signs, kinds, checks, j as int));
    }
}

/// What a reported violation means: the bound check reports a row only
/// when its basic variable is beyond its bound, an upper bound (of an upper
/// or an equality row) only when the value is at or above the bound plus the
/// tolerance, a lower bound (of a lower or an equality row) only when it is
/// at or below the bound minus the tolerance; free rows are never reported.
/// And when every label appears in `order` and nothing is reported, every
/// row satisfies its bound in that sense.
pub proof fn lemma_reported_violation_meaning(
    m: TableauModel,
    order: Seq<usize>,
    kinds: Seq<VariableState>,
    checks: Seq<Comparison>,
)
    requires
        m.wf(),
    ensures
        first_violation(m, order, kinds, checks, 0) matches Some((j, k)) ==> {
            &&& j < m.basics
            &&& (k == VariableState::AtUpperBound || k == VariableState::AtLowerBound)
            &&& k == VariableState::AtUpperBound ==> checks[j as int].at_or_above_high && (
            kinds[j as int] == VariableState::AtUpperBound || kinds[j as int]
                == VariableState::EqualBound)
            &&& k == VariableState::AtLowerBound ==> checks[j as int].at_or_below_low && (
            kinds[j as int] == VariableState::AtLowerBound || kinds[j as int]
                == VariableState::EqualBound)
        },
        covers_all(order, m.total()) && first_violation(m, order, kinds, checks, 0) is None
            ==> forall|j: int|
            0 <= j < m.basics ==> {
                &&& #[trigger] kinds[j] == VariableState::AtUpperBound ==> !checks[j].at_or_above_high
                &&& kinds[j] == VariableState::AtLowerBound ==> !checks[j].at_or_below_low
                &&& kinds[j] == VariableState::EqualBound ==> !checks[j].at_or_above_high
                    && !checks[j].at_or_below_low
            },
{
    lemma_first_violation_from(m, order, kinds, checks, 0);
    if covers_all(order, m.total()) {
        lemma_first_violation_complete(m, order, kinds, checks);
        if first_violation(m, order, kinds, checks, 0) is None {
            assert forall|j: int| 0 <= j < m.basics implies {
                &&& #[trigger] kinds[j] == VariableState::AtUpperBound ==> !checks[j].at_or_above_high
                &&& kinds[j] == VariableState::AtLowerBound ==> !checks[j].at_or_below_low
                &&& kinds[j] == VariableState::EqualBound ==> !checks[j].at_or_above_high
                    && !checks[j].at_or_below_low
            } by {
                assert(row_violation(kinds, checks, j) is None);
            }
        }
    }
}

/// What a chosen entering column means: its coefficient in the violated row
/// is not negligible, and its variable can move the way that repairs the
/// row. The basic variable must rise for a lower-bound violation and fall
/// for an upper-bound one; it moves with the non-basic variable when the
/// coefficient is positive and against it when negative. So the non-basic
/// variable must rise exactly when (lower bound and positive) or (upper
/// bound and negative): it then may not sit at an upper bound it is not
/// below; else it must fall, and may not sit at a lower bound it is not
/// above. An equality-bounded variable never moves. When every label
/// appears in `order` and no column is chosen, no column qualifies.
pub proof fn lemma_entering_column_meaning(
    m: TableauModel,
    order: Seq<usize>,
    violation: VariableState,
    signs: Seq<CoefficientSign>,
    kinds: Seq<VariableState>,
    checks: Seq<Comparison>,
)
    requires
        m.wf(),
    ensures
        first_movable(m, order, violation, signs, kinds, checks, 0) matches Some(j) ==> {
            let p = m.basics + j;
            let rise = (violation == VariableState::AtLowerBound && signs[j as int]
                == CoefficientSign::Positive) || (violation == VariableState::AtUpperBound
                && signs[j as int] == CoefficientSign::Negative);
            &&& j < m.non_basics
            &&& signs[j as int] != CoefficientSign::Negligible
            &&& kinds[p] != VariableState::EqualBound
            &&& rise && kinds[p] == VariableState::AtUpperBound ==> checks[p].below_low
            &&& !rise && kinds[p] == VariableState::AtLowerBound ==> checks[p].above_high
        },
        covers_all(order, m.total()) && first_movable(m, order, violation, signs, kinds, checks, 0)
            is None ==> forall|j: int|
            0 <= j < m.non_basics && #[trigger] signs[j] != CoefficientSign::Negligible ==> {
                let p = m.basics + j;
                let rise = (violation == VariableState::AtLowerBound && signs[j]
                    == CoefficientSign::Positive) || (violation == VariableState::AtUpperBound
                    && signs[j] == CoefficientSign::Negative);
                ||| kinds[p] == VariableState::EqualBound
                ||| rise && kinds[p] == VariableState::AtUpperBound && !checks[p].below_low
                ||| !rise && kinds[p] == VariableState::AtLowerBound && !checks[p].above_high
            },
{
    lemma_first_movable_from(m, order, violation, signs, kinds, checks, 0);
    if covers_all(order, m.total()) {
        lemma_first_movable_complete(m, order, violation, signs, kinds, checks);
        if first_movable(m, order, violation, signs, kinds, checks, 0) is None {
            assert forall|j: int|
                0 <= j < m.non_basics && #[trigger] signs[j] != CoefficientSign::Negligible implies {
                let p = m.basics + j;
                let rise = (violation == VariableState::AtLowerBound && signs[j]
                    == CoefficientSign::Positive) || (violation == VariableState::AtUpperBound
                    && signs[j] == CoefficientSign::Negative);
                ||| kinds[p] == VariableState::EqualBound
                ||| rise && kinds[p] == VariableState::AtUpperBound && !checks[p].below_low
                ||| !rise && kinds[p] == VariableState::AtLowerBound && !checks[p].above_high
            } by {
                assert(!column_movable(m, violation, signs, kinds, checks, j));
            }
        }
    }
}

/// Shuffles `v` in place with `rand::seq::SliceRandom::shuffle` driven by
/// `rand::thread_rng()`. Trusted: the shuffle only swaps elements, so the
/// result is a permutation of the input; which permutation comes out is left
/// unsaid (it is random), and so is a failure of the operating system's
/// random source when the generator is first seeded.
#[verifier::external_body]
fn shuffle_in_place(v: &mut Vec<usize>)
    ensures
        final(v)@.to_multiset() == old(v)@.to_multiset(),
{
    let mut rng = rand::thread_rng();
    v.shuffle(&mut rng);
}

/// The positions `0..total` in increasing order.
pub open spec fn layout_order(total: nat) -> Seq<usize> {
    Seq::new(total, |i: int| i as usize)
}

/// The order in which variables are tried, by label: the layout order,
/// that order reversed, or a random permutation of it.
pub fn initial_order(total: usize, sorting: Sorting) -> (order: Vec<usize>)
    ensures
        order@.len() == total,
        forall|i: int| 0 <= i < total ==> #[trigger] order@[i] < total,
        sorting == Sorting::Normal ==> order@ == layout_order(total as nat),
        sorting == Sorting::Reversed ==> order@ == layout_order(total as nat).reverse(),
        sorting == Sorting::Random ==> order@.to_multiset() == layout_order(
            total as nat,
        ).to_multiset(),
        covers_all(order@, total as nat),
{
    let mut order: Vec<usize> = Vec::new();
    let mut i: usize = 0;
    while i < total
        invariant
            i <= total,
            order@ == layout_order(i as nat),
        decreases total - i,
    {
        order.push(i);
        i = i + 1;
        assert(order@ =~= layout_order(i as nat));
    }
    match sorting {
        Sorting::Normal => {
            assert forall|l: int| 0 <= l < total implies #[trigger] order@.contains(l as usize) by {
                assert(order@[l] == l as usize);
            }
        },
        Sorting::Reversed => {
            let ghost before = order@;
            let mut reversed: Vec<usize> = Vec::new();
            let mut k: usize = total;
            while k > 0
                invariant
                    k <= total,
                    before == layout_order(total as nat),
                    reversed@ == before.reverse().subrange(0, (total - k) as int),
                decreases k,
            {
                k = k - 1;
                reversed.push(k);
                assert(reversed@ =~= before.reverse().subrange(0, (total - k) as int));
            }
            assert(reversed@ =~= before.reverse());
            order = reversed;
            assert forall|l: int| 0 <= l < total implies #[trigger] order@.contains(l as usize) by {
                assert(order@[total - 1 - l] == l as usize);
            }
        },
        Sorting::Random => {
            let ghost before = order@;
            shuffle_in_place(&mut order);
            proof {
                before.to_multiset_ensures();
                order@.to_multiset_ensures();
                assert forall|i: int| 0 <= i < total implies #[trigger] order@[i] < total by {
                    assert(order@.contains(order@[i]));
                    assert(before.to_multiset().count(order@[i]) > 0);
                }
                assert forall|l: int| 0 <= l < total implies #[trigger] order@.contains(l as usize) by {
                    assert(before[l] == l as usize);
                    assert(before.contains(l as usize));
                    assert(order@.to_multiset().count(l as usize) > 0);
                }
            }
        },
    }
    order
}

} // verus!
