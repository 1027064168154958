# general_simplex

A command-line solver for conjunctions of linear constraints, such as

    2 x + 3 y <= 12 and x - y >= 1 and parameters p : 2

with the general simplex method. Each line of the input file is one problem;
parameters (declared after `parameters` with their largest value) are
replaced by every combination of values from 0 up to that value, and each
resulting system is reported as satisfiable, with an assignment, or not.

## Layout

- `src/` is the verified library (Verus):
  - `syntax` — the syntax tree of a line as plain values (kinds, byte spans,
    depths in preorder) and a cursor over it;
  - `parsing` — reading a line with a tree-sitter parser into such a tree;
  - `names`, `numbers` — byte spans, name lookup, decimal `i32` parsing;
  - `discover` — the walks that collect the parameters and the variables;
  - `constraints` — the walk that reads the linear terms of each constraint;
  - `combinations` — the assignments of values to the parameters;
  - `tableau` — the bookkeeping of the simplex method: which variable is
    basic where, the pivot exchange, the order in which variables are tried,
    and the choice of the violated row and of the entering column;
  - `session` — the menu choice, skipped lines and the size of a tableau.
- `app/` is the program around it: the menu, file input and output, the
  language of the input grammar that the parser is given, and the
  floating-point arithmetic of the tableau (coefficients, bounds, the pivot's
  row operations).
- `tests/` exercise the library on concrete values.

The floating-point comparisons that the pivoting rule needs are made in
`app/` and handed to the library as booleans (`Comparison`,
`CoefficientSign`), so that every decision of the rule is verified.
