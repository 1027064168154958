use general_simplex::combinations::{combination_count, generate_combinations};
use general_simplex::numbers::parse_i32;
use general_simplex::session::{is_skipped_line, problem_rows, select_sorting};
use general_simplex::tableau::VariableState::{AtLowerBound, AtUpperBound, EqualBound, Free};
use general_simplex::tableau::{
    check_bounds, classify_violation, initial_order, CoefficientSign, Comparison, Sorting,
    TableauIndex, VariableState,
};

#[test]
fn decimal_integers() {
    assert_eq!(parse_i32(b"42"), Some(42));
    assert_eq!(parse_i32(b"-7"), Some(-7));
    assert_eq!(parse_i32(b"+3"), Some(3));
    assert_eq!(parse_i32(b"00012"), Some(12));
    assert_eq!(parse_i32(b"2147483647"), Some(i32::MAX));
    assert_eq!(parse_i32(b"-2147483648"), Some(i32::MIN));
    assert_eq!(parse_i32(b"2147483648"), None);
    assert_eq!(parse_i32(b"99999999999999999999"), None);
    assert_eq!(parse_i32(b""), None);
    assert_eq!(parse_i32(b"-"), None);
    assert_eq!(parse_i32(b"1a"), None);
    assert_eq!(parse_i32(b" 1"), None);
}

#[test]
fn integers_parse_as_std_does() {
    for text in ["0", "-0", "+0", "123", "-123", "2147483647", "-2147483649", "12x", "", "+-1"] {
        assert_eq!(parse_i32(text.as_bytes()), text.parse::<i32>().ok(), "{}", text);
    }
}

fn params(maxes: &[i32]) -> Vec<(Vec<u8>, i32)> {
    maxes.iter().enumerate().map(|(k, &m)| (vec![b'a' + k as u8], m)).collect()
}

#[test]
fn combinations_in_order() {
    let p = params(&[1, 2]);
    let mut current = vec![0; 2];
    let mut result: Vec<Vec<i32>> = Vec::new();
    generate_combinations(0, &mut current, &p, &mut result);
    assert_eq!(
        result,
        vec![vec![0, 0], vec![0, 1], vec![0, 2], vec![1, 0], vec![1, 1], vec![1, 2]]
    );
    assert_eq!(current, vec![1, 2]);
    assert_eq!(combination_count(&p), Some(6));
}

#[test]
fn combinations_count_matches_the_list() {
    for maxes in [vec![], vec![0], vec![3], vec![2, 0, 1], vec![1, 1, 1, 1]] {
        let p = params(&maxes);
        let mut current = vec![0; p.len()];
        let mut result: Vec<Vec<i32>> = Vec::new();
        generate_combinations(0, &mut current, &p, &mut result);
        assert_eq!(combination_count(&p), Some(result.len() as i32));
        for c in &result {
            assert_eq!(c.len(), maxes.len());
            for (v, m) in c.iter().zip(maxes.iter()) {
                assert!(0 <= *v && v <= m);
            }
        }
    }
}

#[test]
fn combinations_with_a_negative_largest_value() {
    let p = params(&[2, -1]);
    let mut current = vec![7, 7];
    let mut result: Vec<Vec<i32>> = Vec::new();
    generate_combinations(0, &mut current, &p, &mut result);
    assert!(result.is_empty());
    assert_eq!(current, vec![2, 7]);
    assert_eq!(combination_count(&p), Some(0));
    assert_eq!(combination_count(&params(&[-3])), Some(-2));
}

#[test]
fn combination_count_overflow() {
    assert_eq!(combination_count(&params(&[i32::MAX])), None);
    assert_eq!(combination_count(&params(&[65535, 65535])), None);
    assert_eq!(combination_count(&params(&[65535, 32767])), None);
    assert_eq!(combination_count(&params(&[65535, 32766])), Some(2147418112));
    assert_eq!(combination_count(&params(&[])), Some(1));
}

#[test]
fn menu_choices() {
    assert_eq!(select_sorting("1"), Some(Sorting::Normal));
    assert_eq!(select_sorting("2"), Some(Sorting::Reversed));
    assert_eq!(select_sorting("3"), Some(Sorting::Random));
    assert_eq!(select_sorting("4"), None);
    assert_eq!(select_sorting(""), None);
    assert_eq!(select_sorting("11"), None);
}

#[test]
fn skipped_lines() {
    assert!(is_skipped_line(b""));
    assert!(is_skipped_line(b"# comment"));
    assert!(!is_skipped_line(b"x <= 1"));
}

#[test]
fn rows_of_a_problem() {
    assert_eq!(problem_rows(1, 1), 2);
    assert_eq!(problem_rows(1, 3), 1);
    assert_eq!(problem_rows(0, 1), 1);
    assert_eq!(problem_rows(2, 0), 2);
}

#[test]
fn violated_bounds() {
    assert_eq!(classify_violation(AtLowerBound, true, false), Some(AtLowerBound));
    assert_eq!(classify_violation(AtLowerBound, false, true), None);
    assert_eq!(classify_violation(AtUpperBound, false, true), Some(AtUpperBound));
    assert_eq!(classify_violation(AtUpperBound, true, false), None);
    assert_eq!(classify_violation(EqualBound, true, false), Some(AtLowerBound));
    assert_eq!(classify_violation(EqualBound, false, true), Some(AtUpperBound));
    assert_eq!(classify_violation(EqualBound, false, false), None);
    assert_eq!(classify_violation(Free, true, true), None);
}

#[test]
fn movable_variables() {
    assert!(check_bounds(AtLowerBound, true, false, false));
    assert!(check_bounds(AtLowerBound, false, true, false));
    assert!(!check_bounds(AtLowerBound, false, false, true));
    assert!(check_bounds(AtUpperBound, false, false, false));
    assert!(check_bounds(AtUpperBound, true, false, true));
    assert!(!check_bounds(AtUpperBound, true, true, false));
    assert!(!check_bounds(EqualBound, true, true, true));
    assert!(check_bounds(Free, false, false, false));
}

#[test]
fn orders_of_variables() {
    assert_eq!(initial_order(4, Sorting::Normal), vec![0, 1, 2, 3]);
    assert_eq!(initial_order(4, Sorting::Reversed), vec![3, 2, 1, 0]);
    let mut random = initial_order(5, Sorting::Random);
    random.sort();
    assert_eq!(random, vec![0, 1, 2, 3, 4]);
    assert!(initial_order(0, Sorting::Reversed).is_empty());
}

#[test]
fn initial_layout() {
    let t = TableauIndex::new(2, 2);
    assert_eq!(t.basics(), 2);
    assert_eq!(t.non_basics(), 2);
    for p in 0..4 {
        assert_eq!(t.variable_at(p), p);
    }
    assert_eq!(t.memory_at(0), (2, 2));
    assert_eq!(t.memory_at(1), (3, 3));
    assert_eq!(t.row_of(0), Some(0));
    assert_eq!(t.row_of(1), Some(1));
    assert_eq!(t.row_of(2), None);
    assert_eq!(t.column_of(2), Some(0));
    assert_eq!(t.column_of(3), Some(1));
    assert_eq!(t.column_of(0), None);
}

#[test]
fn pivot_exchanges_a_basic_and_a_non_basic_variable() {
    let mut t = TableauIndex::new(2, 2);
    t.pivot(0, 1);
    assert_eq!(
        (0..4).map(|p| t.variable_at(p)).collect::<Vec<_>>(),
        vec![3, 1, 2, 0]
    );
    assert_eq!(t.memory_at(1), (3, 0));
    assert_eq!(t.memory_at(0), (2, 2));
    assert_eq!(t.row_of(3), Some(0));
    assert_eq!(t.row_of(0), None);
    assert_eq!(t.column_of(0), Some(1));
    assert_eq!(t.column_of(3), None);
    // the slack variable enters again: the memory of column 1 follows the
    // row it enters, whatever variable stood in that column
    t.pivot(1, 1);
    assert_eq!(t.memory_at(1), (3, 1));
    assert_eq!(t.row_of(0), Some(1));
    assert_eq!(t.column_of(1), Some(1));
}

fn ok() -> Comparison {
    Comparison { at_or_below_low: false, at_or_above_high: false, above_high: false, below_low: false }
}

fn low() -> Comparison {
    Comparison { at_or_below_low: true, at_or_above_high: false, above_high: false, below_low: true }
}

#[test]
fn first_violated_row_in_order() {
    let t = TableauIndex::new(2, 1);
    let kinds = vec![AtLowerBound, AtLowerBound, Free];
    let checks = vec![low(), low(), ok()];
    assert_eq!(t.check_range(&vec![0, 1, 2], &kinds, &checks), Some((0, AtLowerBound)));
    assert_eq!(t.check_range(&vec![2, 1, 0], &kinds, &checks), Some((1, AtLowerBound)));
    let kinds = vec![Free, AtUpperBound, Free];
    assert_eq!(t.check_range(&vec![0, 1, 2], &kinds, &checks), None);
}

#[test]
fn first_suitable_column_in_order() {
    let t = TableauIndex::new(1, 3);
    let kinds = vec![AtLowerBound, EqualBound, Free, AtUpperBound];
    let checks = vec![low(), ok(), ok(), low()];
    let signs = vec![CoefficientSign::Positive, CoefficientSign::Negligible, CoefficientSign::Positive];
    assert_eq!(t.suitable_var(&vec![0, 1, 2, 3], AtLowerBound, &signs, &kinds, &checks), Some(2));
    let signs = vec![CoefficientSign::Positive, CoefficientSign::Negligible, CoefficientSign::Negligible];
    assert_eq!(t.suitable_var(&vec![0, 1, 2, 3], AtLowerBound, &signs, &kinds, &checks), None);
    let all_positive = vec![CoefficientSign::Positive, CoefficientSign::Positive, CoefficientSign::Positive];
    assert_eq!(t.suitable_var(&vec![3, 2, 1, 0], AtLowerBound, &all_positive, &kinds, &checks), Some(2));
    assert_eq!(t.suitable_var(&vec![2, 3, 1, 0], AtLowerBound, &all_positive, &kinds, &checks), Some(1));
    assert_eq!(t.suitable_var(&vec![0, 1, 2, 3], AtUpperBound, &all_positive, &kinds, &checks), Some(1));
    let at_upper_not_below = vec![low(), ok(), ok(), ok()];
    assert_eq!(t.suitable_var(&vec![3, 2, 1, 0], AtLowerBound, &all_positive, &kinds, &at_upper_not_below), Some(1));
}

#[test]
fn pivoting_twice_puts_every_variable_back() {
    let mut t = TableauIndex::new(2, 3);
    t.pivot(1, 2);
    assert_eq!(t.variable_at(1), 4);
    assert_eq!(t.variable_at(4), 1);
    t.pivot(1, 2);
    for p in 0..5 {
        assert_eq!(t.variable_at(p), p);
    }
    for l in 0..2 {
        assert_eq!(t.row_of(l), Some(l));
        assert_eq!(t.column_of(l), None);
    }
    for l in 2..5 {
        assert_eq!(t.column_of(l), Some(l - 2));
        assert_eq!(t.row_of(l), None);
    }
    assert_eq!(t.memory_at(2), (4, 1));
}

#[test]
fn every_bound_holds_when_no_row_is_reported() {
    let t = TableauIndex::new(2, 1);
    let kinds = vec![AtLowerBound, EqualBound, AtUpperBound];
    let checks = vec![ok(), ok(), low()];
    for sorting in [Sorting::Normal, Sorting::Reversed, Sorting::Random] {
        let order = initial_order(3, sorting);
        assert_eq!(t.check_range(&order, &kinds, &checks), None);
    }
    let checks = vec![ok(), low(), ok()];
    for sorting in [Sorting::Normal, Sorting::Reversed, Sorting::Random] {
        let order = initial_order(3, sorting);
        assert_eq!(t.check_range(&order, &kinds, &checks), Some((1, AtLowerBound)));
    }
}

#[test]
fn only_the_first_labels_of_a_longer_order_are_scanned() {
    let t = TableauIndex::new(2, 1);
    let kinds = vec![AtLowerBound, AtLowerBound, Free];
    let checks = vec![low(), low(), ok()];
    // entries past the third, and entries that are no label, are passed over
    assert_eq!(t.check_range(&vec![9, 2, 1, 0], &kinds, &checks), Some((1, AtLowerBound)));
    assert_eq!(t.check_range(&vec![9, 2, 7, 0, 1], &kinds, &checks), None);
    let signs = vec![CoefficientSign::Positive];
    assert_eq!(t.suitable_var(&vec![0, 1, 5, 2], AtLowerBound, &signs, &kinds, &checks), None);
    assert_eq!(t.suitable_var(&vec![0, 2, 1, 5], AtLowerBound, &signs, &kinds, &checks), Some(0));
}
