use zokrates_r1cs::expression::{Expression, R1csError};
use zokrates_r1cs::linear::count_variables_add;
use zokrates_r1cs::normalize::swap_sub;
use zokrates_r1cs::r1cs::{emit_rows, lookup, r1cs_expression, r1cs_program, Prog, Statement};

fn row_eq<T: PartialEq>(expected: Vec<T>, got: Vec<T>) {
    assert_eq!(expected.len(), got.len());
    assert!(expected.iter().fold(true, |acc, x| acc && got.contains(x)));
}

fn var(name: &str) -> Expression {
    Expression::VariableReference(String::from(name))
}

fn num(x: i32) -> Expression {
    Expression::NumberLiteral(x)
}

fn plus(l: Expression, r: Expression) -> Expression {
    Expression::Add(Box::new(l), Box::new(r))
}

fn minus(l: Expression, r: Expression) -> Expression {
    Expression::Sub(Box::new(l), Box::new(r))
}

fn times(l: Expression, r: Expression) -> Expression {
    Expression::Mult(Box::new(l), Box::new(r))
}

fn over(l: Expression, r: Expression) -> Expression {
    Expression::Div(Box::new(l), Box::new(r))
}

fn names(v: &[&str]) -> Vec<String> {
    v.iter().map(|&x| String::from(x)).collect()
}

fn sorted(mut v: Vec<(String, i32)>) -> Vec<(String, i32)> {
    v.sort();
    v
}

fn dot(row: &[(usize, i32)], w: &[i64]) -> i64 {
    row.iter().map(|&(i, c)| c as i64 * w[i]).sum()
}

#[test]
fn add() {
    // x = y + 5
    let lhs = var("x");
    let rhs = plus(var("y"), num(5));
    let mut variables: Vec<String> = vec!["~one", "x", "y"].iter().map(|&x| String::from(x)).collect();
    let mut a_row: Vec<(usize, i32)> = Vec::new();
    let mut b_row: Vec<(usize, i32)> = Vec::new();
    let mut c_row: Vec<(usize, i32)> = Vec::new();

    let r = r1cs_expression(lhs, rhs, &mut variables, &mut a_row, &mut b_row, &mut c_row);
    assert!(r.is_ok());
    row_eq(vec![(2, 1), (0, 5)], a_row);
    row_eq(vec![(0, 1)], b_row);
    row_eq(vec![(1, 1)], c_row);
}

#[test]
fn count_is_independent_of_grouping_and_order() {
    let left = plus(plus(var("a"), num(3)), plus(var("b"), var("a")));
    let right = plus(var("a"), plus(var("b"), plus(num(3), var("a"))));
    let l = sorted(count_variables_add(&left).unwrap());
    let r = sorted(count_variables_add(&right).unwrap());
    assert_eq!(l, r);
    assert_eq!(
        l,
        vec![(String::from("a"), 2), (String::from("b"), 1), (String::from("~one"), 3)]
    );
}

#[test]
fn count_of_weighted_terms() {
    let e = plus(times(num(4), var("x")), plus(times(var("x"), num(2)), num(7)));
    let got = sorted(count_variables_add(&e).unwrap());
    assert_eq!(got, vec![(String::from("x"), 6), (String::from("~one"), 7)]);
}

#[test]
fn count_of_single_literal() {
    let got = count_variables_add(&num(9)).unwrap();
    assert_eq!(got, vec![(String::from("~one"), 9)]);
}

#[test]
fn count_rejects_product_at_top() {
    let r = count_variables_add(&times(num(2), var("x")));
    assert!(matches!(r, Err(R1csError::PreconditionViolation(_))));
}

#[test]
fn count_rejects_nested_product_of_variables() {
    let r = count_variables_add(&plus(times(var("y"), var("x")), num(1)));
    assert!(matches!(r, Err(R1csError::UnsupportedShape(_))));
}

#[test]
fn count_reports_overflow() {
    let r = count_variables_add(&plus(num(i32::MAX), num(1)));
    assert!(matches!(r, Err(R1csError::Overflow)));
}

#[test]
fn normalize_moves_subtrahend() {
    // x = a - b  becomes  x + b = a
    let (l, r) = swap_sub(&var("x"), &minus(var("a"), var("b"))).unwrap();
    assert!(matches!(l, Expression::Add(..)));
    let got = sorted(count_variables_add(&l).unwrap());
    assert_eq!(got, vec![(String::from("b"), 1), (String::from("x"), 1)]);
    assert_eq!(count_variables_add(&r).unwrap(), vec![(String::from("a"), 1)]);
}

#[test]
fn normalize_is_symmetric_in_operand_order() {
    let (l1, r1) = swap_sub(&var("x"), &minus(var("a"), var("b"))).unwrap();
    let (l2, r2) = swap_sub(&minus(var("a"), var("b")), &var("x")).unwrap();
    assert_eq!(format!("{:?}", l1), format!("{:?}", l2));
    assert_eq!(format!("{:?}", r1), format!("{:?}", r2));
}

#[test]
fn normalize_peels_sum() {
    // x = y + 5  becomes  x = y + 5 with the terms moved one at a time
    let (l, r) = swap_sub(&var("x"), &plus(var("y"), num(5))).unwrap();
    assert_eq!(format!("{:?}", l), format!("{:?}", var("x")));
    let got = sorted(count_variables_add(&r).unwrap());
    assert_eq!(got, vec![(String::from("y"), 1), (String::from("~one"), 5)]);
}

#[test]
fn normalize_rejects_uncovered_pair() {
    let r = swap_sub(&plus(var("a"), var("b")), &plus(var("c"), var("d")));
    assert!(matches!(r, Err(R1csError::UnsupportedShape(_))));
}

#[test]
fn subtraction_statement_rows() {
    // z = a - b  gives  (z + b) = a: A = [a], B = [1], C = [z, b]
    let variables = names(&["~one", "a", "b", "z"]);
    let (a, b, c) = emit_rows(&var("z"), &minus(var("a"), var("b")), &variables).unwrap();
    row_eq(vec![(1, 1)], a);
    row_eq(vec![(0, 1)], b);
    row_eq(vec![(3, 1), (2, 1)], c);
}

#[test]
fn product_rows_satisfy_constraint() {
    let variables = names(&["~one", "a", "b", "z"]);
    let (a, b, c) = emit_rows(&var("z"), &times(var("a"), var("b")), &variables).unwrap();
    assert_eq!(a, vec![(1, 1)]);
    assert_eq!(b, vec![(2, 1)]);
    assert_eq!(c, vec![(3, 1)]);
    for (wa, wb) in [(3i64, 4i64), (0, 7), (-2, 5)] {
        let w = vec![1, wa, wb, wa * wb];
        assert_eq!(dot(&a, &w) * dot(&b, &w), dot(&c, &w));
    }
}

#[test]
fn product_with_sum_factor() {
    let variables = names(&["~one", "a", "b", "z"]);
    let (a, b, c) = emit_rows(&var("z"), &times(plus(var("a"), num(2)), num(3)), &variables).unwrap();
    row_eq(vec![(1, 1), (0, 2)], a);
    assert_eq!(b, vec![(0, 3)]);
    assert_eq!(c, vec![(3, 1)]);
}

#[test]
fn quotient_rows() {
    // z = a / b  gives  z * b = a
    let variables = names(&["~one", "a", "b", "z"]);
    let (a, b, c) = emit_rows(&var("z"), &over(var("a"), var("b")), &variables).unwrap();
    assert_eq!(a, vec![(3, 1)]);
    assert_eq!(b, vec![(2, 1)]);
    assert_eq!(c, vec![(1, 1)]);
}

#[test]
fn literal_and_variable_right_sides() {
    let variables = names(&["~one", "a", "z"]);
    let (a, b, c) = emit_rows(&var("z"), &num(8), &variables).unwrap();
    assert_eq!((a, b, c), (vec![(0, 8)], vec![(0, 1)], vec![(2, 1)]));
    let (a, b, c) = emit_rows(&var("z"), &var("a"), &variables).unwrap();
    assert_eq!((a, b, c), (vec![(1, 1)], vec![(0, 1)], vec![(2, 1)]));
}

#[test]
fn power_is_unsupported() {
    let variables = names(&["~one", "a", "z"]);
    let pow = Expression::Pow(Box::new(var("a")), Box::new(num(2)));
    let r = emit_rows(&var("z"), &pow, &variables);
    assert!(matches!(r, Err(R1csError::UnsupportedShape(Expression::Pow(..)))));
}

#[test]
fn failed_emission_appends_nothing() {
    let variables = names(&["~one", "z"]);
    let mut a_row = vec![(0usize, 1i32)];
    let mut b_row: Vec<(usize, i32)> = Vec::new();
    let mut c_row: Vec<(usize, i32)> = Vec::new();
    let r = r1cs_expression(var("z"), var("q"), &variables, &mut a_row, &mut b_row, &mut c_row);
    assert!(matches!(r, Err(R1csError::UnknownVariable(ref n)) if n == "q"));
    assert_eq!(a_row, vec![(0, 1)]);
    assert!(b_row.is_empty() && c_row.is_empty());
}

#[test]
fn unknown_variable_is_an_error() {
    let variables = names(&["~one", "x"]);
    let r = lookup(&variables, &String::from("y"));
    assert!(matches!(r, Err(R1csError::UnknownVariable(ref n)) if n == "y"));
    let r = emit_rows(&var("x"), &plus(var("y"), num(1)), &variables);
    assert!(matches!(r, Err(R1csError::UnknownVariable(_))));
}

#[test]
fn duplicate_names_resolve_to_earliest_index() {
    let prog = Prog {
        arguments: names(&["a", "a"]),
        statements: vec![Statement::Return(var("a"))],
    };
    let (variables, a, _, _) = r1cs_program(&prog).unwrap();
    assert_eq!(variables, names(&["~one", "a", "a", "~out"]));
    assert_eq!(lookup(&variables, &String::from("a")).unwrap(), 1);
    assert_eq!(a[0], vec![(1, 1)]);
}

#[test]
fn program_grows_table_once_per_named_statement() {
    let prog = Prog {
        arguments: names(&["a", "b"]),
        statements: vec![
            Statement::Definition(String::from("t"), times(var("a"), var("b"))),
            Statement::Condition(var("t"), plus(var("a"), var("b"))),
            Statement::Return(plus(var("t"), num(1))),
        ],
    };
    let (variables, a, b, c) = r1cs_program(&prog).unwrap();
    assert_eq!(variables, names(&["~one", "a", "b", "t", "~out"]));
    assert_eq!(a.len(), 3);
    assert_eq!(b.len(), 3);
    assert_eq!(c.len(), 3);
    assert_eq!(a[0], vec![(1, 1)]);
    assert_eq!(b[0], vec![(2, 1)]);
    assert_eq!(c[0], vec![(3, 1)]);
    row_eq(vec![(2, 1), (1, 1)], a[1].clone());
    assert_eq!(c[1], vec![(3, 1)]);
    row_eq(vec![(3, 1), (0, 1)], a[2].clone());
    assert_eq!(c[2], vec![(4, 1)]);
}

#[test]
fn program_stops_at_first_error() {
    let prog = Prog {
        arguments: names(&["a"]),
        statements: vec![
            Statement::Definition(String::from("t"), var("a")),
            Statement::Definition(String::from("u"), var("missing")),
        ],
    };
    assert!(matches!(r1cs_program(&prog), Err(R1csError::UnknownVariable(_))));
}

#[test]
fn normalize_difference_of_sum() {
    // x = (a + b) - c is rewritten as x + c = a + b
    let (l, r) = swap_sub(&var("x"), &minus(plus(var("a"), var("b")), var("c"))).unwrap();
    let got = sorted(count_variables_add(&l).unwrap());
    assert_eq!(got, vec![(String::from("c"), 1), (String::from("x"), 1)]);
    let got = sorted(count_variables_add(&r).unwrap());
    assert_eq!(got, vec![(String::from("a"), 1), (String::from("b"), 1)]);
}

#[test]
fn normalize_sum_holding_difference() {
    // x = y + (a - b) is rewritten as x + b = y + a
    let (l, r) = swap_sub(&var("x"), &plus(var("y"), minus(var("a"), var("b")))).unwrap();
    let got = sorted(count_variables_add(&l).unwrap());
    assert_eq!(got, vec![(String::from("b"), 1), (String::from("x"), 1)]);
    let got = sorted(count_variables_add(&r).unwrap());
    assert_eq!(got, vec![(String::from("a"), 1), (String::from("y"), 1)]);
}

#[test]
fn normalize_rejects_product_holding_difference() {
    let r = swap_sub(&var("x"), &times(minus(var("a"), var("b")), var("c")));
    assert!(matches!(r, Err(R1csError::UnsupportedShape(_))));
}

#[test]
fn difference_of_sum_rows_hold_with_statement() {
    let variables = names(&["~one", "x", "a", "b", "c"]);
    let rhs = minus(plus(var("a"), var("b")), var("c"));
    let (a, b, c) = emit_rows(&var("x"), &rhs, &variables).unwrap();
    for (wa, wb, wc, wx) in [(1i64, 1i64, 0i64, 2i64), (5, -2, 4, -1), (1, 1, 0, 3)] {
        let w = vec![1, wx, wa, wb, wc];
        let holds = wx == wa + wb - wc;
        assert_eq!(dot(&a, &w) * dot(&b, &w) == dot(&c, &w), holds);
    }
}
