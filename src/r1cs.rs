//! Row emission: one row of each of the matrices A, B and C per statement,
//! so that `(A_row · w) * (B_row · w) = C_row · w` for a witness `w` indexed
//! like the variable table.
use crate::expression::{
    eval, expr_view, one_name, out_name, out_string, vars, Expr, Expression, Fault, R1csError,
};
use crate::linear::{
    add_term, count, count_variables_add, first_index, keys, lemma_first_index, lemma_merge, merge,
    term_map, terms_view,
    weighted, Term,
};
use crate::normalize::{lemma_normalize_meaning, normalize, swap_sub};
use vstd::prelude::*;

verus! {

/// An entry of a sparse row: a variable index and its coefficient.
pub type Entry = (usize, i32);

/// The names of a variable table.
pub open spec fn table_view(v: Seq<String>) -> Seq<Seq<char>> {
    v.map_values(|s: String| s@)
}

/// The index of `name`: its earliest occurrence in the table.
pub open spec fn index_of(table: Seq<Seq<char>>, name: Seq<char>) -> Result<usize, Fault> {
    match first_index(table, name) {
        Some(i) => Ok(i as usize),
        None => Err(Fault::UnknownVariable(name)),
    }
}

/// The row of a sequence of terms: each name replaced by its index, in order.
pub open spec fn row_of(terms: Seq<Term>, table: Seq<Seq<char>>) -> Result<Seq<Entry>, Fault>
    decreases terms.len(),
{
    if terms.len() == 0 {
        Ok(Seq::empty())
    } else {
        match row_of(terms.drop_last(), table) {
            Err(f) => Err(f),
            Ok(row) => match index_of(table, terms.last().0) {
                Err(f) => Err(f),
                Ok(i) => Ok(row.push((i, terms.last().1))),
            },
        }
    }
}

/// The row of a linear expression.
pub open spec fn linear_row(e: Expr, table: Seq<Seq<char>>) -> Result<Seq<Entry>, Fault> {
    match count(e, true) {
        Err(f) => Err(f),
        Ok(terms) => row_of(terms, table),
    }
}

/// The row of a literal or a variable.
pub open spec fn atom_row(e: Expr, table: Seq<Seq<char>>) -> Result<Seq<Entry>, Fault> {
    match e {
        Expr::NumberLiteral(x) => Ok(seq![(0usize, x)]),
        Expr::VariableReference(v) => match index_of(table, v) {
            Err(f) => Err(f),
            Ok(i) => Ok(seq![(i, 1i32)]),
        },
        _ => Err(Fault::UnsupportedShape(e)),
    }
}

/// The row of a factor of a product: a literal, a variable or a sum.
pub open spec fn factor_row(e: Expr, table: Seq<Seq<char>>) -> Result<Seq<Entry>, Fault> {
    if e is Add {
        linear_row(e, table)
    } else {
        atom_row(e, table)
    }
}

/// The row `[(0, 1)]`: the constant one.
pub open spec fn unit_row() -> Seq<Entry> {
    seq![(0usize, 1i32)]
}

/// The rows (A, B, C) for the constraint `l = r`, `l` linear:
/// a sum or difference `r` is normalized to `lhs' = rhs'` and gives
/// `rhs' * 1 = lhs'`; a product `x * y` gives `x * y = l`; a quotient
/// `x / y` gives `l * y = x`; a literal or variable `r` gives `r * 1 = l`.
/// A power or a conditional is an unsupported shape.
pub open spec fn emit(l: Expr, r: Expr, table: Seq<Seq<char>>) -> Result<
    (Seq<Entry>, Seq<Entry>, Seq<Entry>),
    Fault,
> {
    match r {
        Expr::Mult(x, y) => match factor_row(*x, table) {
            Err(f) => Err(f),
            Ok(a) => match factor_row(*y, table) {
                Err(f) => Err(f),
                Ok(b) => match linear_row(l, table) {
                    Err(f) => Err(f),
                    Ok(c) => Ok((a, b, c)),
                },
            },
        },
        Expr::Div(x, y) => match linear_row(l, table) {
            Err(f) => Err(f),
            Ok(a) => match atom_row(*x, table) {
                Err(f) => Err(f),
                Ok(c) => match atom_row(*y, table) {
                    Err(f) => Err(f),
                    Ok(b) => Ok((a, b, c)),
                },
            },
        },
        Expr::Pow(_, _) => Err(Fault::UnsupportedShape(r)),
        Expr::IfElse(_, _, _) => Err(Fault::UnsupportedShape(r)),
        Expr::NumberLiteral(_) => match atom_row(r, table) {
            Err(f) => Err(f),
            Ok(a) => match linear_row(l, table) {
                Err(f) => Err(f),
                Ok(c) => Ok((a, unit_row(), c)),
            },
        },
        Expr::VariableReference(_) => match atom_row(r, table) {
            Err(f) => Err(f),
            Ok(a) => match linear_row(l, table) {
                Err(f) => Err(f),
                Ok(c) => Ok((a, unit_row(), c)),
            },
        },
        _ => match normalize(l, r) {
            Err(f) => Err(f),
            Ok((lhs, rhs)) => match linear_row(rhs, table) {
                Err(f) => Err(f),
                Ok(a) => match linear_row(lhs, table) {
                    Err(f) => Err(f),
                    Ok(c) => Ok((a, unit_row(), c)),
                },
            },
        },
    }
}

/// The view of an exec row result.
pub open spec fn row_result(r: Result<Vec<Entry>, R1csError>) -> Result<Seq<Entry>, Fault> {
    match r {
        Ok(v) => Ok(v@),
        Err(e) => Err(e@),
    }
}

/// The index of `name` in the table: its earliest occurrence.
pub fn lookup(variables: &Vec<String>, name: &String) -> (r: Result<usize, R1csError>)
    ensures
        match r {
            Ok(i) => index_of(table_view(variables@), name@) == Ok::<usize, Fault>(i),
            Err(e) => index_of(table_view(variables@), name@) == Err::<usize, Fault>(e@),
        },
{
    let ghost t = table_view(variables@);
    let mut i: usize = 0;
    while i < variables.len()
        invariant
            i <= variables.len(),
            t == table_view(variables@),
            t.len() == variables.len(),
            forall|j: int| 0 <= j < i ==> t[j] != name@,
        decreases variables.len() - i,
    {
        if variables[i] == *name {
            proof {
                assert(t[i as int] == name@);
                lemma_first_index(t, name@);
                match first_index(t, name@) {
                    Some(i2) => {
                        if i2 < i {
                            assert(t[i2] != name@);
                        } else if i2 > i {
                            assert(t[i as int] != name@);
                        }
                    },
                    None => {
                        assert(t[i as int] != name@);
                    },
                }
            }
            return Ok(i);
        }
        i = i + 1;
    }
    proof {
        lemma_first_index(t, name@);
    }
    Err(R1csError::UnknownVariable(name.clone()))
}

/// The row of a sequence of terms; see `row_of`.
fn terms_row(terms: &Vec<(String, i32)>, variables: &Vec<String>) -> (r: Result<
    Vec<Entry>,
    R1csError,
>)
    ensures
        row_result(r) == row_of(terms_view(terms@), table_view(variables@)),
{
    let ghost ts = terms_view(terms@);
    let ghost t = table_view(variables@);
    let mut row: Vec<Entry> = Vec::new();
    let mut i: usize = 0;
    while i < terms.len()
        invariant
            i <= terms.len(),
            ts == terms_view(terms@),
            t == table_view(variables@),
            row_of(ts.take(i as int), t) == Ok::<Seq<Entry>, Fault>(row@),
        decreases terms.len() - i,
    {
        assert(ts.take(i + 1).drop_last() =~= ts.take(i as int));
        match lookup(variables, &terms[i].0) {
            Ok(j) => {
                row.push((j, terms[i].1));
            },
            Err(e) => {
                proof {
                    lemma_row_err_extends(ts, t, i + 1);
                }
                return Err(e);
            },
        }
        i = i + 1;
    }
    assert(ts.take(i as int) =~= ts);
    Ok(row)
}

/// Once a term has no index, the rest does not matter.
proof fn lemma_row_err_extends(s: Seq<Term>, t: Seq<Seq<char>>, n: int)
    requires
        0 <= n <= s.len(),
        row_of(s.take(n), t) is Err,
    ensures
        row_of(s, t) == row_of(s.take(n), t),
    decreases s.len() - n,
{
    if n < s.len() {
        assert(s.take(n + 1).drop_last() =~= s.take(n));
        lemma_row_err_extends(s, t, n + 1);
    } else {
        assert(s.take(n) =~= s);
    }
}

/// The row of a linear expression; see `linear_row`.
pub fn linear_expression_row(e: &Expression, variables: &Vec<String>) -> (r: Result<
    Vec<Entry>,
    R1csError,
>)
    ensures
        row_result(r) == linear_row(expr_view(*e), table_view(variables@)),
{
    match count_variables_add(e) {
        Ok(terms) => terms_row(&terms, variables),
        Err(f) => Err(f),
    }
}

/// The row of a literal or a variable; see `atom_row`.
fn atom(e: &Expression, variables: &Vec<String>) -> (r: Result<Vec<Entry>, R1csError>)
    ensures
        row_result(r) == atom_row(expr_view(*e), table_view(variables@)),
{
    match e {
        Expression::NumberLiteral(x) => {
            let r = vec![(0usize, *x)];
            assert(r@ =~= seq![(0usize, *x)]);
            Ok(r)
        },
        Expression::VariableReference(v) => match lookup(variables, v) {
            Ok(i) => {
                let r = vec![(i, 1i32)];
                assert(r@ =~= seq![(i, 1i32)]);
                Ok(r)
            },
            Err(f) => Err(f),
        },
        _ => Err(R1csError::UnsupportedShape(e.duplicate())),
    }
}

/// The row of a factor of a product; see `factor_row`.
fn factor(e: &Expression, variables: &Vec<String>) -> (r: Result<Vec<Entry>, R1csError>)
    ensures
        row_result(r) == factor_row(expr_view(*e), table_view(variables@)),
{
    if matches!(e, Expression::Add(..)) {
        linear_expression_row(e, variables)
    } else {
        atom(e, variables)
    }
}

fn unit() -> (r: Vec<Entry>)
    ensures
        r@ == unit_row(),
{
    let r = vec![(0usize, 1i32)];
    assert(r@ =~= unit_row());
    r
}

/// The view of exec rows.
pub open spec fn rows_result(r: Result<(Vec<Entry>, Vec<Entry>, Vec<Entry>), R1csError>) -> Result<
    (Seq<Entry>, Seq<Entry>, Seq<Entry>),
    Fault,
> {
    match r {
        Ok((a, b, c)) => Ok((a@, b@, c@)),
        Err(e) => Err(e@),
    }
}

/// The rows (A, B, C) for the constraint `linear_expr = expr`; see `emit`.
pub fn emit_rows(linear_expr: &Expression, expr: &Expression, variables: &Vec<String>) -> (r: Result<
    (Vec<Entry>, Vec<Entry>, Vec<Entry>),
    R1csError,
>)
    ensures
        rows_result(r) == emit(expr_view(*linear_expr), expr_view(*expr), table_view(variables@)),
{
    match expr {
        Expression::Mult(x, y) => {
            let a = match factor(x, variables) {
                Ok(a) => a,
                Err(f) => return Err(f),
            };
            let b = match factor(y, variables) {
                Ok(b) => b,
                Err(f) => return Err(f),
            };
            let c = match linear_expression_row(linear_expr, variables) {
                Ok(c) => c,
                Err(f) => return Err(f),
            };
            Ok((a, b, c))
        },
        Expression::Div(x, y) => {
            let a = match linear_expression_row(linear_expr, variables) {
                Ok(a) => a,
                Err(f) => return Err(f),
            };
            let c = match atom(x, variables) {
                Ok(c) => c,
                Err(f) => return Err(f),
            };
            let b = match atom(y, variables) {
                Ok(b) => b,
                Err(f) => return Err(f),
            };
            Ok((a, b, c))
        },
        Expression::Pow(_, _) => Err(R1csError::UnsupportedShape(expr.duplicate())),
        Expression::IfElse(_, _, _) => Err(R1csError::UnsupportedShape(expr.duplicate())),
        Expression::NumberLiteral(_) | Expression::VariableReference(_) => {
            let a = match atom(expr, variables) {
                Ok(a) => a,
                Err(f) => return Err(f),
            };
            let c = match linear_expression_row(linear_expr, variables) {
                Ok(c) => c,
                Err(f) => return Err(f),
            };
            Ok((a, unit(), c))
        },
        _ => {
            let (lhs, rhs) = match swap_sub(linear_expr, expr) {
                Ok(p) => p,
                Err(f) => return Err(f),
            };
            let a = match linear_expression_row(&rhs, variables) {
                Ok(a) => a,
                Err(f) => return Err(f),
            };
            let c = match linear_expression_row(&lhs, variables) {
                Ok(c) => c,
                Err(f) => return Err(f),
            };
            Ok((a, unit(), c))
        },
    }
}

/// Appends to `a_row`, `b_row` and `c_row` the rows for the constraint
/// `linear_expr = expr` (see `emit`). On an error nothing is appended.
pub fn r1cs_expression(
    linear_expr: Expression,
    expr: Expression,
    variables: &Vec<String>,
    a_row: &mut Vec<Entry>,
    b_row: &mut Vec<Entry>,
    c_row: &mut Vec<Entry>,
) -> (r: Result<(), R1csError>)
    ensures
        match emit(expr_view(linear_expr), expr_view(expr), table_view(variables@)) {
            Ok((a, b, c)) => r is Ok && final(a_row)@ == old(a_row)@ + a
                && final(b_row)@ == old(b_row)@ + b && final(c_row)@ == old(c_row)@ + c,
            Err(f) => r matches Err(e) && e@ == f && final(a_row)@ == old(a_row)@
                && final(b_row)@ == old(b_row)@ && final(c_row)@ == old(c_row)@,
        },
{
    match emit_rows(&linear_expr, &expr, variables) {
        Ok((a, b, c)) => {
            let mut a = a;
            let mut b = b;
            let mut c = c;
            a_row.append(&mut a);
            b_row.append(&mut b);
            c_row.append(&mut c);
            Ok(())
        },
        Err(f) => Err(f),
    }
}

/// A statement of a flattened program.
#[derive(Debug)]
pub enum Statement {
    /// The function returns the value of the expression.
    Return(Expression),
    /// A new variable takes the value of the expression.
    Definition(String, Expression),
    /// The two expressions are equal.
    Condition(Expression, Expression),
}

/// A flattened program: its argument names and its statements.
#[derive(Debug)]
pub struct Prog {
    pub arguments: Vec<String>,
    pub statements: Vec<Statement>,
}

/// A variable table and the rows of A, B and C, one per statement.
pub type System = (Seq<Seq<char>>, Seq<Seq<Entry>>, Seq<Seq<Entry>>, Seq<Seq<Entry>>);

/// The table after a statement: a return or a definition adds a name.
pub open spec fn statement_table(t: Seq<Seq<char>>, s: Statement) -> Seq<Seq<char>> {
    match s {
        Statement::Return(_) => t.push(out_name()),
        Statement::Definition(n, _) => t.push(n@),
        Statement::Condition(_, _) => t,
    }
}

/// The rows of a statement, emitted against the table after it.
pub open spec fn statement_rows(t: Seq<Seq<char>>, s: Statement) -> Result<
    (Seq<Entry>, Seq<Entry>, Seq<Entry>),
    Fault,
> {
    let t2 = statement_table(t, s);
    match s {
        Statement::Return(e) => emit(Expr::VariableReference(out_name()), expr_view(e), t2),
        Statement::Definition(n, e) => emit(Expr::VariableReference(n@), expr_view(e), t2),
        Statement::Condition(e1, e2) => emit(expr_view(e1), expr_view(e2), t2),
    }
}

/// The constraint system of a program with arguments `args` and statements
/// `stmts`: the table starts with `~one` and the arguments, then each
/// statement in order adds its name, if any, and one row to each matrix.
pub open spec fn system(args: Seq<Seq<char>>, stmts: Seq<Statement>) -> Result<System, Fault>
    decreases stmts.len(),
{
    if stmts.len() == 0 {
        Ok((seq![one_name()] + args, Seq::empty(), Seq::empty(), Seq::empty()))
    } else {
        match system(args, stmts.drop_last()) {
            Err(f) => Err(f),
            Ok((t, a, b, c)) => match statement_rows(t, stmts.last()) {
                Err(f) => Err(f),
                Ok((ra, rb, rc)) => Ok(
                    (statement_table(t, stmts.last()), a.push(ra), b.push(rb), c.push(rc)),
                ),
            },
        }
    }
}

/// The view of exec matrices.
pub open spec fn matrix_view(m: Seq<Vec<Entry>>) -> Seq<Seq<Entry>> {
    m.map_values(|r: Vec<Entry>| r@)
}

/// The view of an exec constraint system.
pub open spec fn system_result(
    r: Result<(Vec<String>, Vec<Vec<Entry>>, Vec<Vec<Entry>>, Vec<Vec<Entry>>), R1csError>,
) -> Result<System, Fault> {
    match r {
        Ok((t, a, b, c)) => Ok((table_view(t@), matrix_view(a@), matrix_view(b@), matrix_view(c@))),
        Err(e) => Err(e@),
    }
}

/// The rows of one statement, after adding its name to the table.
fn statement(variables: &mut Vec<String>, s: &Statement) -> (r: Result<
    (Vec<Entry>, Vec<Entry>, Vec<Entry>),
    R1csError,
>)
    ensures
        table_view(final(variables)@) == statement_table(table_view(old(variables)@), *s),
        rows_result(r) == statement_rows(table_view(old(variables)@), *s),
{
    let ghost t0 = table_view(variables@);
    match s {
        Statement::Return(e) => {
            variables.push(out_string());
            assert(table_view(variables@) =~= t0.push(out_name()));
            let target = Expression::VariableReference(out_string());
            emit_rows(&target, e, variables)
        },
        Statement::Definition(n, e) => {
            variables.push(n.clone());
            assert(table_view(variables@) =~= t0.push(n@));
            let target = Expression::VariableReference(n.clone());
            emit_rows(&target, e, variables)
        },
        Statement::Condition(e1, e2) => emit_rows(e1, e2, variables),
    }
}

/// The variable table and the matrices A, B and C of a program; see `system`.
pub fn r1cs_program(prog: &Prog) -> (r: Result<
    (Vec<String>, Vec<Vec<Entry>>, Vec<Vec<Entry>>, Vec<Vec<Entry>>),
    R1csError,
>)
    ensures
        system_result(r) == system(table_view(prog.arguments@), prog.statements@),
{
    let ghost args = table_view(prog.arguments@);
    let ghost stmts = prog.statements@;
    let mut variables: Vec<String> = Vec::new();
    variables.push(crate::expression::one_string());
    let mut k: usize = 0;
    while k < prog.arguments.len()
        invariant
            k <= prog.arguments.len(),
            args == table_view(prog.arguments@),
            table_view(variables@) == seq![one_name()] + args.take(k as int),
        decreases prog.arguments.len() - k,
    {
        let ghost before = table_view(variables@);
        let name = prog.arguments[k].clone();
        variables.push(name);
        assert(table_view(variables@) =~= before.push(args[k as int]));
        assert(args.take(k + 1) =~= args.take(k as int).push(args[k as int]));
        assert(table_view(variables@) =~= seq![one_name()] + args.take(k + 1));
        k = k + 1;
    }
    assert(args.take(k as int) =~= args);
    let mut a: Vec<Vec<Entry>> = Vec::new();
    let mut b: Vec<Vec<Entry>> = Vec::new();
    let mut c: Vec<Vec<Entry>> = Vec::new();
    let mut i: usize = 0;
    assert(matrix_view(a@) =~= Seq::<Seq<Entry>>::empty());
    while i < prog.statements.len()
        invariant
            i <= prog.statements.len(),
            args == table_view(prog.arguments@),
            stmts == prog.statements@,
            system(args, stmts.take(i as int)) == Ok::<System, Fault>(
                (table_view(variables@), matrix_view(a@), matrix_view(b@), matrix_view(c@)),
            ),
        decreases prog.statements.len() - i,
    {
        assert(stmts.take(i + 1).drop_last() =~= stmts.take(i as int));
        match statement(&mut variables, &prog.statements[i]) {
            Ok((ra, rb, rc)) => {
                let ghost (a0, b0, c0) = (a@, b@, c@);
                a.push(ra);
                b.push(rb);
                c.push(rc);
                assert(matrix_view(a@) =~= matrix_view(a0).push(ra@));
                assert(matrix_view(b@) =~= matrix_view(b0).push(rb@));
                assert(matrix_view(c@) =~= matrix_view(c0).push(rc@));
            },
            Err(f) => {
                proof {
                    lemma_system_err_extends(args, stmts, i + 1);
                }
                return Err(f);
            },
        }
        i = i + 1;
    }
    assert(stmts.take(i as int) =~= stmts);
    Ok((variables, a, b, c))
}

/// Once a statement fails, the rest does not matter.
proof fn lemma_system_err_extends(args: Seq<Seq<char>>, s: Seq<Statement>, n: int)
    requires
        0 <= n <= s.len(),
        system(args, s.take(n)) is Err,
    ensures
        system(args, s) == system(args, s.take(n)),
    decreases s.len() - n,
{
    if n < s.len() {
        assert(s.take(n + 1).drop_last() =~= s.take(n));
        lemma_system_err_extends(args, s, n + 1);
    } else {
        assert(s.take(n) =~= s);
    }
}

/// Each statement appends exactly one row to each matrix; a return or a
/// definition appends exactly one name to the table, a condition none.
pub proof fn lemma_statement_growth(args: Seq<Seq<char>>, stmts: Seq<Statement>, s: Statement)
    requires
        system(args, stmts.push(s)) is Ok,
    ensures
        system(args, stmts) is Ok,
        ({
            let (t, a, b, c) = system(args, stmts)->Ok_0;
            let (t2, a2, b2, c2) = system(args, stmts.push(s))->Ok_0;
            &&& t2.len() == t.len() + if s is Condition {
                0int
            } else {
                1int
            }
            &&& t2.take(t.len() as int) == t
            &&& a2.len() == a.len() + 1 && b2.len() == b.len() + 1 && c2.len() == c.len() + 1
            &&& a2.drop_last() == a && b2.drop_last() == b && c2.drop_last() == c
        }),
{
    assert(stmts.push(s).drop_last() =~= stmts);
    let (t, a, b, c) = system(args, stmts)->Ok_0;
    let t2 = statement_table(t, s);
    assert(t2.take(t.len() as int) =~= t);
    let (ra, rb, rc) = statement_rows(t, s)->Ok_0;
    assert(a.push(ra).drop_last() =~= a);
    assert(b.push(rb).drop_last() =~= b);
    assert(c.push(rc).drop_last() =~= c);
}

/// The number of statements that name a new variable: returns and
/// definitions.
pub open spec fn named_count(stmts: Seq<Statement>) -> nat
    decreases stmts.len(),
{
    if stmts.len() == 0 {
        0
    } else {
        named_count(stmts.drop_last()) + if stmts.last() is Condition {
            0nat
        } else {
            1nat
        }
    }
}

/// The final table holds `~one`, the arguments, and one name per return or
/// definition; each matrix holds one row per statement.
pub proof fn lemma_system_size(args: Seq<Seq<char>>, stmts: Seq<Statement>)
    requires
        system(args, stmts) is Ok,
    ensures
        ({
            let (t, a, b, c) = system(args, stmts)->Ok_0;
            &&& t.len() == 1 + args.len() + named_count(stmts)
            &&& t.take(1 + args.len() as int) == seq![one_name()] + args
            &&& a.len() == stmts.len() && b.len() == stmts.len() && c.len() == stmts.len()
        }),
    decreases stmts.len(),
{
    if stmts.len() > 0 {
        let p = stmts.drop_last();
        assert(p.push(stmts.last()) =~= stmts);
        lemma_statement_growth(args, p, stmts.last());
        lemma_system_size(args, p);
        let t0 = system(args, p)->Ok_0.0;
        let t = system(args, stmts)->Ok_0.0;
        assert(t.take(1 + args.len() as int) =~= t0.take(1 + args.len() as int));
    } else {
        assert((seq![one_name()] + args).take(1 + args.len() as int) =~= seq![one_name()] + args);
    }
}

/// A name that the table does not hold has no index: resolving it is an
/// `UnknownVariable` error, never index 0.
pub proof fn lemma_unknown_name(table: Seq<Seq<char>>, name: Seq<char>)
    requires
        !table.contains(name),
    ensures
        index_of(table, name) == Err::<usize, Fault>(Fault::UnknownVariable(name)),
{
    lemma_first_index(table, name);
    if first_index(table, name) is Some {
        let i = first_index(table, name)->Some_0;
        assert(table.contains(name)) by {
            assert(table[i] == name);
        }
    }
}

/// Two arguments with the same name occupy two different indices of the
/// initial table, and the name resolves to the earlier of them, or to a
/// still earlier occurrence.
pub proof fn lemma_duplicate_arguments(args: Seq<Seq<char>>, i: int, j: int)
    requires
        0 <= i < j < args.len(),
        args.len() < usize::MAX,
        args[i] == args[j],
    ensures
        ({
            let t = seq![one_name()] + args;
            &&& t[i + 1] == args[i] && t[j + 1] == args[i] && i + 1 != j + 1
            &&& index_of(t, args[i]) matches Ok(k) && k <= i + 1 && t[k as int] == args[i]
                && forall|m: int| 0 <= m < k ==> t[m] != args[i]
        }),
{
    let t = seq![one_name()] + args;
    assert(t[i + 1] == args[i]);
    assert(t[j + 1] == args[j]);
    lemma_first_index(t, args[i]);
    let k = first_index(t, args[i])->Some_0;
    assert(k <= i + 1) by {
        if k > i + 1 {
            assert(t[i + 1] != args[i]);
        }
    }
    assert((k as usize) as int == k);
}

/// A name in the table resolves to its earliest occurrence.
pub proof fn lemma_earliest_index(table: Seq<Seq<char>>, i: int)
    requires
        0 <= i < table.len() <= usize::MAX,
    ensures
        index_of(table, table[i]) matches Ok(k) && k <= i && table[k as int] == table[i]
            && forall|m: int| 0 <= m < k ==> table[m] != table[i],
{
    lemma_first_index(table, table[i]);
    let k = first_index(table, table[i])->Some_0;
    assert(k <= i) by {
        if k > i {
            assert(table[i] != table[i]);
        }
    }
    assert((k as usize) as int == k);
}

/// The value of a row against a witness `w`.
pub open spec fn dot(row: Seq<Entry>, w: Seq<int>) -> int
    decreases row.len(),
{
    if row.len() == 0 {
        0
    } else {
        dot(row.drop_last(), w) + row.last().1 * w[row.last().0 as int]
    }
}

/// The value that a witness gives a name: that of the name's index.
/// A name the table lacks is worth 0, except the constant wire, worth 1.
pub open spec fn witness_env(table: Seq<Seq<char>>, w: Seq<int>) -> spec_fn(Seq<char>) -> int {
    |k: Seq<char>|
        match first_index(table, k) {
            Some(i) => w[i],
            None => if k == one_name() {
                1
            } else {
                0
            },
        }
}

/// A witness for a table: one value per name, index 0 and the constant
/// wire worth one.
pub open spec fn witness_ok(table: Seq<Seq<char>>, w: Seq<int>) -> bool {
    &&& table.len() <= usize::MAX
    &&& w.len() == table.len() && w.len() > 0 && w[0] == 1
    &&& witness_env(table, w)(one_name()) == 1
}

/// The value of a sequence of terms when each name takes the value `env`
/// gives it.
pub open spec fn terms_value(s: Seq<Term>, env: spec_fn(Seq<char>) -> int) -> int
    decreases s.len(),
{
    if s.len() == 0 {
        0
    } else {
        terms_value(s.drop_last(), env) + s.last().1 * env(s.last().0)
    }
}

proof fn lemma_terms_value_update(s: Seq<Term>, i: int, c: i32, env: spec_fn(Seq<char>) -> int)
    requires
        0 <= i < s.len(),
    ensures
        terms_value(s.update(i, (s[i].0, c)), env) == terms_value(s, env) + (c - s[i].1) * env(
            s[i].0,
        ),
    decreases s.len(),
{
    let u = s.update(i, (s[i].0, c));
    let e = env(s[i].0);
    if i == s.len() - 1 {
        assert(u.drop_last() =~= s.drop_last());
        assert(c * e == s[i].1 * e + (c - s[i].1) * e) by (nonlinear_arith);
    } else {
        assert(u.drop_last() =~= s.drop_last().update(i, (s[i].0, c)));
        lemma_terms_value_update(s.drop_last(), i, c, env);
    }
}

proof fn lemma_terms_value_merge(s1: Seq<Term>, s2: Seq<Term>, env: spec_fn(Seq<char>) -> int)
    requires
        merge(s1, s2) is Ok,
    ensures
        terms_value(merge(s1, s2)->Ok_0, env) == terms_value(s1, env) + terms_value(s2, env),
    decreases s2.len(),
{
    if s2.len() > 0 {
        let p = s2.drop_last();
        let t = s2.last();
        lemma_terms_value_merge(s1, p, env);
        let m = merge(s1, p)->Ok_0;
        lemma_first_index(keys(m), t.0);
        match first_index(keys(m), t.0) {
            Some(i) => {
                assert(keys(m)[i] == m[i].0);
                let c = (m[i].1 + t.1) as i32;
                assert(add_term(m, t)->Ok_0 == m.update(i, (m[i].0, c)));
                lemma_terms_value_update(m, i, c, env);
            },
            None => {
                assert((add_term(m, t)->Ok_0).drop_last() =~= m);
            },
        }
    }
}

proof fn lemma_terms_value_single(s: Seq<Term>, env: spec_fn(Seq<char>) -> int)
    requires
        s.len() == 1,
    ensures
        terms_value(s, env) == s[0].1 * env(s[0].0),
{
    assert(s.drop_last() =~= Seq::<Term>::empty());
    assert(terms_value(Seq::<Term>::empty(), env) == 0);
}

proof fn lemma_dot_single(row: Seq<Entry>, w: Seq<int>)
    requires
        row.len() == 1,
    ensures
        dot(row, w) == row[0].1 * w[row[0].0 as int],
{
    assert(row.drop_last() =~= Seq::<Entry>::empty());
    assert(dot(Seq::<Entry>::empty(), w) == 0);
}

/// The terms of a linear expression have the value of the expression, once
/// the constant wire is worth one.
pub proof fn lemma_count_value(e: Expr, top: bool, env: spec_fn(Seq<char>) -> int)
    requires
        count(e, top) is Ok,
        env(one_name()) == 1,
    ensures
        terms_value(count(e, top)->Ok_0, env) == eval(e, env),
    decreases e,
{
    let s = count(e, top)->Ok_0;
    match e {
        Expr::Add(l, r) => {
            lemma_count_value(*l, false, env);
            lemma_count_value(*r, false, env);
            lemma_terms_value_merge(count(*l, false)->Ok_0, count(*r, false)->Ok_0, env);
            assert(s == merge(count(*l, false)->Ok_0, count(*r, false)->Ok_0)->Ok_0);
            assert(eval(e, env) == eval(*l, env) + eval(*r, env));
            assert(terms_value(s, env) == terms_value(count(*l, false)->Ok_0, env) + terms_value(
                count(*r, false)->Ok_0,
                env,
            ));
            assert(terms_value(s, env) == eval(e, env));
        },
        Expr::NumberLiteral(x) => {
            lemma_terms_value_single(s, env);
            assert(s[0] == (one_name(), x));
            let c = env(one_name());
            assert(c == 1);
            assert((x as int) * c == x as int) by (nonlinear_arith)
                requires
                    c == 1,
            ;
            assert(terms_value(s, env) == eval(e, env));
        },
        Expr::VariableReference(v) => {
            lemma_terms_value_single(s, env);
            assert(s[0] == (v, 1i32));
            let c = env(v);
            assert((1i32 as int) * c == c) by (nonlinear_arith);
            assert(terms_value(s, env) == eval(e, env));
        },
        Expr::Mult(a, b) => {
            let t = weighted(*a, *b)->Some_0;
            assert(s =~= seq![t]);
            lemma_terms_value_single(s, env);
            match *a {
                Expr::NumberLiteral(n) => match *b {
                    Expr::VariableReference(v) => {
                        assert(t == (v, n));
                        assert(eval(*a, env) == n as int);
                        assert(eval(*b, env) == env(v));
                        assert(eval(e, env) == eval(*a, env) * eval(*b, env));
                        assert(terms_value(s, env) == eval(e, env));
                    },
                    _ => {
                        assert(weighted(*a, *b) is None);
                    },
                },
                Expr::VariableReference(v) => match *b {
                    Expr::NumberLiteral(n) => {
                        assert(t == (v, n));
                        let x = env(v);
                        let y = n as int;
                        assert(eval(*a, env) == x);
                        assert(eval(*b, env) == y);
                        assert(eval(e, env) == eval(*a, env) * eval(*b, env));
                        assert(x * y == y * x) by (nonlinear_arith);
                        assert(terms_value(s, env) == eval(e, env));
                    },
                    _ => {
                        assert(weighted(*a, *b) is None);
                    },
                },
                _ => {
                    assert(weighted(*a, *b) is None);
                },
            }
        },
        _ => {
            assert(count(e, top) is Err);
        },
    }
}

proof fn lemma_row_value(terms: Seq<Term>, table: Seq<Seq<char>>, w: Seq<int>)
    requires
        row_of(terms, table) is Ok,
        table.len() <= usize::MAX,
    ensures
        dot(row_of(terms, table)->Ok_0, w) == terms_value(terms, witness_env(table, w)),
    decreases terms.len(),
{
    if terms.len() > 0 {
        lemma_row_value(terms.drop_last(), table, w);
        let row = row_of(terms, table)->Ok_0;
        lemma_first_index(table, terms.last().0);
        let i = first_index(table, terms.last().0)->Some_0;
        assert((i as usize) as int == i);
        assert(row.drop_last() =~= row_of(terms.drop_last(), table)->Ok_0);
    }
}

proof fn lemma_linear_row_value(e: Expr, table: Seq<Seq<char>>, w: Seq<int>)
    requires
        linear_row(e, table) is Ok,
        witness_ok(table, w),
    ensures
        dot(linear_row(e, table)->Ok_0, w) == eval(e, witness_env(table, w)),
{
    lemma_count_value(e, true, witness_env(table, w));
    lemma_row_value(count(e, true)->Ok_0, table, w);
}

proof fn lemma_factor_row_value(e: Expr, table: Seq<Seq<char>>, w: Seq<int>)
    requires
        factor_row(e, table) is Ok,
        witness_ok(table, w),
    ensures
        dot(factor_row(e, table)->Ok_0, w) == eval(e, witness_env(table, w)),
{
    let row = factor_row(e, table)->Ok_0;
    match e {
        Expr::Add(_, _) => {
            assert(factor_row(e, table) == linear_row(e, table));
            lemma_linear_row_value(e, table, w);
        },
        Expr::NumberLiteral(x) => {
            lemma_dot_single(row, w);
            assert(row[0] == (0usize, x));
            let c = w[0];
            assert((x as int) * c == x as int) by (nonlinear_arith)
                requires
                    c == 1,
            ;
        },
        Expr::VariableReference(v) => {
            lemma_first_index(table, v);
            let i = first_index(table, v)->Some_0;
            assert((i as usize) as int == i);
            lemma_dot_single(row, w);
            assert(row[0] == (i as usize, 1i32));
            let c = w[i];
            assert((1i32 as int) * c == c) by (nonlinear_arith);
        },
        _ => {},
    }
}

/// The rows of a product statement `l = x * y` hold for a witness exactly
/// when the statement does: `(A·w) * (B·w) - C·w` equals `x * y - l`
/// evaluated with the witness, for every witness whose constant wire is one.
pub proof fn lemma_product_rows_sound(l: Expr, x: Expr, y: Expr, table: Seq<Seq<char>>, w: Seq<int>)
    requires
        emit(l, Expr::Mult(Box::new(x), Box::new(y)), table) is Ok,
        witness_ok(table, w),
    ensures
        ({
            let (a, b, c) = emit(l, Expr::Mult(Box::new(x), Box::new(y)), table)->Ok_0;
            let env = witness_env(table, w);
            dot(a, w) * dot(b, w) - dot(c, w) == eval(x, env) * eval(y, env) - eval(l, env)
        }),
{
    lemma_factor_row_value(x, table, w);
    lemma_factor_row_value(y, table, w);
    lemma_linear_row_value(l, table, w);
}

/// What the constraint `l = r` says under a valuation: a quotient `p / q`
/// is read as `l * q = p`, anything else as `l = r`.
pub open spec fn statement_holds(l: Expr, r: Expr, env: spec_fn(Seq<char>) -> int) -> bool {
    match r {
        Expr::Div(p, q) => eval(l, env) * eval(*q, env) == eval(*p, env),
        _ => eval(l, env) == eval(r, env),
    }
}

proof fn lemma_atom_row_value(e: Expr, table: Seq<Seq<char>>, w: Seq<int>)
    requires
        atom_row(e, table) is Ok,
        witness_ok(table, w),
    ensures
        dot(atom_row(e, table)->Ok_0, w) == eval(e, witness_env(table, w)),
{
    assert(factor_row(e, table) == atom_row(e, table));
    lemma_factor_row_value(e, table, w);
}

/// The rows emitted for `l = r` hold for a witness exactly when the
/// constraint does, with each name worth the witness value at its index:
/// `(A·w) * (B·w) = C·w` if and only if `statement_holds`.
pub proof fn lemma_rows_sound(l: Expr, r: Expr, table: Seq<Seq<char>>, w: Seq<int>)
    requires
        emit(l, r, table) is Ok,
        witness_ok(table, w),
    ensures
        ({
            let (a, b, c) = emit(l, r, table)->Ok_0;
            (dot(a, w) * dot(b, w) == dot(c, w)) == statement_holds(l, r, witness_env(table, w))
        }),
{
    let env = witness_env(table, w);
    let (a, b, c) = emit(l, r, table)->Ok_0;
    lemma_dot_single(unit_row(), w);
    assert(dot(unit_row(), w) == 1) by {
        let z = w[0];
        assert((1i32 as int) * z == z) by (nonlinear_arith);
    }
    match r {
        Expr::Mult(x, y) => {
            lemma_product_rows_sound(l, *x, *y, table, w);
        },
        Expr::Div(x, y) => {
            lemma_linear_row_value(l, table, w);
            lemma_atom_row_value(*x, table, w);
            lemma_atom_row_value(*y, table, w);
        },
        Expr::NumberLiteral(_) => {
            lemma_atom_row_value(r, table, w);
            lemma_linear_row_value(l, table, w);
            let da = dot(a, w);
            assert(da * 1 == da);
        },
        Expr::VariableReference(_) => {
            lemma_atom_row_value(r, table, w);
            lemma_linear_row_value(l, table, w);
            let da = dot(a, w);
            assert(da * 1 == da);
        },
        Expr::Pow(_, _) => {},
        Expr::IfElse(_, _, _) => {},
        _ => {
            let (lhs, rhs) = normalize(l, r)->Ok_0;
            lemma_normalize_meaning(l, r, env);
            lemma_linear_row_value(rhs, table, w);
            lemma_linear_row_value(lhs, table, w);
            let da = dot(a, w);
            assert(da * 1 == da);
        },
    }
}

/// An entry points at index 0 (the constant wire) or at the earliest
/// occurrence of the name found there, never at a later duplicate.
pub open spec fn entry_uses_earliest(table: Seq<Seq<char>>, e: Entry) -> bool {
    e.0 == 0 || (e.0 < table.len() && first_index(table, table[e.0 as int]) == Some(e.0 as int))
}

/// Every entry of the row uses the earliest index of its name.
pub open spec fn row_uses_earliest(table: Seq<Seq<char>>, row: Seq<Entry>) -> bool {
    forall|k: int| 0 <= k < row.len() ==> #[trigger] entry_uses_earliest(table, row[k])
}

proof fn lemma_index_of_earliest(table: Seq<Seq<char>>, name: Seq<char>)
    requires
        index_of(table, name) is Ok,
        table.len() <= usize::MAX,
    ensures
        entry_uses_earliest(table, (index_of(table, name)->Ok_0, 0i32)),
        table.contains(name),
{
    lemma_first_index(table, name);
    let i = first_index(table, name)->Some_0;
    assert((i as usize) as int == i);
    assert(table[i] == name);
}

proof fn lemma_row_of_earliest(terms: Seq<Term>, table: Seq<Seq<char>>)
    requires
        row_of(terms, table) is Ok,
        table.len() <= usize::MAX,
    ensures
        row_uses_earliest(table, row_of(terms, table)->Ok_0),
        forall|k: int| 0 <= k < terms.len() ==> table.contains(#[trigger] terms[k].0),
    decreases terms.len(),
{
    if terms.len() > 0 {
        let p = terms.drop_last();
        lemma_row_of_earliest(p, table);
        lemma_index_of_earliest(table, terms.last().0);
        let row = row_of(terms, table)->Ok_0;
        let prev = row_of(p, table)->Ok_0;
        assert(row == prev.push((index_of(table, terms.last().0)->Ok_0, terms.last().1)));
        assert forall|k: int| 0 <= k < row.len() implies #[trigger] entry_uses_earliest(
            table,
            row[k],
        ) by {
            if k < prev.len() {
                assert(row[k] == prev[k]);
            }
        }
        assert forall|k: int| 0 <= k < terms.len() implies table.contains(#[trigger] terms[k].0) by {
            if k < p.len() {
                assert(terms[k] == p[k]);
            }
        }
    }
}

proof fn lemma_linear_row_earliest(e: Expr, table: Seq<Seq<char>>)
    requires
        linear_row(e, table) is Ok,
        table.len() <= usize::MAX,
    ensures
        row_uses_earliest(table, linear_row(e, table)->Ok_0),
{
    lemma_row_of_earliest(count(e, true)->Ok_0, table);
}

proof fn lemma_factor_row_earliest(e: Expr, table: Seq<Seq<char>>)
    requires
        factor_row(e, table) is Ok || atom_row(e, table) is Ok,
        table.len() <= usize::MAX,
    ensures
        factor_row(e, table) is Ok ==> row_uses_earliest(table, factor_row(e, table)->Ok_0),
        atom_row(e, table) is Ok ==> row_uses_earliest(table, atom_row(e, table)->Ok_0),
{
    match e {
        Expr::Add(_, _) => {
            lemma_linear_row_earliest(e, table);
        },
        Expr::VariableReference(v) => {
            lemma_index_of_earliest(table, v);
            let row = atom_row(e, table)->Ok_0;
            assert(row[0] == (index_of(table, v)->Ok_0, 1i32));
        },
        Expr::NumberLiteral(x) => {
            let row = atom_row(e, table)->Ok_0;
            assert(row[0] == (0usize, x));
        },
        _ => {},
    }
}

/// Every entry of the rows emitted for `l = r` uses the earliest index of
/// its name: where a name occurs twice in the table, no entry points at
/// the later occurrence.
pub proof fn lemma_rows_use_earliest(l: Expr, r: Expr, table: Seq<Seq<char>>)
    requires
        emit(l, r, table) is Ok,
        table.len() <= usize::MAX,
    ensures
        ({
            let (a, b, c) = emit(l, r, table)->Ok_0;
            row_uses_earliest(table, a) && row_uses_earliest(table, b) && row_uses_earliest(
                table,
                c,
            )
        }),
{
    assert(unit_row()[0] == (0usize, 1i32));
    match r {
        Expr::Mult(x, y) => {
            lemma_factor_row_earliest(*x, table);
            lemma_factor_row_earliest(*y, table);
            lemma_linear_row_earliest(l, table);
        },
        Expr::Div(x, y) => {
            lemma_linear_row_earliest(l, table);
            lemma_factor_row_earliest(*x, table);
            lemma_factor_row_earliest(*y, table);
        },
        Expr::NumberLiteral(_) => {
            lemma_factor_row_earliest(r, table);
            lemma_linear_row_earliest(l, table);
        },
        Expr::VariableReference(_) => {
            lemma_factor_row_earliest(r, table);
            lemma_linear_row_earliest(l, table);
        },
        Expr::Pow(_, _) => {},
        Expr::IfElse(_, _, _) => {},
        _ => {
            let (lhs, rhs) = normalize(l, r)->Ok_0;
            lemma_linear_row_earliest(rhs, table);
            lemma_linear_row_earliest(lhs, table);
        },
    }
}

proof fn lemma_count_names(e: Expr, top: bool)
    requires
        count(e, top) is Ok,
    ensures
        forall|v: Seq<char>| #[trigger] vars(e).contains(v) ==> keys(count(e, top)->Ok_0).contains(v),
    decreases e,
{
    let s = count(e, top)->Ok_0;
    match e {
        Expr::VariableReference(v) => {
            assert(keys(s)[0] == v);
            assert(vars(e) =~= set![v]);
        },
        Expr::Add(l, r) => {
            lemma_count_names(*l, false);
            lemma_count_names(*r, false);
            let sl = count(*l, false)->Ok_0;
            let sr = count(*r, false)->Ok_0;
            lemma_merge(sl, sr);
            assert(s == merge(sl, sr)->Ok_0);
            assert(vars(e) == vars(*l) + vars(*r));
            assert forall|v: Seq<char>| #[trigger] vars(e).contains(v) implies keys(s).contains(v) by {
                if vars(*l).contains(v) {
                    assert(term_map(sl).contains_key(v));
                } else {
                    assert(term_map(sr).contains_key(v));
                }
                assert(term_map(s).contains_key(v));
            }
        },
        Expr::Mult(a, b) => {
            let t = weighted(*a, *b)->Some_0;
            assert(s == seq![t]);
            assert(keys(s)[0] == t.0);
            assert(vars(e) == vars(*a) + vars(*b));
            match *a {
                Expr::NumberLiteral(n) => match *b {
                    Expr::VariableReference(v) => {
                        assert(vars(e) =~= set![v]);
                    },
                    _ => {},
                },
                Expr::VariableReference(v) => match *b {
                    Expr::NumberLiteral(n) => {
                        assert(vars(e) =~= set![v]);
                    },
                    _ => {},
                },
                _ => {},
            }
        },
        _ => {},
    }
}

proof fn lemma_linear_row_names(e: Expr, table: Seq<Seq<char>>)
    requires
        linear_row(e, table) is Ok,
        table.len() <= usize::MAX,
    ensures
        forall|v: Seq<char>| #[trigger] vars(e).contains(v) ==> table.contains(v),
{
    let s = count(e, true)->Ok_0;
    lemma_count_names(e, true);
    lemma_row_of_earliest(s, table);
    assert forall|v: Seq<char>| #[trigger] vars(e).contains(v) implies table.contains(v) by {
        let k = choose|k: int| 0 <= k < keys(s).len() && keys(s)[k] == v;
        assert(s[k].0 == v);
    }
}

proof fn lemma_factor_row_names(e: Expr, table: Seq<Seq<char>>)
    requires
        factor_row(e, table) is Ok || atom_row(e, table) is Ok,
        table.len() <= usize::MAX,
    ensures
        forall|v: Seq<char>| #[trigger] vars(e).contains(v) ==> table.contains(v),
{
    match e {
        Expr::Add(_, _) => lemma_linear_row_names(e, table),
        Expr::VariableReference(v) => {
            lemma_index_of_earliest(table, v);
            assert(vars(e) =~= set![v]);
        },
        Expr::NumberLiteral(_) => {
            assert(vars(e) =~= Set::<Seq<char>>::empty());
        },
        _ => {},
    }
}

/// Rows are emitted for `l = r` only when every variable that `l` and `r`
/// name is in the table: a name never added to it makes the emission fail,
/// it is never resolved to a default index.
pub proof fn lemma_rows_need_names(l: Expr, r: Expr, table: Seq<Seq<char>>)
    requires
        emit(l, r, table) is Ok,
        table.len() <= usize::MAX,
    ensures
        forall|v: Seq<char>| #[trigger] (vars(l) + vars(r)).contains(v) ==> table.contains(v),
{
    match r {
        Expr::Mult(x, y) => {
            lemma_factor_row_names(*x, table);
            lemma_factor_row_names(*y, table);
            lemma_linear_row_names(l, table);
            assert(vars(r) == vars(*x) + vars(*y));
        },
        Expr::Div(x, y) => {
            assert(vars(r) == vars(*x) + vars(*y));
            lemma_linear_row_names(l, table);
            lemma_factor_row_names(*x, table);
            lemma_factor_row_names(*y, table);
        },
        Expr::NumberLiteral(_) => {
            lemma_factor_row_names(r, table);
            lemma_linear_row_names(l, table);
        },
        Expr::VariableReference(_) => {
            lemma_factor_row_names(r, table);
            lemma_linear_row_names(l, table);
        },
        Expr::Pow(_, _) => {},
        Expr::IfElse(_, _, _) => {},
        _ => {
            let (lhs, rhs) = normalize(l, r)->Ok_0;
            crate::normalize::lemma_normalize_shape(l, r);
            lemma_linear_row_names(rhs, table);
            lemma_linear_row_names(lhs, table);
            assert forall|v: Seq<char>| #[trigger] (vars(l) + vars(r)).contains(v) implies table.contains(v) by {
                assert((vars(lhs) + vars(rhs)).contains(v));
            }
        },
    }
}

/// The variables that the expressions of a statement name.
pub open spec fn statement_vars(s: Statement) -> Set<Seq<char>> {
    match s {
        Statement::Return(e) => vars(expr_view(e)),
        Statement::Definition(_, e) => vars(expr_view(e)),
        Statement::Condition(e1, e2) => vars(expr_view(e1)) + vars(expr_view(e2)),
    }
}

proof fn lemma_named_count_bound(stmts: Seq<Statement>)
    ensures
        named_count(stmts) <= stmts.len(),
    decreases stmts.len(),
{
    if stmts.len() > 0 {
        lemma_named_count_bound(stmts.drop_last());
    }
}

/// In a program, the rows of each statement use only the earliest index of
/// each name, and a statement only gets rows when every variable it names
/// is in the table by then: an argument, or a name added by it or an
/// earlier statement.
pub proof fn lemma_program_rows(args: Seq<Seq<char>>, stmts: Seq<Statement>, s: Statement)
    requires
        system(args, stmts.push(s)) is Ok,
        args.len() + stmts.len() + 2 <= usize::MAX,
    ensures
        ({
            let (t, a, b, c) = system(args, stmts.push(s))->Ok_0;
            &&& row_uses_earliest(t, a.last()) && row_uses_earliest(t, b.last())
                && row_uses_earliest(t, c.last())
            &&& forall|v: Seq<char>| #[trigger] statement_vars(s).contains(v) ==> t.contains(v)
        }),
{
    assert(stmts.push(s).drop_last() =~= stmts);
    lemma_statement_growth(args, stmts, s);
    lemma_system_size(args, stmts);
    lemma_named_count_bound(stmts);
    let t0 = system(args, stmts)->Ok_0.0;
    let t = statement_table(t0, s);
    let (l, r) = match s {
        Statement::Return(e) => (Expr::VariableReference(out_name()), expr_view(e)),
        Statement::Definition(n, e) => (Expr::VariableReference(n@), expr_view(e)),
        Statement::Condition(e1, e2) => (expr_view(e1), expr_view(e2)),
    };
    assert(statement_rows(t0, s) == emit(l, r, t));
    lemma_rows_use_earliest(l, r, t);
    lemma_rows_need_names(l, r, t);
    assert forall|v: Seq<char>| #[trigger] statement_vars(s).contains(v) implies t.contains(v) by {
        assert((vars(l) + vars(r)).contains(v));
    }
}

} // verus!
