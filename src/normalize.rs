//! The equality normalizer: rewrites `lhs = rhs` into an equality without
//! subtraction by moving terms across the equals sign.
use crate::expression::{
    eval, expr_view, is_terminal, leaves, no_sub, size, vars, Expr, Expression, Fault, R1csError,
};
use crate::linear::weighted;
use vstd::prelude::*;

verus! {

/// A literal times a variable, in either order.
pub open spec fn weighted_term(e: Expr) -> bool {
    match e {
        Expr::Mult(x, y) => weighted(*x, *y) is Some,
        _ => false,
    }
}

/// Pairs that are already canonical and come back unchanged: two
/// terminals, or a variable against a literal times a variable.
pub open spec fn canonical_pair(l: Expr, r: Expr) -> bool {
    (is_terminal(l) && is_terminal(r)) || (l is VariableReference && weighted_term(r)) || (
    weighted_term(l) && r is VariableReference)
}

/// Whether the normalizer gives `l = r` back as `l' = r'` with
/// `l' - r' = l - r` (1), or with the sides exchanged, `l' - r' = r - l`
/// (-1): the latter when the sum or difference stands on the left.
pub open spec fn orientation(l: Expr, r: Expr) -> int {
    if canonical_pair(l, r) || is_terminal(l) {
        1
    } else {
        -1
    }
}

/// The normalized pair `(a, b)` of `l = r`, put back in the orientation of
/// `l = r`.
pub open spec fn oriented(l: Expr, r: Expr, a: Expr, b: Expr) -> (Expr, Expr) {
    if orientation(l, r) == 1 {
        (a, b)
    } else {
        (b, a)
    }
}

/// The side of an uncovered pair that is reported.
pub open spec fn offending(l: Expr, r: Expr) -> Expr {
    if is_terminal(l) {
        r
    } else {
        l
    }
}

/// The normalizer run with at most `fuel` nested steps (`None` when that is
/// not enough). A terminal `t` against `left + right` becomes, from
/// `t = right` normalized to `(l1, r1)` and `l1 = left` normalized and
/// oriented to `(p, q)`, the pair `(p, q + r1)`; a terminal `t` against
/// `a - b` becomes, from `a = b` normalized and oriented to `(p, q)`, the
/// pair `(t + q, p)`. Either side may hold the terminal; every other pair
/// that is not canonical is an unsupported shape.
pub open spec fn swap_fuel(l: Expr, r: Expr, fuel: nat) -> Option<
    Result<(Expr, Expr), Fault>,
>
    decreases fuel,
{
    if fuel == 0 {
        None
    } else if canonical_pair(l, r) {
        Some(Ok((l, r)))
    } else {
        let t = if is_terminal(l) {
            l
        } else {
            r
        };
        let other = if is_terminal(l) {
            r
        } else {
            l
        };
        if !is_terminal(t) {
            Some(Err(Fault::UnsupportedShape(offending(l, r))))
        } else {
            match other {
                Expr::Add(left, right) => match swap_fuel(t, *right, (fuel - 1) as nat) {
                    None => None,
                    Some(Err(f)) => Some(Err(f)),
                    Some(Ok((l1, r1))) => match swap_fuel(l1, *left, (fuel - 1) as nat) {
                        None => None,
                        Some(Err(f)) => Some(Err(f)),
                        Some(Ok((l2, r2))) => {
                            let (p, q) = oriented(l1, *left, l2, r2);
                            Some(Ok((p, Expr::Add(Box::new(q), Box::new(r1)))))
                        },
                    },
                },
                Expr::Sub(a, b) => match swap_fuel(*a, *b, (fuel - 1) as nat) {
                    None => None,
                    Some(Err(f)) => Some(Err(f)),
                    Some(Ok((x, y))) => {
                        let (p, q) = oriented(*a, *b, x, y);
                        Some(Ok((Expr::Add(Box::new(t), Box::new(q)), p)))
                    },
                },
                _ => Some(Err(Fault::UnsupportedShape(offending(l, r)))),
            }
        }
    }
}

/// The normalized form of `l = r`. The fuel given, the number of nodes of
/// both sides, is always enough: `swap_sub` computes a result for every
/// input and proves it equal to `swap_fuel` at that fuel.
pub open spec fn normalize(l: Expr, r: Expr) -> Result<(Expr, Expr), Fault> {
    match swap_fuel(l, r, size(l) + size(r)) {
        Some(x) => x,
        None => Err(Fault::UnsupportedShape(l)),
    }
}

/// More fuel than enough changes nothing.
pub proof fn lemma_swap_fuel_mono(l: Expr, r: Expr, f1: nat, f2: nat)
    requires
        f1 <= f2,
        swap_fuel(l, r, f1) is Some,
    ensures
        swap_fuel(l, r, f2) == swap_fuel(l, r, f1),
    decreases f1,
{
    if !canonical_pair(l, r) {
        let t = if is_terminal(l) {
            l
        } else {
            r
        };
        let other = if is_terminal(l) {
            r
        } else {
            l
        };
        if is_terminal(t) {
            match other {
                Expr::Add(left, right) => {
                    lemma_swap_fuel_mono(t, *right, (f1 - 1) as nat, (f2 - 1) as nat);
                    match swap_fuel(t, *right, (f1 - 1) as nat) {
                        Some(Ok((l1, r1))) => {
                            lemma_swap_fuel_mono(l1, *left, (f1 - 1) as nat, (f2 - 1) as nat);
                        },
                        _ => {},
                    }
                },
                Expr::Sub(a, b) => {
                    lemma_swap_fuel_mono(*a, *b, (f1 - 1) as nat, (f2 - 1) as nat);
                },
                _ => {},
            }
        }
    }
}

/// The view of an exec result of the normalizer.
pub open spec fn pair_result(r: Result<(Expression, Expression), R1csError>) -> Result<(Expr, Expr), Fault> {
    match r {
        Ok(p) => Ok((expr_view(p.0), expr_view(p.1))),
        Err(e) => Err(e@),
    }
}

fn terminal(e: &Expression) -> (b: bool)
    ensures
        b == is_terminal(expr_view(*e)),
{
    match e {
        Expression::NumberLiteral(_) => true,
        Expression::VariableReference(_) => true,
        _ => false,
    }
}

fn is_weighted(e: &Expression) -> (b: bool)
    ensures
        b == weighted_term(expr_view(*e)),
{
    match e {
        Expression::Mult(x, y) => {
            let ghost vx = expr_view(**x);
            let ghost vy = expr_view(**y);
            assert(expr_view(*e) == Expr::Mult(Box::new(vx), Box::new(vy)));
            match (&**x, &**y) {
                (Expression::NumberLiteral(n), Expression::VariableReference(v)) => {
                    assert(vx == Expr::NumberLiteral(*n));
                    assert(vy == Expr::VariableReference(v@));
                    true
                },
                (Expression::VariableReference(v), Expression::NumberLiteral(n)) => {
                    assert(vy == Expr::NumberLiteral(*n));
                    assert(vx == Expr::VariableReference(v@));
                    true
                },
                _ => {
                    assert(weighted(vx, vy) is None) by {
                        reveal_with_fuel(expr_view, 2);
                    }
                    false
                },
            }
        },
        _ => false,
    }
}

fn canonical(l: &Expression, r: &Expression) -> (b: bool)
    ensures
        b == canonical_pair(expr_view(*l), expr_view(*r)),
{
    (terminal(l) && terminal(r)) || (matches!(l, Expression::VariableReference(_)) && is_weighted(
        r,
    )) || (is_weighted(l) && matches!(r, Expression::VariableReference(_)))
}

fn keeps_orientation(l: &Expression, r: &Expression) -> (b: bool)
    ensures
        b == (orientation(expr_view(*l), expr_view(*r)) == 1),
{
    canonical(l, r) || terminal(l)
}

/// Rewrites `lhs = rhs` as `swap_fuel` does. The two sides together keep
/// their number of nodes.
fn swap_rec(lhs: &Expression, rhs: &Expression) -> (r: Result<
    (Expression, Expression),
    R1csError,
>)
    ensures
        swap_fuel(expr_view(*lhs), expr_view(*rhs), size(expr_view(*lhs)) + size(expr_view(*rhs)))
            == Some(pair_result(r)),
        pair_result(r) == normalize(expr_view(*lhs), expr_view(*rhs)),
        r matches Ok((a, b)) ==> size(expr_view(a)) + size(expr_view(b)) == size(expr_view(*lhs))
            + size(expr_view(*rhs)),
    decreases size(expr_view(*lhs)) + size(expr_view(*rhs)),
{
    let ghost fuel: nat = size(expr_view(*lhs)) + size(expr_view(*rhs));
    assert(size(expr_view(*lhs)) >= 1 && size(expr_view(*rhs)) >= 1);
    if canonical(lhs, rhs) {
        return Ok((lhs.duplicate(), rhs.duplicate()));
    }
    let lt = terminal(lhs);
    let t = if lt {
        lhs
    } else {
        rhs
    };
    let other = if lt {
        rhs
    } else {
        lhs
    };
    if terminal(t) {
        match other {
            Expression::Add(left, right) => {
                let (l1, r1) = match swap_rec(t, right) {
                    Ok(p) => p,
                    Err(f) => {
                        proof {
                            lemma_swap_fuel_mono(expr_view(*t), expr_view(**right), size(expr_view(*t)) + size(expr_view(**right)), (fuel - 1) as nat);
                        }
                        return Err(f);
                    },
                };
                proof {
                    lemma_swap_fuel_mono(expr_view(*t), expr_view(**right), size(expr_view(*t)) + size(expr_view(**right)), (fuel - 1) as nat);
                }
                let (l2, r2) = match swap_rec(&l1, left) {
                    Ok(p) => p,
                    Err(f) => {
                        proof {
                            lemma_swap_fuel_mono(expr_view(l1), expr_view(**left), size(expr_view(l1)) + size(expr_view(**left)), (fuel - 1) as nat);
                        }
                        return Err(f);
                    },
                };
                proof {
                    lemma_swap_fuel_mono(expr_view(l1), expr_view(**left), size(expr_view(l1)) + size(expr_view(**left)), (fuel - 1) as nat);
                }
                let (p, q) = if keeps_orientation(&l1, left) {
                    (l2, r2)
                } else {
                    (r2, l2)
                };
                return Ok((p, Expression::Add(Box::new(q), Box::new(r1))));
            },
            Expression::Sub(a, b) => {
                let (x, y) = match swap_rec(a, b) {
                    Ok(p) => p,
                    Err(f) => {
                        proof {
                            lemma_swap_fuel_mono(expr_view(**a), expr_view(**b), size(expr_view(**a)) + size(expr_view(**b)), (fuel - 1) as nat);
                        }
                        return Err(f);
                    },
                };
                proof {
                    lemma_swap_fuel_mono(expr_view(**a), expr_view(**b), size(expr_view(**a)) + size(expr_view(**b)), (fuel - 1) as nat);
                }
                let (p, q) = if keeps_orientation(a, b) {
                    (x, y)
                } else {
                    (y, x)
                };
                return Ok((Expression::Add(Box::new(t.duplicate()), Box::new(q)), p));
            },
            _ => {},
        }
    }
    if lt {
        Err(R1csError::UnsupportedShape(rhs.duplicate()))
    } else {
        Err(R1csError::UnsupportedShape(lhs.duplicate()))
    }
}

proof fn lemma_weighted_no_sub(e: Expr)
    requires
        weighted_term(e) || is_terminal(e),
    ensures
        no_sub(e),
{
    match e {
        Expr::Mult(x, y) => {
            assert(is_terminal(*x) && is_terminal(*y));
            assert(no_sub(*x) && no_sub(*y));
        },
        _ => {},
    }
}

proof fn lemma_swap_shape(l: Expr, r: Expr, fuel: nat)
    requires
        swap_fuel(l, r, fuel) matches Some(Ok(_)),
    ensures
        ({
            let (a, b) = swap_fuel(l, r, fuel)->Some_0->Ok_0;
            &&& no_sub(a) && no_sub(b)
            &&& vars(a) + vars(b) == vars(l) + vars(r)
            &&& leaves(a).add(leaves(b)) == leaves(l).add(leaves(r))
        }),
    decreases fuel,
{
    if canonical_pair(l, r) {
        lemma_weighted_no_sub(l);
        lemma_weighted_no_sub(r);
    } else {
        let t = if is_terminal(l) {
            l
        } else {
            r
        };
        let other = if is_terminal(l) {
            r
        } else {
            l
        };
        assert(vars(l) + vars(r) =~= vars(t) + vars(other));
        assert(leaves(l).add(leaves(r)) =~= leaves(t).add(leaves(other)));
        match other {
            Expr::Add(left, right) => {
                lemma_swap_shape(t, *right, (fuel - 1) as nat);
                let (l1, r1) = swap_fuel(t, *right, (fuel - 1) as nat)->Some_0->Ok_0;
                lemma_swap_shape(l1, *left, (fuel - 1) as nat);
                let (l2, r2) = swap_fuel(l1, *left, (fuel - 1) as nat)->Some_0->Ok_0;
                let (p, q) = oriented(l1, *left, l2, r2);
                assert((p == l2 && q == r2) || (p == r2 && q == l2));
                let out = Expr::Add(Box::new(q), Box::new(r1));
                assert(vars(out) == vars(q) + vars(r1));
                assert(vars(other) == vars(*left) + vars(*right));
                assert(leaves(out) == leaves(q).add(leaves(r1)));
                assert(leaves(other) == leaves(*left).add(leaves(*right)));
                let s1 = vars(l1) + vars(r1);
                let s2 = vars(l2) + vars(r2);
                assert(s1 == vars(t) + vars(*right));
                assert(s2 == vars(l1) + vars(*left));
                assert(vars(p) + vars(q) =~= vars(l2) + vars(r2));
                let lhs_set = vars(l2) + vars(r2) + vars(r1);
                let rhs_set = vars(t) + (vars(*left) + vars(*right));
                assert forall|x: Seq<char>| #[trigger] lhs_set.contains(x) == rhs_set.contains(x) by {
                    assert(s1.contains(x) == (vars(l1).contains(x) || vars(r1).contains(x)));
                    assert(s1.contains(x) == (vars(t).contains(x) || vars(*right).contains(x)));
                    assert(s2.contains(x) == (vars(l2).contains(x) || vars(r2).contains(x)));
                    assert(s2.contains(x) == (vars(l1).contains(x) || vars(*left).contains(x)));
                }
                assert(vars(p) + vars(out) =~= vars(l2) + vars(r2) + vars(r1));
                assert(lhs_set =~= rhs_set);
                assert(vars(p) + vars(out) == vars(t) + vars(other));
                let m1 = leaves(l1).add(leaves(r1));
                let m2 = leaves(l2).add(leaves(r2));
                assert(m1 == leaves(t).add(leaves(*right)));
                assert(m2 == leaves(l1).add(leaves(*left)));
                assert(leaves(p).add(leaves(q)) =~= leaves(l2).add(leaves(r2)));
                assert forall|x: Expr| #[trigger] leaves(l2).count(x) + leaves(r2).count(x) + leaves(
                    r1,
                ).count(x) == leaves(t).count(x) + leaves(*left).count(x) + leaves(*right).count(
                    x,
                ) by {
                    assert(m1.count(x) == leaves(l1).count(x) + leaves(r1).count(x));
                    assert(m1.count(x) == leaves(t).count(x) + leaves(*right).count(x));
                    assert(m2.count(x) == leaves(l2).count(x) + leaves(r2).count(x));
                    assert(m2.count(x) == leaves(l1).count(x) + leaves(*left).count(x));
                }
                assert(leaves(p).add(leaves(out)) =~= leaves(l2).add(leaves(r2)).add(leaves(r1)));
                assert(leaves(p).add(leaves(out)) =~= leaves(l).add(leaves(r)));
                assert(no_sub(p) && no_sub(q) && no_sub(r1));
                assert(no_sub(out));
                assert(swap_fuel(l, r, fuel)->Some_0->Ok_0 == (p, out));
            },
            Expr::Sub(a, b) => {
                lemma_swap_shape(*a, *b, (fuel - 1) as nat);
                let (x, y) = swap_fuel(*a, *b, (fuel - 1) as nat)->Some_0->Ok_0;
                let (p, q) = oriented(*a, *b, x, y);
                let out = Expr::Add(Box::new(t), Box::new(q));
                assert(vars(out) == vars(t) + vars(q));
                assert(vars(other) == vars(*a) + vars(*b));
                assert(vars(x) + vars(y) =~= vars(p) + vars(q));
                assert(vars(out) + vars(p) =~= vars(l) + vars(r));
                assert(leaves(out) == leaves(t).add(leaves(q)));
                assert(leaves(other) == leaves(*a).add(leaves(*b)));
                assert(leaves(x).add(leaves(y)) =~= leaves(p).add(leaves(q)));
                assert(leaves(out).add(leaves(p)) =~= leaves(l).add(leaves(r)));
                assert(no_sub(p) && no_sub(q) && no_sub(t));
                assert(no_sub(out));
                assert(swap_fuel(l, r, fuel)->Some_0->Ok_0 == (out, p));
            },
            _ => {},
        }
    }
}

/// The normalized equality holds no subtraction, speaks of the same
/// variables as the input, and holds the same literals and variables as
/// leaves, each as often: terms only move across the equals sign.
pub proof fn lemma_normalize_shape(l: Expr, r: Expr)
    requires
        normalize(l, r) is Ok,
    ensures
        ({
            let (a, b) = normalize(l, r)->Ok_0;
            &&& no_sub(a) && no_sub(b)
            &&& vars(a) + vars(b) == vars(l) + vars(r)
            &&& leaves(a).add(leaves(b)) == leaves(l).add(leaves(r))
        }),
{
    lemma_swap_shape(l, r, size(l) + size(r));
}

proof fn lemma_swap_meaning(l: Expr, r: Expr, fuel: nat, env: spec_fn(Seq<char>) -> int)
    requires
        swap_fuel(l, r, fuel) matches Some(Ok(_)),
    ensures
        ({
            let (a, b) = swap_fuel(l, r, fuel)->Some_0->Ok_0;
            if orientation(l, r) == 1 {
                eval(a, env) - eval(b, env) == eval(l, env) - eval(r, env)
            } else {
                eval(a, env) - eval(b, env) == eval(r, env) - eval(l, env)
            }
        }),
    decreases fuel,
{
    if !canonical_pair(l, r) {
        let t = if is_terminal(l) {
            l
        } else {
            r
        };
        let other = if is_terminal(l) {
            r
        } else {
            l
        };
        match other {
            Expr::Add(left, right) => {
                lemma_swap_meaning(t, *right, (fuel - 1) as nat, env);
                let (l1, r1) = swap_fuel(t, *right, (fuel - 1) as nat)->Some_0->Ok_0;
                lemma_swap_meaning(l1, *left, (fuel - 1) as nat, env);
                let (l2, r2) = swap_fuel(l1, *left, (fuel - 1) as nat)->Some_0->Ok_0;
                let (p, q) = oriented(l1, *left, l2, r2);
                assert(eval(p, env) - eval(q, env) == eval(l1, env) - eval(*left, env));
                assert(eval(Expr::Add(Box::new(q), Box::new(r1)), env) == eval(q, env) + eval(
                    r1,
                    env,
                ));
                assert(eval(other, env) == eval(*left, env) + eval(*right, env));
            },
            Expr::Sub(a, b) => {
                lemma_swap_meaning(*a, *b, (fuel - 1) as nat, env);
                let (x, y) = swap_fuel(*a, *b, (fuel - 1) as nat)->Some_0->Ok_0;
                let (p, q) = oriented(*a, *b, x, y);
                assert(eval(p, env) - eval(q, env) == eval(*a, env) - eval(*b, env));
                assert(eval(Expr::Add(Box::new(t), Box::new(q)), env) == eval(t, env) + eval(
                    q,
                    env,
                ));
                assert(eval(other, env) == eval(*a, env) - eval(*b, env));
            },
            _ => {},
        }
    }
}

/// The normalized equality holds under exactly the valuations under which
/// the input equality holds.
pub proof fn lemma_normalize_meaning(l: Expr, r: Expr, env: spec_fn(Seq<char>) -> int)
    requires
        normalize(l, r) is Ok,
    ensures
        ({
            let (a, b) = normalize(l, r)->Ok_0;
            (eval(a, env) == eval(b, env)) == (eval(l, env) == eval(r, env))
        }),
{
    lemma_swap_meaning(l, r, size(l) + size(r), env);
}

/// Rewrites `lhs = rhs` into an equality without subtraction (see
/// `swap_fuel`) that holds under exactly the same valuations, speaks of the
/// same variables and holds the same leaves.
pub fn swap_sub(lhs: &Expression, rhs: &Expression) -> (r: Result<
    (Expression, Expression),
    R1csError,
>)
    ensures
        pair_result(r) == normalize(expr_view(*lhs), expr_view(*rhs)),
        r matches Ok((a, b)) ==> {
            let (va, vb) = (expr_view(a), expr_view(b));
            let (vl, vr) = (expr_view(*lhs), expr_view(*rhs));
            &&& no_sub(va) && no_sub(vb)
            &&& vars(va) + vars(vb) == vars(vl) + vars(vr)
            &&& leaves(va).add(leaves(vb)) == leaves(vl).add(leaves(vr))
            &&& forall|env: spec_fn(Seq<char>) -> int|
                (#[trigger] eval(va, env) == eval(vb, env)) == (eval(vl, env) == eval(vr, env))
        },
{
    let r = swap_rec(lhs, rhs);
    proof {
        let (vl, vr) = (expr_view(*lhs), expr_view(*rhs));
        if normalize(vl, vr) is Ok {
            lemma_normalize_shape(vl, vr);
            assert forall|env: spec_fn(Seq<char>) -> int|
                (#[trigger] eval(normalize(vl, vr)->Ok_0.0, env) == eval(
                    normalize(vl, vr)->Ok_0.1,
                    env,
                )) == (eval(vl, env) == eval(vr, env)) by {
                lemma_normalize_meaning(vl, vr, env);
            }
        }
    }
    r
}

} // verus!
