//! The linear-term counter: a sum of literals, variables and weighted
//! variables reduced to one coefficient per name, the constant kept under
//! the name of the constant wire.
use crate::expression::{expr_view, one_name, one_string, Expr, Expression, Fault, R1csError};
use vstd::prelude::*;

verus! {

/// A name with its coefficient.
pub type Term = (Seq<char>, i32);

/// Terms with names seen as character sequences.
pub open spec fn terms_view(v: Seq<(String, i32)>) -> Seq<Term> {
    v.map_values(|t: (String, i32)| (t.0@, t.1))
}

/// The names of a sequence of terms.
pub open spec fn keys(s: Seq<Term>) -> Seq<Seq<char>> {
    s.map_values(|t: Term| t.0)
}

/// Position of the first occurrence of `k` in `s`.
pub open spec fn first_index(s: Seq<Seq<char>>, k: Seq<char>) -> Option<int>
    decreases s.len(),
{
    if s.len() == 0 {
        None
    } else {
        match first_index(s.drop_last(), k) {
            Some(i) => Some(i),
            None => if s.last() == k {
                Some(s.len() - 1)
            } else {
                None
            },
        }
    }
}

/// `first_index` finds the earliest occurrence, and only misses an absent name.
pub proof fn lemma_first_index(s: Seq<Seq<char>>, k: Seq<char>)
    ensures
        match first_index(s, k) {
            Some(i) => 0 <= i < s.len() && s[i] == k && forall|j: int| 0 <= j < i ==> s[j] != k,
            None => forall|j: int| 0 <= j < s.len() ==> s[j] != k,
        },
    decreases s.len(),
{
    if s.len() > 0 {
        let p = s.drop_last();
        lemma_first_index(p, k);
        assert(forall|j: int| 0 <= j < p.len() ==> p[j] == s[j]);
    }
}

/// Adds one term: the coefficient of an existing name grows, a new name is
/// appended.
pub open spec fn add_term(s: Seq<Term>, t: Term) -> Result<Seq<Term>, Fault> {
    match first_index(keys(s), t.0) {
        Some(i) => {
            let c = s[i].1 + t.1;
            if i32::MIN <= c <= i32::MAX {
                Ok(s.update(i, (t.0, c as i32)))
            } else {
                Err(Fault::Overflow)
            }
        },
        None => Ok(s.push(t)),
    }
}

/// Adds the terms of `s2`, in order, to `s1`.
pub open spec fn merge(s1: Seq<Term>, s2: Seq<Term>) -> Result<Seq<Term>, Fault>
    decreases s2.len(),
{
    if s2.len() == 0 {
        Ok(s1)
    } else {
        match merge(s1, s2.drop_last()) {
            Err(f) => Err(f),
            Ok(s) => add_term(s, s2.last()),
        }
    }
}

/// The terms of an expression. At the top (`top`) the expression must be a
/// literal, a variable or a sum; an operand of a sum may also be a literal
/// times a variable.
pub open spec fn count(e: Expr, top: bool) -> Result<Seq<Term>, Fault>
    decreases e,
{
    match e {
        Expr::NumberLiteral(x) => Ok(seq![(one_name(), x)]),
        Expr::VariableReference(v) => Ok(seq![(v, 1i32)]),
        Expr::Add(l, r) => match count(*l, false) {
            Err(f) => Err(f),
            Ok(sl) => match count(*r, false) {
                Err(f) => Err(f),
                Ok(sr) => merge(sl, sr),
            },
        },
        Expr::Mult(a, b) => if top {
            Err(Fault::PreconditionViolation(e))
        } else {
            match weighted(*a, *b) {
                Some(t) => Ok(seq![t]),
                None => Err(Fault::UnsupportedShape(e)),
            }
        },
        _ => if top {
            Err(Fault::PreconditionViolation(e))
        } else {
            Err(Fault::UnsupportedShape(e))
        },
    }
}

/// The term of a literal times a variable, in either order.
pub open spec fn weighted(a: Expr, b: Expr) -> Option<Term> {
    match a {
        Expr::NumberLiteral(n) => match b {
            Expr::VariableReference(v) => Some((v, n)),
            _ => None,
        },
        Expr::VariableReference(v) => match b {
            Expr::NumberLiteral(n) => Some((v, n)),
            _ => None,
        },
        _ => None,
    }
}

/// Once adding terms fails, adding more fails the same way.
proof fn lemma_merge_err_extends(s1: Seq<Term>, s2: Seq<Term>, n: int)
    requires
        0 <= n <= s2.len(),
        merge(s1, s2.take(n)) is Err,
    ensures
        merge(s1, s2) == merge(s1, s2.take(n)),
    decreases s2.len() - n,
{
    if n < s2.len() {
        assert(s2.take(n + 1).drop_last() =~= s2.take(n));
        lemma_merge_err_extends(s1, s2, n + 1);
    } else {
        assert(s2.take(n) =~= s2);
    }
}

/// The terms of an exec result, with names seen as character sequences.
pub open spec fn terms_result(r: Result<Vec<(String, i32)>, R1csError>) -> Result<Seq<Term>, Fault> {
    match r {
        Ok(v) => Ok(terms_view(v@)),
        Err(e) => Err(e@),
    }
}

/// Position of the first term named `k`.
fn find_key(s: &Vec<(String, i32)>, k: &String) -> (r: Option<usize>)
    ensures
        match r {
            Some(i) => first_index(keys(terms_view(s@)), k@) == Some(i as int) && i < s@.len()
                && s@[i as int].0@ == k@,
            None => first_index(keys(terms_view(s@)), k@) is None,
        },
{
    let ghost ks = keys(terms_view(s@));
    let mut i: usize = 0;
    while i < s.len()
        invariant
            i <= s.len(),
            ks == keys(terms_view(s@)),
            ks.len() == s.len(),
            forall|j: int| 0 <= j < ks.len() ==> ks[j] == s@[j].0@,
            forall|j: int| 0 <= j < i ==> ks[j] != k@,
        decreases s.len() - i,
    {
        if s[i].0 == *k {
            proof {
                assert(ks[i as int] == k@);
                lemma_first_index(ks, k@);
                match first_index(ks, k@) {
                    Some(i2) => {
                        if i2 < i {
                            assert(ks[i2] != k@);
                        } else if i2 > i {
                            assert(ks[i as int] != k@);
                        }
                    },
                    None => {
                        assert(ks[i as int] != k@);
                    },
                }
            }
            return Some(i);
        }
        i = i + 1;
    }
    proof {
        lemma_first_index(ks, k@);
    }
    None
}

/// Adds the terms of `s2`, in order, to `s1`.
fn merge_terms(s1: Vec<(String, i32)>, s2: &Vec<(String, i32)>) -> (r: Result<
    Vec<(String, i32)>,
    R1csError,
>)
    ensures
        terms_result(r) == merge(terms_view(s1@), terms_view(s2@)),
{
    let ghost v1 = terms_view(s1@);
    let ghost v2 = terms_view(s2@);
    let mut acc = s1;
    let mut i: usize = 0;
    while i < s2.len()
        invariant
            i <= s2.len(),
            v2 == terms_view(s2@),
            v1 == terms_view(s1@),
            merge(v1, v2.take(i as int)) == Ok::<Seq<Term>, Fault>(terms_view(acc@)),
        decreases s2.len() - i,
    {
        assert(v2.take(i + 1).drop_last() =~= v2.take(i as int));
        let ghost prev = terms_view(acc@);
        let k = &s2[i].0;
        let c = s2[i].1;
        match find_key(&acc, k) {
            Some(j) => {
                let old_c = acc[j].1;
                let sum = old_c as i64 + c as i64;
                if sum < i32::MIN as i64 || sum > i32::MAX as i64 {
                    proof {
                        assert(prev[j as int].1 == old_c);
                        assert(v2[i as int].1 == c);
                        assert(merge(v1, v2.take(i + 1)) == add_term(prev, v2[i as int]));
                        assert(add_term(prev, v2[i as int]) == Err::<Seq<Term>, Fault>(Fault::Overflow));
                        lemma_merge_err_extends(v1, v2, i + 1);
                    }
                    return Err(R1csError::Overflow);
                }
                acc.set(j, (k.clone(), sum as i32));
            },
            None => {
                acc.push((k.clone(), c));
            },
        }
        proof {
            assert(terms_view(acc@) =~= match add_term(prev, v2[i as int]) {
                Ok(s) => s,
                Err(_) => terms_view(acc@),
            });
        }
        i = i + 1;
    }
    assert(v2.take(i as int) =~= v2);
    Ok(acc)
}

/// A single term.
fn single(k: String, c: i32) -> (r: Vec<(String, i32)>)
    ensures
        terms_view(r@) == seq![(k@, c)],
{
    let r = vec![(k, c)];
    assert(terms_view(r@) =~= seq![(k@, c)]);
    r
}

/// The terms of `e`; see `count`.
fn count_terms(e: &Expression, top: bool) -> (r: Result<Vec<(String, i32)>, R1csError>)
    ensures
        terms_result(r) == count(expr_view(*e), top),
    decreases e,
{
    match e {
        Expression::NumberLiteral(x) => Ok(single(one_string(), *x)),
        Expression::VariableReference(v) => Ok(single(v.clone(), 1)),
        Expression::Add(l, r) => {
            let sl = match count_terms(l, false) {
                Ok(s) => s,
                Err(f) => return Err(f),
            };
            let sr = match count_terms(r, false) {
                Ok(s) => s,
                Err(f) => return Err(f),
            };
            merge_terms(sl, &sr)
        },
        Expression::Mult(a, b) => {
            if top {
                return Err(R1csError::PreconditionViolation(e.duplicate()));
            }
            let ghost va = expr_view(**a);
            let ghost vb = expr_view(**b);
            assert(expr_view(*e) == Expr::Mult(Box::new(va), Box::new(vb)));
            match (&**a, &**b) {
                (Expression::NumberLiteral(n), Expression::VariableReference(v)) => {
                    assert(va == Expr::NumberLiteral(*n));
                    assert(vb == Expr::VariableReference(v@));
                    Ok(single(v.clone(), *n))
                },
                (Expression::VariableReference(v), Expression::NumberLiteral(n)) => {
                    assert(vb == Expr::NumberLiteral(*n));
                    assert(va == Expr::VariableReference(v@));
                    Ok(single(v.clone(), *n))
                },
                _ => {
                    assert(weighted(va, vb) is None) by {
                        reveal_with_fuel(expr_view, 2);
                    }
                    Err(R1csError::UnsupportedShape(e.duplicate()))
                },
            }
        },
        _ => if top {
            Err(R1csError::PreconditionViolation(e.duplicate()))
        } else {
            Err(R1csError::UnsupportedShape(e.duplicate()))
        },
    }
}

/// Reduces a sum of literals, variables and weighted variables to its
/// terms: one per name, in order of first occurrence from the left, with
/// the constant under `~one`. Coefficients of a repeated name are added.
pub fn count_variables_add(expr: &Expression) -> (r: Result<Vec<(String, i32)>, R1csError>)
    ensures
        terms_result(r) == count(expr_view(*expr), true),
{
    count_terms(expr, true)
}

/// The total coefficient of `k` in a sequence of terms.
pub open spec fn coeff(s: Seq<Term>, k: Seq<char>) -> int
    decreases s.len(),
{
    if s.len() == 0 {
        0
    } else {
        coeff(s.drop_last(), k) + if s.last().0 == k {
            s.last().1 as int
        } else {
            0
        }
    }
}

/// The terms as a map from name to total coefficient.
pub open spec fn term_map(s: Seq<Term>) -> Map<Seq<char>, int> {
    Map::new(|k: Seq<char>| keys(s).contains(k), |k: Seq<char>| coeff(s, k))
}

/// Name-by-name sum of two coefficient maps.
pub open spec fn map_sum(m1: Map<Seq<char>, int>, m2: Map<Seq<char>, int>) -> Map<Seq<char>, int> {
    Map::new(
        |k: Seq<char>| m1.contains_key(k) || m2.contains_key(k),
        |k: Seq<char>|
            (if m1.contains_key(k) {
                m1[k]
            } else {
                0
            }) + (if m2.contains_key(k) {
                m2[k]
            } else {
                0
            }),
    )
}

proof fn lemma_coeff_absent(s: Seq<Term>, k: Seq<char>)
    requires
        !keys(s).contains(k),
    ensures
        coeff(s, k) == 0,
    decreases s.len(),
{
    if s.len() > 0 {
        assert(keys(s.drop_last()) =~= keys(s).drop_last());
        if keys(s.drop_last()).contains(k) {
            let j = choose|j: int| 0 <= j < keys(s.drop_last()).len() && keys(s.drop_last())[j] == k;
            assert(keys(s)[j] == k);
        }
        assert(keys(s)[s.len() - 1] == s.last().0);
        lemma_coeff_absent(s.drop_last(), k);
    }
}

proof fn lemma_coeff_update(s: Seq<Term>, i: int, c: i32, k: Seq<char>)
    requires
        0 <= i < s.len(),
    ensures
        coeff(s.update(i, (s[i].0, c)), k) == coeff(s, k) + if s[i].0 == k {
            c - s[i].1
        } else {
            0
        },
    decreases s.len(),
{
    let u = s.update(i, (s[i].0, c));
    if i == s.len() - 1 {
        assert(u.drop_last() =~= s.drop_last());
    } else {
        assert(u.drop_last() =~= s.drop_last().update(i, (s[i].0, c)));
        lemma_coeff_update(s.drop_last(), i, c, k);
    }
}

proof fn lemma_contains_push(s: Seq<Seq<char>>, x: Seq<char>, k: Seq<char>)
    ensures
        s.push(x).contains(k) == (s.contains(k) || k == x),
{
    if s.contains(k) {
        let j = choose|j: int| 0 <= j < s.len() && s[j] == k;
        assert(s.push(x)[j] == k);
    }
    if k == x {
        assert(s.push(x)[s.len() as int] == k);
    }
    if s.push(x).contains(k) {
        let j = choose|j: int| 0 <= j < s.push(x).len() && s.push(x)[j] == k;
        if j < s.len() {
            assert(s[j] == k);
        }
    }
}

/// Adding a term adds its coefficient to its name.
proof fn lemma_add_term(s: Seq<Term>, t: Term)
    requires
        add_term(s, t) is Ok,
    ensures
        forall|k: Seq<char>| #[trigger]
            keys(add_term(s, t)->Ok_0).contains(k) == (keys(s).contains(k) || k == t.0),
        forall|k: Seq<char>| #[trigger]
            coeff(add_term(s, t)->Ok_0, k) == coeff(s, k) + if t.0 == k {
                t.1 as int
            } else {
                0
            },
{
    let s2 = add_term(s, t)->Ok_0;
    lemma_first_index(keys(s), t.0);
    match first_index(keys(s), t.0) {
        Some(i) => {
            assert(s[i].0 == t.0);
            let c = (s[i].1 + t.1) as i32;
            assert(s2 == s.update(i, (s[i].0, c)));
            assert(keys(s2) =~= keys(s));
            assert forall|k: Seq<char>|
                #[trigger] coeff(s2, k) == coeff(s, k) + if t.0 == k {
                    t.1 as int
                } else {
                    0
                } by {
                lemma_coeff_update(s, i, c, k);
            }
            assert forall|k: Seq<char>| #[trigger]
                keys(s2).contains(k) == (keys(s).contains(k) || k == t.0) by {
                if k == t.0 {
                    assert(keys(s)[i] == k);
                }
            }
        },
        None => {
            assert(s2 =~= s.push(t));
            assert(s2.drop_last() =~= s);
            assert(keys(s2) =~= keys(s).push(t.0));
            assert forall|k: Seq<char>| #[trigger]
                keys(s2).contains(k) == (keys(s).contains(k) || k == t.0) by {
                lemma_contains_push(keys(s), t.0, k);
            }
        },
    }
}

/// Merging adds, name by name, the coefficients of both sequences.
pub proof fn lemma_merge(s1: Seq<Term>, s2: Seq<Term>)
    requires
        merge(s1, s2) is Ok,
    ensures
        term_map(merge(s1, s2)->Ok_0) == map_sum(term_map(s1), term_map(s2)),
    decreases s2.len(),
{
    let r = merge(s1, s2)->Ok_0;
    assert forall|k: Seq<char>| !keys(s1).contains(k) implies coeff(s1, k) == 0 by {
        lemma_coeff_absent(s1, k);
    }
    assert forall|k: Seq<char>| !keys(s2).contains(k) implies coeff(s2, k) == 0 by {
        lemma_coeff_absent(s2, k);
    }
    if s2.len() == 0 {
        assert(keys(s2) =~= Seq::<Seq<char>>::empty());
        assert(term_map(r) =~= map_sum(term_map(s1), term_map(s2)));
    } else {
        let p = s2.drop_last();
        let last = s2.last();
        lemma_merge(s1, p);
        let m = merge(s1, p)->Ok_0;
        lemma_add_term(m, last);
        assert(keys(s2) =~= keys(p).push(last.0));
        assert forall|k: Seq<char>| #[trigger]
            keys(s2).contains(k) == (keys(p).contains(k) || k == last.0) by {
            lemma_contains_push(keys(p), last.0, k);
        }
        assert forall|k: Seq<char>| !keys(p).contains(k) implies coeff(p, k) == 0 by {
            lemma_coeff_absent(p, k);
        }
        assert forall|k: Seq<char>| #[trigger] term_map(m).contains_key(k) implies term_map(m)[k]
            == coeff(m, k) by {}
        assert forall|k: Seq<char>| #[trigger]
            keys(m).contains(k) == (keys(s1).contains(k) || keys(p).contains(k)) by {
            assert(term_map(m).contains_key(k) == map_sum(term_map(s1), term_map(p)).contains_key(
                k,
            ));
        }
        assert forall|k: Seq<char>| #[trigger] coeff(m, k) == coeff(s1, k) + coeff(p, k) by {
            if !keys(m).contains(k) {
                lemma_coeff_absent(m, k);
            } else {
                assert(term_map(m)[k] == map_sum(term_map(s1), term_map(p))[k]);
            }
        }
        assert(term_map(r) =~= map_sum(term_map(s1), term_map(s2)));
    }
}

/// The count of a sum is, name by name, the sum of the counts of its
/// operands.
pub proof fn lemma_count_of_sum(l: Expr, r: Expr, top: bool)
    requires
        count(Expr::Add(Box::new(l), Box::new(r)), top) is Ok,
    ensures
        count(l, false) is Ok,
        count(r, false) is Ok,
        term_map(count(Expr::Add(Box::new(l), Box::new(r)), top)->Ok_0) == map_sum(
            term_map(count(l, false)->Ok_0),
            term_map(count(r, false)->Ok_0),
        ),
{
    lemma_merge(count(l, false)->Ok_0, count(r, false)->Ok_0);
}

/// Adding terms can only fail by overflow.
proof fn lemma_merge_err(s1: Seq<Term>, s2: Seq<Term>)
    ensures
        merge(s1, s2) is Err ==> merge(s1, s2) == Err::<Seq<Term>, Fault>(Fault::Overflow),
    decreases s2.len(),
{
    if s2.len() > 0 {
        lemma_merge_err(s1, s2.drop_last());
    }
}

/// Reordering the operands of a sum does not change its terms as a map
/// from name to coefficient; the reordered sum can only fail where a
/// coefficient leaves the range of `i32` on the way.
pub proof fn lemma_count_commutes(a: Expr, b: Expr)
    requires
        count(Expr::Add(Box::new(a), Box::new(b)), true) is Ok,
    ensures
        count(Expr::Add(Box::new(b), Box::new(a)), true) is Ok ==> term_map(
            count(Expr::Add(Box::new(a), Box::new(b)), true)->Ok_0,
        ) == term_map(count(Expr::Add(Box::new(b), Box::new(a)), true)->Ok_0),
        count(Expr::Add(Box::new(b), Box::new(a)), true) is Err ==> count(
            Expr::Add(Box::new(b), Box::new(a)),
            true,
        ) == Err::<Seq<Term>, Fault>(Fault::Overflow),
{
    lemma_count_of_sum(a, b, true);
    let ca = count(a, false)->Ok_0;
    let cb = count(b, false)->Ok_0;
    lemma_merge_err(cb, ca);
    if count(Expr::Add(Box::new(b), Box::new(a)), true) is Ok {
        lemma_count_of_sum(b, a, true);
        assert(map_sum(term_map(ca), term_map(cb)) =~= map_sum(term_map(cb), term_map(ca)));
    }
}

/// Regrouping the operands of a sum does not change its terms as a map
/// from name to coefficient; the regrouped sum can only fail where a
/// coefficient leaves the range of `i32` on the way.
pub proof fn lemma_count_associates(a: Expr, b: Expr, c: Expr)
    requires
        count(
            Expr::Add(Box::new(Expr::Add(Box::new(a), Box::new(b))), Box::new(c)),
            true,
        ) is Ok,
    ensures
        ({
            let left = Expr::Add(Box::new(Expr::Add(Box::new(a), Box::new(b))), Box::new(c));
            let right = Expr::Add(Box::new(a), Box::new(Expr::Add(Box::new(b), Box::new(c))));
            &&& count(right, true) is Ok ==> term_map(count(left, true)->Ok_0) == term_map(
                count(right, true)->Ok_0,
            )
            &&& count(right, true) is Err ==> count(right, true) == Err::<Seq<Term>, Fault>(
                Fault::Overflow,
            )
        }),
{
    let ab = Expr::Add(Box::new(a), Box::new(b));
    let bc = Expr::Add(Box::new(b), Box::new(c));
    let right = Expr::Add(Box::new(a), Box::new(bc));
    lemma_count_of_sum(ab, c, true);
    lemma_count_of_sum(a, b, false);
    let ca = count(a, false)->Ok_0;
    let cb = count(b, false)->Ok_0;
    let cc = count(c, false)->Ok_0;
    lemma_merge_err(cb, cc);
    if count(bc, false) is Ok {
        lemma_merge_err(ca, count(bc, false)->Ok_0);
    }
    if count(right, true) is Ok {
        lemma_count_of_sum(a, bc, true);
        lemma_count_of_sum(b, c, false);
        let ma = term_map(ca);
        let mb = term_map(cb);
        let mc = term_map(cc);
        assert(map_sum(map_sum(ma, mb), mc) =~= map_sum(ma, map_sum(mb, mc)));
    }
}

} // verus!
