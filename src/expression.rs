//! Expressions of a flattened program, and the errors of constraint emission.
use vstd::multiset::Multiset;
use vstd::prelude::*;

verus! {

/// An expression of a flattened program. Each child is owned by its parent.
#[derive(Debug)]
pub enum Expression {
    NumberLiteral(i32),
    VariableReference(String),
    Add(Box<Expression>, Box<Expression>),
    Sub(Box<Expression>, Box<Expression>),
    Mult(Box<Expression>, Box<Expression>),
    Div(Box<Expression>, Box<Expression>),
    Pow(Box<Expression>, Box<Expression>),
    IfElse(Box<Expression>, Box<Expression>, Box<Expression>),
}

/// An expression with names seen as character sequences.
pub enum Expr {
    NumberLiteral(i32),
    VariableReference(Seq<char>),
    Add(Box<Expr>, Box<Expr>),
    Sub(Box<Expr>, Box<Expr>),
    Mult(Box<Expr>, Box<Expr>),
    Div(Box<Expr>, Box<Expr>),
    Pow(Box<Expr>, Box<Expr>),
    IfElse(Box<Expr>, Box<Expr>, Box<Expr>),
}

/// The view of an expression.
pub open spec fn expr_view(e: Expression) -> Expr
    decreases e,
{
    match e {
        Expression::NumberLiteral(x) => Expr::NumberLiteral(x),
        Expression::VariableReference(v) => Expr::VariableReference(v@),
        Expression::Add(l, r) => Expr::Add(Box::new(expr_view(*l)), Box::new(expr_view(*r))),
        Expression::Sub(l, r) => Expr::Sub(Box::new(expr_view(*l)), Box::new(expr_view(*r))),
        Expression::Mult(l, r) => Expr::Mult(Box::new(expr_view(*l)), Box::new(expr_view(*r))),
        Expression::Div(l, r) => Expr::Div(Box::new(expr_view(*l)), Box::new(expr_view(*r))),
        Expression::Pow(l, r) => Expr::Pow(Box::new(expr_view(*l)), Box::new(expr_view(*r))),
        Expression::IfElse(c, t, f) => Expr::IfElse(
            Box::new(expr_view(*c)),
            Box::new(expr_view(*t)),
            Box::new(expr_view(*f)),
        ),
    }
}

/// Why a constraint could not be emitted.
#[derive(Debug)]
pub enum R1csError {
    /// An expression of a shape that flattening should have removed.
    UnsupportedShape(Expression),
    /// A name that the variable table does not hold.
    UnknownVariable(String),
    /// The linear-term counter was handed something other than a sum.
    PreconditionViolation(Expression),
    /// A coefficient left the range of `i32`.
    Overflow,
}

/// `R1csError` with names seen as character sequences.
pub enum Fault {
    UnsupportedShape(Expr),
    UnknownVariable(Seq<char>),
    PreconditionViolation(Expr),
    Overflow,
}

impl View for R1csError {
    type V = Fault;

    open spec fn view(&self) -> Fault {
        match self {
            R1csError::UnsupportedShape(e) => Fault::UnsupportedShape(expr_view(*e)),
            R1csError::UnknownVariable(n) => Fault::UnknownVariable(n@),
            R1csError::PreconditionViolation(e) => Fault::PreconditionViolation(expr_view(*e)),
            R1csError::Overflow => Fault::Overflow,
        }
    }
}

/// Name of the constant wire, index 0 of every variable table.
pub open spec fn one_name() -> Seq<char> {
    seq!['~', 'o', 'n', 'e']
}

/// Name of the wire that holds a function's return value.
pub open spec fn out_name() -> Seq<char> {
    seq!['~', 'o', 'u', 't']
}

/// The string `~one`.
pub fn one_string() -> (r: String)
    ensures
        r@ == one_name(),
{
    proof {
        reveal_strlit("~one");
    }
    "~one".to_owned()
}

/// The string `~out`.
pub fn out_string() -> (r: String)
    ensures
        r@ == out_name(),
{
    proof {
        reveal_strlit("~out");
    }
    "~out".to_owned()
}

/// Number of nodes of an expression.
pub open spec fn size(e: Expr) -> nat
    decreases e,
{
    match e {
        Expr::NumberLiteral(_) => 1,
        Expr::VariableReference(_) => 1,
        Expr::Add(l, r) => 1 + size(*l) + size(*r),
        Expr::Sub(l, r) => 1 + size(*l) + size(*r),
        Expr::Mult(l, r) => 1 + size(*l) + size(*r),
        Expr::Div(l, r) => 1 + size(*l) + size(*r),
        Expr::Pow(l, r) => 1 + size(*l) + size(*r),
        Expr::IfElse(c, t, f) => 1 + size(*c) + size(*t) + size(*f),
    }
}

/// A literal or a variable reference.
pub open spec fn is_terminal(e: Expr) -> bool {
    e is NumberLiteral || e is VariableReference
}

/// No `Sub` node occurs in `e`.
pub open spec fn no_sub(e: Expr) -> bool
    decreases e,
{
    match e {
        Expr::NumberLiteral(_) => true,
        Expr::VariableReference(_) => true,
        Expr::Add(l, r) => no_sub(*l) && no_sub(*r),
        Expr::Sub(_, _) => false,
        Expr::Mult(l, r) => no_sub(*l) && no_sub(*r),
        Expr::Div(l, r) => no_sub(*l) && no_sub(*r),
        Expr::Pow(l, r) => no_sub(*l) && no_sub(*r),
        Expr::IfElse(c, t, f) => no_sub(*c) && no_sub(*t) && no_sub(*f),
    }
}

/// The names of the variables that occur in `e`.
pub open spec fn vars(e: Expr) -> Set<Seq<char>>
    decreases e,
{
    match e {
        Expr::NumberLiteral(_) => Set::empty(),
        Expr::VariableReference(v) => set![v],
        Expr::Add(l, r) => vars(*l) + vars(*r),
        Expr::Sub(l, r) => vars(*l) + vars(*r),
        Expr::Mult(l, r) => vars(*l) + vars(*r),
        Expr::Div(l, r) => vars(*l) + vars(*r),
        Expr::Pow(l, r) => vars(*l) + vars(*r),
        Expr::IfElse(c, t, f) => vars(*c) + vars(*t) + vars(*f),
    }
}

/// The literals and variable references of an expression, each as often
/// as it occurs.
pub open spec fn leaves(e: Expr) -> Multiset<Expr>
    decreases e,
{
    match e {
        Expr::NumberLiteral(_) => Multiset::singleton(e),
        Expr::VariableReference(_) => Multiset::singleton(e),
        Expr::Add(l, r) => leaves(*l).add(leaves(*r)),
        Expr::Sub(l, r) => leaves(*l).add(leaves(*r)),
        Expr::Mult(l, r) => leaves(*l).add(leaves(*r)),
        Expr::Div(l, r) => leaves(*l).add(leaves(*r)),
        Expr::Pow(l, r) => leaves(*l).add(leaves(*r)),
        Expr::IfElse(c, t, f) => leaves(*c).add(leaves(*t)).add(leaves(*f)),
    }
}

/// Value of a polynomial expression when each variable takes the value that
/// `env` gives its name. Shapes other than sums, differences and products
/// have no polynomial meaning and are taken as 0.
pub open spec fn eval(e: Expr, env: spec_fn(Seq<char>) -> int) -> int
    decreases e,
{
    match e {
        Expr::NumberLiteral(x) => x as int,
        Expr::VariableReference(v) => env(v),
        Expr::Add(l, r) => eval(*l, env) + eval(*r, env),
        Expr::Sub(l, r) => eval(*l, env) - eval(*r, env),
        Expr::Mult(l, r) => eval(*l, env) * eval(*r, env),
        _ => 0,
    }
}

impl Expression {
    /// A copy of the expression.
    pub fn duplicate(&self) -> (r: Expression)
        ensures
            r == *self,
        decreases self,
    {
        match self {
            Expression::NumberLiteral(x) => Expression::NumberLiteral(*x),
            Expression::VariableReference(v) => Expression::VariableReference(v.clone()),
            Expression::Add(l, r) => Expression::Add(
                Box::new(l.duplicate()),
                Box::new(r.duplicate()),
            ),
            Expression::Sub(l, r) => Expression::Sub(
                Box::new(l.duplicate()),
                Box::new(r.duplicate()),
            ),
            Expression::Mult(l, r) => Expression::Mult(
                Box::new(l.duplicate()),
                Box::new(r.duplicate()),
            ),
            Expression::Div(l, r) => Expression::Div(
                Box::new(l.duplicate()),
                Box::new(r.duplicate()),
            ),
            Expression::Pow(l, r) => Expression::Pow(
                Box::new(l.duplicate()),
                Box::new(r.duplicate()),
            ),
            Expression::IfElse(c, t, f) => Expression::IfElse(
                Box::new(c.duplicate()),
                Box::new(t.duplicate()),
                Box::new(f.duplicate()),
            ),
        }
    }
}

} // verus!
