//! The evaluator: a post-order walk of the expression tree against a
//! caller-owned variable environment. Both children of an operation node are
//! evaluated before the node's operator is applied, so the root — the
//! loosest-binding operator — is applied last. Numeric behaviour belongs
//! entirely to the value domain: an operation the domain refuses surfaces as
//! an evaluation error, never a panic.
use crate::numeric::{BinOp, Numeric};
use crate::parse::{Expr, SpecExpr};
use vstd::prelude::*;

verus! {

/// The errors of evaluation.
#[derive(Debug, PartialEq)]
pub enum EvalError {
    /// A variable the environment does not bind.
    VariableNotFound(String),
    /// An operand pair the numeric domain refuses: overflow, division by
    /// zero, or an operation the domain does not carry.
    NumericFailure,
}

/// The mathematical shadow of an evaluation error.
pub enum SpecEvalError {
    VariableNotFound(Seq<char>),
    NumericFailure,
}

impl DeepView for EvalError {
    type V = SpecEvalError;

    open spec fn deep_view(&self) -> SpecEvalError {
        match self {
            EvalError::VariableNotFound(nm) => SpecEvalError::VariableNotFound(nm@),
            EvalError::NumericFailure => SpecEvalError::NumericFailure,
        }
    }
}

/// The map that a list of bindings denotes: a later binding of a name
/// overrides an earlier one.
pub closed spec fn spec_env<T>(entries: Seq<(String, T)>) -> Map<Seq<char>, T>
    decreases entries.len(),
{
    if entries.len() == 0 {
        Map::empty()
    } else {
        spec_env(entries.drop_last()).insert(entries.last().0@, entries.last().1)
    }
}

/// A binding removed nowhere else in the list does not change what the list
/// denotes for that name.
proof fn lemma_env_skip<T>(entries: Seq<(String, T)>, i: int, k: Seq<char>)
    requires
        0 <= i <= entries.len(),
        forall|j: int| i <= j < entries.len() ==> (#[trigger] entries[j]).0@ != k,
    ensures
        spec_env(entries).contains_key(k) == spec_env(entries.subrange(0, i)).contains_key(k),
        spec_env(entries).contains_key(k) ==> spec_env(entries)[k] == spec_env(
            entries.subrange(0, i),
        )[k],
    decreases entries.len() - i,
{
    if i < entries.len() {
        let shorter = entries.drop_last();
        assert(entries.subrange(0, entries.len() - 1) =~= shorter);
        assert(entries.last().0@ != k);
        assert forall|j: int| i <= j < shorter.len() implies (#[trigger] shorter[j]).0@ != k by {
            assert(shorter[j] == entries[j]);
        }
        lemma_env_skip(shorter, i, k);
        assert(shorter.subrange(0, i) =~= entries.subrange(0, i));
    } else {
        assert(entries.subrange(0, i) =~= entries);
    }
}

/// The caller-owned variable environment: a mapping from case-sensitive
/// names to values of the active numeric domain. The engine only reads it
/// during an evaluation; the caller may bind names between evaluations.
#[derive(Debug)]
pub struct Variables<T> {
    entries: Vec<(String, T)>,
}

impl<T> View for Variables<T> {
    type V = Map<Seq<char>, T>;

    closed spec fn view(&self) -> Map<Seq<char>, T> {
        spec_env(self.entries@)
    }
}

/// Whether two texts hold the same characters.
fn str_eq(a: &str, b: &str) -> (r: bool)
    ensures
        r == (a@ == b@),
{
    let na = a.unicode_len();
    let nb = b.unicode_len();
    if na != nb {
        return false;
    }
    let mut i: usize = 0;
    while i < na
        invariant
            i <= na == a@.len(),
            na == b@.len(),
            forall|j: int| 0 <= j < i ==> a@[j] == b@[j],
        decreases na - i,
    {
        if a.get_char(i) != b.get_char(i) {
            return false;
        }
        i += 1;
    }
    proof {
        assert(a@ =~= b@);
    }
    true
}

impl<T: Copy> Variables<T> {
    /// The empty environment.
    pub fn new() -> (r: Self)
        ensures
            r@ == Map::<Seq<char>, T>::empty(),
    {
        Variables { entries: Vec::new() }
    }

    /// Binds a name to a value, overriding any earlier binding of the name.
    pub fn insert(&mut self, name: String, value: T)
        ensures
            final(self)@ == old(self)@.insert(name@, value),
    {
        let ghost e0 = self.entries@;
        self.entries.push((name, value));
        proof {
            assert(self.entries@.drop_last() =~= e0);
        }
    }

    /// The value bound to a name, if any: the most recent binding wins.
    pub fn get(&self, name: &str) -> (r: Option<T>)
        ensures
            r == (if self@.contains_key(name@) {
                Some(self@[name@])
            } else {
                None::<T>
            }),
    {
        let n = self.entries.len();
        let mut i = n;
        while i > 0
            invariant
                i <= n == self.entries@.len(),
                forall|j: int|
                    i <= j < n ==> (#[trigger] self.entries@[j]).0@ != name@,
            decreases i,
        {
            i -= 1;
            if str_eq(self.entries[i].0.as_str(), name) {
                proof {
                    lemma_env_skip(self.entries@, i as int + 1, name@);
                    let pre = self.entries@.subrange(0, i as int + 1);
                    assert(pre.drop_last() =~= self.entries@.subrange(0, i as int));
                    assert(pre.last() == self.entries@[i as int]);
                }
                return Some(self.entries[i].1);
            }
        }
        proof {
            lemma_env_skip(self.entries@, 0, name@);
            assert(self.entries@.subrange(0, 0) =~= Seq::<(String, T)>::empty());
        }
        None
    }
}

/// The combination of two evaluated sides by an operator: the left error
/// first, then the right, then the domain's verdict on the pair.
pub open spec fn spec_eval_combine<T: Numeric>(
    ra: Result<T, SpecEvalError>,
    rb: Result<T, SpecEvalError>,
    op: BinOp,
) -> Result<T, SpecEvalError> {
    match ra {
        Err(e) => Err(e),
        Ok(va) => match rb {
            Err(e) => Err(e),
            Ok(vb) => match va.spec_apply(op, vb) {
                Some(v) => Ok(v),
                None => Err(SpecEvalError::NumericFailure),
            },
        },
    }
}

/// What evaluating a tree against an environment yields: a literal is its
/// value, a variable is looked up by its exact name, and an operation node
/// evaluates its left child, then its right child, then applies its
/// operator.
pub open spec fn spec_eval<T: Numeric>(e: SpecExpr<T>, env: Map<Seq<char>, T>) -> Result<
    T,
    SpecEvalError,
>
    decreases e,
{
    match e {
        SpecExpr::Value(v) => Ok(v),
        SpecExpr::Variable(nm) => if env.contains_key(nm) {
            Ok(env[nm])
        } else {
            Err(SpecEvalError::VariableNotFound(nm))
        },
        SpecExpr::Add(a, b) => spec_eval_combine(spec_eval(*a, env), spec_eval(*b, env), BinOp::Add),
        SpecExpr::Sub(a, b) => spec_eval_combine(spec_eval(*a, env), spec_eval(*b, env), BinOp::Sub),
        SpecExpr::Mul(a, b) => spec_eval_combine(spec_eval(*a, env), spec_eval(*b, env), BinOp::Mul),
        SpecExpr::Div(a, b) => spec_eval_combine(spec_eval(*a, env), spec_eval(*b, env), BinOp::Div),
        SpecExpr::Pow(a, b) => spec_eval_combine(spec_eval(*a, env), spec_eval(*b, env), BinOp::Pow),
    }
}

/// Evaluates an expression tree, post-order, against the environment.
pub fn eval_expr<T: Numeric>(expr: &Expr<T>, variables: &Variables<T>) -> (r: Result<T, EvalError>)
    ensures
        match r {
            Ok(v) => spec_eval(expr.deep_view(), variables@) == Ok::<_, SpecEvalError>(v),
            Err(e) => spec_eval(expr.deep_view(), variables@) == Err::<T, _>(e.deep_view()),
        },
    decreases expr,
{
    match expr {
        Expr::Value(v) => Ok(*v),
        Expr::Variable(nm) => match variables.get(nm.as_str()) {
            Some(v) => Ok(v),
            None => Err(EvalError::VariableNotFound(nm.clone())),
        },
        Expr::Add(a, b) => {
            let va = match eval_expr(&**a, variables) {
                Ok(v) => v,
                Err(e) => {
                    return Err(e);
                },
            };
            let vb = match eval_expr(&**b, variables) {
                Ok(v) => v,
                Err(e) => {
                    return Err(e);
                },
            };
            match va.apply_op(BinOp::Add, vb) {
                Some(v) => Ok(v),
                None => Err(EvalError::NumericFailure),
            }
        },
        Expr::Sub(a, b) => {
            let va = match eval_expr(&**a, variables) {
                Ok(v) => v,
                Err(e) => {
                    return Err(e);
                },
            };
            let vb = match eval_expr(&**b, variables) {
                Ok(v) => v,
                Err(e) => {
                    return Err(e);
                },
            };
            match va.apply_op(BinOp::Sub, vb) {
                Some(v) => Ok(v),
                None => Err(EvalError::NumericFailure),
            }
        },
        Expr::Mul(a, b) => {
            let va = match eval_expr(&**a, variables) {
                Ok(v) => v,
                Err(e) => {
                    return Err(e);
                },
            };
            let vb = match eval_expr(&**b, variables) {
                Ok(v) => v,
                Err(e) => {
                    return Err(e);
                },
            };
            match va.apply_op(BinOp::Mul, vb) {
                Some(v) => Ok(v),
                None => Err(EvalError::NumericFailure),
            }
        },
        Expr::Div(a, b) => {
            let va = match eval_expr(&**a, variables) {
                Ok(v) => v,
                Err(e) => {
                    return Err(e);
                },
            };
            let vb = match eval_expr(&**b, variables) {
                Ok(v) => v,
                Err(e) => {
                    return Err(e);
                },
            };
            match va.apply_op(BinOp::Div, vb) {
                Some(v) => Ok(v),
                None => Err(EvalError::NumericFailure),
            }
        },
        Expr::Pow(a, b) => {
            let va = match eval_expr(&**a, variables) {
                Ok(v) => v,
                Err(e) => {
                    return Err(e);
                },
            };
            let vb = match eval_expr(&**b, variables) {
                Ok(v) => v,
                Err(e) => {
                    return Err(e);
                },
            };
            match va.apply_op(BinOp::Pow, vb) {
                Some(v) => Ok(v),
                None => Err(EvalError::NumericFailure),
            }
        },
    }
}

} // verus!
