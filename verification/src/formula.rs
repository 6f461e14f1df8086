use crate::rational::Rational;
use vstd::prelude::*;
use vstd::string::*;

verus! {

/// A full binary expression tree. Leaves carry `T`: a slot index (`usize`)
/// for the abstract shapes the enumerator produces, or a concrete card value
/// (`i64`) once a hand has been substituted in.
#[derive(Debug, PartialEq, Eq, Hash, PartialOrd, Ord)]
pub enum Formula<T> {
    Leaf(T),
    Add(Box<Formula<T>>, Box<Formula<T>>),
    Sub(Box<Formula<T>>, Box<Formula<T>>),
    Mul(Box<Formula<T>>, Box<Formula<T>>),
    Div(Box<Formula<T>>, Box<Formula<T>>),
}

/// A shape: an expression tree whose leaves are slot indices.
pub type IndexFormula = Formula<usize>;

/// An answer: an expression tree whose leaves are concrete card values.
pub type AssignedFormula = Formula<i64>;

/// Division by an operand that evaluates to exact rational zero. Recoverable:
/// the searches treat it as "skip this shape and permutation pair".
#[derive(Debug, Clone, Copy, PartialEq, Eq, Hash, PartialOrd, Ord)]
pub struct ZeroDivisionError;

impl ZeroDivisionError {
    /// The human-readable description of this error.
    pub fn message(&self) -> (s: String)
        ensures
            s@ == "division by zero"@,
    {
        let s = String::new();
        let mut out = s;
        out.append("division by zero");
        proof {
            assert(out@ =~= "division by zero"@);
        }
        out
    }
}

/// The leaves of `t`, read left to right.
pub open spec fn leaves<T>(t: Formula<T>) -> Seq<T>
    decreases t,
{
    match t {
        Formula::Leaf(v) => seq![v],
        Formula::Add(l, r) => leaves(*l) + leaves(*r),
        Formula::Sub(l, r) => leaves(*l) + leaves(*r),
        Formula::Mul(l, r) => leaves(*l) + leaves(*r),
        Formula::Div(l, r) => leaves(*l) + leaves(*r),
    }
}

/// Every leaf of `t` is a slot index below `n`.
pub open spec fn idx_ok(t: IndexFormula, n: int) -> bool
    decreases t,
{
    match t {
        Formula::Leaf(i) => i < n,
        Formula::Add(l, r) => idx_ok(*l, n) && idx_ok(*r, n),
        Formula::Sub(l, r) => idx_ok(*l, n) && idx_ok(*r, n),
        Formula::Mul(l, r) => idx_ok(*l, n) && idx_ok(*r, n),
        Formula::Div(l, r) => idx_ok(*l, n) && idx_ok(*r, n),
    }
}

/// The exact unreduced fraction `t` evaluates to over the card sequence
/// `vals`, as a (numerator, denominator) pair, or `None` on division by
/// exact zero. This is the mathematical meaning of a shape over a hand.
pub open spec fn eval_idx(t: IndexFormula, vals: Seq<i64>) -> Option<(int, int)>
    decreases t,
{
    match t {
        Formula::Leaf(i) => Some((vals[i as int] as int, 1int)),
        Formula::Add(l, r) => match (eval_idx(*l, vals), eval_idx(*r, vals)) {
            (Some(a), Some(b)) => Some((a.0 * b.1 + b.0 * a.1, a.1 * b.1)),
            _ => None,
        },
        Formula::Sub(l, r) => match (eval_idx(*l, vals), eval_idx(*r, vals)) {
            (Some(a), Some(b)) => Some((a.0 * b.1 - b.0 * a.1, a.1 * b.1)),
            _ => None,
        },
        Formula::Mul(l, r) => match (eval_idx(*l, vals), eval_idx(*r, vals)) {
            (Some(a), Some(b)) => Some((a.0 * b.0, a.1 * b.1)),
            _ => None,
        },
        Formula::Div(l, r) => match (eval_idx(*l, vals), eval_idx(*r, vals)) {
            (Some(a), Some(b)) => if b.0 == 0 {
                None
            } else {
                Some((a.0 * b.1, a.1 * b.0))
            },
            _ => None,
        },
    }
}

/// The exact unreduced fraction a value tree evaluates to, or `None` on
/// division by exact zero.
pub open spec fn eval_val(t: AssignedFormula) -> Option<(int, int)>
    decreases t,
{
    match t {
        Formula::Leaf(v) => Some((v as int, 1int)),
        Formula::Add(l, r) => match (eval_val(*l), eval_val(*r)) {
            (Some(a), Some(b)) => Some((a.0 * b.1 + b.0 * a.1, a.1 * b.1)),
            _ => None,
        },
        Formula::Sub(l, r) => match (eval_val(*l), eval_val(*r)) {
            (Some(a), Some(b)) => Some((a.0 * b.1 - b.0 * a.1, a.1 * b.1)),
            _ => None,
        },
        Formula::Mul(l, r) => match (eval_val(*l), eval_val(*r)) {
            (Some(a), Some(b)) => Some((a.0 * b.0, a.1 * b.1)),
            _ => None,
        },
        Formula::Div(l, r) => match (eval_val(*l), eval_val(*r)) {
            (Some(a), Some(b)) => if b.0 == 0 {
                None
            } else {
                Some((a.0 * b.1, a.1 * b.0))
            },
            _ => None,
        },
    }
}

/// `r` is `t` with each slot-index leaf replaced by the card it selects.
pub open spec fn is_assigned(t: IndexFormula, vals: Seq<i64>, r: AssignedFormula) -> bool
    decreases t,
{
    match (t, r) {
        (Formula::Leaf(i), Formula::Leaf(v)) => i < vals.len() && v == vals[i as int],
        (Formula::Add(l1, r1), Formula::Add(l2, r2)) => is_assigned(*l1, vals, *l2)
            && is_assigned(*r1, vals, *r2),
        (Formula::Sub(l1, r1), Formula::Sub(l2, r2)) => is_assigned(*l1, vals, *l2)
            && is_assigned(*r1, vals, *r2),
        (Formula::Mul(l1, r1), Formula::Mul(l2, r2)) => is_assigned(*l1, vals, *l2)
            && is_assigned(*r1, vals, *r2),
        (Formula::Div(l1, r1), Formula::Div(l2, r2)) => is_assigned(*l1, vals, *l2)
            && is_assigned(*r1, vals, *r2),
        _ => false,
    }
}

/// The magnitude of `x`, at least 1.
pub open spec fn mag1(x: int) -> int {
    if x >= 1 {
        x
    } else if x <= -1 {
        -x
    } else {
        1
    }
}

/// A bound on the numerator and denominator of every intermediate fraction
/// that evaluating `t` over `vals` can form: the computation stays free of
/// `i64` overflow whenever this bound is at most `i64::MAX`.
pub open spec fn mag_idx(t: IndexFormula, vals: Seq<i64>) -> int
    decreases t,
{
    match t {
        Formula::Leaf(i) => mag1(vals[i as int] as int),
        Formula::Add(l, r) => 2 * mag_idx(*l, vals) * mag_idx(*r, vals),
        Formula::Sub(l, r) => 2 * mag_idx(*l, vals) * mag_idx(*r, vals),
        Formula::Mul(l, r) => 2 * mag_idx(*l, vals) * mag_idx(*r, vals),
        Formula::Div(l, r) => 2 * mag_idx(*l, vals) * mag_idx(*r, vals),
    }
}

/// The same overflow bound for a value tree.
pub open spec fn mag_val(t: AssignedFormula) -> int
    decreases t,
{
    match t {
        Formula::Leaf(v) => mag1(v as int),
        Formula::Add(l, r) => 2 * mag_val(*l) * mag_val(*r),
        Formula::Sub(l, r) => 2 * mag_val(*l) * mag_val(*r),
        Formula::Mul(l, r) => 2 * mag_val(*l) * mag_val(*r),
        Formula::Div(l, r) => 2 * mag_val(*l) * mag_val(*r),
    }
}

pub proof fn lemma_mag_idx_pos(t: IndexFormula, vals: Seq<i64>)
    ensures
        mag_idx(t, vals) >= 1,
    decreases t,
{
    match t {
        Formula::Leaf(_) => {},
        Formula::Add(l, r) | Formula::Sub(l, r) | Formula::Mul(l, r) | Formula::Div(l, r) => {
            lemma_mag_idx_pos(*l, vals);
            lemma_mag_idx_pos(*r, vals);
            lemma_mag_parts(mag_idx(*l, vals), mag_idx(*r, vals));
        },
    }
}

pub proof fn lemma_mag_val_pos(t: AssignedFormula)
    ensures
        mag_val(t) >= 1,
    decreases t,
{
    match t {
        Formula::Leaf(_) => {},
        Formula::Add(l, r) | Formula::Sub(l, r) | Formula::Mul(l, r) | Formula::Div(l, r) => {
            lemma_mag_val_pos(*l);
            lemma_mag_val_pos(*r);
            lemma_mag_parts(mag_val(*l), mag_val(*r));
        },
    }
}

/// Size relations between a product bound and its factors.
proof fn lemma_mag_parts(a: int, b: int)
    by (nonlinear_arith)
    requires
        1 <= a,
        1 <= b,
    ensures
        a <= a * b,
        b <= a * b,
        1 <= a * b,
        a * b <= 2 * a * b,
        a <= 2 * a * b,
        b <= 2 * a * b,
{
}

/// Interval bounds on every product and sum a binary operation forms from
/// operands bounded by `a` and `b`.
proof fn lemma_op_bound(an: int, ad: int, bn: int, bd: int, a: int, b: int)
    by (nonlinear_arith)
    requires
        -a <= an <= a,
        -a <= ad <= a,
        -b <= bn <= b,
        -b <= bd <= b,
        1 <= a,
        1 <= b,
    ensures
        -(a * b) <= an * bd <= a * b,
        -(a * b) <= bn * ad <= a * b,
        -(a * b) <= an * bn <= a * b,
        -(a * b) <= ad * bd <= a * b,
        -(a * b) <= ad * bn <= a * b,
        -(2 * a * b) <= an * bd + bn * ad <= 2 * a * b,
        -(2 * a * b) <= an * bd - bn * ad <= 2 * a * b,
{
}

impl IndexFormula {
    /// Evaluate this shape over the card sequence `values`, substituting
    /// `values[slot]` for each leaf, with exact rational arithmetic.
    /// Fails exactly when some division's right operand is exact zero.
    pub fn apply(&self, values: &[i64]) -> (res: Result<Rational, ZeroDivisionError>)
        requires
            idx_ok(*self, values@.len() as int),
            mag_idx(*self, values@) <= i64::MAX as int,
        ensures
            (match res {
                Ok(r) => {
                    &&& eval_idx(*self, values@) == Some((r.num(), r.den()))
                    &&& r.wf()
                    &&& mag1(r.num()) <= mag_idx(*self, values@)
                    &&& mag1(r.den()) <= mag_idx(*self, values@)
                },
                Err(_) => eval_idx(*self, values@) is None,
            }),
        decreases self,
    {
        match self {
            Formula::Leaf(index) => Ok(Rational::from_int(values[*index])),
            Formula::Add(left, right) => {
                proof {
                    lemma_mag_idx_pos(**left, values@);
                    lemma_mag_idx_pos(**right, values@);
                    lemma_mag_parts(mag_idx(**left, values@), mag_idx(**right, values@));
                }
                let a = match left.apply(values) {
                    Ok(a) => a,
                    Err(e) => {
                        return Err(e);
                    },
                };
                let b = match right.apply(values) {
                    Ok(b) => b,
                    Err(e) => {
                        return Err(e);
                    },
                };
                proof {
                    lemma_op_bound(
                        a.num(),
                        a.den(),
                        b.num(),
                        b.den(),
                        mag_idx(**left, values@),
                        mag_idx(**right, values@),
                    );
                }
                Ok(a.add(b))
            },
            Formula::Sub(left, right) => {
                proof {
                    lemma_mag_idx_pos(**left, values@);
                    lemma_mag_idx_pos(**right, values@);
                    lemma_mag_parts(mag_idx(**left, values@), mag_idx(**right, values@));
                }
                let a = match left.apply(values) {
                    Ok(a) => a,
                    Err(e) => {
                        return Err(e);
                    },
                };
                let b = match right.apply(values) {
                    Ok(b) => b,
                    Err(e) => {
                        return Err(e);
                    },
                };
                proof {
                    lemma_op_bound(
                        a.num(),
                        a.den(),
                        b.num(),
                        b.den(),
                        mag_idx(**left, values@),
                        mag_idx(**right, values@),
                    );
                }
                Ok(a.sub(b))
            },
            Formula::Mul(left, right) => {
                proof {
                    lemma_mag_idx_pos(**left, values@);
                    lemma_mag_idx_pos(**right, values@);
                    lemma_mag_parts(mag_idx(**left, values@), mag_idx(**right, values@));
                }
                let a = match left.apply(values) {
                    Ok(a) => a,
                    Err(e) => {
                        return Err(e);
                    },
                };
                let b = match right.apply(values) {
                    Ok(b) => b,
                    Err(e) => {
                        return Err(e);
                    },
                };
                proof {
                    lemma_op_bound(
                        a.num(),
                        a.den(),
                        b.num(),
                        b.den(),
                        mag_idx(**left, values@),
                        mag_idx(**right, values@),
                    );
                }
                Ok(a.mul(b))
            },
            Formula::Div(left, right) => {
                proof {
                    lemma_mag_idx_pos(**left, values@);
                    lemma_mag_idx_pos(**right, values@);
                    lemma_mag_parts(mag_idx(**left, values@), mag_idx(**right, values@));
                }
                let a = match left.apply(values) {
                    Ok(a) => a,
                    Err(e) => {
                        return Err(e);
                    },
                };
                let b = match right.apply(values) {
                    Ok(b) => b,
                    Err(e) => {
                        return Err(e);
                    },
                };
                proof {
                    lemma_op_bound(
                        a.num(),
                        a.den(),
                        b.num(),
                        b.den(),
                        mag_idx(**left, values@),
                        mag_idx(**right, values@),
                    );
                }
                if b == Rational::new(0, 1) {
                    Err(ZeroDivisionError)
                } else {
                    Ok(a.div(b))
                }
            },
        }
    }

    /// Substitute `values[slot]` for each leaf, producing the value tree
    /// that materializes this shape over a concrete hand.
    pub fn assign(&self, values: &[i64]) -> (r: AssignedFormula)
        requires
            idx_ok(*self, values@.len() as int),
        ensures
            is_assigned(*self, values@, r),
        decreases self,
    {
        match self {
            Formula::Leaf(index) => Formula::Leaf(values[*index]),
            Formula::Add(left, right) => Formula::Add(
                Box::new(left.assign(values)),
                Box::new(right.assign(values)),
            ),
            Formula::Sub(left, right) => Formula::Sub(
                Box::new(left.assign(values)),
                Box::new(right.assign(values)),
            ),
            Formula::Mul(left, right) => Formula::Mul(
                Box::new(left.assign(values)),
                Box::new(right.assign(values)),
            ),
            Formula::Div(left, right) => Formula::Div(
                Box::new(left.assign(values)),
                Box::new(right.assign(values)),
            ),
        }
    }
}

impl AssignedFormula {
    /// Evaluate a value tree with exact rational arithmetic; fails exactly
    /// when some division's right operand is exact zero.
    pub fn compute(&self) -> (res: Result<Rational, ZeroDivisionError>)
        requires
            mag_val(*self) <= i64::MAX as int,
        ensures
            (match res {
                Ok(r) => {
                    &&& eval_val(*self) == Some((r.num(), r.den()))
                    &&& r.wf()
                    &&& mag1(r.num()) <= mag_val(*self)
                    &&& mag1(r.den()) <= mag_val(*self)
                },
                Err(_) => eval_val(*self) is None,
            }),
        decreases self,
    {
        match self {
            Formula::Leaf(value) => Ok(Rational::from_int(*value)),
            Formula::Add(left, right) => {
                proof {
                    lemma_mag_val_pos(**left);
                    lemma_mag_val_pos(**right);
                    lemma_mag_parts(mag_val(**left), mag_val(**right));
                }
                let a = match left.compute() {
                    Ok(a) => a,
                    Err(e) => {
                        return Err(e);
                    },
                };
                let b = match right.compute() {
                    Ok(b) => b,
                    Err(e) => {
                        return Err(e);
                    },
                };
                proof {
                    lemma_op_bound(
                        a.num(),
                        a.den(),
                        b.num(),
                        b.den(),
                        mag_val(**left),
                        mag_val(**right),
                    );
                }
                Ok(a.add(b))
            },
            Formula::Sub(left, right) => {
                proof {
                    lemma_mag_val_pos(**left);
                    lemma_mag_val_pos(**right);
                    lemma_mag_parts(mag_val(**left), mag_val(**right));
                }
                let a = match left.compute() {
                    Ok(a) => a,
                    Err(e) => {
                        return Err(e);
                    },
                };
                let b = match right.compute() {
                    Ok(b) => b,
                    Err(e) => {
                        return Err(e);
                    },
                };
                proof {
                    lemma_op_bound(
                        a.num(),
                        a.den(),
                        b.num(),
                        b.den(),
                        mag_val(**left),
                        mag_val(**right),
                    );
                }
                Ok(a.sub(b))
            },
            Formula::Mul(left, right) => {
                proof {
                    lemma_mag_val_pos(**left);
                    lemma_mag_val_pos(**right);
                    lemma_mag_parts(mag_val(**left), mag_val(**right));
                }
                let a = match left.compute() {
                    Ok(a) => a,
                    Err(e) => {
                        return Err(e);
                    },
                };
                let b = match right.compute() {
                    Ok(b) => b,
                    Err(e) => {
                        return Err(e);
                    },
                };
                proof {
                    lemma_op_bound(
                        a.num(),
                        a.den(),
                        b.num(),
                        b.den(),
                        mag_val(**left),
                        mag_val(**right),
                    );
                }
                Ok(a.mul(b))
            },
            Formula::Div(left, right) => {
                proof {
                    lemma_mag_val_pos(**left);
                    lemma_mag_val_pos(**right);
                    lemma_mag_parts(mag_val(**left), mag_val(**right));
                }
                let a = match left.compute() {
                    Ok(a) => a,
                    Err(e) => {
                        return Err(e);
                    },
                };
                let b = match right.compute() {
                    Ok(b) => b,
                    Err(e) => {
                        return Err(e);
                    },
                };
                proof {
                    lemma_op_bound(
                        a.num(),
                        a.den(),
                        b.num(),
                        b.den(),
                        mag_val(**left),
                        mag_val(**right),
                    );
                }
                if b == Rational::new(0, 1) {
                    Err(ZeroDivisionError)
                } else {
                    Ok(a.div(b))
                }
            },
        }
    }
}

impl<T: Copy> Formula<T> {
    /// A structural copy of `self`, equal to it.
    pub fn duplicate(&self) -> (r: Formula<T>)
        ensures
            r == *self,
        decreases self,
    {
        match self {
            Formula::Leaf(v) => Formula::Leaf(*v),
            Formula::Add(l, r2) => Formula::Add(
                Box::new(l.duplicate()),
                Box::new(r2.duplicate()),
            ),
            Formula::Sub(l, r2) => Formula::Sub(
                Box::new(l.duplicate()),
                Box::new(r2.duplicate()),
            ),
            Formula::Mul(l, r2) => Formula::Mul(
                Box::new(l.duplicate()),
                Box::new(r2.duplicate()),
            ),
            Formula::Div(l, r2) => Formula::Div(
                Box::new(l.duplicate()),
                Box::new(r2.duplicate()),
            ),
        }
    }
}

/// Substitution commutes with evaluation: the value tree built by `assign`
/// evaluates exactly as the shape does over the same cards, and shares its
/// overflow bound.
pub proof fn lemma_assigned_eval(t: IndexFormula, vals: Seq<i64>, r: AssignedFormula)
    requires
        is_assigned(t, vals, r),
    ensures
        eval_val(r) == eval_idx(t, vals),
        mag_val(r) == mag_idx(t, vals),
    decreases t,
{
    match (t, r) {
        (Formula::Leaf(_), Formula::Leaf(_)) => {},
        (Formula::Add(l1, r1), Formula::Add(l2, r2)) => {
            lemma_assigned_eval(*l1, vals, *l2);
            lemma_assigned_eval(*r1, vals, *r2);
        },
        (Formula::Sub(l1, r1), Formula::Sub(l2, r2)) => {
            lemma_assigned_eval(*l1, vals, *l2);
            lemma_assigned_eval(*r1, vals, *r2);
        },
        (Formula::Mul(l1, r1), Formula::Mul(l2, r2)) => {
            lemma_assigned_eval(*l1, vals, *l2);
            lemma_assigned_eval(*r1, vals, *r2);
        },
        (Formula::Div(l1, r1), Formula::Div(l2, r2)) => {
            lemma_assigned_eval(*l1, vals, *l2);
            lemma_assigned_eval(*r1, vals, *r2);
        },
        _ => {},
    }
}

/// Every leaf sequence is nonempty.
pub proof fn lemma_leaves_len_pos<T>(t: Formula<T>)
    ensures
        leaves(t).len() >= 1,
    decreases t,
{
    match t {
        Formula::Leaf(_) => {},
        Formula::Add(l, r) | Formula::Sub(l, r) | Formula::Mul(l, r) | Formula::Div(l, r) => {
            lemma_leaves_len_pos(*l);
            lemma_leaves_len_pos(*r);
        },
    }
}

/// A tree whose leaves, in order, are all below `n` has every slot index
/// below `n`.
pub proof fn lemma_leaves_idx_ok(t: IndexFormula, n: int)
    requires
        forall|j: int| 0 <= j < leaves(t).len() ==> #[trigger] leaves(t)[j] < n,
    ensures
        idx_ok(t, n),
    decreases t,
{
    match t {
        Formula::Leaf(i) => {
            assert(leaves(t)[0] == i);
        },
        Formula::Add(l, r) | Formula::Sub(l, r) | Formula::Mul(l, r) | Formula::Div(l, r) => {
            assert(leaves(t) == leaves(*l) + leaves(*r));
            assert(forall|j: int|
                0 <= j < leaves(*l).len() ==> #[trigger] leaves(*l)[j] == leaves(t)[j]);
            assert(forall|j: int|
                0 <= j < leaves(*r).len() ==> #[trigger] leaves(*r)[j] == leaves(t)[leaves(
                    *l,
                ).len() + j]);
            lemma_leaves_idx_ok(*l, n);
            lemma_leaves_idx_ok(*r, n);
        },
    }
}

/// The largest card magnitude under which every evaluation over hands of at
/// most five cards stays free of `i64` overflow; a limit the fixed-width
/// arithmetic forces.
pub const MAX_CARD: i64 = 2048;

/// The overflow bound for the worst tree over `n` cards of magnitude at
/// most `MAX_CARD`.
pub open spec fn mag_cap(n: nat) -> int
    decreases n,
{
    if n <= 1 {
        2048
    } else {
        2 * mag_cap((n - 1) as nat) * 2048
    }
}

proof fn lemma_mag_cap_mul(a: nat, b: nat)
    requires
        a >= 1,
        b >= 1,
    ensures
        mag_cap(a + b) == 2 * mag_cap(a) * mag_cap(b),
    decreases a,
{
    if a == 1 {
        assert(mag_cap((1 + b) as nat) == 2 * mag_cap(b) * 2048);
        assert(2 * mag_cap(b) * 2048 == 2 * 2048 * mag_cap(b)) by (nonlinear_arith);
    } else {
        lemma_mag_cap_mul((a - 1) as nat, b);
        assert(mag_cap((a + b) as nat) == 2 * mag_cap((a + b - 1) as nat) * 2048);
        assert(mag_cap(a) == 2 * mag_cap((a - 1) as nat) * 2048);
        assert(2 * (2 * mag_cap((a - 1) as nat) * mag_cap(b)) * 2048 == 2 * (2 * mag_cap(
            (a - 1) as nat,
        ) * 2048) * mag_cap(b)) by (nonlinear_arith);
    }
}

/// The worst-case bound for up to five cards stays within `i64` range.
pub proof fn lemma_mag_cap_small(n: nat)
    requires
        1 <= n <= 5,
    ensures
        mag_cap(n) <= 0x0800_0000_0000_0000,
{
    assert(mag_cap(1) == 2048);
    assert(mag_cap(2) == 2 * mag_cap(1) * 2048);
    assert(mag_cap(3) == 2 * mag_cap(2) * 2048);
    assert(mag_cap(4) == 2 * mag_cap(3) * 2048);
    assert(mag_cap(5) == 2 * mag_cap(4) * 2048);
}

/// Over cards of magnitude at most `MAX_CARD`, the overflow bound of any
/// tree is at most the cap for its leaf count.
pub proof fn lemma_mag_idx_cap(t: IndexFormula, vals: Seq<i64>)
    requires
        idx_ok(t, vals.len() as int),
        forall|i: int| 0 <= i < vals.len() ==> -2048 <= #[trigger] vals[i] <= 2048,
    ensures
        mag_idx(t, vals) <= mag_cap(leaves(t).len()),
    decreases t,
{
    match t {
        Formula::Leaf(_) => {},
        Formula::Add(l, r) | Formula::Sub(l, r) | Formula::Mul(l, r) | Formula::Div(l, r) => {
            lemma_mag_idx_cap(*l, vals);
            lemma_mag_idx_cap(*r, vals);
            lemma_mag_idx_pos(*l, vals);
            lemma_mag_idx_pos(*r, vals);
            lemma_leaves_len_pos(*l);
            lemma_leaves_len_pos(*r);
            lemma_mag_cap_mul(leaves(*l).len(), leaves(*r).len());
            assert(leaves(t).len() == leaves(*l).len() + leaves(*r).len());
            assert(2 * mag_idx(*l, vals) * mag_idx(*r, vals) <= 2 * mag_cap(leaves(*l).len())
                * mag_cap(leaves(*r).len())) by (nonlinear_arith)
                requires
                    1 <= mag_idx(*l, vals) <= mag_cap(leaves(*l).len()),
                    1 <= mag_idx(*r, vals) <= mag_cap(leaves(*r).len()),
            ;
        },
    }
}

/// The character for one decimal digit.
pub open spec fn digit_char(d: nat) -> char {
    if d == 0 {
        '0'
    } else if d == 1 {
        '1'
    } else if d == 2 {
        '2'
    } else if d == 3 {
        '3'
    } else if d == 4 {
        '4'
    } else if d == 5 {
        '5'
    } else if d == 6 {
        '6'
    } else if d == 7 {
        '7'
    } else if d == 8 {
        '8'
    } else {
        '9'
    }
}

/// The decimal digits of `n`, most significant first.
pub open spec fn dec_digits(n: nat) -> Seq<char>
    decreases n,
{
    if n < 10 {
        seq![digit_char(n)]
    } else {
        dec_digits(n / 10).push(digit_char(n % 10))
    }
}

/// The decimal rendering of `v`, with a leading minus sign when negative.
pub open spec fn int_str(v: int) -> Seq<char> {
    if v < 0 {
        seq!['-'] + dec_digits((-v) as nat)
    } else {
        dec_digits(v as nat)
    }
}

/// The fully parenthesized infix rendering of a value tree: every binary
/// node is wrapped in parentheses, so the output is unambiguous regardless
/// of operator precedence.
pub open spec fn format_spec(t: AssignedFormula) -> Seq<char>
    decreases t,
{
    match t {
        Formula::Leaf(v) => int_str(v as int),
        Formula::Add(l, r) => seq!['('] + format_spec(*l) + seq![' ', '+', ' '] + format_spec(*r)
            + seq![')'],
        Formula::Sub(l, r) => seq!['('] + format_spec(*l) + seq![' ', '-', ' '] + format_spec(*r)
            + seq![')'],
        Formula::Mul(l, r) => seq!['('] + format_spec(*l) + seq![' ', '*', ' '] + format_spec(*r)
            + seq![')'],
        Formula::Div(l, r) => seq!['('] + format_spec(*l) + seq![' ', '/', ' '] + format_spec(*r)
            + seq![')'],
    }
}

/// Relies on i64's `Display` implementation: plain decimal digits, with a
/// leading `-` for negative values.
#[verifier::external_body]
fn int_to_string(v: i64) -> (s: String)
    ensures
        s@ == int_str(v as int),
{
    v.to_string()
}

impl AssignedFormula {
    /// Render as a fully parenthesized infix expression, e.g. `((3 + 4) * 2)`.
    pub fn format(&self) -> (s: String)
        ensures
            s@ == format_spec(*self),
        decreases self,
    {
        match self {
            Formula::Leaf(v) => int_to_string(*v),
            Formula::Add(left, right) => {
                let ls = left.format();
                let rs = right.format();
                let mut s = String::new();
                s.append("(");
                s.append(ls.as_str());
                s.append(" + ");
                s.append(rs.as_str());
                s.append(")");
                proof {
                    reveal_strlit("(");
                    reveal_strlit(" + ");
                    reveal_strlit(")");
                    assert(s@ =~= format_spec(*self));
                }
                s
            },
            Formula::Sub(left, right) => {
                let ls = left.format();
                let rs = right.format();
                let mut s = String::new();
                s.append("(");
                s.append(ls.as_str());
                s.append(" - ");
                s.append(rs.as_str());
                s.append(")");
                proof {
                    reveal_strlit("(");
                    reveal_strlit(" - ");
                    reveal_strlit(")");
                    assert(s@ =~= format_spec(*self));
                }
                s
            },
            Formula::Mul(left, right) => {
                let ls = left.format();
                let rs = right.format();
                let mut s = String::new();
                s.append("(");
                s.append(ls.as_str());
                s.append(" * ");
                s.append(rs.as_str());
                s.append(")");
                proof {
                    reveal_strlit("(");
                    reveal_strlit(" * ");
                    reveal_strlit(")");
                    assert(s@ =~= format_spec(*self));
                }
                s
            },
            Formula::Div(left, right) => {
                let ls = left.format();
                let rs = right.format();
                let mut s = String::new();
                s.append("(");
                s.append(ls.as_str());
                s.append(" / ");
                s.append(rs.as_str());
                s.append(")");
                proof {
                    reveal_strlit("(");
                    reveal_strlit(" / ");
                    reveal_strlit(")");
                    assert(s@ =~= format_spec(*self));
                }
                s
            },
        }
    }
}

} // verus!
