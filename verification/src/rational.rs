use vstd::arithmetic::div_mod::{
    lemma_fundamental_div_mod, lemma_fundamental_div_mod_converse_div,
    lemma_fundamental_div_mod_converse_mod,
};
use vstd::prelude::*;

verus! {

/// Holds exactly when `x` is representable as an `i64`.
pub open spec fn fits_i64(x: int) -> bool {
    i64::MIN <= x <= i64::MAX
}

/// An exact fraction with a nonzero denominator.
///
/// Fractions are kept exactly as they are built: no reduction to lowest
/// terms, and the denominator may be negative. Equality (`==`) is by
/// cross-multiplication, so two fractions compare equal exactly when they
/// denote the same rational number.
#[derive(Debug, Clone, Copy)]
pub struct Rational {
    num: i64,
    den: i64,
}

impl Rational {
    /// The numerator, for specifications.
    pub closed spec fn num(self) -> int {
        self.num as int
    }

    /// The denominator, for specifications.
    pub closed spec fn den(self) -> int {
        self.den as int
    }

    /// A fraction is well formed when its denominator is nonzero.
    pub open spec fn wf(self) -> bool {
        self.den() != 0
    }

    /// `self` and `other` denote the same rational number.
    pub open spec fn same_value(self, other: Rational) -> bool {
        self.num() * other.den() == other.num() * self.den()
    }

    /// `self` denotes exactly the integer `k`.
    pub open spec fn denotes_int(self, k: int) -> bool {
        self.num() == k * self.den()
    }

    /// `self` denotes some integer.
    pub open spec fn is_int(self) -> bool {
        exists|k: int| self.denotes_int(k)
    }

    /// The products `add` forms, and their sum, all fit in an `i64`.
    pub open spec fn can_add(self, other: Rational) -> bool {
        &&& fits_i64(self.num() * other.den())
        &&& fits_i64(other.num() * self.den())
        &&& fits_i64(self.num() * other.den() + other.num() * self.den())
        &&& fits_i64(self.den() * other.den())
    }

    /// The products `sub` forms, and their difference, all fit in an `i64`.
    pub open spec fn can_sub(self, other: Rational) -> bool {
        &&& fits_i64(self.num() * other.den())
        &&& fits_i64(other.num() * self.den())
        &&& fits_i64(self.num() * other.den() - other.num() * self.den())
        &&& fits_i64(self.den() * other.den())
    }

    /// The products `mul` forms both fit in an `i64`.
    pub open spec fn can_mul(self, other: Rational) -> bool {
        &&& fits_i64(self.num() * other.num())
        &&& fits_i64(self.den() * other.den())
    }

    /// The products `div` forms both fit in an `i64`.
    pub open spec fn can_div(self, other: Rational) -> bool {
        &&& fits_i64(self.num() * other.den())
        &&& fits_i64(self.den() * other.num())
    }

    pub fn new(num: i64, den: i64) -> (r: Rational)
        requires
            den != 0,
        ensures
            r.num() == num as int,
            r.den() == den as int,
            r.wf(),
    {
        Rational { num, den }
    }

    /// The integer `v` as a fraction over 1.
    pub fn from_int(v: i64) -> (r: Rational)
        ensures
            r.num() == v as int,
            r.den() == 1,
            r.wf(),
    {
        Rational { num: v, den: 1 }
    }

    /// Exact sum: `a/b + c/d == (a*d + c*b) / (b*d)`.
    pub fn add(self, other: Rational) -> (r: Rational)
        requires
            self.wf(),
            other.wf(),
            self.can_add(other),
        ensures
            r.num() == self.num() * other.den() + other.num() * self.den(),
            r.den() == self.den() * other.den(),
            r.wf(),
    {
        proof {
            lemma_nonzero_mul(self.den(), other.den());
        }
        Rational::new(self.num * other.den + other.num * self.den, self.den * other.den)
    }

    /// Exact difference: `a/b - c/d == (a*d - c*b) / (b*d)`.
    pub fn sub(self, other: Rational) -> (r: Rational)
        requires
            self.wf(),
            other.wf(),
            self.can_sub(other),
        ensures
            r.num() == self.num() * other.den() - other.num() * self.den(),
            r.den() == self.den() * other.den(),
            r.wf(),
    {
        proof {
            lemma_nonzero_mul(self.den(), other.den());
        }
        Rational::new(self.num * other.den - other.num * self.den, self.den * other.den)
    }

    /// Exact product: `a/b * c/d == (a*c) / (b*d)`.
    pub fn mul(self, other: Rational) -> (r: Rational)
        requires
            self.wf(),
            other.wf(),
            self.can_mul(other),
        ensures
            r.num() == self.num() * other.num(),
            r.den() == self.den() * other.den(),
            r.wf(),
    {
        proof {
            lemma_nonzero_mul(self.den(), other.den());
        }
        Rational::new(self.num * other.num, self.den * other.den)
    }

    /// Exact quotient: `(a/b) / (c/d) == (a*d) / (b*c)`, defined only when
    /// `other` is nonzero (its numerator is nonzero).
    pub fn div(self, other: Rational) -> (r: Rational)
        requires
            self.wf(),
            other.wf(),
            other.num() != 0,
            self.can_div(other),
        ensures
            r.num() == self.num() * other.den(),
            r.den() == self.den() * other.num(),
            r.wf(),
    {
        proof {
            lemma_nonzero_mul(self.den(), other.num());
        }
        Rational::new(self.num * other.den, self.den * other.num)
    }

    /// Whether `self` denotes an integer, that is, whether the denominator
    /// divides the numerator exactly.
    pub fn is_integer(&self) -> (r: bool)
        requires
            self.wf(),
        ensures
            r <==> self.is_int(),
    {
        match self.num.checked_rem(self.den) {
            Some(rem) => {
                proof {
                    assert(rem as int == trunc_rem(self.num(), self.den()));
                    lemma_trunc_rem_zero(self.num(), self.den());
                    if rem == 0 {
                        let k = choose|k: int| self.num() == #[trigger] (k * self.den());
                        assert(self.denotes_int(k));
                    } else if self.is_int() {
                        let k = choose|k: int| self.denotes_int(k);
                        assert(self.num() == k * self.den());
                        assert(false);
                    }
                }
                rem == 0
            },
            None => {
                // `den` is nonzero, so this is `i64::MIN % -1`, and
                // `i64::MIN == (-i64::MIN) * -1` is an integer.
                proof {
                    assert(self.denotes_int(-self.num())) by (nonlinear_arith)
                        requires self.den() == -1;
                }
                true
            },
        }
    }

    /// The stored numerator and denominator are `i64` values, so callers
    /// outside this module can bound them.
    pub proof fn lemma_parts_in_range(self)
        ensures
            fits_i64(self.num()),
            fits_i64(self.den()),
    {
    }

    /// The integer `self` denotes. The result is the unique `k` with
    /// `num == k * den`.
    pub fn to_integer(&self) -> (r: i64)
        requires
            self.wf(),
            exists|k: int| fits_i64(k) && self.denotes_int(k),
        ensures
            self.denotes_int(r as int),
            forall|k: int| self.denotes_int(k) ==> k == r as int,
    {
        proof {
            let k = choose|k: int| fits_i64(k) && self.denotes_int(k);
            lemma_exact_trunc_div(self.num(), self.den(), k);
            lemma_int_unique(self.num(), self.den(), k);
        }
        match self.num.checked_div(self.den) {
            Some(q) => {
                proof {
                    assert(q as int == trunc_div(self.num(), self.den()));
                }
                q
            },
            None => {
                // Unreachable: the quotient exists and fits in an `i64`.
                proof {
                    assert(false);
                }
                0
            },
        }
    }
}

impl PartialEq for Rational {
    /// Cross-multiplication equality, exact in `i128`.
    fn eq(&self, other: &Rational) -> (r: bool) {
        proof {
            lemma_i64_prod_fits_i128(self.num(), other.den());
            lemma_i64_prod_fits_i128(other.num(), self.den());
        }
        (self.num as i128) * (other.den as i128) == (other.num as i128) * (self.den as i128)
    }
}

impl vstd::std_specs::cmp::PartialEqSpecImpl for Rational {
    open spec fn obeys_eq_spec() -> bool {
        true
    }

    open spec fn eq_spec(&self, other: &Rational) -> bool {
        self.same_value(*other)
    }
}

proof fn lemma_nonzero_mul(a: int, b: int)
    by (nonlinear_arith)
    requires
        a != 0,
        b != 0,
    ensures
        a * b != 0,
{
}

proof fn lemma_i64_prod_fits_i128(a: int, b: int)
    by (nonlinear_arith)
    requires
        i64::MIN <= a <= i64::MAX,
        i64::MIN <= b <= i64::MAX,
    ensures
        i128::MIN <= a * b <= i128::MAX,
{
}

/// If `n == k1 * d == k2 * d` and `d != 0`, the two factors agree.
pub proof fn lemma_int_unique(n: int, d: int, k: int)
    by (nonlinear_arith)
    requires
        d != 0,
        n == k * d,
    ensures
        forall|k2: int| n == #[trigger] (k2 * d) ==> k2 == k,
{
}

/// A witness `k` with `n == k * d` is bounded by `|n|` whenever `d` is a
/// nonzero integer, so it fits in an `i64` whenever `|n| <= i64::MAX`.
pub proof fn lemma_int_witness_fits(n: int, d: int, k: int)
    by (nonlinear_arith)
    requires
        d != 0,
        n == k * d,
        -(i64::MAX as int) <= n <= i64::MAX,
    ensures
        fits_i64(k),
{
}

/// The remainder that `checked_rem` computes for a nonzero divisor, written
/// over mathematical integers (Rust's truncating remainder).
spec fn trunc_rem(x: int, d: int) -> int {
    if x == 0 {
        0
    } else if x > 0 && d > 0 {
        x % d
    } else if x < 0 && d < 0 {
        ((x * -1) % (d * -1)) * -1
    } else if x < 0 {
        ((x * -1) % d) * -1
    } else {
        x % (d * -1)
    }
}

/// The quotient that `checked_div` computes for a nonzero divisor, written
/// over mathematical integers (Rust's truncating division).
spec fn trunc_div(x: int, d: int) -> int {
    if x == 0 {
        0
    } else if x > 0 && d > 0 {
        x / d
    } else if x < 0 && d < 0 {
        (x * -1) / (d * -1)
    } else if x < 0 {
        ((x * -1) / d) * -1
    } else {
        (x / (d * -1)) * -1
    }
}

/// The truncating remainder is zero exactly when the divisor divides the
/// dividend.
proof fn lemma_trunc_rem_zero(x: int, d: int)
    requires
        d != 0,
    ensures
        (trunc_rem(x, d) == 0) <==> (exists|k: int| x == #[trigger] (k * d)),
{
    if trunc_rem(x, d) == 0 {
        if x == 0 {
            assert(0 * d == 0) by (nonlinear_arith);
            assert(x == 0 * d);
        } else if x > 0 && d > 0 {
            lemma_fundamental_div_mod(x, d);
            assert(x == (x / d) * d) by (nonlinear_arith)
                requires x == d * (x / d) + x % d, x % d == 0;
        } else if x < 0 && d < 0 {
            lemma_fundamental_div_mod(-x, -d);
            assert(x == ((-x) / (-d)) * d) by (nonlinear_arith)
                requires -x == (-d) * ((-x) / (-d)) + (-x) % (-d), (-x) % (-d) == 0;
        } else if x < 0 {
            lemma_fundamental_div_mod(-x, d);
            assert(x == (-((-x) / d)) * d) by (nonlinear_arith)
                requires -x == d * ((-x) / d) + (-x) % d, (-x) % d == 0;
        } else {
            lemma_fundamental_div_mod(x, -d);
            assert(x == (-(x / (-d))) * d) by (nonlinear_arith)
                requires x == (-d) * (x / (-d)) + x % (-d), x % (-d) == 0;
        }
    }
    if exists|k: int| x == #[trigger] (k * d) {
        let k = choose|k: int| x == #[trigger] (k * d);
        if x == 0 {
        } else if x > 0 && d > 0 {
            lemma_fundamental_div_mod_converse_mod(x, d, k, 0);
        } else if x < 0 && d < 0 {
            assert(-x == k * (-d) + 0) by (nonlinear_arith) requires x == k * d;
            lemma_fundamental_div_mod_converse_mod(-x, -d, k, 0);
        } else if x < 0 {
            assert(-x == (-k) * d + 0) by (nonlinear_arith) requires x == k * d;
            lemma_fundamental_div_mod_converse_mod(-x, d, -k, 0);
        } else {
            assert(x == (-k) * (-d) + 0) by (nonlinear_arith) requires x == k * d;
            lemma_fundamental_div_mod_converse_mod(x, -d, -k, 0);
        }
    }
}

/// When the division is exact, the truncating quotient is the exact factor.
proof fn lemma_exact_trunc_div(x: int, d: int, k: int)
    requires
        d != 0,
        x == k * d,
    ensures
        trunc_div(x, d) == k,
{
    if x == 0 {
        assert(k == 0) by (nonlinear_arith) requires d != 0, 0 == k * d;
    } else if x > 0 && d > 0 {
        lemma_fundamental_div_mod_converse_div(x, d, k, 0);
    } else if x < 0 && d < 0 {
        assert(-x == k * (-d) + 0) by (nonlinear_arith) requires x == k * d;
        lemma_fundamental_div_mod_converse_div(-x, -d, k, 0);
    } else if x < 0 {
        assert(-x == (-k) * d + 0) by (nonlinear_arith) requires x == k * d;
        lemma_fundamental_div_mod_converse_div(-x, d, -k, 0);
    } else {
        assert(x == (-k) * (-d) + 0) by (nonlinear_arith) requires x == k * d;
        lemma_fundamental_div_mod_converse_div(x, -d, -k, 0);
    }
}

} // verus!
