//! Fixed-capacity low-degree polynomial verifier kernels.
use vstd::prelude::*;
use crate::dyadic::{floor_div, ceil_div};
use crate::fold::{fold_checked, lemma_fold_error_persists, lemma_fold_next};
use crate::iv32::{
    encloses_ratio, interval_arithmetic_encloses_ratios, scaled_ratio_product, FixedDomain, Iv32,
    NumericError, then,
};

verus! {

pub const MAX_DEGREE: usize = 8;

pub const MAX_COEFFICIENTS: usize = 9;

pub const MAX_SPARSE_TERMS: usize = 32;

#[derive(Clone, Copy, Debug, PartialEq, Eq)]
pub struct Polynomial {
    pub coefficients: [Iv32; MAX_COEFFICIENTS],
    pub degree: u8,
}

#[derive(Clone, Copy, Debug, PartialEq, Eq)]
pub struct Bernstein {
    pub coefficients: [Iv32; MAX_COEFFICIENTS],
    pub degree: u8,
}

#[derive(Clone, Copy, Debug, PartialEq, Eq, Structural)]
pub enum CoefficientSign {
    StrictPositive,
    StrictNegative,
    Mixed,
}

#[derive(Clone, Copy, Debug, PartialEq, Eq, Structural)]
pub enum SignVariation {
    Exact(u8),
    Inconclusive,
}

#[derive(Clone, Copy, Debug, PartialEq, Eq)]
pub struct SparseTerm {
    pub coefficient: Iv32,
    pub powers: [u8; 4],
}

/// `c + bu*u + bv*v + buu*u² + buv*u*v + bvv*v²` over `[0,1]²`.
#[derive(Clone, Copy, Debug, PartialEq, Eq, Structural)]
pub struct Quadratic2 {
    pub c: i32,
    pub bu: i32,
    pub bv: i32,
    pub buu: i32,
    pub buv: i32,
    pub bvv: i32,
}

pub open spec fn zero_iv() -> Iv32 {
    Iv32 { lo: 0, hi: 0 }
}

/// `s` extended with zero points to the fixed capacity.
pub open spec fn padded(s: Seq<Iv32>) -> Seq<Iv32> {
    Seq::new(9, |i: int| if i < s.len() { s[i] } else { zero_iv() })
}

/// The raw interval `[lo, hi]` checked against the domain's raw range.
pub open spec fn raw_interval_spec(lo: int, hi: int, domain: FixedDomain) -> Result<
    Iv32,
    NumericError,
> {
    then(
        domain.check(),
        if !(i32::MIN <= lo <= i32::MAX && i32::MIN <= hi <= i32::MAX) {
            Err(NumericError::Overflow)
        } else if lo < domain.min_raw || hi > domain.max_raw {
            Err(NumericError::Overflow)
        } else if lo > hi {
            Err(NumericError::InvalidInterval)
        } else {
            Ok(Iv32 { lo: lo as i32, hi: hi as i32 })
        },
    )
}

/// An interval multiplied by a small nonnegative integer.
pub open spec fn multiply_integer_spec(c: Iv32, k: int, domain: FixedDomain) -> Result<
    Iv32,
    NumericError,
> {
    raw_interval_spec(c.lo * k, c.hi * k, domain)
}

pub open spec fn factorial(n: nat) -> nat
    decreases n,
{
    if n == 0 {
        1
    } else {
        n * factorial((n - 1) as nat)
    }
}

/// The binomial coefficient `n choose k` for `k <= n`.
pub open spec fn binomial(n: nat, k: nat) -> nat {
    factorial(n) / (factorial(k) * factorial((n - k) as nat))
}

/// `n! * sum_{i<m} C(k,i)/C(n,i) * c_i`, with `c_i` the chosen interval end.
pub open spec fn bernstein_numerator(cs: Seq<Iv32>, n: nat, k: nat, upper: bool, m: nat) -> int
    decreases m,
{
    if m == 0 {
        0
    } else {
        let i = (m - 1) as nat;
        let c = if upper {
            cs[i as int].hi as int
        } else {
            cs[i as int].lo as int
        };
        bernstein_numerator(cs, n, k, upper, i) + binomial(k, i) * c * factorial(i) * factorial(
            (n - i) as nat,
        )
    }
}

/// Horner step for the coefficients `cs` at `x`, consuming the highest first.
pub open spec fn horner_step(cs: Seq<Iv32>, x: Iv32, domain: FixedDomain) -> spec_fn(
    Iv32,
    int,
) -> Result<Iv32, NumericError> {
    |acc: Iv32, k: int|
        match acc.spec_multiply(x, domain) {
            Ok(m) => m.spec_add(cs[cs.len() - 1 - k], domain),
            Err(e) => Err(e),
        }
}

/// Horner evaluation of `cs` (lowest coefficient first) at `x`.
pub open spec fn horner(cs: Seq<Iv32>, x: Iv32, domain: FixedDomain) -> Result<Iv32, NumericError> {
    fold_checked(cs.len(), zero_iv(), horner_step(cs, x, domain))
}

/// Exact Horner evaluation, in raw units, of rational coefficients `cs`
/// (numerator, positive denominator; lowest power first) at the rational
/// point `x`, after `k` steps: each step multiplies by `x` at the domain
/// scale and adds the next coefficient from the top.
pub open spec fn exact_horner(cs: Seq<(int, int)>, x: (int, int), shift: int, k: nat) -> (int, int)
    decreases k,
{
    if k == 0 {
        (0, 1)
    } else {
        let acc = exact_horner(cs, x, shift, (k - 1) as nat);
        let m = scaled_ratio_product(acc.0, acc.1, x.0, x.1, shift);
        let c = cs[cs.len() - k];
        (m.0 * c.1 + c.0 * m.1, m.1 * c.1)
    }
}

proof fn lemma_horner_encloses(
    cs: Seq<Iv32>,
    x: Iv32,
    domain: FixedDomain,
    values: Seq<(int, int)>,
    point: (int, int),
    k: nat,
)
    requires
        values.len() == cs.len(),
        k <= cs.len(),
        forall|i: int|
            0 <= i < cs.len() ==> (#[trigger] values[i]).1 > 0 && encloses_ratio(
                cs[i],
                values[i].0,
                values[i].1,
            ),
        point.1 > 0,
        encloses_ratio(x, point.0, point.1),
    ensures
        exact_horner(values, point, domain.exponent as int, k).1 > 0,
        fold_checked(k, zero_iv(), horner_step(cs, x, domain)) matches Ok(acc) ==> encloses_ratio(
            acc,
            exact_horner(values, point, domain.exponent as int, k).0,
            exact_horner(values, point, domain.exponent as int, k).1,
        ),
    decreases k,
{
    if k > 0 {
        lemma_horner_encloses(cs, x, domain, values, point, (k - 1) as nat);
        let e = domain.exponent as int;
        let acc_exact = exact_horner(values, point, e, (k - 1) as nat);
        let c = values[values.len() - k];
        assert(c.1 > 0 && encloses_ratio(cs[cs.len() - k], c.0, c.1));
        match fold_checked((k - 1) as nat, zero_iv(), horner_step(cs, x, domain)) {
            Ok(acc) => {
                interval_arithmetic_encloses_ratios(acc, x, domain, acc_exact.0, acc_exact.1, point.0, point.1);
                let m = scaled_ratio_product(acc_exact.0, acc_exact.1, point.0, point.1, e);
                match acc.spec_multiply(x, domain) {
                    Ok(mi) => {
                        interval_arithmetic_encloses_ratios(mi, cs[cs.len() - 1 - (k - 1)], domain, m.0, m.1, c.0, c.1);
                    },
                    Err(_) => {
                        assert(m.1 * c.1 > 0) by (nonlinear_arith)
                            requires
                                m.1 > 0,
                                c.1 > 0,
                        ;
                    },
                }
            },
            Err(_) => {
                let m = scaled_ratio_product(acc_exact.0, acc_exact.1, point.0, point.1, e);
                lemma_scaled_ratio_positive(acc_exact.0, acc_exact.1, point.0, point.1, e);
                assert(m.1 * c.1 > 0) by (nonlinear_arith)
                    requires
                        m.1 > 0,
                        c.1 > 0,
                ;
            },
        }
    }
}

proof fn lemma_scaled_ratio_positive(n1: int, d1: int, n2: int, d2: int, shift: int)
    requires
        d1 > 0,
        d2 > 0,
    ensures
        scaled_ratio_product(n1, d1, n2, d2, shift).1 > 0,
{
    assert(d1 * d2 > 0) by (nonlinear_arith)
        requires
            d1 > 0,
            d2 > 0,
    ;
    if shift < 0 {
        crate::dyadic::lemma_two_pow_pos((-shift) as nat);
        let p = crate::dyadic::two_pow((-shift) as nat) as int;
        assert(d1 * d2 * p > 0) by (nonlinear_arith)
            requires
                d1 * d2 > 0,
                p >= 1,
        ;
    }
}

/// Evaluation encloses: for any rational coefficients held by the
/// polynomial's coefficient intervals and any rational point held by `x`,
/// a returned value holds the exact Horner value, in raw units.
pub proof fn evaluation_encloses(
    polynomial: Polynomial,
    x: Iv32,
    domain: FixedDomain,
    values: Seq<(int, int)>,
    point: (int, int),
)
    requires
        polynomial.wf(),
        values.len() == polynomial.degree + 1,
        forall|i: int|
            0 <= i < values.len() ==> (#[trigger] values[i]).1 > 0 && encloses_ratio(
                polynomial.coefficients@[i],
                values[i].0,
                values[i].1,
            ),
        point.1 > 0,
        encloses_ratio(x, point.0, point.1),
    ensures
        polynomial.spec_evaluate(x, domain) matches Ok(v) ==> encloses_ratio(
            v,
            exact_horner(values, point, domain.exponent as int, values.len()).0,
            exact_horner(values, point, domain.exponent as int, values.len()).1,
        ),
        exact_horner(values, point, domain.exponent as int, values.len()).1 > 0,
{
    let cs = polynomial.active();
    assert forall|i: int| 0 <= i < cs.len() implies (#[trigger] values[i]).1 > 0 && encloses_ratio(
        cs[i],
        values[i].0,
        values[i].1,
    ) by {
        assert(cs[i] == polynomial.coefficients@[i]);
    }
    lemma_horner_encloses(cs, x, domain, values, point, values.len());
}

proof fn lemma_row_length(prev: Seq<Iv32>, numerator: int, denominator: int, domain: FixedDomain, m: nat)
    requires
        m <= prev.len() - 1,
    ensures
        fold_checked(m, Seq::empty(), casteljau_cell_step(prev, numerator, denominator, domain)) matches Ok(row)
            ==> row.len() == m,
    decreases m,
{
    if m > 0 {
        lemma_row_length(prev, numerator, denominator, domain, (m - 1) as nat);
    }
}

proof fn lemma_triangle_edges(cs: Seq<Iv32>, numerator: int, denominator: int, domain: FixedDomain, k: nat)
    requires
        cs.len() >= 1,
        k <= cs.len() - 1,
    ensures
        fold_checked(
            k,
            (cs, seq![cs[0]], seq![cs[cs.len() - 1]]),
            casteljau_row_step(numerator, denominator, domain),
        ) matches Ok(t) ==> {
            &&& t.0.len() == cs.len() - k
            &&& t.1.len() == k + 1
            &&& t.2.len() == k + 1
            &&& t.1[0] == cs[0]
            &&& t.2[0] == cs[cs.len() - 1]
            &&& t.1[k as int] == t.0[0]
            &&& t.2[k as int] == t.0[t.0.len() - 1]
        },
    decreases k,
{
    if k > 0 {
        lemma_triangle_edges(cs, numerator, denominator, domain, (k - 1) as nat);
        let init = (cs, seq![cs[0]], seq![cs[cs.len() - 1]]);
        let step = casteljau_row_step(numerator, denominator, domain);
        match fold_checked((k - 1) as nat, init, step) {
            Ok(t) => {
                lemma_row_length(t.0, numerator, denominator, domain, (t.0.len() - 1) as nat);
            },
            Err(_) => {},
        }
    }
}

impl Bernstein {
    /// Halving keeps the end coefficients and the two halves meet: the left
    /// half starts where the whole form starts, the right half ends where it
    /// ends, and the left half's last coefficient is the right half's first.
    pub proof fn halving_keeps_ends(self, domain: FixedDomain)
        requires
            self.wf(),
            self.spec_subdivide_at(1, 2, domain) is Ok,
        ensures
            ({
                let (l, r) = self.spec_subdivide_at(1, 2, domain)->Ok_0;
                let n = self.degree as int;
                &&& l[0] == self.coefficients@[0]
                &&& r[n] == self.coefficients@[n]
                &&& l[n] == r[0]
            }),
    {
        let cs = self.active();
        let n = self.degree as int;
        lemma_triangle_edges(cs, 1, 2, domain, (cs.len() - 1) as nat);
        let t = casteljau(cs, 1, 2, domain)->Ok_0;
        assert(t.2.reverse()[0] == t.2[n]);
        assert(t.2.reverse()[n] == t.2[0]);
    }
}

/// Step `k` of the derivative: the coefficient of power `k + 1` times `k + 1`.
pub open spec fn derivative_step(cs: Seq<Iv32>, domain: FixedDomain) -> spec_fn(
    Seq<Iv32>,
    int,
) -> Result<Seq<Iv32>, NumericError> {
    |acc: Seq<Iv32>, k: int|
        match multiply_integer_spec(cs[k + 1], k + 1, domain) {
            Ok(v) => Ok(acc.push(v)),
            Err(e) => Err(e),
        }
}

/// Step `k` of the power-to-Bernstein conversion of degree `n`.
pub open spec fn bernstein_step(cs: Seq<Iv32>, n: nat, domain: FixedDomain) -> spec_fn(
    Seq<Iv32>,
    int,
) -> Result<Seq<Iv32>, NumericError> {
    |acc: Seq<Iv32>, k: int|
        match raw_interval_spec(
            floor_div(bernstein_numerator(cs, n, k as nat, false, (k + 1) as nat), factorial(n) as int),
            ceil_div(bernstein_numerator(cs, n, k as nat, true, (k + 1) as nat), factorial(n) as int),
            domain,
        ) {
            Ok(v) => Ok(acc.push(v)),
            Err(e) => Err(e),
        }
}

/// Outward raw interpolation `a*(1-t) + b*t` at `t = numerator/denominator`.
pub open spec fn lerp_spec(a: Iv32, b: Iv32, numerator: int, denominator: int, domain: FixedDomain) -> Result<
    Iv32,
    NumericError,
> {
    let complement = denominator - numerator;
    let lo = floor_div(a.lo * complement + b.lo * numerator, denominator);
    let hi = ceil_div(a.hi * complement + b.hi * numerator, denominator);
    if numerator > i64::MAX || denominator > i64::MAX || numerator == 0 || numerator >= denominator {
        Err(NumericError::InvalidDomain)
    } else {
        then(
            a.check_in(domain),
            then(
                b.check_in(domain),
                if !(i32::MIN <= lo <= i32::MAX && i32::MIN <= hi <= i32::MAX) {
                    Err(NumericError::Overflow)
                } else if lo > hi {
                    Err(NumericError::InvalidInterval)
                } else {
                    then(
                        (Iv32 { lo: lo as i32, hi: hi as i32 }).check_in(domain),
                        Ok(Iv32 { lo: lo as i32, hi: hi as i32 }),
                    )
                },
            ),
        )
    }
}

/// One de Casteljau row: `prev[c]` interpolated towards `prev[c + 1]`.
pub open spec fn casteljau_cell_step(
    prev: Seq<Iv32>,
    numerator: int,
    denominator: int,
    domain: FixedDomain,
) -> spec_fn(Seq<Iv32>, int) -> Result<Seq<Iv32>, NumericError> {
    |acc: Seq<Iv32>, c: int|
        match lerp_spec(prev[c], prev[c + 1], numerator, denominator, domain) {
            Ok(v) => Ok(acc.push(v)),
            Err(e) => Err(e),
        }
}

/// The de Casteljau row after `prev`.
pub open spec fn casteljau_row(
    prev: Seq<Iv32>,
    numerator: int,
    denominator: int,
    domain: FixedDomain,
) -> Result<Seq<Iv32>, NumericError> {
    fold_checked(
        (prev.len() - 1) as nat,
        Seq::empty(),
        casteljau_cell_step(prev, numerator, denominator, domain),
    )
}

/// State of the triangle: current row, first entries, last entries.
pub open spec fn casteljau_row_step(numerator: int, denominator: int, domain: FixedDomain) -> spec_fn(
    (Seq<Iv32>, Seq<Iv32>, Seq<Iv32>),
    int,
) -> Result<(Seq<Iv32>, Seq<Iv32>, Seq<Iv32>), NumericError> {
    |acc: (Seq<Iv32>, Seq<Iv32>, Seq<Iv32>), r: int|
        match casteljau_row(acc.0, numerator, denominator, domain) {
            Ok(row) => Ok((row, acc.1.push(row[0]), acc.2.push(row[row.len() - 1]))),
            Err(e) => Err(e),
        }
}

/// The full triangle of a Bernstein coefficient sequence `cs`.
pub open spec fn casteljau(cs: Seq<Iv32>, numerator: int, denominator: int, domain: FixedDomain) -> Result<
    (Seq<Iv32>, Seq<Iv32>, Seq<Iv32>),
    NumericError,
> {
    fold_checked(
        (cs.len() - 1) as nat,
        (cs, seq![cs[0]], seq![cs[cs.len() - 1]]),
        casteljau_row_step(numerator, denominator, domain),
    )
}

impl Polynomial {
    pub open spec fn wf(self) -> bool {
        self.degree <= MAX_DEGREE
    }

    /// Coefficients of powers `0..=degree`, lowest first.
    pub open spec fn active(self) -> Seq<Iv32> {
        self.coefficients@.subrange(0, self.degree + 1)
    }

    pub open spec fn spec_evaluate(self, x: Iv32, domain: FixedDomain) -> Result<Iv32, NumericError> {
        horner(self.active(), x, domain)
    }

    pub fn new(coefficients: &[Iv32]) -> (r: Result<Self, NumericError>)
        ensures
            r is Err <==> coefficients@.len() == 0 || coefficients@.len() > MAX_COEFFICIENTS,
            r matches Err(e) ==> e == NumericError::UnsupportedShape,
            r matches Ok(p) ==> p.coefficients@ == padded(coefficients@) && p.degree
                == coefficients@.len() - 1,
    {
        if coefficients.len() == 0 || coefficients.len() > MAX_COEFFICIENTS {
            return Err(NumericError::UnsupportedShape);
        }
        let mut stored = [zero_point();9];
        let mut i: usize = 0;
        while i < coefficients.len()
            invariant
                0 < coefficients@.len() <= 9,
                i <= coefficients@.len(),
                stored@.len() == 9,
                forall|j: int|
                    0 <= j < 9 ==> stored@[j] == (if j < i {
                        coefficients@[j]
                    } else {
                        zero_iv()
                    }),
            decreases coefficients@.len() - i,
        {
            stored[i] = coefficients[i];
            i = i + 1;
        }
        proof {
            assert(stored@ =~= padded(coefficients@));
        }
        Ok(Polynomial { coefficients: stored, degree: (coefficients.len() - 1) as u8 })
    }

    pub fn evaluate(self, x: Iv32, domain: FixedDomain) -> (r: Result<Iv32, NumericError>)
        requires
            self.wf(),
        ensures
            r == self.spec_evaluate(x, domain),
    {
        let n: usize = self.degree as usize + 1;
        let ghost cs = self.active();
        let mut acc = zero_point();
        let mut k: usize = 0;
        while k < n
            invariant
                self.wf(),
                n == cs.len(),
                n <= 9,
                cs == self.active(),
                k <= n,
                fold_checked(k as nat, zero_iv(), horner_step(cs, x, domain)) == Ok::<
                    Iv32,
                    NumericError,
                >(acc),
            decreases n - k,
        {
            let coefficient = self.coefficients[n - 1 - k];
            proof {
                assert(self.coefficients@.len() == 9);
                assert(self.coefficients@[(n - 1 - k) as int] == coefficient);
                assert(cs[(n - 1 - k) as int] == self.coefficients@[(n - 1 - k) as int]);
                assert(cs[cs.len() - 1 - k] == coefficient);
            }
            let step = match acc.multiply(x, domain) {
                Ok(m) => m.add(coefficient, domain),
                Err(e) => Err(e),
            };
            proof {
                assert(fold_checked((k + 1) as nat, zero_iv(), horner_step(cs, x, domain))
                    == horner_step(cs, x, domain)(acc, k as int));
            }
            match step {
                Ok(v) => {
                    acc = v;
                },
                Err(e) => {
                    proof {
                        lemma_fold_error_persists(
                            (k + 1) as nat,
                            n as nat,
                            zero_iv(),
                            horner_step(cs, x, domain),
                        );
                    }
                    return Err(e);
                },
            }
            k = k + 1;
        }
        Ok(acc)
    }

    pub open spec fn spec_derivative(self, domain: FixedDomain) -> Result<
        (Seq<Iv32>, nat),
        NumericError,
    > {
        if self.degree == 0 {
            Ok((padded(seq![zero_iv()]), 0))
        } else {
            match fold_checked(
                self.degree as nat,
                Seq::empty(),
                derivative_step(self.active(), domain),
            ) {
                Ok(s) => Ok((padded(s), (self.degree - 1) as nat)),
                Err(e) => Err(e),
            }
        }
    }

    pub fn derivative(self, domain: FixedDomain) -> (r: Result<Self, NumericError>)
        requires
            self.wf(),
        ensures
            match r {
                Ok(p) => self.spec_derivative(domain) == Ok::<(Seq<Iv32>, nat), NumericError>(
                    (p.coefficients@, p.degree as nat),
                ),
                Err(e) => self.spec_derivative(domain) == Err::<(Seq<Iv32>, nat), NumericError>(
                    e,
                ),
            },
    {
        if self.degree == 0 {
            let z = [zero_point()];
            let r = Self::new(&z);
            proof {
                assert(z@ =~= seq![zero_iv()]);
            }
            return r;
        }
        let n: usize = self.degree as usize;
        let ghost cs = self.active();
        let mut out: Vec<Iv32> = Vec::new();
        let mut k: usize = 0;
        while k < n
            invariant
                1 <= n <= 8,
                n == self.degree,
                cs == self.active(),
                k <= n,
                out@.len() == k,
                fold_checked(k as nat, Seq::empty(), derivative_step(cs, domain)) == Ok::<
                    Seq<Iv32>,
                    NumericError,
                >(out@),
            decreases n - k,
        {
            proof {
                assert(cs[k + 1] == self.coefficients@[k + 1]);
                assert(fold_checked((k + 1) as nat, Seq::empty(), derivative_step(cs, domain))
                    == derivative_step(cs, domain)(out@, k as int));
            }
            match multiply_integer(self.coefficients[k + 1], k + 1, domain) {
                Ok(v) => {
                    out.push(v);
                },
                Err(e) => {
                    proof {
                        lemma_fold_error_persists(
                            (k + 1) as nat,
                            n as nat,
                            Seq::empty(),
                            derivative_step(cs, domain),
                        );
                    }
                    return Err(e);
                },
            }
            k = k + 1;
        }
        proof {
            assert(out@.len() == n);
        }
        let slice = out.as_slice();
        proof {
            assert(slice@ == out@);
        }
        Self::new(slice)
    }

    pub open spec fn spec_to_bernstein(self, domain: FixedDomain) -> Result<Seq<Iv32>, NumericError> {
        match fold_checked(
            (self.degree + 1) as nat,
            Seq::empty(),
            bernstein_step(self.active(), self.degree as nat, domain),
        ) {
            Ok(s) => Ok(padded(s)),
            Err(e) => Err(e),
        }
    }

    /// Exact power-to-Bernstein conversion, rounded outward in raw units.
    pub fn to_bernstein(self, domain: FixedDomain) -> (r: Result<Bernstein, NumericError>)
        requires
            self.wf(),
        ensures
            match r {
                Ok(b) => b.degree == self.degree && self.spec_to_bernstein(domain) == Ok::<
                    Seq<Iv32>,
                    NumericError,
                >(b.coefficients@),
                Err(e) => self.spec_to_bernstein(domain) == Err::<Seq<Iv32>, NumericError>(e),
            },
    {
        let n: usize = self.degree as usize;
        let ghost cs = self.active();
        let nf = factorial_exec(n);
        let mut out = [zero_point();9];
        let ghost mut done: Seq<Iv32> = Seq::empty();
        let mut k: usize = 0;
        while k <= n
            invariant
                n == self.degree,
                n <= 8,
                cs == self.active(),
                nf == factorial(n as nat),
                k <= n + 1,
                done.len() == k,
                out@.len() == 9,
                forall|j: int| 0 <= j < 9 ==> out@[j] == (if j < k { done[j] } else { zero_iv() }),
                fold_checked(k as nat, Seq::empty(), bernstein_step(cs, n as nat, domain)) == Ok::<
                    Seq<Iv32>,
                    NumericError,
                >(done),
            decreases n + 1 - k,
        {
            let lo_sum = bernstein_sum(&self.coefficients, n, k, false);
            let hi_sum = bernstein_sum(&self.coefficients, n, k, true);
            proof {
                lemma_factorial_bounds(n as nat);
            }
            let lo = floor_div_wide(lo_sum, nf);
            let hi = -floor_div_wide(-hi_sum, nf);
            match checked_raw_interval(lo, hi, domain) {
                Ok(v) => {
                    out[k] = v;
                    proof {
                        done = done.push(v);
                    }
                },
                Err(e) => {
                    proof {
                        lemma_fold_error_persists(
                            (k + 1) as nat,
                            (n + 1) as nat,
                            Seq::empty(),
                            bernstein_step(cs, n as nat, domain),
                        );
                    }
                    return Err(e);
                },
            }
            k = k + 1;
        }
        proof {
            assert(out@ =~= padded(done));
        }
        Ok(Bernstein { coefficients: out, degree: self.degree })
    }
}

impl Bernstein {
    pub open spec fn wf(self) -> bool {
        self.degree <= MAX_DEGREE
    }

    pub open spec fn active(self) -> Seq<Iv32> {
        self.coefficients@.subrange(0, self.degree + 1)
    }

    pub open spec fn spec_sign(self) -> CoefficientSign {
        if forall|i: int| 0 <= i <= self.degree ==> self.coefficients@[i].lo > 0 {
            CoefficientSign::StrictPositive
        } else if forall|i: int| 0 <= i <= self.degree ==> self.coefficients@[i].hi < 0 {
            CoefficientSign::StrictNegative
        } else {
            CoefficientSign::Mixed
        }
    }

    pub fn sign(self) -> (r: CoefficientSign)
        requires
            self.wf(),
        ensures
            r == self.spec_sign(),
    {
        let n: usize = self.degree as usize;
        let mut all_positive = true;
        let mut all_negative = true;
        let mut i: usize = 0;
        while i <= n
            invariant
                n == self.degree,
                n <= 8,
                i <= n + 1,
                all_positive == (forall|j: int| 0 <= j < i ==> self.coefficients@[j].lo > 0),
                all_negative == (forall|j: int| 0 <= j < i ==> self.coefficients@[j].hi < 0),
            decreases n + 1 - i,
        {
            if self.coefficients[i].lo <= 0 {
                all_positive = false;
            }
            if self.coefficients[i].hi >= 0 {
                all_negative = false;
            }
            i = i + 1;
        }
        if all_positive {
            CoefficientSign::StrictPositive
        } else if all_negative {
            CoefficientSign::StrictNegative
        } else {
            CoefficientSign::Mixed
        }
    }

    pub open spec fn spec_sign_variations(self) -> SignVariation {
        match sign_scan(self.active(), (self.degree + 1) as nat) {
            Some((_, v)) => SignVariation::Exact(v as u8),
            None => SignVariation::Inconclusive,
        }
    }

    pub fn sign_variations(self) -> (r: SignVariation)
        requires
            self.wf(),
        ensures
            r == self.spec_sign_variations(),
    {
        let n: usize = self.degree as usize;
        let ghost cs = self.active();
        let mut previous: i8 = 0;
        let mut variations: u8 = 0;
        let mut i: usize = 0;
        while i <= n
            invariant
                n == self.degree,
                n <= 8,
                cs == self.active(),
                i <= n + 1,
                variations <= i,
                sign_scan(cs, i as nat) == Some((previous as int, variations as nat)),
            decreases n + 1 - i,
        {
            let coefficient = self.coefficients[i];
            let sign: i8 = if coefficient.lo > 0 {
                1
            } else if coefficient.hi < 0 {
                -1
            } else if coefficient.lo == 0 && coefficient.hi == 0 {
                0
            } else {
                proof {
                    lemma_sign_scan_none_persists(cs, (i + 1) as nat, (n + 1) as nat);
                }
                return SignVariation::Inconclusive;
            };
            if sign != 0 {
                if previous != 0 && sign != previous {
                    variations = variations + 1;
                }
                previous = sign;
            }
            i = i + 1;
        }
        SignVariation::Exact(variations)
    }

    pub open spec fn spec_subdivide_at(self, numerator: u64, denominator: u64, domain: FixedDomain) -> Result<
        (Seq<Iv32>, Seq<Iv32>),
        NumericError,
    > {
        then(
            domain.check(),
            if numerator == 0 || numerator >= denominator {
                Err(NumericError::InvalidDomain)
            } else {
                match casteljau(self.active(), numerator as int, denominator as int, domain) {
                    Ok(t) => Ok((padded(t.1), padded(t.2.reverse()))),
                    Err(e) => Err(e),
                }
            },
        )
    }

    /// Exact de Casteljau subdivision at `1/2`, rounded outward in raw units.
    pub fn subdivide_half(self, domain: FixedDomain) -> (r: Result<(Self, Self), NumericError>)
        requires
            self.wf(),
        ensures
            match r {
                Ok((left, right)) => left.degree == self.degree && right.degree == self.degree
                    && self.spec_subdivide_at(1, 2, domain) == Ok::<
                    (Seq<Iv32>, Seq<Iv32>),
                    NumericError,
                >((left.coefficients@, right.coefficients@)),
                Err(e) => self.spec_subdivide_at(1, 2, domain) == Err::<
                    (Seq<Iv32>, Seq<Iv32>),
                    NumericError,
                >(e),
            },
    {
        self.subdivide_at(1, 2, domain)
    }

    /// De Casteljau subdivision at `numerator / denominator`, rounded
    /// outward in raw units.
    #[verifier::loop_isolation(false)]
    pub fn subdivide_at(self, numerator: u64, denominator: u64, domain: FixedDomain) -> (r: Result<
        (Self, Self),
        NumericError,
    >)
        requires
            self.wf(),
        ensures
            match r {
                Ok((left, right)) => left.degree == self.degree && right.degree == self.degree
                    && self.spec_subdivide_at(numerator, denominator, domain) == Ok::<
                    (Seq<Iv32>, Seq<Iv32>),
                    NumericError,
                >((left.coefficients@, right.coefficients@)),
                Err(e) => self.spec_subdivide_at(numerator, denominator, domain) == Err::<
                    (Seq<Iv32>, Seq<Iv32>),
                    NumericError,
                >(e),
            },
    {
        domain.validate()?;
        if numerator == 0 || numerator >= denominator {
            return Err(NumericError::InvalidDomain);
        }
        let n: usize = self.degree as usize;
        let ghost cs = self.active();
        let ghost num = numerator as int;
        let ghost den = denominator as int;
        let mut row: Vec<Iv32> = Vec::new();
        let mut j: usize = 0;
        while j <= n
            invariant
                n == self.degree,
                n <= 8,
                j <= n + 1,
                row@ == self.coefficients@.subrange(0, j as int),
            decreases n + 1 - j,
        {
            row.push(self.coefficients[j]);
            j = j + 1;
        }
        proof {
            assert(row@ =~= cs);
        }
        let mut lefts: Vec<Iv32> = Vec::new();
        let mut rights: Vec<Iv32> = Vec::new();
        lefts.push(row[0]);
        rights.push(row[n]);
        let mut r: usize = 0;
        while r < n
            invariant
                n == self.degree,
                n <= 8,
                cs == self.active(),
                num == numerator,
                den == denominator,
                r <= n,
                row@.len() == n + 1 - r,
                fold_checked(
                    r as nat,
                    (cs, seq![cs[0]], seq![cs[cs.len() - 1]]),
                    casteljau_row_step(num, den, domain),
                ) == Ok::<(Seq<Iv32>, Seq<Iv32>, Seq<Iv32>), NumericError>(
                    (row@, lefts@, rights@),
                ),
                lefts@.len() == r + 1,
                rights@.len() == r + 1,
            decreases n - r,
        {
            let mut next: Vec<Iv32> = Vec::new();
            let width: usize = n - r;
            let mut c: usize = 0;
            while c < width
                invariant
                    width == n - r,
                    row@.len() == width + 1,
                    c <= width,
                    fold_checked(
                        c as nat,
                        Seq::empty(),
                        casteljau_cell_step(row@, num, den, domain),
                    ) == Ok::<Seq<Iv32>, NumericError>(next@),
                    next@.len() == c,
                    num == numerator,
                    den == denominator,
                decreases width - c,
            {
                match bernstein_lerp_ratio(row[c], row[c + 1], numerator, denominator, domain) {
                    Ok(v) => {
                        next.push(v);
                    },
                    Err(e) => {
                        proof {
                            lemma_fold_error_persists(
                                (c + 1) as nat,
                                width as nat,
                                Seq::empty(),
                                casteljau_cell_step(row@, num, den, domain),
                            );
                            assert(casteljau_row(row@, num, den, domain) is Err);
                            assert(casteljau_row_step(num, den, domain)(
                                (row@, lefts@, rights@),
                                r as int,
                            ) is Err);
                            lemma_fold_next(
                                r as nat,
                                (cs, seq![cs[0]], seq![cs[cs.len() - 1]]),
                                casteljau_row_step(num, den, domain),
                            );
                            assert(fold_checked(
                                (r + 1) as nat,
                                (cs, seq![cs[0]], seq![cs[cs.len() - 1]]),
                                casteljau_row_step(num, den, domain),
                            ) is Err);
                            lemma_fold_error_persists(
                                (r + 1) as nat,
                                n as nat,
                                (cs, seq![cs[0]], seq![cs[cs.len() - 1]]),
                                casteljau_row_step(num, den, domain),
                            );
                        }
                        return Err(e);
                    },
                }
                c = c + 1;
            }
            proof {
                assert(casteljau_row(row@, num, den, domain) == Ok::<Seq<Iv32>, NumericError>(
                    next@,
                ));
            }
            lefts.push(next[0]);
            rights.push(next[width - 1]);
            row = next;
            r = r + 1;
        }
        let mut left = [zero_point();9];
        let mut right = [zero_point();9];
        let mut i: usize = 0;
        while i <= n
            invariant
                n == self.degree,
                n <= 8,
                i <= n + 1,
                lefts@.len() == n + 1,
                rights@.len() == n + 1,
                left@.len() == 9,
                right@.len() == 9,
                forall|j: int|
                    0 <= j < 9 ==> left@[j] == (if j < i {
                        lefts@[j]
                    } else {
                        zero_iv()
                    }),
                forall|j: int|
                    0 <= j < 9 ==> right@[j] == (if j < i {
                        rights@.reverse()[j]
                    } else {
                        zero_iv()
                    }),
            decreases n + 1 - i,
        {
            left[i] = lefts[i];
            right[i] = rights[n - i];
            i = i + 1;
        }
        proof {
            assert(left@ =~= padded(lefts@));
            assert(right@ =~= padded(rights@.reverse()));
        }
        Ok(
            (
                Bernstein { coefficients: left, degree: self.degree },
                Bernstein { coefficients: right, degree: self.degree },
            ),
        )
    }
}


/// `value` multiplied by `variable` `power` times.
pub open spec fn power_step(variable: Iv32, domain: FixedDomain) -> spec_fn(Iv32, int) -> Result<
    Iv32,
    NumericError,
> {
    |acc: Iv32, k: int| acc.spec_multiply(variable, domain)
}

/// The term's coefficient times each variable raised to its power, in variable order.
pub open spec fn term_step(term: SparseTerm, variables: Seq<Iv32>, domain: FixedDomain) -> spec_fn(
    Iv32,
    int,
) -> Result<Iv32, NumericError> {
    |acc: Iv32, j: int|
        fold_checked(term.powers@[j] as nat, acc, power_step(variables[j], domain))
}

pub open spec fn term_value(term: SparseTerm, variables: Seq<Iv32>, domain: FixedDomain) -> Result<
    Iv32,
    NumericError,
> {
    fold_checked(4, term.coefficient, term_step(term, variables, domain))
}

pub open spec fn sparse_step(terms: Seq<SparseTerm>, variables: Seq<Iv32>, domain: FixedDomain) -> spec_fn(
    Iv32,
    int,
) -> Result<Iv32, NumericError> {
    |acc: Iv32, t: int|
        match term_value(terms[t], variables, domain) {
            Ok(v) => acc.spec_add(v, domain),
            Err(e) => Err(e),
        }
}

pub open spec fn sparse_shape_ok(terms: Seq<SparseTerm>) -> bool {
    terms.len() <= MAX_SPARSE_TERMS && forall|t: int, j: int|
        0 <= t < terms.len() && 0 <= j < 4 ==> terms[t].powers@[j] <= MAX_DEGREE
}

pub open spec fn spec_evaluate_sparse(terms: Seq<SparseTerm>, variables: Seq<Iv32>, domain: FixedDomain) -> Result<
    Iv32,
    NumericError,
> {
    if !sparse_shape_ok(terms) {
        Err(NumericError::UnsupportedShape)
    } else {
        fold_checked(terms.len(), zero_iv(), sparse_step(terms, variables, domain))
    }
}

/// Exact value, in raw units, of `acc` multiplied `p` times by the rational
/// `x`, each product at the domain scale `2^shift`.
pub open spec fn exact_power(acc: (int, int), x: (int, int), shift: int, p: nat) -> (int, int)
    decreases p,
{
    if p == 0 {
        acc
    } else {
        let a = exact_power(acc, x, shift, (p - 1) as nat);
        scaled_ratio_product(a.0, a.1, x.0, x.1, shift)
    }
}

/// Exact value of a term after its first `j` variables: the coefficient
/// value times each variable value raised to its power.
pub open spec fn exact_term(c: (int, int), xs: Seq<(int, int)>, powers: Seq<u8>, shift: int, j: nat) -> (
    int,
    int,
)
    decreases j,
{
    if j == 0 {
        c
    } else {
        exact_power(exact_term(c, xs, powers, shift, (j - 1) as nat), xs[j - 1], shift, powers[j - 1] as nat)
    }
}

/// Exact sum of the first `t` terms, for coefficient values `cs` and
/// variable values `xs`.
pub open spec fn exact_sparse(
    cs: Seq<(int, int)>,
    xs: Seq<(int, int)>,
    terms: Seq<SparseTerm>,
    shift: int,
    t: nat,
) -> (int, int)
    decreases t,
{
    if t == 0 {
        (0, 1)
    } else {
        let s = exact_sparse(cs, xs, terms, shift, (t - 1) as nat);
        let v = exact_term(cs[t - 1], xs, terms[t - 1].powers@, shift, 4);
        (s.0 * v.1 + v.0 * s.1, s.1 * v.1)
    }
}

proof fn lemma_power_encloses(acc: Iv32, a: (int, int), variable: Iv32, x: (int, int), domain: FixedDomain, p: nat)
    requires
        a.1 > 0,
        encloses_ratio(acc, a.0, a.1),
        x.1 > 0,
        encloses_ratio(variable, x.0, x.1),
    ensures
        exact_power(a, x, domain.exponent as int, p).1 > 0,
        fold_checked(p, acc, power_step(variable, domain)) matches Ok(r) ==> encloses_ratio(
            r,
            exact_power(a, x, domain.exponent as int, p).0,
            exact_power(a, x, domain.exponent as int, p).1,
        ),
    decreases p,
{
    if p > 0 {
        lemma_power_encloses(acc, a, variable, x, domain, (p - 1) as nat);
        let prev = exact_power(a, x, domain.exponent as int, (p - 1) as nat);
        lemma_scaled_product_positive(prev.0, prev.1, x.0, x.1, domain.exponent as int);
        match fold_checked((p - 1) as nat, acc, power_step(variable, domain)) {
            Ok(r) => {
                interval_arithmetic_encloses_ratios(r, variable, domain, prev.0, prev.1, x.0, x.1);
            },
            Err(_) => {},
        }
    }
}

proof fn lemma_scaled_product_positive(n1: int, d1: int, n2: int, d2: int, shift: int)
    requires
        d1 > 0,
        d2 > 0,
    ensures
        scaled_ratio_product(n1, d1, n2, d2, shift).1 > 0,
{
    assert(d1 * d2 > 0) by (nonlinear_arith)
        requires
            d1 > 0,
            d2 > 0,
    ;
    if shift < 0 {
        crate::dyadic::lemma_two_pow_pos((-shift) as nat);
        let p = crate::dyadic::two_pow((-shift) as nat) as int;
        assert(d1 * d2 * p > 0) by (nonlinear_arith)
            requires
                d1 * d2 > 0,
                p >= 1,
        ;
    }
}

proof fn lemma_term_encloses(
    term: SparseTerm,
    variables: Seq<Iv32>,
    domain: FixedDomain,
    c: (int, int),
    xs: Seq<(int, int)>,
    j: nat,
)
    requires
        j <= 4,
        variables.len() == 4,
        xs.len() == 4,
        c.1 > 0,
        encloses_ratio(term.coefficient, c.0, c.1),
        forall|i: int| 0 <= i < 4 ==> (#[trigger] xs[i]).1 > 0 && encloses_ratio(variables[i], xs[i].0, xs[i].1),
    ensures
        exact_term(c, xs, term.powers@, domain.exponent as int, j).1 > 0,
        fold_checked(j, term.coefficient, term_step(term, variables, domain)) matches Ok(r) ==> encloses_ratio(
            r,
            exact_term(c, xs, term.powers@, domain.exponent as int, j).0,
            exact_term(c, xs, term.powers@, domain.exponent as int, j).1,
        ),
    decreases j,
{
    if j > 0 {
        lemma_term_encloses(term, variables, domain, c, xs, (j - 1) as nat);
        let prev = exact_term(c, xs, term.powers@, domain.exponent as int, (j - 1) as nat);
        let x = xs[j - 1];
        assert(x.1 > 0 && encloses_ratio(variables[j - 1], x.0, x.1));
        match fold_checked((j - 1) as nat, term.coefficient, term_step(term, variables, domain)) {
            Ok(r) => {
                lemma_power_encloses(r, prev, variables[j - 1], x, domain, term.powers@[j - 1] as nat);
            },
            Err(_) => {
                lemma_power_positive(prev, x, domain.exponent as int, term.powers@[j - 1] as nat);
            },
        }
    }
}

proof fn lemma_power_positive(a: (int, int), x: (int, int), shift: int, p: nat)
    requires
        a.1 > 0,
        x.1 > 0,
    ensures
        exact_power(a, x, shift, p).1 > 0,
    decreases p,
{
    if p > 0 {
        lemma_power_positive(a, x, shift, (p - 1) as nat);
        let prev = exact_power(a, x, shift, (p - 1) as nat);
        lemma_scaled_product_positive(prev.0, prev.1, x.0, x.1, shift);
    }
}

proof fn lemma_sparse_encloses(
    terms: Seq<SparseTerm>,
    variables: Seq<Iv32>,
    domain: FixedDomain,
    cs: Seq<(int, int)>,
    xs: Seq<(int, int)>,
    t: nat,
)
    requires
        t <= terms.len(),
        cs.len() == terms.len(),
        variables.len() == 4,
        xs.len() == 4,
        forall|k: int|
            0 <= k < terms.len() ==> (#[trigger] cs[k]).1 > 0 && encloses_ratio(terms[k].coefficient, cs[k].0, cs[k].1),
        forall|i: int| 0 <= i < 4 ==> (#[trigger] xs[i]).1 > 0 && encloses_ratio(variables[i], xs[i].0, xs[i].1),
    ensures
        exact_sparse(cs, xs, terms, domain.exponent as int, t).1 > 0,
        fold_checked(t, zero_iv(), sparse_step(terms, variables, domain)) matches Ok(r) ==> encloses_ratio(
            r,
            exact_sparse(cs, xs, terms, domain.exponent as int, t).0,
            exact_sparse(cs, xs, terms, domain.exponent as int, t).1,
        ),
    decreases t,
{
    if t > 0 {
        lemma_sparse_encloses(terms, variables, domain, cs, xs, (t - 1) as nat);
        let e = domain.exponent as int;
        let s = exact_sparse(cs, xs, terms, e, (t - 1) as nat);
        let c = cs[t - 1];
        assert(c.1 > 0 && encloses_ratio(terms[t - 1].coefficient, c.0, c.1));
        lemma_term_encloses(terms[t - 1], variables, domain, c, xs, 4);
        let v = exact_term(c, xs, terms[t - 1].powers@, e, 4);
        assert(s.1 * v.1 > 0) by (nonlinear_arith)
            requires
                s.1 > 0,
                v.1 > 0,
        ;
        match fold_checked((t - 1) as nat, zero_iv(), sparse_step(terms, variables, domain)) {
            Ok(acc) => match term_value(terms[t - 1], variables, domain) {
                Ok(tv) => {
                    interval_arithmetic_encloses_ratios(acc, tv, domain, s.0, s.1, v.0, v.1);
                },
                Err(_) => {},
            },
            Err(_) => {},
        }
    }
}

/// Sparse evaluation encloses the exact polynomial: for any coefficient
/// values held by the terms' coefficient intervals and any variable values
/// held by the variable intervals, a returned value holds the exact sum over
/// the terms of coefficient times each variable raised to its power, in raw
/// units.
pub proof fn sparse_evaluation_encloses(
    terms: Seq<SparseTerm>,
    variables: Seq<Iv32>,
    domain: FixedDomain,
    cs: Seq<(int, int)>,
    xs: Seq<(int, int)>,
)
    requires
        cs.len() == terms.len(),
        variables.len() == 4,
        xs.len() == 4,
        forall|k: int|
            0 <= k < terms.len() ==> (#[trigger] cs[k]).1 > 0 && encloses_ratio(terms[k].coefficient, cs[k].0, cs[k].1),
        forall|i: int| 0 <= i < 4 ==> (#[trigger] xs[i]).1 > 0 && encloses_ratio(variables[i], xs[i].0, xs[i].1),
    ensures
        exact_sparse(cs, xs, terms, domain.exponent as int, terms.len()).1 > 0,
        spec_evaluate_sparse(terms, variables, domain) matches Ok(r) ==> encloses_ratio(
            r,
            exact_sparse(cs, xs, terms, domain.exponent as int, terms.len()).0,
            exact_sparse(cs, xs, terms, domain.exponent as int, terms.len()).1,
        ),
{
    lemma_sparse_encloses(terms, variables, domain, cs, xs, terms.len());
}

#[verifier::loop_isolation(false)]
pub fn evaluate_sparse(terms: &[SparseTerm], variables: [Iv32; 4], domain: FixedDomain) -> (r: Result<
    Iv32,
    NumericError,
>)
    ensures
        r == spec_evaluate_sparse(terms@, variables@, domain),
{
    if terms.len() > MAX_SPARSE_TERMS {
        return Err(NumericError::UnsupportedShape);
    }
    let mut t: usize = 0;
    while t < terms.len()
        invariant
            terms@.len() <= MAX_SPARSE_TERMS,
            t <= terms@.len(),
            forall|u: int, j: int| 0 <= u < t && 0 <= j < 4 ==> terms@[u].powers@[j] <= MAX_DEGREE,
        decreases terms@.len() - t,
    {
        let mut j: usize = 0;
        while j < 4
            invariant
                t < terms@.len(),
                j <= 4,
                forall|i: int| 0 <= i < j ==> terms@[t as int].powers@[i] <= MAX_DEGREE,
            decreases 4 - j,
        {
            if terms[t].powers[j] as usize > MAX_DEGREE {
                return Err(NumericError::UnsupportedShape);
            }
            j = j + 1;
        }
        t = t + 1;
    }
    let ghost vars = variables@;
    let mut sum = zero_point();
    let mut t: usize = 0;
    while t < terms.len()
        invariant
            sparse_shape_ok(terms@),
            vars == variables@,
            vars.len() == 4,
            t <= terms@.len(),
            fold_checked(t as nat, zero_iv(), sparse_step(terms@, vars, domain)) == Ok::<
                Iv32,
                NumericError,
            >(sum),
        decreases terms@.len() - t,
    {
        let term = terms[t];
        let mut value = term.coefficient;
        let mut j: usize = 0;
        while j < 4
            invariant
                j <= 4,
                t < terms@.len(),
                term == terms@[t as int],
                vars == variables@,
                vars.len() == 4,
                fold_checked(j as nat, term.coefficient, term_step(term, vars, domain)) == Ok::<
                    Iv32,
                    NumericError,
                >(value),
            decreases 4 - j,
        {
            let power = term.powers[j];
            let ghost start = value;
            let mut p: u8 = 0;
            while p < power
                invariant
                    p <= power,
                    j < 4,
                    power == term.powers@[j as int],
                    fold_checked(j as nat, term.coefficient, term_step(term, vars, domain)) == Ok::<
                        Iv32,
                        NumericError,
                    >(start),
                    fold_checked(p as nat, start, power_step(vars[j as int], domain)) == Ok::<
                        Iv32,
                        NumericError,
                    >(value),
                    vars == variables@,
                decreases power - p,
            {
                proof {
                    lemma_fold_next(p as nat, start, power_step(vars[j as int], domain));
                }
                match value.multiply(variables[j], domain) {
                    Ok(v) => {
                        value = v;
                    },
                    Err(e) => {
                        proof {
                            lemma_fold_error_persists(
                                (p + 1) as nat,
                                power as nat,
                                start,
                                power_step(vars[j as int], domain),
                            );
                            lemma_fold_next(j as nat, term.coefficient, term_step(term, vars, domain));
                            lemma_fold_error_persists(
                                (j + 1) as nat,
                                4,
                                term.coefficient,
                                term_step(term, vars, domain),
                            );
                            lemma_fold_next(t as nat, zero_iv(), sparse_step(terms@, vars, domain));
                            lemma_fold_error_persists(
                                (t + 1) as nat,
                                terms@.len(),
                                zero_iv(),
                                sparse_step(terms@, vars, domain),
                            );
                        }
                        return Err(e);
                    },
                }
                p = p + 1;
            }
            proof {
                lemma_fold_next(j as nat, term.coefficient, term_step(term, vars, domain));
            }
            j = j + 1;
        }
        proof {
            lemma_fold_next(t as nat, zero_iv(), sparse_step(terms@, vars, domain));
        }
        match sum.add(value, domain) {
            Ok(v) => {
                sum = v;
            },
            Err(e) => {
                proof {
                    lemma_fold_error_persists(
                        (t + 1) as nat,
                        terms@.len(),
                        zero_iv(),
                        sparse_step(terms@, vars, domain),
                    );
                }
                return Err(e);
            },
        }
        t = t + 1;
    }
    Ok(sum)
}

pub fn taylor_with_remainder(polynomial: Polynomial, x: Iv32, remainder: Iv32, domain: FixedDomain) -> (r: Result<
    Iv32,
    NumericError,
>)
    requires
        polynomial.wf(),
    ensures
        r == (match polynomial.spec_evaluate(x, domain) {
            Ok(v) => v.spec_add(remainder, domain),
            Err(e) => Err(e),
        }),
{
    polynomial.evaluate(x, domain)?.add(remainder, domain)
}

/// Step of the product of `left` and `right`: adds `left[i] * right[j]` at
/// `i + j`, for the pair number `t = i * (right_len) + j`.
pub open spec fn product_step(left: Seq<Iv32>, right: Seq<Iv32>, domain: FixedDomain) -> spec_fn(
    Seq<Iv32>,
    int,
) -> Result<Seq<Iv32>, NumericError> {
    |acc: Seq<Iv32>, t: int|
        {
            let i = t / (right.len() as int);
            let j = t % (right.len() as int);
            match left[i].spec_multiply(right[j], domain) {
                Ok(p) => match acc[i + j].spec_add(p, domain) {
                    Ok(s) => Ok(acc.update(i + j, s)),
                    Err(e) => Err(e),
                },
                Err(e) => Err(e),
            }
        }
}

/// Product of two coefficient sequences, as a padded sequence and a degree.
pub open spec fn spec_multiply_polynomials(left: Seq<Iv32>, right: Seq<Iv32>, domain: FixedDomain) -> Result<
    (Seq<Iv32>, nat),
    NumericError,
> {
    let degree = (left.len() - 1) + (right.len() - 1);
    if degree > MAX_DEGREE {
        Err(NumericError::UnsupportedShape)
    } else {
        match fold_checked(
            left.len() * right.len(),
            padded(Seq::empty()),
            product_step(left, right, domain),
        ) {
            Ok(s) => Ok((padded(s.subrange(0, degree + 1)), degree as nat)),
            Err(e) => Err(e),
        }
    }
}

proof fn lemma_pair_index(i: int, j: int, ld: int, rd: int)
    requires
        0 <= i <= ld,
        0 <= j <= rd,
    ensures
        (i * (rd + 1) + j) / (rd + 1) == i,
        (i * (rd + 1) + j) % (rd + 1) == j,
        i * (rd + 1) + j + 1 <= (ld + 1) * (rd + 1),
        0 <= i * (rd + 1) + j,
{
    let t = i * (rd + 1) + j;
    assert(t / (rd + 1) == i && t % (rd + 1) == j) by (nonlinear_arith)
        requires
            t == i * (rd + 1) + j,
            0 <= j <= rd,
            i >= 0,
    ;
    assert(t + 1 <= (ld + 1) * (rd + 1) && 0 <= t) by (nonlinear_arith)
        requires
            t == i * (rd + 1) + j,
            0 <= j <= rd,
            0 <= i <= ld,
    ;
}

proof fn lemma_pair_next_row(i: int, rd: int)
    ensures
        (i + 1) * (rd + 1) == i * (rd + 1) + (rd + 1),
{
    assert((i + 1) * (rd + 1) == i * (rd + 1) + (rd + 1)) by (nonlinear_arith);
}

#[verifier::loop_isolation(false)]
#[verifier::rlimit(50)]
fn multiply_polynomials(left: Polynomial, right: Polynomial, domain: FixedDomain) -> (r: Result<
    Polynomial,
    NumericError,
>)
    requires
        left.wf(),
        right.wf(),
    ensures
        match r {
            Ok(p) => spec_multiply_polynomials(left.active(), right.active(), domain) == Ok::<
                (Seq<Iv32>, nat),
                NumericError,
            >((p.coefficients@, p.degree as nat)),
            Err(e) => spec_multiply_polynomials(left.active(), right.active(), domain) == Err::<
                (Seq<Iv32>, nat),
                NumericError,
            >(e),
        },
{
    let ld: usize = left.degree as usize;
    let rd: usize = right.degree as usize;
    let degree: usize = ld + rd;
    if degree > MAX_DEGREE {
        return Err(NumericError::UnsupportedShape);
    }
    let ghost ls = left.active();
    let ghost rs = right.active();
    let ghost step = product_step(ls, rs, domain);
    let mut coefficients = [zero_point();9];
    proof {
        assert(coefficients@ =~= padded(Seq::empty()));
        assert(left.coefficients@.len() == 9);
        assert(right.coefficients@.len() == 9);
    }
    let mut i: usize = 0;
    while i <= ld
        invariant
            i <= ld + 1,
            coefficients@.len() == 9,
            fold_checked((i * (rd + 1)) as nat, padded(Seq::empty()), step) == Ok::<
                Seq<Iv32>,
                NumericError,
            >(coefficients@),
        decreases ld + 1 - i,
    {
        let mut j: usize = 0;
        while j <= rd
            invariant
                i <= ld,
                j <= rd + 1,
                coefficients@.len() == 9,
                fold_checked((i * (rd + 1) + j) as nat, padded(Seq::empty()), step) == Ok::<
                    Seq<Iv32>,
                    NumericError,
                >(coefficients@),
            decreases rd + 1 - j,
        {
            let ghost t = (i * (rd + 1) + j) as int;
            proof {
                lemma_pair_index(i as int, j as int, ld as int, rd as int);
                assert(rs.len() == rd + 1);
                assert(ls[i as int] == left.coefficients@[i as int]);
                assert(rs[j as int] == right.coefficients@[j as int]);
                lemma_fold_next(t as nat, padded(Seq::empty()), step);
            }
            let product = match left.coefficients[i].multiply(right.coefficients[j], domain) {
                Ok(p) => p,
                Err(e) => {
                    proof {
                        lemma_fold_error_persists(
                            (t + 1) as nat,
                            ls.len() * rs.len(),
                            padded(Seq::empty()),
                            step,
                        );
                    }
                    return Err(e);
                },
            };
            match coefficients[i + j].add(product, domain) {
                Ok(v) => {
                    coefficients[i + j] = v;
                },
                Err(e) => {
                    proof {
                        lemma_fold_error_persists(
                            (t + 1) as nat,
                            ls.len() * rs.len(),
                            padded(Seq::empty()),
                            step,
                        );
                    }
                    return Err(e);
                },
            }
            j = j + 1;
        }
        proof {
            lemma_pair_next_row(i as int, rd as int);
        }
        i = i + 1;
    }
    proof {
        lemma_pair_next_row(ld as int, rd as int);
        assert(ls.len() * rs.len() == (ld + 1) * (rd + 1));
    }
    let slice = &coefficients[0..degree + 1];
    proof {
        assert(slice@ =~= coefficients@.subrange(0, degree + 1));
    }
    Polynomial::new(slice)
}

/// Step of composition: the result so far times the inner polynomial, plus
/// the next outer coefficient (highest first).
pub open spec fn compose_step(outer: Seq<Iv32>, candidate: Seq<Iv32>, domain: FixedDomain) -> spec_fn(
    (Seq<Iv32>, nat),
    int,
) -> Result<(Seq<Iv32>, nat), NumericError> {
    |acc: (Seq<Iv32>, nat), k: int|
        match spec_multiply_polynomials(acc.0.subrange(0, (acc.1 + 1) as int), candidate, domain) {
            Ok(p) => match p.0[0].spec_add(outer[outer.len() - 1 - k], domain) {
                Ok(c0) => Ok((p.0.update(0, c0), p.1)),
                Err(e) => Err(e),
            },
            Err(e) => Err(e),
        }
}

/// Horner composition: start from the leading outer coefficient, then
/// `degree` times multiply by the inner polynomial and add the next outer
/// coefficient. Only a composed degree `outer.degree * candidate.degree`
/// above eight is refused as a shape.
pub open spec fn spec_compose_univariate(outer: Polynomial, candidate: Polynomial, domain: FixedDomain) -> Result<
    (Seq<Iv32>, nat),
    NumericError,
> {
    let os = outer.active();
    if outer.degree * candidate.degree > MAX_DEGREE {
        Err(NumericError::UnsupportedShape)
    } else {
        match zero_iv().spec_add(os[os.len() - 1], domain) {
            Err(e) => Err(e),
            Ok(top) => fold_checked(
                outer.degree as nat,
                (padded(seq![top]), 0),
                compose_step(os.drop_last(), candidate.active(), domain),
            ),
        }
    }
}

/// Checked generated composition `outer(candidate(x))`. Shapes whose
/// composed degree exceeds eight fail explicitly.
#[verifier::loop_isolation(false)]
pub fn compose_univariate(outer: Polynomial, candidate: Polynomial, domain: FixedDomain) -> (r: Result<
    Polynomial,
    NumericError,
>)
    requires
        outer.wf(),
        candidate.wf(),
    ensures
        match r {
            Ok(p) => spec_compose_univariate(outer, candidate, domain) == Ok::<
                (Seq<Iv32>, nat),
                NumericError,
            >((p.coefficients@, p.degree as nat)),
            Err(e) => spec_compose_univariate(outer, candidate, domain) == Err::<
                (Seq<Iv32>, nat),
                NumericError,
            >(e),
        },
{
    proof {
        let a = outer.degree as int;
        let b = candidate.degree as int;
        assert(0 <= a * b <= 64) by (nonlinear_arith)
            requires
                0 <= a <= 8,
                0 <= b <= 8,
        ;
    }
    if outer.degree as usize * candidate.degree as usize > MAX_DEGREE {
        return Err(NumericError::UnsupportedShape);
    }
    let ghost os = outer.active();
    let ghost cs = candidate.active();
    let n: usize = outer.degree as usize;
    let top = zero_point().add(outer.coefficients[n], domain)?;
    let z = [top];
    proof {
        assert(z@ =~= seq![top]);
    }
    let mut result = Polynomial::new(&z)?;
    let ghost rest = os.drop_last();
    let ghost step = compose_step(rest, cs, domain);
    let ghost init = (padded(seq![top]), 0nat);
    let mut k: usize = 0;
    while k < n
        invariant
            k <= n,
            n + 1 == os.len(),
            rest.len() == n,
            result.wf(),
            fold_checked(k as nat, init, step) == Ok::<
                (Seq<Iv32>, nat),
                NumericError,
            >((result.coefficients@, result.degree as nat)),
        decreases n - k,
    {
        proof {
            lemma_fold_next(k as nat, init, step);
            assert(result.active() == result.coefficients@.subrange(0, result.degree + 1));
            assert(rest[(n - 1 - k) as int] == outer.coefficients@[(n - 1 - k) as int]);
        }
        match multiply_polynomials(result, candidate, domain) {
            Ok(p) => {
                let coefficient = outer.coefficients[n - 1 - k];
                match p.coefficients[0].add(coefficient, domain) {
                    Ok(c0) => {
                        let mut next = p;
                        next.coefficients[0] = c0;
                        proof {
                            assert(next.coefficients@ =~= p.coefficients@.update(0, c0));
                        }
                        result = next;
                    },
                    Err(e) => {
                        proof {
                            lemma_fold_error_persists((k + 1) as nat, n as nat, init, step);
                        }
                        return Err(e);
                    },
                }
            },
            Err(e) => {
                proof {
                    lemma_fold_error_persists((k + 1) as nat, n as nat, init, step);
                }
                return Err(e);
            },
        }
        k = k + 1;
    }
    Ok(result)
}

pub fn bernstein_average(a: Iv32, b: Iv32, domain: FixedDomain) -> (r: Result<Iv32, NumericError>)
    ensures
        r == raw_interval_spec(
            floor_div(a.lo + b.lo, 2),
            ceil_div(a.hi + b.hi, 2),
            domain,
        ),
{
    let low: i128 = a.lo as i128 + b.lo as i128;
    let high: i128 = a.hi as i128 + b.hi as i128;
    checked_raw_interval(floor_div_wide(low, 2), -floor_div_wide(-high, 2), domain)
}

/// Scans coefficient signs, counting strict sign changes and skipping exact
/// zeros. `None` when a coefficient straddles zero without being zero.
pub open spec fn sign_scan(cs: Seq<Iv32>, m: nat) -> Option<(int, nat)>
    decreases m,
{
    if m == 0 {
        Some((0, 0))
    } else {
        match sign_scan(cs, (m - 1) as nat) {
            None => None,
            Some((previous, variations)) => {
                let c = cs[m - 1];
                if c.lo > 0 || c.hi < 0 {
                    let sign = if c.lo > 0 {
                        1int
                    } else {
                        -1int
                    };
                    Some(
                        (
                            sign,
                            if previous != 0 && sign != previous {
                                variations + 1
                            } else {
                                variations
                            },
                        ),
                    )
                } else if c.lo == 0 && c.hi == 0 {
                    Some((previous, variations))
                } else {
                    None
                }
            },
        }
    }
}

proof fn lemma_sign_scan_none_persists(cs: Seq<Iv32>, m: nat, n: nat)
    requires
        m <= n,
        sign_scan(cs, m) is None,
    ensures
        sign_scan(cs, n) is None,
    decreases n - m,
{
    if m < n {
        lemma_sign_scan_none_persists(cs, m, (n - 1) as nat);
    }
}

fn zero_point() -> (r: Iv32)
    ensures
        r == zero_iv(),
{
    Iv32::point(0)
}

pub fn bernstein_lerp_ratio(
    a: Iv32,
    b: Iv32,
    numerator: u64,
    denominator: u64,
    domain: FixedDomain,
) -> (r: Result<Iv32, NumericError>)
    ensures
        r == lerp_spec(a, b, numerator as int, denominator as int, domain),
{
    if numerator > 0x7fff_ffff_ffff_ffff || denominator > 0x7fff_ffff_ffff_ffff || numerator == 0
        || numerator >= denominator {
        return Err(NumericError::InvalidDomain);
    }
    a.intersect(a, domain)?;
    b.intersect(b, domain)?;
    let num = numerator as i128;
    let den = denominator as i128;
    let complement = den - num;
    proof {
        let al = a.lo as int;
        let ah = a.hi as int;
        let bl = b.lo as int;
        let bh = b.hi as int;
        let ci = complement as int;
        let ni = num as int;
        assert(-0x8000_0000 * 0x8000_0000_0000_0000 <= al * ci <= 0x8000_0000
            * 0x8000_0000_0000_0000) by (nonlinear_arith)
            requires
                -0x8000_0000 <= al <= 0x8000_0000,
                0 <= ci <= 0x8000_0000_0000_0000,
        ;
        assert(-0x8000_0000 * 0x8000_0000_0000_0000 <= ah * ci <= 0x8000_0000
            * 0x8000_0000_0000_0000) by (nonlinear_arith)
            requires
                -0x8000_0000 <= ah <= 0x8000_0000,
                0 <= ci <= 0x8000_0000_0000_0000,
        ;
        assert(-0x8000_0000 * 0x8000_0000_0000_0000 <= bl * ni <= 0x8000_0000
            * 0x8000_0000_0000_0000) by (nonlinear_arith)
            requires
                -0x8000_0000 <= bl <= 0x8000_0000,
                0 <= ni <= 0x8000_0000_0000_0000,
        ;
        assert(-0x8000_0000 * 0x8000_0000_0000_0000 <= bh * ni <= 0x8000_0000
            * 0x8000_0000_0000_0000) by (nonlinear_arith)
            requires
                -0x8000_0000 <= bh <= 0x8000_0000,
                0 <= ni <= 0x8000_0000_0000_0000,
        ;
    }
    let low_numerator: i128 = a.lo as i128 * complement + b.lo as i128 * num;
    let high_numerator: i128 = a.hi as i128 * complement + b.hi as i128 * num;
    let lo = floor_div_wide(low_numerator, den);
    let hi = -floor_div_wide(-high_numerator, den);
    if lo < -0x8000_0000 || lo > 0x7fff_ffff || hi < -0x8000_0000 || hi > 0x7fff_ffff {
        return Err(NumericError::Overflow);
    }
    let result = Iv32::new(lo as i32, hi as i32)?;
    match result.intersect(result, domain)? {
        Some(v) => Ok(v),
        None => Err(NumericError::DomainMismatch),
    }
}

/// `floor(v / d)` for values well inside `i128`.
fn floor_div_wide(v: i128, d: i128) -> (r: i128)
    requires
        0 < d <= 0x8000_0000_0000_0000,
        -0x1_0000_0000_0000_0000_0000_0000 <= v <= 0x1_0000_0000_0000_0000_0000_0000,
    ensures
        r == floor_div(v as int, d as int),
        -0x1_0000_0000_0000_0000_0000_0000 <= r <= 0x1_0000_0000_0000_0000_0000_0000,
{
    if v >= 0 {
        let q = v / d;
        proof {
            let vi = v as int;
            let di = d as int;
            assert(0 <= vi / di <= vi) by (nonlinear_arith)
                requires
                    vi >= 0,
                    di >= 1,
            ;
        }
        q
    } else {
        let n: i128 = -v;
        let q = (n + d - 1) / d;
        proof {
            let vi = v as int;
            let di = d as int;
            let ni = n as int;
            let qi = q as int;
            assert(vi / di == -qi && 1 <= qi <= ni) by (nonlinear_arith)
                requires
                    qi == (ni + di - 1) / di,
                    ni == -vi,
                    ni >= 1,
                    di >= 1,
            ;
        }
        -q
    }
}

fn multiply_integer(interval: Iv32, value: usize, domain: FixedDomain) -> (r: Result<
    Iv32,
    NumericError,
>)
    requires
        value <= 8,
    ensures
        r == multiply_integer_spec(interval, value as int, domain),
{
    proof {
        let l = interval.lo as int;
        let h = interval.hi as int;
        let v = value as int;
        assert(-0x8000_0000 * 8 <= l * v <= 0x8000_0000 * 8) by (nonlinear_arith)
            requires
                -0x8000_0000 <= l <= 0x8000_0000,
                0 <= v <= 8,
        ;
        assert(-0x8000_0000 * 8 <= h * v <= 0x8000_0000 * 8) by (nonlinear_arith)
            requires
                -0x8000_0000 <= h <= 0x8000_0000,
                0 <= v <= 8,
        ;
    }
    checked_raw_interval(interval.lo as i128 * value as i128, interval.hi as i128 * value as i128, domain)
}

fn checked_raw_interval(lo: i128, hi: i128, domain: FixedDomain) -> (r: Result<Iv32, NumericError>)
    ensures
        r == raw_interval_spec(lo as int, hi as int, domain),
{
    domain.validate()?;
    if lo < -0x8000_0000 || lo > 0x7fff_ffff || hi < -0x8000_0000 || hi > 0x7fff_ffff {
        return Err(NumericError::Overflow);
    }
    if lo < domain.min_raw as i128 || hi > domain.max_raw as i128 {
        return Err(NumericError::Overflow);
    }
    Iv32::new(lo as i32, hi as i32)
}

fn factorial_exec(n: usize) -> (r: i128)
    requires
        n <= 8,
    ensures
        r == factorial(n as nat),
        1 <= r <= 40320,
{
    let mut r: i128 = 1;
    let mut i: usize = 0;
    while i < n
        invariant
            i <= n <= 8,
            r == factorial(i as nat),
            1 <= r <= 40320,
        decreases n - i,
    {
        proof {
            lemma_factorial_bounds((i + 1) as nat);
            assert(factorial((i + 1) as nat) == (i + 1) * factorial(i as nat));
            assert(r * (i + 1) == factorial((i + 1) as nat));
        }
        i = i + 1;
        r = r * i as i128;
    }
    r
}

proof fn lemma_factorial_pos(n: nat)
    ensures
        factorial(n) >= 1,
    decreases n,
{
    if n > 0 {
        lemma_factorial_pos((n - 1) as nat);
        assert(n * factorial((n - 1) as nat) >= 1) by (nonlinear_arith)
            requires
                n >= 1,
                factorial((n - 1) as nat) >= 1,
        ;
    }
}

proof fn lemma_factorial_monotone(m: nat, n: nat)
    requires
        m <= n,
    ensures
        1 <= factorial(m) <= factorial(n),
    decreases n,
{
    lemma_factorial_pos(m);
    if m < n {
        lemma_factorial_monotone(m, (n - 1) as nat);
        let f = factorial((n - 1) as nat);
        assert(f <= n * f) by (nonlinear_arith)
            requires
                n >= 1,
                f >= 1,
        ;
    }
}

proof fn lemma_factorial_bounds(n: nat)
    requires
        n <= 8,
    ensures
        1 <= factorial(n) <= 40320,
{
    reveal_with_fuel(factorial, 9);
    assert(factorial(8) == 40320);
    lemma_factorial_monotone(n, 8);
}

/// `n! * sum_{i<=k} C(k,i)/C(n,i) * c_i` from the stored coefficients.
fn bernstein_sum(cs: &[Iv32; MAX_COEFFICIENTS], n: usize, k: usize, upper: bool) -> (r: i128)
    requires
        k <= n <= 8,
    ensures
        r == bernstein_numerator(cs@.subrange(0, n + 1), n as nat, k as nat, upper, (k + 1) as nat),
        -0x100_0000_0000_0000_0000_0000 <= r <= 0x100_0000_0000_0000_0000_0000,
{
    let ghost active = cs@.subrange(0, n + 1);
    let nf = factorial_exec(n);
    let kf = factorial_exec(k);
    let mut sum: i128 = 0;
    let mut i: usize = 0;
    while i <= k
        invariant
            k <= n <= 8,
            active == cs@.subrange(0, n + 1),
            i <= k + 1,
            kf == factorial(k as nat),
            1 <= kf <= 40320,
            sum == bernstein_numerator(active, n as nat, k as nat, upper, i as nat),
            -0x1_0000_0000_0000_0000_0000 * i <= sum <= 0x1_0000_0000_0000_0000_0000 * i,
        decreases k + 1 - i,
    {
        let fi = factorial_exec(i);
        let fki = factorial_exec(k - i);
        let fni = factorial_exec(n - i);
        proof {
            let a = fi as int;
            let b = fki as int;
            assert(1 <= a * b <= 40320 * 40320) by (nonlinear_arith)
                requires
                    1 <= a <= 40320,
                    1 <= b <= 40320,
            ;
        }
        let binom: i128 = kf / (fi * fki);
        let c: i128 = if upper {
            cs[i].hi as i128
        } else {
            cs[i].lo as i128
        };
        proof {
            let b = binom as int;
            assert(0 <= b <= 40320) by (nonlinear_arith)
                requires
                    b == (kf as int) / ((fi as int) * (fki as int)),
                    1 <= kf <= 40320,
                    1 <= fi,
                    1 <= fki,
            ;
            let ci = c as int;
            let f1 = fi as int;
            let f2 = fni as int;
            assert(-0x1_0000_0000_0000_0000_0000 <= b * ci * f1 * f2 <= 0x1_0000_0000_0000_0000_0000
                && -0x1_0000_0000_0000_0000_0000 <= b * ci * f1 <= 0x1_0000_0000_0000_0000_0000
                && -0x1_0000_0000_0000_0000_0000 <= b * ci <= 0x1_0000_0000_0000_0000_0000)
                by (nonlinear_arith)
                requires
                    0 <= b <= 40320,
                    -0x8000_0000 <= ci <= 0x8000_0000,
                    1 <= f1 <= 40320,
                    1 <= f2 <= 40320,
            ;
            assert(active[i as int] == cs@[i as int]);
        }
        sum = sum + binom * c * fi * fni;
        i = i + 1;
    }
    sum
}


/// A rational `(numerator, denominator)`.
pub type Fraction = (int, int);

/// Euclid's greatest common divisor, with `gcd(0, 0) = 1`.
pub open spec fn gcd_spec(a: nat, b: nat) -> nat
    decreases b,
{
    if b == 0 {
        if a == 0 {
            1
        } else {
            a
        }
    } else {
        gcd_spec(b, a % b)
    }
}

pub open spec fn magnitude(v: int) -> nat {
    if v < 0 {
        (-v) as nat
    } else {
        v as nat
    }
}

/// `v / g` rounded toward zero.
pub open spec fn divide_toward_zero(v: int, g: int) -> int {
    if v < 0 {
        -((-v) / g)
    } else {
        v / g
    }
}

pub open spec fn fits_i128(v: int) -> bool {
    i128::MIN <= v <= i128::MAX
}

/// `n / d` with a positive denominator, reduced by the common divisor.
pub open spec fn fraction_new(n: int, d: int) -> Result<Fraction, NumericError> {
    if d == 0 {
        Err(NumericError::DivisionByZero)
    } else if d < 0 && (n == i128::MIN || d == i128::MIN) {
        Err(NumericError::Overflow)
    } else {
        let (n, d) = if d < 0 {
            (-n, -d)
        } else {
            (n, d)
        };
        let g = gcd_spec(magnitude(n), magnitude(d)) as int;
        Ok((divide_toward_zero(n, g), divide_toward_zero(d, g)))
    }
}

pub open spec fn fraction_add(p: Fraction, q: Fraction) -> Result<Fraction, NumericError> {
    if fits_i128(p.0 * q.1) && fits_i128(q.0 * p.1) && fits_i128(p.0 * q.1 + q.0 * p.1)
        && fits_i128(p.1 * q.1) {
        fraction_new(p.0 * q.1 + q.0 * p.1, p.1 * q.1)
    } else {
        Err(NumericError::Overflow)
    }
}

pub open spec fn fraction_mul(p: Fraction, q: Fraction) -> Result<Fraction, NumericError> {
    if fits_i128(p.0 * q.0) && fits_i128(p.1 * q.1) {
        fraction_new(p.0 * q.0, p.1 * q.1)
    } else {
        Err(NumericError::Overflow)
    }
}

pub open spec fn fraction_mul_integer(p: Fraction, v: int) -> Result<Fraction, NumericError> {
    if fits_i128(p.0 * v) {
        fraction_new(p.0 * v, p.1)
    } else {
        Err(NumericError::Overflow)
    }
}

/// Sign of `p - q` by cross-multiplication: `-1`, `0` or `1`.
pub open spec fn fraction_compare(p: Fraction, q: Fraction) -> Result<int, NumericError> {
    if fits_i128(p.0 * q.1) && fits_i128(q.0 * p.1) {
        Ok(
            if p.0 * q.1 < q.0 * p.1 {
                -1
            } else if p.0 * q.1 > q.0 * p.1 {
                1
            } else {
                0
            },
        )
    } else {
        Err(NumericError::Overflow)
    }
}

pub open spec fn fraction_in_unit(p: Fraction) -> bool {
    0 <= p.0 <= p.1
}

/// `p + a * b` where both the product and the sum are checked.
pub open spec fn accumulate(p: Result<Fraction, NumericError>, term: Result<Fraction, NumericError>) -> Result<
    Fraction,
    NumericError,
> {
    match p {
        Err(e) => Err(e),
        Ok(x) => match term {
            Err(e) => Err(e),
            Ok(t) => fraction_add(x, t),
        },
    }
}

pub open spec fn scaled_square(a: Fraction, b: Fraction, k: int) -> Result<Fraction, NumericError> {
    match fraction_mul(a, b) {
        Err(e) => Err(e),
        Ok(m) => fraction_mul_integer(m, k),
    }
}

/// `c + bu u + bv v + buu u² + buv u v + bvv v²`, evaluated term by term.
pub open spec fn evaluate_quadratic_spec(q: Quadratic2, u: Fraction, v: Fraction) -> Result<
    Fraction,
    NumericError,
> {
    accumulate(
        accumulate(
            accumulate(
                accumulate(
                    accumulate(Ok((q.c as int, 1)), fraction_mul_integer(u, q.bu as int)),
                    fraction_mul_integer(v, q.bv as int),
                ),
                scaled_square(u, u, q.buu as int),
            ),
            scaled_square(u, v, q.buv as int),
        ),
        scaled_square(v, v, q.bvv as int),
    )
}

/// The derivative zero along side `k` of the unit square, if interior:
/// `v` free on `u = 0` and `u = 1`, then `u` free on `v = 0` and `v = 1`.
pub open spec fn side_candidate(q: Quadratic2, k: int) -> Result<Option<Fraction>, NumericError> {
    let (constant, coefficient, fixed_u, one) = if k == 0 {
        (q.bv as int, q.bvv as int, true, 0int)
    } else if k == 1 {
        (q.bv + q.buv, q.bvv as int, true, 1int)
    } else if k == 2 {
        (q.bu as int, q.buu as int, false, 0int)
    } else {
        (q.bu + q.buv, q.buu as int, false, 1int)
    };
    if coefficient == 0 {
        Ok(None)
    } else {
        match fraction_new(-constant, 2 * coefficient) {
            Err(e) => Err(e),
            Ok(free) => if !fraction_in_unit(free) {
                Ok(None)
            } else {
                let (u, v) = if fixed_u {
                    ((one, 1), free)
                } else {
                    (free, (one, 1))
                };
                match evaluate_quadratic_spec(q, u, v) {
                    Err(e) => Err(e),
                    Ok(value) => Ok(Some(value)),
                }
            },
        }
    }
}

pub open spec fn push_side(q: Quadratic2) -> spec_fn(Seq<Fraction>, int) -> Result<
    Seq<Fraction>,
    NumericError,
> {
    |acc: Seq<Fraction>, k: int|
        match side_candidate(q, k) {
            Err(e) => Err(e),
            Ok(None) => Ok(acc),
            Ok(Some(value)) => Ok(acc.push(value)),
        }
}

pub open spec fn determinant(q: Quadratic2) -> int {
    4 * q.buu * q.bvv - q.buv * q.buv
}

/// The interior stationary point's value, if it lies in the unit square.
pub open spec fn interior_candidate(q: Quadratic2) -> Result<Option<Fraction>, NumericError> {
    let det = determinant(q);
    if det == 0 {
        Ok(None)
    } else {
        match fraction_new(q.buv * q.bv - 2 * q.bvv * q.bu, det) {
            Err(e) => Err(e),
            Ok(u) => match fraction_new(q.buv * q.bu - 2 * q.buu * q.bv, det) {
                Err(e) => Err(e),
                Ok(v) => if fraction_in_unit(u) && fraction_in_unit(v) {
                    match evaluate_quadratic_spec(q, u, v) {
                        Err(e) => Err(e),
                        Ok(value) => Ok(Some(value)),
                    }
                } else {
                    Ok(None)
                },
            },
        }
    }
}

/// Corner values, then the interior stationary value, then side stationary values.
pub open spec fn candidates(q: Quadratic2) -> Result<Seq<Fraction>, NumericError> {
    match evaluate_quadratic_spec(q, (0, 1), (0, 1)) {
        Err(e) => Err(e),
        Ok(c0) => match evaluate_quadratic_spec(q, (1, 1), (0, 1)) {
            Err(e) => Err(e),
            Ok(c1) => match evaluate_quadratic_spec(q, (0, 1), (1, 1)) {
                Err(e) => Err(e),
                Ok(c2) => match evaluate_quadratic_spec(q, (1, 1), (1, 1)) {
                    Err(e) => Err(e),
                    Ok(c3) => {
                        let corners = seq![c0, c1, c2, c3];
                        match interior_candidate(q) {
                            Err(e) => Err(e),
                            Ok(interior) => {
                                let start = match interior {
                                    Some(value) => corners.push(value),
                                    None => corners,
                                };
                                fold_checked(4, start, push_side(q))
                            },
                        }
                    },
                },
            },
        },
    }
}

/// Running `(lowest, highest)` over the candidate values.
pub open spec fn extreme_step(values: Seq<Fraction>) -> spec_fn((Fraction, Fraction), int) -> Result<
    (Fraction, Fraction),
    NumericError,
> {
    |acc: (Fraction, Fraction), i: int|
        match fraction_compare(values[i + 1], acc.0) {
            Err(e) => Err(e),
            Ok(below) => {
                let lo = if below < 0 {
                    values[i + 1]
                } else {
                    acc.0
                };
                match fraction_compare(values[i + 1], acc.1) {
                    Err(e) => Err(e),
                    Ok(above) => Ok((lo, if above > 0 { values[i + 1] } else { acc.1 })),
                }
            },
        }
}

/// Coefficients are coupled when the interior point needs a determinant.
pub open spec fn coupled(q: Quadratic2) -> bool {
    q.buv != 0 || (q.buu != 0 && q.bvv != 0)
}

pub open spec fn within_coupled_envelope(q: Quadratic2) -> bool {
    -512 <= q.c <= 512 && -512 <= q.bu <= 512 && -512 <= q.bv <= 512 && -512 <= q.buu <= 512
        && -512 <= q.buv <= 512 && -512 <= q.bvv <= 512
}

/// The raw range of the quadratic over the unit square: floor of the lowest
/// and ceiling of the highest exact candidate value.
pub open spec fn exact_quadratic_range_spec(q: Quadratic2, domain: FixedDomain) -> Result<
    Iv32,
    NumericError,
> {
    if !domain.is_valid() {
        Err(NumericError::InvalidDomain)
    } else if coupled(q) && !within_coupled_envelope(q) {
        Err(NumericError::Overflow)
    } else {
        match candidates(q) {
            Err(e) => Err(e),
            Ok(values) => match fold_checked(
                (values.len() - 1) as nat,
                (values[0], values[0]),
                extreme_step(values),
            ) {
                Err(e) => Err(e),
                Ok(extremes) => if extremes.1.0 == i128::MIN {
                    Err(NumericError::Overflow)
                } else {
                    raw_interval_spec(
                        extremes.0.0 / extremes.0.1,
                        -((-extremes.1.0) / extremes.1.1),
                        domain,
                    )
                },
            },
        }
    }
}

#[derive(Clone, Copy)]
struct Rational {
    numerator: i128,
    denominator: i128,
}

spec fn fraction_of(r: Result<Rational, NumericError>) -> Result<Fraction, NumericError> {
    match r {
        Ok(v) => Ok(v.fraction()),
        Err(e) => Err(e),
    }
}

proof fn lemma_gcd_bounds(a: nat, b: nat)
    ensures
        gcd_spec(a, b) >= 1,
        b > 0 ==> gcd_spec(a, b) <= b,
        b == 0 && a > 0 ==> gcd_spec(a, b) <= a,
    decreases b,
{
    if b > 0 {
        lemma_gcd_bounds(b, a % b);
    }
}

fn gcd(a: u128, b: u128) -> (r: u128)
    ensures
        r == gcd_spec(a as nat, b as nat),
{
    let mut x = a;
    let mut y = b;
    while y != 0
        invariant
            gcd_spec(x as nat, y as nat) == gcd_spec(a as nat, b as nat),
        decreases y,
    {
        let remainder = x % y;
        x = y;
        y = remainder;
    }
    if x == 0 {
        1
    } else {
        x
    }
}

fn magnitude_u128(v: i128) -> (r: u128)
    ensures
        r == magnitude(v as int),
{
    if v == i128::MIN {
        0x8000_0000_0000_0000_0000_0000_0000_0000
    } else if v < 0 {
        (-v) as u128
    } else {
        v as u128
    }
}

impl Rational {
    spec fn fraction(self) -> Fraction {
        (self.numerator as int, self.denominator as int)
    }

    fn integer(value: i128) -> (r: Self)
        ensures
            r.fraction() == (value as int, 1int),
            r.denominator == 1,
    {
        Rational { numerator: value, denominator: 1 }
    }

    fn new(numerator: i128, denominator: i128) -> (r: Result<Self, NumericError>)
        ensures
            fraction_of(r) == fraction_new(numerator as int, denominator as int),
            r matches Ok(v) ==> v.denominator > 0,
    {
        if denominator == 0 {
            return Err(NumericError::DivisionByZero);
        }
        if denominator < 0 && (numerator == i128::MIN || denominator == i128::MIN) {
            return Err(NumericError::Overflow);
        }
        let (n, d) = if denominator < 0 {
            (-numerator, -denominator)
        } else {
            (numerator, denominator)
        };
        let g = gcd(magnitude_u128(n), d as u128);
        proof {
            lemma_gcd_bounds(magnitude(n as int), d as nat);
        }
        let reduced_denominator = (d as u128 / g) as i128;
        let quotient = magnitude_u128(n) / g;
        let reduced_numerator: i128 = if n < 0 {
            if quotient == 0x8000_0000_0000_0000_0000_0000_0000_0000 {
                i128::MIN
            } else {
                -(quotient as i128)
            }
        } else {
            quotient as i128
        };
        proof {
            assert(d as u128 / g >= 1) by (nonlinear_arith)
                requires
                    1 <= g <= d,
            ;
        }
        Ok(Rational { numerator: reduced_numerator, denominator: reduced_denominator })
    }

    fn checked_add(self, other: Self) -> (r: Result<Self, NumericError>)
        ensures
            fraction_of(r) == fraction_add(self.fraction(), other.fraction()),
            r matches Ok(v) ==> v.denominator > 0,
    {
        let left = match self.numerator.checked_mul(other.denominator) {
            Some(v) => v,
            None => return Err(NumericError::Overflow),
        };
        let right = match other.numerator.checked_mul(self.denominator) {
            Some(v) => v,
            None => return Err(NumericError::Overflow),
        };
        let sum = match left.checked_add(right) {
            Some(v) => v,
            None => return Err(NumericError::Overflow),
        };
        let denominator = match self.denominator.checked_mul(other.denominator) {
            Some(v) => v,
            None => return Err(NumericError::Overflow),
        };
        Self::new(sum, denominator)
    }

    fn checked_mul(self, other: Self) -> (r: Result<Self, NumericError>)
        ensures
            fraction_of(r) == fraction_mul(self.fraction(), other.fraction()),
            r matches Ok(v) ==> v.denominator > 0,
    {
        let numerator = match self.numerator.checked_mul(other.numerator) {
            Some(v) => v,
            None => return Err(NumericError::Overflow),
        };
        let denominator = match self.denominator.checked_mul(other.denominator) {
            Some(v) => v,
            None => return Err(NumericError::Overflow),
        };
        Self::new(numerator, denominator)
    }

    fn checked_mul_integer(self, value: i128) -> (r: Result<Self, NumericError>)
        ensures
            fraction_of(r) == fraction_mul_integer(self.fraction(), value as int),
            r matches Ok(v) ==> v.denominator > 0,
    {
        let numerator = match self.numerator.checked_mul(value) {
            Some(v) => v,
            None => return Err(NumericError::Overflow),
        };
        Self::new(numerator, self.denominator)
    }

    fn in_unit(self) -> (r: bool)
        ensures
            r == fraction_in_unit(self.fraction()),
    {
        self.numerator >= 0 && self.numerator <= self.denominator
    }

    /// Sign of `self - other`.
    fn compare_to(self, other: Self) -> (r: Result<i8, NumericError>)
        ensures
            match fraction_compare(self.fraction(), other.fraction()) {
                Ok(s) => r == Ok::<i8, NumericError>(s as i8),
                Err(e) => r == Err::<i8, NumericError>(e),
            },
    {
        let left = match self.numerator.checked_mul(other.denominator) {
            Some(v) => v,
            None => return Err(NumericError::Overflow),
        };
        let right = match other.numerator.checked_mul(self.denominator) {
            Some(v) => v,
            None => return Err(NumericError::Overflow),
        };
        if left < right {
            Ok(-1)
        } else if left > right {
            Ok(1)
        } else {
            Ok(0)
        }
    }
}

fn evaluate_quadratic(q: Quadratic2, u: Rational, v: Rational) -> (r: Result<Rational, NumericError>)
    ensures
        fraction_of(r) == evaluate_quadratic_spec(q, u.fraction(), v.fraction()),
        r matches Ok(x) ==> x.denominator > 0,
{
    Rational::integer(q.c as i128).checked_add(u.checked_mul_integer(q.bu as i128)?)?.checked_add(
        v.checked_mul_integer(q.bv as i128)?,
    )?.checked_add(u.checked_mul(u)?.checked_mul_integer(q.buu as i128)?)?.checked_add(
        u.checked_mul(v)?.checked_mul_integer(q.buv as i128)?,
    )?.checked_add(v.checked_mul(v)?.checked_mul_integer(q.bvv as i128)?)
}

spec fn fractions_of(v: Seq<Rational>) -> Seq<Fraction> {
    v.map_values(|x: Rational| x.fraction())
}

fn side_value(q: Quadratic2, k: usize) -> (r: Result<Option<Rational>, NumericError>)
    requires
        k < 4,
    ensures
        match side_candidate(q, k as int) {
            Err(e) => r == Err::<Option<Rational>, NumericError>(e),
            Ok(None) => r == Ok::<Option<Rational>, NumericError>(None),
            Ok(Some(value)) => r matches Ok(Some(x)) && x.fraction() == value && x.denominator > 0,
        },
{
    let (constant, coefficient, fixed_u, one): (i128, i32, bool, i128) = if k == 0 {
        (q.bv as i128, q.bvv, true, 0)
    } else if k == 1 {
        (q.bv as i128 + q.buv as i128, q.bvv, true, 1)
    } else if k == 2 {
        (q.bu as i128, q.buu, false, 0)
    } else {
        (q.bu as i128 + q.buv as i128, q.buu, false, 1)
    };
    if coefficient == 0 {
        return Ok(None);
    }
    let free = Rational::new(-constant, 2 * coefficient as i128)?;
    if !free.in_unit() {
        return Ok(None);
    }
    let (u, v) = if fixed_u {
        (Rational::integer(one), free)
    } else {
        (free, Rational::integer(one))
    };
    Ok(Some(evaluate_quadratic(q, u, v)?))
}

fn interior_value(q: Quadratic2) -> (r: Result<Option<Rational>, NumericError>)
    ensures
        match interior_candidate(q) {
            Err(e) => r == Err::<Option<Rational>, NumericError>(e),
            Ok(None) => r == Ok::<Option<Rational>, NumericError>(None),
            Ok(Some(value)) => r matches Ok(Some(x)) && x.fraction() == value && x.denominator > 0,
        },
{
    let (buu, bvv, buv, bu, bv) = (
        q.buu as i128,
        q.bvv as i128,
        q.buv as i128,
        q.bu as i128,
        q.bv as i128,
    );
    proof {
        assert(-0x4_0000_0000_0000_0000 <= 4 * buu * bvv <= 0x4_0000_0000_0000_0000 && 0 <= buv * buv
            <= 0x4_0000_0000_0000_0000 && -0x4_0000_0000_0000_0000 <= buv * bv
            <= 0x4_0000_0000_0000_0000 && -0x4_0000_0000_0000_0000 <= 2 * bvv * bu
            <= 0x4_0000_0000_0000_0000 && -0x4_0000_0000_0000_0000 <= buv * bu
            <= 0x4_0000_0000_0000_0000 && -0x4_0000_0000_0000_0000 <= 2 * buu * bv
            <= 0x4_0000_0000_0000_0000 && -0x4_0000_0000_0000_0000 <= 4 * buu
            <= 0x4_0000_0000_0000_0000 && -0x4_0000_0000_0000_0000 <= 2 * bvv
            <= 0x4_0000_0000_0000_0000 && -0x4_0000_0000_0000_0000 <= 2 * buu
            <= 0x4_0000_0000_0000_0000) by (nonlinear_arith)
            requires
                -0x8000_0000 <= buu < 0x8000_0000,
                -0x8000_0000 <= bvv < 0x8000_0000,
                -0x8000_0000 <= buv < 0x8000_0000,
                -0x8000_0000 <= bu < 0x8000_0000,
                -0x8000_0000 <= bv < 0x8000_0000,
        ;
    }
    let det: i128 = 4 * buu * bvv - buv * buv;
    if det == 0 {
        return Ok(None);
    }
    let u = Rational::new(buv * bv - 2 * bvv * bu, det)?;
    let v = Rational::new(buv * bu - 2 * buu * bv, det)?;
    if u.in_unit() && v.in_unit() {
        Ok(Some(evaluate_quadratic(q, u, v)?))
    } else {
        Ok(None)
    }
}

/// Candidate values in the order the range scan visits them.
#[verifier::loop_isolation(false)]
#[verifier::spinoff_prover]
fn collect_candidates(q: Quadratic2) -> (r: Result<Vec<Rational>, NumericError>)
    ensures
        match candidates(q) {
            Err(e) => r matches Err(f) && f == e,
            Ok(values) => r matches Ok(v) && fractions_of(v@) == values && v@.len() >= 4 && forall|
                i: int,
            | 0 <= i < v@.len() ==> (#[trigger] v@[i]).denominator > 0,
        },
{
    let zero = Rational::integer(0);
    let one = Rational::integer(1);
    let c0 = evaluate_quadratic(q, zero, zero)?;
    let c1 = evaluate_quadratic(q, one, zero)?;
    let c2 = evaluate_quadratic(q, zero, one)?;
    let c3 = evaluate_quadratic(q, one, one)?;
    let mut values: Vec<Rational> = Vec::new();
    values.push(c0);
    values.push(c1);
    values.push(c2);
    values.push(c3);
    let interior = interior_value(q)?;
    match interior {
        Some(value) => values.push(value),
        None => {},
    }
    let ghost start = fractions_of(values@);
    proof {
        let corners = seq![c0.fraction(), c1.fraction(), c2.fraction(), c3.fraction()];
        assert(start =~= match interior_candidate(q)->Ok_0 {
            Some(value) => corners.push(value),
            None => corners,
        });
    }
    let mut k: usize = 0;
    while k < 4
        invariant
            k <= 4,
            fold_checked(k as nat, start, push_side(q)) == Ok::<Seq<Fraction>, NumericError>(
                fractions_of(values@),
            ),
            values@.len() >= 4,
            forall|i: int| 0 <= i < values@.len() ==> (#[trigger] values@[i]).denominator > 0,
        decreases 4 - k,
    {
        proof {
            lemma_fold_next(k as nat, start, push_side(q));
        }
        let ghost before = values@;
        match side_value(q, k) {
            Err(e) => {
                proof {
                    lemma_fold_error_persists((k + 1) as nat, 4, start, push_side(q));
                }
                return Err(e);
            },
            Ok(None) => {},
            Ok(Some(value)) => {
                values.push(value);
                proof {
                    assert(fractions_of(values@) =~= fractions_of(before).push(value.fraction()));
                }
            },
        }
        k = k + 1;
    }
    Ok(values)
}

/// Lowest and highest candidate by exact cross-multiplied comparison.
#[verifier::loop_isolation(false)]
fn extreme_values(values: &Vec<Rational>) -> (r: Result<(Rational, Rational), NumericError>)
    requires
        values@.len() >= 1,
        forall|i: int| 0 <= i < values@.len() ==> (#[trigger] values@[i]).denominator > 0,
    ensures
        ({
            let all = fractions_of(values@);
            match fold_checked((all.len() - 1) as nat, (all[0], all[0]), extreme_step(all)) {
                Err(e) => r matches Err(f) && f == e,
                Ok(x) => r matches Ok(p) && p.0.fraction() == x.0 && p.1.fraction() == x.1
                    && p.0.denominator > 0 && p.1.denominator > 0,
            }
        }),
{
    let ghost all = fractions_of(values@);
    let ghost step = extreme_step(all);
    let mut lo = values[0];
    let mut hi = values[0];
    let mut i: usize = 0;
    let last = values.len() - 1;
    while i < last
        invariant
            last == values@.len() - 1,
            all == fractions_of(values@),
            i + 1 <= values@.len(),
            lo.denominator > 0,
            hi.denominator > 0,
            fold_checked(i as nat, (all[0], all[0]), step) == Ok::<(Fraction, Fraction), NumericError>(
                (lo.fraction(), hi.fraction()),
            ),
        decreases values@.len() - i,
    {
        proof {
            lemma_fold_next(i as nat, (all[0], all[0]), step);
        }
        let value = values[i + 1];
        let below = match value.compare_to(lo) {
            Ok(s) => s,
            Err(e) => {
                proof {
                    lemma_fold_error_persists(
                        (i + 1) as nat,
                        (all.len() - 1) as nat,
                        (all[0], all[0]),
                        step,
                    );
                }
                return Err(e);
            },
        };
        let above = match value.compare_to(hi) {
            Ok(s) => s,
            Err(e) => {
                proof {
                    lemma_fold_error_persists(
                        (i + 1) as nat,
                        (all.len() - 1) as nat,
                        (all[0], all[0]),
                        step,
                    );
                }
                return Err(e);
            },
        };
        if below < 0 {
            lo = value;
        }
        if above > 0 {
            hi = value;
        }
        i = i + 1;
    }
    Ok((lo, hi))
}

/// Exact range of a bivariate quadratic over the unit square, from its
/// corner values and its interior and side stationary points, rounded
/// outward into raw domain units.
pub fn exact_quadratic_range(quadratic: Quadratic2, domain: FixedDomain) -> (r: Result<
    Iv32,
    NumericError,
>)
    ensures
        r == exact_quadratic_range_spec(quadratic, domain),
{
    domain.validate()?;
    let q = quadratic;
    let needs_interior_schedule = q.buv != 0 || (q.buu != 0 && q.bvv != 0);
    if needs_interior_schedule && (q.c < -512 || q.c > 512 || q.bu < -512 || q.bu > 512 || q.bv
        < -512 || q.bv > 512 || q.buu < -512 || q.buu > 512 || q.buv < -512 || q.buv > 512
        || q.bvv < -512 || q.bvv > 512) {
        return Err(NumericError::Overflow);
    }
    let values = collect_candidates(q)?;
    let (lo, hi) = extreme_values(&values)?;
    let low = floor_div_wide_any(lo.numerator, lo.denominator);
    if hi.numerator == i128::MIN {
        return Err(NumericError::Overflow);
    }
    let high = -floor_div_wide_any(-hi.numerator, hi.denominator);
    checked_raw_interval(low, high, domain)
}

/// `floor(v / d)` for any `i128` numerator and positive denominator.
fn floor_div_wide_any(v: i128, d: i128) -> (r: i128)
    requires
        d > 0,
    ensures
        r == v as int / d as int,
        v >= 0 ==> 0 <= r <= v,
        v < 0 ==> v <= r < 0,
{
    if v >= 0 {
        let q = v / d;
        proof {
            let vi = v as int;
            let di = d as int;
            assert(0 <= vi / di <= vi) by (nonlinear_arith)
                requires
                    vi >= 0,
                    di >= 1,
            ;
        }
        q
    } else {
        let m: i128 = -(v + 1);
        let q = m / d;
        proof {
            let vi = v as int;
            let di = d as int;
            let mi = m as int;
            let qi = q as int;
            let ri = mi % di;
            assert(mi == di * qi + ri && 0 <= ri < di) by {
                vstd::arithmetic::div_mod::lemma_fundamental_div_mod(mi, di);
            }
            assert(vi == di * (-qi - 1) + (di - 1 - ri)) by (nonlinear_arith)
                requires
                    mi == di * qi + ri,
                    vi == -(mi + 1),
            ;
            vstd::arithmetic::div_mod::lemma_fundamental_div_mod_converse(
                vi,
                di,
                -qi - 1,
                di - 1 - ri,
            );
            assert(0 <= qi <= mi) by (nonlinear_arith)
                requires
                    qi == mi / di,
                    mi >= 0,
                    di >= 1,
            ;
        }
        -q - 1
    }
}

} // verus!
