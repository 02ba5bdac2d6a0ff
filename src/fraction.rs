//! Exact non-negative rationals, used for win percentages and their means.
use vstd::prelude::*;

verus! {

/// The rational number `num / den`, not necessarily in lowest terms: two
/// fractions are compared by their values, never by their fields.
#[derive(Clone, Copy, Debug)]
pub struct Fraction {
    pub num: u64,
    pub den: u64,
}

/// Sum of two fractions given as `(numerator, denominator)` pairs. Equal
/// denominators are kept; otherwise the denominators are multiplied.
pub open spec fn frac_add(a: (int, int), b: (int, int)) -> (int, int) {
    if a.1 == b.1 {
        (a.0 + b.0, a.1)
    } else {
        (a.0 * b.1 + b.0 * a.1, a.1 * b.1)
    }
}

/// Greatest common divisor, by Euclid's algorithm.
pub open spec fn gcd(a: nat, b: nat) -> nat
    decreases b,
{
    if b == 0 {
        a
    } else {
        gcd(b, a % b)
    }
}

/// A non-negative fraction in lowest terms.
pub open spec fn reduce(p: (int, int)) -> (int, int) {
    let g = gcd(p.0 as nat, p.1 as nat);
    if g == 0 {
        p
    } else {
        (p.0 / g as int, p.1 / g as int)
    }
}

/// One step of a running sum: add, then reduce to lowest terms.
pub open spec fn add_step(a: (int, int), b: (int, int)) -> (int, int) {
    reduce(frac_add(a, b))
}

/// The step can be computed: the sum's numerator fits in `u128`, and the
/// reduced result in `u64`.
pub open spec fn step_fits(a: (int, int), b: (int, int)) -> bool {
    &&& frac_add(a, b).0 <= u128::MAX
    &&& add_step(a, b).0 <= u64::MAX
    &&& add_step(a, b).1 <= u64::MAX
}

/// Sum of a sequence of fractions, added from the first to the last and
/// kept in lowest terms.
pub open spec fn frac_sum(s: Seq<(int, int)>) -> (int, int)
    decreases s.len(),
{
    if s.len() == 0 {
        (0, 1)
    } else {
        add_step(frac_sum(s.drop_last()), s.last())
    }
}

/// Every step of the running sum of `s` can be computed.
pub open spec fn sum_fits(s: Seq<(int, int)>) -> bool {
    forall|t: int| 0 <= t < s.len() ==> step_fits(#[trigger] frac_sum(s.take(t)), s[t])
}

/// The arithmetic mean of `s` in lowest terms: the sum divided by the count.
pub open spec fn frac_mean(s: Seq<(int, int)>) -> (int, int) {
    reduce((frac_sum(s).0, frac_sum(s).1 * s.len()))
}

/// Every denominator of `s` is positive.
pub open spec fn positive_dens(s: Seq<(int, int)>) -> bool {
    forall|i: int| 0 <= i < s.len() ==> (#[trigger] s[i]).1 > 0
}

/// The greatest common divisor divides both numbers, and is positive unless
/// both are zero.
pub proof fn lemma_gcd_divides(a: nat, b: nat)
    ensures
        a > 0 || b > 0 ==> gcd(a, b) > 0 && a % gcd(a, b) == 0 && b % gcd(a, b) == 0,
    decreases b,
{
    if b > 0 {
        let r = a % b;
        lemma_gcd_divides(b, r);
        let g = gcd(b, r);
        assert(gcd(a, b) == g);
        assert(a == b * (a / b) + r) by (nonlinear_arith)
            requires b > 0, r == a % b;
        let kb = b / g;
        let kr = r / g;
        assert(b == g * kb) by (nonlinear_arith)
            requires g > 0, b % g == 0, kb == b / g;
        assert(r == g * kr) by (nonlinear_arith)
            requires g > 0, r % g == 0, kr == r / g;
        let q = a / b;
        assert(a == g * (kb * q + kr)) by (nonlinear_arith)
            requires a == b * q + r, b == g * kb, r == g * kr;
        vstd::arithmetic::div_mod::lemma_mod_multiples_basic((kb * q + kr) as int, g as int);
        assert(g * (kb * q + kr) == (kb * q + kr) * g) by (nonlinear_arith);
    } else if a > 0 {
        vstd::arithmetic::div_mod::lemma_mod_self_0(a as int);
    }
}

/// Reducing keeps the value, and keeps a positive denominator positive.
pub proof fn lemma_reduce(p: (int, int))
    requires
        p.0 >= 0,
        p.1 > 0,
    ensures
        reduce(p).0 >= 0,
        reduce(p).1 > 0,
        reduce(p).0 <= p.0,
        reduce(p).1 <= p.1,
        reduce(p).0 * p.1 == p.0 * reduce(p).1,
{
    let g = gcd(p.0 as nat, p.1 as nat);
    lemma_gcd_divides(p.0 as nat, p.1 as nat);
    let x = p.0 / g as int;
    let y = p.1 / g as int;
    assert(p.0 == g * x && p.1 == g * y) by (nonlinear_arith)
        requires g > 0, p.0 % g as int == 0, p.1 % g as int == 0, x == p.0 / g as int, y == p.1 / g as int;
    assert(x >= 0 && y > 0 && x <= p.0 && y <= p.1 && x * p.1 == p.0 * y) by (nonlinear_arith)
        requires g > 0, p.0 == g * x, p.1 == g * y, p.0 >= 0, p.1 > 0;
}

/// A sum of fractions with positive denominators has a non-negative
/// numerator and a positive denominator, and so does their mean.
pub proof fn lemma_sum_den_positive(s: Seq<(int, int)>)
    requires
        positive_dens(s),
        forall|i: int| 0 <= i < s.len() ==> (#[trigger] s[i]).0 >= 0,
    ensures
        frac_sum(s).0 >= 0,
        frac_sum(s).1 > 0,
        s.len() > 0 ==> frac_mean(s).1 > 0 && frac_mean(s).0 >= 0,
    decreases s.len(),
{
    if s.len() > 0 {
        lemma_sum_den_positive(s.drop_last());
        let a = frac_sum(s.drop_last());
        let b = s.last();
        assert(a.1 * b.1 > 0 && a.0 * b.1 + b.0 * a.1 >= 0) by (nonlinear_arith)
            requires a.1 > 0, b.1 > 0, a.0 >= 0, b.0 >= 0;
        lemma_reduce(frac_add(a, b));
        let c = frac_sum(s);
        assert(c.1 * s.len() > 0) by (nonlinear_arith)
            requires c.1 > 0, s.len() > 0;
        lemma_reduce((c.0, c.1 * s.len()));
    }
}

impl Fraction {
    pub open spec fn pair(self) -> (int, int) {
        (self.num as int, self.den as int)
    }

    /// `self >= other` as rationals (both denominators positive).
    pub open spec fn spec_at_least(self, other: Fraction) -> bool {
        self.num * other.den >= other.num * self.den
    }

    /// `self == other` as rationals.
    pub open spec fn spec_same_value(self, other: Fraction) -> bool {
        self.num * other.den == other.num * self.den
    }

    /// One third, the floor of every win percentage.
    pub fn one_third() -> (r: Fraction)
        ensures
            r.num == 1 && r.den == 3,
    {
        Fraction { num: 1, den: 3 }
    }

    /// Compares two fractions exactly, by cross multiplication.
    pub fn at_least(&self, other: &Fraction) -> (r: bool)
        ensures
            r == self.spec_at_least(*other),
    {
        let a = self.num as u128;
        let b = other.den as u128;
        let c = other.num as u128;
        let d = self.den as u128;
        assert(a * b <= u64::MAX * u64::MAX) by (nonlinear_arith)
            requires a <= u64::MAX, b <= u64::MAX, 0 <= a, 0 <= b;
        assert(c * d <= u64::MAX * u64::MAX) by (nonlinear_arith)
            requires c <= u64::MAX, d <= u64::MAX, 0 <= c, 0 <= d;
        a * b >= c * d
    }

    /// Tells whether two fractions have the same value.
    pub fn same_value(&self, other: &Fraction) -> (r: bool)
        ensures
            r == self.spec_same_value(*other),
    {
        self.at_least(other) && other.at_least(self)
    }
}

/// The plain sum of `s`: `a/b + c/d = (a*d + c*b) / (b*d)`, never reduced.
pub open spec fn plain_sum(s: Seq<(int, int)>) -> (int, int)
    decreases s.len(),
{
    if s.len() == 0 {
        (0, 1)
    } else {
        let p = plain_sum(s.drop_last());
        let x = s.last();
        (p.0 * x.1 + x.0 * p.1, p.1 * x.1)
    }
}

/// Two fractions with positive denominators have the same value.
pub open spec fn same_value(a: (int, int), b: (int, int)) -> bool {
    a.0 * b.1 == b.0 * a.1
}

proof fn lemma_same_trans(a: (int, int), b: (int, int), c: (int, int))
    requires
        a.1 > 0,
        b.1 > 0,
        c.1 > 0,
        same_value(a, b),
        same_value(b, c),
    ensures
        same_value(a, c),
{
    assert(a.0 * c.1 == c.0 * a.1) by (nonlinear_arith)
        requires a.0 * b.1 == b.0 * a.1, b.0 * c.1 == c.0 * b.1, b.1 > 0;
}

/// The running sum in lowest terms has the value of the plain sum, and the
/// mean in lowest terms the value of the plain sum divided by the count:
/// `frac_mean` is the arithmetic mean.
pub proof fn lemma_mean_value(s: Seq<(int, int)>)
    requires
        positive_dens(s),
        forall|i: int| 0 <= i < s.len() ==> (#[trigger] s[i]).0 >= 0,
    ensures
        plain_sum(s).1 > 0,
        plain_sum(s).0 >= 0,
        same_value(frac_sum(s), plain_sum(s)),
        s.len() > 0 ==> same_value(frac_mean(s), (plain_sum(s).0, plain_sum(s).1 * s.len())),
    decreases s.len(),
{
    lemma_sum_den_positive(s);
    if s.len() > 0 {
        let r = s.drop_last();
        lemma_mean_value(r);
        lemma_sum_den_positive(r);
        let f = frac_sum(r);
        let p = plain_sum(r);
        let x = s.last();
        let u = frac_add(f, x);
        let v = (f.0 * x.1 + x.0 * f.1, f.1 * x.1);
        let w = (p.0 * x.1 + x.0 * p.1, p.1 * x.1);
        assert(v.1 > 0 && w.1 > 0 && v.0 >= 0 && w.0 >= 0 && u.1 > 0 && u.0 >= 0) by (nonlinear_arith)
            requires f.1 > 0, p.1 > 0, x.1 > 0, f.0 >= 0, p.0 >= 0, x.0 >= 0,
                u == (if f.1 == x.1 { (f.0 + x.0, f.1) } else { (f.0 * x.1 + x.0 * f.1, f.1 * x.1) }),
                v == (f.0 * x.1 + x.0 * f.1, f.1 * x.1), w == (p.0 * x.1 + x.0 * p.1, p.1 * x.1);
        assert(same_value(u, v)) by (nonlinear_arith)
            requires u == (if f.1 == x.1 { (f.0 + x.0, f.1) } else { (f.0 * x.1 + x.0 * f.1, f.1 * x.1) }),
                v == (f.0 * x.1 + x.0 * f.1, f.1 * x.1);
        let (a, b) = f;
        let (g0, e) = p;
        let (d, c) = x;
        assert((a * c + d * b) * (e * c) == (a * e) * (c * c) + d * b * e * c) by (nonlinear_arith);
        assert((g0 * c + d * e) * (b * c) == (g0 * b) * (c * c) + d * e * b * c) by (nonlinear_arith);
        assert(d * b * e * c == d * e * b * c) by (nonlinear_arith);
        assert((a * e) * (c * c) == (g0 * b) * (c * c));
        assert(same_value(v, w));
        lemma_reduce(u);
        assert(same_value(reduce(u), u));
        lemma_same_trans(reduce(u), u, v);
        lemma_same_trans(reduce(u), v, w);
        assert(plain_sum(s) == w);
        let g = frac_sum(s);
        let q = plain_sum(s);
        let k = s.len() as int;
        assert(g.1 * k > 0 && q.1 * k > 0) by (nonlinear_arith)
            requires g.1 > 0, q.1 > 0, k > 0;
        lemma_reduce((g.0, g.1 * k));
        assert(same_value((g.0, g.1 * k), (q.0, q.1 * k))) by (nonlinear_arith)
            requires g.0 * q.1 == q.0 * g.1;
        lemma_same_trans(frac_mean(s), (g.0, g.1 * k), (q.0, q.1 * k));
    }
}

/// Euclid's algorithm.
pub fn gcd_of(a: u128, b: u128) -> (r: u128)
    ensures
        r == gcd(a as nat, b as nat),
{
    let mut x = a;
    let mut y = b;
    while y > 0
        invariant
            gcd(x as nat, y as nat) == gcd(a as nat, b as nat),
        decreases y,
    {
        let t = x % y;
        x = y;
        y = t;
    }
    x
}

/// `n / d` in lowest terms.
fn reduce_pair(n: u128, d: u128) -> (r: (u128, u128))
    requires
        d > 0,
    ensures
        (r.0 as int, r.1 as int) == reduce((n as int, d as int)),
{
    let g = gcd_of(n, d);
    proof {
        lemma_gcd_divides(n as nat, d as nat);
    }
    (n / g, d / g)
}

/// Adds `b` to the running sum `a` and reduces to lowest terms, or returns
/// `None` when that cannot be computed (`step_fits`).
pub fn add_checked(a: Fraction, b: Fraction) -> (r: Option<Fraction>)
    requires
        a.den > 0,
        b.den > 0,
    ensures
        r is Some <==> step_fits(a.pair(), b.pair()),
        r matches Some(f) ==> f.pair() == add_step(a.pair(), b.pair()),
{
    let x = a.num as u128;
    let y = b.num as u128;
    let p = a.den as u128;
    let q = b.den as u128;
    proof {
        assert(x * q <= u64::MAX * u64::MAX && y * p <= u64::MAX * u64::MAX && p * q <= u64::MAX * u64::MAX
            && p * q > 0 && x * q >= 0 && y * p >= 0) by (nonlinear_arith)
            requires x <= u64::MAX, y <= u64::MAX, 0 < p <= u64::MAX, 0 < q <= u64::MAX, x >= 0, y >= 0;
    }
    let (n, d) = if p == q {
        (x + y, p)
    } else {
        match (x * q).checked_add(y * p) {
            Some(n) => (n, p * q),
            None => {
                return None;
            },
        }
    };
    let (rn, rd) = reduce_pair(n, d);
    if rn > u64::MAX as u128 || rd > u64::MAX as u128 {
        None
    } else {
        Some(Fraction { num: rn as u64, den: rd as u64 })
    }
}

/// The pairs of a sequence of fractions.
pub open spec fn pairs_of(fs: Seq<Fraction>) -> Seq<(int, int)> {
    fs.map_values(|f: Fraction| f.pair())
}

/// When the mean of `s` can be computed: `s` is not empty, every step of
/// the running sum can be computed, and the mean in lowest terms fits in
/// `u64`.
pub open spec fn mean_fits(s: Seq<(int, int)>) -> bool {
    &&& s.len() > 0
    &&& sum_fits(s)
    &&& frac_mean(s).0 <= u64::MAX
    &&& frac_mean(s).1 <= u64::MAX
}

/// The arithmetic mean of the fractions in `fs`, exactly, in lowest terms.
/// `None` when `fs` is empty (the mean is undefined) or when it cannot be
/// computed in `u64` (`mean_fits`).
pub fn mean(fs: &Vec<Fraction>) -> (r: Option<Fraction>)
    requires
        forall|i: int| 0 <= i < fs@.len() ==> (#[trigger] fs@[i]).den > 0,
    ensures
        r is Some <==> mean_fits(pairs_of(fs@)),
        r matches Some(f) ==> f.pair() == frac_mean(pairs_of(fs@)),
{
    let ghost s = pairs_of(fs@);
    let n = fs.len();
    if n == 0 {
        return None;
    }
    let mut acc = Fraction { num: 0, den: 1 };
    let mut i: usize = 0;
    assert(s.take(0) =~= Seq::<(int, int)>::empty());
    while i < n
        invariant
            n == fs@.len(),
            s == pairs_of(fs@),
            forall|j: int| 0 <= j < fs@.len() ==> (#[trigger] fs@[j]).den > 0,
            0 <= i <= n,
            acc.den > 0,
            acc.pair() == frac_sum(s.take(i as int)),
            forall|t: int| 0 <= t < i ==> step_fits(#[trigger] frac_sum(s.take(t)), s[t]),
        decreases n - i,
    {
        proof {
            assert(s.take(i + 1).drop_last() =~= s.take(i as int));
            assert(s.take(i + 1).last() == fs@[i as int].pair());
            assert(frac_sum(s.take(i + 1)) == add_step(acc.pair(), fs@[i as int].pair()));
        }
        match add_checked(acc, fs[i]) {
            Some(f) => {
                proof {
                    lemma_sum_den_positive_step(acc.pair(), fs@[i as int].pair());
                }
                acc = f;
            },
            None => {
                proof {
                    assert(!step_fits(frac_sum(s.take(i as int)), s[i as int]));
                }
                return None;
            },
        }
        i = i + 1;
    }
    assert(s.take(n as int) =~= s);
    let total = acc.num as u128;
    let d = acc.den as u128;
    proof {
        assert(d * n <= u64::MAX * u64::MAX && d * n > 0) by (nonlinear_arith)
            requires 0 < d <= u64::MAX, 0 < n <= u64::MAX;
    }
    let (rn, rd) = reduce_pair(total, d * (n as u128));
    if rn > u64::MAX as u128 || rd > u64::MAX as u128 {
        None
    } else {
        Some(Fraction { num: rn as u64, den: rd as u64 })
    }
}

/// A step of the running sum keeps a positive denominator.
proof fn lemma_sum_den_positive_step(a: (int, int), b: (int, int))
    requires
        a.0 >= 0,
        a.1 > 0,
        b.0 >= 0,
        b.1 > 0,
    ensures
        add_step(a, b).1 > 0,
{
    assert(a.1 * b.1 > 0 && a.0 * b.1 + b.0 * a.1 >= 0) by (nonlinear_arith)
        requires a.1 > 0, b.1 > 0, a.0 >= 0, b.0 >= 0;
    lemma_reduce(frac_add(a, b));
}

} // verus!
