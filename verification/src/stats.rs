//! Order statistics over collected samples.
//!
//! Everything here is computed from numbers that were actually measured. There
//! is no bootstrap, no confidence interval, and no distributional assumption.
//!
//! A sample is the time one batch took, in whole nanoseconds. Times and ratios
//! of times are compared and interpolated exactly; what is handed out is the
//! two neighbouring samples of a quantile and its place between them.

use vstd::prelude::*;
use vstd::relations::*;
use vstd::seq_lib::*;
use vstd::slice::slice_subrange;

verus! {

/// Something with an exact place on the real line.
pub trait Measure: Copy {
    /// Does this have a value?
    spec fn valid(self) -> bool;

    /// The exact value.
    spec fn value(self) -> real;

    /// Is this value at most the other?
    fn at_most(&self, other: &Self) -> (r: bool)
        requires
            self.valid(),
            other.valid(),
        ensures
            r == (self.value() <= other.value()),
    ;
}

impl Measure for u128 {
    open spec fn valid(self) -> bool {
        true
    }

    open spec fn value(self) -> real {
        self as real
    }

    fn at_most(&self, other: &Self) -> (r: bool) {
        *self <= *other
    }
}

/// Two batch times of one round: that of a case and that of the reference.
#[derive(Debug, Clone, Copy, PartialEq, Eq)]
pub struct Pair {
    /// What the case took.
    pub case: u128,
    /// What the reference took.
    pub reference: u128,
}

/// The product of two integers is the same among the reals.
proof fn real_product(a: int, b: int)
    ensures
        (a * b) as real == (a as real) * (b as real),
{
    assert((a * b) as real == (a as real) * (b as real)) by (nonlinear_arith);
}

/// Two quotients compare as their cross products do.
proof fn quotients_compare(a: int, b: int, c: int, d: int)
    requires
        b > 0,
        d > 0,
    ensures
        (a as real) / (b as real) <= (c as real) / (d as real) <==> a * d <= c * b,
{
    real_product(a, d);
    real_product(c, b);
    assert((a as real) / (b as real) <= (c as real) / (d as real) <==> (a as real) * (d as real)
        <= (c as real) * (b as real)) by (nonlinear_arith)
        requires
            b as real > 0 as real,
            d as real > 0 as real,
    ;
}

/// Where two quotients have one whole part, they compare as what is left over
/// does, and that as the reciprocals do the other way round.
proof fn leftovers_compare(a: int, b: int, c: int, d: int)
    requires
        a >= 0,
        b > 0,
        c >= 0,
        d > 0,
    ensures
        a / b < c / d ==> a * d <= c * b,
        a / b > c / d ==> a * d > c * b,
        a / b == c / d ==> (a * d <= c * b <==> d * (a % b) <= b * (c % d)),
{
    let (p, v) = (a / b, a % b);
    let (q, w) = (c / d, c % d);
    vstd::arithmetic::div_mod::lemma_fundamental_div_mod(a, b);
    vstd::arithmetic::div_mod::lemma_fundamental_div_mod(c, d);
    vstd::arithmetic::div_mod::lemma_mod_bound(a, b);
    vstd::arithmetic::div_mod::lemma_mod_bound(c, d);
    let both = b * d;
    assert(a * d == both * p + d * v) by (nonlinear_arith)
        requires
            a == b * p + v,
            both == b * d,
    ;
    assert(c * b == both * q + b * w) by (nonlinear_arith)
        requires
            c == d * q + w,
            both == b * d,
    ;
    assert(0 <= d * v < both && 0 <= b * w < both) by (nonlinear_arith)
        requires
            0 <= v < b,
            0 <= w < d,
            both == b * d,
    ;
    if p < q {
        assert(both * p + both <= both * q) by (nonlinear_arith)
            requires
                p + 1 <= q,
                both >= 0,
        ;
    } else if p > q {
        assert(both * q + both <= both * p) by (nonlinear_arith)
            requires
                q + 1 <= p,
                both >= 0,
        ;
    }
}

/// Is `a / b` at most `c / d`? Told without the cross products, which 128 bits
/// need not hold: the whole parts are compared, and where they are the same,
/// the reciprocals of what is left over.
fn quotient_at_most(a: u128, b: u128, c: u128, d: u128) -> (r: bool)
    requires
        b > 0,
        d > 0,
    ensures
        r == (a * d <= c * b),
    decreases b + d,
{
    proof {
        leftovers_compare(a as int, b as int, c as int, d as int);
    }
    let (p, q) = (a / b, c / d);
    if p != q {
        return p < q;
    }
    let (v, w) = (a % b, c % d);
    if v == 0 {
        assert(d * v == 0 && b * w >= 0) by (nonlinear_arith)
            requires
                v == 0,
                b >= 0,
                w >= 0,
        ;
        return true;
    }
    if w == 0 {
        assert(d * v > 0 && b * w == 0) by (nonlinear_arith)
            requires
                v > 0,
                d > 0,
                w == 0,
        ;
        return false;
    }
    quotient_at_most(d, w, b, v)
}

impl Measure for Pair {
    open spec fn valid(self) -> bool {
        self.reference > 0
    }

    open spec fn value(self) -> real {
        (self.case as real) / (self.reference as real)
    }

    fn at_most(&self, other: &Self) -> (r: bool) {
        proof {
            quotients_compare(
                self.case as int,
                self.reference as int,
                other.case as int,
                other.reference as int,
            );
        }
        quotient_at_most(self.case, self.reference, other.case, other.reference)
    }
}

/// The values of a list of measures.
pub open spec fn values<T: Measure>(s: Seq<T>) -> Seq<real> {
    s.map_values(|t: T| t.value())
}

/// Do the numbers never fall?
pub open spec fn ascending(s: Seq<real>) -> bool {
    forall|i: int, j: int| 0 <= i <= j < s.len() ==> s[i] <= s[j]
}

/// The same numbers, in ascending order.
pub open spec fn in_order(s: Seq<real>) -> Seq<real> {
    s.sort_by(|a: real, b: real| a <= b)
}

/// Is `sorted` the same list, rearranged so that its values never fall?
pub open spec fn sorts<T: Measure>(sorted: Seq<T>, samples: Seq<T>) -> bool {
    sorted.to_multiset() == samples.to_multiset() && ascending(values(sorted))
}

/// There is one ascending order of a list of numbers.
pub proof fn order_is_unique(s: Seq<real>, t: Seq<real>)
    requires
        ascending(t),
        t.to_multiset() == s.to_multiset(),
    ensures
        in_order(s) == t,
{
    let leq = |a: real, b: real| a <= b;
    s.lemma_sort_by_ensures(leq);
    assert(sorted_by(t, leq));
    lemma_sorted_unique(in_order(s), t, leq);
}

/// Putting numbers in order neither adds nor drops any.
pub proof fn order_keeps_numbers(s: Seq<real>)
    ensures
        ascending(in_order(s)),
        in_order(s).to_multiset() == s.to_multiset(),
        in_order(s).len() == s.len(),
{
    let leq = |a: real, b: real| a <= b;
    s.lemma_sort_by_ensures(leq);
    s.to_multiset_ensures();
    in_order(s).to_multiset_ensures();
    assert forall|i: int, j: int| 0 <= i <= j < in_order(s).len() implies in_order(s)[i]
        <= in_order(s)[j] by {
        if i < j {
            assert(leq(in_order(s)[i], in_order(s)[j]));
        }
    }
}

/// Rearranging a list rearranges what a function makes of it.
proof fn map_keeps_rearrangement<A, B>(s: Seq<A>, t: Seq<A>, f: spec_fn(A) -> B)
    requires
        s.to_multiset() == t.to_multiset(),
    ensures
        s.map_values(f).to_multiset() == t.map_values(f).to_multiset(),
    decreases s.len(),
{
    broadcast use group_to_multiset_ensures;

    to_multiset_len(s);
    to_multiset_len(t);
    if s.len() > 0 {
        let last = s.last();
        let front = s.drop_last();
        assert(s =~= front.push(last));
        assert(t.to_multiset().count(last) > 0);
        let i = choose|i: int| 0 <= i < t.len() && t[i] == last;
        let others = t.remove(i);
        assert(front.to_multiset() =~= s.to_multiset().remove(last)) by {
            assert(s.remove(s.len() - 1) =~= front);
        }
        map_keeps_rearrangement(front, others, f);
        assert(s.map_values(f) =~= front.map_values(f).push(f(last)));
        assert(t.map_values(f) =~= others.map_values(f).insert(i, f(last)));
    } else {
        assert(s =~= t);
    }
}

/// Two ascending lists merged into one.
fn merge<T: Measure>(left: Vec<T>, right: Vec<T>) -> (out: Vec<T>)
    requires
        forall|i: int| 0 <= i < left@.len() ==> (#[trigger] left@[i]).valid(),
        forall|i: int| 0 <= i < right@.len() ==> (#[trigger] right@[i]).valid(),
        ascending(values(left@)),
        ascending(values(right@)),
    ensures
        ascending(values(out@)),
        out@.to_multiset() == left@.to_multiset().add(right@.to_multiset()),
{
    let mut out: Vec<T> = Vec::new();
    let mut i: usize = 0;
    let mut j: usize = 0;
    proof {
        broadcast use group_to_multiset_ensures;

        assert(left@.take(0) =~= Seq::<T>::empty());
        assert(right@.take(0) =~= Seq::<T>::empty());
        assert(out@.to_multiset() =~= left@.take(0).to_multiset().add(right@.take(0).to_multiset()));
    }
    while i < left.len() || j < right.len()
        invariant
            i <= left@.len(),
            j <= right@.len(),
            forall|k: int| 0 <= k < left@.len() ==> (#[trigger] left@[k]).valid(),
            forall|k: int| 0 <= k < right@.len() ==> (#[trigger] right@[k]).valid(),
            ascending(values(left@)),
            ascending(values(right@)),
            ascending(values(out@)),
            forall|a: int, b: int|
                0 <= a < out@.len() && i <= b < left@.len() ==> (#[trigger] out@[a]).value() <= (
                #[trigger] left@[b]).value(),
            forall|a: int, b: int|
                0 <= a < out@.len() && j <= b < right@.len() ==> (#[trigger] out@[a]).value() <= (
                #[trigger] right@[b]).value(),
            out@.to_multiset() == left@.take(i as int).to_multiset().add(
                right@.take(j as int).to_multiset(),
            ),
        decreases left@.len() - i + right@.len() - j,
    {
        let ghost before = out@;
        let from_left = if i == left.len() {
            false
        } else if j == right.len() {
            true
        } else {
            left[i].at_most(&right[j])
        };
        proof {
            assert forall|a: int, b: int|
                0 <= a <= b < left@.len() implies (#[trigger] left@[a]).value() <= (
            #[trigger] left@[b]).value() by {
                assert(values(left@)[a] <= values(left@)[b]);
            }
            assert forall|a: int, b: int|
                0 <= a <= b < right@.len() implies (#[trigger] right@[a]).value() <= (
            #[trigger] right@[b]).value() by {
                assert(values(right@)[a] <= values(right@)[b]);
            }
        }
        if from_left {
            out.push(left[i]);
            proof {
                broadcast use group_to_multiset_ensures;

                assert(left@.take(i + 1) =~= left@.take(i as int).push(left@[i as int]));
            }
            i += 1;
        } else {
            out.push(right[j]);
            proof {
                broadcast use group_to_multiset_ensures;

                assert(right@.take(j + 1) =~= right@.take(j as int).push(right@[j as int]));
            }
            j += 1;
        }
        proof {
            broadcast use group_to_multiset_ensures;

            assert(out@ =~= before.push(out@.last()));
            assert(out@.to_multiset() =~= left@.take(i as int).to_multiset().add(
                right@.take(j as int).to_multiset(),
            ));
            assert forall|a: int, b: int| 0 <= a <= b < out@.len() implies values(out@)[a]
                <= values(out@)[b] by {
                if b < before.len() {
                    assert(values(before)[a] <= values(before)[b]);
                } else if a < before.len() {
                    assert(out@[a] == before[a]);
                }
            }
        }
    }
    proof {
        assert(left@.take(i as int) =~= left@);
        assert(right@.take(j as int) =~= right@);
    }
    out
}

/// A sorted copy of the samples. The samples themselves keep their round order.
pub fn sorted_copy<T: Measure>(samples: &[T]) -> (r: Vec<T>)
    requires
        forall|i: int| 0 <= i < samples@.len() ==> (#[trigger] samples@[i]).valid(),
    ensures
        r@.to_multiset() == samples@.to_multiset(),
        r@.len() == samples@.len(),
        values(r@) == in_order(values(samples@)),
    decreases samples@.len(),
{
    let n = samples.len();
    if n <= 1 {
        let mut r: Vec<T> = Vec::new();
        if n == 1 {
            r.push(samples[0]);
        }
        proof {
            assert(r@ =~= samples@);
            order_is_unique(values(samples@), values(r@));
        }
        return r;
    }
    let half = n / 2;
    let low = slice_subrange(samples, 0, half);
    let high = slice_subrange(samples, half, n);
    let left = sorted_copy(low);
    let right = sorted_copy(high);
    proof {
        sorted_part(low@, left@);
        sorted_part(high@, right@);
    }
    let r = merge(left, right);
    proof {
        broadcast use group_to_multiset_ensures;

        assert(samples@ =~= low@ + high@);
        lemma_multiset_commutative(low@, high@);
        assert(r@.to_multiset() =~= samples@.to_multiset());
        assert(r@.to_multiset().len() == samples@.to_multiset().len());
        map_keeps_rearrangement(r@, samples@, |t: T| t.value());
        order_is_unique(values(samples@), values(r@));
    }
    r
}

/// A sorted copy is ascending, and each of its members is one that was there.
proof fn sorted_part<T: Measure>(s: Seq<T>, r: Seq<T>)
    requires
        forall|i: int| 0 <= i < s.len() ==> (#[trigger] s[i]).valid(),
        r.to_multiset() == s.to_multiset(),
        values(r) == in_order(values(s)),
    ensures
        ascending(values(r)),
        forall|i: int| 0 <= i < r.len() ==> (#[trigger] r[i]).valid(),
        forall|i: int| 0 <= i < r.len() ==> s.contains(#[trigger] r[i]),
{
    broadcast use group_to_multiset_ensures;

    order_keeps_numbers(values(s));
    assert forall|i: int| 0 <= i < r.len() implies (#[trigger] r[i]).valid() && s.contains(
        r[i],
    ) by {
        assert(r.contains(r[i]));
        assert(s.to_multiset().count(r[i]) > 0);
        assert(s.contains(r[i]));
    }
}

/// A fraction between zero and one; anything above one counts as one.
#[derive(Debug, Clone, Copy, PartialEq, Eq)]
pub struct Fraction {
    pub num: u64,
    pub den: u64,
}

/// `p` hundredths.
#[verifier::allow_in_spec]
pub fn percent(p: u64) -> Fraction
    returns
        (Fraction { num: p, den: 100 }),
{
    Fraction { num: p, den: 100 }
}

impl Fraction {
    /// The numerator, at most the denominator.
    pub open spec fn capped(self) -> int {
        if self.num > self.den {
            self.den as int
        } else {
            self.num as int
        }
    }

    /// Is this fraction at most the other?
    pub open spec fn below(self, other: Fraction) -> bool {
        self.num * other.den <= other.num * self.den
    }

    /// How far this fraction of the way from the first to the last of `len`
    /// places leads, in parts of a place: `den` of them make one.
    pub open spec fn reach(self, len: int) -> int {
        self.capped() * (len - 1)
    }

    /// The last place before that.
    pub open spec fn place(self, len: int) -> int {
        self.reach(len) / (self.den as int)
    }

    /// The parts beyond that place.
    pub open spec fn beyond(self, len: int) -> int {
        self.reach(len) % (self.den as int)
    }
}

/// The quantile of sorted numbers, linearly interpolated between the two
/// neighbours.
pub open spec fn quantile_of(sorted: Seq<real>, q: Fraction) -> real {
    let i = q.place(sorted.len() as int);
    let w = q.beyond(sorted.len() as int);
    if w == 0 {
        sorted[i]
    } else {
        sorted[i] + (sorted[i + 1] - sorted[i]) * ((w as real) / (q.den as real))
    }
}

/// A quantile: the two neighbouring samples, and how far it lies from the lower
/// to the upper one, `weight` parts out of `parts`.
#[derive(Debug, Clone, Copy, PartialEq, Eq)]
pub struct Quantile<T> {
    pub low: T,
    pub high: T,
    pub weight: u64,
    pub parts: u64,
}

impl<T: Measure> Quantile<T> {
    /// The interpolated value.
    pub open spec fn value(self) -> real {
        self.low.value() + (self.high.value() - self.low.value()) * ((self.weight as real) / (
        self.parts as real))
    }
}

/// The neighbours of the quantile `q` in a sorted list, and its place between
/// them.
pub open spec fn neighbours<T>(sorted: Seq<T>, q: Fraction) -> Quantile<T> {
    let i = q.place(sorted.len() as int);
    let w = q.beyond(sorted.len() as int);
    Quantile {
        low: sorted[i],
        high: if w == 0 {
            sorted[i]
        } else {
            sorted[i + 1]
        },
        weight: w as u64,
        parts: q.den,
    }
}

/// A place and the parts beyond it lie within the list.
pub proof fn place_is_within(q: Fraction, len: int)
    requires
        q.den > 0,
        len > 0,
    ensures
        0 <= q.reach(len) <= q.den * (len - 1),
        0 <= q.place(len) < len,
        0 <= q.beyond(len) < q.den,
        q.beyond(len) > 0 ==> q.place(len) + 1 < len,
        q.reach(len) == q.place(len) * q.den + q.beyond(len),
{
    let r = q.reach(len);
    let d = q.den as int;
    let m = len - 1;
    assert(0 <= r <= d * m) by (nonlinear_arith)
        requires
            r == q.capped() * m,
            0 <= q.capped() <= d,
            0 <= m,
    ;
    vstd::arithmetic::div_mod::lemma_fundamental_div_mod(r, d);
    let p = r / d;
    let w = r % d;
    assert(p * d == d * p) by (nonlinear_arith);
    assert(0 <= w < d && 0 <= p) by (nonlinear_arith)
        requires
            r == d * p + w,
            d > 0,
            r >= 0,
            w == r % d,
            p == r / d,
    ;
    assert(p <= m) by (nonlinear_arith)
        requires
            r == d * p + w,
            0 <= w,
            r <= d * m,
            d > 0,
    ;
    if w > 0 {
        assert(p < m) by (nonlinear_arith)
            requires
                r == d * p + w,
                0 < w,
                r <= d * m,
                d > 0,
        ;
    }
}

/// The quantile `q` of an already sorted list: its neighbours and its place
/// between them.
pub fn quantile<T: Measure>(sorted: &[T], q: Fraction) -> (r: Quantile<T>)
    requires
        sorted@.len() > 0,
        q.den > 0,
    ensures
        r == neighbours(sorted@, q),
        r.value() == quantile_of(values(sorted@), q),
{
    let n = sorted.len();
    let num = if q.num > q.den {
        q.den
    } else {
        q.num
    };
    proof {
        place_is_within(q, n as int);
        assert(num * (n - 1) <= u64::MAX * u64::MAX) by (nonlinear_arith)
            requires
                0 <= num <= u64::MAX,
                0 <= n - 1 <= u64::MAX,
        ;
    }
    let reach = (num as u128) * ((n - 1) as u128);
    let place = (reach / (q.den as u128)) as usize;
    let weight = (reach % (q.den as u128)) as u64;
    let above = if weight > 0 {
        place + 1
    } else {
        place
    };
    let r = Quantile { low: sorted[place], high: sorted[above], weight, parts: q.den };
    proof {
        if weight == 0 {
            let w = (weight as real) / (q.den as real);
            assert(w == 0 as real) by (nonlinear_arith)
                requires
                    w == (0 as real) / (q.den as real),
                    q.den as real > 0 as real,
            ;
            assert((r.high.value() - r.low.value()) * w == 0 as real) by (nonlinear_arith)
                requires
                    w == 0 as real,
            ;
        }
    }
    r
}

/// Among sorted numbers a quantile lies between its two neighbours.
proof fn quantile_between_neighbours(sorted: Seq<real>, q: Fraction)
    requires
        ascending(sorted),
        sorted.len() > 0,
        q.den > 0,
    ensures
        ({
            let i = q.place(sorted.len() as int);
            &&& sorted[i] <= quantile_of(sorted, q)
            &&& q.beyond(sorted.len() as int) > 0 ==> quantile_of(sorted, q) <= sorted[i + 1]
            &&& q.beyond(sorted.len() as int) == 0 ==> quantile_of(sorted, q) == sorted[i]
        }),
{
    let i = q.place(sorted.len() as int);
    let w = q.beyond(sorted.len() as int);
    place_is_within(q, sorted.len() as int);
    if w > 0 {
        fraction_is_proper(w, q.den as int);
        between(sorted[i], sorted[i + 1], (w as real) / (q.den as real));
    }
}

proof fn fraction_is_proper(w: int, d: int)
    requires
        0 <= w <= d,
        d > 0,
    ensures
        0 as real <= (w as real) / (d as real) <= 1 as real,
{
    assert(0 as real <= (w as real) / (d as real) <= 1 as real) by (nonlinear_arith)
        requires
            0 as real <= w as real <= d as real,
            d as real > 0 as real,
    ;
}

proof fn between(a: real, b: real, t: real)
    requires
        a <= b,
        0 as real <= t <= 1 as real,
    ensures
        a <= a + (b - a) * t <= b,
{
    assert(a <= a + (b - a) * t <= b) by (nonlinear_arith)
        requires
            a <= b,
            0 as real <= t <= 1 as real,
    ;
}

/// A larger fraction never gives a smaller quantile.
pub proof fn quantiles_rise_with_the_fraction(sorted: Seq<real>, p: Fraction, q: Fraction)
    requires
        ascending(sorted),
        sorted.len() > 0,
        p.den > 0,
        q.den > 0,
        p.below(q),
    ensures
        quantile_of(sorted, p) <= quantile_of(sorted, q),
{
    let n = sorted.len() as int;
    let (i, v) = (p.place(n), p.beyond(n));
    let (j, w) = (q.place(n), q.beyond(n));
    place_is_within(p, n);
    place_is_within(q, n);
    quantile_between_neighbours(sorted, p);
    quantile_between_neighbours(sorted, q);
    let (a, b) = (p.den as int, q.den as int);
    assert(p.capped() * b <= q.capped() * a) by (nonlinear_arith)
        requires
            p.num * b <= q.num * a,
            p.capped() == if p.num > a {
                a
            } else {
                p.num as int
            },
            q.capped() == if q.num > b {
                b
            } else {
                q.num as int
            },
            a > 0,
            b > 0,
            p.num >= 0,
            q.num >= 0,
    ;
    // The reach of `p` is at most that of `q`, both in parts of `a * b`.
    assert((i * a + v) * b <= (j * b + w) * a) by (nonlinear_arith)
        requires
            i * a + v == p.capped() * (n - 1),
            j * b + w == q.capped() * (n - 1),
            p.capped() * b <= q.capped() * a,
            n - 1 >= 0,
    ;
    assert(i <= j) by (nonlinear_arith)
        requires
            (i * a + v) * b <= (j * b + w) * a,
            0 <= v,
            w < b,
            a > 0,
            b > 0,
    ;
    if i == j {
        assert(v * b <= w * a) by (nonlinear_arith)
            requires
                (i * a + v) * b <= (j * b + w) * a,
                i == j,
        ;
        if v > 0 {
            assert(w > 0) by (nonlinear_arith)
                requires
                    v * b <= w * a,
                    v > 0,
                    b > 0,
                    a > 0,
                    w >= 0,
            ;
            quotients_compare(v, a, w, b);
            let (s, t) = ((v as real) / (a as real), (w as real) / (b as real));
            let gap = sorted[i + 1] - sorted[i];
            assert(gap * s <= gap * t) by (nonlinear_arith)
                requires
                    0 as real <= gap,
                    s <= t,
            ;
        }
    } else {
        if v > 0 {
            assert(sorted[i + 1] <= sorted[j]);
        }
    }
}

/// Every quantile lies between the least and the greatest number, and the ends
/// of the scale are these two.
pub proof fn quantiles_stay_in_range(sorted: Seq<real>, q: Fraction)
    requires
        ascending(sorted),
        sorted.len() > 0,
        q.den > 0,
    ensures
        sorted.first() <= quantile_of(sorted, q) <= sorted.last(),
        q.num == 0 ==> quantile_of(sorted, q) == sorted.first(),
        q.num >= q.den ==> quantile_of(sorted, q) == sorted.last(),
{
    let n = sorted.len() as int;
    place_is_within(q, n);
    quantile_between_neighbours(sorted, q);
    let d = q.den as int;
    if q.num == 0 {
        assert(q.reach(n) == 0) by (nonlinear_arith)
            requires
                q.reach(n) == 0 * (n - 1),
        ;
        assert(q.place(n) == 0 && q.beyond(n) == 0) by (nonlinear_arith)
            requires
                q.reach(n) == 0,
                d > 0,
                q.place(n) == q.reach(n) / d,
                q.beyond(n) == q.reach(n) % d,
        ;
    }
    if q.num >= q.den {
        assert(q.reach(n) == d * (n - 1));
        assert(q.place(n) == n - 1 && q.beyond(n) == 0) by (nonlinear_arith)
            requires
                q.reach(n) == d * (n - 1),
                q.reach(n) == q.place(n) * d + q.beyond(n),
                0 <= q.beyond(n) < d,
                d > 0,
        ;
    }
}

/// The three numbers reported for every case, in nanoseconds per batch.
///
/// The minimum leads because noise on deterministic CPU-bound code is
/// one-sided; the median and p90 sit beside it because that assumption does not
/// always hold.
#[derive(Debug, Clone, Copy, PartialEq, Eq)]
pub struct Stats {
    pub min: u128,
    pub p50: Quantile<u128>,
    pub p90: Quantile<u128>,
}

impl Stats {
    /// Are these the order statistics of `samples`: the least, and the
    /// neighbours of the two quantiles among the sorted samples?
    pub open spec fn describes(self, samples: Seq<u128>) -> bool {
        &&& exists|sorted: Seq<u128>| #[trigger]
            sorts(sorted, samples) && self.min == sorted[0] && self.p50 == neighbours(
                sorted,
                percent(50),
            ) && self.p90 == neighbours(sorted, percent(90))
        &&& samples.contains(self.min)
        &&& forall|i: int| 0 <= i < samples.len() ==> self.min <= #[trigger] samples[i]
        &&& self.p50.value() == quantile_of(in_order(values(samples)), percent(50))
        &&& self.p90.value() == quantile_of(in_order(values(samples)), percent(90))
    }

    /// Read the statistics off an already sorted list.
    pub fn from_sorted(sorted: &[u128]) -> (r: Self)
        requires
            sorted@.len() > 0,
        ensures
            r.min == sorted@[0],
            r.p50 == neighbours(sorted@, percent(50)),
            r.p90 == neighbours(sorted@, percent(90)),
            r.p50.value() == quantile_of(values(sorted@), percent(50)),
            r.p90.value() == quantile_of(values(sorted@), percent(90)),
    {
        Stats {
            min: sorted[0],
            p50: quantile(sorted, percent(50)),
            p90: quantile(sorted, percent(90)),
        }
    }

    /// The order statistics of samples in any order.
    pub fn of(samples: &[u128]) -> (r: Self)
        requires
            samples@.len() > 0,
        ensures
            r.describes(samples@),
    {
        let sorted = sorted_copy(samples);
        let r = Stats::from_sorted(sorted.as_slice());
        proof {
            broadcast use group_to_multiset_ensures;

            sorted_part(samples@, sorted@);
            assert(sorts(sorted@, samples@));
            assert(samples@.contains(sorted@[0]));
            assert forall|i: int| 0 <= i < samples@.len() implies r.min
                <= #[trigger] samples@[i] by {
                assert(samples@.contains(samples@[i]));
                assert(sorted@.to_multiset().count(samples@[i]) > 0);
                let j = choose|j: int| 0 <= j < sorted@.len() && sorted@[j] == samples@[i];
                assert(values(sorted@)[0] <= values(sorted@)[j]);
            }
        }
        r
    }
}

/// The reported numbers never fall from one column to the next: the minimum is
/// at most the median, and the median at most the p90.
pub proof fn columns_rise(stats: Stats, samples: Seq<u128>)
    requires
        samples.len() > 0,
        stats.describes(samples),
    ensures
        stats.min.value() <= stats.p50.value(),
        stats.p50.value() <= stats.p90.value(),
{
    broadcast use group_to_multiset_ensures;

    let sorted = in_order(values(samples));
    order_keeps_numbers(values(samples));
    quantiles_rise_with_the_fraction(sorted, percent(50), percent(90));
    quantiles_stay_in_range(sorted, percent(50));
    assert(sorted.contains(sorted.first()));
    assert(values(samples).to_multiset().count(sorted.first()) > 0);
    let i = choose|i: int| 0 <= i < samples.len() && values(samples)[i] == sorted.first();
    assert(stats.min <= samples[i]);
}

/// A case's cost relative to the group's reference case, batch against batch.
#[derive(Debug, Clone, Copy, PartialEq, Eq)]
pub struct Ratio {
    /// The reported ratio: the median of the per-round paired ratios when the
    /// group was interleaved, and that of the two minima otherwise.
    pub point: Quantile<Pair>,
    /// The interquartile range of the per-round paired ratios.
    pub iqr: Option<(Quantile<Pair>, Quantile<Pair>)>,
}

/// The first `n` rounds as pairs, without those in which the reference took no
/// time at all.
pub open spec fn pairs_before(case: Seq<u128>, reference: Seq<u128>, n: int) -> Seq<Pair>
    decreases n,
{
    if n <= 0 {
        Seq::empty()
    } else if reference[n - 1] > 0 {
        pairs_before(case, reference, n - 1).push(
            Pair { case: case[n - 1], reference: reference[n - 1] },
        )
    } else {
        pairs_before(case, reference, n - 1)
    }
}

/// How many rounds both have a sample of.
pub open spec fn shared_rounds(case: Seq<u128>, reference: Seq<u128>) -> int {
    if case.len() < reference.len() {
        case.len() as int
    } else {
        reference.len() as int
    }
}

/// Round by round, the two samples that can be compared.
pub open spec fn pairs(case: Seq<u128>, reference: Seq<u128>) -> Seq<Pair> {
    pairs_before(case, reference, shared_rounds(case, reference))
}

/// A quantile of the per-round ratios.
pub open spec fn ratio_quantile(case: Seq<u128>, reference: Seq<u128>, q: Fraction) -> real {
    quantile_of(in_order(values(pairs(case, reference))), q)
}

impl Ratio {
    /// Is this the ratio of the two cases, round against round: the median of
    /// the per-round ratios, with their quartiles around it where there are
    /// four of them or more? All three are told by their neighbours among the
    /// rounds sorted by ratio.
    pub open spec fn pairs_up(self, case: Seq<u128>, reference: Seq<u128>) -> bool {
        &&& exists|sorted: Seq<Pair>| #[trigger]
            sorts(sorted, pairs(case, reference)) && self.point == neighbours(sorted, percent(50))
                && (self.iqr matches Some((lo, hi)) ==> lo == neighbours(sorted, percent(25))
                && hi == neighbours(sorted, percent(75)))
        &&& self.point.value() == ratio_quantile(case, reference, percent(50))
        &&& self.iqr is Some <==> pairs(case, reference).len() >= 4
        &&& self.iqr matches Some((lo, hi)) ==> {
            &&& lo.value() == ratio_quantile(case, reference, percent(25))
            &&& hi.value() == ratio_quantile(case, reference, percent(75))
            &&& lo.value() <= self.point.value() <= hi.value()
        }
    }

    /// Is this the plain quotient of two times, without a band?
    pub open spec fn divides(self, case: u128, reference: u128) -> bool {
        let p = Pair { case, reference };
        &&& self == (Ratio { point: Quantile { low: p, high: p, weight: 0, parts: 1 }, iqr: None })
        &&& self.point.value() == p.value()
    }

    /// The quotient of two times.
    pub fn of_times(case: u128, reference: u128) -> (r: Self)
        requires
            reference > 0,
        ensures
            r.divides(case, reference),
    {
        let p = Pair { case, reference };
        let point = Quantile { low: p, high: p, weight: 0, parts: 1 };
        proof {
            let gap = p.value() - p.value();
            assert(gap * ((0 as real) / (1 as real)) == 0 as real) by (nonlinear_arith)
                requires
                    gap == 0 as real,
            ;
        }
        Ratio { point, iqr: None }
    }
}

/// Every pair has a value and is a round that was measured.
proof fn pairs_are_rounds(case: Seq<u128>, reference: Seq<u128>, n: int)
    requires
        0 <= n <= case.len(),
        n <= reference.len(),
    ensures
        pairs_before(case, reference, n).len() <= n,
        forall|k: int|
            0 <= k < pairs_before(case, reference, n).len() ==> (#[trigger] pairs_before(
                case,
                reference,
                n,
            )[k]).valid(),
    decreases n,
{
    if n > 0 {
        pairs_are_rounds(case, reference, n - 1);
    }
}

/// Pair round `i` of `case` with round `i` of `reference` and take order
/// statistics of the per-round ratios.
///
/// The interquartile range needs four pairs to mean anything; the median does
/// not, so a very short run still gets a ratio.
pub fn paired_ratio(case: &[u128], reference: &[u128]) -> (r: Option<Ratio>)
    ensures
        r is None <==> pairs(case@, reference@).len() == 0,
        r matches Some(ratio) ==> ratio.pairs_up(case@, reference@),
{
    let n = if case.len() < reference.len() {
        case.len()
    } else {
        reference.len()
    };
    let mut found: Vec<Pair> = Vec::new();
    let mut i: usize = 0;
    while i < n
        invariant
            i <= n,
            n <= case@.len(),
            n <= reference@.len(),
            found@ == pairs_before(case@, reference@, i as int),
        decreases n - i,
    {
        if reference[i] > 0 {
            found.push(Pair { case: case[i], reference: reference[i] });
        }
        i += 1;
    }
    proof {
        pairs_are_rounds(case@, reference@, n as int);
    }
    if found.len() == 0 {
        return None;
    }
    let sorted = sorted_copy(found.as_slice());
    let point = quantile(sorted.as_slice(), percent(50));
    let iqr = if sorted.len() >= 4 {
        Some((quantile(sorted.as_slice(), percent(25)), quantile(sorted.as_slice(), percent(75))))
    } else {
        None
    };
    proof {
        point_sits_inside_its_band(case@, reference@);
        sorted_part(found@, sorted@);
        assert(sorts(sorted@, pairs(case@, reference@)));
    }
    Some(Ratio { point, iqr })
}

/// The point always sits inside its own band: the median of the per-round
/// ratios lies between their quartiles.
pub proof fn point_sits_inside_its_band(case: Seq<u128>, reference: Seq<u128>)
    requires
        pairs(case, reference).len() > 0,
    ensures
        ratio_quantile(case, reference, percent(25)) <= ratio_quantile(
            case,
            reference,
            percent(50),
        ),
        ratio_quantile(case, reference, percent(50)) <= ratio_quantile(
            case,
            reference,
            percent(75),
        ),
{
    let ratios = values(pairs(case, reference));
    order_keeps_numbers(ratios);
    quantiles_rise_with_the_fraction(in_order(ratios), percent(25), percent(50));
    quantiles_rise_with_the_fraction(in_order(ratios), percent(50), percent(75));
}

/// One round of two runs that differ by drift: the machine was slower or faster
/// by the same factor for the case and for the reference.
pub open spec fn same_up_to_drift(
    case: Seq<u128>,
    reference: Seq<u128>,
    drifted_case: Seq<u128>,
    drifted_reference: Seq<u128>,
    i: int,
) -> bool {
    &&& drifted_case[i] * reference[i] == case[i] * drifted_reference[i]
    &&& drifted_reference[i] > 0 <==> reference[i] > 0
}

proof fn drift_cancels_before(
    case: Seq<u128>,
    reference: Seq<u128>,
    drifted_case: Seq<u128>,
    drifted_reference: Seq<u128>,
    n: int,
)
    requires
        0 <= n <= case.len(),
        n <= reference.len(),
        drifted_case.len() == case.len(),
        drifted_reference.len() == reference.len(),
        forall|i: int|
            0 <= i < n ==> #[trigger] same_up_to_drift(
                case,
                reference,
                drifted_case,
                drifted_reference,
                i,
            ),
    ensures
        values(pairs_before(drifted_case, drifted_reference, n)) == values(
            pairs_before(case, reference, n),
        ),
    decreases n,
{
    let a = pairs_before(case, reference, n);
    let b = pairs_before(drifted_case, drifted_reference, n);
    if n > 0 {
        drift_cancels_before(case, reference, drifted_case, drifted_reference, n - 1);
        let i = n - 1;
        assert(same_up_to_drift(case, reference, drifted_case, drifted_reference, i));
        let a0 = pairs_before(case, reference, i);
        let b0 = pairs_before(drifted_case, drifted_reference, i);
        if reference[i] > 0 {
            let (x, y) = (case[i] as int, reference[i] as int);
            let (u, v) = (drifted_case[i] as int, drifted_reference[i] as int);
            quotients_compare(x, y, u, v);
            quotients_compare(u, v, x, y);
            assert(values(a) =~= values(a0).push((x as real) / (y as real)));
            assert(values(b) =~= values(b0).push((u as real) / (v as real)));
        }
    } else {
        assert(values(a) =~= values(b));
    }
}

/// Drift cancels inside every pair: where each round is slowed or sped up by a
/// factor of its own, the same for both cases, no quantile of the ratios moves.
pub proof fn drift_cancels(
    case: Seq<u128>,
    reference: Seq<u128>,
    drifted_case: Seq<u128>,
    drifted_reference: Seq<u128>,
    q: Fraction,
)
    requires
        drifted_case.len() == case.len(),
        drifted_reference.len() == reference.len(),
        forall|i: int|
            0 <= i < shared_rounds(case, reference) ==> #[trigger] same_up_to_drift(
                case,
                reference,
                drifted_case,
                drifted_reference,
                i,
            ),
    ensures
        pairs(drifted_case, drifted_reference).len() == pairs(case, reference).len(),
        ratio_quantile(drifted_case, drifted_reference, q) == ratio_quantile(case, reference, q),
{
    let n = shared_rounds(case, reference);
    drift_cancels_before(case, reference, drifted_case, drifted_reference, n);
    assert(values(pairs(drifted_case, drifted_reference)).len() == values(
        pairs(case, reference),
    ).len());
}

// ---------------------------------------------------------------------------
// Per iteration
// ---------------------------------------------------------------------------

/// Every number times `k`.
pub open spec fn scaled(s: Seq<real>, k: real) -> Seq<real> {
    s.map_values(|x: real| k * x)
}

/// Numbers that all grow by one factor have quantiles that grow by it.
pub proof fn quantiles_scale(s: Seq<real>, k: real, q: Fraction)
    requires
        s.len() > 0,
        k > 0 as real,
        q.den > 0,
    ensures
        quantile_of(in_order(scaled(s, k)), q) == k * quantile_of(in_order(s), q),
{
    let sorted = in_order(s);
    order_keeps_numbers(s);
    let t = scaled(sorted, k);
    assert(ascending(t)) by {
        assert forall|i: int, j: int| 0 <= i <= j < t.len() implies t[i] <= t[j] by {
            let (a, b) = (sorted[i], sorted[j]);
            assert(k * a <= k * b) by (nonlinear_arith)
                requires
                    a <= b,
                    k > 0 as real,
            ;
        }
    }
    map_keeps_rearrangement(sorted, s, |x: real| k * x);
    order_is_unique(scaled(s, k), t);
    let n = s.len() as int;
    place_is_within(q, n);
    let i = q.place(n);
    if q.beyond(n) > 0 {
        let (a, b) = (sorted[i], sorted[i + 1]);
        let w = (q.beyond(n) as real) / (q.den as real);
        assert(k * a + (k * b - k * a) * w == k * (a + (b - a) * w)) by (nonlinear_arith);
    }
}

/// Nanoseconds per iteration, of batches of `iters` iterations.
pub open spec fn per_iteration(samples: Seq<u128>, iters: u64) -> Seq<real> {
    samples.map_values(|t: u128| (t as real) / (iters as real))
}

/// The order statistics of the times per iteration are those of the batches,
/// divided by the iterations of a batch.
pub proof fn times_are_per_iteration(samples: Seq<u128>, iters: u64, q: Fraction)
    requires
        samples.len() > 0,
        iters > 0,
        q.den > 0,
    ensures
        quantile_of(in_order(per_iteration(samples, iters)), q) == quantile_of(
            in_order(values(samples)),
            q,
        ) / (iters as real),
{
    let d = iters as real;
    let k = (1 as real) / d;
    assert(k > 0 as real) by (nonlinear_arith)
        requires
            k == (1 as real) / d,
            d > 0 as real,
    ;
    let times = per_iteration(samples, iters);
    assert forall|n: int| 0 <= n < samples.len() implies times[n] == scaled(values(samples), k)[n] by {
        let x = samples[n] as real;
        assert(k * x == x / d) by (nonlinear_arith)
            requires
                k == (1 as real) / d,
                d > 0 as real,
        ;
    }
    assert(times =~= scaled(values(samples), k));
    let whole = quantile_of(in_order(values(samples)), q);
    assert(k * whole == whole / d) by (nonlinear_arith)
        requires
            k == (1 as real) / d,
            d > 0 as real,
    ;
    quantiles_scale(values(samples), k, q);
}

/// Is `t` the least of the numbers?
pub open spec fn is_least_of(t: real, s: Seq<real>) -> bool {
    s.contains(t) && forall|i: int| 0 <= i < s.len() ==> t <= #[trigger] s[i]
}

/// The least time per iteration is the least time of a batch, divided by its
/// iterations.
pub proof fn the_minimum_is_per_iteration(stats: Stats, samples: Seq<u128>, iters: u64)
    requires
        stats.describes(samples),
        iters > 0,
    ensures
        is_least_of((stats.min as real) / (iters as real), per_iteration(samples, iters)),
{
    let times = per_iteration(samples, iters);
    let d = iters as real;
    let least = (stats.min as real) / d;
    let at = choose|k: int| 0 <= k < samples.len() && samples[k] == stats.min;
    assert(times[at] == least);
    assert forall|i: int| 0 <= i < times.len() implies least <= #[trigger] times[i] by {
        let (a, b) = (stats.min as real, samples[i] as real);
        assert(stats.min <= samples[i]);
        assert(a / d <= b / d) by (nonlinear_arith)
            requires
                a <= b,
                d > 0 as real,
        ;
    }
}

/// The ratios of the times per iteration, of batches of `iters` iterations of
/// the case and `reference_iters` of the reference.
pub open spec fn iteration_ratios(
    found: Seq<Pair>,
    iters: u64,
    reference_iters: u64,
) -> Seq<real> {
    found.map_values(
        |p: Pair|
            ((p.case as real) / (iters as real)) / ((p.reference as real) / (
            reference_iters as real)),
    )
}

/// A quantile of the per-round ratios, iteration against iteration.
pub open spec fn iteration_ratio_quantile(
    case: Seq<u128>,
    reference: Seq<u128>,
    iters: u64,
    reference_iters: u64,
    q: Fraction,
) -> real {
    quantile_of(in_order(iteration_ratios(pairs(case, reference), iters, reference_iters)), q)
}

/// The order statistics of the per-iteration ratios are those of the batches,
/// times the factor between the two batch sizes.
pub proof fn ratios_are_per_iteration(
    case: Seq<u128>,
    reference: Seq<u128>,
    iters: u64,
    reference_iters: u64,
    q: Fraction,
)
    requires
        pairs(case, reference).len() > 0,
        iters > 0,
        reference_iters > 0,
        q.den > 0,
    ensures
        iteration_ratio_quantile(case, reference, iters, reference_iters, q) == ((
        reference_iters as real) / (iters as real)) * ratio_quantile(case, reference, q),
{
    let found = pairs(case, reference);
    let (i, j) = (iters as real, reference_iters as real);
    let k = j / i;
    assert(k > 0 as real) by (nonlinear_arith)
        requires
            k == j / i,
            i > 0 as real,
            j > 0 as real,
    ;
    pairs_are_rounds(case, reference, shared_rounds(case, reference));
    let ratios = iteration_ratios(found, iters, reference_iters);
    assert forall|n: int| 0 <= n < found.len() implies ratios[n] == scaled(values(found), k)[n] by {
        assert(found[n].valid());
        let (a, b) = (found[n].case as real, found[n].reference as real);
        assert((a / i) / (b / j) == (j / i) * (a / b)) by (nonlinear_arith)
            requires
                i > 0 as real,
                j > 0 as real,
                b > 0 as real,
        ;
    }
    assert(ratios =~= scaled(values(found), k));
    quantiles_scale(values(found), k, q);
}

// ---------------------------------------------------------------------------
// What the numbers are
// ---------------------------------------------------------------------------

/// The rounds among the first `n` that can be compared, in order.
proof fn usable_rounds(case: Seq<u128>, reference: Seq<u128>, n: int) -> (rounds: Seq<int>)
    requires
        0 <= n <= case.len(),
        n <= reference.len(),
    ensures
        rounds.len() == pairs_before(case, reference, n).len(),
        forall|a: int, b: int|
            0 <= a < b < rounds.len() ==> #[trigger] rounds[a] < #[trigger] rounds[b],
        forall|k: int|
            0 <= k < rounds.len() ==> 0 <= #[trigger] rounds[k] < n && reference[rounds[k]] > 0
                && pairs_before(case, reference, n)[k] == (Pair {
                case: case[rounds[k]],
                reference: reference[rounds[k]],
            }),
        forall|i: int| 0 <= i < n && #[trigger] reference[i] > 0 ==> rounds.contains(i),
    decreases n,
{
    if n == 0 {
        Seq::empty()
    } else {
        let before = usable_rounds(case, reference, n - 1);
        if reference[n - 1] > 0 {
            let rounds = before.push(n - 1);
            assert forall|i: int| 0 <= i < n && #[trigger] reference[i] > 0 implies rounds.contains(
                i,
            ) by {
                if i < n - 1 {
                    let k = choose|k: int| 0 <= k < before.len() && before[k] == i;
                    assert(rounds[k] == i);
                } else {
                    assert(rounds[rounds.len() - 1] == i);
                }
            }
            rounds
        } else {
            before
        }
    }
}

/// Every round counts: the compared pairs are the samples of the rounds that
/// both cases have and in which the reference took time, all of them, each once
/// and in order.
pub proof fn every_round_is_paired(case: Seq<u128>, reference: Seq<u128>) -> (rounds: Seq<int>)
    ensures
        rounds.len() == pairs(case, reference).len(),
        forall|a: int, b: int|
            0 <= a < b < rounds.len() ==> #[trigger] rounds[a] < #[trigger] rounds[b],
        forall|k: int|
            0 <= k < rounds.len() ==> 0 <= #[trigger] rounds[k] < case.len() && rounds[k]
                < reference.len() && reference[rounds[k]] > 0 && pairs(case, reference)[k] == (
            Pair { case: case[rounds[k]], reference: reference[rounds[k]] }),
        forall|i: int|
            0 <= i < case.len() && i < reference.len() && #[trigger] reference[i] > 0
                ==> rounds.contains(i) && pairs(case, reference).contains(
                Pair { case: case[i], reference: reference[i] },
            ),
{
    let rounds = usable_rounds(case, reference, shared_rounds(case, reference));
    assert forall|i: int|
        0 <= i < case.len() && i < reference.len() && #[trigger] reference[i]
            > 0 implies rounds.contains(i) && pairs(case, reference).contains(
        Pair { case: case[i], reference: reference[i] },
    ) by {
        assert(rounds.contains(i));
        let k = choose|k: int| 0 <= k < rounds.len() && rounds[k] == i;
        assert(pairs(case, reference)[k] == (Pair { case: case[i], reference: reference[i] }));
    }
    rounds
}

/// A reference that always took time is paired in every shared round: there are
/// as many pairs as the shorter of the two has samples, and pair `i` is round
/// `i`.
pub proof fn a_positive_reference_is_paired_throughout(case: Seq<u128>, reference: Seq<u128>)
    requires
        forall|i: int| 0 <= i < reference.len() ==> #[trigger] reference[i] > 0,
    ensures
        pairs(case, reference).len() <= case.len(),
        pairs(case, reference).len() <= reference.len(),
        pairs(case, reference).len() == case.len() || pairs(case, reference).len()
            == reference.len(),
        forall|i: int|
            0 <= i < case.len() && i < reference.len() ==> #[trigger] pairs(case, reference)[i] == (
            Pair { case: case[i], reference: reference[i] }),
{
    all_rounds_paired(case, reference, shared_rounds(case, reference));
}

proof fn all_rounds_paired(case: Seq<u128>, reference: Seq<u128>, n: int)
    requires
        0 <= n <= case.len(),
        n <= reference.len(),
        forall|i: int| 0 <= i < reference.len() ==> #[trigger] reference[i] > 0,
    ensures
        pairs_before(case, reference, n).len() == n,
        forall|i: int|
            0 <= i < n ==> #[trigger] pairs_before(case, reference, n)[i] == (Pair {
                case: case[i],
                reference: reference[i],
            }),
    decreases n,
{
    if n > 0 {
        assert(reference[n - 1] > 0);
        all_rounds_paired(case, reference, n - 1);
    }
}

/// Does `v` lie at place `i` of the numbers, and `w` of `d` parts further? A
/// place itself is the number there, and between two places the nearer of the
/// two numbers weighs the more.
pub open spec fn lies_at(v: real, numbers: Seq<real>, i: int, w: int, d: int) -> bool {
    &&& 0 <= i < numbers.len()
    &&& w == 0 ==> v == numbers[i]
    &&& w > 0 ==> i + 1 < numbers.len() && (d as real) * v == ((d - w) as real) * numbers[i] + (
    w as real) * numbers[i + 1]
}

/// A quantile lies where its fraction says: `num / den` of the way from the
/// first number to the last.
pub proof fn quantiles_lie_where_the_fraction_says(
    sorted: Seq<real>,
    q: Fraction,
    i: int,
    w: int,
)
    requires
        sorted.len() > 0,
        q.num <= q.den,
        0 <= w < q.den,
        q.num * (sorted.len() - 1) == i * q.den + w,
    ensures
        lies_at(quantile_of(sorted, q), sorted, i, w, q.den as int),
{
    let n = sorted.len() as int;
    let d = q.den as int;
    place_is_within(q, n);
    vstd::arithmetic::div_mod::lemma_fundamental_div_mod_converse(q.reach(n), d, i, w);
    assert(i * d == d * i) by (nonlinear_arith);
    if w > 0 {
        let (a, b) = (sorted[i], sorted[i + 1]);
        let (x, y) = (w as real, d as real);
        let z = x / y;
        assert((d - w) as real == y - x);
        assert(z * y == x) by (nonlinear_arith)
            requires
                z == x / y,
                y > 0 as real,
        ;
        weighted_mean(a, b, x, y, z);
    }
}

/// A number `z` of the way from `a` to `b` is their mean, weighted by the parts
/// of `z`.
proof fn weighted_mean(a: real, b: real, x: real, y: real, z: real)
    requires
        z * y == x,
    ensures
        y * (a + (b - a) * z) == (y - x) * a + x * b,
{
    let gap = b - a;
    assert(y * (a + gap * z) == y * a + gap * (z * y)) by (nonlinear_arith);
    assert(gap * x == x * b - x * a) by (nonlinear_arith)
        requires
            gap == b - a,
    ;
    assert((y - x) * a == y * a - x * a) by (nonlinear_arith);
    assert(gap * (z * y) == gap * x);
}

/// A fraction in other terms leads to the same place.
pub proof fn equal_fractions_are_one_quantile(sorted: Seq<real>, p: Fraction, q: Fraction)
    requires
        ascending(sorted),
        sorted.len() > 0,
        p.den > 0,
        q.den > 0,
        p.num * q.den == q.num * p.den,
    ensures
        quantile_of(sorted, p) == quantile_of(sorted, q),
{
    quantiles_rise_with_the_fraction(sorted, p, q);
    quantiles_rise_with_the_fraction(sorted, q, p);
}

/// The columns behind the minimum are the sorted samples half of the way up and
/// nine tenths of the way up, and the minimum is where they start.
pub proof fn columns_are_the_half_and_nine_tenths(stats: Stats, samples: Seq<u128>)
    requires
        samples.len() > 0,
        stats.describes(samples),
    ensures
        stats.p50.value() == quantile_of(in_order(values(samples)), Fraction { num: 1, den: 2 }),
        stats.p90.value() == quantile_of(in_order(values(samples)), Fraction { num: 9, den: 10 }),
        forall|i: int| 0 <= i < samples.len() ==> stats.min <= #[trigger] samples[i],
        samples.contains(stats.min),
{
    let sorted = in_order(values(samples));
    order_keeps_numbers(values(samples));
    equal_fractions_are_one_quantile(sorted, percent(50), Fraction { num: 1, den: 2 });
    equal_fractions_are_one_quantile(sorted, percent(90), Fraction { num: 9, den: 10 });
}

/// The ratio is the sorted ratios half of the way up, and its band reaches from
/// a quarter to three quarters of it. There is a band from four rounds on.
pub proof fn bands_are_the_quarters(ratio: Ratio, case: Seq<u128>, reference: Seq<u128>)
    requires
        pairs(case, reference).len() > 0,
        ratio.pairs_up(case, reference),
    ensures
        ({
            let sorted = in_order(
                pairs(case, reference).map_values(
                    |p: Pair| (p.case as real) / (p.reference as real),
                ),
            );
            &&& ratio.point.value() == quantile_of(sorted, Fraction { num: 1, den: 2 })
            &&& ratio.iqr is Some <==> pairs(case, reference).len() >= 4
            &&& ratio.iqr matches Some((lo, hi)) ==> lo.value() == quantile_of(
                sorted,
                Fraction { num: 1, den: 4 },
            ) && hi.value() == quantile_of(sorted, Fraction { num: 3, den: 4 })
        }),
{
    let found = pairs(case, reference);
    assert(values(found) =~= found.map_values(
        |p: Pair| (p.case as real) / (p.reference as real),
    ));
    let sorted = in_order(values(found));
    order_keeps_numbers(values(found));
    equal_fractions_are_one_quantile(sorted, percent(50), Fraction { num: 1, den: 2 });
    equal_fractions_are_one_quantile(sorted, percent(25), Fraction { num: 1, den: 4 });
    equal_fractions_are_one_quantile(sorted, percent(75), Fraction { num: 3, den: 4 });
}

} // verus!
