//! Whole numbers of any length, as decimal digits.
//!
//! The lowest digit comes first. A number with a leading digit above zero is between two
//! neighbouring powers of ten, so lengths decide most comparisons.
use vstd::arithmetic::power2::pow2;
use vstd::prelude::*;

verus! {

/// Ten to the power of `n`.
pub open spec fn tens(n: nat) -> nat
    decreases n,
{
    if n == 0 {
        1
    } else {
        10 * tens((n - 1) as nat)
    }
}

/// The number that digits stand for, the lowest first.
pub open spec fn value(d: Seq<u8>) -> nat
    decreases d.len(),
{
    if d.len() == 0 {
        0
    } else {
        d.last() as nat * tens((d.len() - 1) as nat) + value(d.drop_last())
    }
}

/// Every one is a decimal digit.
pub open spec fn are_digits(d: Seq<u8>) -> bool {
    forall|i: int| 0 <= i < d.len() ==> #[trigger] d[i] <= 9
}

/// Digits, with a highest that is above zero.
pub open spec fn leads(d: Seq<u8>) -> bool {
    are_digits(d) && d.len() > 0 && d.last() > 0
}

/// `m` times ten to the power of `x` is less than `n`.
pub open spec fn below(m: nat, x: int, n: nat) -> bool {
    if x >= 0 {
        m * tens(x as nat) < n
    } else {
        m < n * tens((-x) as nat)
    }
}

/// `m` times ten to the power of `x` is more than `n`.
pub open spec fn above(m: nat, x: int, n: nat) -> bool {
    if x >= 0 {
        m * tens(x as nat) > n
    } else {
        m > n * tens((-x) as nat)
    }
}

/// A power of ten is at least one.
pub proof fn lemma_tens_positive(n: nat)
    ensures
        tens(n) >= 1,
    decreases n,
{
    if n > 0 {
        lemma_tens_positive((n - 1) as nat);
    }
}

/// Powers of ten multiply by adding what they are raised to.
pub proof fn lemma_tens_adds(a: nat, b: nat)
    ensures
        tens(a + b) == tens(a) * tens(b),
    decreases a,
{
    if a > 0 {
        let a1 = (a - 1) as nat;
        lemma_tens_adds(a1, b);
        assert((a + b - 1) as nat == a1 + b);
        assert(10 * (tens(a1) * tens(b)) == (10 * tens(a1)) * tens(b)) by (nonlinear_arith);
    } else {
        assert(1 * tens(b) == tens(b));
    }
}

/// Powers of ten grow.
pub proof fn lemma_tens_grow(a: nat, b: nat)
    requires
        a <= b,
    ensures
        tens(a) <= tens(b),
    decreases b - a,
{
    if a < b {
        lemma_tens_grow(a, (b - 1) as nat);
        lemma_tens_positive((b - 1) as nat);
    }
}

/// A number lies below the power of ten of its length, and from the one before on where it
/// has a leading digit.
pub proof fn lemma_value_between(d: Seq<u8>)
    requires
        are_digits(d),
    ensures
        value(d) < tens(d.len()),
        leads(d) ==> value(d) >= tens((d.len() - 1) as nat),
    decreases d.len(),
{
    if d.len() > 0 {
        let e = d.drop_last();
        let p = tens(e.len());
        assert(are_digits(e)) by {
            assert forall|i: int| 0 <= i < e.len() implies #[trigger] e[i] <= 9 by {
                assert(d[i] <= 9);
            }
        }
        lemma_value_between(e);
        let h = d.last() as nat;
        assert(d[d.len() - 1] <= 9);
        assert(h * p <= 9 * p) by (nonlinear_arith)
            requires
                h <= 9,
        ;
        if h > 0 {
            assert(h * p >= p) by (nonlinear_arith)
                requires
                    h >= 1,
            ;
        }
    }
}

/// Numbers of different lengths, one of them shifted, are apart.
pub proof fn lemma_lengths_decide(a: Seq<u8>, x: int, b: Seq<u8>)
    requires
        leads(a),
        leads(b),
    ensures
        a.len() + x < b.len() ==> below(value(a), x, value(b)) && !above(value(a), x, value(b)),
        a.len() + x > b.len() ==> above(value(a), x, value(b)) && !below(value(a), x, value(b)),
{
    let (m, n) = (value(a), value(b));
    lemma_value_between(a);
    lemma_value_between(b);
    if x >= 0 {
        let s = tens(x as nat);
        lemma_tens_positive(x as nat);
        lemma_tens_adds(a.len(), x as nat);
        lemma_tens_adds((a.len() - 1) as nat, x as nat);
        assert(m * s < tens(a.len()) * s) by (nonlinear_arith)
            requires
                m < tens(a.len()),
                s >= 1,
        ;
        assert(m * s >= tens((a.len() - 1) as nat) * s) by (nonlinear_arith)
            requires
                m >= tens((a.len() - 1) as nat),
        ;
        if a.len() + x < b.len() {
            lemma_tens_grow(a.len() + x as nat, (b.len() - 1) as nat);
        }
        if a.len() + x > b.len() {
            lemma_tens_grow(b.len(), (a.len() - 1) as nat + x as nat);
        }
    } else {
        let y = (-x) as nat;
        let s = tens(y);
        lemma_tens_positive(y);
        lemma_tens_adds(b.len(), y);
        lemma_tens_adds((b.len() - 1) as nat, y);
        assert(n * s < tens(b.len()) * s) by (nonlinear_arith)
            requires
                n < tens(b.len()),
                s >= 1,
        ;
        assert(n * s >= tens((b.len() - 1) as nat) * s) by (nonlinear_arith)
            requires
                n >= tens((b.len() - 1) as nat),
        ;
        if a.len() + x < b.len() {
            lemma_tens_grow(a.len(), (b.len() - 1) as nat + y);
        }
        if a.len() + x > b.len() {
            lemma_tens_grow(b.len() + y, (a.len() - 1) as nat);
        }
    }
}

/// Of two numbers of one length, the first digit from the top that differs decides.
proof fn lemma_first_difference(p: Seq<u8>, q: Seq<u8>, i: int)
    requires
        are_digits(p),
        are_digits(q),
        p.len() == q.len(),
        0 <= i < p.len(),
        p[i] < q[i],
        forall|j: int| i < j < p.len() ==> #[trigger] p[j] == q[j],
    ensures
        value(p) < value(q),
    decreases p.len(),
{
    let (p1, q1) = (p.drop_last(), q.drop_last());
    assert(are_digits(p1)) by {
        assert forall|j: int| 0 <= j < p1.len() implies #[trigger] p1[j] <= 9 by {
            assert(p[j] <= 9);
        }
    }
    assert(are_digits(q1)) by {
        assert forall|j: int| 0 <= j < q1.len() implies #[trigger] q1[j] <= 9 by {
            assert(q[j] <= 9);
        }
    }
    if i == p.len() - 1 {
        lemma_value_between(p1);
        let (a, b, s) = (p.last() as nat, q.last() as nat, tens(p1.len()));
        assert(a * s + s <= b * s) by (nonlinear_arith)
            requires
                a + 1 <= b,
        ;
    } else {
        assert(p[p.len() - 1] == q[p.len() - 1]);
        lemma_first_difference(p1, q1, i);
    }
}

/// Zeros alone stand for zero.
proof fn lemma_zeros(d: Seq<u8>)
    requires
        forall|i: int| 0 <= i < d.len() ==> #[trigger] d[i] == 0,
    ensures
        value(d) == 0,
    decreases d.len(),
{
    if d.len() > 0 {
        lemma_zeros(d.drop_last());
        assert(d[d.len() - 1] == 0);
        assert(0 * tens((d.len() - 1) as nat) == 0);
    }
}

/// Zeros below a number multiply it by a power of ten.
proof fn lemma_padded(d: Seq<u8>, k: nat, e: Seq<u8>)
    requires
        e.len() == k + d.len(),
        forall|i: int| 0 <= i < k ==> #[trigger] e[i] == 0,
        forall|i: int| 0 <= i < d.len() ==> e[k + i] == #[trigger] d[i],
    ensures
        value(e) == value(d) * tens(k),
    decreases d.len(),
{
    if d.len() == 0 {
        lemma_zeros(e);
        assert(0 * tens(k) == 0);
    } else {
        let (d1, e1) = (d.drop_last(), e.drop_last());
        lemma_padded(d1, k, e1);
        let h = d.last() as nat;
        assert(e[k + (d.len() - 1)] == d[d.len() - 1]);
        assert(e.last() == d.last());
        lemma_tens_adds(d1.len(), k);
        assert(h * (tens(d1.len()) * tens(k)) + value(d1) * tens(k) == (h * tens(d1.len()) + value(
            d1,
        )) * tens(k)) by (nonlinear_arith);
    }
}

/// The digits with `k` zeros below them.
fn padded(d: &Vec<u8>, k: usize) -> (e: Vec<u8>)
    requires
        are_digits(d@),
        k + d@.len() <= usize::MAX,
    ensures
        are_digits(e@),
        e@.len() == k + d@.len(),
        value(e@) == value(d@) * tens(k as nat),
{
    let mut e: Vec<u8> = Vec::new();
    let mut i: usize = 0;
    while i < k
        invariant
            i <= k,
            e@.len() == i,
            forall|j: int| 0 <= j < i ==> #[trigger] e@[j] == 0,
        decreases k - i,
    {
        e.push(0);
        i += 1;
    }
    let mut i: usize = 0;
    while i < d.len()
        invariant
            i <= d@.len(),
            k + d@.len() <= usize::MAX,
            are_digits(d@),
            e@.len() == k + i,
            forall|j: int| 0 <= j < k ==> #[trigger] e@[j] == 0,
            forall|j: int| 0 <= j < i ==> e@[k + j] == #[trigger] d@[j],
        decreases d@.len() - i,
    {
        e.push(d[i]);
        i += 1;
    }
    proof {
        lemma_padded(d@, k as nat, e@);
        assert forall|j: int| 0 <= j < e@.len() implies #[trigger] e@[j] <= 9 by {
            if j >= k {
                assert(d@[j - k] <= 9);
                assert(e@[k + (j - k)] == d@[j - k]);
            }
        }
    }
    e
}

/// How two numbers compare.
#[derive(Debug, Clone, Copy, PartialEq, Eq, Structural)]
pub enum Side {
    /// The first is less.
    Below,
    /// They are equal.
    Same,
    /// The first is more.
    Above,
}

/// How two numbers with as many digits compare.
fn level_side(p: &Vec<u8>, q: &Vec<u8>) -> (r: Side)
    requires
        are_digits(p@),
        are_digits(q@),
        p@.len() == q@.len(),
    ensures
        (r == Side::Below) == (value(p@) < value(q@)),
        (r == Side::Above) == (value(p@) > value(q@)),
{
    let mut i: usize = p.len();
    while i > 0
        invariant
            i <= p@.len(),
            p@.len() == q@.len(),
            are_digits(p@),
            are_digits(q@),
            forall|j: int| i <= j < p@.len() ==> #[trigger] p@[j] == q@[j],
        decreases i,
    {
        i -= 1;
        if p[i] < q[i] {
            proof {
                lemma_first_difference(p@, q@, i as int);
            }
            return Side::Below;
        }
        if q[i] < p[i] {
            proof {
                lemma_first_difference(q@, p@, i as int);
            }
            return Side::Above;
        }
    }
    assert(p@ =~= q@);
    Side::Same
}

/// How one number, times ten to the power of `x`, compares with another.
pub fn side(a: &Vec<u8>, x: i128, b: &Vec<u8>) -> (r: Side)
    requires
        leads(a@),
        leads(b@),
        -0x1000_0000_0000_0000_0000_0000_0000 <= x <= 0x1000_0000_0000_0000_0000_0000_0000,
    ensures
        (r == Side::Below) == below(value(a@), x as int, value(b@)),
        (r == Side::Above) == above(value(a@), x as int, value(b@)),
{
    let reach: i128 = a.len() as i128 + x;
    let other: i128 = b.len() as i128;
    proof {
        lemma_lengths_decide(a@, x as int, b@);
    }
    if reach < other {
        Side::Below
    } else if reach > other {
        Side::Above
    } else if x >= 0 {
        let p = padded(a, x as usize);
        level_side(&p, b)
    } else {
        let q = padded(b, (-x) as usize);
        level_side(a, &q)
    }
}

/// Drops the zeros above a number.
pub fn trim(d: &mut Vec<u8>)
    requires
        are_digits(old(d)@),
    ensures
        are_digits(final(d)@),
        value(final(d)@) == value(old(d)@),
        final(d)@.len() > 0 ==> leads(final(d)@),
        value(old(d)@) > 0 ==> final(d)@.len() > 0,
{
    let ghost start = d@;
    while d.len() > 0 && d[d.len() - 1] == 0
        invariant
            are_digits(d@),
            value(d@) == value(start),
        decreases d@.len(),
    {
        let ghost was = d@;
        d.pop();
        assert(d@ =~= was.drop_last());
        assert(0 * tens((was.len() - 1) as nat) == 0);
    }
}

/// Multiplies a number.
pub fn times(d: &mut Vec<u8>, k: u64)
    requires
        leads(old(d)@),
        0 < k <= 100_000_000_000_000_000,
    ensures
        leads(final(d)@),
        value(final(d)@) == value(old(d)@) * k,
{
    let ghost start = d@;
    let n: usize = d.len();
    let mut carry: u64 = 0;
    let mut i: usize = 0;
    proof {
        assert(start.take(0) =~= Seq::empty());
        assert(0 * k == 0);
        assert(0 * tens(0) == 0);
    }
    while i < n
        invariant
            i <= n,
            n == start.len(),
            d@.len() == n,
            are_digits(start),
            are_digits(d@),
            0 < k <= 100_000_000_000_000_000,
            carry < k,
            forall|j: int| i <= j < n ==> #[trigger] d@[j] == start[j],
            value(d@.take(i as int)) + carry * tens(i as nat) == value(start.take(i as int)) * k,
        decreases n - i,
    {
        let ghost was = d@;
        let ghost (c0, h) = (carry as nat, d@[i as int] as nat);
        assert(start[i as int] <= 9);
        assert(h * k + c0 < 10 * k) by (nonlinear_arith)
            requires
                h <= 9,
                c0 < k,
        ;
        assert(0 <= h * k) by (nonlinear_arith);
        let sum: u64 = d[i] as u64 * k + carry;
        let low: u8 = (sum % 10) as u8;
        carry = sum / 10;
        d.set(i, low);
        proof {
            let p = tens(i as nat);
            let (now, upto) = (d@.take(i + 1), start.take(i + 1));
            assert(now.drop_last() =~= was.take(i as int));
            assert(upto.drop_last() =~= start.take(i as int));
            assert(now.last() == low && upto.last() == h);
            assert(sum == low + 10 * carry);
            let (v, w, l, c) = (
                value(was.take(i as int)) as int,
                value(start.take(i as int)) as int,
                low as int,
                carry as int,
            );
            assert(l * p + v + c * (10 * p) == (h * p + w) * k) by (nonlinear_arith)
                requires
                    v + c0 * p == w * k,
                    h * k + c0 == l + 10 * c,
            ;
        }
        i += 1;
    }
    assert(d@.take(n as int) =~= d@);
    assert(start.take(n as int) =~= start);
    while carry > 0
        invariant
            are_digits(d@),
            value(d@) + carry * tens(d@.len()) == value(start) * k,
        decreases carry,
    {
        let ghost was = d@;
        let ghost c0 = carry as nat;
        let low: u8 = (carry % 10) as u8;
        carry = carry / 10;
        d.push(low);
        proof {
            let p = tens(was.len());
            let (l, c) = (low as int, carry as int);
            assert(d@.drop_last() =~= was);
            assert(c0 == l + 10 * c);
            assert(c0 * p == l * p + c * (10 * p)) by (nonlinear_arith)
                requires
                    c0 == l + 10 * c,
            ;
        }
    }
    proof {
        lemma_value_between(start);
        lemma_tens_positive((start.len() - 1) as nat);
        assert(0 * tens(d@.len()) == 0);
        assert(value(start) * k > 0) by (nonlinear_arith)
            requires
                value(start) > 0,
                k > 0,
        ;
    }
    trim(d);
}

/// Multiplies a number by the `count`-th power of `factor`, itself two to the power of
/// `step`.
pub fn times_power(d: &mut Vec<u8>, factor: u64, step: u64, count: u64)
    requires
        leads(old(d)@),
        0 < factor <= 100_000_000_000_000_000,
        factor == pow2(step as nat),
    ensures
        leads(final(d)@),
        value(final(d)@) == value(old(d)@) * pow2((step * count) as nat),
{
    let ghost start = d@;
    let mut i: u64 = 0;
    proof {
        vstd::arithmetic::power2::lemma2_to64();
        assert(step * 0 == 0);
        assert(value(start) * 1 == value(start));
    }
    while i < count
        invariant
            i <= count,
            leads(d@),
            0 < factor <= 100_000_000_000_000_000,
            factor == pow2(step as nat),
            value(d@) == value(start) * pow2((step * i) as nat),
        decreases count - i,
    {
        times(d, factor);
        proof {
            vstd::arithmetic::power2::lemma_pow2_adds((step * i) as nat, step as nat);
            assert(step * i + step == step * (i + 1)) by (nonlinear_arith);
            assert(step * i >= 0) by (nonlinear_arith);
            let (v, p, q) = (value(start) as int, pow2((step * i) as nat) as int, factor as int);
            assert(v * p * q == v * (p * q)) by (nonlinear_arith);
        }
        i += 1;
    }
}

} // verus!
