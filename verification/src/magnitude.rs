//! How large the numbers are that texts write down.
//!
//! A written number is kept in double precision: it is rounded to the nearest number
//! that has 53 binary digits, and to the one whose last digit is even where two are as
//! near. From the middle between the largest such number and the next power of two on it
//! is infinite, and up to half the least one it is zero.
use vstd::arithmetic::power2::pow2;
use vstd::prelude::*;

use crate::digits::{side, times, times_power, trim, Side};
use crate::number::{after_sign, is_plain};
use crate::text::chars_of;

verus! {

/// An exponent from which on the rest of a text makes no difference.
const FAR: i128 = 1_000_000_000_000_000_000_000_000_000_000;

/// The digits of a text as one whole number, whatever point stands among them.
pub open spec fn mantissa(s: Seq<char>) -> nat
    decreases s.len(),
{
    if s.len() == 0 {
        0
    } else if s.last() == '.' {
        mantissa(s.drop_last())
    } else {
        mantissa(s.drop_last()) * 10 + (s.last() as nat - '0' as nat) as nat
    }
}

/// How many digits stand behind the point.
pub open spec fn places(s: Seq<char>) -> nat {
    if s.contains('.') {
        (s.len() - 1 - s.index_of('.')) as nat
    } else {
        0
    }
}

/// The power of ten that an exponent gives; nothing gives the power zero.
pub open spec fn exponent(s: Seq<char>) -> int {
    if s.len() == 0 {
        0
    } else {
        let power = mantissa(crate::number::unsigned(s.skip(1))) as int;
        if s.len() > 1 && s[1] == '-' {
            -power
        } else {
            power
        }
    }
}

/// `m` times ten to the power of `x` is finite in double precision.
pub open spec fn is_finite(m: nat, x: int) -> bool {
    crate::digits::below(m, x, (pow2(1024) - pow2(970)) as nat)
}

/// `m` times ten to the power of `x` is above zero in double precision.
pub open spec fn is_above_zero(m: nat, x: int) -> bool {
    crate::digits::above(m * pow2(1075), x, 1)
}

/// A decimal up to place `k`, and an exponent or nothing from there.
pub open spec fn parts_at(u: Seq<char>, k: int) -> bool {
    &&& 0 <= k <= u.len()
    &&& crate::number::is_decimal(u.take(k))
    &&& k < u.len() ==> crate::number::is_exponent(u.skip(k))
}

/// The parts at place `k` write a number that is finite and above zero.
pub open spec fn is_positive_at(u: Seq<char>, k: int) -> bool {
    let m = mantissa(u.take(k));
    let x = exponent(u.skip(k)) - places(u.take(k));
    parts_at(u, k) && is_finite(m, x) && is_above_zero(m, x)
}

/// The text writes a number that is finite and above zero in double precision.
pub open spec fn is_positive(s: Seq<char>) -> bool {
    &&& s.len() > 0
    &&& s[0] != '-'
    &&& exists|k: int| is_positive_at(crate::number::unsigned(s), k)
}

/// Where the exponent begins, or the text ends.
fn exponent_start(u: &Vec<char>) -> (k: usize)
    ensures
        k <= u@.len(),
        k < u@.len() ==> u@[k as int] == 'e' || u@[k as int] == 'E',
        forall|i: int| 0 <= i < k ==> #[trigger] u@[i] != 'e' && u@[i] != 'E',
{
    let mut k: usize = 0;
    while k < u.len() && u[k] != 'e' && u[k] != 'E'
        invariant
            k <= u@.len(),
            forall|i: int| 0 <= i < k ==> #[trigger] u@[i] != 'e' && u@[i] != 'E',
        decreases u@.len() - k,
    {
        k += 1;
    }
    k
}

/// A number has its parts where its exponent begins.
proof fn lemma_parts(u: Seq<char>, end: int, k: int)
    requires
        parts_at(u, k),
        0 <= end <= u.len(),
        end < u.len() ==> u[end] == 'e' || u[end] == 'E',
        forall|i: int| 0 <= i < end ==> #[trigger] u[i] != 'e' && u[i] != 'E',
    ensures
        k == end,
{
    crate::number::lemma_decimal(u.take(k));
    if k < end {
        assert(u.skip(k)[0] == u[k]);
    }
    if end < k {
        assert(u.take(k)[end] == u[end]);
    }
}

/// The digits before place `end`, the lowest first, without zeros above them.
fn digits_before(u: &Vec<char>, end: usize) -> (d: Vec<u8>)
    requires
        end <= u@.len(),
        crate::number::is_decimal(u@.take(end as int)),
    ensures
        crate::digits::are_digits(d@),
        crate::digits::value(d@) == mantissa(u@.take(end as int)),
        d@.len() > 0 ==> crate::digits::leads(d@),
        mantissa(u@.take(end as int)) > 0 ==> d@.len() > 0,
{
    let mut d: Vec<u8> = Vec::new();
    let ghost t = u@.take(end as int);
    proof {
        crate::number::lemma_decimal(t);
        assert(t.take(end as int) =~= t);
        assert(crate::digits::tens(0) == 1);
        assert(mantissa(t) * 1 == mantissa(t));
    }
    let mut i: usize = end;
    while i > 0
        invariant
            i <= end <= u@.len(),
            t == u@.take(end as int),
            forall|j: int|
                0 <= j < t.len() ==> crate::number::is_digit(#[trigger] t[j]) || t[j] == '.',
            crate::digits::are_digits(d@),
            mantissa(t) == mantissa(t.take(i as int)) * crate::digits::tens(d@.len())
                + crate::digits::value(d@),
        decreases i,
    {
        let ghost head = t.take(i as int);
        i -= 1;
        proof {
            assert(head.drop_last() =~= t.take(i as int));
            assert(head.last() == t[i as int] && t[i as int] == u@[i as int]);
        }
        if u[i] != '.' {
            let ghost was = d@;
            let c: u8 = (u[i] as u32 - '0' as u32) as u8;
            d.push(c);
            proof {
                assert(d@.drop_last() =~= was);
                let (m, h, p, v) = (
                    mantissa(t.take(i as int)) as int,
                    c as int,
                    crate::digits::tens(was.len()) as int,
                    crate::digits::value(was) as int,
                );
                assert((m * 10 + h) * p + v == m * (10 * p) + (h * p + v)) by (nonlinear_arith);
            }
        }
    }
    proof {
        assert(0 * crate::digits::tens(d@.len()) == 0);
    }
    trim(&mut d);
    d
}

/// How many digits stand behind the point, before place `end`.
fn places_before(u: &Vec<char>, end: usize) -> (n: usize)
    requires
        end <= u@.len(),
        crate::number::is_decimal(u@.take(end as int)),
    ensures
        n == places(u@.take(end as int)),
{
    let ghost t = u@.take(end as int);
    proof {
        crate::number::lemma_decimal(t);
    }
    let mut i: usize = 0;
    while i < end
        invariant
            i <= end <= u@.len(),
            t == u@.take(end as int),
            forall|j: int| 0 <= j < i ==> #[trigger] t[j] != '.',
            forall|a: int, b: int|
                0 <= a < t.len() && 0 <= b < t.len() && #[trigger] t[a] == '.' && #[trigger] t[b]
                    == '.' ==> a == b,
        decreases end - i,
    {
        assert(t[i as int] == u@[i as int]);
        if u[i] == '.' {
            proof {
                assert(t.contains('.'));
                assert(t[t.index_of('.')] == '.');
            }
            return end - 1 - i;
        }
        i += 1;
    }
    proof {
        if t.contains('.') {
            assert(t[t.index_of('.')] == '.');
        }
    }
    0
}

/// The number that digits from place `from` on write, if it is not too far off.
fn power_from(u: &Vec<char>, from: usize) -> (r: Option<i128>)
    requires
        from <= u@.len(),
        crate::number::all_digits(u@.skip(from as int)),
    ensures
        match r {
            Some(e) => 0 <= e < FAR && e == mantissa(u@.skip(from as int)),
            None => mantissa(u@.skip(from as int)) >= FAR,
        },
{
    let ghost w = u@.skip(from as int);
    let mut e: i128 = 0;
    let mut far: bool = false;
    let mut i: usize = from;
    proof {
        assert(w.take(0) =~= Seq::empty());
    }
    while i < u.len()
        invariant
            from <= i <= u@.len(),
            w == u@.skip(from as int),
            crate::number::all_digits(w),
            !far ==> 0 <= e < FAR && e == mantissa(w.take(i - from)),
            far ==> mantissa(w.take(i - from)) >= FAR,
        decreases u@.len() - i,
    {
        let ghost now = w.take(i + 1 - from);
        proof {
            assert(now.drop_last() =~= w.take(i - from));
            assert(now.last() == w[i - from] && w[i - from] == u@[i as int]);
            assert(crate::number::is_digit(w[i - from]));
        }
        if !far {
            let c: i128 = (u[i] as u32 - '0' as u32) as i128;
            e = e * 10 + c;
            if e >= FAR {
                far = true;
            }
        }
        i += 1;
    }
    assert(w.take(w.len() as int) =~= w);
    if far {
        None
    } else {
        Some(e)
    }
}

/// The least number that is infinite in double precision.
fn infinite_from() -> (d: Vec<u8>)
    ensures
        crate::digits::leads(d@),
        crate::digits::value(d@) == pow2(1024) - pow2(970),
{
    let mut d: Vec<u8> = one();
    times(&mut d, 18_014_398_509_481_983);
    proof {
        vstd::arithmetic::power2::lemma2_to64();
        vstd::arithmetic::power2::lemma2_to64_rest();
        vstd::arithmetic::power2::lemma_pow2_adds(54, 970);
        let (a, b) = (pow2(54) as int, pow2(970) as int);
        assert((a - 1) * b == a * b - b) by (nonlinear_arith);
    }
    times_power(&mut d, 1024, 10, 97);
    d
}

/// The number one.
fn one() -> (d: Vec<u8>)
    ensures
        crate::digits::leads(d@),
        crate::digits::value(d@) == 1,
{
    let d: Vec<u8> = vec![1];
    proof {
        assert(d@.drop_last() =~= Seq::empty());
        assert(d@.last() == 1);
        assert(crate::digits::value(d@.drop_last()) == 0);
        assert(crate::digits::tens(0) == 1);
    }
    d
}

/// Whether digits times a power of ten are finite and above zero in double precision.
fn is_positive_scaled(d: Vec<u8>, x: i128) -> (r: bool)
    requires
        crate::digits::leads(d@),
        -0x1000_0000_0000_0000_0000_0000_0000 <= x <= 0x1000_0000_0000_0000_0000_0000_0000,
    ensures
        r == (is_finite(crate::digits::value(d@), x as int) && is_above_zero(
            crate::digits::value(d@),
            x as int,
        )),
{
    let bound = infinite_from();
    if side(&d, x, &bound) != Side::Below {
        return false;
    }
    let mut more = d;
    proof {
        vstd::arithmetic::power2::lemma2_to64_rest();
    }
    times_power(&mut more, 8_796_093_022_208, 43, 25);
    side(&more, x, &one()) == Side::Above
}

/// A power of two is no more than the same power of ten.
proof fn lemma_two_below_ten(n: nat)
    ensures
        pow2(n) <= crate::digits::tens(n),
    decreases n,
{
    if n == 0 {
        vstd::arithmetic::power2::lemma2_to64();
    } else {
        lemma_two_below_ten((n - 1) as nat);
        vstd::arithmetic::power2::lemma_pow2_unfold(n);
        crate::digits::lemma_tens_positive((n - 1) as nat);
    }
}

/// A number that is far off is infinite or zero.
proof fn lemma_far(d: Seq<u8>, x: int)
    requires
        crate::digits::are_digits(d),
        d.len() > 0 ==> crate::digits::leads(d),
        d.len() <= u64::MAX,
        x <= -FAR || x >= FAR - u64::MAX,
    ensures
        !(is_finite(crate::digits::value(d), x) && is_above_zero(crate::digits::value(d), x)),
{
    let m = crate::digits::value(d);
    crate::digits::lemma_value_between(d);
    if x <= -FAR {
        let y = (-x) as nat;
        let (a, b) = (crate::digits::tens(d.len()), crate::digits::tens(1075));
        lemma_two_below_ten(1075);
        crate::digits::lemma_tens_adds(d.len(), 1075);
        crate::digits::lemma_tens_grow(d.len() + 1075, y);
        assert(m * pow2(1075) <= a * b) by (nonlinear_arith)
            requires
                m <= a,
                pow2(1075) <= b,
        ;
    } else if d.len() == 0 {
        assert(0 * pow2(1075) == 0);
        assert(0 * crate::digits::tens(x as nat) == 0);
    } else {
        let z = crate::digits::tens(x as nat);
        lemma_two_below_ten(1024);
        vstd::arithmetic::power2::lemma_pow2_strictly_increases(970, 1024);
        crate::digits::lemma_tens_grow(1024, x as nat);
        crate::digits::lemma_tens_positive((d.len() - 1) as nat);
        assert(m * z >= z) by (nonlinear_arith)
            requires
                m >= 1,
        ;
    }
}

/// Zero is not above zero.
proof fn lemma_zero(x: int)
    ensures
        !is_above_zero(0, x),
{
    assert(0 * pow2(1075) == 0);
    if x >= 0 {
        assert(0 * crate::digits::tens(x as nat) == 0);
    }
}

/// Whether a text without a sign writes a number that is finite and above zero in double
/// precision.
fn is_positive_plain(u: &Vec<char>) -> (r: bool)
    ensures
        r == exists|k: int| is_positive_at(u@, k),
{
    let n: usize = u.len();
    let ghost s = u@;
    let plain: bool = is_plain(u);
    let end: usize = exponent_start(u);
    proof {
        assert(s.take(n as int) =~= s);
        assert forall|k: int| #[trigger] parts_at(s, k) implies k == end && plain by {
            lemma_parts(s, end as int, k);
            if k < n {
                assert(crate::number::is_scaled(s, k));
            }
        }
        if plain {
            if crate::number::is_decimal(s) {
                assert(parts_at(s, n as int));
            } else {
                let k = choose|k: int| crate::number::is_scaled(s, k);
                assert(parts_at(s, k));
            }
            assert(parts_at(s, end as int));
        }
        assert forall|k: int| is_positive_at(s, k) implies k == end by {
            assert(parts_at(s, k));
        }
    }
    if !plain {
        return false;
    }
    let d = digits_before(u, end);
    let behind: i128 = places_before(u, end) as i128;
    let ghost m = mantissa(s.take(end as int));
    let ghost x = exponent(s.skip(end as int)) - behind;
    if d.len() == 0 {
        proof {
            lemma_zero(x);
        }
        return false;
    }
    let mut power: i128 = 0;
    if end < n {
        let from: usize = after_sign(u, end + 1);
        proof {
            assert(s.skip(end as int).skip(1) =~= s.skip(end + 1));
            assert(end + 1 < n ==> s.skip(end as int)[1] == s[end + 1]);
        }
        let less: bool = end + 1 < n && u[end + 1] == '-';
        match power_from(u, from) {
            Some(e) => {
                if less {
                    power = -e;
                } else {
                    power = e;
                }
            },
            None => {
                proof {
                    lemma_far(d@, x);
                }
                return false;
            },
        }
    }
    assert(power == exponent(s.skip(end as int)));
    let r = is_positive_scaled(d, power - behind);
    assert(r == is_positive_at(s, end as int));
    r
}

/// Whether the text writes a number that is finite and above zero in double precision.
pub fn is_positive_text(text: &str) -> (r: bool)
    ensures
        r == is_positive(text@),
{
    let s: Vec<char> = chars_of(text);
    if s.len() == 0 || s[0] == '-' {
        return false;
    }
    assert(s@.skip(0) =~= s@);
    let from: usize = after_sign(&s, 0);
    let mut u: Vec<char> = Vec::new();
    let mut i: usize = from;
    while i < s.len()
        invariant
            from <= i <= s@.len(),
            u@ == s@.subrange(from as int, i as int),
        decreases s@.len() - i,
    {
        u.push(s[i]);
        assert(u@ =~= s@.subrange(from as int, i + 1));
        i += 1;
    }
    assert(u@ =~= s@.skip(from as int));
    is_positive_plain(&u)
}

} // verus!
