//! Which texts write numbers above zero, read off their characters.
use vstd::arithmetic::power2::pow2;
use vstd::prelude::*;

verus! {

/// Some digit of the text is not zero.
pub open spec fn has_count(s: Seq<char>) -> bool {
    exists|i: int| 0 <= i < s.len() && #[trigger] s[i] != '0' && s[i] != '.'
}

proof fn lemma_mantissa(s: Seq<char>)
    requires
        forall|i: int|
            0 <= i < s.len() ==> crate::number::is_digit(#[trigger] s[i]) || s[i] == '.',
    ensures
        crate::magnitude::mantissa(s) > 0 <==> has_count(s),
        crate::magnitude::mantissa(s) < crate::digits::tens(s.len()),
    decreases s.len(),
{
    if s.len() > 0 {
        let less = s.drop_last();
        lemma_mantissa(less);
        crate::digits::lemma_tens_positive(less.len());
        assert(crate::number::is_digit(s[s.len() - 1]) || s[s.len() - 1] == '.');
        if has_count(less) {
            let i = choose|i: int|
                0 <= i < less.len() && #[trigger] less[i] != '0' && less[i] != '.';
            assert(s[i] == less[i]);
        }
        if has_count(s) {
            let i = choose|i: int| 0 <= i < s.len() && #[trigger] s[i] != '0' && s[i] != '.';
            if i < less.len() {
                assert(less[i] == s[i]);
            }
        }
    }
}

proof fn lemma_thousands(k: nat)
    ensures
        crate::digits::tens(3 * k) <= pow2(10 * k),
    decreases k,
{
    vstd::arithmetic::power2::lemma2_to64();
    if k > 0 {
        let l = (k - 1) as nat;
        lemma_thousands(l);
        crate::digits::lemma_tens_adds(3, 3 * l);
        reveal_with_fuel(crate::digits::tens, 4);
        vstd::arithmetic::power2::lemma_pow2_adds(10, 10 * l);
        assert(3 + 3 * l == 3 * k && 10 + 10 * l == 10 * k);
        assert(1000 * crate::digits::tens(3 * l) <= 1024 * pow2(10 * l));
    }
}

proof fn lemma_room(n: nat)
    requires
        n <= 300,
    ensures
        crate::digits::tens(n) <= pow2(1000),
        pow2(1000) < pow2(1024) - pow2(970),
        pow2(1000) < pow2(1075),
        pow2(1000) >= 1,
{
    crate::digits::lemma_tens_grow(n, 300);
    lemma_thousands(100);
    vstd::arithmetic::power2::lemma_pow2_strictly_increases(970, 1023);
    vstd::arithmetic::power2::lemma_pow2_strictly_increases(1000, 1023);
    vstd::arithmetic::power2::lemma_pow2_strictly_increases(1000, 1075);
    vstd::arithmetic::power2::lemma_pow2_unfold(1024);
    vstd::arithmetic::power2::lemma_pow2_pos(1000);
}

/// Digits, with a point among them or none, write a number above zero where one of them is not
/// zero, and zero otherwise.
pub proof fn law_decimals_are_positive(s: Seq<char>)
    requires
        crate::number::is_decimal(s),
        s.len() <= 300,
    ensures
        crate::magnitude::is_positive(s) <==> has_count(s),
{
    crate::number::lemma_decimal(s);
    lemma_mantissa(s);
    let n = s.len() as int;
    let m = crate::magnitude::mantissa(s);
    let p = crate::magnitude::places(s);
    let u = crate::number::unsigned(s);
    assert(crate::number::is_digit(s[0]) || s[0] == '.');
    assert(u == s);
    assert(s.take(n) =~= s);
    assert(s.skip(n).len() == 0);
    if s.contains('.') {
        s.index_of_first_ensures('.');
        assert(0 <= s.index_of('.') < s.len());
    }
    assert(p <= 300);
    lemma_room(p);
    lemma_room(s.len());
    crate::digits::lemma_tens_positive(p);
    let most = (pow2(1024) - pow2(970)) as nat;
    if has_count(s) {
        assert(m * pow2(1075) >= pow2(1075)) by (nonlinear_arith)
            requires
                m >= 1,
        ;
        assert(most * crate::digits::tens(p) >= most) by (nonlinear_arith)
            requires
                crate::digits::tens(p) >= 1,
        ;
        assert(crate::digits::tens(0) == 1);
        assert(m * 1 == m && m * pow2(1075) * 1 == m * pow2(1075));
        assert(crate::magnitude::is_positive_at(u, n));
    } else {
        assert forall|k: int| !crate::magnitude::is_positive_at(u, k) by {
            if crate::magnitude::parts_at(u, k) {
                if k < n {
                    assert(u.skip(k)[0] == s[k]);
                }
                assert(k == n);
                assert(0 * pow2(1075) == 0);
                let x = crate::magnitude::exponent(u.skip(k)) - crate::magnitude::places(u.take(k));
                if x >= 0 {
                    assert(0 * crate::digits::tens(x as nat) == 0);
                }
            }
        }
    }
}

/// No digit but zeros before an exponent writes zero, whatever the exponent.
pub proof fn law_zeros_are_not_positive(s: Seq<char>, k: int)
    requires
        0 <= k < s.len(),
        s[k] == 'e' || s[k] == 'E',
        forall|i: int| 0 <= i < k ==> #[trigger] s[i] == '0' || s[i] == '.',
    ensures
        !crate::magnitude::is_positive(s),
{
    let u = crate::number::unsigned(s);
    if k > 0 {
        assert(s[0] == '0' || s[0] == '.');
    }
    assert(u == s);
    assert forall|j: int| !crate::magnitude::is_positive_at(u, j) by {
        if crate::magnitude::parts_at(u, j) {
            let d = s.take(j);
            crate::number::lemma_decimal(d);
            if j > k {
                assert(d[k] == s[k]);
            }
            lemma_mantissa(d);
            if has_count(d) {
                let i = choose|i: int| 0 <= i < d.len() && #[trigger] d[i] != '0' && d[i] != '.';
                assert(d[i] == s[i]);
            }
            assert(0 * pow2(1075) == 0);
            let x = crate::magnitude::exponent(u.skip(j)) - crate::magnitude::places(d);
            if x >= 0 {
                assert(0 * crate::digits::tens(x as nat) == 0);
            }
        }
    }
}

/// A leading plus changes nothing, and with a leading minus no number is above zero.
pub proof fn law_signs_are_heeded(s: Seq<char>)
    requires
        s.len() > 0,
        s[0] != '+',
        s[0] != '-',
    ensures
        crate::magnitude::is_positive(seq!['+'] + s) <==> crate::magnitude::is_positive(s),
        !crate::magnitude::is_positive(seq!['-'] + s),
{
    let t = seq!['+'] + s;
    assert(t.skip(1) =~= s);
    assert(crate::number::unsigned(t) == s);
    assert(crate::number::unsigned(s) == s);
    assert((seq!['-'] + s)[0] == '-');
    if crate::magnitude::is_positive(t) {
        let k = choose|k: int|
            crate::magnitude::is_positive_at(crate::number::unsigned(t), k);
        assert(crate::magnitude::is_positive_at(crate::number::unsigned(s), k));
    }
    if crate::magnitude::is_positive(s) {
        let k = choose|k: int|
            crate::magnitude::is_positive_at(crate::number::unsigned(s), k);
        assert(crate::magnitude::is_positive_at(crate::number::unsigned(t), k));
        assert(t[0] == '+');
    }
}

/// Moving the point by one place while the exponent makes up for it changes nothing.
pub proof fn law_point_moves(m: nat, x: int)
    ensures
        crate::magnitude::is_finite(m * 10, x) <==> crate::magnitude::is_finite(m, x + 1),
        crate::magnitude::is_above_zero(m * 10, x) <==> crate::magnitude::is_above_zero(m, x + 1),
{
    let n = (pow2(1024) - pow2(970)) as nat;
    let b = pow2(1075);
    assert(m * 10 * b == 10 * (m * b)) by (nonlinear_arith);
    if x >= 0 {
        let z = crate::digits::tens(x as nat);
        assert(crate::digits::tens((x + 1) as nat) == 10 * z);
        assert(m * 10 * z == m * (10 * z)) by (nonlinear_arith);
        assert(m * 10 * b * z == m * b * (10 * z)) by (nonlinear_arith);
    } else {
        let z = crate::digits::tens((-x - 1) as nat);
        assert(crate::digits::tens((-x) as nat) == 10 * z);
        assert(n * (10 * z) == 10 * (n * z)) by (nonlinear_arith);
        if x == -1 {
            assert(m * 1 == m && n * 1 == n && m * b * 1 == m * b);
        }
    }
}

} // verus!
