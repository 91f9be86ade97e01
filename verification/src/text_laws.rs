//! Which words of a document are numbers, character by character.
use vstd::prelude::*;

use crate::structure_laws::are_alike;

verus! {

/// A sign.
pub open spec fn is_sign(c: char) -> bool {
    c == '+' || c == '-'
}

/// A digit.
pub open spec fn is_figure_char(c: char) -> bool {
    '0' as int <= c as int <= '9' as int
}

/// From place `i` up to place `j` there are digits, one at least, and one point at most.
pub open spec fn has_digits(s: Seq<char>, i: int, j: int) -> bool {
    &&& 0 <= i < j <= s.len()
    &&& forall|k: int| i <= k < j ==> is_figure_char(#[trigger] s[k]) || s[k] == '.'
    &&& exists|k: int| i <= k < j && is_figure_char(#[trigger] s[k])
    &&& forall|k: int, m: int|
        i <= k < m < j && #[trigger] s[k] == '.' ==> #[trigger] s[m] != '.'
}

/// The text ends at place `j`, or goes on there with the letter e, perhaps a sign, and digits
/// up to its end.
pub open spec fn has_power(s: Seq<char>, j: int) -> bool {
    j == s.len() || {
        &&& 0 <= j < s.len()
        &&& s[j] == 'e' || s[j] == 'E'
        &&& exists|k: int| #[trigger] is_power_from(s, j, k)
    }
}

/// The digits of the power begin at place `k`.
pub open spec fn is_power_from(s: Seq<char>, j: int, k: int) -> bool {
    &&& k == j + 1 || k == j + 2 && is_sign(s[j + 1])
    &&& k < s.len()
    &&& forall|m: int| k <= m < s.len() ==> is_figure_char(#[trigger] s[m])
}

/// The text from place `i` on writes a number.
pub open spec fn writes_number(s: Seq<char>, i: int) -> bool {
    ||| are_alike(s.skip(i), "inf"@)
    ||| are_alike(s.skip(i), "infinity"@)
    ||| are_alike(s.skip(i), "nan"@)
    ||| exists|j: int| #[trigger] has_digits(s, i, j) && has_power(s, j)
}

/// The text writes a number, perhaps behind a sign.
pub open spec fn is_written_number(s: Seq<char>) -> bool {
    writes_number(s, 0) || s.len() > 0 && is_sign(s[0]) && writes_number(s, 1)
}

proof fn lemma_decimal(s: Seq<char>)
    ensures
        crate::number::is_decimal(s) <==> has_digits(s, 0, s.len() as int),
{
    let n = s.len() as int;
    if crate::number::is_decimal(s) {
        crate::number::lemma_decimal(s);
        assert forall|k: int| 0 <= k < n implies is_figure_char(#[trigger] s[k]) || s[k]
            == '.' by {
            assert(crate::number::is_digit(s[k]) || s[k] == '.');
        }
        if exists|k: int| crate::number::is_pointed(s, k) {
            let k = choose|k: int| crate::number::is_pointed(s, k);
            let m = if k == 0 {
                1int
            } else {
                0int
            };
            assert(s[m] != '.') by {
                if s[m] == '.' {
                    assert(s[k] == '.');
                }
            }
            assert(is_figure_char(s[m]));
        } else {
            assert(crate::number::is_digit(s[0]));
            assert(is_figure_char(s[0]));
        }
    }
    if has_digits(s, 0, n) {
        if exists|k: int| 0 <= k < n && #[trigger] s[k] == '.' {
            let k = choose|k: int| 0 <= k < n && #[trigger] s[k] == '.';
            let (a, b) = (s.take(k), s.skip(k + 1));
            assert forall|i: int| 0 <= i < a.len() implies #[trigger] crate::number::is_digit(
                a[i],
            ) by {
                assert(a[i] == s[i]);
                assert(s[i] != '.');
            }
            assert forall|i: int| 0 <= i < b.len() implies #[trigger] crate::number::is_digit(
                b[i],
            ) by {
                assert(b[i] == s[k + 1 + i]);
                assert(s[k + 1 + i] != '.');
            }
            let m = choose|m: int| 0 <= m < n && is_figure_char(#[trigger] s[m]);
            assert(s.len() > 1) by {
                assert(m != k);
            }
            assert(crate::number::is_pointed(s, k));
        } else {
            assert forall|i: int| 0 <= i < n implies #[trigger] crate::number::is_digit(s[i]) by {
                assert(is_figure_char(s[i]) || s[i] == '.');
            }
        }
    }
}

proof fn lemma_power(s: Seq<char>, j: int)
    requires
        0 <= j < s.len(),
    ensures
        crate::number::is_exponent(s.skip(j)) <==> has_power(s, j),
{
    let e = s.skip(j);
    let r = e.skip(1);
    assert(r =~= s.skip(j + 1));
    let u = crate::number::unsigned(r);
    let k = if r.len() > 0 && (r[0] == '+' || r[0] == '-') {
        j + 2
    } else {
        j + 1
    };
    assert(r.len() > 0 ==> r[0] == s[j + 1]);
    assert(u =~= s.skip(k));
    assert(e[0] == s[j]);
    if crate::number::is_exponent(e) {
        assert forall|m: int| k <= m < s.len() implies is_figure_char(#[trigger] s[m]) by {
            assert(crate::number::is_digit(u[m - k]));
        }
        assert(is_power_from(s, j, k));
    }
    if has_power(s, j) {
        let p = choose|p: int| #[trigger] is_power_from(s, j, p);
        if p == j + 1 && k == j + 2 {
            assert(is_figure_char(s[j + 1]));
        }
        assert(p == k);
        assert forall|i: int| 0 <= i < u.len() implies #[trigger] crate::number::is_digit(
            u[i],
        ) by {
            assert(u[i] == s[k + i]);
        }
    }
}

proof fn lemma_plain(u: Seq<char>)
    ensures
        crate::number::is_decimal(u) || (exists|k: int| crate::number::is_scaled(u, k))
            <==> exists|j: int| #[trigger] has_digits(u, 0, j) && has_power(u, j),
{
    let n = u.len() as int;
    lemma_decimal(u);
    if crate::number::is_decimal(u) {
        assert(has_digits(u, 0, n) && has_power(u, n));
    }
    if exists|k: int| crate::number::is_scaled(u, k) {
        let k = choose|k: int| crate::number::is_scaled(u, k);
        lemma_decimal(u.take(k));
        lemma_front(u, k);
        lemma_power(u, k);
        assert(has_digits(u, 0, k) && has_power(u, k));
    }
    if exists|j: int| #[trigger] has_digits(u, 0, j) && has_power(u, j) {
        let j = choose|j: int| #[trigger] has_digits(u, 0, j) && has_power(u, j);
        if j < n {
            lemma_decimal(u.take(j));
            lemma_front(u, j);
            lemma_power(u, j);
            assert(crate::number::is_scaled(u, j));
        }
    }
}

proof fn lemma_front(u: Seq<char>, k: int)
    requires
        0 <= k <= u.len(),
    ensures
        has_digits(u.take(k), 0, k) <==> has_digits(u, 0, k),
{
    let t = u.take(k);
    assert forall|i: int| 0 <= i < k implies #[trigger] t[i] == u[i] by {}
    if has_digits(t, 0, k) {
        let m = choose|m: int| 0 <= m < k && is_figure_char(#[trigger] t[m]);
        assert(is_figure_char(u[m]));
        assert forall|i: int| 0 <= i < k implies is_figure_char(#[trigger] u[i]) || u[i]
            == '.' by {
            assert(is_figure_char(t[i]) || t[i] == '.');
        }
        assert forall|i: int, m: int|
            0 <= i < m < k && #[trigger] u[i] == '.' implies #[trigger] u[m] != '.' by {
            assert(t[i] == '.');
            assert(t[m] != '.');
        }
    }
    if has_digits(u, 0, k) {
        let m = choose|m: int| 0 <= m < k && is_figure_char(#[trigger] u[m]);
        assert(is_figure_char(t[m]));
    }
}

proof fn lemma_shift(s: Seq<char>, j: int)
    requires
        s.len() > 0,
    ensures
        has_digits(s.skip(1), 0, j) && has_power(s.skip(1), j) <==> has_digits(s, 1, j + 1)
            && has_power(s, j + 1),
{
    let u = s.skip(1);
    assert forall|i: int| 0 <= i < u.len() implies #[trigger] u[i] == s[i + 1] by {}
    assert(has_digits(u, 0, j) <==> has_digits(s, 1, j + 1)) by {
        if has_digits(u, 0, j) {
            let m = choose|m: int| 0 <= m < j && is_figure_char(#[trigger] u[m]);
            assert(is_figure_char(s[m + 1]));
            assert forall|i: int| 1 <= i < j + 1 implies is_figure_char(#[trigger] s[i]) || s[i]
                == '.' by {
                assert(is_figure_char(u[i - 1]) || u[i - 1] == '.');
            }
            assert forall|i: int, m: int|
                1 <= i < m < j + 1 && #[trigger] s[i] == '.' implies #[trigger] s[m] != '.' by {
                assert(u[i - 1] == '.');
                assert(u[m - 1] != '.');
            }
        }
        if has_digits(s, 1, j + 1) {
            let m = choose|m: int| 1 <= m < j + 1 && is_figure_char(#[trigger] s[m]);
            assert(is_figure_char(u[m - 1]));
        }
    }
    if 0 <= j < u.len() {
        assert(u[j] == s[j + 1]);
        if exists|k: int| #[trigger] is_power_from(u, j, k) {
            let k = choose|k: int| #[trigger] is_power_from(u, j, k);
            assert forall|m: int| k + 1 <= m < s.len() implies is_figure_char(
                #[trigger] s[m],
            ) by {
                assert(is_figure_char(u[m - 1]));
            }
            assert(is_power_from(s, j + 1, k + 1));
        }
        if exists|k: int| #[trigger] is_power_from(s, j + 1, k) {
            let k = choose|k: int| #[trigger] is_power_from(s, j + 1, k);
            assert(is_power_from(u, j, k - 1));
        }
    }
}

proof fn lemma_words(u: Seq<char>)
    ensures
        crate::text::lowered(u) == "inf"@ <==> are_alike(u, "inf"@),
        crate::text::lowered(u) == "infinity"@ <==> are_alike(u, "infinity"@),
        crate::text::lowered(u) == "nan"@ <==> are_alike(u, "nan"@),
{
    reveal_strlit("inf");
    reveal_strlit("infinity");
    reveal_strlit("nan");
    assert(crate::text::lowered("inf"@) =~= "inf"@);
    assert(crate::text::lowered("infinity"@) =~= "infinity"@);
    assert(crate::text::lowered("nan"@) =~= "nan"@);
    crate::structure_laws::law_case_is_ignored(u, "inf"@);
    crate::structure_laws::law_case_is_ignored(u, "infinity"@);
    crate::structure_laws::law_case_is_ignored(u, "nan"@);
}

/// A word is a number exactly where it is, perhaps behind a sign, digits with one point at
/// most and perhaps a power of ten, or a word for what is not finite or no number.
pub proof fn law_numbers_are_written(s: Seq<char>)
    ensures
        crate::number::is_number(s) <==> is_written_number(s),
{
    assert(s.skip(0) =~= s);
    let u = crate::number::unsigned(s);
    lemma_words(u);
    lemma_plain(u);
    if s.len() > 0 && is_sign(s[0]) {
        assert(u == s.skip(1));
        assert(!writes_number(s, 0)) by {
            reveal_strlit("inf");
            reveal_strlit("infinity");
            reveal_strlit("nan");
            let first = s.skip(0)[0];
            assert(first == s[0]);
            if exists|j: int| #[trigger] has_digits(s, 0, j) && has_power(s, j) {
                let j = choose|j: int| #[trigger] has_digits(s, 0, j) && has_power(s, j);
                assert(is_figure_char(s[0]) || s[0] == '.');
            }
        }
        if exists|j: int| #[trigger] has_digits(u, 0, j) && has_power(u, j) {
            let j = choose|j: int| #[trigger] has_digits(u, 0, j) && has_power(u, j);
            lemma_shift(s, j);
            assert(has_digits(s, 1, j + 1) && has_power(s, j + 1));
        }
        if exists|j: int| #[trigger] has_digits(s, 1, j) && has_power(s, j) {
            let j = choose|j: int| #[trigger] has_digits(s, 1, j) && has_power(s, j);
            lemma_shift(s, j - 1);
            assert(has_digits(u, 0, j - 1) && has_power(u, j - 1));
        }
    } else {
        assert(u == s);
    }
}

} // verus!
