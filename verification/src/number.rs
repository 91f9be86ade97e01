//! Which texts are numbers.
//!
//! A number is an optional sign and then `inf`, `infinity` or `nan` in any case, or
//! decimal digits with at most one point among them and an optional exponent.
use vstd::prelude::*;

use crate::text::{chars_of, lower_char, same_chars};

verus! {

/// A decimal digit.
pub open spec fn is_digit(c: char) -> bool {
    '0' <= c <= '9'
}

/// Nothing but digits, and perhaps nothing at all.
pub open spec fn all_digits(s: Seq<char>) -> bool {
    forall|i: int| 0 <= i < s.len() ==> #[trigger] is_digit(s[i])
}

/// The text without a leading sign.
pub open spec fn unsigned(s: Seq<char>) -> Seq<char> {
    if s.len() > 0 && (s[0] == '+' || s[0] == '-') {
        s.skip(1)
    } else {
        s
    }
}

/// Digits around the point at place `k`, at least one of them.
pub open spec fn is_pointed(s: Seq<char>, k: int) -> bool {
    &&& 0 <= k < s.len()
    &&& s[k] == '.'
    &&& s.len() > 1
    &&& all_digits(s.take(k))
    &&& all_digits(s.skip(k + 1))
}

/// At least one digit, with at most one point among them.
pub open spec fn is_decimal(s: Seq<char>) -> bool {
    ||| s.len() > 0 && all_digits(s)
    ||| exists|k: int| is_pointed(s, k)
}

/// The letter e, an optional sign and at least one digit.
pub open spec fn is_exponent(s: Seq<char>) -> bool {
    &&& s.len() > 0
    &&& (s[0] == 'e' || s[0] == 'E')
    &&& unsigned(s.skip(1)).len() > 0
    &&& all_digits(unsigned(s.skip(1)))
}

/// A decimal up to place `k` and an exponent from there.
pub open spec fn is_scaled(s: Seq<char>, k: int) -> bool {
    &&& 0 <= k < s.len()
    &&& is_decimal(s.take(k))
    &&& is_exponent(s.skip(k))
}

/// The text reads as a number.
pub open spec fn is_number(s: Seq<char>) -> bool {
    let u = unsigned(s);
    ||| crate::text::lowered(u) == "inf"@
    ||| crate::text::lowered(u) == "infinity"@
    ||| crate::text::lowered(u) == "nan"@
    ||| is_decimal(u)
    ||| exists|k: int| is_scaled(u, k)
}

/// Where the digits from `from` on end.
fn digits_end(s: &Vec<char>, from: usize) -> (k: usize)
    requires
        from <= s@.len(),
    ensures
        from <= k <= s@.len(),
        forall|i: int| from <= i < k ==> #[trigger] is_digit(s@[i]),
        k < s@.len() ==> !is_digit(s@[k as int]),
{
    let mut k: usize = from;
    while k < s.len() && '0' <= s[k] && s[k] <= '9'
        invariant
            from <= k <= s@.len(),
            forall|i: int| from <= i < k ==> #[trigger] is_digit(s@[i]),
        decreases s@.len() - k,
    {
        k += 1;
    }
    k
}

/// In a decimal every character is a digit or a point, and there is one point at most.
pub proof fn lemma_decimal(s: Seq<char>)
    requires
        is_decimal(s),
    ensures
        s.len() > 0,
        forall|i: int| 0 <= i < s.len() ==> is_digit(#[trigger] s[i]) || s[i] == '.',
        forall|i: int, j: int|
            0 <= i < s.len() && 0 <= j < s.len() && #[trigger] s[i] == '.' && #[trigger] s[j] == '.'
                ==> i == j,
{
    if exists|k: int| is_pointed(s, k) {
        let k = choose|k: int| is_pointed(s, k);
        assert forall|i: int| 0 <= i < s.len() && i != k implies is_digit(#[trigger] s[i]) by {
            if i < k {
                assert(is_digit(s.take(k)[i]));
            } else {
                assert(is_digit(s.skip(k + 1)[i - k - 1]));
            }
        }
    } else {
        assert forall|i: int| 0 <= i < s.len() implies is_digit(#[trigger] s[i]) by {}
    }
}

/// Characters after a sign, and where they begin.
pub(crate) fn after_sign(s: &Vec<char>, from: usize) -> (k: usize)
    requires
        from <= s@.len(),
    ensures
        from <= k <= s@.len(),
        unsigned(s@.skip(from as int)) == s@.skip(k as int),
{
    if from < s.len() && (s[from] == '+' || s[from] == '-') {
        assert(s@.skip(from as int)[0] == s@[from as int]);
        assert(unsigned(s@.skip(from as int)) =~= s@.skip(from + 1));
        from + 1
    } else {
        assert(from < s@.len() ==> s@.skip(from as int)[0] == s@[from as int]);
        from
    }
}

/// Whether digits, at most one point and an optional exponent make up the text.
pub(crate) fn is_plain(u: &Vec<char>) -> (r: bool)
    ensures
        r == (is_decimal(u@) || exists|k: int| is_scaled(u@, k)),
{
    let n: usize = u.len();
    let whole: usize = digits_end(u, 0);
    let pointed: bool = whole < n && u[whole] == '.';
    let end: usize = if pointed {
        digits_end(u, whole + 1)
    } else {
        whole
    };
    let ghost s = u@;
    let ghost head = s.take(end as int);
    let enough: bool = if pointed {
        end > 1
    } else {
        end > 0
    };
    proof {
        if pointed {
            assert forall|i: int| 0 <= i < head.take(whole as int).len() implies #[trigger] is_digit(
                head.take(whole as int)[i],
            ) by {
                assert(is_digit(s[i]));
            }
            assert forall|i: int| 0 <= i < head.skip(whole + 1).len() implies #[trigger] is_digit(
                head.skip(whole + 1)[i],
            ) by {
                assert(is_digit(s[whole + 1 + i]));
            }
            if enough {
                assert(is_pointed(head, whole as int));
            }
        } else {
            assert forall|i: int| 0 <= i < head.len() implies #[trigger] is_digit(head[i]) by {
                assert(is_digit(s[i]));
            }
        }
        assert(enough ==> is_decimal(head));
        assert(end < n ==> !is_digit(s[end as int]));
        // Every decimal at the front ends where the scan ended, if what follows is not
        // part of it.
        assert forall|k: int| #[trigger] is_scaled(s, k) implies k == end && enough by {
            lemma_decimal(s.take(k));
            lemma_front(s, k, whole as int, end as int);
            assert(s.skip(k)[0] == s[k]);
        }
        if is_decimal(s) {
            assert(s.take(n as int) =~= s);
            lemma_decimal(s);
            lemma_front(s, n as int, whole as int, end as int);
        }
        assert(end == n ==> head =~= s);
    }
    if !enough {
        return false;
    }
    if end == n {
        return true;
    }
    if u[end] != 'e' && u[end] != 'E' {
        assert(s.skip(end as int)[0] == s[end as int]);
        return false;
    }
    let from: usize = after_sign(u, end + 1);
    let last: usize = digits_end(u, from);
    proof {
        let tail = s.skip(end as int);
        assert(tail[0] == s[end as int]);
        assert(tail.skip(1) =~= s.skip(end + 1));
        assert(unsigned(tail.skip(1)) == s.skip(from as int));
        if from < n && last == n {
            assert forall|i: int| 0 <= i < s.skip(from as int).len() implies #[trigger] is_digit(
                s.skip(from as int)[i],
            ) by {
                assert(is_digit(s[from + i]));
            }
            assert(is_scaled(s, end as int));
        } else if is_scaled(s, end as int) {
            assert(is_digit(s.skip(from as int)[last - from]));
        }
    }
    from < n && last == n
}

/// Digits, a point and digits at the front: a decimal that is followed by something
/// else, or by nothing, ends with them.
proof fn lemma_front(s: Seq<char>, k: int, whole: int, end: int)
    requires
        0 <= k <= s.len(),
        is_decimal(s.take(k)),
        k < s.len() ==> s[k] == 'e' || s[k] == 'E',
        0 <= whole <= end <= s.len(),
        forall|i: int| 0 <= i < whole ==> #[trigger] is_digit(s[i]),
        whole < s.len() ==> !is_digit(s[whole]),
        if whole < s.len() && s[whole] == '.' {
            &&& whole < end
            &&& forall|i: int| whole < i < end ==> #[trigger] is_digit(s[i])
            &&& end < s.len() ==> !is_digit(s[end])
        } else {
            whole == end
        },
    ensures
        k == end,
        if whole < s.len() && s[whole] == '.' {
            end > 1
        } else {
            end > 0
        },
{
    let t = s.take(k);
    lemma_decimal(t);
    assert forall|i: int| 0 <= i < k implies is_digit(#[trigger] s[i]) || s[i] == '.' by {
        assert(t[i] == s[i]);
    }
    if k < s.len() {
        assert(!is_digit(s[k]) && s[k] != '.');
        if k < end {
            assert(k < whole ==> is_digit(s[k]));
            assert(k > whole ==> is_digit(s[k]));
        }
    }
    if end < k {
        assert(is_digit(s[end]) || s[end] == '.');
        if whole < s.len() && s[whole] == '.' {
            assert(s[end] == '.');
            assert(t[end] == '.' && t[whole] == '.');
        }
    }
    if k == 1 && whole == 0 && s[0] == '.' {
        assert(t[0] == '.');
        if all_digits(t) {
            assert(is_digit(t[0]));
        }
    }
}

/// Whether the text reads as a number.
pub fn is_numeric(text: &str) -> (r: bool)
    ensures
        r == is_number(text@),
{
    let s: Vec<char> = chars_of(text);
    assert(s@.skip(0) =~= s@);
    let from: usize = after_sign(&s, 0);
    let mut u: Vec<char> = Vec::new();
    let mut small: Vec<char> = Vec::new();
    let mut i: usize = from;
    while i < s.len()
        invariant
            from <= i <= s@.len(),
            u@ == s@.subrange(from as int, i as int),
            small@ == crate::text::lowered(u@),
        decreases s@.len() - i,
    {
        u.push(s[i]);
        small.push(lower_char(s[i]));
        assert(u@ =~= s@.subrange(from as int, i + 1));
        assert(small@ =~= crate::text::lowered(u@));
        i += 1;
    }
    assert(u@ =~= s@.skip(from as int));
    same_chars(&small, &chars_of("inf")) || same_chars(&small, &chars_of("infinity")) || same_chars(
        &small,
        &chars_of("nan"),
    ) || is_plain(&u)
}

} // verus!
