//! What holds of reading texts as nested lists.
use vstd::prelude::*;

verus! {

/// How many lists are open after the first `k` tokens.
pub open spec fn depth(t: Seq<Seq<char>>, k: int) -> int
    decreases k,
{
    if k <= 0 {
        0
    } else if t[k - 1] == "("@ {
        depth(t, k - 1) + 1
    } else if t[k - 1] == ")"@ {
        depth(t, k - 1) - 1
    } else {
        depth(t, k - 1)
    }
}

/// Within a node more lists are open than before it, and after it as many.
proof fn lemma_node_depth(t: Seq<Seq<char>>, k: nat)
    requires
        k <= t.len(),
    ensures
        crate::sexpr::node_at(t, k) matches Ok((_, j)) ==> depth(t, j as int) == depth(t, k as int)
            && forall|m: int| k < m < j ==> #[trigger] depth(t, m) > depth(t, k as int),
        crate::sexpr::node_at(t, k) is Err && k < t.len() && t[k as int] != ")"@ ==> t[k as int]
            == "("@ && forall|m: int|
            k < m <= t.len() ==> #[trigger] depth(t, m) > depth(t, k as int),
    decreases t.len() - k, 0int,
{
    crate::sexpr::lemma_parentheses();
    if k < t.len() {
        assert(depth(t, (k + 1) as int) == depth(t, k as int) + if t[k as int] == "("@ {
            1int
        } else if t[k as int] == ")"@ {
            -1int
        } else {
            0
        });
        if t[k as int] == "("@ {
            lemma_items_depth(t, k + 1);
        }
    }
}

/// Within the rest of a list it stays open, and after it one list less is.
proof fn lemma_items_depth(t: Seq<Seq<char>>, k: nat)
    requires
        k <= t.len(),
    ensures
        crate::sexpr::items_at(t, k) matches Ok((_, j)) ==> depth(t, j as int) == depth(
            t,
            k as int,
        ) - 1 && forall|m: int| k <= m < j ==> #[trigger] depth(t, m) >= depth(t, k as int),
        crate::sexpr::items_at(t, k) is Err ==> forall|m: int|
            k <= m <= t.len() ==> #[trigger] depth(t, m) >= depth(t, k as int),
    decreases t.len() - k, 1int,
{
    crate::sexpr::lemma_parentheses();
    if k < t.len() {
        if t[k as int] == ")"@ {
            assert(depth(t, (k + 1) as int) == depth(t, k as int) - 1);
        } else {
            lemma_node_depth(t, k);
            crate::sexpr::lemma_node_ends(t, k);
            if let Ok((_, j)) = crate::sexpr::node_at(t, k) {
                lemma_items_depth(t, j);
            }
        }
    }
}

/// A node begins at a token exactly where the token is a word, or opens a list that a
/// later token closes.
pub proof fn law_nodes_are_words_and_closed_lists(t: Seq<Seq<char>>, k: nat)
    ensures
        crate::sexpr::node_at(t, k) is Ok <==> {
            &&& k < t.len()
            &&& t[k as int] != ")"@
            &&& t[k as int] == "("@ ==> exists|j: int|
                k < j <= t.len() && #[trigger] depth(t, j) == depth(t, k as int)
        },
{
    crate::sexpr::lemma_parentheses();
    if k <= t.len() {
        lemma_node_depth(t, k);
        crate::sexpr::lemma_node_ends(t, k);
        if let Ok((_, j)) = crate::sexpr::node_at(t, k) {
            assert(depth(t, j as int) == depth(t, k as int));
        }
    }
}

/// The tokens are one word, or one list: open from the first token on, and closed by the
/// last.
pub open spec fn is_one_node(t: Seq<Seq<char>>) -> bool {
    ||| t.len() == 1 && t[0] != "("@ && t[0] != ")"@
    ||| {
        &&& t.len() > 0
        &&& t[0] == "("@
        &&& forall|k: int| 0 < k < t.len() ==> #[trigger] depth(t, k) > 0
        &&& depth(t, t.len() as int) == 0
    }
}

/// A text is read exactly where its tokens are one word or one list, and what is read
/// writes them down.
pub proof fn law_one_node_is_read(t: Seq<Seq<char>>)
    ensures
        crate::sexpr::parsed(t) is Ok <==> is_one_node(t),
        crate::sexpr::parsed(t) matches Ok(n) ==> crate::sexpr::written(n) == t,
{
    crate::sexpr::lemma_parentheses();
    lemma_node_depth(t, 0);
    crate::sexpr::lemma_node_ends(t, 0);
    if let Ok(n) = crate::sexpr::parsed(t) {
        crate::sexpr::law_read_what_was_written(t, n);
        if t[0] != "("@ {
            assert(t.len() == 1);
        }
    }
    if is_one_node(t) {
        assert(crate::sexpr::node_at(t, 0) is Ok);
        let j = crate::sexpr::node_at(t, 0)->Ok_0.1;
        assert(depth(t, j as int) == 0);
    }
}

/// The text holds no quotation mark.
pub open spec fn is_unquoted(s: Seq<char>) -> bool {
    forall|i: int| 0 <= i < s.len() ==> #[trigger] s[i] != '"'
}

/// Where the tokens of a text without quotations begin, from place `k` on.
pub open spec fn starts_from(s: Seq<char>, k: nat) -> Seq<nat>
    decreases s.len() - k,
{
    if k >= s.len() {
        seq![]
    } else if s[k as int] == '(' || s[k as int] == ')' || s[k as int] == '"' {
        seq![k] + starts_from(s, k + 1)
    } else if crate::text::is_space(s[k as int]) {
        starts_from(s, k + 1)
    } else {
        seq![k] + if k < crate::sexpr::word_end(s, k) <= s.len() {
            starts_from(s, crate::sexpr::word_end(s, k))
        } else {
            seq![]
        }
    }
}

/// The token is a parenthesis.
pub open spec fn is_parenthesis(w: Seq<char>) -> bool {
    w == seq!['('] || w == seq![')']
}

/// The token is a word: not empty, and without parentheses or white space.
pub open spec fn is_word(w: Seq<char>) -> bool {
    &&& w.len() > 0
    &&& forall|i: int| 0 <= i < w.len() ==> !crate::sexpr::ends_word(#[trigger] w[i])
}

/// The token stands at that place of the text, and is a parenthesis or a word.
pub open spec fn stands(s: Seq<char>, w: Seq<char>, at: nat) -> bool {
    &&& at + w.len() <= s.len()
    &&& s.subrange(at as int, (at + w.len()) as int) == w
    &&& is_parenthesis(w) || is_word(w)
}

/// There is nothing but white space from `a` up to `b`.
pub open spec fn is_blank(s: Seq<char>, a: int, b: int) -> bool {
    forall|p: int| a <= p < b ==> crate::text::is_space(#[trigger] s[p])
}

/// One token comes after the other, with nothing but white space between them, and with
/// some between words.
pub open spec fn follows(s: Seq<char>, v: Seq<char>, w: Seq<char>, a: nat, b: nat) -> bool {
    &&& a + v.len() <= b
    &&& is_blank(s, (a + v.len()) as int, b as int)
    &&& is_word(v) && is_word(w) ==> a + v.len() < b
}

/// The tokens stand in the text one after the other, and the rest is white space.
pub open spec fn is_laid_out(s: Seq<char>, k: nat, t: Seq<Seq<char>>, at: Seq<nat>) -> bool {
    &&& at.len() == t.len()
    &&& forall|i: int| 0 <= i < t.len() ==> stands(s, #[trigger] t[i], at[i])
    &&& forall|i: int|
        0 <= i < t.len() - 1 ==> follows(s, #[trigger] t[i], t[i + 1], at[i], at[i + 1])
    &&& is_blank(
        s,
        k as int,
        if t.len() > 0 {
            at[0] as int
        } else {
            s.len() as int
        },
    )
    &&& t.len() > 0 ==> k <= at[0] && is_blank(
        s,
        (at.last() + t.last().len()) as int,
        s.len() as int,
    )
}

/// One token more in front.
proof fn lemma_laid_out_front(s: Seq<char>, k: nat, w: Seq<char>, t: Seq<Seq<char>>, at: Seq<nat>)
    requires
        stands(s, w, k),
        is_laid_out(s, (k + w.len()) as nat, t, at),
        is_word(w) && k + w.len() < s.len() ==> crate::sexpr::ends_word(s[(k + w.len()) as int]),
    ensures
        is_laid_out(s, k, seq![w] + t, seq![k] + at),
{
    let all = seq![w] + t;
    let places = seq![k] + at;
    assert forall|i: int| 0 <= i < all.len() implies stands(s, #[trigger] all[i], places[i]) by {
        if i > 0 {
            assert(all[i] == t[i - 1]);
        }
    }
    assert forall|i: int| 0 <= i < all.len() - 1 implies follows(
        s,
        #[trigger] all[i],
        all[i + 1],
        places[i],
        places[i + 1],
    ) by {
        if i > 0 {
            assert(all[i] == t[i - 1]);
            assert(all[i + 1] == t[i - 1 + 1]);
        } else {
            assert(all[1] == t[0]);
            assert(stands(s, t[0], at[0]));
            if is_word(w) && is_word(t[0]) && at[0] == k + w.len() {
                assert(s.subrange(at[0] as int, (at[0] + t[0].len()) as int)[0] == s[at[0] as int]);
                assert(!crate::sexpr::ends_word(t[0][0]));
            }
        }
    }
    if t.len() > 0 {
        assert(all.last() == t.last() && places.last() == at.last());
    }
}

/// The tokens from place `k` on stand one after the other.
proof fn lemma_laid_out(s: Seq<char>, k: nat)
    requires
        is_unquoted(s),
        k <= s.len(),
    ensures
        is_laid_out(s, k, crate::sexpr::tokens_from(s, k), starts_from(s, k)),
    decreases s.len() - k,
{
    if k < s.len() {
        let c = s[k as int];
        if c == '(' || c == ')' {
            lemma_laid_out(s, k + 1);
            assert(s.subrange(k as int, (k + 1) as int) =~= seq![c]);
            assert(crate::sexpr::ends_word(seq![c][0]));
            lemma_laid_out_front(
                s,
                k,
                seq![c],
                crate::sexpr::tokens_from(s, k + 1),
                starts_from(s, k + 1),
            );
        } else if crate::text::is_space(c) {
            lemma_laid_out(s, k + 1);
        } else {
            crate::sexpr::lemma_word_end(s, k);
            let e = crate::sexpr::word_end(s, k);
            let w = s.subrange(k as int, e as int);
            lemma_laid_out(s, e);
            assert forall|i: int| 0 <= i < w.len() implies !crate::sexpr::ends_word(
                #[trigger] w[i],
            ) by {
                assert(w[i] == s[k + i]);
            }
            lemma_laid_out_front(s, k, w, crate::sexpr::tokens_from(s, e), starts_from(s, e));
        }
    }
}

/// Picks what is not white space.
pub open spec fn visible() -> spec_fn(char) -> bool {
    |c: char| !crate::text::is_space(c)
}

/// Nothing is lost of a text without white space.
proof fn lemma_all_visible(w: Seq<char>)
    requires
        forall|i: int| 0 <= i < w.len() ==> !crate::text::is_space(#[trigger] w[i]),
    ensures
        w.filter(visible()) == w,
    decreases w.len(),
{
    reveal(Seq::filter);
    if w.len() > 0 {
        lemma_all_visible(w.drop_last());
        assert(w.drop_last().push(w.last()) =~= w);
    }
}

/// The tokens from place `k` on, put together, are what is visible there.
proof fn lemma_joined(s: Seq<char>, k: nat)
    requires
        is_unquoted(s),
        k <= s.len(),
    ensures
        crate::sexpr::tokens_from(s, k).flatten() == s.skip(k as int).filter(visible()),
    decreases s.len() - k,
{
    let t = crate::sexpr::tokens_from(s, k);
    let rest = s.skip(k as int);
    if k == s.len() {
        assert(rest =~= seq![]);
        reveal(Seq::filter);
        assert(t.flatten() =~= seq![]);
    } else {
        let c = s[k as int];
        let is_one = c == '(' || c == ')' || crate::text::is_space(c);
        crate::sexpr::lemma_word_end(s, k);
        let e = if is_one {
            k + 1
        } else {
            crate::sexpr::word_end(s, k)
        };
        let w = s.subrange(k as int, e as int);
        assert(rest =~= w + s.skip(e as int));
        Seq::filter_distributes_over_add(w, s.skip(e as int), visible());
        lemma_joined(s, e);
        let later = crate::sexpr::tokens_from(s, e);
        if crate::text::is_space(c) {
            assert(w =~= seq![c]);
            reveal(Seq::filter);
            assert(w.drop_last() =~= seq![]);
            assert(w.drop_last().filter(visible()) =~= seq![]);
            assert(!visible()(w.last()));
            assert(seq![] + s.skip(e as int).filter(visible()) =~= s.skip(e as int).filter(
                visible(),
            ));
        } else {
            assert forall|i: int| 0 <= i < w.len() implies !crate::text::is_space(
                #[trigger] w[i],
            ) by {
                assert(w[i] == s[k + i]);
            }
            lemma_all_visible(w);
            if is_one {
                assert(w =~= seq![c]);
            }
            assert(t =~= seq![w] + later);
            assert(t.drop_first() =~= later);
        }
    }
}

/// The tokens of a text without quotation marks are parentheses and words. They stand in
/// the text one after the other with only white space between them, and with some
/// between words; put together they are the text without its white space.
pub proof fn law_tokens_are_the_text(s: Seq<char>)
    requires
        is_unquoted(s),
    ensures
        crate::sexpr::tokens(s).flatten() == s.filter(visible()),
        is_laid_out(s, 0, crate::sexpr::tokens(s), starts_from(s, 0)),
{
    lemma_joined(s, 0);
    lemma_laid_out(s, 0);
    assert(s.skip(0) =~= s);
}

} // verus!
