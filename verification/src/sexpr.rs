//! Nested lists of words in parentheses.
use vstd::prelude::*;

use crate::text::{chars_of, is_whitespace, same_text, text_of};

verus! {

/// A word, or a list of nodes.
#[derive(Debug, PartialEq)]
pub enum Sexpr {
    /// A word.
    Atom(String),
    /// A list.
    List(Vec<Sexpr>),
}

/// What a node says: a word, or what the nodes of a list say.
pub enum Tree {
    /// A word.
    Atom(Seq<char>),
    /// A list.
    List(Seq<Tree>),
}

/// What a node says.
pub open spec fn tree(node: Sexpr) -> Tree
    decreases node,
{
    match node {
        Sexpr::Atom(s) => Tree::Atom(s@),
        Sexpr::List(v) => Tree::List(
            Seq::new(
                v@.len(),
                |i: int|
                    if 0 <= i < v@.len() {
                        tree(v@[i])
                    } else {
                        arbitrary()
                    },
            ),
        ),
    }
}

impl DeepView for Sexpr {
    type V = Tree;

    open spec fn deep_view(&self) -> Tree {
        tree(*self)
    }
}

/// A node that says the same.
pub fn copy_node(node: &Sexpr) -> (r: Sexpr)
    ensures
        tree(r) == tree(*node),
    decreases node,
{
    match node {
        Sexpr::Atom(s) => Sexpr::Atom(s.clone()),
        Sexpr::List(v) => {
            let mut out: Vec<Sexpr> = Vec::new();
            let mut i: usize = 0;
            while i < v.len()
                invariant
                    i <= v@.len(),
                    out@.len() == i,
                    node == Sexpr::List(*v),
                    forall|j: int| 0 <= j < i ==> tree(#[trigger] out@[j]) == tree(v@[j]),
                decreases v@.len() - i,
            {
                assert(decreases_to!(*node => node->List_0));
                assert(decreases_to!(*v => v@));
                assert(decreases_to!(v@ => v@[i as int]));
                out.push(copy_node(&v[i]));
                i += 1;
            }
            let r = Sexpr::List(out);
            assert(tree(r)->List_0 =~= tree(*node)->List_0);
            r
        },
    }
}

impl Clone for Sexpr {
    fn clone(&self) -> (r: Sexpr)
        ensures
            tree(r) == tree(*self),
    {
        copy_node(self)
    }
}

/// Why a text is not one node.
#[derive(Debug, Clone, PartialEq)]
pub enum SexprError {
    /// The text ended where a node was to begin.
    UnexpectedEnd,
    /// A list was not closed.
    Unterminated,
    /// A list was closed that was not open.
    UnexpectedClose,
    /// Something followed the node; it began with this token.
    Trailing(String),
}

/// Why a text is not one node.
pub enum Flaw {
    /// The text ended where a node was to begin.
    UnexpectedEnd,
    /// A list was not closed.
    Unterminated,
    /// A list was closed that was not open.
    UnexpectedClose,
    /// Something followed the node; it began with this token.
    Trailing(Seq<char>),
}

impl DeepView for SexprError {
    type V = Flaw;

    open spec fn deep_view(&self) -> Flaw {
        match *self {
            SexprError::UnexpectedEnd => Flaw::UnexpectedEnd,
            SexprError::Unterminated => Flaw::Unterminated,
            SexprError::UnexpectedClose => Flaw::UnexpectedClose,
            SexprError::Trailing(s) => Flaw::Trailing(s@),
        }
    }
}

/// The character ends a word.
pub open spec fn ends_word(c: char) -> bool {
    c == '(' || c == ')' || c == '"' || crate::text::is_space(c)
}

/// The first place from `k` on where a word ends.
pub open spec fn word_end(s: Seq<char>, k: nat) -> nat
    decreases s.len() - k,
{
    if k >= s.len() || ends_word(s[k as int]) {
        k
    } else {
        word_end(s, k + 1)
    }
}

/// The first place from `k` on with a quotation mark, or the end.
pub open spec fn quote_end(s: Seq<char>, k: nat) -> nat
    decreases s.len() - k,
{
    if k >= s.len() || s[k as int] == '"' {
        k
    } else {
        quote_end(s, k + 1)
    }
}

/// The first place from `k` on without white space, or the end.
pub open spec fn space_end(s: Seq<char>, k: nat) -> nat
    decreases s.len() - k,
{
    if k >= s.len() || !crate::text::is_space(s[k as int]) {
        k
    } else {
        space_end(s, k + 1)
    }
}

/// A closing parenthesis comes next, with nothing but white space before it.
pub open spec fn closes_next(s: Seq<char>, k: nat) -> bool {
    space_end(s, k) < s.len() && s[space_end(s, k) as int] == ')'
}

/// A word ends within the text, after it begins, and where a character ends words.
pub proof fn lemma_word_end(s: Seq<char>, k: nat)
    requires
        k <= s.len(),
    ensures
        k <= word_end(s, k) <= s.len(),
        k < s.len() && !ends_word(s[k as int]) ==> word_end(s, k) > k,
        forall|p: int| k <= p < word_end(s, k) ==> !ends_word(#[trigger] s[p]),
        word_end(s, k) < s.len() ==> ends_word(s[word_end(s, k) as int]),
    decreases s.len() - k,
{
    if k < s.len() && !ends_word(s[k as int]) {
        lemma_word_end(s, k + 1);
    }
}

proof fn lemma_quote_end(s: Seq<char>, k: nat)
    requires
        k <= s.len(),
    ensures
        k <= quote_end(s, k) <= s.len(),
    decreases s.len() - k,
{
    if k < s.len() && s[k as int] != '"' {
        lemma_quote_end(s, k + 1);
    }
}

/// The tokens from place `k` on: parentheses, the insides of quotations, and words.
/// White space only separates. A quotation mark before a closing parenthesis, with
/// nothing but white space between them, is a word of its own.
pub open spec fn tokens_from(s: Seq<char>, k: nat) -> Seq<Seq<char>>
    decreases s.len() - k,
    via tokens_from_decreases
{
    if k >= s.len() {
        seq![]
    } else {
        let c = s[k as int];
        if c == '(' || c == ')' {
            seq![seq![c]] + tokens_from(s, k + 1)
        } else if c == '"' {
            if closes_next(s, k + 1) {
                seq![seq![c]] + tokens_from(s, k + 1)
            } else {
                let e = quote_end(s, k + 1);
                seq![s.subrange((k + 1) as int, e as int)] + tokens_from(
                    s,
                    if e < s.len() {
                        e + 1
                    } else {
                        e
                    },
                )
            }
        } else if crate::text::is_space(c) {
            tokens_from(s, k + 1)
        } else {
            let e = word_end(s, k);
            seq![s.subrange(k as int, e as int)] + tokens_from(s, e)
        }
    }
}

#[via_fn]
proof fn tokens_from_decreases(s: Seq<char>, k: nat) {
    if k < s.len() {
        lemma_word_end(s, k);
        if k + 1 <= s.len() {
            lemma_quote_end(s, k + 1);
        }
    }
}

/// The tokens of a text.
pub open spec fn tokens(s: Seq<char>) -> Seq<Seq<char>> {
    tokens_from(s, 0)
}

/// Where the word at `k` ends.
fn word_stop(s: &Vec<char>, k: usize) -> (e: usize)
    requires
        k <= s@.len(),
    ensures
        e == word_end(s@, k as nat),
        k <= e <= s@.len(),
{
    let mut e: usize = k;
    while e < s.len() && !(s[e] == '(' || s[e] == ')' || s[e] == '"' || is_whitespace(s[e]))
        invariant
            k <= e <= s@.len(),
            word_end(s@, e as nat) == word_end(s@, k as nat),
        decreases s@.len() - e,
    {
        e += 1;
    }
    e
}

/// Whether a closing parenthesis comes next, with nothing but white space before it.
fn is_closed_next(s: &Vec<char>, k: usize) -> (r: bool)
    requires
        k <= s@.len(),
    ensures
        r == closes_next(s@, k as nat),
{
    let mut e: usize = k;
    while e < s.len() && is_whitespace(s[e])
        invariant
            k <= e <= s@.len(),
            space_end(s@, e as nat) == space_end(s@, k as nat),
        decreases s@.len() - e,
    {
        e += 1;
    }
    e < s.len() && s[e] == ')'
}

/// Where the quotation from `k` on ends.
fn quote_stop(s: &Vec<char>, k: usize) -> (e: usize)
    requires
        k <= s@.len(),
    ensures
        e == quote_end(s@, k as nat),
        k <= e <= s@.len(),
{
    let mut e: usize = k;
    while e < s.len() && s[e] != '"'
        invariant
            k <= e <= s@.len(),
            quote_end(s@, e as nat) == quote_end(s@, k as nat),
        decreases s@.len() - e,
    {
        e += 1;
    }
    e
}

/// Adding a token to a list adds what it says.
proof fn lemma_push(v: Seq<String>, w: Seq<String>, t: String, all: Seq<Seq<char>>, rest: Seq<
    Seq<char>,
>)
    requires
        w == v.push(t),
        all == v.map_values(|x: String| x@) + (seq![t@] + rest),
    ensures
        all == w.map_values(|x: String| x@) + rest,
{
    assert(all =~= w.map_values(|x: String| x@) + rest);
}

/// The tokens of a text.
pub fn tokenize(src: &str) -> (out: Vec<String>)
    ensures
        out.deep_view() == tokens(src@),
{
    let s: Vec<char> = chars_of(src);
    let mut out: Vec<String> = Vec::new();
    let mut k: usize = 0;
    assert(out@.map_values(|x: String| x@) + tokens_from(s@, 0) =~= tokens(s@));
    while k < s.len()
        invariant
            k <= s@.len(),
            s@ == src@,
            tokens(s@) == out@.map_values(|x: String| x@) + tokens_from(s@, k as nat),
        decreases s@.len() - k,
    {
        let c: char = s[k];
        let ghost before = out@;
        if c == '(' || c == ')' || (c == '"' && is_closed_next(&s, k + 1)) {
            let t: String = text_of(&s, k, k + 1);
            assert(t@ =~= seq![c]);
            out.push(t);
            proof {
                lemma_push(before, out@, t, tokens(s@), tokens_from(s@, k as nat + 1));
            }
            k += 1;
        } else if c == '"' {
            let e: usize = quote_stop(&s, k + 1);
            let t: String = text_of(&s, k + 1, e);
            out.push(t);
            k = if e < s.len() {
                e + 1
            } else {
                e
            };
            proof {
                lemma_push(before, out@, t, tokens(s@), tokens_from(s@, k as nat));
            }
        } else if is_whitespace(c) {
            k += 1;
        } else {
            let e: usize = word_stop(&s, k);
            proof {
                lemma_word_end(s@, k as nat);
            }
            let t: String = text_of(&s, k, e);
            out.push(t);
            proof {
                lemma_push(before, out@, t, tokens(s@), tokens_from(s@, e as nat));
            }
            k = e;
        }
    }
    assert(out.deep_view() =~= tokens(src@));
    out
}

/// The node that begins at token `k`, and where it ends.
pub open spec fn node_at(t: Seq<Seq<char>>, k: nat) -> Result<(Tree, nat), Flaw>
    decreases t.len() - k, 0int,
{
    if k >= t.len() {
        Err(Flaw::UnexpectedEnd)
    } else if t[k as int] == "("@ {
        match items_at(t, k + 1) {
            Ok((items, j)) => Ok((Tree::List(items), j)),
            Err(e) => Err(e),
        }
    } else if t[k as int] == ")"@ {
        Err(Flaw::UnexpectedClose)
    } else {
        Ok((Tree::Atom(t[k as int]), k + 1))
    }
}

/// The nodes from token `k` up to the end of the list, and where the list ends.
pub open spec fn items_at(t: Seq<Seq<char>>, k: nat) -> Result<(Seq<Tree>, nat), Flaw>
    decreases t.len() - k, 1int,
{
    if k >= t.len() {
        Err(Flaw::Unterminated)
    } else if t[k as int] == ")"@ {
        Ok((seq![], k + 1))
    } else {
        match node_at(t, k) {
            Err(e) => Err(e),
            Ok((n, j)) => if k < j <= t.len() {
                match items_at(t, j) {
                    Err(e) => Err(e),
                    Ok((rest, m)) => Ok((seq![n] + rest, m)),
                }
            } else {
                arbitrary()
            },
        }
    }
}

/// A node ends after it begins, and within the tokens.
pub proof fn lemma_node_ends(t: Seq<Seq<char>>, k: nat)
    requires
        k <= t.len(),
    ensures
        node_at(t, k) is Ok ==> k < node_at(t, k)->Ok_0.1 <= t.len(),
    decreases t.len() - k, 0int,
{
    if k < t.len() && t[k as int] == "("@ {
        lemma_items_end(t, k + 1);
    }
}

/// A list ends after it begins, and within the tokens.
pub proof fn lemma_items_end(t: Seq<Seq<char>>, k: nat)
    requires
        k <= t.len(),
    ensures
        items_at(t, k) is Ok ==> k < items_at(t, k)->Ok_0.1 <= t.len(),
    decreases t.len() - k, 1int,
{
    if k < t.len() && t[k as int] != ")"@ {
        lemma_node_ends(t, k);
        if node_at(t, k) is Ok {
            lemma_items_end(t, node_at(t, k)->Ok_0.1);
        }
    }
}

/// Where reading a node from token `k` on stops: where the node ends, or where it turns
/// out that there is none.
pub open spec fn node_stop(t: Seq<Seq<char>>, k: nat) -> nat
    decreases t.len() - k, 0int,
{
    if k >= t.len() {
        k
    } else if t[k as int] == "("@ {
        items_stop(t, k + 1)
    } else if t[k as int] == ")"@ {
        k
    } else {
        k + 1
    }
}

/// Where reading the nodes of a list from token `k` on stops.
pub open spec fn items_stop(t: Seq<Seq<char>>, k: nat) -> nat
    decreases t.len() - k, 1int,
{
    if k >= t.len() {
        k
    } else if t[k as int] == ")"@ {
        k + 1
    } else {
        match node_at(t, k) {
            Err(_) => node_stop(t, k),
            Ok((_, j)) => if k < j <= t.len() {
                items_stop(t, j)
            } else {
                arbitrary()
            },
        }
    }
}

/// The one node that the tokens make up.
pub open spec fn parsed(t: Seq<Seq<char>>) -> Result<Tree, Flaw> {
    match node_at(t, 0) {
        Err(e) => Err(e),
        Ok((n, j)) => if j == t.len() {
            Ok(n)
        } else {
            Err(Flaw::Trailing(t[j as int]))
        },
    }
}

/// The nodes so far, and then those of the rest of the list.
pub open spec fn prepended(front: Seq<Tree>, rest: Result<(Seq<Tree>, nat), Flaw>) -> Result<
    (Seq<Tree>, nat),
    Flaw,
> {
    match rest {
        Err(e) => Err(e),
        Ok((items, j)) => Ok((front + items, j)),
    }
}

/// The node that begins at token `pos`; `pos` becomes where reading stops. Where no node
/// begins there at all, `pos` stays.
pub fn parse_node(tokens: &Vec<String>, pos: &mut usize) -> (r: Result<Sexpr, SexprError>)
    ensures
        *final(pos) == node_stop(tokens.deep_view(), *old(pos) as nat),
        match r {
            Ok(n) => node_at(tokens.deep_view(), *old(pos) as nat) == Ok::<(Tree, nat), Flaw>(
                (n.deep_view(), *final(pos) as nat),
            ),
            Err(e) => node_at(tokens.deep_view(), *old(pos) as nat) == Err::<(Tree, nat), Flaw>(
                e.deep_view(),
            ),
        },
    decreases tokens@.len() - *old(pos), 0int,
{
    if *pos >= tokens.len() {
        return Err(SexprError::UnexpectedEnd);
    }
    let tok: &String = &tokens[*pos];
    let ghost t = tokens.deep_view();
    assert(t[*pos as int] == tok@);
    if same_text(tok, "(") {
        *pos = *pos + 1;
        match parse_items(tokens, pos) {
            Ok(list) => {
                let n = Sexpr::List(list);
                assert(tree(n)->List_0 =~= list.deep_view());
                Ok(n)
            },
            Err(e) => Err(e),
        }
    } else if same_text(tok, ")") {
        Err(SexprError::UnexpectedClose)
    } else {
        *pos = *pos + 1;
        Ok(Sexpr::Atom(tok.clone()))
    }
}

/// The nodes from token `pos` up to the end of the list; `pos` becomes where it ends.
fn parse_items(tokens: &Vec<String>, pos: &mut usize) -> (r: Result<Vec<Sexpr>, SexprError>)
    requires
        *old(pos) <= tokens@.len(),
    ensures
        *final(pos) == items_stop(tokens.deep_view(), *old(pos) as nat),
        match r {
            Ok(v) => items_at(tokens.deep_view(), *old(pos) as nat) == Ok::<(Seq<Tree>, nat), Flaw>(
                (v.deep_view(), *final(pos) as nat),
            ),
            Err(e) => items_at(tokens.deep_view(), *old(pos) as nat) == Err::<
                (Seq<Tree>, nat),
                Flaw,
            >(e.deep_view()),
        },
    decreases tokens@.len() - *old(pos), 1int,
{
    let mut list: Vec<Sexpr> = Vec::new();
    let ghost t = tokens.deep_view();
    let ghost start = *pos as nat;
    proof {
        assert(prepended(list.deep_view(), items_at(t, start)) == items_at(t, start)) by {
            if items_at(t, start) is Ok {
                assert(list.deep_view() + items_at(t, start)->Ok_0.0 =~= items_at(t, start)->Ok_0.0);
            }
        }
    }
    loop
        invariant
            start == *old(pos),
            start <= *pos <= tokens@.len(),
            t == tokens.deep_view(),
            items_at(t, start) == prepended(list.deep_view(), items_at(t, *pos as nat)),
            items_stop(t, start) == items_stop(t, *pos as nat),
        decreases tokens@.len() - *pos,
    {
        if *pos >= tokens.len() {
            return Err(SexprError::Unterminated);
        }
        assert(t[*pos as int] == tokens@[*pos as int]@);
        if same_text(&tokens[*pos], ")") {
            *pos = *pos + 1;
            assert(list.deep_view() + seq![] =~= list.deep_view());
            return Ok(list);
        }
        let ghost at = *pos as nat;
        let ghost before = list.deep_view();
        proof {
            lemma_node_ends(t, at);
        }
        match parse_node(tokens, pos) {
            Err(e) => {
                return Err(e);
            },
            Ok(n) => {
                list.push(n);
                proof {
                    assert(list.deep_view() =~= before.push(n.deep_view()));
                    let rest = items_at(t, *pos as nat);
                    if rest is Ok {
                        assert(before + (seq![n.deep_view()] + rest->Ok_0.0) =~= list.deep_view()
                            + rest->Ok_0.0);
                    }
                }
            },
        }
    }
}

/// The one node that a text makes up.
pub fn parse_sexpr(src: &str) -> (r: Result<Sexpr, SexprError>)
    ensures
        match r {
            Ok(n) => parsed(tokens(src@)) == Ok::<Tree, Flaw>(n.deep_view()),
            Err(e) => parsed(tokens(src@)) == Err::<Tree, Flaw>(e.deep_view()),
        },
{
    let toks: Vec<String> = tokenize(src);
    let mut pos: usize = 0;
    match parse_node(&toks, &mut pos) {
        Err(e) => Err(e),
        Ok(n) => if pos != toks.len() {
            proof {
                lemma_node_ends(toks.deep_view(), 0);
            }
            assert(toks.deep_view()[pos as int] == toks@[pos as int]@);
            Err(SexprError::Trailing(toks[pos].clone()))
        } else {
            Ok(n)
        },
    }
}

/// The tokens that write a node down.
pub open spec fn written(n: Tree) -> Seq<Seq<char>>
    decreases n,
{
    match n {
        Tree::Atom(a) => seq![a],
        Tree::List(items) => seq!["("@] + written_all(items) + seq![")"@],
    }
}

/// The tokens that write nodes down, one after the other.
pub open spec fn written_all(items: Seq<Tree>) -> Seq<Seq<char>>
    decreases items,
{
    if items.len() == 0 {
        seq![]
    } else {
        written(items[0]) + written_all(items.skip(1))
    }
}

/// No word of the node is a parenthesis.
pub open spec fn is_plain(n: Tree) -> bool
    decreases n,
{
    match n {
        Tree::Atom(a) => a != "("@ && a != ")"@,
        Tree::List(items) => all_plain(items),
    }
}

/// No word of the nodes is a parenthesis.
pub open spec fn all_plain(items: Seq<Tree>) -> bool
    decreases items,
{
    items.len() > 0 ==> is_plain(items[0]) && all_plain(items.skip(1))
}

/// The two parentheses differ.
pub proof fn lemma_parentheses()
    ensures
        "("@ != ")"@,
{
    reveal_strlit("(");
    reveal_strlit(")");
    assert("("@[0] != ")"@[0]);
}

/// What was read as a node writes that node down.
proof fn lemma_node_written(t: Seq<Seq<char>>, k: nat)
    requires
        k <= t.len(),
        node_at(t, k) is Ok,
    ensures
        t.subrange(k as int, node_at(t, k)->Ok_0.1 as int) == written(node_at(t, k)->Ok_0.0),
        is_plain(node_at(t, k)->Ok_0.0),
    decreases t.len() - k, 0int,
{
    let (n, j) = node_at(t, k)->Ok_0;
    lemma_node_ends(t, k);
    if t[k as int] == "("@ {
        lemma_items_end(t, k + 1);
        lemma_items_written(t, k + 1);
        let items = n->List_0;
        let inner = t.subrange((k + 1) as int, j - 1);
        assert(t.subrange(k as int, j as int) =~= seq!["("@] + inner + seq![")"@]);
    } else {
        assert(t.subrange(k as int, j as int) =~= seq![t[k as int]]);
    }
}

/// What was read as the rest of a list writes its nodes down, and then the end.
proof fn lemma_items_written(t: Seq<Seq<char>>, k: nat)
    requires
        k <= t.len(),
        items_at(t, k) is Ok,
    ensures
        t[items_at(t, k)->Ok_0.1 - 1] == ")"@,
        t.subrange(k as int, items_at(t, k)->Ok_0.1 - 1) == written_all(items_at(t, k)->Ok_0.0),
        all_plain(items_at(t, k)->Ok_0.0),
    decreases t.len() - k, 1int,
{
    let (items, m) = items_at(t, k)->Ok_0;
    lemma_items_end(t, k);
    if t[k as int] == ")"@ {
        assert(t.subrange(k as int, m - 1) =~= written_all(items));
    } else {
        lemma_node_ends(t, k);
        lemma_node_written(t, k);
        let (n, j) = node_at(t, k)->Ok_0;
        lemma_items_end(t, j);
        lemma_items_written(t, j);
        assert(items.skip(1) =~= items_at(t, j)->Ok_0.0);
        assert(items[0] == n);
        assert(t.subrange(k as int, m - 1) =~= t.subrange(k as int, j as int) + t.subrange(
            j as int,
            m - 1,
        ));
    }
}

/// The tokens from place `k` on begin with these.
pub open spec fn stands_at(t: Seq<Seq<char>>, k: nat, part: Seq<Seq<char>>) -> bool {
    k + part.len() <= t.len() && t.subrange(k as int, (k + part.len()) as int) == part
}

/// Part of what stands somewhere stands there too.
proof fn lemma_stands(t: Seq<Seq<char>>, k: nat, a: Seq<Seq<char>>, b: Seq<Seq<char>>)
    requires
        stands_at(t, k, a + b),
    ensures
        stands_at(t, k, a),
        stands_at(t, (k + a.len()) as nat, b),
{
    let whole = t.subrange(k as int, (k + (a + b).len()) as int);
    assert(t.subrange(k as int, (k + a.len()) as int) =~= a) by {
        assert forall|i: int| 0 <= i < a.len() implies t[k + i] == a[i] by {
            assert(whole[i] == (a + b)[i]);
        }
    }
    assert(t.subrange((k + a.len()) as int, (k + a.len() + b.len()) as int) =~= b) by {
        assert forall|i: int| 0 <= i < b.len() implies t[k + a.len() + i] == b[i] by {
            assert(whole[a.len() + i] == (a + b)[a.len() + i]);
        }
    }
}

/// A node begins with an opening parenthesis or with its only word.
proof fn lemma_written_front(n: Tree)
    requires
        is_plain(n),
    ensures
        written(n).len() > 0,
        written(n)[0] != ")"@,
{
    lemma_parentheses();
    match n {
        Tree::Atom(a) => {},
        Tree::List(items) => {},
    }
}

/// Where a node is written down, it is read.
proof fn lemma_written_node(t: Seq<Seq<char>>, k: nat, n: Tree)
    requires
        is_plain(n),
        stands_at(t, k, written(n)),
    ensures
        node_at(t, k) == Ok::<(Tree, nat), Flaw>((n, (k + written(n).len()) as nat)),
    decreases n,
{
    lemma_parentheses();
    lemma_written_front(n);
    assert(t.subrange(k as int, (k + written(n).len()) as int)[0] == t[k as int]);
    match n {
        Tree::Atom(a) => {},
        Tree::List(items) => {
            let open = seq!["("@];
            let inner = written_all(items);
            let close = seq![")"@];
            assert(written(n) =~= open + (inner + close));
            lemma_stands(t, k, open, inner + close);
            lemma_written_items(t, k + 1, items);
        },
    }
}

/// Where the rest of a list is written down, it is read.
proof fn lemma_written_items(t: Seq<Seq<char>>, k: nat, items: Seq<Tree>)
    requires
        all_plain(items),
        stands_at(t, k, written_all(items) + seq![")"@]),
    ensures
        items_at(t, k) == Ok::<(Seq<Tree>, nat), Flaw>(
            (items, (k + written_all(items).len() + 1) as nat),
        ),
    decreases items,
{
    let close = seq![")"@];
    let whole = written_all(items) + close;
    assert(t.subrange(k as int, (k + whole.len()) as int)[0] == t[k as int]);
    if items.len() == 0 {
        assert(items =~= seq![]);
        assert(whole[0] == ")"@);
    } else {
        let n = items[0];
        let rest = items.skip(1);
        lemma_written_front(n);
        assert(whole =~= written(n) + (written_all(rest) + close));
        lemma_stands(t, k, written(n), written_all(rest) + close);
        assert(whole[0] == written(n)[0]);
        lemma_written_node(t, k, n);
        let j = (k + written(n).len()) as nat;
        lemma_written_items(t, j, rest);
        assert(seq![n] + rest =~= items);
    }
}

/// Tokens are read as a node exactly where they write it down: reading gives back what
/// was written, and nothing else is read.
pub proof fn law_read_what_was_written(t: Seq<Seq<char>>, n: Tree)
    ensures
        parsed(t) == Ok::<Tree, Flaw>(n) <==> is_plain(n) && t == written(n),
{
    if is_plain(n) && t == written(n) {
        assert(t.subrange(0, t.len() as int) =~= t);
        lemma_written_node(t, 0, n);
    }
    if parsed(t) == Ok::<Tree, Flaw>(n) {
        lemma_node_written(t, 0);
        assert(t.subrange(0, t.len() as int) =~= t);
    }
}

/// The word that a node is.
pub open spec fn atom(n: Tree) -> Option<Seq<char>> {
    match n {
        Tree::Atom(a) => Some(a),
        Tree::List(_) => None,
    }
}

/// The nodes of a list; none where the node is a word.
pub open spec fn items(n: Tree) -> Seq<Tree> {
    match n {
        Tree::Atom(_) => seq![],
        Tree::List(v) => v,
    }
}

/// The word at place `k` of a list.
pub open spec fn word(n: Tree, k: int) -> Option<Seq<char>> {
    if 0 <= k < items(n).len() {
        atom(items(n)[k])
    } else {
        None
    }
}

/// Picks the lists that begin with the word.
pub open spec fn named(name: Seq<char>) -> spec_fn(Tree) -> Option<Tree> {
    |n: Tree|
        if word(n, 0) == Some(name) {
            Some(n)
        } else {
            None
        }
}

/// The nodes of a list that are lists and begin with the word.
pub open spec fn children(n: Tree, name: Seq<char>) -> Seq<Tree> {
    crate::collect::collect(items(n), named(name))
}

/// The first node of a list that is a list and begins with the word.
pub open spec fn child(n: Tree, name: Seq<char>) -> Option<Tree> {
    crate::collect::first(items(n), named(name))
}

impl Sexpr {
    /// The word, if the node is one.
    pub fn as_atom(&self) -> (r: Option<&str>)
        ensures
            r.deep_view() == atom(self.deep_view()),
    {
        match self {
            Sexpr::Atom(s) => Some(s.as_str()),
            Sexpr::List(_) => None,
        }
    }

    /// The nodes, if the node is a list.
    pub fn as_list(&self) -> (r: Option<&Vec<Sexpr>>)
        ensures
            self.deep_view() is List <==> r is Some,
            r is Some ==> r->0.deep_view() == items(self.deep_view()),
    {
        match self {
            Sexpr::Atom(_) => None,
            Sexpr::List(v) => {
                assert(v.deep_view() =~= items(self.deep_view()));
                Some(v)
            },
        }
    }

    /// The word at place `k` of the list.
    pub fn word_at(&self, k: usize) -> (r: Option<&str>)
        ensures
            r.deep_view() == word(self.deep_view(), k as int),
    {
        match self.as_list() {
            None => None,
            Some(v) => if k < v.len() {
                assert(v.deep_view()[k as int] == v@[k as int].deep_view());
                v[k].as_atom()
            } else {
                None
            },
        }
    }

    /// The word that the list begins with.
    pub fn head(&self) -> (r: Option<&str>)
        ensures
            r.deep_view() == word(self.deep_view(), 0),
    {
        self.word_at(0)
    }

    /// Whether the list begins with the word.
    pub fn is_named(&self, name: &str) -> (r: bool)
        ensures
            r == (word(self.deep_view(), 0) == Some(name@)),
    {
        match self.head() {
            None => false,
            Some(h) => same_text(h, name),
        }
    }

    /// The nodes of the list that are lists and begin with the word.
    pub fn children_named(&self, name: &str) -> (r: Vec<&Sexpr>)
        ensures
            r.deep_view() == children(self.deep_view(), name@),
    {
        let mut r: Vec<&Sexpr> = Vec::new();
        let ghost all = items(self.deep_view());
        let ghost pick = named(name@);
        proof {
            crate::collect::lemma_collect_all(all, pick);
        }
        assert(r.deep_view() =~= Seq::<Tree>::empty());
        if let Some(v) = self.as_list() {
            let mut i: usize = 0;
            while i < v.len()
                invariant
                    i <= v@.len(),
                    v.deep_view() == all,
                    pick == named(name@),
                    r.deep_view() == crate::collect::collect(all.take(i as int), pick),
                decreases v@.len() - i,
            {
                proof {
                    crate::collect::lemma_collect_next(all, pick, i as int);
                    assert(all[i as int] == v@[i as int].deep_view());
                }
                let ghost before = r.deep_view();
                if v[i].is_named(name) {
                    r.push(&v[i]);
                    assert(r.deep_view() =~= before.push(all[i as int]));
                }
                i += 1;
            }
        }
        r
    }

    /// The first node of the list that is a list and begins with the word.
    pub fn child_named(&self, name: &str) -> (r: Option<&Sexpr>)
        ensures
            r.deep_view() == child(self.deep_view(), name@),
    {
        let ghost all = items(self.deep_view());
        let ghost pick = named(name@);
        proof {
            crate::collect::lemma_collect_all(all, pick);
        }
        if let Some(v) = self.as_list() {
            let mut i: usize = 0;
            while i < v.len()
                invariant
                    i <= v@.len(),
                    v.deep_view() == all,
                    all == items(self.deep_view()),
                    pick == named(name@),
                    crate::collect::collect(all.take(i as int), pick).len() == 0,
                decreases v@.len() - i,
            {
                assert(all[i as int] == v@[i as int].deep_view());
                if v[i].is_named(name) {
                    proof {
                        crate::collect::lemma_first(all, pick, i as int);
                    }
                    return Some(&v[i]);
                }
                proof {
                    crate::collect::lemma_collect_next(all, pick, i as int);
                }
                i += 1;
            }
        }
        None
    }
}

} // verus!
