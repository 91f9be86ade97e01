//! The copper layers of a board by name.
use vstd::prelude::*;

use crate::text::{lower_chars, same_chars, same_text, chars_of};

verus! {

/// The names of the copper layers, from the top down.
#[derive(Clone, Debug, PartialEq, Eq)]
pub struct LayerMap {
    names: Vec<String>,
}

impl DeepView for LayerMap {
    type V = Seq<Seq<char>>;

    closed spec fn deep_view(&self) -> Seq<Seq<char>> {
        self.names.deep_view()
    }
}

/// The name is at place `i` and nowhere before.
pub open spec fn is_first(names: Seq<Seq<char>>, name: Seq<char>, i: int) -> bool {
    &&& 0 <= i < names.len()
    &&& names[i] == name
    &&& forall|j: int| 0 <= j < i ==> #[trigger] names[j] != name
}

/// The first place of a name.
pub open spec fn index_in(names: Seq<Seq<char>>, name: Seq<char>) -> Option<int> {
    if exists|i: int| is_first(names, name, i) {
        Some(choose|i: int| is_first(names, name, i))
    } else {
        None
    }
}

/// A name that is there has a first place.
pub proof fn lemma_first_place(names: Seq<Seq<char>>, name: Seq<char>, i: int)
    requires
        0 <= i < names.len(),
        names[i] == name,
    ensures
        index_in(names, name) is Some,
        is_first(names, name, index_in(names, name)->0),
        index_in(names, name)->0 <= i,
    decreases i,
{
    if exists|j: int| 0 <= j < i && #[trigger] names[j] == name {
        let j = choose|j: int| 0 <= j < i && #[trigger] names[j] == name;
        lemma_first_place(names, name, j);
    } else {
        assert(is_first(names, name, i));
    }
}

/// Whether the name is among the names.
pub fn has_name(names: &Vec<String>, name: &str) -> (r: bool)
    ensures
        r == names.deep_view().contains(name@),
{
    let mut i: usize = 0;
    let ghost all = names.deep_view();
    while i < names.len()
        invariant
            i <= names@.len(),
            all == names.deep_view(),
            forall|j: int| 0 <= j < i ==> #[trigger] all[j] != name@,
        decreases names@.len() - i,
    {
        assert(all[i as int] == names@[i as int]@);
        if same_text(&names[i], name) {
            return true;
        }
        i += 1;
    }
    false
}

/// The same names.
pub fn copy_names(names: &Vec<String>) -> (r: Vec<String>)
    ensures
        r.deep_view() == names.deep_view(),
{
    let mut r: Vec<String> = Vec::new();
    let mut i: usize = 0;
    while i < names.len()
        invariant
            i <= names@.len(),
            r@.len() == i,
            forall|j: int| 0 <= j < i ==> #[trigger] r@[j]@ == names@[j]@,
        decreases names@.len() - i,
    {
        r.push(names[i].clone());
        i += 1;
    }
    assert(r.deep_view() =~= names.deep_view());
    r
}

impl LayerMap {
    /// There is a layer, and the layers can be numbered.
    pub open spec fn wf(&self) -> bool {
        0 < self.deep_view().len() <= u32::MAX
    }

    /// The layers with these names; a single layer `top` where there are none.
    pub fn from_names(names: Vec<String>) -> (m: LayerMap)
        requires
            names@.len() <= u32::MAX,
        ensures
            m.wf(),
            m.deep_view() == if names@.len() == 0 {
                seq!["top"@]
            } else {
                names.deep_view()
            },
    {
        if names.len() == 0 {
            let m = LayerMap { names: vec!["top".to_owned()] };
            assert(m.deep_view() =~= seq!["top"@]);
            m
        } else {
            LayerMap { names }
        }
    }

    /// How many layers there are.
    pub fn len(&self) -> (n: u32)
        requires
            self.wf(),
        ensures
            n == self.deep_view().len(),
    {
        self.names.len() as u32
    }

    /// The name of layer `i`.
    pub fn name(&self, i: u32) -> (s: &str)
        requires
            i < self.deep_view().len(),
        ensures
            s@ == self.deep_view()[i as int],
    {
        self.names[i as usize].as_str()
    }

    /// All the names.
    pub fn all_names(&self) -> (r: Vec<String>)
        ensures
            r.deep_view() == self.deep_view(),
    {
        copy_names(&self.names)
    }

    /// The first layer of that name.
    pub fn index_of(&self, name: &str) -> (r: Option<u32>)
        requires
            self.wf(),
        ensures
            match r {
                Some(i) => index_in(self.deep_view(), name@) == Some(i as int),
                None => index_in(self.deep_view(), name@) is None,
            },
    {
        let mut i: usize = 0;
        let ghost all = self.deep_view();
        while i < self.names.len()
            invariant
                i <= self.names@.len(),
                self.wf(),
                all == self.deep_view(),
                all == self.names.deep_view(),
                forall|j: int| 0 <= j < i ==> #[trigger] all[j] != name@,
            decreases self.names@.len() - i,
        {
            assert(all[i as int] == self.names@[i as int]@);
            if same_text(&self.names[i], name) {
                proof {
                    assert(is_first(all, name@, i as int));
                    lemma_first_place(all, name@, i as int);
                }
                return Some(i as u32);
            }
            i += 1;
        }
        None
    }
}

/// The layer of a pad that stands for all layers.
pub open spec fn is_wildcard(layer: Seq<char>) -> bool {
    let l = crate::text::lowered(layer);
    l == "signal"@ || l == "*"@ || l == "all"@ || l == "@1"@ || l.len() == 0
}

/// Whether the layer of a pad stands for all layers.
fn stands_for_all(layer: &str) -> (r: bool)
    ensures
        r == is_wildcard(layer@),
{
    let l = lower_chars(layer);
    same_chars(&l, &chars_of("signal")) || same_chars(&l, &chars_of("*")) || same_chars(
        &l,
        &chars_of("all"),
    ) || same_chars(&l, &chars_of("@1")) || l.len() == 0
}

/// Those of the first `n` layers that are declared, each name once.
pub open spec fn declared_among(declared: Seq<Seq<char>>, names: Seq<Seq<char>>, n: nat) -> Seq<
    Seq<char>,
>
    decreases n,
{
    if n == 0 {
        seq![]
    } else {
        let rest = declared_among(declared, names, (n - 1) as nat);
        if is_first(names, names[n - 1], n - 1) && declared.contains(names[n - 1]) {
            rest.push(names[n - 1])
        } else {
            rest
        }
    }
}

/// The layers that a pad is on: all of them where a declared layer stands for all,
/// otherwise those that it declares, from the top down, and the top layer where the
/// board has none of them.
pub open spec fn pad_layers(declared: Seq<Seq<char>>, names: Seq<Seq<char>>) -> Seq<Seq<char>> {
    if exists|i: int| 0 <= i < declared.len() && #[trigger] is_wildcard(declared[i]) {
        names
    } else {
        let known = declared_among(declared, names, names.len());
        if known.len() == 0 {
            seq![names[0]]
        } else {
            known
        }
    }
}

/// The layers that a pad is on, from the top down.
pub fn pad_layer_names(declared: &Vec<String>, layer_map: &LayerMap) -> (r: Vec<String>)
    requires
        layer_map.wf(),
    ensures
        r.deep_view() == pad_layers(declared.deep_view(), layer_map.deep_view()),
{
    let ghost wanted = declared.deep_view();
    let ghost names = layer_map.deep_view();
    let mut i: usize = 0;
    while i < declared.len()
        invariant
            i <= declared@.len(),
            wanted == declared.deep_view(),
            names == layer_map.deep_view(),
            forall|j: int| 0 <= j < i ==> !#[trigger] is_wildcard(wanted[j]),
        decreases declared@.len() - i,
    {
        assert(wanted[i as int] == declared@[i as int]@);
        if stands_for_all(&declared[i]) {
            assert(is_wildcard(wanted[i as int]));
            return layer_map.all_names();
        }
        i += 1;
    }
    let mut known: Vec<String> = Vec::new();
    let count: u32 = layer_map.len();
    let mut k: u32 = 0;
    assert(known.deep_view() =~= declared_among(wanted, names, 0));
    while k < count
        invariant
            k <= count,
            count == names.len(),
            layer_map.wf(),
            wanted == declared.deep_view(),
            names == layer_map.deep_view(),
            known.deep_view() == declared_among(wanted, names, k as nat),
        decreases count - k,
    {
        let name: &str = layer_map.name(k);
        let place: Option<u32> = layer_map.index_of(name);
        proof {
            lemma_first_place(names, name@, k as int);
        }
        let ghost before = known.deep_view();
        if place == Some(k) && has_name(declared, name) {
            known.push(name.to_owned());
            assert(known.deep_view() =~= before.push(name@));
        } else {
            assert(is_first(names, name@, k as int) ==> place == Some(k));
        }
        k += 1;
    }
    if known.len() == 0 {
        let r: Vec<String> = vec![layer_map.name(0).to_owned()];
        assert(r.deep_view() =~= seq![names[0]]);
        r
    } else {
        known
    }
}

/// A pad is on at least one layer, and on layers of the board only.
pub proof fn law_pads_are_on_the_board(declared: Seq<Seq<char>>, names: Seq<Seq<char>>)
    requires
        names.len() > 0,
    ensures
        pad_layers(declared, names).len() > 0,
        forall|i: int|
            0 <= i < pad_layers(declared, names).len() ==> names.contains(
                #[trigger] pad_layers(declared, names)[i],
            ),
{
    lemma_declared_among(declared, names, names.len());
    assert(names.contains(names[0]));
}

proof fn lemma_declared_among(declared: Seq<Seq<char>>, names: Seq<Seq<char>>, n: nat)
    requires
        n <= names.len(),
    ensures
        forall|i: int|
            0 <= i < declared_among(declared, names, n).len() ==> names.contains(
                #[trigger] declared_among(declared, names, n)[i],
            ),
    decreases n,
{
    if n > 0 {
        lemma_declared_among(declared, names, (n - 1) as nat);
        let rest = declared_among(declared, names, (n - 1) as nat);
        let all = declared_among(declared, names, n);
        assert(names.contains(names[n - 1]));
        assert forall|i: int| 0 <= i < all.len() implies names.contains(#[trigger] all[i]) by {
            if i < rest.len() {
                assert(all[i] == rest[i]);
            }
        }
    }
}

} // verus!
