//! Specctra designs: what a `.dsn` document says about a board.
//!
//! Numbers stay the texts that they are written as; what they measure depends on the
//! unit and on the resolution that the document declares.
use vstd::prelude::*;

use crate::number::is_numeric;
use crate::sexpr::{Sexpr, Tree};
use crate::text::{chars_of, find_last, same_ignoring_case, same_text, text_of};

verus! {

/// A poured plane: the net that it carries and the layer that it fills.
#[derive(Debug, Clone, PartialEq, Eq)]
pub struct PlaneDef<T = String> {
    /// The net.
    pub net: T,
    /// The layer.
    pub layer: T,
}

impl DeepView for PlaneDef<String> {
    type V = PlaneDef<Seq<char>>;

    open spec fn deep_view(&self) -> PlaneDef<Seq<char>> {
        PlaneDef { net: self.net@, layer: self.layer@ }
    }
}

/// The values that `f` gives for the nodes, in their order.
pub(crate) fn gather<T: DeepView, F: Fn(&Sexpr) -> Option<T>>(
    nodes: &Vec<&Sexpr>,
    f: F,
    Ghost(pick): Ghost<spec_fn(Tree) -> Option<T::V>>,
) -> (r: Vec<T>)
    requires
        forall|n: &Sexpr| f.requires((n,)),
        forall|n: &Sexpr, t: Option<T>| #[trigger]
            f.ensures((n,), t) ==> t.deep_view() == pick(n.deep_view()),
    ensures
        r.deep_view() == crate::collect::collect(nodes.deep_view(), pick),
{
    let mut r: Vec<T> = Vec::new();
    let ghost all = nodes.deep_view();
    let mut i: usize = 0;
    proof {
        crate::collect::lemma_collect_all(all, pick);
    }
    assert(r.deep_view() =~= Seq::<T::V>::empty());
    while i < nodes.len()
        invariant
            i <= nodes@.len(),
            all == nodes.deep_view(),
            forall|n: &Sexpr| f.requires((n,)),
            forall|n: &Sexpr, t: Option<T>| #[trigger]
                f.ensures((n,), t) ==> t.deep_view() == pick(n.deep_view()),
            r.deep_view() == crate::collect::collect(all.take(i as int), pick),
        decreases nodes@.len() - i,
    {
        proof {
            crate::collect::lemma_collect_next(all, pick, i as int);
            assert(all[i as int] == nodes@[i as int].deep_view());
        }
        let ghost before = r.deep_view();
        if let Some(t) = f(nodes[i]) {
            r.push(t);
            assert(r.deep_view() =~= before.push(t.deep_view()));
        }
        i += 1;
    }
    r
}

/// The nodes of a list from place `k` on.
pub(crate) fn nodes_from(n: &Sexpr, k: usize) -> (r: Vec<&Sexpr>)
    ensures
        r.deep_view() == nodes_after(n.deep_view(), k as int),
{
    let mut r: Vec<&Sexpr> = Vec::new();
    if let Some(v) = n.as_list() {
        let mut i: usize = k;
        let ghost all = v.deep_view();
        while i < v.len()
            invariant
                all == v.deep_view(),
                all == crate::sexpr::items(n.deep_view()),
                k <= i,
                i <= v@.len() || i == k,
                r@.len() == i - k,
                forall|j: int| 0 <= j < i - k ==> (#[trigger] r@[j]).deep_view() == all[k + j],
            decreases v@.len() - i,
        {
            assert(all[i as int] == v@[i as int].deep_view());
            r.push(&v[i]);
            i += 1;
        }
    }
    assert(r.deep_view() =~= nodes_after(n.deep_view(), k as int));
    r
}

/// The nodes of a list from place `k` on.
pub open spec fn nodes_after(n: Tree, k: int) -> Seq<Tree> {
    let all = crate::sexpr::items(n);
    if k <= all.len() {
        all.skip(k)
    } else {
        seq![]
    }
}

/// Picks words.
pub open spec fn words() -> spec_fn(Tree) -> Option<Seq<char>> {
    |n: Tree| crate::sexpr::atom(n)
}

/// The text, if it is a number.
pub open spec fn numeric(s: Option<Seq<char>>) -> Option<Seq<char>> {
    match s {
        Some(t) => if crate::number::is_number(t) {
            Some(t)
        } else {
            None
        },
        None => None,
    }
}

/// Picks numbers.
pub open spec fn numbers() -> spec_fn(Tree) -> Option<Seq<char>> {
    |n: Tree| numeric(crate::sexpr::atom(n))
}

/// The text, if it is a number.
pub(crate) fn as_number(s: Option<&str>) -> (r: Option<String>)
    ensures
        r.deep_view() == numeric(s.deep_view()),
{
    match s {
        None => None,
        Some(t) => if is_numeric(t) {
            Some(t.to_owned())
        } else {
            None
        },
    }
}

/// The same text, owned.
pub(crate) fn owned(s: Option<&str>) -> (r: Option<String>)
    ensures
        r.deep_view() == s.deep_view(),
{
    match s {
        None => None,
        Some(t) => Some(t.to_owned()),
    }
}

/// The word, if the node is one.
pub(crate) fn word_of(n: &Sexpr) -> (r: Option<String>)
    ensures
        r.deep_view() == words()(n.deep_view()),
{
    owned(n.as_atom())
}

/// The number, if the node is one.
fn number_of(n: &Sexpr) -> (r: Option<String>)
    ensures
        r.deep_view() == numbers()(n.deep_view()),
{
    as_number(n.as_atom())
}

/// The numbers among the nodes of a list from place `k` on.
pub open spec fn numbers_after(n: Tree, k: int) -> Seq<Seq<char>> {
    crate::collect::collect(nodes_after(n, k), numbers())
}

/// The numbers among the nodes of a list from place `k` on.
pub(crate) fn numbers_from(n: &Sexpr, k: usize) -> (r: Vec<String>)
    ensures
        r.deep_view() == numbers_after(n.deep_view(), k as int),
{
    gather(&nodes_from(n, k), number_of, Ghost(numbers()))
}

/// Picks poured planes: `(plane NET (polygon LAYER ...))`.
pub open spec fn planes() -> spec_fn(Tree) -> Option<PlaneDef<Seq<char>>> {
    |n: Tree|
        match (crate::sexpr::word(n, 1), crate::sexpr::child(n, "polygon"@)) {
            (Some(net), Some(polygon)) => match crate::sexpr::word(polygon, 1) {
                Some(layer) => Some(PlaneDef { net, layer }),
                None => None,
            },
            _ => None,
        }
}

/// The poured plane that a node declares.
fn plane_of(n: &Sexpr) -> (r: Option<PlaneDef>)
    ensures
        r.deep_view() == planes()(n.deep_view()),
{
    match (n.word_at(1), n.child_named("polygon")) {
        (Some(net), Some(polygon)) => match polygon.word_at(1) {
            Some(layer) => Some(PlaneDef { net: net.to_owned(), layer: layer.to_owned() }),
            None => None,
        },
        _ => None,
    }
}

/// The poured planes of a structure, in the order of the document.
pub fn parse_planes(structure: &Sexpr) -> (r: Vec<PlaneDef>)
    ensures
        r.deep_view() == crate::collect::collect(
            crate::sexpr::children(structure.deep_view(), "plane"@),
            planes(),
        ),
{
    gather(&structure.children_named("plane"), plane_of, Ghost(planes()))
}

/// Picks the second word of a list.
pub open spec fn second_words() -> spec_fn(Tree) -> Option<Seq<char>> {
    |n: Tree| crate::sexpr::word(n, 1)
}

/// The second word of a list.
fn second_word(n: &Sexpr) -> (r: Option<String>)
    ensures
        r.deep_view() == second_words()(n.deep_view()),
{
    owned(n.word_at(1))
}

/// The names of the layers of a structure, in the order of the document.
pub open spec fn layer_names(structure: Tree) -> Seq<Seq<char>> {
    crate::collect::collect(crate::sexpr::children(structure, "layer"@), second_words())
}

/// The names of the layers of a structure, in the order of the document.
pub fn parse_layer_names(structure: &Sexpr) -> (r: Vec<String>)
    ensures
        r.deep_view() == layer_names(structure.deep_view()),
{
    gather(&structure.children_named("layer"), second_word, Ghost(second_words()))
}

/// Picks the names of layers that are declared to carry signals.
pub open spec fn signal_layers() -> spec_fn(Tree) -> Option<Seq<char>> {
    |n: Tree|
        match crate::sexpr::child(n, "type"@) {
            Some(kind) => if crate::sexpr::word(kind, 1) == Some("signal"@) {
                crate::sexpr::word(n, 1)
            } else {
                None
            },
            None => None,
        }
}

/// The name of a layer that is declared to carry signals.
fn signal_layer(n: &Sexpr) -> (r: Option<String>)
    ensures
        r.deep_view() == signal_layers()(n.deep_view()),
{
    match n.child_named("type") {
        Some(kind) => match kind.word_at(1) {
            Some(t) => if same_text(t, "signal") {
                owned(n.word_at(1))
            } else {
                None
            },
            None => None,
        },
        None => None,
    }
}

/// Picks the names of layers that are declared to be of some type.
pub open spec fn typed_layers() -> spec_fn(Tree) -> Option<Seq<char>> {
    |n: Tree|
        match crate::sexpr::child(n, "type"@) {
            Some(kind) => if crate::sexpr::word(kind, 1) is Some {
                crate::sexpr::word(n, 1)
            } else {
                None
            },
            None => None,
        }
}

/// The name of a layer that is declared to be of some type.
fn typed_layer(n: &Sexpr) -> (r: Option<String>)
    ensures
        r.deep_view() == typed_layers()(n.deep_view()),
{
    match n.child_named("type") {
        Some(kind) => if kind.word_at(1).is_some() {
            owned(n.word_at(1))
        } else {
            None
        },
        None => None,
    }
}

/// The layers that carry signals: those declared to, or all layers where no layer is
/// declared to be of any type.
pub open spec fn signal_layer_names(structure: Tree) -> Seq<Seq<char>> {
    let layers = crate::sexpr::children(structure, "layer"@);
    if crate::collect::collect(layers, typed_layers()).len() == 0 {
        layer_names(structure)
    } else {
        crate::collect::collect(layers, signal_layers())
    }
}

/// The layers that carry signals: those declared to, or all layers where no layer is
/// declared to be of any type.
pub fn parse_signal_layer_names(structure: &Sexpr) -> (r: Vec<String>)
    ensures
        r.deep_view() == signal_layer_names(structure.deep_view()),
{
    let layers: Vec<&Sexpr> = structure.children_named("layer");
    let typed: Vec<String> = gather(&layers, typed_layer, Ghost(typed_layers()));
    assert(typed.deep_view().len() == typed@.len());
    if typed.len() == 0 {
        parse_layer_names(structure)
    } else {
        gather(&layers, signal_layer, Ghost(signal_layers()))
    }
}

/// The via padstacks that a structure declares.
pub open spec fn via_names(structure: Tree) -> Seq<Seq<char>> {
    match crate::sexpr::child(structure, "via"@) {
        Some(via) => crate::collect::collect(nodes_after(via, 1), words()),
        None => seq![],
    }
}

/// The via padstacks that a structure declares.
pub fn declared_via_names(structure: &Sexpr) -> (r: Vec<String>)
    ensures
        r.deep_view() == via_names(structure.deep_view()),
{
    match structure.child_named("via") {
        Some(via) => gather(&nodes_from(via, 1), word_of, Ghost(words())),
        None => {
            let r: Vec<String> = Vec::new();
            assert(r.deep_view() =~= seq![]);
            r
        },
    }
}

/// The document comes from a program that writes coordinates multiplied by the
/// resolution.
pub open spec fn is_scaled(pcb: Tree) -> bool {
    match crate::sexpr::child(pcb, "parser"@) {
        Some(parser) => match crate::sexpr::child(parser, "host_cad"@) {
            Some(host) => match crate::sexpr::word(host, 1) {
                Some(name) => crate::text::lowered(name) == crate::text::lowered("bed-of-nails"@),
                None => false,
            },
            None => false,
        },
        None => false,
    }
}

/// Whether the document comes from a program that writes coordinates multiplied by the
/// resolution.
pub fn uses_resolution_scaled_input(pcb: &Sexpr) -> (r: bool)
    ensures
        r == is_scaled(pcb.deep_view()),
{
    match pcb.child_named("parser") {
        Some(parser) => match parser.child_named("host_cad") {
            Some(host) => match host.word_at(1) {
                Some(name) => same_ignoring_case(name, "bed-of-nails"),
                None => false,
            },
            None => false,
        },
        None => false,
    }
}

/// The layer that a circle or a rectangle is on.
pub fn shape_layer(shape_inner: &Sexpr) -> (r: Option<String>)
    ensures
        r.deep_view() == crate::sexpr::word(shape_inner.deep_view(), 1),
{
    owned(shape_inner.word_at(1))
}

/// The parts of a text before and after the last dash, if there is one and neither is
/// empty.
pub open spec fn ref_pin(s: Seq<char>) -> Option<(Seq<char>, Seq<char>)> {
    match crate::text::last_place(s, '-') {
        Some(k) => if 0 < k < s.len() - 1 {
            Some((s.take(k), s.skip(k + 1)))
        } else {
            None
        },
        None => None,
    }
}

/// Splits `REF-PIN` at its last dash.
pub fn split_ref_pin(tok: &str) -> (r: Option<(String, String)>)
    ensures
        r.deep_view() == ref_pin(tok@),
{
    let s: Vec<char> = chars_of(tok);
    let n: usize = s.len();
    match find_last(&s, '-') {
        None => None,
        Some(k) => {
            if k == 0 || k == n - 1 {
                return None;
            }
            let reference: String = text_of(&s, 0, k);
            let pin: String = text_of(&s, k + 1, n);
            assert(reference@ =~= s@.take(k as int));
            assert(pin@ =~= s@.skip(k + 1));
            Some((reference, pin))
        },
    }
}

} // verus!
