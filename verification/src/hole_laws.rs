//! What a document says of the vias of a board: the layers that they join, their pads and
//! their drills.
use vstd::prelude::*;

use crate::file_laws::{are_told, begins, is_first_told, is_in, parts, says};
use crate::library::Stack;
use crate::parts_laws::{is_last_stack, is_new, tells_shape_layer};
use crate::sexpr::Tree;
use crate::structure_laws::are_alike;

verus! {

/// The layer of the shape of a via stands for all layers.
pub open spec fn spans_board(layer: Seq<char>) -> bool {
    are_alike(layer, "signal"@) || are_alike(layer, "*"@) || are_alike(layer, "all"@)
}

/// A shape of the via is on that layer of the board.
pub open spec fn is_on_layer(layers: Seq<Seq<char>>, names: Seq<Seq<char>>, k: int) -> bool {
    is_new(names, k) && exists|i: int|
        0 <= i < layers.len() && #[trigger] layers[i] == names[k] && !spans_board(layers[i])
}

/// The layers that shapes on these layers join: the whole stack where one stands for all,
/// otherwise from the topmost to the lowest layer of the board that has one.
pub open spec fn is_span(
    layers: Seq<Seq<char>>,
    names: Seq<Seq<char>>,
    lo: int,
    hi: int,
) -> bool {
    if exists|i: int| 0 <= i < layers.len() && spans_board(#[trigger] layers[i]) {
        lo == 0 && hi == names.len() - 1
    } else {
        &&& is_on_layer(layers, names, lo)
        &&& is_on_layer(layers, names, hi)
        &&& forall|k: int| #[trigger] is_on_layer(layers, names, k) ==> lo <= k <= hi
    }
}

proof fn lemma_spans_board(layer: Seq<char>)
    ensures
        spans_board(layer) <==> crate::via_stack::spans_all(layer),
{
    crate::pin_laws::lemma_small();
    crate::structure_laws::law_case_is_ignored(layer, "signal"@);
    crate::structure_laws::law_case_is_ignored(layer, "*"@);
    crate::structure_laws::law_case_is_ignored(layer, "all"@);
}

proof fn lemma_lowest(s: Seq<int>)
    requires
        s.len() > 0,
    ensures
        s.contains(crate::via_stack::lowest(s)),
        forall|i: int| 0 <= i < s.len() ==> crate::via_stack::lowest(s) <= #[trigger] s[i],
        s.contains(crate::via_stack::highest(s)),
        forall|i: int| 0 <= i < s.len() ==> crate::via_stack::highest(s) >= #[trigger] s[i],
    decreases s.len(),
{
    if s.len() == 1 {
        assert(s[0] == s[0]);
    } else {
        let front = s.drop_last();
        lemma_lowest(front);
        let (a, b) = (crate::via_stack::lowest(front), crate::via_stack::highest(front));
        let i = choose|i: int| 0 <= i < front.len() && front[i] == a;
        let j = choose|j: int| 0 <= j < front.len() && front[j] == b;
        assert(s[i] == a && s[j] == b && s[s.len() - 1] == s.last());
        assert forall|k: int| 0 <= k < s.len() implies crate::via_stack::lowest(s)
            <= #[trigger] s[k] && crate::via_stack::highest(s) >= s[k] by {
            if k < front.len() {
                assert(front[k] == s[k]);
            }
        }
    }
}

/// The places of layers on the board.
spec fn tells_place(names: Seq<Seq<char>>) -> spec_fn(Seq<char>, int) -> bool {
    |layer: Seq<char>, k: int| !spans_board(layer) && is_new(names, k) && names[k] == layer
}

proof fn lemma_place_of(names: Seq<Seq<char>>, layer: Seq<char>, k: int)
    ensures
        tells_place(names)(layer, k) <==> crate::via_stack::layer_numbers(names)(layer) == Some(k),
{
    lemma_spans_board(layer);
    let found = exists|i: int| crate::layers::is_first(names, layer, i);
    if is_new(names, k) && names[k] == layer {
        assert(crate::layers::is_first(names, layer, k));
        let m = choose|i: int| crate::layers::is_first(names, layer, i);
        assert(crate::layers::is_first(names, layer, m));
        assert(names[m] == layer && names[k] == layer);
        assert(m == k);
    }
    if found {
        let m = choose|i: int| crate::layers::is_first(names, layer, i);
        assert(crate::layers::is_first(names, layer, m));
        assert(is_new(names, m));
    }
}

/// A via joins the layers from the topmost to the lowest that its shapes are on.
pub proof fn law_vias_join_their_layers(
    layers: Seq<Seq<char>>,
    names: Seq<Seq<char>>,
    lo: int,
    hi: int,
)
    ensures
        crate::via_stack::span_of(layers, names) == Some((lo, hi)) <==> is_span(
            layers,
            names,
            lo,
            hi,
        ),
{
    let pick = crate::via_stack::layer_numbers(names);
    let known = crate::collect::collect(layers, pick);
    assert forall|layer: Seq<char>, k: int| #[trigger]
        tells_place(names)(layer, k) <==> pick(layer) == Some(k) by {
        lemma_place_of(names, layer, k);
    }
    crate::file_laws::lemma_told(layers, pick, tells_place(names));
    let at = choose|at: Seq<int>| #[trigger]
        crate::file_laws::are_places(layers, known, tells_place(names), at);
    assert forall|k: int| #[trigger] is_on_layer(layers, names, k) <==> known.contains(k) by {
        if is_on_layer(layers, names, k) {
            let i = choose|i: int|
                0 <= i < layers.len() && #[trigger] layers[i] == names[k] && !spans_board(
                    layers[i],
                );
            assert(tells_place(names)(layers[i], k));
            assert(at.contains(i));
            let j = choose|j: int| 0 <= j < at.len() && at[j] == i;
            assert(tells_place(names)(layers[at[j]], known[j]));
            assert(names[known[j]] == names[k]);
            assert(known[j] == k);
        }
        if known.contains(k) {
            let j = choose|j: int| 0 <= j < known.len() && known[j] == k;
            assert(tells_place(names)(layers[at[j]], known[j]));
            assert(layers[at[j]] == names[k]);
        }
    }
    assert forall|i: int| 0 <= i < layers.len() implies (spans_board(#[trigger] layers[i])
        <==> crate::via_stack::spans_all(layers[i])) by {
        lemma_spans_board(layers[i]);
    }
    if exists|i: int| 0 <= i < layers.len() && spans_board(#[trigger] layers[i]) {
        let i = choose|i: int| 0 <= i < layers.len() && spans_board(#[trigger] layers[i]);
        assert(crate::via_stack::spans_all(layers[i]));
    } else {
        assert forall|i: int| 0 <= i < layers.len() implies !(
        #[trigger] crate::via_stack::spans_all(layers[i])) by {
            assert(!spans_board(layers[i]));
        }
        if known.len() > 0 {
            lemma_lowest(known);
            let (a, b) = (crate::via_stack::lowest(known), crate::via_stack::highest(known));
            assert(is_on_layer(layers, names, a) && is_on_layer(layers, names, b));
            assert forall|k: int| #[trigger] is_on_layer(layers, names, k) implies a <= k
                <= b by {
                let j = choose|j: int| 0 <= j < known.len() && known[j] == k;
                assert(a <= known[j] <= b);
            }
            if is_span(layers, names, lo, hi) {
                assert(lo <= a <= hi && lo <= b <= hi);
            }
        } else if is_span(layers, names, lo, hi) {
            assert(is_on_layer(layers, names, lo));
            assert(known.contains(lo));
        }
    }
}

/// Padstacks of that name.
pub open spec fn tells_named(name: Seq<char>) -> spec_fn(Tree, Tree) -> bool {
    |n: Tree, p: Tree| begins(n, "padstack"@) && says(n, 1, name) && n == p
}

/// The padstack is the first of that name in the library of the board.
pub open spec fn is_padstack(pcb: Tree, name: Seq<char>, p: Tree) -> bool {
    exists|library: Tree| #[trigger]
        is_in(pcb, "library"@, library) && is_first_told(
            parts(library),
            Some(p),
            tells_named(name),
        )
}

/// The layers that the shapes of a padstack are on.
pub open spec fn are_layers_of(p: Tree, layers: Seq<Seq<char>>) -> bool {
    are_told(parts(p), layers, tells_shape_layer())
}

/// The layers that vias join.
pub open spec fn tells_span(pcb: Tree, names: Seq<Seq<char>>) -> spec_fn(
    Seq<char>,
    (int, int),
) -> bool {
    |name: Seq<char>, s: (int, int)|
        exists|p: Tree, layers: Seq<Seq<char>>|
            {
                &&& #[trigger] is_padstack(pcb, name, p)
                &&& #[trigger] are_layers_of(p, layers)
                &&& is_span(layers, names, s.0, s.1)
            }
}

proof fn lemma_padstack_found(pcb: Tree, name: Seq<char>, p: Tree)
    ensures
        is_padstack(pcb, name, p) <==> crate::collect::first(
            crate::library::library_entries(pcb, "padstack"@),
            crate::via_stack::with_name(name),
        ) == Some(p),
{
    crate::file_laws::law_lists_are_found_by_name(pcb, "library"@);
    let pick = crate::via_stack::with_name(name);
    let tells = tells_named(name);
    assert forall|n: Tree, q: Tree| #[trigger] tells(n, q) <==> begins(n, "padstack"@) && pick(n)
        == Some(q) by {
        crate::file_laws::lemma_says(n, 1, name);
    }
    match crate::sexpr::child(pcb, "library"@) {
        Some(library) => {
            assert(is_in(pcb, "library"@, library));
            crate::file_laws::lemma_children_tell(library, "padstack"@, pick, tells);
            let found = crate::collect::first(
                crate::sexpr::children(library, "padstack"@),
                pick,
            );
            if is_padstack(pcb, name, p) {
                assert forall|a: Tree, x: Tree, y: Tree| #[trigger]
                    tells(a, x) && #[trigger] tells(a, y) implies x == y by {}
                crate::file_laws::lemma_only_first(parts(library), found, p, tells);
            }
        },
        None => {},
    }
}

/// The layers that the vias of a board join are told by the first padstack of each name in
/// its library, as far as there is one with a shape on the board.
pub proof fn law_via_layers_are_read(pcb: Tree, via_names: Seq<Seq<char>>, names: Seq<Seq<char>>)
    ensures
        are_told(
            via_names,
            crate::via_stack::known_spans(pcb, via_names, names),
            tells_span(pcb, names),
        ),
{
    let pick = crate::via_stack::via_spans(pcb, names);
    let tells = tells_span(pcb, names);
    assert forall|name: Seq<char>, s: (int, int)| #[trigger] tells(name, s) <==> pick(name)
        == Some(s) by {
        let found = crate::collect::first(
            crate::library::library_entries(pcb, "padstack"@),
            crate::via_stack::with_name(name),
        );
        if let Some(p) = found {
            lemma_padstack_found(pcb, name, p);
            let layers = crate::via_stack::layers_of(p);
            crate::parts_laws::lemma_shapes(p);
            assert(is_padstack(pcb, name, p) && are_layers_of(p, layers));
            law_vias_join_their_layers(layers, names, s.0, s.1);
        }
        if tells(name, s) {
            let (p, layers) = choose|p: Tree, layers: Seq<Seq<char>>|
                {
                    &&& #[trigger] is_padstack(pcb, name, p)
                    &&& #[trigger] are_layers_of(p, layers)
                    &&& is_span(layers, names, s.0, s.1)
                };
            lemma_padstack_found(pcb, name, p);
            crate::parts_laws::lemma_shapes(p);
            assert forall|a: Tree, x: Seq<char>, y: Seq<char>| #[trigger]
                tells_shape_layer()(a, x) && #[trigger] tells_shape_layer()(a, y) implies x
                == y by {
                crate::parts_laws::lemma_one_shape_layer(a, x, y);
            }
            crate::file_laws::lemma_one_telling(
                parts(p),
                layers,
                crate::via_stack::layers_of(p),
                tells_shape_layer(),
            );
            law_vias_join_their_layers(layers, names, s.0, s.1);
        }
    }
    crate::file_laws::lemma_told(via_names, pick, tells);
}

/// The text ends in a colon, that number, and `_um`.
pub open spec fn ends_in_drill(name: Seq<char>, d: Seq<char>) -> bool {
    let n = name.len() - d.len() - 3;
    &&& n >= 1
    &&& name[n - 1] == ':'
    &&& forall|i: int| 0 <= i < d.len() ==> name[n + i] == #[trigger] d[i] && d[i] != ':'
    &&& name[name.len() - 3] == '_'
    &&& name[name.len() - 2] == 'u'
    &&& name[name.len() - 1] == 'm'
    &&& crate::number::is_number(d)
}

/// The drill of a via is the number that its name ends in, behind a colon and before `_um`.
pub proof fn law_drill_is_in_the_name(name: Seq<char>, d: Seq<char>)
    ensures
        crate::via_stack::drill_text(name) == Some(d) <==> ends_in_drill(name, d),
{
    reveal_strlit("_um");
    assert("_um"@.len() == 3 && "_um"@[0] == '_' && "_um"@[1] == 'u' && "_um"@[2] == 'm');
    if ends_in_drill(name, d) {
        let n = name.len() - d.len() - 3;
        let k = n - 1;
        assert forall|j: int| k < j < name.len() implies #[trigger] name[j] != ':' by {
            if j < n + d.len() {
                assert(name[n + (j - n)] == d[j - n]);
            }
        }
        assert(crate::text::is_last(name, ':', k));
        let m = choose|m: int| crate::text::is_last(name, ':', m);
        assert(crate::text::is_last(name, ':', m));
        assert(name[k] == ':' && name[m] == ':');
        assert(m == k);
        let tail = name.skip(k + 1);
        let cut = tail.len() - 3;
        assert(cut == d.len());
        assert(tail.skip(cut) =~= "_um"@);
        assert(tail.take(cut) =~= d) by {
            assert forall|i: int| 0 <= i < d.len() implies tail.take(cut)[i] == d[i] by {
                assert(name[n + i] == d[i]);
            }
        }
    }
    if crate::via_stack::drill_text(name) == Some(d) {
        let k = choose|k: int| crate::text::is_last(name, ':', k);
        assert(crate::text::is_last(name, ':', k));
        let tail = name.skip(k + 1);
        let cut = tail.len() - 3;
        assert(d == tail.take(cut));
        let n = name.len() - d.len() - 3;
        assert(n == k + 1);
        let um = tail.skip(cut);
        assert(um[0] == '_' && um[1] == 'u' && um[2] == 'm');
        assert(um[0] == name[name.len() - 3] && um[1] == name[name.len() - 2] && um[2]
            == name[name.len() - 1]);
        assert forall|i: int| 0 <= i < d.len() implies name[n + i] == #[trigger] d[i] && d[i]
            != ':' by {
            assert(d[i] == name[k + 1 + i]);
        }
    }
}

/// Vias with their pads and drills.
pub open spec fn tells_via(stacks: Seq<Stack>, names: Seq<Seq<char>>) -> spec_fn(
    Seq<char>,
    (Stack, Option<Seq<char>>),
) -> bool {
    |name: Seq<char>, v: (Stack, Option<Seq<char>>)|
        {
            &&& exists|k: int| #[trigger]
                is_last_stack(stacks, name, k) && v.0.shapes == stacks[k].shapes && v.0.layers
                    == crate::layers::pad_layers(stacks[k].layers, names)
            &&& v.0.name == name
            &&& is_drill(name, v.1)
        }
}

/// The drill that a name gives, where it gives one.
pub open spec fn is_drill(name: Seq<char>, drill: Option<Seq<char>>) -> bool {
    forall|d: Seq<char>| #[trigger] ends_in_drill(name, d) <==> drill == Some(d)
}

/// The vias of a board are all that it declares and its library has, each with its pad and
/// with the drill that its name gives.
pub proof fn law_via_pads_are_read(
    stacks: Seq<Stack>,
    via_names: Seq<Seq<char>>,
    names: Seq<Seq<char>>,
)
    ensures
        are_told(
            via_names,
            crate::collect::collect(via_names, crate::ingest::known_vias(stacks, names)),
            tells_via(stacks, names),
        ),
{
    let pick = crate::ingest::known_vias(stacks, names);
    let tells = tells_via(stacks, names);
    assert forall|name: Seq<char>, v: (Stack, Option<Seq<char>>)| #[trigger]
        tells(name, v) <==> pick(name) == Some(v) by {
        let drill = crate::via_stack::drill_text(name);
        assert forall|d: Seq<char>| #[trigger] ends_in_drill(name, d) <==> drill == Some(d) by {
            law_drill_is_in_the_name(name, d);
        }
        if is_drill(name, v.1) {
            if let Some(d) = drill {
                assert(ends_in_drill(name, d));
            }
            if let Some(d) = v.1 {
                assert(ends_in_drill(name, d));
            }
        }
        lemma_some_last(stacks, name, stacks.len() as int);
        if exists|k: int| #[trigger] is_last_stack(stacks, name, k) {
            let k = choose|k: int| #[trigger] is_last_stack(stacks, name, k);
            crate::parts_laws::law_last_of_a_name_counts(stacks, Seq::empty(), name, k);
            if tells(name, v) {
                let m = choose|m: int| #[trigger]
                    is_last_stack(stacks, name, m) && v.0.shapes == stacks[m].shapes && v.0.layers
                        == crate::layers::pad_layers(stacks[m].layers, names);
                crate::parts_laws::law_last_of_a_name_counts(stacks, Seq::empty(), name, m);
            }
        } else {
            crate::parts_laws::law_last_of_a_name_counts(stacks, Seq::empty(), name, 0);
        }
    }
    crate::file_laws::lemma_told(via_names, pick, tells);
}

proof fn lemma_some_last(stacks: Seq<Stack>, name: Seq<char>, n: int)
    requires
        0 <= n <= stacks.len(),
        forall|j: int| n <= j < stacks.len() ==> (#[trigger] stacks[j]).name != name,
    ensures
        (exists|k: int| #[trigger] is_last_stack(stacks, name, k)) || forall|j: int|
            0 <= j < stacks.len() ==> (#[trigger] stacks[j]).name != name,
    decreases n,
{
    if n > 0 {
        if stacks[n - 1].name == name {
            assert(is_last_stack(stacks, name, n - 1));
        } else {
            lemma_some_last(stacks, name, n - 1);
        }
    }
}

} // verus!
