//! The vias that a design declares: which layers they join, and what they are made of.
use vstd::prelude::*;

use crate::dsn::gather;
use crate::layers::LayerMap;
use crate::library::{distinct_names, entries, layer_of_shape};
use crate::number::is_numeric;
use crate::sexpr::{Sexpr, Tree};
use crate::text::{chars_of, find_last, lower_chars, same_chars, same_text, text_of};
use crate::via::ViaModel;

verus! {

/// The layer of a via shape that stands for all layers.
pub open spec fn spans_all(layer: Seq<char>) -> bool {
    let l = crate::text::lowered(layer);
    l == "signal"@ || l == "*"@ || l == "all"@
}

/// Whether the layer of a via shape stands for all layers.
fn is_spanning(layer: &str) -> (r: bool)
    ensures
        r == spans_all(layer@),
{
    let l = lower_chars(layer);
    same_chars(&l, &chars_of("signal")) || same_chars(&l, &chars_of("*")) || same_chars(
        &l,
        &chars_of("all"),
    )
}

/// Picks the numbers of layers that the board has.
pub open spec fn layer_numbers(names: Seq<Seq<char>>) -> spec_fn(Seq<char>) -> Option<int> {
    |layer: Seq<char>|
        if spans_all(layer) {
            None
        } else {
            crate::layers::index_in(names, layer)
        }
}

/// The lowest of the numbers.
pub open spec fn lowest(s: Seq<int>) -> int
    decreases s.len(),
{
    if s.len() <= 1 {
        s[0]
    } else {
        let rest = lowest(s.drop_last());
        if s.last() < rest {
            s.last()
        } else {
            rest
        }
    }
}

/// The highest of the numbers.
pub open spec fn highest(s: Seq<int>) -> int
    decreases s.len(),
{
    if s.len() <= 1 {
        s[0]
    } else {
        let rest = highest(s.drop_last());
        if s.last() > rest {
            s.last()
        } else {
            rest
        }
    }
}

/// The layers from the first to the last that shapes on these layers are on: the whole
/// stack where one of them stands for all layers.
pub open spec fn span_of(layers: Seq<Seq<char>>, names: Seq<Seq<char>>) -> Option<(int, int)> {
    let known = crate::collect::collect(layers, layer_numbers(names));
    if exists|i: int| 0 <= i < layers.len() && #[trigger] spans_all(layers[i]) {
        Some((0, names.len() - 1))
    } else if known.len() == 0 {
        None
    } else {
        Some((lowest(known), highest(known)))
    }
}

/// The layers of the shapes of a padstack.
pub open spec fn layers_of(padstack: Tree) -> Seq<Seq<char>> {
    crate::collect::collect(
        crate::sexpr::children(padstack, "shape"@),
        crate::library::shape_layers(),
    )
}

/// Picks padstacks with that name.
pub open spec fn with_name(name: Seq<char>) -> spec_fn(Tree) -> Option<Tree> {
    |n: Tree|
        if crate::sexpr::word(n, 1) == Some(name) {
            Some(n)
        } else {
            None
        }
}

/// Picks the layers that vias join: those of the first padstack with the name.
pub open spec fn via_spans(pcb: Tree, names: Seq<Seq<char>>) -> spec_fn(Seq<char>) -> Option<
    (int, int),
> {
    |name: Seq<char>|
        match crate::collect::first(
            crate::library::library_entries(pcb, "padstack"@),
            with_name(name),
        ) {
            Some(padstack) => span_of(layers_of(padstack), names),
            None => None,
        }
}

/// The layers that shapes on these layers join.
fn span(layers: &Vec<String>, layer_map: &LayerMap) -> (r: Option<(u32, u32)>)
    requires
        layer_map.wf(),
    ensures
        match r {
            Some((lo, hi)) => span_of(layers.deep_view(), layer_map.deep_view()) == Some(
                (lo as int, hi as int),
            ),
            None => span_of(layers.deep_view(), layer_map.deep_view()) is None,
        },
        r matches Some((lo, hi)) ==> lo <= hi < layer_map.deep_view().len(),
{
    let ghost all = layers.deep_view();
    let ghost names = layer_map.deep_view();
    let ghost pick = layer_numbers(names);
    let mut best: Option<(u32, u32)> = None;
    let mut i: usize = 0;
    proof {
        crate::collect::lemma_collect_all(all, pick);
    }
    while i < layers.len()
        invariant
            i <= layers@.len(),
            layer_map.wf(),
            all == layers.deep_view(),
            names == layer_map.deep_view(),
            pick == layer_numbers(names),
            forall|j: int| 0 <= j < i ==> !#[trigger] spans_all(all[j]),
            match best {
                Some((lo, hi)) => {
                    let known = crate::collect::collect(all.take(i as int), pick);
                    &&& known.len() > 0
                    &&& lo == lowest(known)
                    &&& hi == highest(known)
                    &&& lo <= hi < names.len()
                },
                None => crate::collect::collect(all.take(i as int), pick).len() == 0,
            },
        decreases layers@.len() - i,
    {
        assert(all[i as int] == layers@[i as int]@);
        if is_spanning(&layers[i]) {
            assert(spans_all(all[i as int]));
            return Some((0, layer_map.len() - 1));
        }
        proof {
            crate::collect::lemma_collect_next(all, pick, i as int);
        }
        let ghost known = crate::collect::collect(all.take(i as int), pick);
        if let Some(k) = layer_map.index_of(&layers[i]) {
            proof {
                let m = crate::layers::index_in(names, all[i as int])->0;
                assert(crate::layers::is_first(names, all[i as int], m));
                assert(known.push(k as int).drop_last() =~= known);
            }
            best = match best {
                None => Some((k, k)),
                Some((lo, hi)) => Some(
                    (
                        if k < lo {
                            k
                        } else {
                            lo
                        },
                        if k > hi {
                            k
                        } else {
                            hi
                        },
                    ),
                ),
            };
        }
        i += 1;
    }
    best
}

/// The layers that the via of that name joins.
fn via_span(pcb: &Sexpr, name: &str, layer_map: &LayerMap) -> (r: Option<(u32, u32)>)
    requires
        layer_map.wf(),
    ensures
        match r {
            Some((lo, hi)) => via_spans(pcb.deep_view(), layer_map.deep_view())(name@) == Some(
                (lo as int, hi as int),
            ),
            None => via_spans(pcb.deep_view(), layer_map.deep_view())(name@) is None,
        },
        r matches Some((lo, hi)) ==> lo <= hi < layer_map.deep_view().len(),
{
    let nodes: Vec<&Sexpr> = entries(pcb, "padstack");
    let ghost all = nodes.deep_view();
    let ghost pick = with_name(name@);
    let mut i: usize = 0;
    proof {
        crate::collect::lemma_collect_all(all, pick);
    }
    while i < nodes.len()
        invariant
            i <= nodes@.len(),
            layer_map.wf(),
            all == nodes.deep_view(),
            all == crate::library::library_entries(pcb.deep_view(), "padstack"@),
            pick == with_name(name@),
            crate::collect::collect(all.take(i as int), pick).len() == 0,
        decreases nodes@.len() - i,
    {
        assert(all[i as int] == nodes@[i as int].deep_view());
        let found: bool = match nodes[i].word_at(1) {
            Some(w) => same_text(w, name),
            None => false,
        };
        if found {
            proof {
                crate::collect::lemma_first(all, pick, i as int);
            }
            let layers: Vec<String> = gather(
                &nodes[i].children_named("shape"),
                layer_of_shape,
                Ghost(crate::library::shape_layers()),
            );
            return span(&layers, layer_map);
        }
        proof {
            crate::collect::lemma_collect_next(all, pick, i as int);
        }
        i += 1;
    }
    None
}

/// The layers that the vias of these names join, as far as that is known.
pub open spec fn known_spans(pcb: Tree, via_names: Seq<Seq<char>>, names: Seq<Seq<char>>) -> Seq<
    (int, int),
> {
    crate::collect::collect(via_names, via_spans(pcb, names))
}

/// The numbers of the layers, for contracts.
pub open spec fn spans_view(spans: Seq<(u32, u32)>) -> Seq<(int, int)> {
    spans.map_values(|s: (u32, u32)| (s.0 as int, s.1 as int))
}

/// The layers that the vias of these names join, as far as that is known.
fn collect_spans(pcb: &Sexpr, via_names: &Vec<String>, layer_map: &LayerMap) -> (r: Vec<(u32, u32)>)
    requires
        layer_map.wf(),
    ensures
        spans_view(r@) == known_spans(
            pcb.deep_view(),
            via_names.deep_view(),
            layer_map.deep_view(),
        ),
        forall|i: int|
            0 <= i < r@.len() ==> (#[trigger] r@[i]).0 <= r@[i].1 < layer_map.deep_view().len(),
{
    let mut r: Vec<(u32, u32)> = Vec::new();
    let ghost all = via_names.deep_view();
    let ghost pick = via_spans(pcb.deep_view(), layer_map.deep_view());
    let mut i: usize = 0;
    proof {
        crate::collect::lemma_collect_all(all, pick);
    }
    assert(spans_view(r@) =~= seq![]);
    while i < via_names.len()
        invariant
            i <= via_names@.len(),
            layer_map.wf(),
            all == via_names.deep_view(),
            pick == via_spans(pcb.deep_view(), layer_map.deep_view()),
            spans_view(r@) == crate::collect::collect(all.take(i as int), pick),
            forall|j: int|
                0 <= j < r@.len() ==> (#[trigger] r@[j]).0 <= r@[j].1 < layer_map.deep_view().len(),
        decreases via_names@.len() - i,
    {
        proof {
            crate::collect::lemma_collect_next(all, pick, i as int);
            assert(all[i as int] == via_names@[i as int]@);
        }
        let ghost before = r@;
        if let Some(s) = via_span(pcb, &via_names[i], layer_map) {
            r.push(s);
            assert(spans_view(r@) =~= spans_view(before).push((s.0 as int, s.1 as int)));
        }
        i += 1;
    }
    r
}

/// A via joins layer `k` to the next.
pub open spec fn is_joined(spans: Seq<(int, int)>, k: int) -> bool {
    exists|i: int| 0 <= i < spans.len() && (#[trigger] spans[i]).0 <= k < spans[i].1
}

/// The steps between the first `n` layers that vias make.
pub open spec fn joined_steps(spans: Seq<(int, int)>, n: nat) -> Seq<(u32, u32)>
    decreases n,
{
    if n <= 1 {
        seq![]
    } else {
        let rest = joined_steps(spans, (n - 1) as nat);
        if is_joined(spans, n - 2) {
            rest.push(((n - 2) as u32, (n - 1) as u32))
        } else {
            rest
        }
    }
}

/// All the spans are the whole stack.
pub open spec fn all_whole(spans: Seq<(int, int)>, n: int) -> bool {
    forall|i: int| 0 <= i < spans.len() ==> #[trigger] spans[i] == (0int, n - 1)
}

/// The steps that vias may make: every step where nothing is known of the vias or all of
/// them go through the whole board, otherwise those that one of them makes.
pub open spec fn allowed_steps(spans: Seq<(int, int)>, n: nat) -> Option<Seq<(u32, u32)>> {
    if all_whole(spans, n as int) {
        None
    } else {
        Some(joined_steps(spans, n))
    }
}

/// Whether a via joins layer `k` to the next.
fn joins(spans: &Vec<(u32, u32)>, k: u32) -> (r: bool)
    ensures
        r == is_joined(spans_view(spans@), k as int),
{
    let ghost all = spans_view(spans@);
    let mut i: usize = 0;
    while i < spans.len()
        invariant
            i <= spans@.len(),
            all == spans_view(spans@),
            forall|j: int| 0 <= j < i ==> !((#[trigger] all[j]).0 <= k < all[j].1),
        decreases spans@.len() - i,
    {
        let (lo, hi) = spans[i];
        assert(all[i as int] == (lo as int, hi as int));
        if lo <= k && k < hi {
            return true;
        }
        i += 1;
    }
    false
}

/// Whether all the spans are the whole stack.
fn are_whole(spans: &Vec<(u32, u32)>, n: u32) -> (r: bool)
    requires
        n > 0,
    ensures
        r == all_whole(spans_view(spans@), n as int),
{
    let ghost all = spans_view(spans@);
    let mut i: usize = 0;
    while i < spans.len()
        invariant
            i <= spans@.len(),
            n > 0,
            all == spans_view(spans@),
            forall|j: int| 0 <= j < i ==> #[trigger] all[j] == (0int, n - 1),
        decreases spans@.len() - i,
    {
        let (lo, hi) = spans[i];
        assert(all[i as int] == (lo as int, hi as int));
        if lo != 0 || hi != n - 1 {
            return false;
        }
        i += 1;
    }
    true
}

/// Which layers the vias of a board may join, and how many different vias it declares.
pub fn parse_via_model(pcb: &Sexpr, via_names: &Vec<String>, layer_map: &LayerMap) -> (r: (
    ViaModel,
    usize,
))
    requires
        layer_map.wf(),
    ensures
        r.1 == crate::library::distinct(via_names.deep_view()).len(),
        r.0.layers == layer_map.deep_view().len(),
        r.0.step_cost == ViaModel::DEFAULT_STEP_COST,
        r.0.keepout_cells == 0,
        match r.0.allowed {
            Some(steps) => Some(steps@),
            None => None,
        } == allowed_steps(
            known_spans(pcb.deep_view(), via_names.deep_view(), layer_map.deep_view()),
            layer_map.deep_view().len(),
        ),
{
    let n: u32 = layer_map.len();
    let different: Vec<String> = distinct_names(via_names);
    assert(different.deep_view().len() == different@.len());
    let spans: Vec<(u32, u32)> = collect_spans(pcb, via_names, layer_map);
    if are_whole(&spans, n) {
        return (ViaModel::through_hole(n), different.len());
    }
    let ghost all = spans_view(spans@);
    let mut steps: Vec<(u32, u32)> = Vec::new();
    let mut k: u32 = 1;
    while k < n
        invariant
            1 <= k <= n,
            all == spans_view(spans@),
            steps@ == joined_steps(all, k as nat),
        decreases n - k,
    {
        if joins(&spans, k - 1) {
            steps.push((k - 1, k));
        }
        k += 1;
    }
    (ViaModel::with_allowed_steps(n, ViaModel::DEFAULT_STEP_COST, steps), different.len())
}

/// A step is allowed exactly where a via of the design makes it, unless all vias go
/// through the whole board or nothing is known of them.
pub proof fn law_steps_follow_vias(spans: Seq<(int, int)>, n: nat, a: u32, b: u32)
    requires
        n <= u32::MAX,
        allowed_steps(spans, n) is Some,
    ensures
        allowed_steps(spans, n)->0.contains((a, b)) <==> b == a + 1 && b < n && is_joined(
            spans,
            a as int,
        ),
{
    lemma_joined_steps(spans, n, a, b);
}

proof fn lemma_joined_steps(spans: Seq<(int, int)>, n: nat, a: u32, b: u32)
    requires
        n <= u32::MAX,
    ensures
        joined_steps(spans, n).contains((a, b)) <==> b == a + 1 && b < n && is_joined(
            spans,
            a as int,
        ),
    decreases n,
{
    if n > 1 {
        let rest = joined_steps(spans, (n - 1) as nat);
        lemma_joined_steps(spans, (n - 1) as nat, a, b);
        if is_joined(spans, n - 2) {
            let last = ((n - 2) as u32, (n - 1) as u32);
            let all = rest.push(last);
            assert(all.contains((a, b)) <==> rest.contains((a, b)) || (a, b) == last) by {
                if rest.contains((a, b)) {
                    let i = choose|i: int| 0 <= i < rest.len() && rest[i] == (a, b);
                    assert(all[i] == (a, b));
                }
                if (a, b) == last {
                    assert(all[rest.len() as int] == (a, b));
                }
            }
        }
    }
}

/// The size of a drill that the name of a via gives: the number between its last colon
/// and `_um`.
pub open spec fn drill_text(name: Seq<char>) -> Option<Seq<char>> {
    match crate::text::last_place(name, ':') {
        Some(k) => {
            let tail = name.skip(k + 1);
            let cut = tail.len() - 3;
            if cut >= 0 && tail.skip(cut) == "_um"@ {
                crate::dsn::numeric(Some(tail.take(cut)))
            } else {
                None
            }
        },
        None => None,
    }
}

/// The size of a drill in micrometres that the name of a via gives.
pub fn via_drill(name: &str) -> (r: Option<String>)
    ensures
        r.deep_view() == drill_text(name@),
{
    let s: Vec<char> = chars_of(name);
    let n: usize = s.len();
    match find_last(&s, ':') {
        None => None,
        Some(k) => {
            if n - k - 1 < 3 {
                return None;
            }
            let ghost tail = s@.skip(k + 1);
            let end: String = text_of(&s, n - 3, n);
            assert(end@ =~= tail.skip(tail.len() - 3));
            if !same_text(&end, "_um") {
                return None;
            }
            let size: String = text_of(&s, k + 1, n - 3);
            assert(size@ =~= tail.take(tail.len() - 3));
            if is_numeric(&size) {
                Some(size)
            } else {
                None
            }
        },
    }
}

} // verus!
