//! What a document says of the nets of a board and of the pins that they join.
use vstd::prelude::*;

use crate::file_laws::{are_told, begins, has_no, is_in, parts, parts_from, says};
use crate::placement::Placement;
use crate::sexpr::Tree;
use crate::structure_laws::are_alike;

verus! {

/// The places of the parts of items that the values come from: in order, and all the others
/// tell nothing.
pub open spec fn are_inner_places<A, C, B>(
    items: Seq<A>,
    inner: spec_fn(A) -> Seq<C>,
    out: Seq<B>,
    tells: spec_fn(A, C, B) -> bool,
    at: Seq<(int, int)>,
) -> bool {
    &&& at.len() == out.len()
    &&& forall|j: int|
        0 <= j < at.len() ==> {
            let (i, k) = #[trigger] at[j];
            &&& 0 <= i < items.len()
            &&& 0 <= k < inner(items[i]).len()
            &&& tells(items[i], inner(items[i])[k], out[j])
        }
    &&& forall|j: int, k: int|
        0 <= j < k < at.len() ==> (#[trigger] at[j]).0 < (#[trigger] at[k]).0 || at[j].0 == at[k].0
            && at[j].1 < at[k].1
    &&& forall|i: int, k: int, b: B|
        0 <= i < items.len() && 0 <= k < inner(items[i]).len() && #[trigger] tells(
            items[i],
            inner(items[i])[k],
            b,
        ) ==> at.contains((i, k))
}

/// The values are those that the parts of the items tell, in their order.
pub open spec fn are_told_inside<A, C, B>(
    items: Seq<A>,
    inner: spec_fn(A) -> Seq<C>,
    out: Seq<B>,
    tells: spec_fn(A, C, B) -> bool,
) -> bool {
    exists|at: Seq<(int, int)>| #[trigger] are_inner_places(items, inner, out, tells, at)
}

/// What the parts of one item tell.
pub open spec fn of<A, C, B>(tells: spec_fn(A, C, B) -> bool, a: A) -> spec_fn(C, B) -> bool {
    |c: C, b: B| tells(a, c, b)
}

/// One list after the other.
pub open spec fn flat<A, B>(items: Seq<A>, each: spec_fn(A) -> Seq<B>) -> Seq<B>
    decreases items.len(),
{
    if items.len() == 0 {
        Seq::empty()
    } else {
        flat(items.drop_last(), each) + each(items.last())
    }
}

/// What the items tell, one after the other, is what their parts tell.
pub proof fn lemma_flat<A, C, B>(
    items: Seq<A>,
    inner: spec_fn(A) -> Seq<C>,
    each: spec_fn(A) -> Seq<B>,
    tells: spec_fn(A, C, B) -> bool,
) -> (at: Seq<(int, int)>)
    requires
        forall|a: A| are_told(#[trigger] inner(a), each(a), of(tells, a)),
    ensures
        are_inner_places(items, inner, flat(items, each), tells, at),
    decreases items.len(),
{
    let out = flat(items, each);
    if items.len() == 0 {
        let at = Seq::<(int, int)>::empty();
        assert(are_inner_places(items, inner, out, tells, at));
        at
    } else {
        let front = items.drop_last();
        let n = front.len() as int;
        let a = items.last();
        let rest = flat(front, each);
        let was = lemma_flat(front, inner, each, tells);
        let new = each(a);
        assert(are_told(inner(a), new, of(tells, a)));
        let here = choose|p: Seq<int>|
            #[trigger] crate::file_laws::are_places(inner(a), new, of(tells, a), p);
        let at = was + Seq::new(here.len(), |j: int| (n, here[j]));
        assert forall|j: int| 0 <= j < at.len() implies {
            let (i, k) = #[trigger] at[j];
            &&& 0 <= i < items.len()
            &&& 0 <= k < inner(items[i]).len()
            &&& tells(items[i], inner(items[i])[k], out[j])
        } by {
            if j < was.len() {
                assert(at[j] == was[j]);
                assert(front[was[j].0] == items[was[j].0]);
                assert(out[j] == rest[j]);
            } else {
                let m = j - was.len();
                assert(at[j] == (n, here[m]));
                assert(of(tells, a)(inner(a)[here[m]], new[m]));
                assert(out[j] == new[m]);
            }
        }
        assert forall|j: int, k: int| 0 <= j < k < at.len() implies (#[trigger] at[j]).0 < (
        #[trigger] at[k]).0 || at[j].0 == at[k].0 && at[j].1 < at[k].1 by {
            if k < was.len() {
                assert(at[j] == was[j] && at[k] == was[k]);
            } else if j < was.len() {
                assert(at[j] == was[j]);
                assert(at[k] == (n, here[k - was.len()]));
            } else {
                assert(at[j] == (n, here[j - was.len()]));
                assert(at[k] == (n, here[k - was.len()]));
                assert(here[j - was.len()] < here[k - was.len()]);
            }
        }
        assert forall|i: int, k: int, b: B|
            0 <= i < items.len() && 0 <= k < inner(items[i]).len() && #[trigger] tells(
                items[i],
                inner(items[i])[k],
                b,
            ) implies at.contains((i, k)) by {
            if i < n {
                assert(front[i] == items[i]);
                assert(tells(front[i], inner(front[i])[k], b));
                assert(was.contains((i, k)));
                let j = choose|j: int| 0 <= j < was.len() && was[j] == (i, k);
                assert(at[j] == (i, k));
            } else {
                assert(of(tells, a)(inner(a)[k], b));
                assert(here.contains(k));
                let j = choose|j: int| 0 <= j < here.len() && here[j] == k;
                assert(at[was.len() + j] == (i, k));
            }
        }
        at
    }
}

/// The number at that place of a list, where there is one.
pub open spec fn is_figure_at(n: Tree, k: int, t: Option<Seq<char>>) -> bool {
    match t {
        Some(x) => says(n, k, x) && crate::number::is_number(x),
        None => forall|x: Seq<char>| #[trigger] says(n, k, x) ==> !crate::number::is_number(x),
    }
}

/// Components: `(component FOOTPRINT (place NAME X Y SIDE ROTATION) ...)`.
pub open spec fn tells_component() -> spec_fn(Tree, Tree, Placement<Seq<char>>) -> bool {
    |n: Tree, m: Tree, p: Placement<Seq<char>>|
        {
            &&& begins(n, "component"@)
            &&& says(n, 1, p.image_id)
            &&& begins(m, "place"@)
            &&& says(m, 1, p.reference)
            &&& is_figure_at(m, 2, Some(p.x))
            &&& is_figure_at(m, 3, Some(p.y))
            &&& p.back <==> exists|side: Seq<char>| #[trigger]
                says(m, 4, side) && are_alike(side, "back"@)
            &&& is_figure_at(m, 5, p.rot)
        }
}

/// The nodes of lists.
pub open spec fn nodes() -> spec_fn(Tree) -> Seq<Tree> {
    |n: Tree| parts(n)
}

spec fn component_places() -> spec_fn(Tree) -> Seq<Placement<Seq<char>>> {
    |n: Tree|
        if begins(n, "component"@) {
            crate::placement::places_of(n)
        } else {
            Seq::empty()
        }
}

proof fn lemma_figure_at(n: Tree, k: int, t: Option<Seq<char>>)
    ensures
        is_figure_at(n, k, t) <==> crate::dsn::numeric(crate::sexpr::word(n, k)) == t,
{
    if let Some(x) = crate::sexpr::word(n, k) {
        crate::file_laws::lemma_says(n, k, x);
    }
    assert forall|x: Seq<char>| #[trigger] says(n, k, x) <==> crate::sexpr::word(n, k) == Some(
        x,
    ) by {
        crate::file_laws::lemma_says(n, k, x);
    }
}

proof fn lemma_place(n: Tree, m: Tree, p: Placement<Seq<char>>)
    requires
        begins(n, "component"@),
        crate::sexpr::word(n, 1) is Some,
    ensures
        tells_component()(n, m, p) <==> begins(m, "place"@) && crate::placement::places(
            crate::sexpr::word(n, 1)->0,
        )(m) == Some(p),
{
    crate::file_laws::lemma_says(n, 1, p.image_id);
    crate::file_laws::lemma_says(m, 1, p.reference);
    lemma_figure_at(m, 2, Some(p.x));
    lemma_figure_at(m, 3, Some(p.y));
    lemma_figure_at(m, 5, p.rot);
    let found = exists|side: Seq<char>| #[trigger] says(m, 4, side) && are_alike(side, "back"@);
    match crate::sexpr::word(m, 4) {
        Some(side) => {
            crate::file_laws::lemma_says(m, 4, side);
            crate::structure_laws::law_case_is_ignored(side, "back"@);
            if found {
                let s = choose|s: Seq<char>| #[trigger]
                    says(m, 4, s) && are_alike(s, "back"@);
                crate::file_laws::lemma_says(m, 4, s);
            }
        },
        None => {
            if found {
                let s = choose|s: Seq<char>| #[trigger]
                    says(m, 4, s) && are_alike(s, "back"@);
                crate::file_laws::lemma_says(m, 4, s);
            }
        },
    }
}

proof fn lemma_component(n: Tree)
    ensures
        are_told(nodes()(n), component_places()(n), of(tells_component(), n)),
{
    let tells = of(tells_component(), n);
    if begins(n, "component"@) {
        match crate::sexpr::word(n, 1) {
            Some(id) => {
                let pick = crate::placement::places(id);
                assert forall|m: Tree, p: Placement<Seq<char>>| #[trigger]
                    tells(m, p) <==> begins(m, "place"@) && pick(m) == Some(p) by {
                    lemma_place(n, m, p);
                }
                crate::file_laws::lemma_children_tell(n, "place"@, pick, tells);
            },
            None => {
                lemma_silent(n, tells);
            },
        }
    } else {
        lemma_silent(n, tells);
    }
}

proof fn lemma_silent(n: Tree, tells: spec_fn(Tree, Placement<Seq<char>>) -> bool)
    requires
        tells == of(tells_component(), n),
        !begins(n, "component"@) || crate::sexpr::word(n, 1) is None,
    ensures
        are_told(parts(n), Seq::<Placement<Seq<char>>>::empty(), tells),
{
    assert forall|m: Tree, p: Placement<Seq<char>>| !(#[trigger] tells(m, p)) by {
        crate::file_laws::lemma_says(n, 1, p.image_id);
    }
    assert(crate::file_laws::are_places(
        parts(n),
        Seq::<Placement<Seq<char>>>::empty(),
        tells,
        Seq::<int>::empty(),
    ));
}

proof fn lemma_all_places(items: Seq<Tree>)
    ensures
        crate::placement::all_places(
            crate::collect::collect(items, crate::sexpr::named("component"@)),
        ) == flat(items, component_places()),
    decreases items.len(),
{
    if items.len() > 0 {
        let name = "component"@;
        lemma_all_places(items.drop_last());
        crate::file_laws::lemma_begins(items.last(), name);
        let rest = crate::collect::collect(items.drop_last(), crate::sexpr::named(name));
        let all = crate::collect::collect(items, crate::sexpr::named(name));
        let before = flat(items.drop_last(), component_places());
        if begins(items.last(), name) {
            assert(all == rest.push(items.last()));
            assert(all.drop_last() =~= rest);
        } else {
            assert(all == rest);
            assert(before + Seq::<Placement<Seq<char>>>::empty() =~= before);
        }
    }
}

/// The components of a board are all that are placed, with their footprints, places, sides
/// and rotations, in the order of the document.
pub proof fn law_components_are_read(pcb: Tree, p: Tree)
    ensures
        has_no(pcb, "placement"@) ==> crate::placement::placements(pcb).len() == 0,
        is_in(pcb, "placement"@, p) ==> are_told_inside(
            parts(p),
            nodes(),
            crate::placement::placements(pcb),
            tells_component(),
        ),
{
    crate::file_laws::law_lists_are_found_by_name(pcb, "placement"@);
    if is_in(pcb, "placement"@, p) {
        assert forall|a: Tree| are_told(
            #[trigger] nodes()(a),
            component_places()(a),
            of(tells_component(), a),
        ) by {
            lemma_component(a);
        }
        let at = lemma_flat(parts(p), nodes(), component_places(), tells_component());
        lemma_all_places(parts(p));
        assert(are_inner_places(
            parts(p),
            nodes(),
            crate::placement::placements(pcb),
            tells_component(),
            at,
        ));
    }
}

/// The text is one, a dash, and the other.
pub open spec fn is_dashed(t: Seq<char>, a: Seq<char>, b: Seq<char>) -> bool {
    &&& t.len() == a.len() + 1 + b.len()
    &&& forall|i: int| 0 <= i < a.len() ==> #[trigger] t[i] == a[i]
    &&& t[a.len() as int] == '-'
    &&& forall|i: int| 0 <= i < b.len() ==> t[a.len() + 1 + i] == #[trigger] b[i]
}

/// Pins: a component and, behind the last dash, a pin of it.
pub open spec fn tells_pin_of() -> spec_fn(Tree, (Seq<char>, Seq<char>)) -> bool {
    |n: Tree, p: (Seq<char>, Seq<char>)|
        {
            &&& n matches Tree::Atom(t) && is_dashed(t, p.0, p.1)
            &&& p.0.len() > 0
            &&& p.1.len() > 0
            &&& !p.1.contains('-')
        }
}

/// A word names a pin by what is before and behind its last dash, where both are something.
pub proof fn law_pin_is_behind_last_dash(t: Seq<char>, a: Seq<char>, b: Seq<char>)
    ensures
        crate::dsn::ref_pin(t) == Some((a, b)) <==> is_dashed(t, a, b) && a.len() > 0 && b.len()
            > 0 && !b.contains('-'),
{
    let found = exists|k: int| crate::text::is_last(t, '-', k);
    if is_dashed(t, a, b) && !b.contains('-') {
        let k = a.len() as int;
        assert forall|j: int| k < j < t.len() implies #[trigger] t[j] != '-' by {
            assert(t[a.len() + 1 + (j - k - 1)] == b[j - k - 1]);
            assert(b.contains(b[j - k - 1]));
        }
        assert(crate::text::is_last(t, '-', k));
        let m = choose|m: int| crate::text::is_last(t, '-', m);
        assert(crate::text::is_last(t, '-', m));
        assert(t[k] == '-' && t[m] == '-');
        assert(m == k);
        assert(t.take(k) =~= a);
        assert(t.skip(k + 1) =~= b) by {
            assert forall|i: int| 0 <= i < b.len() implies t.skip(k + 1)[i] == b[i] by {
                assert(t[a.len() + 1 + i] == b[i]);
            }
        }
    }
    if crate::dsn::ref_pin(t) == Some((a, b)) {
        let k = choose|k: int| crate::text::is_last(t, '-', k);
        assert(crate::text::is_last(t, '-', k));
        assert(a == t.take(k) && b == t.skip(k + 1));
        if b.contains('-') {
            let i = choose|i: int| 0 <= i < b.len() && b[i] == '-';
            assert(t[k + 1 + i] == '-');
        }
        assert(is_dashed(t, a, b));
    }
}

/// Nets: a name, and the pins that it joins.
pub open spec fn tells_net() -> spec_fn(Tree, (Seq<char>, Seq<(Seq<char>, Seq<char>)>)) -> bool {
    |n: Tree, x: (Seq<char>, Seq<(Seq<char>, Seq<char>)>)|
        {
            &&& begins(n, "net"@)
            &&& says(n, 1, x.0)
            &&& has_no(n, "pins"@) ==> x.1.len() == 0
            &&& forall|p: Tree| #[trigger]
                is_in(n, "pins"@, p) ==> are_told(parts_from(p, 1), x.1, tells_pin_of())
        }
}

proof fn lemma_pins(p: Tree)
    ensures
        are_told(
            parts_from(p, 1),
            crate::collect::collect(crate::dsn::nodes_after(p, 1), crate::placement::ref_pins()),
            tells_pin_of(),
        ),
{
    assert(parts_from(p, 1) =~= crate::dsn::nodes_after(p, 1));
    assert forall|n: Tree, x: (Seq<char>, Seq<char>)| #[trigger]
        tells_pin_of()(n, x) <==> crate::placement::ref_pins()(n) == Some(x) by {
        if let Tree::Atom(t) = n {
            law_pin_is_behind_last_dash(t, x.0, x.1);
        }
    }
    crate::file_laws::lemma_told(parts_from(p, 1), crate::placement::ref_pins(), tells_pin_of());
}

proof fn lemma_net(n: Tree, x: (Seq<char>, Seq<(Seq<char>, Seq<char>)>))
    ensures
        tells_net()(n, x) <==> begins(n, "net"@) && crate::placement::named_nets()(n) == Some(x),
{
    crate::file_laws::lemma_says(n, 1, x.0);
    crate::file_laws::law_lists_are_found_by_name(n, "pins"@);
    match crate::sexpr::child(n, "pins"@) {
        Some(p) => {
            lemma_pins(p);
            assert(is_in(n, "pins"@, p));
            if tells_net()(n, x) {
                assert forall|a: Tree, u: (Seq<char>, Seq<char>), v: (Seq<char>, Seq<char>)|
                    #[trigger]
                    tells_pin_of()(a, u) && #[trigger] tells_pin_of()(a, v) implies u == v by {
                    let t = a->Atom_0;
                    law_pin_is_behind_last_dash(t, u.0, u.1);
                    law_pin_is_behind_last_dash(t, v.0, v.1);
                }
                crate::file_laws::lemma_one_telling(
                    parts_from(p, 1),
                    x.1,
                    crate::placement::pins_of(n),
                    tells_pin_of(),
                );
            }
        },
        None => {
            assert(x.1.len() == 0 ==> x.1 =~= Seq::empty());
        },
    }
}

/// The nets of a board are all those of its network that have a name, each with all the pins
/// that it names.
pub proof fn law_nets_are_read(pcb: Tree, network: Tree)
    ensures
        has_no(pcb, "network"@) ==> crate::placement::nets(pcb).len() == 0,
        is_in(pcb, "network"@, network) ==> are_told(
            parts(network),
            crate::placement::nets(pcb),
            tells_net(),
        ),
{
    crate::file_laws::law_lists_are_found_by_name(pcb, "network"@);
    assert forall|n: Tree, x: (Seq<char>, Seq<(Seq<char>, Seq<char>)>)| #[trigger]
        tells_net()(n, x) <==> begins(n, "net"@) && crate::placement::named_nets()(n) == Some(
        x,
    ) by {
        lemma_net(n, x);
    }
    crate::file_laws::lemma_children_tell(
        network,
        "net"@,
        crate::placement::named_nets(),
        tells_net(),
    );
}

/// The pins of nets.
pub open spec fn joined() -> spec_fn((Seq<char>, Seq<(Seq<char>, Seq<char>)>)) -> Seq<
    (Seq<char>, Seq<char>),
> {
    |net: (Seq<char>, Seq<(Seq<char>, Seq<char>)>)| net.1
}

/// What pins are called, with their nets.
pub open spec fn tells_label() -> spec_fn(
    (Seq<char>, Seq<(Seq<char>, Seq<char>)>),
    (Seq<char>, Seq<char>),
    (Seq<char>, Seq<char>),
) -> bool {
    |net: (Seq<char>, Seq<(Seq<char>, Seq<char>)>), p: (Seq<char>, Seq<char>), l: (
        Seq<char>,
        Seq<char>,
    )| is_dashed(l.0, p.0, p.1) && l.1 == net.0
}

spec fn labels() -> spec_fn((Seq<char>, Seq<(Seq<char>, Seq<char>)>)) -> Seq<
    (Seq<char>, Seq<char>),
> {
    |net: (Seq<char>, Seq<(Seq<char>, Seq<char>)>)| crate::ingest::labels_of(net)
}

proof fn lemma_label(a: Seq<char>, b: Seq<char>, t: Seq<char>)
    ensures
        is_dashed(t, a, b) <==> t == crate::design::label(a, b),
{
    reveal_strlit("-");
    assert("-"@.len() == 1 && "-"@[0] == '-');
    let l = crate::design::label(a, b);
    assert forall|i: int| 0 <= i < a.len() implies #[trigger] l[i] == a[i] by {}
    assert(l[a.len() as int] == '-');
    assert forall|i: int| 0 <= i < b.len() implies l[a.len() + 1 + i] == #[trigger] b[i] by {}
    assert(is_dashed(l, a, b));
    if is_dashed(t, a, b) {
        assert forall|i: int| 0 <= i < t.len() implies t[i] == l[i] by {
            if i > a.len() {
                assert(t[a.len() + 1 + (i - a.len() - 1)] == b[i - a.len() - 1]);
                assert(l[a.len() + 1 + (i - a.len() - 1)] == b[i - a.len() - 1]);
            } else if i < a.len() {
                assert(t[i] == a[i] && l[i] == a[i]);
            }
        }
        assert(t =~= l);
    }
}

proof fn lemma_pin_labels(nets: Seq<(Seq<char>, Seq<(Seq<char>, Seq<char>)>)>)
    ensures
        crate::ingest::pin_labels(nets) == flat(nets, labels()),
    decreases nets.len(),
{
    if nets.len() > 0 {
        lemma_pin_labels(nets.drop_last());
    }
}

/// Every pin of every net is listed under its name, with the net.
pub proof fn law_pins_are_labelled(nets: Seq<(Seq<char>, Seq<(Seq<char>, Seq<char>)>)>)
    ensures
        are_told_inside(nets, joined(), crate::ingest::pin_labels(nets), tells_label()),
{
    assert forall|net: (Seq<char>, Seq<(Seq<char>, Seq<char>)>)| are_told(
        #[trigger] joined()(net),
        labels()(net),
        of(tells_label(), net),
    ) by {
        let out = crate::ingest::labels_of(net);
        let at = Seq::new(out.len(), |j: int| j);
        let tells = of(tells_label(), net);
        assert forall|j: int| 0 <= j < at.len() implies 0 <= #[trigger] at[j] < net.1.len()
            && tells(net.1[at[j]], out[j]) by {
            lemma_label(net.1[j].0, net.1[j].1, out[j].0);
        }
        assert forall|i: int, b: (Seq<char>, Seq<char>)|
            0 <= i < net.1.len() && #[trigger] tells(net.1[i], b) implies at.contains(i) by {
            assert(at[i] == i);
        }
        assert(crate::file_laws::are_places(net.1, out, tells, at));
    }
    let at = lemma_flat(nets, joined(), labels(), tells_label());
    lemma_pin_labels(nets);
    assert(are_inner_places(nets, joined(), crate::ingest::pin_labels(nets), tells_label(), at));
}

/// The last of the labels with that name.
pub open spec fn is_last_label(l: Seq<(Seq<char>, Seq<char>)>, name: Seq<char>, k: int) -> bool {
    &&& 0 <= k < l.len()
    &&& l[k].0 == name
    &&& forall|j: int| k < j < l.len() ==> (#[trigger] l[j]).0 != name
}

/// The net of a pin is the last that names it; a pin that none names has none.
pub proof fn law_last_net_counts(l: Seq<(Seq<char>, Seq<char>)>, name: Seq<char>, k: int)
    ensures
        is_last_label(l, name, k) ==> crate::ingest::net_of_label(l, name) == Some(l[k].1),
        (forall|j: int| 0 <= j < l.len() ==> (#[trigger] l[j]).0 != name)
            ==> crate::ingest::net_of_label(l, name) is None,
    decreases l.len(),
{
    if l.len() > 0 {
        let front = l.drop_last();
        law_last_net_counts(front, name, k);
        if l.last().0 == name {
            assert(l[l.len() - 1].0 == name);
        } else {
            assert(is_last_label(l, name, k) ==> is_last_label(front, name, k));
            assert forall|j: int| 0 <= j < front.len() && (forall|i: int|
                0 <= i < l.len() ==> (#[trigger] l[i]).0 != name) implies (#[trigger] front[j]).0
                != name by {
                assert(front[j] == l[j]);
            }
        }
    }
}

} // verus!
