//! What the parts and the nets of a document make of a board: its pins, what is joined, and
//! what its vias are.
use vstd::prelude::*;

use crate::design::{BoardPin, PinSpot};
use crate::file_laws::are_told;
use crate::library::{Footprint, ImagePin, Stack};
use crate::net_laws::{are_inner_places, are_told_inside};
use crate::parts_laws::{is_last_image, is_last_stack};
use crate::placement::Placement;
use crate::sexpr::Tree;
use crate::structure_laws::are_alike;

verus! {

/// Places of pins, each by its component and its name: the first such pin.
pub open spec fn tells_pin_place(pins: Seq<BoardPin>) -> spec_fn(
    (Seq<char>, Seq<char>),
    usize,
) -> bool {
    |who: (Seq<char>, Seq<char>), i: usize|
        {
            &&& i < pins.len()
            &&& pins[i as int].at.reference == who.0
            &&& pins[i as int].pin.id == who.1
            &&& forall|j: int|
                0 <= j < i ==> (#[trigger] pins[j]).at.reference != who.0 || pins[j].pin.id != who.1
        }
}

/// Connections: a net that names two pins of the board or more, with those pins.
pub open spec fn tells_connection(pins: Seq<BoardPin>) -> spec_fn(
    (Seq<char>, Seq<(Seq<char>, Seq<char>)>),
    (Seq<char>, Seq<usize>),
) -> bool {
    |net: (Seq<char>, Seq<(Seq<char>, Seq<char>)>), c: (Seq<char>, Seq<usize>)|
        {
            &&& c.0 == net.0
            &&& c.1.len() >= 2
            &&& are_told(net.1, c.1, tells_pin_place(pins))
        }
}

proof fn lemma_pin_place(pins: Seq<BoardPin>, who: (Seq<char>, Seq<char>), i: usize)
    ensures
        tells_pin_place(pins)(who, i) <==> crate::ingest::pin_places(pins)(who) == Some(i),
{
    if tells_pin_place(pins)(who, i) {
        assert(crate::ingest::is_pin(pins, who, i as int));
        let k = choose|k: usize| crate::ingest::is_pin(pins, who, k as int);
        assert(crate::ingest::is_pin(pins, who, k as int));
        if k < i {
            assert((pins[k as int].at.reference, pins[k as int].pin.id) == who);
        }
        if i < k {
            assert((pins[i as int].at.reference, pins[i as int].pin.id) != who);
        }
    }
    if crate::ingest::pin_places(pins)(who) == Some(i) {
        assert(crate::ingest::is_pin(pins, who, i as int));
        assert((pins[i as int].at.reference, pins[i as int].pin.id) == who);
        assert forall|j: int| 0 <= j < i implies (#[trigger] pins[j]).at.reference != who.0
            || pins[j].pin.id != who.1 by {
            assert((pins[j].at.reference, pins[j].pin.id) != who);
        }
    }
}

/// The connections of a board are all nets that name two of its pins or more, each with every
/// pin that it names and the board has.
pub proof fn law_nets_are_joined(
    nets: Seq<(Seq<char>, Seq<(Seq<char>, Seq<char>)>)>,
    pins: Seq<BoardPin>,
)
    ensures
        are_told(
            nets,
            crate::collect::collect(nets, crate::ingest::joined_nets(pins)),
            tells_connection(pins),
        ),
{
    let pick = crate::ingest::pin_places(pins);
    let tells = tells_pin_place(pins);
    assert forall|who: (Seq<char>, Seq<char>), i: usize| #[trigger] tells(who, i) <==> pick(who)
        == Some(i) by {
        lemma_pin_place(pins, who, i);
    }
    assert forall|net: (Seq<char>, Seq<(Seq<char>, Seq<char>)>), c: (Seq<char>, Seq<usize>)|
        #[trigger]
        tells_connection(pins)(net, c) <==> crate::ingest::joined_nets(pins)(net) == Some(c) by {
        crate::file_laws::lemma_told(net.1, pick, tells);
        let points = crate::collect::collect(net.1, pick);
        if tells_connection(pins)(net, c) {
            assert forall|a: (Seq<char>, Seq<char>), x: usize, y: usize| #[trigger]
                tells(a, x) && #[trigger] tells(a, y) implies x == y by {}
            crate::file_laws::lemma_one_telling(net.1, c.1, points, tells);
        }
    }
    crate::file_laws::lemma_told(
        nets,
        crate::ingest::joined_nets(pins),
        tells_connection(pins),
    );
}

/// The pins of the footprint of that name.
pub open spec fn pins_in(images: Seq<Footprint>, id: Seq<char>) -> Seq<ImagePin<Seq<char>>> {
    if exists|k: int| #[trigger] is_last_image(images, id, k) {
        images[choose|k: int| #[trigger] is_last_image(images, id, k)].pins
    } else {
        Seq::empty()
    }
}

/// The pins of the footprints of components.
pub open spec fn footprint_pins(images: Seq<Footprint>) -> spec_fn(Placement<Seq<char>>) -> Seq<
    ImagePin<Seq<char>>,
> {
    |p: Placement<Seq<char>>| pins_in(images, p.image_id)
}

/// Pins of components.
pub open spec fn tells_spot() -> spec_fn(
    Placement<Seq<char>>,
    ImagePin<Seq<char>>,
    PinSpot,
) -> bool {
    |p: Placement<Seq<char>>, pin: ImagePin<Seq<char>>, x: PinSpot| x == (p, pin)
}

/// The last of the pins that is called so.
pub open spec fn is_latest(all: Seq<PinSpot>, j: int) -> bool {
    &&& 0 <= j < all.len()
    &&& forall|k: int|
        j < k < all.len() ==> (#[trigger] all[k]).0.reference != all[j].0.reference || all[k].1.id
            != all[j].1.id
}

spec fn spots_at(images: Seq<Footprint>) -> spec_fn(Placement<Seq<char>>) -> Seq<PinSpot> {
    |p: Placement<Seq<char>>| crate::design::pins_at(p, images)
}

proof fn lemma_some_last(images: Seq<Footprint>, id: Seq<char>, n: int)
    requires
        0 <= n <= images.len(),
        forall|j: int| n <= j < images.len() ==> (#[trigger] images[j]).id != id,
    ensures
        (exists|k: int| #[trigger] is_last_image(images, id, k)) || forall|j: int|
            0 <= j < images.len() ==> (#[trigger] images[j]).id != id,
    decreases n,
{
    if n > 0 {
        if images[n - 1].id == id {
            assert(is_last_image(images, id, n - 1));
        } else {
            lemma_some_last(images, id, n - 1);
        }
    }
}

proof fn lemma_pins_at(images: Seq<Footprint>, p: Placement<Seq<char>>)
    ensures
        are_told(
            footprint_pins(images)(p),
            spots_at(images)(p),
            crate::net_laws::of(tells_spot(), p),
        ),
{
    let id = p.image_id;
    let pins = pins_in(images, id);
    let out = crate::design::pins_at(p, images);
    let tells = crate::net_laws::of(tells_spot(), p);
    lemma_some_last(images, id, images.len() as int);
    if exists|k: int| #[trigger] is_last_image(images, id, k) {
        let k = choose|k: int| #[trigger] is_last_image(images, id, k);
        crate::parts_laws::law_last_of_a_name_counts(Seq::empty(), images, id, k);
    } else {
        crate::parts_laws::law_last_of_a_name_counts(Seq::empty(), images, id, 0);
    }
    assert(out.len() == pins.len());
    let at = Seq::new(out.len(), |j: int| j);
    assert forall|j: int| 0 <= j < at.len() implies 0 <= #[trigger] at[j] < pins.len() && tells(
        pins[at[j]],
        out[j],
    ) by {
        assert(out[j] == (p, pins[j]));
    }
    assert forall|i: int, b: PinSpot|
        0 <= i < pins.len() && #[trigger] tells(pins[i], b) implies at.contains(i) by {
        assert(at[i] == i);
    }
    assert(crate::file_laws::are_places(pins, out, tells, at));
}

proof fn lemma_put_has(s: Seq<PinSpot>, x: PinSpot, y: PinSpot)
    requires
        crate::design::all_different(s),
    ensures
        crate::design::put(s, x).contains(y) <==> y == x || s.contains(y)
            && !crate::design::same_pin(y, x),
{
    let r = crate::design::put(s, x);
    if exists|i: int| crate::design::is_spot(s, x, i) {
        let i = choose|i: int| crate::design::is_spot(s, x, i);
        assert(r[i] == x);
        if r.contains(y) && y != x {
            let j = choose|j: int| 0 <= j < r.len() && r[j] == y;
            assert(s[j] == y);
            assert(!crate::design::same_pin(s[i], s[j]));
        }
        if s.contains(y) && !crate::design::same_pin(y, x) {
            let j = choose|j: int| 0 <= j < s.len() && s[j] == y;
            assert(r[j] == y);
        }
    } else {
        assert(r[s.len() as int] == x);
        if r.contains(y) && y != x {
            let j = choose|j: int| 0 <= j < r.len() && r[j] == y;
            assert(s[j] == y);
            if crate::design::same_pin(y, x) {
                crate::design::lemma_spot(s, x, j);
            }
        }
        if s.contains(y) {
            let j = choose|j: int| 0 <= j < s.len() && s[j] == y;
            assert(r[j] == y);
        }
    }
}

proof fn lemma_put_all_has(s: Seq<PinSpot>, more: Seq<PinSpot>, y: PinSpot)
    requires
        crate::design::all_different(s),
    ensures
        crate::design::put_all(s, more).contains(y) <==> (exists|j: int|
            #[trigger] is_latest(more, j) && more[j] == y) || s.contains(y) && forall|k: int|
            0 <= k < more.len() ==> !crate::design::same_pin(y, #[trigger] more[k]),
        crate::design::all_different(crate::design::put_all(s, more)),
    decreases more.len(),
{
    if more.len() > 0 {
        let front = more.drop_last();
        let n = front.len() as int;
        let x = more.last();
        let before = crate::design::put_all(s, front);
        lemma_put_all_has(s, front, y);
        lemma_put_has(before, x, y);
        crate::design::lemma_put_different(before, x);
        assert(is_latest(more, n));
        assert forall|j: int| 0 <= j < n implies (#[trigger] is_latest(more, j) <==> is_latest(
            front,
            j,
        ) && !crate::design::same_pin(more[j], x)) by {
            assert(front[j] == more[j]);
            if is_latest(more, j) {
                assert forall|k: int| j < k < front.len() implies (
                #[trigger] front[k]).0.reference != front[j].0.reference || front[k].1.id
                    != front[j].1.id by {
                    assert(front[k] == more[k]);
                }
                assert(more[n] == x);
            }
            if is_latest(front, j) && !crate::design::same_pin(more[j], x) {
                assert forall|k: int| j < k < more.len() implies (
                #[trigger] more[k]).0.reference != more[j].0.reference || more[k].1.id
                    != more[j].1.id by {
                    if k < n {
                        assert(front[k] == more[k]);
                    }
                }
            }
        }
        let (a, b) = (
            exists|j: int| #[trigger] is_latest(more, j) && more[j] == y,
            exists|j: int| #[trigger] is_latest(front, j) && front[j] == y,
        );
        assert(a <==> y == x || b && !crate::design::same_pin(y, x)) by {
            if a {
                let j = choose|j: int| #[trigger] is_latest(more, j) && more[j] == y;
                if j < n {
                    assert(is_latest(front, j) && front[j] == y);
                }
            }
            if b && !crate::design::same_pin(y, x) {
                let j = choose|j: int| #[trigger] is_latest(front, j) && front[j] == y;
                assert(is_latest(more, j) && more[j] == y);
            }
            if y == x {
                assert(more[n] == y);
            }
        }
        let (c, d) = (
            forall|k: int|
                0 <= k < more.len() ==> !crate::design::same_pin(y, #[trigger] more[k]),
            forall|k: int|
                0 <= k < front.len() ==> !crate::design::same_pin(y, #[trigger] front[k]),
        );
        assert(c <==> d && !crate::design::same_pin(y, x)) by {
            if c {
                assert(more[n] == x);
                assert forall|k: int| 0 <= k < front.len() implies !crate::design::same_pin(
                    y,
                    #[trigger] front[k],
                ) by {
                    assert(front[k] == more[k]);
                }
            }
            if d && !crate::design::same_pin(y, x) {
                assert forall|k: int| 0 <= k < more.len() implies !crate::design::same_pin(
                    y,
                    #[trigger] more[k],
                ) by {
                    if k < n {
                        assert(front[k] == more[k]);
                    }
                }
            }
        }
    } else {
        assert(crate::design::put_all(s, more) == s);
        assert forall|j: int| !(#[trigger] is_latest(more, j)) by {}
    }
}

proof fn lemma_put_all_more(s: Seq<PinSpot>, a: Seq<PinSpot>, b: Seq<PinSpot>)
    ensures
        crate::design::put_all(crate::design::put_all(s, a), b) == crate::design::put_all(s, a + b),
    decreases b.len(),
{
    if b.len() > 0 {
        lemma_put_all_more(s, a, b.drop_last());
        assert((a + b).drop_last() =~= a + b.drop_last());
        assert((a + b).last() == b.last());
    } else {
        assert(a + b =~= a);
    }
}

proof fn lemma_spots(places: Seq<Placement<Seq<char>>>, images: Seq<Footprint>)
    ensures
        crate::design::spots(places, images) == crate::design::put_all(
            Seq::empty(),
            crate::net_laws::flat(places, spots_at(images)),
        ),
    decreases places.len(),
{
    if places.len() > 0 {
        lemma_spots(places.drop_last(), images);
        lemma_put_all_more(
            Seq::empty(),
            crate::net_laws::flat(places.drop_last(), spots_at(images)),
            crate::design::pins_at(places.last(), images),
        );
    }
}

/// Every pin of the footprint of every component is on the board; of two that are called
/// alike the later, and nothing else.
pub proof fn law_every_pin_is_placed(
    places: Seq<Placement<Seq<char>>>,
    images: Seq<Footprint>,
) -> (all: Seq<PinSpot>)
    ensures
        are_told_inside(places, footprint_pins(images), all, tells_spot()),
        forall|y: PinSpot| #[trigger]
            crate::design::spots(places, images).contains(y) <==> exists|j: int| #[trigger]
                is_latest(all, j) && all[j] == y,
{
    assert forall|p: Placement<Seq<char>>| are_told(
        #[trigger] footprint_pins(images)(p),
        spots_at(images)(p),
        crate::net_laws::of(tells_spot(), p),
    ) by {
        lemma_pins_at(images, p);
    }
    let all = crate::net_laws::flat(places, spots_at(images));
    let at = crate::net_laws::lemma_flat(
        places,
        footprint_pins(images),
        spots_at(images),
        tells_spot(),
    );
    assert(are_inner_places(places, footprint_pins(images), all, tells_spot(), at));
    lemma_spots(places, images);
    assert forall|y: PinSpot| #[trigger]
        crate::design::spots(places, images).contains(y) <==> exists|j: int| #[trigger]
            is_latest(all, j) && all[j] == y by {
        lemma_put_all_has(Seq::empty(), all, y);
    }
    all
}

/// The pins of a board are all the pins that were placed, each once.
pub proof fn law_every_pin_is_kept(pcb: Tree, names: Seq<Seq<char>>)
    requires
        crate::design::spots(
            crate::placement::placements(pcb),
            crate::library::library_images(pcb),
        ).len() <= usize::MAX,
    ensures
        ({
            let loose = crate::design::spots(
                crate::placement::placements(pcb),
                crate::library::library_images(pcb),
            );
            let r = crate::design::board_pins(pcb, names);
            &&& r.len() == loose.len()
            &&& forall|i: int|
                0 <= i < r.len() ==> loose.contains(((#[trigger] r[i]).at, r[i].pin))
            &&& forall|y: PinSpot| #[trigger]
                loose.contains(y) ==> exists|i: int|
                    0 <= i < r.len() && (#[trigger] r[i]).at == y.0 && r[i].pin == y.1
        }),
{
    let loose = crate::design::spots(
        crate::placement::placements(pcb),
        crate::library::library_images(pcb),
    );
    let keys = crate::design::label_keys(loose);
    let order = crate::sorting::order_of(keys);
    let r = crate::design::board_pins(pcb, names);
    crate::sorting::law_an_order_exists(keys);
    assert forall|i: int| 0 <= i < r.len() implies loose.contains(
        ((#[trigger] r[i]).at, r[i].pin),
    ) by {
        assert(order[i] < keys.len());
        assert(loose[order[i] as int] == (r[i].at, r[i].pin));
    }
    assert forall|y: PinSpot| #[trigger] loose.contains(y) implies exists|i: int|
        0 <= i < r.len() && (#[trigger] r[i]).at == y.0 && r[i].pin == y.1 by {
        let k = choose|k: int| 0 <= k < loose.len() && loose[k] == y;
        assert(order.contains(k as usize));
        let i = choose|i: int| 0 <= i < order.len() && order[i] == k as usize;
        assert(r[i].at == y.0 && r[i].pin == y.1);
    }
}

/// The layer of a pad stands for all layers.
pub open spec fn means_all(layer: Seq<char>) -> bool {
    ||| are_alike(layer, "signal"@)
    ||| are_alike(layer, "*"@)
    ||| are_alike(layer, "all"@)
    ||| are_alike(layer, "@1"@)
    ||| layer.len() == 0
}

/// Words that hold no capital are the same where all letters are made small.
pub proof fn lemma_small()
    ensures
        crate::text::lowered("signal"@) == "signal"@,
        crate::text::lowered("*"@) == "*"@,
        crate::text::lowered("all"@) == "all"@,
        crate::text::lowered("@1"@) == "@1"@,
{
    reveal_strlit("signal");
    reveal_strlit("*");
    reveal_strlit("all");
    reveal_strlit("@1");
    assert(crate::text::lowered("signal"@) =~= "signal"@);
    assert(crate::text::lowered("*"@) =~= "*"@);
    assert(crate::text::lowered("all"@) =~= "all"@);
    assert(crate::text::lowered("@1"@) =~= "@1"@);
}

proof fn lemma_means_all(layer: Seq<char>)
    ensures
        means_all(layer) <==> crate::layers::is_wildcard(layer),
{
    lemma_small();
    crate::structure_laws::law_case_is_ignored(layer, "signal"@);
    crate::structure_laws::law_case_is_ignored(layer, "*"@);
    crate::structure_laws::law_case_is_ignored(layer, "all"@);
    crate::structure_laws::law_case_is_ignored(layer, "@1"@);
    assert(crate::text::lowered(layer).len() == layer.len());
}

/// The layers of the board that the pad declares, from the top down, each name once.
pub open spec fn are_declared(
    declared: Seq<Seq<char>>,
    names: Seq<Seq<char>>,
    out: Seq<Seq<char>>,
    at: Seq<int>,
) -> bool {
    &&& at.len() == out.len()
    &&& forall|j: int|
        0 <= j < at.len() ==> crate::parts_laws::is_new(names, #[trigger] at[j]) && names[at[j]]
            == out[j] && declared.contains(out[j])
    &&& forall|j: int, k: int| 0 <= j < k < at.len() ==> #[trigger] at[j] < #[trigger] at[k]
    &&& forall|i: int| #[trigger]
        crate::parts_laws::is_new(names, i) && declared.contains(names[i]) ==> at.contains(i)
}

proof fn lemma_declared(declared: Seq<Seq<char>>, names: Seq<Seq<char>>, n: nat) -> (at: Seq<int>)
    requires
        n <= names.len(),
    ensures
        ({
            let out = crate::layers::declared_among(declared, names, n);
            &&& at.len() == out.len()
            &&& forall|j: int|
                0 <= j < at.len() ==> crate::parts_laws::is_new(names, #[trigger] at[j])
                    && names[at[j]] == out[j] && declared.contains(out[j]) && at[j] < n
            &&& forall|j: int, k: int| 0 <= j < k < at.len() ==> #[trigger] at[j] < #[trigger] at[k]
            &&& forall|i: int| #[trigger]
                crate::parts_laws::is_new(names, i) && i < n && declared.contains(names[i])
                    ==> at.contains(i)
        }),
    decreases n,
{
    if n == 0 {
        Seq::empty()
    } else {
        let was = lemma_declared(declared, names, (n - 1) as nat);
        let i = n - 1;
        assert(crate::parts_laws::is_new(names, i) <==> crate::layers::is_first(
            names,
            names[i],
            i,
        ));
        let at = if crate::layers::is_first(names, names[i], i) && declared.contains(names[i]) {
            was.push(i)
        } else {
            was
        };
        assert forall|k: int| #[trigger]
            crate::parts_laws::is_new(names, k) && k < n && declared.contains(
                names[k],
            ) implies at.contains(k) by {
            if k < i {
                assert(was.contains(k));
                let j = choose|j: int| 0 <= j < was.len() && was[j] == k;
                assert(at[j] == k);
            } else {
                assert(at[was.len() as int] == k);
            }
        }
        assert forall|j: int, k: int| 0 <= j < k < at.len() implies #[trigger] at[j]
            < #[trigger] at[k] by {
            assert(at[j] == was[j]);
            if k < was.len() {
                assert(at[k] == was[k]);
            }
        }
        at
    }
}

/// A pad is on all layers where a layer that it declares stands for all; otherwise on those
/// that it declares and the board has; and on the top layer where there is none of them.
pub proof fn law_pad_layers_are_declared(declared: Seq<Seq<char>>, names: Seq<Seq<char>>)
    requires
        names.len() > 0,
    ensures
        ({
            let r = crate::layers::pad_layers(declared, names);
            &&& (exists|i: int| 0 <= i < declared.len() && means_all(#[trigger] declared[i]))
                ==> r == names
            &&& (forall|i: int| 0 <= i < declared.len() ==> !means_all(#[trigger] declared[i]))
                ==> {
                ||| exists|at: Seq<int>| #[trigger] are_declared(declared, names, r, at)
                ||| r.len() == 1 && r[0] == names[0] && forall|i: int|
                    0 <= i < names.len() ==> !declared.contains(#[trigger] names[i])
            }
        }),
{
    assert forall|i: int| 0 <= i < declared.len() implies (means_all(#[trigger] declared[i])
        <==> crate::layers::is_wildcard(declared[i])) by {
        lemma_means_all(declared[i]);
    }
    if exists|i: int| 0 <= i < declared.len() && means_all(#[trigger] declared[i]) {
        let i = choose|i: int| 0 <= i < declared.len() && means_all(#[trigger] declared[i]);
        assert(crate::layers::is_wildcard(declared[i]));
    }
    let r = crate::layers::pad_layers(declared, names);
    if forall|i: int| 0 <= i < declared.len() ==> !means_all(#[trigger] declared[i]) {
        let known = crate::layers::declared_among(declared, names, names.len());
        let at = lemma_declared(declared, names, names.len());
        assert forall|i: int| 0 <= i < declared.len() implies !(
        #[trigger] crate::layers::is_wildcard(declared[i])) by {
            assert(!means_all(declared[i]));
        }
        if known.len() == 0 {
            assert forall|i: int| 0 <= i < names.len() implies !declared.contains(
                #[trigger] names[i],
            ) by {
                if declared.contains(names[i]) {
                    crate::parts_laws::lemma_some_new(names, i);
                    let k = choose|k: int| crate::parts_laws::is_new(names, k) && names[k]
                        == names[i];
                    assert(at.contains(k));
                }
            }
        } else {
            assert(are_declared(declared, names, r, at));
        }
    }
}

/// A pin has the padstack that it names, as the library has it, on the layers of the board
/// that the pad is on; a trace to it ends on the first of these, or on the top layer.
pub proof fn law_pins_have_their_pads(
    x: PinSpot,
    stacks: Seq<Stack>,
    names: Seq<Seq<char>>,
    k: int,
)
    ensures
        ({
            let b = crate::design::resolved(x, stacks, names);
            &&& b.at == x.0 && b.pin == x.1
            &&& (forall|j: int| 0 <= j < stacks.len() ==> (#[trigger] stacks[j]).name
                != x.1.padstack) ==> b.pad is None && b.layer == names[0]
            &&& is_last_stack(stacks, x.1.padstack, k) ==> (b.pad matches Some(p) && p.name
                == x.1.padstack && p.shapes == stacks[k].shapes && p.layers
                == crate::layers::pad_layers(stacks[k].layers, names) && b.layer == p.layers[0])
        }),
{
    crate::parts_laws::law_last_of_a_name_counts(stacks, Seq::empty(), x.1.padstack, k);
}

} // verus!
