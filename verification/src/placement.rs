//! Where a design puts its components, and which pins its nets join.
use vstd::prelude::*;

use crate::dsn::{as_number, gather, nodes_from, split_ref_pin};
use crate::sexpr::{Sexpr, Tree};
use crate::text::same_ignoring_case;

verus! {

/// A component on the board.
#[derive(Debug, Clone, PartialEq, Eq)]
pub struct Placement<T = String> {
    /// The component.
    pub reference: T,
    /// Its footprint.
    pub image_id: T,
    /// Where it is, across.
    pub x: T,
    /// Where it is, up.
    pub y: T,
    /// It is on the back of the board.
    pub back: bool,
    /// How far it is turned, in degrees, where that is said.
    pub rot: Option<T>,
}

impl DeepView for Placement<String> {
    type V = Placement<Seq<char>>;

    open spec fn deep_view(&self) -> Placement<Seq<char>> {
        Placement {
            reference: self.reference@,
            image_id: self.image_id@,
            x: self.x@,
            y: self.y@,
            back: self.back,
            rot: self.rot.deep_view(),
        }
    }
}

/// The same text, where there is one.
pub fn copy_text(s: &Option<String>) -> (r: Option<String>)
    ensures
        r.deep_view() == s.deep_view(),
{
    match s {
        Some(t) => Some(t.clone()),
        None => None,
    }
}

/// The same component.
pub fn copy_placement(p: &Placement) -> (r: Placement)
    ensures
        r.deep_view() == p.deep_view(),
{
    Placement {
        reference: p.reference.clone(),
        image_id: p.image_id.clone(),
        x: p.x.clone(),
        y: p.y.clone(),
        back: p.back,
        rot: copy_text(&p.rot),
    }
}

/// Picks the components with that footprint: `(place REF X Y SIDE ROTATION)`.
pub open spec fn places(image_id: Seq<char>) -> spec_fn(Tree) -> Option<Placement<Seq<char>>> {
    |n: Tree|
        match (
            crate::sexpr::word(n, 1),
            crate::dsn::numeric(crate::sexpr::word(n, 2)),
            crate::dsn::numeric(crate::sexpr::word(n, 3)),
        ) {
            (Some(reference), Some(x), Some(y)) => Some(
                Placement {
                    reference,
                    image_id,
                    x,
                    y,
                    back: match crate::sexpr::word(n, 4) {
                        Some(side) => crate::text::lowered(side) == crate::text::lowered("back"@),
                        None => false,
                    },
                    rot: crate::dsn::numeric(crate::sexpr::word(n, 5)),
                },
            ),
            _ => None,
        }
}

/// The component with that footprint that a node declares.
fn place_of(image_id: &str, n: &Sexpr) -> (r: Option<Placement>)
    ensures
        r.deep_view() == places(image_id@)(n.deep_view()),
{
    match (n.word_at(1), as_number(n.word_at(2)), as_number(n.word_at(3))) {
        (Some(reference), Some(x), Some(y)) => {
            let back: bool = match n.word_at(4) {
                Some(side) => same_ignoring_case(side, "back"),
                None => false,
            };
            Some(
                Placement {
                    reference: reference.to_owned(),
                    image_id: image_id.to_owned(),
                    x,
                    y,
                    back,
                    rot: as_number(n.word_at(5)),
                },
            )
        },
        _ => None,
    }
}

/// The components that a node declares, all with the same footprint.
pub open spec fn places_of(component: Tree) -> Seq<Placement<Seq<char>>> {
    match crate::sexpr::word(component, 1) {
        Some(image_id) => crate::collect::collect(
            crate::sexpr::children(component, "place"@),
            places(image_id),
        ),
        None => seq![],
    }
}

/// The components that the nodes declare.
pub open spec fn all_places(components: Seq<Tree>) -> Seq<Placement<Seq<char>>>
    decreases components.len(),
{
    if components.len() == 0 {
        seq![]
    } else {
        all_places(components.drop_last()) + places_of(components.last())
    }
}

/// The components of a board.
pub open spec fn placements(pcb: Tree) -> Seq<Placement<Seq<char>>> {
    match crate::sexpr::child(pcb, "placement"@) {
        Some(p) => all_places(crate::sexpr::children(p, "component"@)),
        None => seq![],
    }
}

/// The components that a node declares.
fn component_places(component: &Sexpr) -> (r: Vec<Placement>)
    ensures
        r.deep_view() == places_of(component.deep_view()),
{
    match component.word_at(1) {
        None => {
            let r: Vec<Placement> = Vec::new();
            assert(r.deep_view() =~= seq![]);
            r
        },
        Some(image_id) => {
            let f = |n: &Sexpr| -> (t: Option<Placement>)
                ensures
                    t.deep_view() == places(image_id@)(n.deep_view()),
                { place_of(image_id, n) };
            gather(&component.children_named("place"), f, Ghost(places(image_id@)))
        },
    }
}

/// The components of a board, in the order of the document.
pub fn parse_placements(pcb: &Sexpr) -> (r: Vec<Placement>)
    ensures
        r.deep_view() == placements(pcb.deep_view()),
{
    let mut r: Vec<Placement> = Vec::new();
    assert(r.deep_view() =~= seq![]);
    if let Some(p) = pcb.child_named("placement") {
        let components: Vec<&Sexpr> = p.children_named("component");
        let ghost all = components.deep_view();
        let mut i: usize = 0;
        while i < components.len()
            invariant
                i <= components@.len(),
                all == components.deep_view(),
                r.deep_view() == all_places(all.take(i as int)),
            decreases components@.len() - i,
        {
            assert(all.take(i + 1).drop_last() =~= all.take(i as int));
            assert(all[i as int] == components@[i as int].deep_view());
            let mut more: Vec<Placement> = component_places(components[i]);
            let ghost before = r.deep_view();
            let ghost added = more.deep_view();
            r.append(&mut more);
            assert(r.deep_view() =~= before + added);
            i += 1;
        }
        assert(all.take(all.len() as int) =~= all);
    }
    r
}

/// Picks pins of components: `REF-PIN`.
pub open spec fn ref_pins() -> spec_fn(Tree) -> Option<(Seq<char>, Seq<char>)> {
    |n: Tree|
        match crate::sexpr::atom(n) {
            Some(a) => crate::dsn::ref_pin(a),
            None => None,
        }
}

/// The pin of a component that a node names.
fn ref_pin_of(n: &Sexpr) -> (r: Option<(String, String)>)
    ensures
        r.deep_view() == ref_pins()(n.deep_view()),
{
    match n.as_atom() {
        Some(a) => split_ref_pin(a),
        None => None,
    }
}

/// The pins that a net joins.
pub open spec fn pins_of(net: Tree) -> Seq<(Seq<char>, Seq<char>)> {
    match crate::sexpr::child(net, "pins"@) {
        Some(pins) => crate::collect::collect(crate::dsn::nodes_after(pins, 1), ref_pins()),
        None => seq![],
    }
}

/// Picks nets: a name, and the pins that it joins.
pub open spec fn named_nets() -> spec_fn(Tree) -> Option<
    (Seq<char>, Seq<(Seq<char>, Seq<char>)>),
> {
    |n: Tree|
        match crate::sexpr::word(n, 1) {
            Some(name) => Some((name, pins_of(n))),
            None => None,
        }
}

/// The net that a node declares.
fn net_of(n: &Sexpr) -> (r: Option<(String, Vec<(String, String)>)>)
    ensures
        r.deep_view() == named_nets()(n.deep_view()),
{
    match n.word_at(1) {
        None => None,
        Some(name) => {
            let pins: Vec<(String, String)> = match n.child_named("pins") {
                Some(pins) => gather(&nodes_from(pins, 1), ref_pin_of, Ghost(ref_pins())),
                None => {
                    let r: Vec<(String, String)> = Vec::new();
                    assert(r.deep_view() =~= seq![]);
                    r
                },
            };
            Some((name.to_owned(), pins))
        },
    }
}

/// The nets of a board.
pub open spec fn nets(pcb: Tree) -> Seq<(Seq<char>, Seq<(Seq<char>, Seq<char>)>)> {
    match crate::sexpr::child(pcb, "network"@) {
        Some(network) => crate::collect::collect(
            crate::sexpr::children(network, "net"@),
            named_nets(),
        ),
        None => seq![],
    }
}

/// The nets of a board, each with its name and the pins that it joins.
pub fn parse_nets(pcb: &Sexpr) -> (r: Vec<(String, Vec<(String, String)>)>)
    ensures
        r.deep_view() == nets(pcb.deep_view()),
{
    match pcb.child_named("network") {
        Some(network) => gather(&network.children_named("net"), net_of, Ghost(named_nets())),
        None => {
            let r: Vec<(String, Vec<(String, String)>)> = Vec::new();
            assert(r.deep_view() =~= seq![]);
            r
        },
    }
}

} // verus!
