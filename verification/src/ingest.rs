//! From the text of a Specctra design to the board that it describes.
use vstd::prelude::*;

use crate::design::{
    find_board, label_of, parse_bounds, parse_resolution, parse_rule, place_board_pins, BoardPin,
    DsnError, Fault, PlacedPin, Resolution,
};
use crate::dsn::{
    declared_via_names, parse_layer_names, parse_planes, parse_signal_layer_names, PlaneDef,
};
use crate::layers::{pad_layer_names, LayerMap};
use crate::library::{copy_shapes, find_padstack, parse_padstacks, PadStack};
use crate::placement::{parse_nets, parse_placements, Placement};
use crate::sexpr::{parse_sexpr, Sexpr, Tree};
use crate::text::same_text;
use crate::via::ViaModel;
use crate::via_stack::{parse_via_model, via_drill};

verus! {

/// The first of the pins that is this pin of this component.
pub open spec fn is_pin(pins: Seq<BoardPin>, who: (Seq<char>, Seq<char>), i: int) -> bool {
    &&& 0 <= i < pins.len()
    &&& (pins[i].at.reference, pins[i].pin.id) == who
    &&& forall|j: int|
        0 <= j < i ==> ((#[trigger] pins[j]).at.reference, pins[j].pin.id) != who
}

/// Picks the places of pins.
pub open spec fn pin_places(pins: Seq<BoardPin>) -> spec_fn((Seq<char>, Seq<char>)) -> Option<
    usize,
> {
    |who: (Seq<char>, Seq<char>)|
        if exists|i: usize| is_pin(pins, who, i as int) {
            Some(choose|i: usize| is_pin(pins, who, i as int))
        } else {
            None
        }
}

/// The place of a pin.
fn pin_place(pins: &Vec<PlacedPin>, who: &(String, String)) -> (r: Option<usize>)
    ensures
        r == pin_places(pins.deep_view())(who.deep_view()),
        r is Some ==> r->0 < pins@.len(),
{
    let ghost all = pins.deep_view();
    let ghost want = who.deep_view();
    let mut i: usize = 0;
    while i < pins.len()
        invariant
            i <= pins@.len(),
            all == pins.deep_view(),
            want == who.deep_view(),
            forall|j: int|
                0 <= j < i ==> ((#[trigger] all[j]).at.reference, all[j].pin.id) != want,
        decreases pins@.len() - i,
    {
        assert(all[i as int] == pins@[i as int].deep_view());
        if pins[i].at.reference == who.0 && pins[i].pin.id == who.1 {
            proof {
                assert(is_pin(all, want, i as int));
                assert forall|k: usize| is_pin(all, want, k as int) implies k == i by {
                    if k > i {
                        assert((all[i as int].at.reference, all[i as int].pin.id) != want);
                    }
                }
            }
            return Some(i);
        }
        i += 1;
    }
    assert forall|k: usize| !is_pin(all, want, k as int) by {}
    None
}

/// Pins that are to be joined, by their places in a list.
#[derive(Debug, Clone, PartialEq, Eq)]
pub struct Connection {
    /// The net.
    pub name: String,
    /// The pins.
    pub points: Vec<usize>,
}

impl DeepView for Connection {
    type V = (Seq<char>, Seq<usize>);

    open spec fn deep_view(&self) -> (Seq<char>, Seq<usize>) {
        (self.name@, self.points@)
    }
}

/// Picks nets that join two pins of the board or more.
pub open spec fn joined_nets(pins: Seq<BoardPin>) -> spec_fn(
    (Seq<char>, Seq<(Seq<char>, Seq<char>)>),
) -> Option<(Seq<char>, Seq<usize>)> {
    |net: (Seq<char>, Seq<(Seq<char>, Seq<char>)>)|
        {
            let points = crate::collect::collect(net.1, pin_places(pins));
            if points.len() >= 2 {
                Some((net.0, points))
            } else {
                None
            }
        }
}

/// The places of the pins.
fn points_of(pins: &Vec<PlacedPin>, refs: &Vec<(String, String)>) -> (r: Vec<usize>)
    ensures
        r@ == crate::collect::collect(refs.deep_view(), pin_places(pins.deep_view())),
{
    let ghost all = refs.deep_view();
    let ghost pick = pin_places(pins.deep_view());
    let mut r: Vec<usize> = Vec::new();
    let mut i: usize = 0;
    proof {
        crate::collect::lemma_collect_all(all, pick);
    }
    while i < refs.len()
        invariant
            i <= refs@.len(),
            all == refs.deep_view(),
            pick == pin_places(pins.deep_view()),
            r@ == crate::collect::collect(all.take(i as int), pick),
        decreases refs@.len() - i,
    {
        proof {
            crate::collect::lemma_collect_next(all, pick, i as int);
            assert(all[i as int] == refs@[i as int].deep_view());
        }
        if let Some(k) = pin_place(pins, &refs[i]) {
            r.push(k);
        }
        i += 1;
    }
    r
}

/// The nets that join two pins of the board or more.
fn connect(nets: &Vec<(String, Vec<(String, String)>)>, pins: &Vec<PlacedPin>) -> (r: Vec<
    Connection,
>)
    ensures
        r.deep_view() == crate::collect::collect(nets.deep_view(), joined_nets(pins.deep_view())),
        r@.len() <= nets@.len(),
{
    let ghost all = nets.deep_view();
    let ghost pick = joined_nets(pins.deep_view());
    let mut r: Vec<Connection> = Vec::new();
    let mut i: usize = 0;
    proof {
        crate::collect::lemma_collect_all(all, pick);
    }
    assert(r.deep_view() =~= seq![]);
    while i < nets.len()
        invariant
            i <= nets@.len(),
            all == nets.deep_view(),
            pick == joined_nets(pins.deep_view()),
            r@.len() <= i,
            r.deep_view() == crate::collect::collect(all.take(i as int), pick),
        decreases nets@.len() - i,
    {
        proof {
            crate::collect::lemma_collect_next(all, pick, i as int);
            assert(all[i as int] == nets@[i as int].deep_view());
        }
        let points: Vec<usize> = points_of(pins, &nets[i].1);
        let ghost before = r.deep_view();
        if points.len() >= 2 {
            let c = Connection { name: nets[i].0.clone(), points };
            r.push(c);
            assert(r.deep_view() =~= before.push(c.deep_view()));
        }
        i += 1;
    }
    r
}

/// Every connection joins two pins or more, and all of them are pins of the board.
pub proof fn law_connections_join_pins(
    nets: Seq<(Seq<char>, Seq<(Seq<char>, Seq<char>)>)>,
    pins: Seq<BoardPin>,
    c: int,
    k: int,
)
    requires
        0 <= c < crate::collect::collect(nets, joined_nets(pins)).len(),
        0 <= k < crate::collect::collect(nets, joined_nets(pins))[c].1.len(),
    ensures
        crate::collect::collect(nets, joined_nets(pins))[c].1.len() >= 2,
        crate::collect::collect(nets, joined_nets(pins))[c].1[k] < pins.len(),
{
    crate::collect::lemma_collect_origin(nets, joined_nets(pins), c);
    let got = crate::collect::collect(nets, joined_nets(pins))[c];
    let i = choose|i: int|
        0 <= i < nets.len() && #[trigger] joined_nets(pins)(nets[i]) == Some(got);
    let refs = nets[i].1;
    crate::collect::lemma_collect_origin(refs, pin_places(pins), k);
    let j = choose|j: int|
        0 <= j < refs.len() && #[trigger] pin_places(pins)(refs[j]) == Some(got.1[k]);
    assert(is_pin(pins, refs[j], got.1[k] as int));
}

/// The names of the pins of a net, each with the net.
pub open spec fn labels_of(net: (Seq<char>, Seq<(Seq<char>, Seq<char>)>)) -> Seq<
    (Seq<char>, Seq<char>),
> {
    net.1.map_values(|p: (Seq<char>, Seq<char>)| (crate::design::label(p.0, p.1), net.0))
}

/// The names of the pins of the nets, each with its net.
pub open spec fn pin_labels(nets: Seq<(Seq<char>, Seq<(Seq<char>, Seq<char>)>)>) -> Seq<
    (Seq<char>, Seq<char>),
>
    decreases nets.len(),
{
    if nets.len() == 0 {
        seq![]
    } else {
        pin_labels(nets.drop_last()) + labels_of(nets.last())
    }
}

/// The net of the pin of that name: the last that names it.
pub open spec fn net_of_label(labels: Seq<(Seq<char>, Seq<char>)>, name: Seq<char>) -> Option<
    Seq<char>,
>
    decreases labels.len(),
{
    if labels.len() == 0 {
        None
    } else if labels.last().0 == name {
        Some(labels.last().1)
    } else {
        net_of_label(labels.drop_last(), name)
    }
}

/// The names of the pins of the nets, each with its net.
fn label_pins(nets: &Vec<(String, Vec<(String, String)>)>) -> (r: Vec<(String, String)>)
    ensures
        r.deep_view() == pin_labels(nets.deep_view()),
{
    let ghost all = nets.deep_view();
    let mut r: Vec<(String, String)> = Vec::new();
    let mut i: usize = 0;
    assert(r.deep_view() =~= pin_labels(all.take(0)));
    while i < nets.len()
        invariant
            i <= nets@.len(),
            all == nets.deep_view(),
            r.deep_view() == pin_labels(all.take(i as int)),
        decreases nets@.len() - i,
    {
        let ghost start = r.deep_view();
        let ghost net = all[i as int];
        let refs: &Vec<(String, String)> = &nets[i].1;
        proof {
            assert(all.take(i + 1).drop_last() =~= all.take(i as int));
            assert(net == nets@[i as int].deep_view());
        }
        let mut k: usize = 0;
        assert(start + labels_of(net).take(0) =~= start);
        while k < refs.len()
            invariant
                k <= refs@.len(),
                i < nets@.len(),
                *refs == nets@[i as int].1,
                net == nets@[i as int].deep_view(),
                r.deep_view() == start + labels_of(net).take(k as int),
            decreases refs@.len() - k,
        {
            let who: &(String, String) = &refs[k];
            assert(net.1[k as int] == refs@[k as int].deep_view());
            let ghost before = r.deep_view();
            let entry: (String, String) = (label_of(&who.0, &who.1), nets[i].0.clone());
            r.push(entry);
            proof {
                assert(r.deep_view() =~= before.push(entry.deep_view()));
                assert(entry.deep_view() == labels_of(net)[k as int]);
                assert(r.deep_view() =~= start + labels_of(net).take(k + 1));
            }
            k += 1;
        }
        assert(labels_of(net).take(k as int) =~= labels_of(net));
        i += 1;
    }
    assert(all.take(all.len() as int) =~= all);
    r
}

/// A padstack that vias of the board are made with.
#[derive(Debug, Clone, PartialEq, Eq)]
pub struct ViaPad {
    /// The padstack, with the layers of the board that it is on.
    pub pad: PadStack,
    /// The size of the drill in micrometres, where the name says it.
    pub drill: Option<String>,
}

impl DeepView for ViaPad {
    type V = (crate::library::Stack, Option<Seq<char>>);

    open spec fn deep_view(&self) -> (crate::library::Stack, Option<Seq<char>>) {
        (self.pad.deep_view(), self.drill.deep_view())
    }
}

/// Picks the padstacks that the library has.
pub open spec fn known_vias(
    stacks: Seq<crate::library::Stack>,
    names: Seq<Seq<char>>,
) -> spec_fn(Seq<char>) -> Option<(crate::library::Stack, Option<Seq<char>>)> {
    |name: Seq<char>|
        match crate::library::stack_named(stacks, name) {
            Some(stack) => Some(
                (
                    crate::library::Stack {
                        name: stack.name,
                        shapes: stack.shapes,
                        layers: crate::layers::pad_layers(stack.layers, names),
                    },
                    crate::via_stack::drill_text(name),
                ),
            ),
            None => None,
        }
}

/// The padstacks of the vias that the library has, in the order of their declaration.
pub fn parse_via_pads(
    via_names: &Vec<String>,
    stacks: &Vec<PadStack>,
    layer_map: &LayerMap,
) -> (r: Vec<ViaPad>)
    requires
        layer_map.wf(),
    ensures
        r.deep_view() == crate::collect::collect(
            via_names.deep_view(),
            known_vias(stacks.deep_view(), layer_map.deep_view()),
        ),
{
    let ghost all = via_names.deep_view();
    let ghost pick = known_vias(stacks.deep_view(), layer_map.deep_view());
    let mut r: Vec<ViaPad> = Vec::new();
    let mut i: usize = 0;
    proof {
        crate::collect::lemma_collect_all(all, pick);
    }
    assert(r.deep_view() =~= seq![]);
    while i < via_names.len()
        invariant
            i <= via_names@.len(),
            layer_map.wf(),
            all == via_names.deep_view(),
            pick == known_vias(stacks.deep_view(), layer_map.deep_view()),
            r.deep_view() == crate::collect::collect(all.take(i as int), pick),
        decreases via_names@.len() - i,
    {
        proof {
            crate::collect::lemma_collect_next(all, pick, i as int);
            assert(all[i as int] == via_names@[i as int]@);
        }
        let ghost before = r.deep_view();
        if let Some(stack) = find_padstack(stacks, &via_names[i]) {
            let v = ViaPad {
                pad: PadStack {
                    name: stack.name.clone(),
                    shapes: copy_shapes(&stack.shapes),
                    layers: pad_layer_names(&stack.layers, layer_map),
                },
                drill: via_drill(&via_names[i]),
            };
            r.push(v);
            assert(r.deep_view() =~= before.push(v.deep_view()));
        }
        i += 1;
    }
    r
}

/// What a design says about a board.
#[derive(Debug, Clone, PartialEq)]
pub struct Design {
    /// What its coordinates measure.
    pub resolution: Resolution,
    /// Its copper layers.
    pub layer_map: LayerMap,
    /// The layers that carry signals.
    pub signal_layers: Vec<String>,
    /// The points that bound it.
    pub boundary: Vec<(String, String)>,
    /// How wide traces are, where a rule says it.
    pub width: Option<String>,
    /// How far copper keeps apart, where a rule says it.
    pub clearance: Option<String>,
    /// How many components there are.
    pub components: usize,
    /// The pins of the components, in the order of their names.
    pub pins: Vec<PlacedPin>,
    /// The pins that are to be joined.
    pub connections: Vec<Connection>,
    /// How many nets join fewer than two pins.
    pub nets_skipped_small: usize,
    /// Which layers vias may join.
    pub via_model: ViaModel,
    /// How many different vias are declared.
    pub vias_declared: usize,
    /// What vias are made with.
    pub via_pads: Vec<ViaPad>,
    /// The poured planes.
    pub planes: Vec<PlaneDef>,
    /// The names of the pins of the nets, each with its net.
    pub pin_nets: Vec<(String, String)>,
}

/// What a design says about a board.
pub struct Said {
    /// What its coordinates measure.
    pub resolution: Resolution<Seq<char>>,
    /// Its copper layers.
    pub layer_map: Seq<Seq<char>>,
    /// The layers that carry signals.
    pub signal_layers: Seq<Seq<char>>,
    /// The points that bound it.
    pub boundary: Seq<(Seq<char>, Seq<char>)>,
    /// How wide traces are, where a rule says it.
    pub width: Option<Seq<char>>,
    /// How far copper keeps apart, where a rule says it.
    pub clearance: Option<Seq<char>>,
    /// How many components there are.
    pub components: int,
    /// The pins of the components, in the order of their names.
    pub pins: Seq<BoardPin>,
    /// The pins that are to be joined.
    pub connections: Seq<(Seq<char>, Seq<usize>)>,
    /// How many nets join fewer than two pins.
    pub nets_skipped_small: int,
    /// The steps between layers that vias may make; all of them where this is not given.
    pub steps: Option<Seq<(u32, u32)>>,
    /// How many different vias are declared.
    pub vias_declared: int,
    /// What vias are made with.
    pub via_pads: Seq<(crate::library::Stack, Option<Seq<char>>)>,
    /// The poured planes.
    pub planes: Seq<PlaneDef<Seq<char>>>,
    /// The names of the pins of the nets, each with its net.
    pub pin_nets: Seq<(Seq<char>, Seq<char>)>,
}

impl DeepView for Design {
    type V = Said;

    open spec fn deep_view(&self) -> Said {
        Said {
            resolution: self.resolution.deep_view(),
            layer_map: self.layer_map.deep_view(),
            signal_layers: self.signal_layers.deep_view(),
            boundary: self.boundary.deep_view(),
            width: self.width.deep_view(),
            clearance: self.clearance.deep_view(),
            components: self.components as int,
            pins: self.pins.deep_view(),
            connections: self.connections.deep_view(),
            nets_skipped_small: self.nets_skipped_small as int,
            steps: match self.via_model.allowed {
                Some(v) => Some(v@),
                None => None,
            },
            vias_declared: self.vias_declared as int,
            via_pads: self.via_pads.deep_view(),
            planes: self.planes.deep_view(),
            pin_nets: self.pin_nets.deep_view(),
        }
    }
}

/// The layers of a structure; a single layer `top` where it has none.
pub open spec fn stack_names(structure: Tree) -> Seq<Seq<char>> {
    let names = crate::dsn::layer_names(structure);
    if names.len() == 0 {
        seq!["top"@]
    } else {
        names
    }
}

/// What a board with that resolution, structure and boundary says.
pub open spec fn described(
    pcb: Tree,
    resolution: Resolution<Seq<char>>,
    structure: Tree,
    boundary: Seq<(Seq<char>, Seq<char>)>,
) -> Said {
    let names = stack_names(structure);
    let nets = crate::placement::nets(pcb);
    let pins = crate::design::board_pins(pcb, names);
    let connections = crate::collect::collect(nets, joined_nets(pins));
    let vias = crate::dsn::via_names(structure);
    Said {
        resolution,
        layer_map: names,
        signal_layers: crate::dsn::signal_layer_names(structure),
        boundary,
        width: crate::design::rule_value(pcb, structure, "width"@),
        clearance: crate::design::rule_value(pcb, structure, "clearance"@),
        components: crate::placement::placements(pcb).len() as int,
        pins,
        connections,
        nets_skipped_small: nets.len() - connections.len(),
        steps: crate::via_stack::allowed_steps(
            crate::via_stack::known_spans(pcb, vias, names),
            names.len(),
        ),
        vias_declared: crate::library::distinct(vias).len() as int,
        via_pads: crate::collect::collect(
            vias,
            known_vias(crate::library::library_padstacks(pcb), names),
        ),
        planes: crate::collect::collect(
            crate::sexpr::children(structure, "plane"@),
            crate::dsn::planes(),
        ),
        pin_nets: pin_labels(nets),
    }
}

/// What a board says, or what is wrong with it.
pub open spec fn read(pcb: Tree) -> Result<Said, Fault> {
    match crate::design::resolution(pcb) {
        Err(e) => Err(e),
        Ok(resolution) => match crate::sexpr::child(pcb, "structure"@) {
            None => Err(Fault::NoStructure),
            Some(structure) => if crate::dsn::layer_names(structure).len() > u32::MAX {
                Err(Fault::TooManyLayers)
            } else {
                match crate::design::boundary(structure) {
                    Err(e) => Err(e),
                    Ok(boundary) => Ok(described(pcb, resolution, structure, boundary)),
                }
            },
        },
    }
}

/// What a document says, or what is wrong with it.
pub open spec fn read_text(text: Seq<char>) -> Result<Said, Fault> {
    match crate::sexpr::parsed(crate::sexpr::tokens(text)) {
        Err(e) => Err(Fault::Syntax(e)),
        Ok(root) => match crate::design::board(root) {
            Err(e) => Err(e),
            Ok(pcb) => read(pcb),
        },
    }
}

/// A via model for the layers of the board, at the usual cost and with no room kept.
pub open spec fn is_usual(model: ViaModel, names: Seq<Seq<char>>) -> bool {
    &&& model.layers == names.len()
    &&& model.step_cost == ViaModel::DEFAULT_STEP_COST
    &&& model.keepout_cells == 0
}

/// What a board says, or what is wrong with it.
pub fn read_board(pcb: &Sexpr) -> (r: Result<Design, DsnError>)
    ensures
        crate::design::outcome(r) == read(pcb.deep_view()),
        r is Ok ==> r->Ok_0.layer_map.wf() && is_usual(
            r->Ok_0.via_model,
            r->Ok_0.layer_map.deep_view(),
        ),
{
    let resolution: Resolution = match parse_resolution(pcb) {
        Err(e) => {
            return Err(e);
        },
        Ok(v) => v,
    };
    let structure: &Sexpr = match pcb.child_named("structure") {
        None => {
            return Err(DsnError::NoStructure);
        },
        Some(v) => v,
    };
    let names: Vec<String> = parse_layer_names(structure);
    assert(names.deep_view().len() == names@.len());
    if names.len() > u32::MAX as usize {
        return Err(DsnError::TooManyLayers);
    }
    let layer_map: LayerMap = LayerMap::from_names(names);
    let boundary: Vec<(String, String)> = match parse_bounds(structure) {
        Err(e) => {
            return Err(e);
        },
        Ok(v) => v,
    };
    let stacks: Vec<PadStack> = parse_padstacks(pcb);
    let places: Vec<Placement> = parse_placements(pcb);
    let pins: Vec<PlacedPin> = place_board_pins(pcb, &places, &stacks, &layer_map);
    let nets: Vec<(String, Vec<(String, String)>)> = parse_nets(pcb);
    let connections: Vec<Connection> = connect(&nets, &pins);
    let vias: Vec<String> = declared_via_names(structure);
    let (via_model, vias_declared) = parse_via_model(pcb, &vias, &layer_map);
    let via_pads: Vec<ViaPad> = parse_via_pads(&vias, &stacks, &layer_map);
    let nets_skipped_small: usize = nets.len() - connections.len();
    proof {
        assert(nets.deep_view().len() == nets@.len());
        assert(connections.deep_view().len() == connections@.len());
        assert(places.deep_view().len() == places@.len());
        assert(vias.deep_view().len() == vias@.len());
        assert(layer_map.deep_view() == stack_names(structure.deep_view()));
    }
    Ok(
        Design {
            resolution,
            layer_map,
            signal_layers: parse_signal_layer_names(structure),
            boundary,
            width: parse_rule(pcb, structure, "width"),
            clearance: parse_rule(pcb, structure, "clearance"),
            components: places.len(),
            pins,
            connections,
            nets_skipped_small,
            via_model,
            vias_declared,
            via_pads,
            planes: parse_planes(structure),
            pin_nets: label_pins(&nets),
        },
    )
}

/// What a document says, or what is wrong with it.
pub fn read_design(text: &str) -> (r: Result<Design, DsnError>)
    ensures
        crate::design::outcome(r) == read_text(text@),
        r is Ok ==> r->Ok_0.layer_map.wf() && is_usual(
            r->Ok_0.via_model,
            r->Ok_0.layer_map.deep_view(),
        ),
{
    match parse_sexpr(text) {
        Err(e) => Err(DsnError::Syntax(e)),
        Ok(root) => match find_board(&root) {
            Err(e) => Err(e),
            Ok(pcb) => read_board(pcb),
        },
    }
}

impl Design {
    /// The net of the pin of that name.
    pub fn pin_net(&self, name: &str) -> (r: Option<&str>)
        ensures
            r.deep_view() == net_of_label(self.pin_nets.deep_view(), name@),
    {
        let ghost all = self.pin_nets.deep_view();
        let mut i: usize = self.pin_nets.len();
        assert(all.take(all.len() as int) =~= all);
        while i > 0
            invariant
                i <= self.pin_nets@.len(),
                all == self.pin_nets.deep_view(),
                net_of_label(all.take(i as int), name@) == net_of_label(all, name@),
            decreases i,
        {
            i -= 1;
            assert(all.take(i + 1).last() == self.pin_nets@[i as int].deep_view());
            assert(all.take(i + 1).drop_last() =~= all.take(i as int));
            if same_text(&self.pin_nets[i].0, name) {
                return Some(self.pin_nets[i].1.as_str());
            }
        }
        None
    }

    /// Whether every step between adjacent layers is allowed.
    pub fn vias_through_hole(&self) -> (r: bool)
        ensures
            r == (self.deep_view().steps is None),
    {
        self.via_model.allowed.is_none()
    }
}

} // verus!
