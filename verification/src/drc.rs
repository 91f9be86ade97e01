//! Design rules of a routed board: what there is to check, and which rule decides.
//!
//! Lengths are of some type of number that the rules here only pass on.
use vstd::prelude::*;

use crate::sorting::{is_key_less, push_text};
use crate::text::same_text;

verus! {

/// What a copper layer is for.
#[derive(Clone, Debug, PartialEq, Eq)]
pub enum LayerKind {
    /// Traces run on it.
    Signal,
    /// It is poured all over with the copper of a net.
    Plane {
        /// The net.
        net: String,
    },
}

/// A straight trace.
#[derive(Debug, PartialEq)]
pub struct Segment<N> {
    /// The net.
    pub net: String,
    /// The layer.
    pub layer: u32,
    /// One end.
    pub a: (N, N),
    /// The other end.
    pub b: (N, N),
    /// How wide it is.
    pub width: N,
}

/// A rectangular pad.
#[derive(Debug, PartialEq)]
pub struct Pad<N> {
    /// The net, where it is known.
    pub net: Option<String>,
    /// The layer.
    pub layer: u32,
    /// The middle.
    pub center: (N, N),
    /// How wide it is.
    pub width: N,
    /// How high it is.
    pub height: N,
}

/// A via through a range of layers.
#[derive(Debug, PartialEq)]
pub struct Via<N> {
    /// The net.
    pub net: String,
    /// The middle.
    pub center: (N, N),
    /// How wide its copper is.
    pub pad_diameter: N,
    /// How wide its hole is.
    pub drill_diameter: N,
    /// The layer at one end.
    pub from_layer: u32,
    /// The layer at the other end.
    pub to_layer: u32,
    /// How wide the hole is that planes leave for it.
    pub antipad_radius: Option<N>,
}

/// The rules of a board.
#[derive(Clone, Copy, Debug, PartialEq)]
pub struct DrcRules<N> {
    /// How far copper of different nets keeps apart.
    pub clearance: N,
    /// How far a plane keeps from the hole of a via of another net.
    pub plane_antipad: N,
    /// How much copper is around the hole of a via.
    pub min_annular_ring: N,
}

/// The copper of a board, and its rules.
#[derive(Debug, PartialEq)]
pub struct DrcBoard<N> {
    /// The layers, from the top down.
    pub layers: Vec<LayerKind>,
    /// The traces.
    pub segments: Vec<Segment<N>>,
    /// The pads.
    pub pads: Vec<Pad<N>>,
    /// The vias.
    pub vias: Vec<Via<N>>,
    /// The rules.
    pub rules: DrcRules<N>,
}

/// How a rule was broken.
#[derive(Clone, Copy, Debug, PartialEq, Eq, Hash)]
pub enum ViolationClass {
    /// Copper of different nets is too close.
    Clearance,
    /// A via goes through a plane of another net.
    ViaThroughPlane,
    /// There is too little copper around the hole of a via.
    AnnularRing,
}

/// A broken rule.
#[derive(Debug, PartialEq)]
pub struct Violation<N> {
    /// How it was broken.
    pub class: ViolationClass,
    /// On which layer.
    pub layer: u32,
    /// Where.
    pub location: (N, N),
    /// Between which nets.
    pub nets: (String, String),
    /// What was found.
    pub measured: N,
    /// What the rule asks for.
    pub required: N,
}

impl<N: Copy> Clone for Segment<N> {
    fn clone(&self) -> (r: Segment<N>)
        ensures
            r.net@ == self.net@,
            r == (Segment { net: r.net, ..*self }),
    {
        Segment {
            net: self.net.clone(),
            layer: self.layer,
            a: self.a,
            b: self.b,
            width: self.width,
        }
    }
}

impl<N: Copy> Clone for Pad<N> {
    fn clone(&self) -> (r: Pad<N>)
        ensures
            r.net.deep_view() == self.net.deep_view(),
            r == (Pad { net: r.net, ..*self }),
    {
        let net: Option<String> = match &self.net {
            Some(s) => Some(s.clone()),
            None => None,
        };
        Pad {
            net,
            layer: self.layer,
            center: self.center,
            width: self.width,
            height: self.height,
        }
    }
}

impl<N: Copy> Clone for Via<N> {
    fn clone(&self) -> (r: Via<N>)
        ensures
            r.net@ == self.net@,
            r == (Via { net: r.net, ..*self }),
    {
        Via {
            net: self.net.clone(),
            center: self.center,
            pad_diameter: self.pad_diameter,
            drill_diameter: self.drill_diameter,
            from_layer: self.from_layer,
            to_layer: self.to_layer,
            antipad_radius: self.antipad_radius,
        }
    }
}

impl<N: Copy> Clone for Violation<N> {
    fn clone(&self) -> (r: Violation<N>)
        ensures
            r.nets.deep_view() == self.nets.deep_view(),
            r == (Violation { nets: r.nets, ..*self }),
    {
        Violation {
            class: self.class,
            layer: self.layer,
            location: self.location,
            nets: (self.nets.0.clone(), self.nets.1.clone()),
            measured: self.measured,
            required: self.required,
        }
    }
}

/// The layers are for the same.
pub open spec fn same_layer(a: LayerKind, b: LayerKind) -> bool {
    match (a, b) {
        (LayerKind::Signal, LayerKind::Signal) => true,
        (LayerKind::Plane { net: x }, LayerKind::Plane { net: y }) => x@ == y@,
        _ => false,
    }
}

/// The same layers.
fn copy_layers(layers: &Vec<LayerKind>) -> (r: Vec<LayerKind>)
    ensures
        r@.len() == layers@.len(),
        forall|i: int| 0 <= i < r@.len() ==> same_layer(#[trigger] r@[i], layers@[i]),
{
    let mut r: Vec<LayerKind> = Vec::new();
    let mut i: usize = 0;
    while i < layers.len()
        invariant
            i <= layers@.len(),
            r@.len() == i,
            forall|j: int| 0 <= j < i ==> same_layer(#[trigger] r@[j], layers@[j]),
        decreases layers@.len() - i,
    {
        let layer: LayerKind = match &layers[i] {
            LayerKind::Signal => LayerKind::Signal,
            LayerKind::Plane { net } => LayerKind::Plane { net: net.clone() },
        };
        r.push(layer);
        i += 1;
    }
    r
}

impl<N: Copy> Clone for DrcBoard<N> {
    fn clone(&self) -> (r: DrcBoard<N>)
        ensures
            r.layers@.len() == self.layers@.len(),
            forall|i: int|
                0 <= i < r.layers@.len() ==> same_layer(#[trigger] r.layers@[i], self.layers@[i]),
            r.segments@.len() == self.segments@.len(),
            forall|i: int|
                0 <= i < r.segments@.len() ==> {
                    let s = #[trigger] r.segments@[i];
                    s.net@ == self.segments@[i].net@ && s == (Segment {
                        net: s.net,
                        ..self.segments@[i]
                    })
                },
            r.pads@.len() == self.pads@.len(),
            forall|i: int|
                0 <= i < r.pads@.len() ==> {
                    let p = #[trigger] r.pads@[i];
                    p.net.deep_view() == self.pads@[i].net.deep_view() && p == (Pad {
                        net: p.net,
                        ..self.pads@[i]
                    })
                },
            r.vias@.len() == self.vias@.len(),
            forall|i: int|
                0 <= i < r.vias@.len() ==> {
                    let v = #[trigger] r.vias@[i];
                    v.net@ == self.vias@[i].net@ && v == (Via { net: v.net, ..self.vias@[i] })
                },
            r.rules == self.rules,
    {
        DrcBoard {
            layers: copy_layers(&self.layers),
            segments: self.segments.clone(),
            pads: self.pads.clone(),
            vias: self.vias.clone(),
            rules: self.rules,
        }
    }
}

/// How many rules were broken, and how.
#[derive(Clone, Debug, PartialEq, Eq)]
pub struct DrcSummary {
    /// All of them.
    pub total: usize,
    /// Copper of different nets too close.
    pub clearance: usize,
    /// Vias through planes of other nets.
    pub via_through_plane: usize,
    /// Too little copper around holes.
    pub annular_ring: usize,
}

impl Default for DrcSummary {
    fn default() -> (s: DrcSummary)
        ensures
            s == (DrcSummary { total: 0, clearance: 0, via_through_plane: 0, annular_ring: 0 }),
    {
        DrcSummary { total: 0, clearance: 0, via_through_plane: 0, annular_ring: 0 }
    }
}

/// How many of them are of that class.
pub open spec fn count_of<N>(violations: Seq<Violation<N>>, class: ViolationClass) -> nat
    decreases violations.len(),
{
    if violations.len() == 0 {
        0
    } else {
        count_of(violations.drop_last(), class) + if violations.last().class == class {
            1nat
        } else {
            0
        }
    }
}

impl DrcSummary {
    /// How many of the violations are of each class.
    pub fn of<N>(violations: &[Violation<N>]) -> (s: DrcSummary)
        ensures
            s.total == violations@.len(),
            s.clearance == count_of(violations@, ViolationClass::Clearance),
            s.via_through_plane == count_of(violations@, ViolationClass::ViaThroughPlane),
            s.annular_ring == count_of(violations@, ViolationClass::AnnularRing),
            s.total == s.clearance + s.via_through_plane + s.annular_ring,
    {
        let mut s = DrcSummary { total: violations.len(), ..Default::default() };
        let mut i: usize = 0;
        let ghost all = violations@;
        while i < violations.len()
            invariant
                i <= violations@.len(),
                all == violations@,
                s.total == all.len(),
                s.clearance == count_of(all.take(i as int), ViolationClass::Clearance),
                s.via_through_plane == count_of(
                    all.take(i as int),
                    ViolationClass::ViaThroughPlane,
                ),
                s.annular_ring == count_of(all.take(i as int), ViolationClass::AnnularRing),
                s.clearance + s.via_through_plane + s.annular_ring == i,
            decreases violations@.len() - i,
        {
            assert(all.take(i + 1).drop_last() =~= all.take(i as int));
            match violations[i].class {
                ViolationClass::Clearance => {
                    s.clearance = s.clearance + 1;
                },
                ViolationClass::ViaThroughPlane => {
                    s.via_through_plane = s.via_through_plane + 1;
                },
                ViolationClass::AnnularRing => {
                    s.annular_ring = s.annular_ring + 1;
                },
            }
            i += 1;
        }
        assert(all.take(all.len() as int) =~= all);
        s
    }

    /// Whether no rule was broken.
    pub fn is_clean(&self) -> (r: bool)
        ensures
            r == (self.total == 0),
    {
        self.total == 0
    }
}

/// The lower of two layers.
pub open spec fn low(a: u32, b: u32) -> u32 {
    if a < b {
        a
    } else {
        b
    }
}

/// The higher of two layers.
pub open spec fn high(a: u32, b: u32) -> u32 {
    if a < b {
        b
    } else {
        a
    }
}

/// The lower of two layers.
fn low_of(a: u32, b: u32) -> (r: u32)
    ensures
        r == low(a, b),
{
    if a < b {
        a
    } else {
        b
    }
}

/// The higher of two layers.
fn high_of(a: u32, b: u32) -> (r: u32)
    ensures
        r == high(a, b),
{
    if a < b {
        b
    } else {
        a
    }
}

/// The first and the last layer of the stack that a via from one layer to another is
/// on, if it is on any.
pub open spec fn stack_span(from: u32, to: u32, layer_count: u32) -> Option<(u32, u32)> {
    if low(from, to) >= layer_count {
        None
    } else {
        Some((low(from, to), low(high(from, to), (layer_count - 1) as u32)))
    }
}

/// The first and the last layer of the stack that the via is on, if it is on any.
pub fn in_stack_via_span<N>(via: &Via<N>, layer_count: u32) -> (r: Option<(u32, u32)>)
    ensures
        r == stack_span(via.from_layer, via.to_layer, layer_count),
{
    let lo: u32 = low_of(via.from_layer, via.to_layer);
    if lo >= layer_count {
        return None;
    }
    Some((lo, low_of(high_of(via.from_layer, via.to_layer), layer_count - 1)))
}

/// The layer is one of those from the first to the last.
pub open spec fn spans(span: Option<(u32, u32)>, layer: u32) -> bool {
    match span {
        Some((lo, hi)) => lo <= layer <= hi,
        None => false,
    }
}

/// A via is on the layers of the stack between its ends, whichever way round they are
/// given.
pub proof fn law_span_is_what_is_between(from: u32, to: u32, layer_count: u32, layer: u32)
    ensures
        stack_span(from, to, layer_count) == stack_span(to, from, layer_count),
        layer < layer_count && (from <= layer <= to || to <= layer <= from) <==> spans(
            stack_span(from, to, layer_count),
            layer,
        ),
{
}

/// Copper of these nets must keep apart: the nets differ, or one of them is not known.
pub open spec fn conflict(a: Option<Seq<char>>, b: Option<Seq<char>>) -> bool {
    a is None || b is None || a != b
}

/// Whether copper of these nets must keep apart.
pub fn nets_conflict(a: &Option<String>, b: &Option<String>) -> (r: bool)
    ensures
        r == conflict(a.deep_view(), b.deep_view()),
{
    match (a, b) {
        (Some(x), Some(y)) => !same_text(x, y),
        _ => true,
    }
}

/// Conflict does not depend on which net comes first.
pub proof fn law_conflict_is_mutual(a: Option<Seq<char>>, b: Option<Seq<char>>)
    ensures
        conflict(a, b) == conflict(b, a),
{
}

/// Where a class comes in reports.
pub open spec fn class_rank(c: ViolationClass) -> u8 {
    match c {
        ViolationClass::Clearance => 0,
        ViolationClass::ViaThroughPlane => 1,
        ViolationClass::AnnularRing => 2,
    }
}

/// Where a class comes in reports.
pub fn class_order(c: ViolationClass) -> (r: u8)
    ensures
        r == class_rank(c),
{
    match c {
        ViolationClass::Clearance => 0,
        ViolationClass::ViaThroughPlane => 1,
        ViolationClass::AnnularRing => 2,
    }
}

/// What a piece of copper is.
#[derive(Clone, Copy, Debug, PartialEq, Eq)]
pub enum Copper {
    /// A trace.
    Trace,
    /// The copper of a via.
    Via,
    /// A pad.
    Pad,
}

/// Rules for certain pieces of copper.
#[derive(Clone, Copy, Debug, PartialEq)]
pub struct PadClearances<N> {
    /// Between traces and pads, and between traces and vias.
    pub trace_to_pad: N,
    /// Between vias and pads.
    pub via_to_pad: N,
    /// Between pads.
    pub pad_to_pad: N,
    /// Between the holes of vias.
    pub via_hole_to_hole: Option<N>,
}

/// The clearance that two pieces of copper must keep.
pub open spec fn clearance_between<N>(
    generic: N,
    special: Option<PadClearances<N>>,
    a: Copper,
    b: Copper,
) -> N {
    match special {
        None => generic,
        Some(rules) => match (a, b) {
            (Copper::Trace, Copper::Pad) | (Copper::Pad, Copper::Trace) => rules.trace_to_pad,
            (Copper::Trace, Copper::Via) | (Copper::Via, Copper::Trace) => rules.trace_to_pad,
            (Copper::Via, Copper::Pad) | (Copper::Pad, Copper::Via) => rules.via_to_pad,
            (Copper::Pad, Copper::Pad) => rules.pad_to_pad,
            (Copper::Trace, Copper::Trace) | (Copper::Via, Copper::Via) => generic,
        },
    }
}

/// The clearance that two pieces of copper must keep.
pub fn required_clearance<N: Copy>(
    generic: N,
    special: Option<PadClearances<N>>,
    a: Copper,
    b: Copper,
) -> (r: N)
    ensures
        r == clearance_between(generic, special, a, b),
{
    match special {
        None => generic,
        Some(rules) => match (a, b) {
            (Copper::Trace, Copper::Pad) | (Copper::Pad, Copper::Trace) => rules.trace_to_pad,
            (Copper::Trace, Copper::Via) | (Copper::Via, Copper::Trace) => rules.trace_to_pad,
            (Copper::Via, Copper::Pad) | (Copper::Pad, Copper::Via) => rules.via_to_pad,
            (Copper::Pad, Copper::Pad) => rules.pad_to_pad,
            (Copper::Trace, Copper::Trace) | (Copper::Via, Copper::Via) => generic,
        },
    }
}

/// The clearance does not depend on which piece of copper comes first.
pub proof fn law_clearance_is_mutual<N>(
    generic: N,
    special: Option<PadClearances<N>>,
    a: Copper,
    b: Copper,
)
    ensures
        clearance_between(generic, special, a, b) == clearance_between(generic, special, b, a),
{
}

/// Two nets in the order of their names.
pub open spec fn nets_in_order(a: Seq<char>, b: Seq<char>) -> (Seq<char>, Seq<char>) {
    if crate::sorting::key_less(crate::sorting::text_key(b), crate::sorting::text_key(a)) {
        (b, a)
    } else {
        (a, b)
    }
}

/// Two nets in the order of their names; one that is not known comes as an empty name.
pub fn ordered_nets(a: &Option<String>, b: &Option<String>) -> (r: (String, String))
    ensures
        r.deep_view() == nets_in_order(name_of(a.deep_view()), name_of(b.deep_view())),
{
    let x: String = owned_name(a);
    let y: String = owned_name(b);
    let mut kx: Vec<i64> = Vec::new();
    let mut ky: Vec<i64> = Vec::new();
    push_text(&mut kx, &x);
    push_text(&mut ky, &y);
    assert(kx@ =~= crate::sorting::text_key(x@));
    assert(ky@ =~= crate::sorting::text_key(y@));
    if is_key_less(&ky, &kx) {
        (y, x)
    } else {
        (x, y)
    }
}

/// The name of a net; empty where it is not known.
pub open spec fn name_of(net: Option<Seq<char>>) -> Seq<char> {
    match net {
        Some(s) => s,
        None => seq![],
    }
}

/// The name of a net; empty where it is not known.
fn owned_name(net: &Option<String>) -> (r: String)
    ensures
        r@ == name_of(net.deep_view()),
{
    match net {
        Some(s) => s.clone(),
        None => {
            let r: String = String::new();
            assert(r@ =~= seq![]);
            r
        },
    }
}

/// The first layer of the stack that two vias are both on.
pub open spec fn first_shared(a: Option<(u32, u32)>, b: Option<(u32, u32)>) -> Option<u32> {
    match (a, b) {
        (Some((a_lo, a_hi)), Some((b_lo, b_hi))) => if a_lo <= b_hi && b_lo <= a_hi {
            Some(high(a_lo, b_lo))
        } else {
            None
        },
        _ => None,
    }
}

/// The first layer of the stack that two vias are both on.
pub fn shared_layer<N>(a: &Via<N>, b: &Via<N>, layer_count: u32) -> (r: Option<u32>)
    ensures
        r == first_shared(
            stack_span(a.from_layer, a.to_layer, layer_count),
            stack_span(b.from_layer, b.to_layer, layer_count),
        ),
{
    match (in_stack_via_span(a, layer_count), in_stack_via_span(b, layer_count)) {
        (Some((a_lo, a_hi)), Some((b_lo, b_hi))) => if a_lo <= b_hi && b_lo <= a_hi {
            Some(high_of(a_lo, b_lo))
        } else {
            None
        },
        _ => None,
    }
}

/// The top layer of two vias.
pub fn top_layer<N>(a: &Via<N>, b: &Via<N>) -> (r: u32)
    ensures
        r == low(low(a.from_layer, a.to_layer), low(b.from_layer, b.to_layer)),
{
    low_of(low_of(a.from_layer, a.to_layer), low_of(b.from_layer, b.to_layer))
}

/// The layer is poured with the copper of another net than this.
pub open spec fn is_foreign_plane(layer: LayerKind, net: Seq<char>) -> bool {
    match layer {
        LayerKind::Signal => false,
        LayerKind::Plane { net: other } => other@ != net,
    }
}

/// The layers from `lo` up to `hi` that are poured with the copper of another net.
pub open spec fn foreign_planes(layers: Seq<LayerKind>, net: Seq<char>, lo: int, hi: int) -> Seq<
    u32,
>
    decreases hi - lo,
{
    if hi <= lo {
        seq![]
    } else {
        let rest = foreign_planes(layers, net, lo, hi - 1);
        if is_foreign_plane(layers[hi - 1], net) {
            rest.push((hi - 1) as u32)
        } else {
            rest
        }
    }
}

/// The planes of other nets that a via goes through, from the top down.
pub fn crossed_planes<N>(board: &DrcBoard<N>, via: &Via<N>) -> (r: Vec<u32>)
    requires
        board.layers@.len() <= u32::MAX,
    ensures
        r@ == match stack_span(via.from_layer, via.to_layer, board.layers@.len() as u32) {
            Some((lo, hi)) => foreign_planes(board.layers@, via.net@, lo as int, hi + 1),
            None => seq![],
        },
{
    let mut r: Vec<u32> = Vec::new();
    if let Some((lo, hi)) = in_stack_via_span(via, board.layers.len() as u32) {
        let mut layer: u32 = lo;
        while layer <= hi
            invariant
                lo <= layer <= hi + 1,
                hi < board.layers@.len() <= u32::MAX,
                r@ == foreign_planes(board.layers@, via.net@, lo as int, layer as int),
            decreases hi + 1 - layer,
        {
            let foreign: bool = match &board.layers[layer as usize] {
                LayerKind::Signal => false,
                LayerKind::Plane { net } => !same_text(net, &via.net),
            };
            if foreign {
                r.push(layer);
            }
            layer += 1;
        }
    }
    r
}

/// A via goes through a plane exactly where the layer is in the stack, between the ends
/// of the via, and poured with another net.
pub proof fn law_crossed_planes(layers: Seq<LayerKind>, net: Seq<char>, lo: int, hi: int, k: u32)
    requires
        0 <= lo,
        hi <= layers.len(),
        layers.len() <= u32::MAX,
    ensures
        foreign_planes(layers, net, lo, hi).contains(k) <==> lo <= k < hi && is_foreign_plane(
            layers[k as int],
            net,
        ),
    decreases hi - lo,
{
    if lo < hi {
        law_crossed_planes(layers, net, lo, hi - 1, k);
        let rest = foreign_planes(layers, net, lo, hi - 1);
        let last = (hi - 1) as u32;
        let all = rest.push(last);
        assert(all.contains(k) <==> rest.contains(k) || k == last) by {
            if rest.contains(k) {
                let i = choose|i: int| 0 <= i < rest.len() && rest[i] == k;
                assert(all[i] == k);
            }
            if k == last {
                assert(all[rest.len() as int] == k);
            }
        }
    }
}

} // verus!
