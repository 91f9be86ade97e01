//! Component placements from a pick-and-place export.
use vstd::prelude::*;

use crate::layers::has_name;
use crate::text::same_text;

verus! {

/// What the export says that it is.
pub open spec fn pnp_schema() -> Seq<char> {
    "wn.kicad_cruncher.pnp.v1"@
}

/// A component in the export.
#[derive(Debug, Clone, PartialEq)]
pub struct PnpPlacement<N> {
    /// The component.
    pub designator: String,
    /// The side that it is on.
    pub layer: String,
    /// Where it is, across.
    pub center_x: N,
    /// Where it is, up.
    pub center_y: N,
    /// How far it is turned, in degrees.
    pub rotation: N,
}

/// An export.
#[derive(Debug, Clone, PartialEq)]
pub struct PnpDocument<N> {
    /// What it says that it is.
    pub schema: String,
    /// What its numbers measure.
    pub units: Option<String>,
    /// The components.
    pub placements: Vec<PnpPlacement<N>>,
}

/// Something placed on a board.
#[derive(Debug, Clone, PartialEq)]
pub struct Pad<N> {
    /// The net, where it is known.
    pub net: Option<String>,
    /// The component.
    pub designator: String,
    /// Where it is, across.
    pub x: N,
    /// Where it is, up.
    pub y: N,
    /// The side that it is on.
    pub layer: String,
    /// How far it is turned, in degrees.
    pub rotation: N,
}

/// What is placed on a board.
#[derive(Debug, Clone, PartialEq)]
pub struct BoardIr<N> {
    /// The pads, one for each component.
    pub pads: Vec<Pad<N>>,
    /// The sides that pads are on, each where it first comes.
    pub layers: Vec<String>,
    /// The outline of the board.
    pub outline: Vec<(N, N)>,
    /// What the numbers measure.
    pub units: Option<String>,
}

/// The sides of the components.
pub open spec fn sides<N>(placements: Seq<PnpPlacement<N>>) -> Seq<Seq<char>> {
    placements.map_values(|p: PnpPlacement<N>| p.layer@)
}

/// The pad is where the component is, and has no net.
pub open spec fn is_pad_of<N>(pad: Pad<N>, p: PnpPlacement<N>) -> bool {
    &&& pad.net is None
    &&& pad.designator@ == p.designator@
    &&& pad.x == p.center_x
    &&& pad.y == p.center_y
    &&& pad.layer@ == p.layer@
    &&& pad.rotation == p.rotation
}

/// The board of an export: a pad for each component, and neither nets nor an outline.
/// An export that says that it is something else is handed back.
pub fn board_from_pnp<N: Copy>(doc: PnpDocument<N>) -> (r: Result<BoardIr<N>, String>)
    ensures
        r is Ok <==> doc.schema@ == pnp_schema(),
        r is Err ==> r->Err_0 == doc.schema,
        r is Ok ==> {
            let ir = r->Ok_0;
            &&& ir.units == doc.units
            &&& ir.outline@.len() == 0
            &&& ir.layers.deep_view() == crate::library::distinct(sides(doc.placements@))
            &&& ir.pads@.len() == doc.placements@.len()
            &&& forall|i: int|
                0 <= i < ir.pads@.len() ==> is_pad_of(#[trigger] ir.pads@[i], doc.placements@[i])
        },
{
    if !same_text(&doc.schema, "wn.kicad_cruncher.pnp.v1") {
        return Err(doc.schema);
    }
    let mut layers: Vec<String> = Vec::new();
    let mut pads: Vec<Pad<N>> = Vec::new();
    let placements: Vec<PnpPlacement<N>> = doc.placements;
    let ghost all = sides(placements@);
    let mut i: usize = 0;
    assert(layers.deep_view() =~= crate::library::distinct(all.take(0)));
    while i < placements.len()
        invariant
            i <= placements@.len(),
            all == sides(placements@),
            pads@.len() == i,
            layers.deep_view() == crate::library::distinct(all.take(i as int)),
            forall|j: int| 0 <= j < i ==> is_pad_of(#[trigger] pads@[j], placements@[j]),
        decreases placements@.len() - i,
    {
        let p: &PnpPlacement<N> = &placements[i];
        proof {
            assert(all.take(i + 1).drop_last() =~= all.take(i as int));
            assert(all[i as int] == p.layer@);
        }
        let ghost before = layers.deep_view();
        if !has_name(&layers, &p.layer) {
            layers.push(p.layer.clone());
            assert(layers.deep_view() =~= before.push(p.layer@));
        }
        pads.push(
            Pad {
                net: None,
                designator: p.designator.clone(),
                x: p.center_x,
                y: p.center_y,
                layer: p.layer.clone(),
                rotation: p.rotation,
            },
        );
        i += 1;
    }
    assert(all.take(all.len() as int) =~= all);
    Ok(BoardIr { pads, layers, outline: Vec::new(), units: doc.units })
}

/// A pad stands where its component does, on its side and turned as it is, and belongs to no
/// net.
pub proof fn law_pads_stand_for_components<N>(pad: Pad<N>, p: PnpPlacement<N>)
    requires
        is_pad_of(pad, p),
    ensures
        (pad.x, pad.y) == (p.center_x, p.center_y),
        pad.rotation == p.rotation,
        pad.layer@ == p.layer@,
        pad.designator@ == p.designator@,
        pad.net is None,
{
}

/// The sides of a board are those that its components are on, each where it first comes.
pub proof fn law_sides_are_those_of_components<N>(placements: Seq<PnpPlacement<N>>, side: Seq<char>)
    ensures
        crate::parts_laws::are_first_seen(
            sides(placements),
            crate::library::distinct(sides(placements)),
        ),
        (exists|i: int| 0 <= i < placements.len() && (#[trigger] placements[i]).layer@ == side)
            <==> crate::library::distinct(sides(placements)).contains(side),
{
    let s = sides(placements);
    let out = crate::library::distinct(s);
    crate::parts_laws::law_names_are_kept_once(s);
    let at = choose|at: Seq<int>| #[trigger] crate::parts_laws::are_new_places(s, out, at);
    if exists|i: int| 0 <= i < placements.len() && (#[trigger] placements[i]).layer@ == side {
        let i = choose|i: int|
            0 <= i < placements.len() && (#[trigger] placements[i]).layer@ == side;
        assert(s[i] == side);
        crate::parts_laws::lemma_some_new(s, i);
        let k = choose|k: int| crate::parts_laws::is_new(s, k) && s[k] == s[i];
        assert(at.contains(k));
        let j = choose|j: int| 0 <= j < at.len() && at[j] == k;
        assert(crate::parts_laws::is_new(s, at[j]));
        assert(out[j] == side);
    }
    if out.contains(side) {
        let j = choose|j: int| 0 <= j < out.len() && out[j] == side;
        assert(crate::parts_laws::is_new(s, at[j]));
        assert(placements[at[j]].layer@ == side);
    }
}

} // verus!
