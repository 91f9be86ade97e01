//! What holds of whatever a design says.
use vstd::prelude::*;

use crate::design::{BoardPin, Resolution};
use crate::ingest::Said;
use crate::sexpr::Tree;

verus! {

/// The board with another factor in its node `i`, which gives the resolution.
pub open spec fn with_factor(pcb: Tree, i: int, factor: Seq<char>) -> Tree {
    let nodes = crate::sexpr::items(pcb);
    Tree::List(
        nodes.update(
            i,
            Tree::List(crate::sexpr::items(nodes[i]).update(2, Tree::Atom(factor))),
        ),
    )
}

/// What a design says, with another factor.
pub open spec fn said_with_factor(said: Said, factor: Seq<char>) -> Said {
    Said { resolution: Resolution { divisor: factor, ..said.resolution }, ..said }
}

/// Node `i` is the first of the board that gives a resolution, with a factor.
pub open spec fn gives_resolution(pcb: Tree, i: int) -> bool {
    let nodes = crate::sexpr::items(pcb);
    &&& 0 <= i < nodes.len()
    &&& crate::sexpr::word(nodes[i], 0) == Some("resolution"@)
    &&& crate::sexpr::word(nodes[i], 2) is Some
    &&& crate::collect::collect(nodes.take(i), crate::sexpr::named("resolution"@)).len() == 0
}

/// The text is a number that is finite and above zero in double precision.
pub open spec fn is_factor(text: Seq<char>) -> bool {
    crate::number::is_number(text) && crate::magnitude::is_positive(text)
}

/// Other items that are not picked make no difference.
proof fn lemma_collect_other<A, B>(items: Seq<A>, pick: spec_fn(A) -> Option<B>, i: int, x: A)
    requires
        0 <= i < items.len(),
        pick(items[i]) is None,
        pick(x) is None,
    ensures
        crate::collect::collect(items.update(i, x), pick) == crate::collect::collect(items, pick),
    decreases items.len(),
{
    let other = items.update(i, x);
    if i == items.len() - 1 {
        assert(other.drop_last() =~= items.drop_last());
    } else {
        lemma_collect_other(items.drop_last(), pick, i, x);
        assert(other.drop_last() =~= items.drop_last().update(i, x));
    }
}

/// The factor is in no list but the resolution.
proof fn lemma_other_lists(pcb: Tree, i: int, factor: Seq<char>, name: Seq<char>)
    requires
        gives_resolution(pcb, i),
        name != "resolution"@,
    ensures
        crate::sexpr::children(with_factor(pcb, i, factor), name) == crate::sexpr::children(
            pcb,
            name,
        ),
        crate::sexpr::child(with_factor(pcb, i, factor), name) == crate::sexpr::child(pcb, name),
{
    let nodes = crate::sexpr::items(pcb);
    let x = Tree::List(crate::sexpr::items(nodes[i]).update(2, Tree::Atom(factor)));
    assert(crate::sexpr::word(x, 0) == Some("resolution"@));
    lemma_collect_other(nodes, crate::sexpr::named(name), i, x);
}

/// None of the lists that a board is read from is called like the resolution.
proof fn lemma_names_differ()
    ensures
        "parser"@ != "resolution"@,
        "structure"@ != "resolution"@,
        "library"@ != "resolution"@,
        "placement"@ != "resolution"@,
        "network"@ != "resolution"@,
        "rule"@ != "resolution"@,
{
    reveal_strlit("parser");
    reveal_strlit("structure");
    reveal_strlit("library");
    reveal_strlit("placement");
    reveal_strlit("network");
    reveal_strlit("rule");
    reveal_strlit("resolution");
    assert("parser"@.len() != "resolution"@.len());
    assert("structure"@.len() != "resolution"@.len());
    assert("library"@.len() != "resolution"@.len());
    assert("placement"@.len() != "resolution"@.len());
    assert("network"@.len() != "resolution"@.len());
    assert("rule"@.len() != "resolution"@.len());
}

/// Boards that differ in the factor of their resolution alone say the same but for it.
proof fn lemma_factor_of_board(pcb: Tree, i: int, factor: Seq<char>)
    requires
        gives_resolution(pcb, i),
        is_factor(crate::sexpr::word(crate::sexpr::items(pcb)[i], 2)->0),
        is_factor(factor),
    ensures
        crate::ingest::read(with_factor(pcb, i, factor)) == match crate::ingest::read(pcb) {
            Ok(said) => Ok(said_with_factor(said, factor)),
            Err(e) => Err(e),
        },
{
    let other = with_factor(pcb, i, factor);
    let nodes = crate::sexpr::items(pcb);
    let changed = crate::sexpr::items(other);
    let pick = crate::sexpr::named("resolution"@);
    lemma_names_differ();
    lemma_other_lists(pcb, i, factor, "parser"@);
    lemma_other_lists(pcb, i, factor, "structure"@);
    lemma_other_lists(pcb, i, factor, "library"@);
    lemma_other_lists(pcb, i, factor, "placement"@);
    lemma_other_lists(pcb, i, factor, "network"@);
    lemma_other_lists(pcb, i, factor, "rule"@);
    crate::collect::lemma_first(nodes, pick, i);
    assert(changed.take(i) =~= nodes.take(i));
    crate::collect::lemma_first(changed, pick, i);
    let res = nodes[i];
    let now = changed[i];
    assert(crate::sexpr::word(now, 1) == crate::sexpr::word(res, 1));
    assert(crate::sexpr::word(now, 2) == Some(factor));
    if let Some(structure) = crate::sexpr::child(pcb, "structure"@) {
        let names = crate::ingest::stack_names(structure);
        assert(crate::via_stack::via_spans(other, names) =~= crate::via_stack::via_spans(
            pcb,
            names,
        ));
    }
}

/// The factor of the resolution is kept apart from all else that a design says: two
/// documents that differ in it alone say the same but for it.
pub proof fn law_factor_is_kept_apart(
    a: Seq<char>,
    b: Seq<char>,
    root_a: Tree,
    root_b: Tree,
    pcb: Tree,
    i: int,
    factor: Seq<char>,
)
    requires
        crate::sexpr::parsed(crate::sexpr::tokens(a)) == Ok::<Tree, crate::sexpr::Flaw>(root_a),
        crate::sexpr::parsed(crate::sexpr::tokens(b)) == Ok::<Tree, crate::sexpr::Flaw>(root_b),
        crate::design::board(root_a) == Ok::<Tree, crate::design::Fault>(pcb),
        crate::design::board(root_b) == Ok::<Tree, crate::design::Fault>(
            with_factor(pcb, i, factor),
        ),
        gives_resolution(pcb, i),
        is_factor(crate::sexpr::word(crate::sexpr::items(pcb)[i], 2)->0),
        is_factor(factor),
    ensures
        crate::ingest::read_text(b) == match crate::ingest::read_text(a) {
            Ok(said) => Ok(said_with_factor(said, factor)),
            Err(e) => Err(e),
        },
{
    lemma_factor_of_board(pcb, i, factor);
}

/// What a pin is called.
pub open spec fn pin_label(pin: BoardPin) -> Seq<char> {
    crate::design::label(pin.at.reference, pin.pin.id)
}

/// The pin is on a layer of the board, and so is its pad, on one layer at least.
pub open spec fn is_on_layers(pin: BoardPin, names: Seq<Seq<char>>) -> bool {
    &&& names.contains(pin.layer)
    &&& pin.pad matches Some(pad) ==> pad.layers.len() > 0 && forall|k: int|
        0 <= k < pad.layers.len() ==> names.contains(#[trigger] pad.layers[k])
}

/// The connection joins two pins of the board or more.
pub open spec fn joins_pins(connection: (Seq<char>, Seq<usize>), pins: Seq<BoardPin>) -> bool {
    &&& connection.1.len() >= 2
    &&& forall|k: int|
        0 <= k < connection.1.len() ==> (#[trigger] connection.1[k]) < pins.len()
}

/// The pins of a design come in the order of their names, and each is on a layer. Every
/// connection joins two pins or more; together with the nets that join fewer they are
/// all the nets that have a name.
pub proof fn law_designs_are_in_order(pcb: Tree, said: Said)
    requires
        crate::ingest::read(pcb) == Ok::<Said, crate::design::Fault>(said),
        said.pins.len() <= usize::MAX,
    ensures
        said.layer_map.len() > 0,
        forall|i: int, j: int|
            0 <= i < j < said.pins.len() ==> pin_label(#[trigger] said.pins[i]) == pin_label(
                #[trigger] said.pins[j],
            ) || crate::sorting::text_less(pin_label(said.pins[i]), pin_label(said.pins[j])),
        forall|i: int|
            0 <= i < said.pins.len() ==> is_on_layers(#[trigger] said.pins[i], said.layer_map),
        forall|c: int|
            0 <= c < said.connections.len() ==> joins_pins(
                #[trigger] said.connections[c],
                said.pins,
            ),
        said.nets_skipped_small >= 0,
        said.connections.len() + said.nets_skipped_small == crate::placement::nets(pcb).len(),
{
    let structure = crate::sexpr::child(pcb, "structure"@)->0;
    let names = crate::ingest::stack_names(structure);
    let nets = crate::placement::nets(pcb);
    let loose = crate::design::spots(
        crate::placement::placements(pcb),
        crate::library::library_images(pcb),
    );
    let keys = crate::design::label_keys(loose);
    let order = crate::sorting::order_of(keys);
    let stacks = crate::library::library_padstacks(pcb);
    crate::sorting::law_an_order_exists(keys);
    assert forall|i: int, j: int| 0 <= i < j < said.pins.len() implies pin_label(
        #[trigger] said.pins[i],
    ) == pin_label(#[trigger] said.pins[j]) || crate::sorting::text_less(
        pin_label(said.pins[i]),
        pin_label(said.pins[j]),
    ) by {
        assert(crate::sorting::precedes(keys, order[i] as int, order[j] as int));
        crate::sorting::lemma_text_is_key(pin_label(said.pins[i]), pin_label(said.pins[j]));
    }
    assert forall|i: int| 0 <= i < said.pins.len() implies is_on_layers(
        #[trigger] said.pins[i],
        said.layer_map,
    ) by {
        let x = crate::design::in_label_order(loose)[i];
        assert(names.contains(names[0]));
        if let Some(stack) = crate::library::stack_named(stacks, x.1.padstack) {
            crate::layers::law_pads_are_on_the_board(stack.layers, names);
        }
    }
    assert forall|c: int| 0 <= c < said.connections.len() implies joins_pins(
        #[trigger] said.connections[c],
        said.pins,
    ) by {
        crate::collect::lemma_collect_origin(nets, crate::ingest::joined_nets(said.pins), c);
        assert forall|k: int| 0 <= k < said.connections[c].1.len() implies (
        #[trigger] said.connections[c].1[k]) < said.pins.len() by {
            crate::ingest::law_connections_join_pins(nets, said.pins, c, k);
        }
    }
    crate::collect::lemma_collect_len(nets, crate::ingest::joined_nets(said.pins));
}

/// A board is read in full or refused: for its resolution, for want of a structure, for more
/// layers than can be numbered, or for its boundary. What it says is what its parts say, each
/// read for itself.
pub proof fn law_designs_say_everything(pcb: Tree, structure: Tree)
    ensures
        ({
            let r = crate::ingest::read(pcb);
            let res = crate::design::resolution(pcb);
            &&& res matches Err(e) ==> r == Err::<Said, crate::design::Fault>(e)
            &&& res is Ok && crate::file_laws::has_no(pcb, "structure"@) ==> r == Err::<
                Said,
                crate::design::Fault,
            >(crate::design::Fault::NoStructure)
            &&& res is Ok && crate::file_laws::is_in(pcb, "structure"@, structure) ==> {
                let layers = crate::dsn::layer_names(structure);
                let bounds = crate::design::boundary(structure);
                &&& layers.len() > u32::MAX ==> r == Err::<Said, crate::design::Fault>(
                    crate::design::Fault::TooManyLayers,
                )
                &&& layers.len() <= u32::MAX ==> (bounds matches Err(e) ==> r == Err::<
                    Said,
                    crate::design::Fault,
                >(e))
                &&& layers.len() <= u32::MAX && bounds is Ok ==> (r matches Ok(said)
                    && says_all(pcb, structure, res->Ok_0, bounds->Ok_0, said))
            }
        }),
{
    crate::file_laws::law_lists_are_found_by_name(pcb, "structure"@);
}

/// What is said is what the parts of the document say.
pub open spec fn says_all(
    pcb: Tree,
    structure: Tree,
    resolution: crate::design::Resolution<Seq<char>>,
    bounds: Seq<(Seq<char>, Seq<char>)>,
    said: Said,
) -> bool {
    let layers = crate::dsn::layer_names(structure);
    let names = said.layer_map;
    let nets = crate::placement::nets(pcb);
    let vias = crate::dsn::via_names(structure);
    &&& layers.len() > 0 ==> names == layers
    &&& layers.len() == 0 ==> names.len() == 1 && names[0] == "top"@
    &&& said.resolution == resolution
    &&& said.boundary == bounds
    &&& said.signal_layers == crate::dsn::signal_layer_names(structure)
    &&& said.width == crate::design::rule_value(pcb, structure, "width"@)
    &&& said.clearance == crate::design::rule_value(pcb, structure, "clearance"@)
    &&& said.components == crate::placement::placements(pcb).len()
    &&& said.pins == crate::design::board_pins(pcb, names)
    &&& said.connections == crate::collect::collect(nets, crate::ingest::joined_nets(said.pins))
    &&& said.nets_skipped_small + said.connections.len() == nets.len()
    &&& said.steps == crate::via_stack::allowed_steps(
        crate::via_stack::known_spans(pcb, vias, names),
        names.len(),
    )
    &&& said.vias_declared == crate::library::distinct(vias).len()
    &&& said.via_pads == crate::collect::collect(
        vias,
        crate::ingest::known_vias(crate::library::library_padstacks(pcb), names),
    )
    &&& said.planes == crate::collect::collect(
        crate::sexpr::children(structure, "plane"@),
        crate::dsn::planes(),
    )
    &&& said.pin_nets == crate::ingest::pin_labels(nets)
}

} // verus!
