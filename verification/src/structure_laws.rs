//! What a document says of the structure of a board: its unit, its layers, its planes, its
//! vias and its rules.
use vstd::prelude::*;

use crate::design::{Fault, Resolution};
use crate::dsn::PlaneDef;
use crate::file_laws::{are_told, begins, has_no, is_first_told, is_in, parts, parts_from, says};
use crate::sexpr::Tree;

verus! {

/// The list has no word at that place.
pub open spec fn says_nothing(n: Tree, k: int) -> bool {
    forall|t: Seq<char>| !(#[trigger] says(n, k, t))
}

/// The texts are the same but for the case of their letters.
pub open spec fn are_alike(a: Seq<char>, b: Seq<char>) -> bool {
    &&& a.len() == b.len()
    &&& forall|i: int|
        0 <= i < a.len() ==> {
            ||| #[trigger] a[i] == b[i]
            ||| 'A' <= a[i] <= 'Z' && a[i] as int + 32 == b[i] as int
            ||| 'A' <= b[i] <= 'Z' && b[i] as int + 32 == a[i] as int
        }
}

/// Texts that are alike are the same where all letters are made small, and only those.
pub proof fn law_case_is_ignored(a: Seq<char>, b: Seq<char>)
    ensures
        are_alike(a, b) <==> crate::text::lowered(a) == crate::text::lowered(b),
{
    let (x, y) = (crate::text::lowered(a), crate::text::lowered(b));
    if are_alike(a, b) {
        assert forall|i: int| 0 <= i < a.len() implies x[i] == y[i] by {
            assert(a[i] == a[i]);
        }
        assert(x =~= y);
    }
    if x == y {
        assert(a.len() == x.len() && b.len() == y.len());
        assert forall|i: int| 0 <= i < a.len() implies {
            ||| #[trigger] a[i] == b[i]
            ||| 'A' <= a[i] <= 'Z' && a[i] as int + 32 == b[i] as int
            ||| 'A' <= b[i] <= 'Z' && b[i] as int + 32 == a[i] as int
        } by {
            assert(x[i] == crate::text::lower(a[i]) && y[i] == crate::text::lower(b[i]));
        }
    }
}

/// The board of a document is the document itself where it begins with `pcb`, and otherwise
/// the first list in it that does.
pub proof fn law_board_is_found(root: Tree, b: Tree)
    ensures
        begins(root, "pcb"@) ==> crate::design::board(root) == Ok::<Tree, Fault>(root),
        !begins(root, "pcb"@) && is_in(root, "pcb"@, b) ==> crate::design::board(root) == Ok::<
            Tree,
            Fault,
        >(b),
        !begins(root, "pcb"@) && has_no(root, "pcb"@) ==> crate::design::board(root) == Err::<
            Tree,
            Fault,
        >(Fault::NoBoard),
{
    crate::file_laws::law_lists_are_found_by_name(root, "pcb"@);
    crate::file_laws::lemma_begins(root, "pcb"@);
}

/// Names of layers.
pub open spec fn tells_layer() -> spec_fn(Tree, Seq<char>) -> bool {
    |n: Tree, t: Seq<char>| begins(n, "layer"@) && says(n, 1, t)
}

/// The list says of which type it is.
pub open spec fn is_of_type(n: Tree, t: Seq<char>) -> bool {
    exists|kind: Tree| #[trigger] is_in(n, "type"@, kind) && says(kind, 1, t)
}

/// Names of layers that carry signals.
pub open spec fn tells_signal_layer() -> spec_fn(Tree, Seq<char>) -> bool {
    |n: Tree, t: Seq<char>| begins(n, "layer"@) && is_of_type(n, "signal"@) && says(n, 1, t)
}

/// Names of layers of some type.
pub open spec fn tells_typed_layer() -> spec_fn(Tree, Seq<char>) -> bool {
    |n: Tree, t: Seq<char>|
        begins(n, "layer"@) && says(n, 1, t) && exists|kind: Seq<char>| #[trigger]
            is_of_type(n, kind)
}

proof fn lemma_type(n: Tree, t: Seq<char>)
    ensures
        is_of_type(n, t) <==> (crate::sexpr::child(n, "type"@) matches Some(kind)
            && crate::sexpr::word(kind, 1) == Some(t)),
{
    crate::file_laws::law_lists_are_found_by_name(n, "type"@);
    match crate::sexpr::child(n, "type"@) {
        Some(kind) => {
            crate::file_laws::lemma_says(kind, 1, t);
            assert(is_in(n, "type"@, kind));
        },
        None => {},
    }
    if is_of_type(n, t) {
        let kind = choose|kind: Tree| #[trigger] is_in(n, "type"@, kind) && says(kind, 1, t);
        crate::file_laws::lemma_says(kind, 1, t);
    }
}

/// The layers of a board are its layers with a name, in the order of the document. Where one
/// of them says of which type it is, those of the type `signal` carry signals, and otherwise
/// all do.
pub proof fn law_layers_are_read(structure: Tree, typed: Seq<Seq<char>>)
    ensures
        are_told(parts(structure), crate::dsn::layer_names(structure), tells_layer()),
        are_told(parts(structure), typed, tells_typed_layer()) ==> are_told(
            parts(structure),
            crate::dsn::signal_layer_names(structure),
            if typed.len() == 0 {
                tells_layer()
            } else {
                tells_signal_layer()
            },
        ),
{
    let layer = "layer"@;
    assert forall|a: Tree, b: Seq<char>| #[trigger] tells_layer()(a, b) <==> begins(a, layer)
        && crate::dsn::second_words()(a) == Some(b) by {
        crate::file_laws::lemma_says(a, 1, b);
    }
    crate::file_laws::lemma_children_tell(
        structure,
        layer,
        crate::dsn::second_words(),
        tells_layer(),
    );
    assert forall|a: Tree, b: Seq<char>| #[trigger]
        tells_signal_layer()(a, b) <==> begins(a, layer) && crate::dsn::signal_layers()(a) == Some(
        b,
    ) by {
        crate::file_laws::lemma_says(a, 1, b);
        lemma_type(a, "signal"@);
    }
    crate::file_laws::lemma_children_tell(
        structure,
        layer,
        crate::dsn::signal_layers(),
        tells_signal_layer(),
    );
    assert forall|a: Tree, b: Seq<char>| #[trigger]
        tells_typed_layer()(a, b) <==> begins(a, layer) && crate::dsn::typed_layers()(a) == Some(
        b,
    ) by {
        crate::file_laws::lemma_says(a, 1, b);
        match crate::sexpr::child(a, "type"@) {
            Some(kind) => match crate::sexpr::word(kind, 1) {
                Some(t) => {
                    lemma_type(a, t);
                },
                None => {
                    assert forall|t: Seq<char>| !(#[trigger] is_of_type(a, t)) by {
                        lemma_type(a, t);
                    }
                },
            },
            None => {
                assert forall|t: Seq<char>| !(#[trigger] is_of_type(a, t)) by {
                    lemma_type(a, t);
                }
            },
        }
    }
    crate::file_laws::lemma_children_tell(
        structure,
        layer,
        crate::dsn::typed_layers(),
        tells_typed_layer(),
    );
    if are_told(parts(structure), typed, tells_typed_layer()) {
        assert forall|a: Tree, x: Seq<char>, y: Seq<char>| #[trigger]
            tells_typed_layer()(a, x) && #[trigger] tells_typed_layer()(a, y) implies x == y by {}
        crate::file_laws::lemma_one_telling(
            parts(structure),
            typed,
            crate::collect::collect(
                crate::sexpr::children(structure, layer),
                crate::dsn::typed_layers(),
            ),
            tells_typed_layer(),
        );
    }
}

/// Poured planes.
pub open spec fn tells_plane() -> spec_fn(Tree, PlaneDef<Seq<char>>) -> bool {
    |n: Tree, d: PlaneDef<Seq<char>>|
        {
            &&& begins(n, "plane"@)
            &&& says(n, 1, d.net)
            &&& exists|p: Tree| #[trigger] is_in(n, "polygon"@, p) && says(p, 1, d.layer)
        }
}

/// The planes of a board are all that name a net and, in a polygon, a layer.
pub proof fn law_planes_are_read(structure: Tree)
    ensures
        are_told(
            parts(structure),
            crate::collect::collect(
                crate::sexpr::children(structure, "plane"@),
                crate::dsn::planes(),
            ),
            tells_plane(),
        ),
{
    assert forall|a: Tree, b: PlaneDef<Seq<char>>| #[trigger]
        tells_plane()(a, b) <==> begins(a, "plane"@) && crate::dsn::planes()(a) == Some(b) by {
        crate::file_laws::lemma_says(a, 1, b.net);
        crate::file_laws::law_lists_are_found_by_name(a, "polygon"@);
        match crate::sexpr::child(a, "polygon"@) {
            Some(p) => {
                crate::file_laws::lemma_says(p, 1, b.layer);
                assert(is_in(a, "polygon"@, p));
            },
            None => {},
        }
        if tells_plane()(a, b) {
            let p = choose|p: Tree| #[trigger] is_in(a, "polygon"@, p) && says(p, 1, b.layer);
            crate::file_laws::lemma_says(p, 1, b.layer);
        }
    }
    crate::file_laws::lemma_children_tell(
        structure,
        "plane"@,
        crate::dsn::planes(),
        tells_plane(),
    );
}

/// Words.
pub open spec fn tells_word() -> spec_fn(Tree, Seq<char>) -> bool {
    |n: Tree, t: Seq<char>| n == Tree::Atom(t)
}

/// The vias that a board declares are all the words that follow in its list of vias.
pub proof fn law_via_names_are_read(structure: Tree, v: Tree)
    ensures
        has_no(structure, "via"@) ==> crate::dsn::via_names(structure).len() == 0,
        is_in(structure, "via"@, v) ==> are_told(
            parts_from(v, 1),
            crate::dsn::via_names(structure),
            tells_word(),
        ),
{
    crate::file_laws::law_lists_are_found_by_name(structure, "via"@);
    assert(parts_from(v, 1) =~= crate::dsn::nodes_after(v, 1));
    crate::file_laws::lemma_told(parts_from(v, 1), crate::dsn::words(), tells_word());
}

/// How long the units are: a micrometre has a thousand nanometres, a millimetre a thousand
/// micrometres, an inch a thousand mils, and ten inches are 254 millimetres. Nothing else is a
/// unit.
pub proof fn law_units_are_known(unit: Seq<char>)
    ensures
        crate::design::nanometres("um"@) == Some(1000u64),
        crate::design::nanometres("mm"@)->0 == 1000 * crate::design::nanometres("um"@)->0,
        10 * crate::design::nanometres("inch"@)->0 == 254 * crate::design::nanometres("mm"@)->0,
        crate::design::nanometres("inch"@)->0 == 1000 * crate::design::nanometres("mil"@)->0,
        crate::design::nanometres(unit) is Some <==> (unit == "um"@ || unit == "mm"@ || unit
            == "inch"@ || unit == "mil"@),
{
    reveal_strlit("um");
    reveal_strlit("mm");
    reveal_strlit("inch");
    reveal_strlit("mil");
    assert("um"@[0] == 'u' && "mm"@[0] == 'm' && "mm"@[1] == 'm' && "mil"@[1] == 'i');
    assert("um"@ != "mm"@);
    assert("um"@.len() == 2 && "mm"@.len() == 2 && "inch"@.len() == 4 && "mil"@.len() == 3);
}

/// The document says that its coordinates are multiplied by its resolution.
pub open spec fn says_scaled(pcb: Tree) -> bool {
    exists|p: Tree, h: Tree, t: Seq<char>|
        {
            &&& #[trigger] is_in(pcb, "parser"@, p)
            &&& #[trigger] is_in(p, "host_cad"@, h)
            &&& #[trigger] says(h, 1, t)
            &&& are_alike(t, "bed-of-nails"@)
        }
}

proof fn lemma_scaled(pcb: Tree)
    ensures
        says_scaled(pcb) <==> crate::dsn::is_scaled(pcb),
{
    crate::file_laws::law_lists_are_found_by_name(pcb, "parser"@);
    if crate::dsn::is_scaled(pcb) {
        let p = crate::sexpr::child(pcb, "parser"@)->0;
        crate::file_laws::law_lists_are_found_by_name(p, "host_cad"@);
        let h = crate::sexpr::child(p, "host_cad"@)->0;
        let t = crate::sexpr::word(h, 1)->0;
        law_case_is_ignored(t, "bed-of-nails"@);
        crate::file_laws::lemma_says(h, 1, t);
        assert(is_in(pcb, "parser"@, p) && is_in(p, "host_cad"@, h) && says(h, 1, t));
    }
    if says_scaled(pcb) {
        let (p, h, t) = choose|p: Tree, h: Tree, t: Seq<char>|
            {
                &&& #[trigger] is_in(pcb, "parser"@, p)
                &&& #[trigger] is_in(p, "host_cad"@, h)
                &&& #[trigger] says(h, 1, t)
                &&& are_alike(t, "bed-of-nails"@)
            };
        crate::file_laws::law_lists_are_found_by_name(p, "host_cad"@);
        crate::file_laws::lemma_says(h, 1, t);
        law_case_is_ignored(t, "bed-of-nails"@);
    }
}

/// A board has a resolution exactly where the first of its lists of that name gives a unit
/// that is known and a divisor above zero, and what is missing is what it is refused for.
pub proof fn law_resolution_is_read(pcb: Tree, r: Tree, unit: Seq<char>, divisor: Seq<char>)
    ensures
        has_no(pcb, "resolution"@) ==> crate::design::resolution(pcb) == Err::<
            Resolution<Seq<char>>,
            Fault,
        >(Fault::NoResolution),
        is_in(pcb, "resolution"@, r) ==> {
            let read = crate::design::resolution(pcb);
            &&& says_nothing(r, 1) ==> read == Err::<Resolution<Seq<char>>, Fault>(Fault::NoUnit)
            &&& says(r, 1, unit) && says_nothing(r, 2) ==> read == Err::<
                Resolution<Seq<char>>,
                Fault,
            >(Fault::NoDivisor)
            &&& says(r, 1, unit) && says(r, 2, divisor) ==> read == if !crate::number::is_number(
                divisor,
            ) {
                Err::<Resolution<Seq<char>>, Fault>(Fault::NoDivisor)
            } else if !crate::magnitude::is_positive(divisor) {
                Err(Fault::BadDivisor(divisor))
            } else if unit != "mm"@ && unit != "um"@ && unit != "inch"@ && unit != "mil"@ {
                Err(Fault::UnknownUnit(unit))
            } else {
                Ok(
                    Resolution {
                        unit,
                        nanometres: crate::design::nanometres(unit)->0,
                        divisor,
                        scaled: says_scaled(pcb),
                    },
                )
            }
        },
{
    crate::file_laws::law_lists_are_found_by_name(pcb, "resolution"@);
    crate::file_laws::lemma_says(r, 1, unit);
    crate::file_laws::lemma_says(r, 2, divisor);
    law_units_are_known(unit);
    lemma_scaled(pcb);
    if is_in(pcb, "resolution"@, r) {
        if let Some(t) = crate::sexpr::word(r, 1) {
            crate::file_laws::lemma_says(r, 1, t);
            assert(says(r, 1, t));
        }
        if let Some(t) = crate::sexpr::word(r, 2) {
            crate::file_laws::lemma_says(r, 2, t);
            assert(says(r, 2, t));
        }
    }
}

/// Numbers that lists of that name give.
pub open spec fn tells_setting(property: Seq<char>) -> spec_fn(Tree, Seq<char>) -> bool {
    |n: Tree, t: Seq<char>| begins(n, property) && says(n, 1, t) && crate::number::is_number(t)
}

/// Numbers that rules give for a property: of each rule the first.
pub open spec fn tells_rule(property: Seq<char>) -> spec_fn(Tree, Seq<char>) -> bool {
    |n: Tree, t: Seq<char>|
        begins(n, "rule"@) && is_first_told(parts(n), Some(t), tells_setting(property))
}

proof fn lemma_rule(n: Tree, property: Seq<char>)
    ensures
        is_first_told(parts(n), crate::design::rule_property(n, property), tells_rule(property)),
{
    assert forall|a: Tree, b: Seq<char>| #[trigger]
        tells_setting(property)(a, b) <==> begins(a, property) && crate::design::settings()(a)
        == Some(b) by {
        crate::file_laws::lemma_says(a, 1, b);
    }
    assert forall|a: Tree, x: Seq<char>, y: Seq<char>| #[trigger]
        tells_setting(property)(a, x) && #[trigger] tells_setting(property)(a, y) implies x
        == y by {}
    assert forall|a: Tree, b: Seq<char>| #[trigger]
        tells_rule(property)(a, b) <==> begins(a, "rule"@) && crate::design::rule_settings(
        property,
    )(a) == Some(b) by {
        crate::file_laws::lemma_children_tell(
            a,
            property,
            crate::design::settings(),
            tells_setting(property),
        );
        let found = crate::design::rule_settings(property)(a);
        assert(is_first_told(parts(a), found, tells_setting(property)));
        if is_first_told(parts(a), Some(b), tells_setting(property)) {
            crate::file_laws::lemma_only_first(parts(a), found, b, tells_setting(property));
        }
    }
    crate::file_laws::lemma_children_tell(
        n,
        "rule"@,
        crate::design::rule_settings(property),
        tells_rule(property),
    );
}

/// The number for a property is the first that a rule of the structure gives, and where none
/// does, the first that a rule of the board gives.
pub proof fn law_rules_are_read(pcb: Tree, structure: Tree, property: Seq<char>)
    ensures
        ({
            let r = crate::design::rule_value(pcb, structure, property);
            ||| r is Some && is_first_told(parts(structure), r, tells_rule(property))
            ||| is_first_told(parts(structure), None::<Seq<char>>, tells_rule(property))
                && is_first_told(parts(pcb), r, tells_rule(property))
        }),
{
    lemma_rule(structure, property);
    lemma_rule(pcb, property);
}

} // verus!
