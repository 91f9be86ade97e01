//! The whole of what a Specctra design says about a board.
use vstd::prelude::*;

use crate::dsn::{as_number, gather, numbers_from, uses_resolution_scaled_input};
use crate::layers::{pad_layer_names, LayerMap};
use crate::library::{
    copy_image_pin, copy_shapes, find_image, find_padstack, parse_images, Image, ImagePin,
    PadStack,
};
use crate::magnitude::is_positive_text;
use crate::placement::{copy_placement, Placement};
use crate::sexpr::{Sexpr, SexprError, Tree};
use crate::sorting::{push_text, sorted_order};
use crate::text::{chars_of, same_text, text_of};

verus! {

/// Why a document is not a design.
#[derive(Debug, Clone, PartialEq)]
pub enum DsnError {
    /// It is not one nested list.
    Syntax(SexprError),
    /// It has no `(pcb ...)`.
    NoBoard,
    /// It has no `(resolution ...)`.
    NoResolution,
    /// The resolution names no unit.
    NoUnit,
    /// The resolution gives no number.
    NoDivisor,
    /// The number of the resolution is not finite and above zero in double precision.
    BadDivisor(String),
    /// The unit is not known.
    UnknownUnit(String),
    /// It has no `(structure ...)`.
    NoStructure,
    /// Its layers cannot be numbered.
    TooManyLayers,
    /// The structure has no `(boundary ...)`.
    NoBoundary,
    /// The boundary has no coordinates.
    NoCoordinates,
}

/// Why a document is not a design.
pub enum Fault {
    /// It is not one nested list.
    Syntax(crate::sexpr::Flaw),
    /// It has no `(pcb ...)`.
    NoBoard,
    /// It has no `(resolution ...)`.
    NoResolution,
    /// The resolution names no unit.
    NoUnit,
    /// The resolution gives no number.
    NoDivisor,
    /// The number of the resolution is not finite and above zero in double precision.
    BadDivisor(Seq<char>),
    /// The unit is not known.
    UnknownUnit(Seq<char>),
    /// It has no `(structure ...)`.
    NoStructure,
    /// Its layers cannot be numbered.
    TooManyLayers,
    /// The structure has no `(boundary ...)`.
    NoBoundary,
    /// The boundary has no coordinates.
    NoCoordinates,
}

impl DeepView for DsnError {
    type V = Fault;

    open spec fn deep_view(&self) -> Fault {
        match *self {
            DsnError::Syntax(e) => Fault::Syntax(e.deep_view()),
            DsnError::NoBoard => Fault::NoBoard,
            DsnError::NoResolution => Fault::NoResolution,
            DsnError::NoUnit => Fault::NoUnit,
            DsnError::NoDivisor => Fault::NoDivisor,
            DsnError::BadDivisor(s) => Fault::BadDivisor(s@),
            DsnError::UnknownUnit(s) => Fault::UnknownUnit(s@),
            DsnError::NoStructure => Fault::NoStructure,
            DsnError::TooManyLayers => Fault::TooManyLayers,
            DsnError::NoBoundary => Fault::NoBoundary,
            DsnError::NoCoordinates => Fault::NoCoordinates,
        }
    }
}

/// What came of reading, for contracts.
pub open spec fn outcome<T: DeepView>(r: Result<T, DsnError>) -> Result<T::V, Fault> {
    match r {
        Ok(t) => Ok(t.deep_view()),
        Err(e) => Err(e.deep_view()),
    }
}

/// The board of a document: its root, or a list in it.
pub open spec fn board(root: Tree) -> Result<Tree, Fault> {
    if crate::sexpr::word(root, 0) == Some("pcb"@) {
        Ok(root)
    } else {
        match crate::sexpr::child(root, "pcb"@) {
            Some(pcb) => Ok(pcb),
            None => Err(Fault::NoBoard),
        }
    }
}

/// The board of a document: its root, or a list in it.
pub fn find_board(root: &Sexpr) -> (r: Result<&Sexpr, DsnError>)
    ensures
        outcome(r) == board(root.deep_view()),
{
    if root.is_named("pcb") {
        Ok(root)
    } else {
        match root.child_named("pcb") {
            Some(pcb) => Ok(pcb),
            None => Err(DsnError::NoBoard),
        }
    }
}

/// How many nanometres a unit has.
pub open spec fn nanometres(unit: Seq<char>) -> Option<u64> {
    if unit == "mm"@ {
        Some(1_000_000)
    } else if unit == "um"@ {
        Some(1_000)
    } else if unit == "inch"@ {
        Some(25_400_000)
    } else if unit == "mil"@ {
        Some(25_400)
    } else {
        None
    }
}

/// How many nanometres a unit has.
pub fn unit_nanometres(unit: &str) -> (r: Option<u64>)
    ensures
        r == nanometres(unit@),
{
    if same_text(unit, "mm") {
        Some(1_000_000)
    } else if same_text(unit, "um") {
        Some(1_000)
    } else if same_text(unit, "inch") {
        Some(25_400_000)
    } else if same_text(unit, "mil") {
        Some(25_400)
    } else {
        None
    }
}

/// The unit of a board's coordinates, and how many steps a session divides it into.
#[derive(Debug, Clone, PartialEq, Eq)]
pub struct Resolution<T = String> {
    /// The unit.
    pub unit: T,
    /// How many nanometres the unit has.
    pub nanometres: u64,
    /// How many steps a session divides it into.
    pub divisor: T,
    /// The coordinates of the document are in such steps, not in units.
    pub scaled: bool,
}

impl DeepView for Resolution<String> {
    type V = Resolution<Seq<char>>;

    open spec fn deep_view(&self) -> Resolution<Seq<char>> {
        Resolution {
            unit: self.unit@,
            nanometres: self.nanometres,
            divisor: self.divisor@,
            scaled: self.scaled,
        }
    }
}

/// The resolution of a board.
pub open spec fn resolution(pcb: Tree) -> Result<Resolution<Seq<char>>, Fault> {
    match crate::sexpr::child(pcb, "resolution"@) {
        None => Err(Fault::NoResolution),
        Some(res) => match crate::sexpr::word(res, 1) {
            None => Err(Fault::NoUnit),
            Some(unit) => match crate::dsn::numeric(crate::sexpr::word(res, 2)) {
                None => Err(Fault::NoDivisor),
                Some(divisor) => if !crate::magnitude::is_positive(divisor) {
                    Err(Fault::BadDivisor(divisor))
                } else {
                    match nanometres(unit) {
                        None => Err(Fault::UnknownUnit(unit)),
                        Some(nanometres) => Ok(
                            Resolution {
                                unit,
                                nanometres,
                                divisor,
                                scaled: crate::dsn::is_scaled(pcb),
                            },
                        ),
                    }
                },
            },
        },
    }
}

/// The resolution of a board.
pub fn parse_resolution(pcb: &Sexpr) -> (r: Result<Resolution, DsnError>)
    ensures
        outcome(r) == resolution(pcb.deep_view()),
{
    match pcb.child_named("resolution") {
        None => Err(DsnError::NoResolution),
        Some(res) => match res.word_at(1) {
            None => Err(DsnError::NoUnit),
            Some(unit) => match as_number(res.word_at(2)) {
                None => Err(DsnError::NoDivisor),
                Some(divisor) => if !is_positive_text(&divisor) {
                    Err(DsnError::BadDivisor(divisor))
                } else {
                    match unit_nanometres(unit) {
                        None => Err(DsnError::UnknownUnit(unit.to_owned())),
                        Some(nanometres) => Ok(
                            Resolution {
                                unit: unit.to_owned(),
                                nanometres,
                                divisor,
                                scaled: uses_resolution_scaled_input(pcb),
                            },
                        ),
                    }
                },
            },
        },
    }
}

/// Numbers two by two; an odd one at the end is left out.
pub open spec fn paired(s: Seq<Seq<char>>) -> Seq<(Seq<char>, Seq<char>)> {
    Seq::new((s.len() / 2) as nat, |i: int| (s[2 * i], s[2 * i + 1]))
}

/// The points that bound a board: those of a path, or two corners of a rectangle.
pub open spec fn boundary(structure: Tree) -> Result<Seq<(Seq<char>, Seq<char>)>, Fault> {
    match crate::sexpr::child(structure, "boundary"@) {
        None => Err(Fault::NoBoundary),
        Some(b) => {
            let points = match crate::sexpr::child(b, "path"@) {
                Some(path) => paired(crate::dsn::numbers_after(path, 3)),
                None => match crate::sexpr::child(b, "rect"@) {
                    Some(rect) => {
                        let n = crate::dsn::numbers_after(rect, 2);
                        if n.len() >= 4 {
                            seq![(n[0], n[1]), (n[2], n[3])]
                        } else {
                            seq![]
                        }
                    },
                    None => seq![],
                },
            };
            if points.len() == 0 {
                Err(Fault::NoCoordinates)
            } else {
                Ok(points)
            }
        },
    }
}

/// Numbers two by two; an odd one at the end is left out.
fn pairs(v: &Vec<String>) -> (r: Vec<(String, String)>)
    ensures
        r.deep_view() == paired(v.deep_view()),
{
    let mut r: Vec<(String, String)> = Vec::new();
    let ghost all = v.deep_view();
    let total: usize = v.len();
    let n: usize = total / 2;
    let mut i: usize = 0;
    while i < n
        invariant
            i <= n,
            n == total / 2,
            total == v@.len(),
            all == v.deep_view(),
            r@.len() == i,
            forall|j: int|
                0 <= j < i ==> (#[trigger] r@[j]).0@ == all[2 * j] && r@[j].1@ == all[2 * j + 1],
        decreases n - i,
    {
        assert(all[2 * i] == v@[2 * i]@);
        assert(all[2 * i + 1] == v@[2 * i + 1]@);
        r.push((v[2 * i].clone(), v[2 * i + 1].clone()));
        i += 1;
    }
    assert(r.deep_view() =~= paired(all));
    r
}

/// The points that bound a board: those of a path, or two corners of a rectangle.
pub fn parse_bounds(structure: &Sexpr) -> (r: Result<Vec<(String, String)>, DsnError>)
    ensures
        outcome(r) == boundary(structure.deep_view()),
{
    match structure.child_named("boundary") {
        None => Err(DsnError::NoBoundary),
        Some(b) => {
            let points: Vec<(String, String)> = match b.child_named("path") {
                Some(path) => pairs(&numbers_from(path, 3)),
                None => match b.child_named("rect") {
                    Some(rect) => {
                        let n: Vec<String> = numbers_from(rect, 2);
                        let mut points: Vec<(String, String)> = Vec::new();
                        if n.len() >= 4 {
                            points.push((n[0].clone(), n[1].clone()));
                            points.push((n[2].clone(), n[3].clone()));
                            proof {
                                let s = n.deep_view();
                                assert(s[0] == n@[0]@ && s[1] == n@[1]@);
                                assert(s[2] == n@[2]@ && s[3] == n@[3]@);
                                assert(points.deep_view() =~= seq![(s[0], s[1]), (s[2], s[3])]);
                            }
                        } else {
                            assert(points.deep_view() =~= seq![]);
                        }
                        points
                    },
                    None => {
                        let points: Vec<(String, String)> = Vec::new();
                        assert(points.deep_view() =~= seq![]);
                        points
                    },
                },
            };
            assert(points.deep_view().len() == points@.len());
            if points.len() == 0 {
                Err(DsnError::NoCoordinates)
            } else {
                Ok(points)
            }
        },
    }
}

/// Picks the numbers that lists give.
pub open spec fn settings() -> spec_fn(Tree) -> Option<Seq<char>> {
    |n: Tree| crate::dsn::numeric(crate::sexpr::word(n, 1))
}

/// Picks the first number that a rule gives for a property.
pub open spec fn rule_settings(property: Seq<char>) -> spec_fn(Tree) -> Option<Seq<char>> {
    |rule: Tree| crate::collect::first(crate::sexpr::children(rule, property), settings())
}

/// The first number that the rules of a list give for a property.
pub open spec fn rule_property(n: Tree, property: Seq<char>) -> Option<Seq<char>> {
    crate::collect::first(crate::sexpr::children(n, "rule"@), rule_settings(property))
}

/// The number for a property: that of the structure, or else that of the board.
pub open spec fn rule_value(pcb: Tree, structure: Tree, property: Seq<char>) -> Option<Seq<char>> {
    match rule_property(structure, property) {
        Some(v) => Some(v),
        None => rule_property(pcb, property),
    }
}

/// The number that a list gives.
fn setting(n: &Sexpr) -> (r: Option<String>)
    ensures
        r.deep_view() == settings()(n.deep_view()),
{
    as_number(n.word_at(1))
}

/// The first of the texts.
fn first_text(v: Vec<String>) -> (r: Option<String>)
    ensures
        r.deep_view() == if v.deep_view().len() > 0 {
            Some(v.deep_view()[0])
        } else {
            None
        },
{
    if v.len() > 0 {
        assert(v.deep_view()[0] == v@[0]@);
        Some(v[0].clone())
    } else {
        None
    }
}

/// The first number that a rule gives for a property.
fn rule_setting(rule: &Sexpr, property: &str) -> (r: Option<String>)
    ensures
        r.deep_view() == rule_settings(property@)(rule.deep_view()),
{
    first_text(gather(&rule.children_named(property), setting, Ghost(settings())))
}

/// The first number that the rules of a list give for a property.
pub fn parse_rule_property(n: &Sexpr, property: &str) -> (r: Option<String>)
    ensures
        r.deep_view() == rule_property(n.deep_view(), property@),
{
    let f = |rule: &Sexpr| -> (t: Option<String>)
        ensures
            t.deep_view() == rule_settings(property@)(rule.deep_view()),
        { rule_setting(rule, property) };
    first_text(gather(&n.children_named("rule"), f, Ghost(rule_settings(property@))))
}

/// The number for a property: that of the structure, or else that of the board.
pub fn parse_rule(pcb: &Sexpr, structure: &Sexpr, property: &str) -> (r: Option<String>)
    ensures
        r.deep_view() == rule_value(pcb.deep_view(), structure.deep_view(), property@),
{
    match parse_rule_property(structure, property) {
        Some(v) => Some(v),
        None => parse_rule_property(pcb, property),
    }
}

/// A pin of a component on the board.
#[derive(Debug, Clone, PartialEq, Eq)]
pub struct PlacedPin {
    /// The component.
    pub at: Placement,
    /// The pin of its footprint.
    pub pin: ImagePin,
    /// Its padstack, with the layers of the board that the pad is on, where the library
    /// has it.
    pub pad: Option<PadStack>,
    /// The layer that a trace to the pin ends on.
    pub layer: String,
}

/// A pin of a component on the board.
#[verifier::ext_equal]
pub struct BoardPin {
    /// The component.
    pub at: Placement<Seq<char>>,
    /// The pin of its footprint.
    pub pin: ImagePin<Seq<char>>,
    /// Its padstack, with the layers of the board that the pad is on.
    pub pad: Option<crate::library::Stack>,
    /// The layer that a trace to the pin ends on.
    pub layer: Seq<char>,
}

impl DeepView for PlacedPin {
    type V = BoardPin;

    open spec fn deep_view(&self) -> BoardPin {
        BoardPin {
            at: self.at.deep_view(),
            pin: self.pin.deep_view(),
            pad: self.pad.deep_view(),
            layer: self.layer@,
        }
    }
}

/// A component and a pin of its footprint.
pub type PinSpot = (Placement<Seq<char>>, ImagePin<Seq<char>>);

/// The pins of a component.
pub open spec fn pins_at(
    place: Placement<Seq<char>>,
    images: Seq<crate::library::Footprint>,
) -> Seq<PinSpot> {
    match crate::library::image_named(images, place.image_id) {
        Some(image) => image.pins.map_values(|pin: ImagePin<Seq<char>>| (place, pin)),
        None => seq![],
    }
}

/// The spots name the same pin of the same component.
pub open spec fn same_pin(a: PinSpot, b: PinSpot) -> bool {
    a.0.reference == b.0.reference && a.1.id == b.1.id
}

/// The first of the spots that names this pin.
pub open spec fn is_spot(spots: Seq<PinSpot>, x: PinSpot, i: int) -> bool {
    &&& 0 <= i < spots.len()
    &&& same_pin(spots[i], x)
    &&& forall|j: int| 0 <= j < i ==> !same_pin(#[trigger] spots[j], x)
}

/// The spots with one more; it takes the place of the one that names the same pin.
pub open spec fn put(spots: Seq<PinSpot>, x: PinSpot) -> Seq<PinSpot> {
    if exists|i: int| is_spot(spots, x, i) {
        spots.update(choose|i: int| is_spot(spots, x, i), x)
    } else {
        spots.push(x)
    }
}

/// The spots with more of them, one after the other.
pub open spec fn put_all(spots: Seq<PinSpot>, more: Seq<PinSpot>) -> Seq<PinSpot>
    decreases more.len(),
{
    if more.len() == 0 {
        spots
    } else {
        put(put_all(spots, more.drop_last()), more.last())
    }
}

/// The pins of the components; of two that name the same pin, the later.
pub open spec fn spots(
    places: Seq<Placement<Seq<char>>>,
    images: Seq<crate::library::Footprint>,
) -> Seq<PinSpot>
    decreases places.len(),
{
    if places.len() == 0 {
        seq![]
    } else {
        put_all(spots(places.drop_last(), images), pins_at(places.last(), images))
    }
}

/// No two spots name the same pin.
pub open spec fn all_different(s: Seq<PinSpot>) -> bool {
    forall|i: int, j: int|
        0 <= i < s.len() && 0 <= j < s.len() && i != j ==> !same_pin(
            #[trigger] s[i],
            #[trigger] s[j],
        )
}

/// One spot more leaves all pins different.
pub proof fn lemma_put_different(s: Seq<PinSpot>, x: PinSpot)
    requires
        all_different(s),
    ensures
        all_different(put(s, x)),
{
    if exists|i: int| is_spot(s, x, i) {
        let i = choose|i: int| is_spot(s, x, i);
        assert forall|j: int| 0 <= j < s.len() && j != i implies !same_pin(#[trigger] s[j], x) by {
            assert(!same_pin(s[i], s[j]));
        }
    } else {
        assert forall|j: int| 0 <= j < s.len() implies !same_pin(#[trigger] s[j], x) by {
            if same_pin(s[j], x) {
                lemma_spot(s, x, j);
            }
        }
    }
}

/// Where a spot names the pin, there is a first that does.
pub proof fn lemma_spot(s: Seq<PinSpot>, x: PinSpot, j: int)
    requires
        0 <= j < s.len(),
        same_pin(s[j], x),
    ensures
        exists|i: int| is_spot(s, x, i),
    decreases j,
{
    if exists|k: int| 0 <= k < j && same_pin(#[trigger] s[k], x) {
        let k = choose|k: int| 0 <= k < j && same_pin(#[trigger] s[k], x);
        lemma_spot(s, x, k);
    } else {
        assert(is_spot(s, x, j));
    }
}

proof fn lemma_put_all_different(s: Seq<PinSpot>, more: Seq<PinSpot>)
    requires
        all_different(s),
    ensures
        all_different(put_all(s, more)),
    decreases more.len(),
{
    if more.len() > 0 {
        lemma_put_all_different(s, more.drop_last());
        lemma_put_different(put_all(s, more.drop_last()), more.last());
    }
}

/// Every pin of every component is on the board once.
pub proof fn law_pins_are_different(
    places: Seq<Placement<Seq<char>>>,
    images: Seq<crate::library::Footprint>,
)
    ensures
        all_different(spots(places, images)),
    decreases places.len(),
{
    if places.len() > 0 {
        law_pins_are_different(places.drop_last(), images);
        lemma_put_all_different(
            spots(places.drop_last(), images),
            pins_at(places.last(), images),
        );
    }
}

/// What a pin is called: `REF-PIN`.
pub open spec fn label(reference: Seq<char>, pin: Seq<char>) -> Seq<char> {
    reference + "-"@ + pin
}

/// The names of the pins, as keys.
pub open spec fn label_keys(s: Seq<PinSpot>) -> Seq<Seq<i64>> {
    s.map_values(|x: PinSpot| crate::sorting::text_key(label(x.0.reference, x.1.id)))
}

/// The pins in the order of their names.
pub open spec fn in_label_order(s: Seq<PinSpot>) -> Seq<PinSpot> {
    let order = crate::sorting::order_of(label_keys(s));
    Seq::new(s.len(), |i: int| s[order[i] as int])
}

/// A pin with its pad, on the layers of the board.
pub open spec fn resolved(
    x: PinSpot,
    stacks: Seq<crate::library::Stack>,
    names: Seq<Seq<char>>,
) -> BoardPin {
    let pad = match crate::library::stack_named(stacks, x.1.padstack) {
        Some(stack) => Some(
            crate::library::Stack {
                name: stack.name,
                shapes: stack.shapes,
                layers: crate::layers::pad_layers(stack.layers, names),
            },
        ),
        None => None,
    };
    BoardPin {
        at: x.0,
        pin: x.1,
        pad,
        layer: match pad {
            Some(p) => p.layers[0],
            None => names[0],
        },
    }
}

/// The pins of a board, in the order of their names.
pub open spec fn board_pins(pcb: Tree, names: Seq<Seq<char>>) -> Seq<BoardPin> {
    let all = in_label_order(
        spots(crate::placement::placements(pcb), crate::library::library_images(pcb)),
    );
    let stacks = crate::library::library_padstacks(pcb);
    Seq::new(all.len(), |i: int| resolved(all[i], stacks, names))
}

/// A component and a pin of its footprint, by their places in lists.
struct Spot {
    place: usize,
    image: usize,
    pin: usize,
}

impl Spot {
    /// The places are in the lists.
    spec fn fits(
        &self,
        places: Seq<Placement<Seq<char>>>,
        images: Seq<crate::library::Footprint>,
    ) -> bool {
        &&& self.place < places.len()
        &&& self.image < images.len()
        &&& self.pin < images[self.image as int].pins.len()
    }

    /// The component and the pin.
    spec fn meant(
        &self,
        places: Seq<Placement<Seq<char>>>,
        images: Seq<crate::library::Footprint>,
    ) -> PinSpot {
        (places[self.place as int], images[self.image as int].pins[self.pin as int])
    }
}

/// All of them are in the lists.
spec fn all_fit(
    s: Seq<Spot>,
    places: Seq<Placement<Seq<char>>>,
    images: Seq<crate::library::Footprint>,
) -> bool {
    forall|i: int| 0 <= i < s.len() ==> #[trigger] s[i].fits(places, images)
}

/// The components and the pins.
spec fn all_meant(
    s: Seq<Spot>,
    places: Seq<Placement<Seq<char>>>,
    images: Seq<crate::library::Footprint>,
) -> Seq<PinSpot> {
    s.map_values(|x: Spot| x.meant(places, images))
}

/// Whether the spots name the same pin of the same component.
fn is_same_pin(a: &Spot, b: &Spot, places: &Vec<Placement>, images: &Vec<Image>) -> (r: bool)
    requires
        a.fits(places.deep_view(), images.deep_view()),
        b.fits(places.deep_view(), images.deep_view()),
    ensures
        r == same_pin(
            a.meant(places.deep_view(), images.deep_view()),
            b.meant(places.deep_view(), images.deep_view()),
        ),
{
    proof {
        let x = images@[a.image as int].deep_view();
        let y = images@[b.image as int].deep_view();
        assert(images.deep_view()[a.image as int] == x);
        assert(images.deep_view()[b.image as int] == y);
        assert(x.pins[a.pin as int] == images@[a.image as int].pins@[a.pin as int].deep_view());
        assert(y.pins[b.pin as int] == images@[b.image as int].pins@[b.pin as int].deep_view());
        assert(places.deep_view()[a.place as int] == places@[a.place as int].deep_view());
        assert(places.deep_view()[b.place as int] == places@[b.place as int].deep_view());
    }
    places[a.place].reference == places[b.place].reference && images[a.image].pins[a.pin].id
        == images[b.image].pins[b.pin].id
}

/// One spot more; it takes the place of the one that names the same pin.
fn put_spot(s: &mut Vec<Spot>, x: Spot, places: &Vec<Placement>, images: &Vec<Image>)
    requires
        all_fit(old(s)@, places.deep_view(), images.deep_view()),
        x.fits(places.deep_view(), images.deep_view()),
    ensures
        all_fit(final(s)@, places.deep_view(), images.deep_view()),
        all_meant(final(s)@, places.deep_view(), images.deep_view()) == put(
            all_meant(old(s)@, places.deep_view(), images.deep_view()),
            x.meant(places.deep_view(), images.deep_view()),
        ),
{
    let ghost p = places.deep_view();
    let ghost m = images.deep_view();
    let ghost before = s@;
    let ghost said = all_meant(s@, p, m);
    let ghost want = x.meant(p, m);
    let mut i: usize = 0;
    while i < s.len()
        invariant
            i <= s@.len(),
            s@ == before,
            p == places.deep_view(),
            m == images.deep_view(),
            said == all_meant(before, p, m),
            want == x.meant(p, m),
            all_fit(before, p, m),
            x.fits(p, m),
            forall|j: int| 0 <= j < i ==> !same_pin(#[trigger] said[j], want),
            before == old(s)@,
        decreases s@.len() - i,
    {
        assert(before[i as int].fits(p, m));
        assert(said[i as int] == before[i as int].meant(p, m));
        if is_same_pin(&s[i], &x, places, images) {
            proof {
                assert(is_spot(said, want, i as int));
                assert forall|k: int| is_spot(said, want, k) implies k == i by {
                    if k < i {
                        assert(!same_pin(said[k], want));
                    } else if k > i {
                        assert(!same_pin(said[i as int], want));
                    }
                }
            }
            s.set(i, x);
            proof {
                assert(all_meant(s@, p, m) =~= said.update(i as int, want));
                assert forall|k: int| 0 <= k < s@.len() implies #[trigger] s@[k].fits(p, m) by {
                    if k != i {
                        assert(before[k].fits(p, m));
                    }
                }
            }
            return;
        }
        i += 1;
    }
    proof {
        assert forall|k: int| !is_spot(said, want, k) by {}
    }
    s.push(x);
    proof {
        assert(all_meant(s@, p, m) =~= said.push(want));
        assert forall|k: int| 0 <= k < s@.len() implies #[trigger] s@[k].fits(p, m) by {
            if k < before.len() {
                assert(before[k].fits(p, m));
            }
        }
    }
}

/// The pins of the components; of two that name the same pin, the later.
fn place_pins(places: &Vec<Placement>, images: &Vec<Image>) -> (s: Vec<Spot>)
    ensures
        all_fit(s@, places.deep_view(), images.deep_view()),
        all_meant(s@, places.deep_view(), images.deep_view()) == spots(
            places.deep_view(),
            images.deep_view(),
        ),
{
    let ghost p = places.deep_view();
    let ghost m = images.deep_view();
    let mut s: Vec<Spot> = Vec::new();
    let mut i: usize = 0;
    assert(all_meant(s@, p, m) =~= spots(p.take(0), m));
    while i < places.len()
        invariant
            i <= places@.len(),
            p == places.deep_view(),
            m == images.deep_view(),
            all_fit(s@, p, m),
            all_meant(s@, p, m) == spots(p.take(i as int), m),
        decreases places@.len() - i,
    {
        assert(p.take(i + 1).drop_last() =~= p.take(i as int));
        assert(p[i as int] == places@[i as int].deep_view());
        let ghost start = all_meant(s@, p, m);
        match find_image(images, &places[i].image_id) {
            None => {
                assert(pins_at(p[i as int], m) =~= seq![]);
            },
            Some(k) => {
                let ghost more = pins_at(p[i as int], m);
                assert(m[k as int] == images@[k as int].deep_view());
                let count: usize = images[k].pins.len();
                let mut j: usize = 0;
                assert(more.take(0) =~= seq![]);
                while j < count
                    invariant
                        j <= count,
                        i < places@.len(),
                        k < images@.len(),
                        count == images@[k as int].pins@.len(),
                        m[k as int] == images@[k as int].deep_view(),
                        p == places.deep_view(),
                        m == images.deep_view(),
                        more == m[k as int].pins.map_values(
                            |pin: ImagePin<Seq<char>>| (p[i as int], pin),
                        ),
                        all_fit(s@, p, m),
                        all_meant(s@, p, m) == put_all(start, more.take(j as int)),
                    decreases count - j,
                {
                    let x = Spot { place: i, image: k, pin: j };
                    proof {
                        assert(more.take(j + 1).drop_last() =~= more.take(j as int));
                        assert(more.take(j + 1).last() == x.meant(p, m));
                    }
                    put_spot(&mut s, x, places, images);
                    j += 1;
                }
                assert(more.take(more.len() as int) =~= more);
            },
        }
        i += 1;
    }
    assert(p.take(p.len() as int) =~= p);
    s
}

/// What a pin is called: `REF-PIN`.
pub fn label_of(reference: &str, pin: &str) -> (r: String)
    ensures
        r@ == label(reference@, pin@),
{
    let mut chars: Vec<char> = chars_of(reference);
    chars.push('-');
    let mut rest: Vec<char> = chars_of(pin);
    chars.append(&mut rest);
    let n: usize = chars.len();
    let r: String = text_of(&chars, 0, n);
    proof {
        reveal_strlit("-");
        assert(r@ =~= label(reference@, pin@));
    }
    r
}

/// A pin with its pad, on the layers of the board.
fn resolve(
    at: &Placement,
    pin: &ImagePin,
    stacks: &Vec<PadStack>,
    layer_map: &LayerMap,
) -> (r: PlacedPin)
    requires
        layer_map.wf(),
    ensures
        r.deep_view() == resolved(
            (at.deep_view(), pin.deep_view()),
            stacks.deep_view(),
            layer_map.deep_view(),
        ),
{
    match find_padstack(stacks, &pin.padstack) {
        None => PlacedPin {
            at: copy_placement(at),
            pin: copy_image_pin(pin),
            pad: None,
            layer: layer_map.name(0).to_owned(),
        },
        Some(stack) => {
            let layers: Vec<String> = pad_layer_names(&stack.layers, layer_map);
            proof {
                crate::layers::law_pads_are_on_the_board(
                    stack.layers.deep_view(),
                    layer_map.deep_view(),
                );
                assert(layers.deep_view()[0] == layers@[0]@);
            }
            let layer: String = layers[0].clone();
            PlacedPin {
                at: copy_placement(at),
                pin: copy_image_pin(pin),
                pad: Some(
                    PadStack {
                        name: stack.name.clone(),
                        shapes: copy_shapes(&stack.shapes),
                        layers,
                    },
                ),
                layer,
            }
        },
    }
}

/// The pins of a board, in the order of their names.
fn sort_pins(
    s: &Vec<Spot>,
    places: &Vec<Placement>,
    images: &Vec<Image>,
    stacks: &Vec<PadStack>,
    layer_map: &LayerMap,
) -> (r: Vec<PlacedPin>)
    requires
        all_fit(s@, places.deep_view(), images.deep_view()),
        layer_map.wf(),
    ensures
        r.deep_view() == in_label_order(
            all_meant(s@, places.deep_view(), images.deep_view()),
        ).map_values(
            |x: PinSpot| resolved(x, stacks.deep_view(), layer_map.deep_view()),
        ),
{
    let ghost p = places.deep_view();
    let ghost m = images.deep_view();
    let ghost said = all_meant(s@, p, m);
    let mut keys: Vec<Vec<i64>> = Vec::new();
    let mut i: usize = 0;
    while i < s.len()
        invariant
            i <= s@.len(),
            p == places.deep_view(),
            m == images.deep_view(),
            said == all_meant(s@, p, m),
            all_fit(s@, p, m),
            keys@.len() == i,
            forall|j: int| 0 <= j < i ==> (#[trigger] keys@[j])@ == label_keys(said)[j],
        decreases s@.len() - i,
    {
        assert(s@[i as int].fits(p, m));
        proof {
            lemma_meant(&s[i as int], places, images);
        }
        let reference: &String = &places[s[i].place].reference;
        let id: &String = &images[s[i].image].pins[s[i].pin].id;
        let mut key: Vec<i64> = Vec::new();
        let text: String = label_of(reference, id);
        push_text(&mut key, &text);
        assert(key@ =~= crate::sorting::text_key(text@));
        keys.push(key);
        i += 1;
    }
    assert(keys.deep_view() =~= label_keys(said)) by {
        assert forall|j: int| 0 <= j < keys@.len() implies keys.deep_view()[j]
            == label_keys(said)[j] by {
            assert(keys@[j].deep_view() =~= keys@[j]@);
        }
    }
    let order: Vec<usize> = sorted_order(&keys);
    let mut r: Vec<PlacedPin> = Vec::new();
    let mut k: usize = 0;
    let ghost sorted = in_label_order(said);
    while k < order.len()
        invariant
            k <= order@.len(),
            p == places.deep_view(),
            m == images.deep_view(),
            said == all_meant(s@, p, m),
            all_fit(s@, p, m),
            layer_map.wf(),
            order@ == crate::sorting::order_of(label_keys(said)),
            crate::sorting::is_order(label_keys(said), order@),
            order@.len() == said.len(),
            sorted == in_label_order(said),
            r@.len() == k,
            forall|j: int|
                0 <= j < k ==> (#[trigger] r@[j]).deep_view() == resolved(
                    sorted[j],
                    stacks.deep_view(),
                    layer_map.deep_view(),
                ),
        decreases order@.len() - k,
    {
        let o: usize = order[k];
        assert(order@[k as int] < label_keys(said).len());
        assert(s@[o as int].fits(p, m));
        proof {
            lemma_meant(&s[o as int], places, images);
        }
        let spot: &Spot = &s[o];
        assert(sorted[k as int] == said[o as int]);
        r.push(
            resolve(
                &places[spot.place],
                &images[spot.image].pins[spot.pin],
                stacks,
                layer_map,
            ),
        );
        k += 1;
    }
    assert(r.deep_view() =~= sorted.map_values(
        |x: PinSpot| resolved(x, stacks.deep_view(), layer_map.deep_view()),
    ));
    r
}

/// A spot names a component and a pin of the lists.
proof fn lemma_meant(x: &Spot, places: &Vec<Placement>, images: &Vec<Image>)
    requires
        x.fits(places.deep_view(), images.deep_view()),
    ensures
        x.place < places@.len(),
        x.image < images@.len(),
        x.pin < images@[x.image as int].pins@.len(),
        x.meant(places.deep_view(), images.deep_view()) == (
            places@[x.place as int].deep_view(),
            images@[x.image as int].pins@[x.pin as int].deep_view(),
        ),
{
    assert(images.deep_view()[x.image as int] == images@[x.image as int].deep_view());
}

/// The pins of a board, in the order of their names.
pub fn place_board_pins(
    pcb: &Sexpr,
    places: &Vec<Placement>,
    stacks: &Vec<PadStack>,
    layer_map: &LayerMap,
) -> (r: Vec<PlacedPin>)
    requires
        layer_map.wf(),
        places.deep_view() == crate::placement::placements(pcb.deep_view()),
        stacks.deep_view() == crate::library::library_padstacks(pcb.deep_view()),
    ensures
        r.deep_view() == board_pins(pcb.deep_view(), layer_map.deep_view()),
{
    let images: Vec<Image> = parse_images(pcb);
    let s: Vec<Spot> = place_pins(places, &images);
    let r: Vec<PlacedPin> = sort_pins(&s, places, &images, stacks, layer_map);
    assert(r.deep_view() =~= board_pins(pcb.deep_view(), layer_map.deep_view()));
    r
}

} // verus!
