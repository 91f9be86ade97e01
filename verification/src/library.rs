//! The library of a design: padstacks, footprints and vias.
use vstd::prelude::*;

use crate::dsn::{as_number, gather, nodes_from, numbers_from, shape_layer, word_of};
use crate::layers::has_name;
use crate::number::is_numeric;
use crate::placement::copy_text;
use crate::sexpr::{Sexpr, Tree};
use crate::text::same_text;

verus! {

/// The copper of a padstack on a layer.
#[derive(Debug, Clone, PartialEq, Eq)]
pub enum PadShape<T = String> {
    /// A circle with this diameter.
    Circle(T),
    /// A rectangle with these corners: x and y of one, x and y of the other.
    Rect(T, T, T, T),
}

impl DeepView for PadShape<String> {
    type V = PadShape<Seq<char>>;

    open spec fn deep_view(&self) -> PadShape<Seq<char>> {
        match *self {
            PadShape::Circle(d) => PadShape::Circle(d@),
            PadShape::Rect(a, b, c, d) => PadShape::Rect(a@, b@, c@, d@),
        }
    }
}

/// A padstack: its name, its shapes, and the layers that they are on.
#[derive(Debug, Clone, PartialEq, Eq)]
pub struct PadStack {
    /// The name.
    pub name: String,
    /// The shapes that have a size.
    pub shapes: Vec<PadShape>,
    /// The layers of all the shapes, each once.
    pub layers: Vec<String>,
}

/// A padstack: its name, its shapes, and the layers that they are on.
#[verifier::ext_equal]
pub struct Stack {
    /// The name.
    pub name: Seq<char>,
    /// The shapes that have a size.
    pub shapes: Seq<PadShape<Seq<char>>>,
    /// The layers of all the shapes, each once.
    pub layers: Seq<Seq<char>>,
}

impl DeepView for PadStack {
    type V = Stack;

    open spec fn deep_view(&self) -> Stack {
        Stack {
            name: self.name@,
            shapes: self.shapes.deep_view(),
            layers: self.layers.deep_view(),
        }
    }
}

/// The same shapes.
pub fn copy_shapes(shapes: &Vec<PadShape>) -> (r: Vec<PadShape>)
    ensures
        r.deep_view() == shapes.deep_view(),
{
    let mut r: Vec<PadShape> = Vec::new();
    let mut i: usize = 0;
    while i < shapes.len()
        invariant
            i <= shapes@.len(),
            r@.len() == i,
            forall|j: int|
                0 <= j < i ==> (#[trigger] r@[j]).deep_view() == shapes@[j].deep_view(),
        decreases shapes@.len() - i,
    {
        let shape: PadShape = match &shapes[i] {
            PadShape::Circle(d) => PadShape::Circle(d.clone()),
            PadShape::Rect(a, b, c, d) => PadShape::Rect(
                a.clone(),
                b.clone(),
                c.clone(),
                d.clone(),
            ),
        };
        r.push(shape);
        i += 1;
    }
    assert(r.deep_view() =~= shapes.deep_view());
    r
}

/// The circle of a shape, or its rectangle.
pub open spec fn outline(shape: Tree) -> Option<Tree> {
    match crate::sexpr::child(shape, "circle"@) {
        Some(c) => Some(c),
        None => crate::sexpr::child(shape, "rect"@),
    }
}

/// Picks the layers of shapes.
pub open spec fn shape_layers() -> spec_fn(Tree) -> Option<Seq<char>> {
    |shape: Tree|
        match outline(shape) {
            Some(inner) => crate::sexpr::word(inner, 1),
            None => None,
        }
}

/// The layer of a shape.
pub(crate) fn layer_of_shape(shape: &Sexpr) -> (r: Option<String>)
    ensures
        r.deep_view() == shape_layers()(shape.deep_view()),
{
    match shape.child_named("circle") {
        Some(c) => shape_layer(c),
        None => match shape.child_named("rect") {
            Some(c) => shape_layer(c),
            None => None,
        },
    }
}

/// Picks the shapes that have a size: circles with a diameter, and rectangles with two
/// corners.
pub open spec fn sized_shapes() -> spec_fn(Tree) -> Option<PadShape<Seq<char>>> {
    |shape: Tree|
        match crate::sexpr::child(shape, "circle"@) {
            Some(c) => {
                let n = crate::dsn::numbers_after(c, 2);
                if n.len() > 0 {
                    Some(PadShape::Circle(n[0]))
                } else {
                    None
                }
            },
            None => match crate::sexpr::child(shape, "rect"@) {
                Some(c) => {
                    let n = crate::dsn::numbers_after(c, 2);
                    if n.len() >= 4 {
                        Some(PadShape::Rect(n[0], n[1], n[2], n[3]))
                    } else {
                        None
                    }
                },
                None => None,
            },
        }
}

/// The shape, if it has a size.
fn sized_shape(shape: &Sexpr) -> (r: Option<PadShape>)
    ensures
        r.deep_view() == sized_shapes()(shape.deep_view()),
{
    match shape.child_named("circle") {
        Some(c) => {
            let n: Vec<String> = numbers_from(c, 2);
            assert(n.deep_view().len() == n@.len());
            if n.len() > 0 {
                assert(n.deep_view()[0] == n@[0]@);
                Some(PadShape::Circle(n[0].clone()))
            } else {
                None
            }
        },
        None => match shape.child_named("rect") {
            Some(c) => {
                let n: Vec<String> = numbers_from(c, 2);
                assert(n.deep_view().len() == n@.len());
                if n.len() >= 4 {
                    assert(n.deep_view()[0] == n@[0]@);
                    assert(n.deep_view()[1] == n@[1]@);
                    assert(n.deep_view()[2] == n@[2]@);
                    assert(n.deep_view()[3] == n@[3]@);
                    Some(
                        PadShape::Rect(n[0].clone(), n[1].clone(), n[2].clone(), n[3].clone()),
                    )
                } else {
                    None
                }
            },
            None => None,
        },
    }
}

/// The texts, each where it first comes.
pub open spec fn distinct(s: Seq<Seq<char>>) -> Seq<Seq<char>>
    decreases s.len(),
{
    if s.len() == 0 {
        seq![]
    } else {
        let rest = distinct(s.drop_last());
        if rest.contains(s.last()) {
            rest
        } else {
            rest.push(s.last())
        }
    }
}

/// The texts, each where it first comes.
pub fn distinct_names(names: &Vec<String>) -> (r: Vec<String>)
    ensures
        r.deep_view() == distinct(names.deep_view()),
{
    let mut r: Vec<String> = Vec::new();
    let ghost all = names.deep_view();
    let mut i: usize = 0;
    assert(r.deep_view() =~= distinct(all.take(0)));
    while i < names.len()
        invariant
            i <= names@.len(),
            all == names.deep_view(),
            r.deep_view() == distinct(all.take(i as int)),
        decreases names@.len() - i,
    {
        assert(all.take(i + 1).drop_last() =~= all.take(i as int));
        assert(all[i as int] == names@[i as int]@);
        let ghost before = r.deep_view();
        if !has_name(&r, &names[i]) {
            r.push(names[i].clone());
            assert(r.deep_view() =~= before.push(all[i as int]));
        }
        i += 1;
    }
    assert(all.take(all.len() as int) =~= all);
    r
}

/// Picks padstacks that have a name and a shape with a size.
pub open spec fn padstacks() -> spec_fn(Tree) -> Option<Stack> {
    |n: Tree|
        {
            let shapes = crate::collect::collect(
                crate::sexpr::children(n, "shape"@),
                sized_shapes(),
            );
            let layers = crate::collect::collect(
                crate::sexpr::children(n, "shape"@),
                shape_layers(),
            );
            match crate::sexpr::word(n, 1) {
                Some(name) => if shapes.len() > 0 {
                    Some(Stack { name, shapes, layers: distinct(layers) })
                } else {
                    None
                },
                None => None,
            }
        }
}

/// The padstack that a node declares.
fn padstack_of(n: &Sexpr) -> (r: Option<PadStack>)
    ensures
        r.deep_view() == padstacks()(n.deep_view()),
{
    match n.word_at(1) {
        None => None,
        Some(name) => {
            let nodes: Vec<&Sexpr> = n.children_named("shape");
            let shapes: Vec<PadShape> = gather(&nodes, sized_shape, Ghost(sized_shapes()));
            let layers: Vec<String> = gather(&nodes, layer_of_shape, Ghost(shape_layers()));
            assert(shapes.deep_view().len() == shapes@.len());
            if shapes.len() > 0 {
                Some(PadStack { name: name.to_owned(), shapes, layers: distinct_names(&layers) })
            } else {
                None
            }
        },
    }
}

/// The lists of that name in the library of a board.
pub open spec fn library_entries(pcb: Tree, name: Seq<char>) -> Seq<Tree> {
    match crate::sexpr::child(pcb, "library"@) {
        Some(library) => crate::sexpr::children(library, name),
        None => seq![],
    }
}

/// The lists of that name in the library of a board.
pub(crate) fn entries<'a>(pcb: &'a Sexpr, name: &str) -> (r: Vec<&'a Sexpr>)
    ensures
        r.deep_view() == library_entries(pcb.deep_view(), name@),
{
    match pcb.child_named("library") {
        Some(library) => library.children_named(name),
        None => {
            let r: Vec<&Sexpr> = Vec::new();
            assert(r.deep_view() =~= seq![]);
            r
        },
    }
}

/// The padstacks of a board's library.
pub open spec fn library_padstacks(pcb: Tree) -> Seq<Stack> {
    crate::collect::collect(library_entries(pcb, "padstack"@), padstacks())
}

/// The padstacks of a board's library, in the order of the document.
pub fn parse_padstacks(pcb: &Sexpr) -> (r: Vec<PadStack>)
    ensures
        r.deep_view() == library_padstacks(pcb.deep_view()),
{
    gather(&entries(pcb, "padstack"), padstack_of, Ghost(padstacks()))
}

/// The padstack of that name; the last one where several have it.
pub open spec fn stack_named(stacks: Seq<Stack>, name: Seq<char>) -> Option<Stack>
    decreases stacks.len(),
{
    if stacks.len() == 0 {
        None
    } else if stacks.last().name == name {
        Some(stacks.last())
    } else {
        stack_named(stacks.drop_last(), name)
    }
}

/// The padstack of that name; the last one where several have it.
pub fn find_padstack<'a>(stacks: &'a Vec<PadStack>, name: &str) -> (r: Option<&'a PadStack>)
    ensures
        r.deep_view() == stack_named(stacks.deep_view(), name@),
{
    let ghost all = stacks.deep_view();
    let mut i: usize = stacks.len();
    assert(all.take(all.len() as int) =~= all);
    while i > 0
        invariant
            i <= stacks@.len(),
            all == stacks.deep_view(),
            stack_named(all.take(i as int), name@) == stack_named(all, name@),
        decreases i,
    {
        i -= 1;
        assert(all.take(i + 1).last() == stacks@[i as int].deep_view());
        assert(all.take(i + 1).drop_last() =~= all.take(i as int));
        if same_text(&stacks[i].name, name) {
            return Some(&stacks[i]);
        }
    }
    None
}

/// A pin of a footprint.
#[derive(Debug, Clone, PartialEq, Eq)]
pub struct ImagePin<T = String> {
    /// The pin.
    pub id: T,
    /// Where it is from the origin of the footprint, across.
    pub off_x: T,
    /// Where it is from the origin of the footprint, up.
    pub off_y: T,
    /// Its padstack.
    pub padstack: T,
    /// How far its pad is turned, in degrees, where that is said.
    pub rotation: Option<T>,
}

impl DeepView for ImagePin<String> {
    type V = ImagePin<Seq<char>>;

    open spec fn deep_view(&self) -> ImagePin<Seq<char>> {
        ImagePin {
            id: self.id@,
            off_x: self.off_x@,
            off_y: self.off_y@,
            padstack: self.padstack@,
            rotation: self.rotation.deep_view(),
        }
    }
}

/// The same pin.
pub fn copy_image_pin(p: &ImagePin) -> (r: ImagePin)
    ensures
        r.deep_view() == p.deep_view(),
{
    ImagePin {
        id: p.id.clone(),
        off_x: p.off_x.clone(),
        off_y: p.off_y.clone(),
        padstack: p.padstack.clone(),
        rotation: copy_text(&p.rotation),
    }
}

/// The number that a list of that name gives.
pub open spec fn setting(n: Tree, name: Seq<char>) -> Option<Seq<char>> {
    match crate::sexpr::child(n, name) {
        Some(c) => crate::dsn::numeric(crate::sexpr::word(c, 1)),
        None => None,
    }
}

/// Picks pins: `(pin PADSTACK ... ID X Y)`, where lists may stand between the words.
pub open spec fn image_pins() -> spec_fn(Tree) -> Option<ImagePin<Seq<char>>> {
    |n: Tree|
        {
            let w = crate::collect::collect(crate::dsn::nodes_after(n, 2), crate::dsn::words());
            match crate::sexpr::word(n, 1) {
                Some(padstack) => if w.len() >= 3 && crate::number::is_number(w[w.len() - 2])
                    && crate::number::is_number(w[w.len() - 1]) {
                    Some(
                        ImagePin {
                            id: w[w.len() - 3],
                            off_x: w[w.len() - 2],
                            off_y: w[w.len() - 1],
                            padstack,
                            rotation: setting(n, "rotate"@),
                        },
                    )
                } else {
                    None
                },
                None => None,
            }
        }
}

/// The pin that a node declares.
fn image_pin(n: &Sexpr) -> (r: Option<ImagePin>)
    ensures
        r.deep_view() == image_pins()(n.deep_view()),
{
    match n.word_at(1) {
        None => None,
        Some(padstack) => {
            let w: Vec<String> = gather(
                &nodes_from(n, 2),
                word_of,
                Ghost(crate::dsn::words()),
            );
            let k: usize = w.len();
            assert(w.deep_view().len() == k);
            if k < 3 {
                return None;
            }
            assert(w.deep_view()[k - 1] == w@[k - 1]@);
            assert(w.deep_view()[k - 2] == w@[k - 2]@);
            assert(w.deep_view()[k - 3] == w@[k - 3]@);
            if !is_numeric(&w[k - 2]) || !is_numeric(&w[k - 1]) {
                return None;
            }
            let rotation: Option<String> = match n.child_named("rotate") {
                Some(c) => as_number(c.word_at(1)),
                None => None,
            };
            Some(
                ImagePin {
                    id: w[k - 3].clone(),
                    off_x: w[k - 2].clone(),
                    off_y: w[k - 1].clone(),
                    padstack: padstack.to_owned(),
                    rotation,
                },
            )
        },
    }
}

/// A footprint: its name and its pins.
#[derive(Debug, Clone, PartialEq, Eq)]
pub struct Image {
    /// The name.
    pub id: String,
    /// The pins.
    pub pins: Vec<ImagePin>,
}

/// A footprint: its name and its pins.
#[verifier::ext_equal]
pub struct Footprint {
    /// The name.
    pub id: Seq<char>,
    /// The pins.
    pub pins: Seq<ImagePin<Seq<char>>>,
}

impl DeepView for Image {
    type V = Footprint;

    open spec fn deep_view(&self) -> Footprint {
        Footprint { id: self.id@, pins: self.pins.deep_view() }
    }
}

/// Picks footprints that have a name.
pub open spec fn images() -> spec_fn(Tree) -> Option<Footprint> {
    |n: Tree|
        match crate::sexpr::word(n, 1) {
            Some(id) => Some(
                Footprint {
                    id,
                    pins: crate::collect::collect(
                        crate::sexpr::children(n, "pin"@),
                        image_pins(),
                    ),
                },
            ),
            None => None,
        }
}

/// The footprint that a node declares.
fn image_of(n: &Sexpr) -> (r: Option<Image>)
    ensures
        r.deep_view() == images()(n.deep_view()),
{
    match n.word_at(1) {
        None => None,
        Some(id) => Some(
            Image {
                id: id.to_owned(),
                pins: gather(&n.children_named("pin"), image_pin, Ghost(image_pins())),
            },
        ),
    }
}

/// The footprints of a board's library.
pub open spec fn library_images(pcb: Tree) -> Seq<Footprint> {
    crate::collect::collect(library_entries(pcb, "image"@), images())
}

/// The footprints of a board's library, in the order of the document.
pub fn parse_images(pcb: &Sexpr) -> (r: Vec<Image>)
    ensures
        r.deep_view() == library_images(pcb.deep_view()),
{
    gather(&entries(pcb, "image"), image_of, Ghost(images()))
}

/// The footprint of that name; the last one where several have it.
pub open spec fn image_named(images: Seq<Footprint>, id: Seq<char>) -> Option<Footprint>
    decreases images.len(),
{
    if images.len() == 0 {
        None
    } else if images.last().id == id {
        Some(images.last())
    } else {
        image_named(images.drop_last(), id)
    }
}

/// The place of the footprint of that name; the last one where several have it.
pub fn find_image(images: &Vec<Image>, id: &str) -> (r: Option<usize>)
    ensures
        match r {
            Some(k) => k < images@.len() && image_named(images.deep_view(), id@) == Some(
                images.deep_view()[k as int],
            ),
            None => image_named(images.deep_view(), id@) is None,
        },
{
    let ghost all = images.deep_view();
    let mut i: usize = images.len();
    assert(all.take(all.len() as int) =~= all);
    while i > 0
        invariant
            i <= images@.len(),
            all == images.deep_view(),
            image_named(all.take(i as int), id@) == image_named(all, id@),
        decreases i,
    {
        i -= 1;
        assert(all.take(i + 1).last() == images@[i as int].deep_view());
        assert(all.take(i + 1).drop_last() =~= all.take(i as int));
        if same_text(&images[i].id, id) {
            return Some(i);
        }
    }
    None
}

} // verus!
