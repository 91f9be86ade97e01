//! What a document says of the parts on a board: padstacks, footprints, components and nets.
use vstd::prelude::*;

use crate::file_laws::{are_told, begins, figures, has_no, is_in, parts, parts_from, says};
use crate::library::{Footprint, ImagePin, PadShape, Stack};
use crate::sexpr::Tree;
use crate::structure_laws::tells_word;

verus! {

/// The list is the outline of a shape: its circle, or its rectangle where it has no circle.
pub open spec fn is_outline(shape: Tree, o: Tree) -> bool {
    is_in(shape, "circle"@, o) || has_no(shape, "circle"@) && is_in(shape, "rect"@, o)
}

/// Layers of shapes.
pub open spec fn tells_shape_layer() -> spec_fn(Tree, Seq<char>) -> bool {
    |n: Tree, t: Seq<char>|
        begins(n, "shape"@) && exists|o: Tree| #[trigger] is_outline(n, o) && says(o, 1, t)
}

/// The numbers of a circle or a rectangle that give its size.
pub open spec fn sizes(o: Tree, f: Seq<Seq<char>>) -> bool {
    are_told(parts_from(o, 2), f, figures())
}

/// Shapes with a size: a circle by its diameter, a rectangle by its corners.
pub open spec fn tells_shape() -> spec_fn(Tree, PadShape<Seq<char>>) -> bool {
    |n: Tree, s: PadShape<Seq<char>>|
        begins(n, "shape"@) && exists|o: Tree, f: Seq<Seq<char>>|
            {
                &&& #[trigger] is_outline(n, o)
                &&& #[trigger] sizes(o, f)
                &&& match s {
                    PadShape::Circle(d) => begins(o, "circle"@) && f.len() >= 1 && d == f[0],
                    PadShape::Rect(a, b, c, d) => begins(o, "rect"@) && f.len() >= 4 && a == f[0]
                        && b == f[1] && c == f[2] && d == f[3],
                }
            }
}

proof fn lemma_begun(n: Tree, name: Seq<char>)
    ensures
        crate::sexpr::child(n, name) matches Some(c) ==> begins(c, name) && is_in(n, name, c),
{
    crate::file_laws::law_lists_are_found_by_name(n, name);
    if let Some(c) = crate::sexpr::child(n, name) {
        let tells = crate::file_laws::lists(name);
        assert(crate::file_laws::is_first_of(parts(n), c, tells));
        let i = choose|i: int| #[trigger] crate::file_laws::is_first_at(parts(n), c, tells, i);
        assert(tells(parts(n)[i], c));
    }
}

proof fn lemma_outline(n: Tree)
    ensures
        crate::library::outline(n) matches Some(o) ==> is_outline(n, o),
        forall|o: Tree| #[trigger] is_outline(n, o) ==> crate::library::outline(n) == Some(o),
        forall|o: Tree| #[trigger]
            is_outline(n, o) ==> (begins(o, "circle"@) <==> crate::sexpr::child(n, "circle"@)
                is Some) && (begins(o, "rect"@) <==> crate::sexpr::child(n, "circle"@) is None),
{
    crate::file_laws::law_lists_are_found_by_name(n, "circle"@);
    crate::file_laws::law_lists_are_found_by_name(n, "rect"@);
    lemma_begun(n, "circle"@);
    lemma_begun(n, "rect"@);
    reveal_strlit("circle");
    reveal_strlit("rect");
    assert("circle"@.len() == 6 && "rect"@.len() == 4);
}

/// The shapes of a padstack and their layers are told by its nodes.
pub proof fn lemma_shapes(n: Tree)
    ensures
        are_told(
            parts(n),
            crate::collect::collect(
                crate::sexpr::children(n, "shape"@),
                crate::library::sized_shapes(),
            ),
            tells_shape(),
        ),
        are_told(
            parts(n),
            crate::collect::collect(
                crate::sexpr::children(n, "shape"@),
                crate::library::shape_layers(),
            ),
            tells_shape_layer(),
        ),
{
    assert forall|a: Tree, t: Seq<char>| #[trigger]
        tells_shape_layer()(a, t) <==> begins(a, "shape"@) && crate::library::shape_layers()(a)
        == Some(t) by {
        lemma_outline(a);
        if let Some(o) = crate::library::outline(a) {
            assert(is_outline(a, o));
            crate::file_laws::lemma_says(o, 1, t);
        }
    }
    crate::file_laws::lemma_children_tell(
        n,
        "shape"@,
        crate::library::shape_layers(),
        tells_shape_layer(),
    );
    assert forall|a: Tree, s: PadShape<Seq<char>>| #[trigger]
        tells_shape()(a, s) <==> begins(a, "shape"@) && crate::library::sized_shapes()(a) == Some(
        s,
    ) by {
        lemma_shape(a, s);
    }
    crate::file_laws::lemma_children_tell(
        n,
        "shape"@,
        crate::library::sized_shapes(),
        tells_shape(),
    );
}

proof fn lemma_shape(a: Tree, s: PadShape<Seq<char>>)
    ensures
        tells_shape()(a, s) <==> begins(a, "shape"@) && crate::library::sized_shapes()(a) == Some(
            s,
        ),
{
    lemma_outline(a);
    match crate::library::outline(a) {
        Some(o) => {
            let g = crate::dsn::numbers_after(o, 2);
            crate::file_laws::lemma_figures(o, 2);
            assert(is_outline(a, o) && sizes(o, g));
            if tells_shape()(a, s) {
                let (p, f) = choose|p: Tree, f: Seq<Seq<char>>|
                    {
                        &&& #[trigger] is_outline(a, p)
                        &&& #[trigger] sizes(p, f)
                        &&& match s {
                            PadShape::Circle(d) => begins(p, "circle"@) && f.len() >= 1 && d
                                == f[0],
                            PadShape::Rect(x, y, z, d) => begins(p, "rect"@) && f.len() >= 4 && x
                                == f[0] && y == f[1] && z == f[2] && d == f[3],
                        }
                    };
                assert(p == o);
                crate::file_laws::lemma_one_telling(parts_from(o, 2), f, g, figures());
            }
        },
        None => {
            assert forall|o: Tree| !(#[trigger] is_outline(a, o)) by {
                if is_outline(a, o) {
                    assert(crate::library::outline(a) == Some(o));
                }
            }
        },
    }
}

/// The place is the first at which its text stands.
pub open spec fn is_new(s: Seq<Seq<char>>, i: int) -> bool {
    0 <= i < s.len() && forall|j: int| 0 <= j < i ==> #[trigger] s[j] != s[i]
}

/// The texts are those of the list, each once, in the order in which they first stand there.
pub open spec fn are_first_seen(s: Seq<Seq<char>>, out: Seq<Seq<char>>) -> bool {
    exists|at: Seq<int>| #[trigger] are_new_places(s, out, at)
}

/// The places at which the texts of the list first stand.
pub open spec fn are_new_places(s: Seq<Seq<char>>, out: Seq<Seq<char>>, at: Seq<int>) -> bool {
    &&& at.len() == out.len()
    &&& forall|j: int| 0 <= j < at.len() ==> is_new(s, #[trigger] at[j]) && s[at[j]] == out[j]
    &&& forall|j: int, k: int| 0 <= j < k < at.len() ==> #[trigger] at[j] < #[trigger] at[k]
    &&& forall|i: int| #[trigger] is_new(s, i) ==> at.contains(i)
}

/// Names are told apart: each is kept where it first stands.
pub proof fn law_names_are_kept_once(s: Seq<Seq<char>>)
    ensures
        are_first_seen(s, crate::library::distinct(s)),
{
    let at = lemma_new_places(s);
    assert(are_new_places(s, crate::library::distinct(s), at));
}

proof fn lemma_new_places(s: Seq<Seq<char>>) -> (at: Seq<int>)
    ensures
        are_new_places(s, crate::library::distinct(s), at),
    decreases s.len(),
{
    let out = crate::library::distinct(s);
    if s.len() == 0 {
        let at = Seq::<int>::empty();
        assert(are_new_places(s, out, at));
        at
    } else {
        let front = s.drop_last();
        let n = front.len() as int;
        let rest = crate::library::distinct(front);
        let was = lemma_new_places(front);
        assert forall|i: int| 0 <= i < n implies (#[trigger] is_new(s, i) <==> is_new(
            front,
            i,
        )) by {
            assert(front[i] == s[i]);
            assert forall|j: int| 0 <= j < i implies s[j] == front[j] by {}
        }
        let seen = rest.contains(s.last());
        assert(seen <==> !is_new(s, n)) by {
            if seen {
                let j = choose|j: int| 0 <= j < rest.len() && rest[j] == s.last();
                assert(is_new(front, was[j]));
                assert(s[was[j]] == s[n]);
            }
            if !is_new(s, n) {
                let j = choose|j: int| 0 <= j < n && #[trigger] s[j] == s[n];
                lemma_some_new(front, j);
                let k = choose|k: int| is_new(front, k) && front[k] == front[j];
                assert(was.contains(k));
                let m = choose|m: int| 0 <= m < was.len() && was[m] == k;
                assert(is_new(front, was[m]));
                assert(rest[m] == s.last());
            }
        }
        let at = if seen {
            was
        } else {
            was.push(n)
        };
        assert forall|j: int| 0 <= j < at.len() implies is_new(s, #[trigger] at[j]) && s[at[j]]
            == out[j] by {
            if j < was.len() {
                assert(at[j] == was[j]);
                assert(is_new(front, was[j]));
            }
        }
        assert forall|j: int, k: int| 0 <= j < k < at.len() implies #[trigger] at[j]
            < #[trigger] at[k] by {
            assert(at[j] == was[j]);
            assert(is_new(front, was[j]));
            if k < was.len() {
                assert(at[k] == was[k]);
            }
        }
        assert forall|i: int| #[trigger] is_new(s, i) implies at.contains(i) by {
            if i < n {
                assert(is_new(front, i));
                assert(was.contains(i));
                let j = choose|j: int| 0 <= j < was.len() && was[j] == i;
                assert(at[j] == i);
            } else {
                assert(at[was.len() as int] == i);
            }
        }
        at
    }
}

/// A text that stands in a list stands there first somewhere.
pub proof fn lemma_some_new(s: Seq<Seq<char>>, j: int)
    requires
        0 <= j < s.len(),
    ensures
        exists|k: int| is_new(s, k) && s[k] == s[j],
    decreases j,
{
    if !is_new(s, j) {
        let i = choose|i: int| 0 <= i < j && #[trigger] s[i] == s[j];
        lemma_some_new(s, i);
    }
}

/// Padstacks: a name, at least one shape with a size, and the layers of the shapes, each
/// once.
pub open spec fn tells_padstack() -> spec_fn(Tree, Stack) -> bool {
    |n: Tree, s: Stack|
        {
            &&& begins(n, "padstack"@)
            &&& says(n, 1, s.name)
            &&& s.shapes.len() > 0
            &&& are_told(parts(n), s.shapes, tells_shape())
            &&& exists|l: Seq<Seq<char>>| #[trigger]
                are_told(parts(n), l, tells_shape_layer()) && are_first_seen(l, s.layers)
        }
}

proof fn lemma_one_shape(a: Tree, x: PadShape<Seq<char>>, y: PadShape<Seq<char>>)
    requires
        tells_shape()(a, x),
        tells_shape()(a, y),
    ensures
        x == y,
{
    lemma_shape(a, x);
    lemma_shape(a, y);
}

/// A shape is on one layer.
pub proof fn lemma_one_shape_layer(a: Tree, x: Seq<char>, y: Seq<char>)
    requires
        tells_shape_layer()(a, x),
        tells_shape_layer()(a, y),
    ensures
        x == y,
{
    lemma_outline(a);
    let o = crate::library::outline(a)->0;
}

proof fn lemma_one_seen(s: Seq<Seq<char>>, f: Seq<Seq<char>>, g: Seq<Seq<char>>)
    requires
        are_first_seen(s, f),
        are_first_seen(s, g),
    ensures
        f == g,
{
    let a = choose|at: Seq<int>| #[trigger] are_new_places(s, f, at);
    let b = choose|at: Seq<int>| #[trigger] are_new_places(s, g, at);
    assert forall|i: int| #[trigger] a.contains(i) implies b.contains(i) by {
        let j = choose|j: int| 0 <= j < a.len() && a[j] == i;
        assert(is_new(s, a[j]));
    }
    assert forall|i: int| #[trigger] b.contains(i) implies a.contains(i) by {
        let j = choose|j: int| 0 <= j < b.len() && b[j] == i;
        assert(is_new(s, b[j]));
    }
    crate::file_laws::lemma_same_places(a, b);
    assert forall|j: int| 0 <= j < f.len() implies f[j] == g[j] by {
        assert(is_new(s, a[j]) && is_new(s, b[j]));
    }
    assert(f =~= g);
}

proof fn lemma_padstack(n: Tree, s: Stack)
    ensures
        tells_padstack()(n, s) <==> begins(n, "padstack"@) && crate::library::padstacks()(n)
            == Some(s),
{
    crate::file_laws::lemma_says(n, 1, s.name);
    lemma_shapes(n);
    let shapes = crate::collect::collect(
        crate::sexpr::children(n, "shape"@),
        crate::library::sized_shapes(),
    );
    let layers = crate::collect::collect(
        crate::sexpr::children(n, "shape"@),
        crate::library::shape_layers(),
    );
    law_names_are_kept_once(layers);
    if let Some(name) = crate::sexpr::word(n, 1) {
        crate::file_laws::lemma_says(n, 1, name);
    }
    if tells_padstack()(n, s) {
        assert forall|a: Tree, x: PadShape<Seq<char>>, y: PadShape<Seq<char>>| #[trigger]
            tells_shape()(a, x) && #[trigger] tells_shape()(a, y) implies x == y by {
            lemma_one_shape(a, x, y);
        }
        crate::file_laws::lemma_one_telling(parts(n), s.shapes, shapes, tells_shape());
        let l = choose|l: Seq<Seq<char>>| #[trigger]
            are_told(parts(n), l, tells_shape_layer()) && are_first_seen(l, s.layers);
        assert forall|a: Tree, x: Seq<char>, y: Seq<char>| #[trigger]
            tells_shape_layer()(a, x) && #[trigger] tells_shape_layer()(a, y) implies x == y by {
            lemma_one_shape_layer(a, x, y);
        }
        crate::file_laws::lemma_one_telling(parts(n), l, layers, tells_shape_layer());
        lemma_one_seen(l, s.layers, crate::library::distinct(layers));
    }
}

/// The padstacks of a board are all those of its library that have a name and a shape with a
/// size.
pub proof fn law_padstacks_are_read(pcb: Tree, library: Tree)
    ensures
        has_no(pcb, "library"@) ==> crate::library::library_padstacks(pcb).len() == 0,
        is_in(pcb, "library"@, library) ==> are_told(
            parts(library),
            crate::library::library_padstacks(pcb),
            tells_padstack(),
        ),
{
    crate::file_laws::law_lists_are_found_by_name(pcb, "library"@);
    assert forall|n: Tree, s: Stack| #[trigger] tells_padstack()(n, s) <==> begins(
        n,
        "padstack"@,
    ) && crate::library::padstacks()(n) == Some(s) by {
        lemma_padstack(n, s);
    }
    crate::file_laws::lemma_children_tell(
        library,
        "padstack"@,
        crate::library::padstacks(),
        tells_padstack(),
    );
}

/// The number that the first list of a name gives, where it gives one.
pub open spec fn is_setting(n: Tree, name: Seq<char>, t: Option<Seq<char>>) -> bool {
    match t {
        Some(x) => exists|c: Tree| #[trigger]
            is_in(n, name, c) && says(c, 1, x) && crate::number::is_number(x),
        None => forall|c: Tree, x: Seq<char>| #[trigger]
            is_in(n, name, c) && #[trigger] says(c, 1, x) ==> !crate::number::is_number(x),
    }
}

/// Pins of footprints: a padstack, and behind whatever else stands there a name and two
/// numbers.
pub open spec fn tells_pin() -> spec_fn(Tree, ImagePin<Seq<char>>) -> bool {
    |n: Tree, p: ImagePin<Seq<char>>|
        {
            &&& begins(n, "pin"@)
            &&& says(n, 1, p.padstack)
            &&& exists|w: Seq<Seq<char>>|
                {
                    &&& #[trigger] are_told(parts_from(n, 2), w, tells_word())
                    &&& w.len() >= 3
                    &&& p.id == w[w.len() - 3]
                    &&& p.off_x == w[w.len() - 2]
                    &&& p.off_y == w[w.len() - 1]
                }
            &&& crate::number::is_number(p.off_x)
            &&& crate::number::is_number(p.off_y)
            &&& is_setting(n, "rotate"@, p.rotation)
        }
}

proof fn lemma_setting(n: Tree, name: Seq<char>, t: Option<Seq<char>>)
    ensures
        is_setting(n, name, t) <==> crate::library::setting(n, name) == t,
{
    crate::file_laws::law_lists_are_found_by_name(n, name);
    if let Some(c) = crate::sexpr::child(n, name) {
        assert(is_in(n, name, c));
        if let Some(x) = crate::sexpr::word(c, 1) {
            crate::file_laws::lemma_says(c, 1, x);
        }
        assert forall|x: Seq<char>| #[trigger] says(c, 1, x) implies crate::sexpr::word(c, 1)
            == Some(x) by {
            crate::file_laws::lemma_says(c, 1, x);
        }
    }
}

proof fn lemma_pin(n: Tree, p: ImagePin<Seq<char>>)
    ensures
        tells_pin()(n, p) <==> begins(n, "pin"@) && crate::library::image_pins()(n) == Some(p),
{
    crate::file_laws::lemma_says(n, 1, p.padstack);
    lemma_setting(n, "rotate"@, p.rotation);
    let v = crate::collect::collect(crate::dsn::nodes_after(n, 2), crate::dsn::words());
    assert(parts_from(n, 2) =~= crate::dsn::nodes_after(n, 2));
    crate::file_laws::lemma_told(parts_from(n, 2), crate::dsn::words(), tells_word());
    assert(are_told(parts_from(n, 2), v, tells_word()));
    if tells_pin()(n, p) {
        let w = choose|w: Seq<Seq<char>>|
            {
                &&& #[trigger] are_told(parts_from(n, 2), w, tells_word())
                &&& w.len() >= 3
                &&& p.id == w[w.len() - 3]
                &&& p.off_x == w[w.len() - 2]
                &&& p.off_y == w[w.len() - 1]
            };
        crate::file_laws::lemma_one_telling(parts_from(n, 2), w, v, tells_word());
    }
}

/// Footprints: a name, and the pins.
pub open spec fn tells_image() -> spec_fn(Tree, Footprint) -> bool {
    |n: Tree, f: Footprint|
        begins(n, "image"@) && says(n, 1, f.id) && are_told(parts(n), f.pins, tells_pin())
}

proof fn lemma_image(n: Tree, f: Footprint)
    ensures
        tells_image()(n, f) <==> begins(n, "image"@) && crate::library::images()(n) == Some(f),
{
    crate::file_laws::lemma_says(n, 1, f.id);
    assert forall|a: Tree, p: ImagePin<Seq<char>>| #[trigger] tells_pin()(a, p) <==> begins(
        a,
        "pin"@,
    ) && crate::library::image_pins()(a) == Some(p) by {
        lemma_pin(a, p);
    }
    crate::file_laws::lemma_children_tell(
        n,
        "pin"@,
        crate::library::image_pins(),
        tells_pin(),
    );
    if tells_image()(n, f) {
        assert forall|a: Tree, x: ImagePin<Seq<char>>, y: ImagePin<Seq<char>>| #[trigger]
            tells_pin()(a, x) && #[trigger] tells_pin()(a, y) implies x == y by {
            lemma_pin(a, x);
            lemma_pin(a, y);
        }
        crate::file_laws::lemma_one_telling(
            parts(n),
            f.pins,
            crate::collect::collect(crate::sexpr::children(n, "pin"@), crate::library::image_pins()),
            tells_pin(),
        );
    }
}

/// The footprints of a board are all those of its library that have a name, each with all
/// its pins.
pub proof fn law_footprints_are_read(pcb: Tree, library: Tree)
    ensures
        has_no(pcb, "library"@) ==> crate::library::library_images(pcb).len() == 0,
        is_in(pcb, "library"@, library) ==> are_told(
            parts(library),
            crate::library::library_images(pcb),
            tells_image(),
        ),
{
    crate::file_laws::law_lists_are_found_by_name(pcb, "library"@);
    assert forall|n: Tree, f: Footprint| #[trigger] tells_image()(n, f) <==> begins(n, "image"@)
        && crate::library::images()(n) == Some(f) by {
        lemma_image(n, f);
    }
    crate::file_laws::lemma_children_tell(
        library,
        "image"@,
        crate::library::images(),
        tells_image(),
    );
}

/// The place is the last whose padstack has the name.
pub open spec fn is_last_stack(stacks: Seq<Stack>, name: Seq<char>, k: int) -> bool {
    &&& 0 <= k < stacks.len()
    &&& stacks[k].name == name
    &&& forall|j: int| k < j < stacks.len() ==> (#[trigger] stacks[j]).name != name
}

/// The place is the last whose footprint has the name.
pub open spec fn is_last_image(images: Seq<Footprint>, id: Seq<char>, k: int) -> bool {
    &&& 0 <= k < images.len()
    &&& images[k].id == id
    &&& forall|j: int| k < j < images.len() ==> (#[trigger] images[j]).id != id
}

/// A padstack or a footprint is found by its name; of several the last.
pub proof fn law_last_of_a_name_counts(
    stacks: Seq<Stack>,
    images: Seq<Footprint>,
    name: Seq<char>,
    k: int,
)
    ensures
        is_last_stack(stacks, name, k) ==> crate::library::stack_named(stacks, name) == Some(
            stacks[k],
        ),
        crate::library::stack_named(stacks, name) is None <==> forall|j: int|
            0 <= j < stacks.len() ==> (#[trigger] stacks[j]).name != name,
        is_last_image(images, name, k) ==> crate::library::image_named(images, name) == Some(
            images[k],
        ),
        crate::library::image_named(images, name) is None <==> forall|j: int|
            0 <= j < images.len() ==> (#[trigger] images[j]).id != name,
    decreases stacks.len() + images.len(),
{
    if stacks.len() > 0 {
        let front = stacks.drop_last();
        law_last_of_a_name_counts(front, images, name, k);
        if stacks.last().name == name {
            assert(stacks[stacks.len() - 1].name == name);
        } else {
            assert(is_last_stack(stacks, name, k) ==> is_last_stack(front, name, k));
            assert forall|j: int| 0 <= j < stacks.len() && (forall|i: int|
                0 <= i < front.len() ==> (#[trigger] front[i]).name != name) implies (
            #[trigger] stacks[j]).name != name by {
                if j < front.len() {
                    assert(front[j] == stacks[j]);
                }
            }
            assert forall|j: int| 0 <= j < front.len() && (forall|i: int|
                0 <= i < stacks.len() ==> (#[trigger] stacks[i]).name != name) implies (
            #[trigger] front[j]).name != name by {
                assert(front[j] == stacks[j]);
            }
        }
    } else if images.len() > 0 {
        let front = images.drop_last();
        law_last_of_a_name_counts(stacks, front, name, k);
        if images.last().id == name {
            assert(images[images.len() - 1].id == name);
        } else {
            assert(is_last_image(images, name, k) ==> is_last_image(front, name, k));
            assert forall|j: int| 0 <= j < images.len() && (forall|i: int|
                0 <= i < front.len() ==> (#[trigger] front[i]).id != name) implies (
            #[trigger] images[j]).id != name by {
                if j < front.len() {
                    assert(front[j] == images[j]);
                }
            }
            assert forall|j: int| 0 <= j < front.len() && (forall|i: int|
                0 <= i < images.len() ==> (#[trigger] images[i]).id != name) implies (
            #[trigger] front[j]).id != name by {
                assert(front[j] == images[j]);
            }
        }
    }
}

} // verus!
