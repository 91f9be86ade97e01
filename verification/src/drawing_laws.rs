//! What a drawing of a board shows, row by row and character by character.
use vstd::prelude::*;

use crate::board::CellIdx;
use crate::fixtures::Fixture;

verus! {

/// A line of the text: from its beginning or behind the end of another to the next end of a
/// line or that of the text.
pub open spec fn is_line(s: Seq<char>, a: int, e: int) -> bool {
    &&& 0 <= a <= e <= s.len()
    &&& a == 0 || s[a - 1] == '\n'
    &&& e == s.len() || s[e] == '\n'
    &&& forall|i: int| a <= i < e ==> #[trigger] s[i] != '\n'
}

/// What a line holds, without a carriage return before its end.
pub open spec fn line_text(s: Seq<char>, a: int, e: int) -> Seq<char> {
    if e < s.len() && e > a && s[e - 1] == '\r' {
        s.subrange(a, e - 1)
    } else {
        s.subrange(a, e)
    }
}

/// The row is the line that begins at `a`, and it is not empty.
pub open spec fn is_row(s: Seq<char>, a: int, row: Seq<char>) -> bool {
    &&& row.len() > 0
    &&& exists|e: int| #[trigger] is_line(s, a, e) && row == line_text(s, a, e)
}

/// The rows are the lines from place `k` on that are not empty, in their order.
pub open spec fn are_rows(s: Seq<char>, k: int, rows: Seq<Seq<char>>, at: Seq<int>) -> bool {
    &&& at.len() == rows.len()
    &&& forall|j: int| 0 <= j < at.len() ==> k <= #[trigger] at[j] && is_row(s, at[j], rows[j])
    &&& forall|i: int, j: int| 0 <= i < j < at.len() ==> #[trigger] at[i] < #[trigger] at[j]
    &&& forall|a: int, row: Seq<char>| #[trigger] is_row(s, a, row) && k <= a ==> at.contains(a)
}

proof fn lemma_line_end(s: Seq<char>, k: nat)
    requires
        k <= s.len(),
    ensures
        k <= crate::fixtures::line_end(s, k) <= s.len(),
        forall|i: int| k <= i < crate::fixtures::line_end(s, k) ==> #[trigger] s[i] != '\n',
        crate::fixtures::line_end(s, k) < s.len() ==> s[crate::fixtures::line_end(s, k) as int]
            == '\n',
    decreases s.len() - k,
{
    if k < s.len() && s[k as int] != '\n' {
        lemma_line_end(s, k + 1);
    }
}

proof fn lemma_one_end(s: Seq<char>, a: int, e: int, f: int)
    requires
        is_line(s, a, e),
        is_line(s, a, f),
    ensures
        e == f,
{
    if e < f {
        assert(s[e] != '\n');
    }
    if f < e {
        assert(s[f] != '\n');
    }
}

proof fn lemma_rows(s: Seq<char>, k: nat) -> (at: Seq<int>)
    requires
        k == 0 || k <= s.len() && s[k - 1] == '\n' || k == s.len() + 1,
    ensures
        are_rows(s, k as int, crate::fixtures::rows_from(s, k), at),
    decreases s.len() + 1 - k,
{
    let rows = crate::fixtures::rows_from(s, k);
    if k >= s.len() {
        let at = Seq::<int>::empty();
        assert forall|a: int, row: Seq<char>| #[trigger]
            is_row(s, a, row) && k <= a implies at.contains(a) by {
            let e = choose|e: int| #[trigger] is_line(s, a, e) && row == line_text(s, a, e);
            assert(a == s.len() && e == s.len());
        }
        at
    } else {
        lemma_line_end(s, k);
        let e = crate::fixtures::line_end(s, k);
        let line = crate::fixtures::line_at(s, k);
        assert(is_line(s, k as int, e as int));
        assert(line == line_text(s, k as int, e as int));
        let was = lemma_rows(s, e + 1);
        let rest = crate::fixtures::rows_from(s, e + 1);
        let at = if line.len() == 0 {
            was
        } else {
            seq![k as int] + was
        };
        assert forall|a: int, row: Seq<char>| #[trigger]
            is_row(s, a, row) && k <= a implies at.contains(a) by {
            let f = choose|f: int| #[trigger] is_line(s, a, f) && row == line_text(s, a, f);
            if a == k {
                lemma_one_end(s, a, e as int, f);
                assert(at[0] == a);
            } else {
                if a <= e {
                    assert(s[a - 1] != '\n');
                }
                assert(was.contains(a));
                let j = choose|j: int| 0 <= j < was.len() && was[j] == a;
                if line.len() > 0 {
                    assert(at[j + 1] == a);
                }
            }
        }
        assert forall|j: int| 0 <= j < at.len() implies k <= #[trigger] at[j] && is_row(
            s,
            at[j],
            rows[j],
        ) by {
            if line.len() == 0 {
                assert(at[j] == was[j] && rows[j] == rest[j]);
            } else if j > 0 {
                assert(at[j] == was[j - 1] && rows[j] == rest[j - 1]);
            } else {
                assert(is_row(s, k as int, line));
            }
        }
        assert forall|i: int, j: int| 0 <= i < j < at.len() implies #[trigger] at[i]
            < #[trigger] at[j] by {
            if line.len() == 0 {
                assert(was[i] < was[j]);
            } else if i > 0 {
                assert(was[i - 1] < was[j - 1]);
            } else {
                assert(at[j] == was[j - 1]);
                assert(e + 1 <= was[j - 1]);
            }
        }
        at
    }
}

/// The rows of a drawing are its lines, but for empty ones.
pub proof fn law_rows_are_lines(s: Seq<char>)
    ensures
        exists|at: Seq<int>| #[trigger] are_rows(s, 0, crate::fixtures::rows_of(s), at),
{
    let at = lemma_rows(s, 0);
    assert(are_rows(s, 0, crate::fixtures::rows_of(s), at));
}

/// The character stands in column `x` of row `y` and, up to the width of the drawing, nowhere
/// behind that.
pub open spec fn is_last_mark(rows: Seq<Seq<char>>, ch: char, x: int, y: int) -> bool {
    &&& 0 <= y < rows.len()
    &&& 0 <= x < rows[0].len()
    &&& x < rows[y].len() && rows[y][x] == ch
    &&& forall|v: int, w: int|
        0 <= w < rows.len() && 0 <= v < rows[0].len() && v < rows[w].len() && (w > y || w == y && v
            > x) ==> #[trigger] rows[w][v] != ch
}

proof fn lemma_last(rows: Seq<Seq<char>>, ch: char, y: nat, x: nat)
    requires
        rows.len() > 0,
        y <= rows.len(),
        x <= rows[0].len(),
    ensures
        match crate::fixtures::last_drawn(rows, ch, y, x) {
            Some((a, b)) => {
                &&& 0 <= b < rows.len() && 0 <= a < rows[0].len()
                &&& b < y || b == y && a < x
                &&& a < rows[b].len() && rows[b][a] == ch
                &&& forall|v: int, w: int|
                    0 <= w < rows.len() && 0 <= v < rows[0].len() && v < rows[w].len() && (w < y
                        || w == y && v < x) && (w > b || w == b && v > a) ==> #[trigger] rows[w][v]
                        != ch
            },
            None => forall|v: int, w: int|
                0 <= w < rows.len() && 0 <= v < rows[0].len() && v < rows[w].len() && (w < y || w
                    == y && v < x) ==> #[trigger] rows[w][v] != ch,
        },
    decreases y, x,
{
    if x > 0 {
        if crate::fixtures::drawn(rows, x - 1, y as int) != Some(ch) {
            lemma_last(rows, ch, y, (x - 1) as nat);
        }
    } else if y > 0 {
        lemma_last(rows, ch, (y - 1) as nat, rows[0].len());
    }
}

/// A drawing shows a board: as wide as its first row, an obstacle wherever a hash sign stands
/// and a cell that costs one elsewhere, and a net from the last S to the last T where both
/// are there.
pub proof fn law_drawings_show_boards(
    f: Fixture,
    rows: Seq<Seq<char>>,
    c: CellIdx,
    x: int,
    y: int,
    v: int,
    w: int,
)
    requires
        crate::fixtures::depicts(f, rows),
        crate::fixtures::can_be_drawn(rows),
        rows.len() > 0,
    ensures
        f.grid.dims.w == rows[0].len(),
        f.grid.dims.h == rows.len(),
        f.grid.dims.layers == 1,
        crate::ways::stands_at(f.grid.dims, c, x, y, 0) ==> f.grid.cost@[c as int] == if x
            < rows[y].len() && rows[y][x] == '#' {
            u32::MAX
        } else {
            1
        },
        is_last_mark(rows, 'S', x, y) && is_last_mark(rows, 'T', v, w) ==> f.nets@.len() == 1
            && crate::ways::stands_at(f.grid.dims, f.nets@[0].src, x, y, 0)
            && crate::ways::stands_at(f.grid.dims, f.nets@[0].dst, v, w, 0),
        f.nets@.len() <= 1,
        f.nets@.len() == 1 ==> exists|a: int, b: int| #[trigger] is_last_mark(rows, 'S', a, b),
        f.nets@.len() == 1 ==> exists|a: int, b: int| #[trigger] is_last_mark(rows, 'T', a, b),
{
    let d = f.grid.dims;
    lemma_last(rows, 'S', rows.len(), 0);
    lemma_last(rows, 'T', rows.len(), 0);
    crate::ways::law_cells_have_places(d, c);
    let src = crate::fixtures::last_drawn(rows, 'S', rows.len(), 0);
    let dst = crate::fixtures::last_drawn(rows, 'T', rows.len(), 0);
    if let Some((a, b)) = src {
        assert(is_last_mark(rows, 'S', a, b));
    }
    if let Some((a, b)) = dst {
        assert(is_last_mark(rows, 'T', a, b));
    }
    if is_last_mark(rows, 'S', x, y) && is_last_mark(rows, 'T', v, w) {
        assert(rows[y][x] == 'S' && rows[w][v] == 'T');
        let (a, b) = src->0;
        let (e, g) = dst->0;
        assert(rows[b][a] == 'S' && rows[g][e] == 'T');
        assert(a == x && b == y && e == v && g == w);
        crate::ways::law_cells_have_places(d, f.nets@[0].src);
        crate::ways::law_cells_have_places(d, f.nets@[0].dst);
        d.lemma_cell_at(x, y, 0);
        d.lemma_cell_at(v, w, 0);
    }
}

} // verus!
