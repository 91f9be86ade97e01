//! Small boards for trying routers out.
//!
//! A board can be drawn with characters: `.` or a space is open, `#` an obstacle, `S`
//! the start of the net and `T` its end.
use vstd::prelude::*;

use crate::board::{CellIdx, Dims, OBSTACLE};
use crate::grid::{Grid, GridBuilder};
use crate::net::NetEndpoints;
use crate::text::chars_of;

verus! {

/// A board to be routed, with what is known of its routes.
#[derive(Clone, Debug)]
pub struct Fixture {
    /// What the board is called.
    pub name: &'static str,
    /// The grid.
    pub grid: Grid,
    /// The nets.
    pub nets: Vec<NetEndpoints>,
    /// What the routes cost together, where that is known.
    pub expected_total_cost: Option<u64>,
    /// The route of the first net, where that is known.
    pub expected_path: Option<Vec<CellIdx>>,
}

/// The first place from `k` on with a line feed, or the end.
pub open spec fn line_end(s: Seq<char>, k: nat) -> nat
    decreases s.len() - k,
{
    if k >= s.len() || s[k as int] == '\n' {
        k
    } else {
        line_end(s, k + 1)
    }
}

/// The line that starts at `k`, without what ends it.
pub open spec fn line_at(s: Seq<char>, k: nat) -> Seq<char> {
    let e = line_end(s, k);
    if e < s.len() && e > k && s[e - 1] == '\r' {
        s.subrange(k as int, e - 1)
    } else {
        s.subrange(k as int, e as int)
    }
}

/// The lines from `k` on, empty ones left out.
pub open spec fn rows_from(s: Seq<char>, k: nat) -> Seq<Seq<char>>
    decreases s.len() + 1 - k,
    via rows_decreases
{
    if k >= s.len() {
        Seq::empty()
    } else {
        let line = line_at(s, k);
        let rest = rows_from(s, line_end(s, k) + 1);
        if line.len() == 0 {
            rest
        } else {
            seq![line] + rest
        }
    }
}

#[via_fn]
proof fn rows_decreases(s: Seq<char>, k: nat) {
    lemma_line_end(s, k);
}

/// A line ends where it starts, or later.
proof fn lemma_line_end(s: Seq<char>, k: nat)
    ensures
        line_end(s, k) >= k,
        k <= s.len() ==> line_end(s, k) <= s.len(),
    decreases s.len() - k,
{
    if k < s.len() && s[k as int] != '\n' {
        lemma_line_end(s, k + 1);
    }
}

/// The rows of a drawing.
pub open spec fn rows_of(s: Seq<char>) -> Seq<Seq<char>> {
    rows_from(s, 0)
}

/// How many columns a drawing has: as many as its first row.
pub open spec fn width_of(rows: Seq<Seq<char>>) -> nat {
    if rows.len() == 0 {
        0
    } else {
        rows[0].len()
    }
}

/// The character in column `x` of row `y`.
pub open spec fn drawn(rows: Seq<Seq<char>>, x: int, y: int) -> Option<char> {
    if 0 <= y < rows.len() && 0 <= x < rows[y].len() {
        Some(rows[y][x])
    } else {
        None
    }
}

/// Where `ch` is drawn last, before column `x` of row `y`.
pub open spec fn last_drawn(rows: Seq<Seq<char>>, ch: char, y: nat, x: nat) -> Option<(int, int)>
    decreases y, x,
{
    if x > 0 {
        if drawn(rows, x - 1, y as int) == Some(ch) {
            Some((x - 1, y as int))
        } else {
            last_drawn(rows, ch, y, (x - 1) as nat)
        }
    } else if y > 0 {
        last_drawn(rows, ch, (y - 1) as nat, width_of(rows))
    } else {
        None
    }
}

/// The drawing has no more cells than can be numbered.
pub open spec fn can_be_drawn(rows: Seq<Seq<char>>) -> bool {
    &&& width_of(rows) <= u32::MAX
    &&& rows.len() <= u32::MAX
    &&& width_of(rows) * rows.len() <= u32::MAX
}

/// The fixture is what is drawn.
pub open spec fn depicts(f: Fixture, rows: Seq<Seq<char>>) -> bool {
    let w = width_of(rows);
    let src = last_drawn(rows, 'S', rows.len(), 0);
    let dst = last_drawn(rows, 'T', rows.len(), 0);
    &&& f.grid.well_formed()
    &&& f.grid.dims == (Dims { w: w as u32, h: rows.len() as u32, layers: 1 })
    &&& f.grid.via_forbidden@.len() == 0
    &&& f.grid.board is None
    &&& forall|c: CellIdx| #[trigger]
        f.grid.dims.has(c) ==> f.grid.cost@[c as int] == if drawn(
            rows,
            f.grid.dims.col(c),
            f.grid.dims.row(c),
        ) == Some('#') {
            OBSTACLE
        } else {
            1
        }
    &&& f.nets@.len() == if src is Some && dst is Some {
        1nat
    } else {
        0nat
    }
    &&& f.nets@.len() == 1 ==> {
        let n = f.nets@[0];
        &&& n.net@ == "n0"@
        &&& f.grid.dims.has(n.src)
        &&& f.grid.dims.col(n.src) == (src->0).0
        &&& f.grid.dims.row(n.src) == (src->0).1
        &&& f.grid.dims.has(n.dst)
        &&& f.grid.dims.col(n.dst) == (dst->0).0
        &&& f.grid.dims.row(n.dst) == (dst->0).1
        &&& n.passable_pads@.len() == 0
        &&& n.via_passable_pads@.len() == 0
    }
}

/// Rows as plain values.
pub open spec fn rows_view(v: Seq<Vec<char>>) -> Seq<Seq<char>> {
    Seq::new(v.len(), |i: int| v[i]@)
}

/// The rows of a drawing.
fn split_rows(s: &str) -> (rows: Vec<Vec<char>>)
    ensures
        rows_view(rows@) == rows_of(s@),
{
    let chars = chars_of(s);
    let n: usize = chars.len();
    let mut rows: Vec<Vec<char>> = Vec::new();
    let mut k: usize = 0;
    assert(rows_view(rows@) + rows_from(s@, 0) =~= rows_of(s@));
    while k < n
        invariant
            chars@ == s@,
            n == s@.len(),
            k <= n,
            rows_view(rows@) + rows_from(s@, k as nat) == rows_of(s@),
        decreases n - k,
    {
        let mut e: usize = k;
        while e < n && chars[e] != '\n'
            invariant
                chars@ == s@,
                n == s@.len(),
                k <= e <= n,
                line_end(s@, e as nat) == line_end(s@, k as nat),
            decreases n - e,
        {
            e += 1;
        }
        let stop: usize = if e < n && e > k && chars[e - 1] == '\r' { e - 1 } else { e };
        let mut line: Vec<char> = Vec::new();
        let mut j: usize = k;
        while j < stop
            invariant
                chars@ == s@,
                k <= j <= stop <= n,
                n == s@.len(),
                line@ == s@.subrange(k as int, j as int),
            decreases stop - j,
        {
            line.push(chars[j]);
            assert(line@ =~= s@.subrange(k as int, j + 1));
            j += 1;
        }
        let ghost before = rows_view(rows@);
        let ghost row = line@;
        assert(row == line_at(s@, k as nat));
        if line.len() > 0 {
            rows.push(line);
            proof {
                let rest = rows_from(s@, (e + 1) as nat);
                assert(rows_view(rows@) =~= before.push(row));
                assert(before.push(row) + rest =~= before + (seq![row] + rest));
            }
        }
        assert(rows_view(rows@) + rows_from(s@, (e + 1) as nat) == rows_of(s@));
        proof {
            assert(rows_from(s@, n as nat) =~= Seq::empty());
            assert(rows_from(s@, (n + 1) as nat) =~= Seq::empty());
        }
        k = if e < n { e + 1 } else { n };
    }
    proof {
        assert(rows_from(s@, k as nat) =~= Seq::empty());
        assert(rows_view(rows@) =~= rows_of(s@));
    }
    rows
}

/// A net between two cells, without pads.
fn plain_net(src: CellIdx, dst: CellIdx) -> (n: NetEndpoints)
    ensures
        n.net@ == "n0"@,
        n.src == src,
        n.dst == dst,
        n.passable_pads@.len() == 0,
        n.via_passable_pads@.len() == 0,
{
    NetEndpoints {
        net: "n0".to_owned(),
        src,
        dst,
        passable_pads: Vec::new(),
        via_passable_pads: Vec::new(),
    }
}

/// The board that is drawn: one line for each row, as wide as the first one, with empty
/// lines left out. There is a net if both of its ends are drawn.
#[verifier::rlimit(30)]
pub fn parse_ascii(name: &'static str, s: &str, expected_total_cost: Option<u64>) -> (f: Fixture)
    requires
        can_be_drawn(rows_of(s@)),
    ensures
        depicts(f, rows_of(s@)),
        f.name == name,
        f.expected_total_cost == expected_total_cost,
        f.expected_path is None,
{
    let rows = split_rows(s);
    let ghost rv = rows_of(s@);
    let h: usize = rows.len();
    let w: usize = if h == 0 { 0 } else { rows[0].len() };
    let dims = Dims::new(w as u32, h as u32);
    proof {
        assert(w == width_of(rv));
        assert(w * h == width_of(rv) * rv.len());
        assert(dims.cells() == w * h * 1) by (nonlinear_arith)
            requires
                dims.w == w,
                dims.h == h,
                dims.layers == 1,
                dims.cells() == dims.w * dims.h * dims.layers,
        ;
    }
    let mut b = GridBuilder::new(dims, 1);
    let mut src: Option<CellIdx> = None;
    let mut dst: Option<CellIdx> = None;
    let mut y: usize = 0;
    while y < h
        invariant
            rv == rows_view(rows@),
            h == rv.len(),
            w == width_of(rv),
            h <= u32::MAX,
            w <= u32::MAX,
            dims == (Dims { w: w as u32, h: h as u32, layers: 1 }),
            dims.indexable(),
            b.wf(),
            b.dims == dims,
            b.base_cost == 1,
            y <= h,
            forall|c: int|
                0 <= c < dims.cells() ==> #[trigger] b.blocked@[c] == (dims.row(c as u32) < y
                    && drawn(rv, dims.col(c as u32), dims.row(c as u32)) == Some('#')),
            points(dims, src, last_drawn(rv, 'S', y as nat, 0)),
            points(dims, dst, last_drawn(rv, 'T', y as nat, 0)),
        decreases h - y,
    {
        let row = &rows[y];
        assert(rv[y as int] == row@);
        let mut x: usize = 0;
        while x < w
            invariant
                rv == rows_view(rows@),
                h == rv.len(),
                w == width_of(rv),
                h <= u32::MAX,
                w <= u32::MAX,
                dims == (Dims { w: w as u32, h: h as u32, layers: 1 }),
                dims.indexable(),
                b.wf(),
                b.dims == dims,
                b.base_cost == 1,
                y < h,
                x <= w,
                row@ == rv[y as int],
                forall|c: int|
                    0 <= c < dims.cells() ==> #[trigger] b.blocked@[c] == ((dims.row(c as u32) < y
                        || dims.row(c as u32) == y && dims.col(c as u32) < x) && drawn(
                        rv,
                        dims.col(c as u32),
                        dims.row(c as u32),
                    ) == Some('#')),
                points(dims, src, last_drawn(rv, 'S', y as nat, x as nat)),
                points(dims, dst, last_drawn(rv, 'T', y as nat, x as nat)),
            decreases w - x,
        {
            let ghost was = b.blocked@;
            if x < row.len() {
                let ch: char = row[x];
                assert(drawn(rv, x as int, y as int) == Some(ch));
                if ch == '#' {
                    let _ = b.mark_cell(x as u32, y as u32);
                } else if ch == 'S' {
                    src = Some(dims.idx(x as u32, y as u32));
                } else if ch == 'T' {
                    dst = Some(dims.idx(x as u32, y as u32));
                }
            } else {
                assert(drawn(rv, x as int, y as int) is None);
            }
            proof {
                assert forall|c: int| 0 <= c < dims.cells() implies #[trigger] b.blocked@[c] == ((
                dims.row(c as u32) < y || dims.row(c as u32) == y && dims.col(c as u32) < x + 1)
                    && drawn(rv, dims.col(c as u32), dims.row(c as u32)) == Some('#')) by {
                    dims.lemma_coords(c as u32);
                    assert(was[c] == ((dims.row(c as u32) < y || dims.row(c as u32) == y
                        && dims.col(c as u32) < x) && drawn(
                        rv,
                        dims.col(c as u32),
                        dims.row(c as u32),
                    ) == Some('#')));
                }
            }
            x += 1;
        }
        proof {
            assert forall|c: int| 0 <= c < dims.cells() implies #[trigger] b.blocked@[c] == (
            dims.row(c as u32) < y + 1 && drawn(rv, dims.col(c as u32), dims.row(c as u32))
                == Some('#')) by {
                dims.lemma_coords(c as u32);
            }
        }
        y += 1;
    }
    let grid = b.build();
    let mut nets: Vec<NetEndpoints> = Vec::new();
    if let (Some(a), Some(z)) = (src, dst) {
        nets.push(plain_net(a, z));
    }
    let f = Fixture { name, grid, nets, expected_total_cost, expected_path: None };
    proof {
        assert forall|c: CellIdx| #[trigger] f.grid.dims.has(c) implies f.grid.cost@[c as int]
            == if drawn(rv, f.grid.dims.col(c), f.grid.dims.row(c)) == Some('#') {
            OBSTACLE
        } else {
            1
        } by {
            dims.lemma_coords(c);
            assert(b.blocked@[c as int] == (dims.row(c) < h && drawn(
                rv,
                dims.col(c),
                dims.row(c),
            ) == Some('#')));
        }
    }
    f
}

/// The cell is where something is drawn, if it is drawn at all.
spec fn points(dims: Dims, c: Option<CellIdx>, at: Option<(int, int)>) -> bool {
    &&& c is Some <==> at is Some
    &&& c is Some ==> dims.has(c->0) && dims.col(c->0) == (at->0).0 && dims.row(c->0) == (at->0).1
}

/// A board of 32 by 32 cells with a wall in column 15 that is open in the last row only,
/// and a net from the first to the last cell of the first row.
pub open spec fn is_wall(f: Fixture) -> bool {
    &&& f.grid.well_formed()
    &&& f.grid.dims == (Dims { w: 32, h: 32, layers: 1 })
    &&& f.grid.via_forbidden@.len() == 0
    &&& f.grid.board is None
    &&& forall|c: CellIdx| #[trigger]
        f.grid.dims.has(c) ==> f.grid.cost@[c as int] == if f.grid.dims.col(c) == 15
            && f.grid.dims.row(c) <= 30 {
            OBSTACLE
        } else {
            1
        }
    &&& f.nets@.len() == 1
    &&& f.nets@[0].net@ == "n0"@
    &&& f.nets@[0].src == 0
    &&& f.nets@[0].dst == 31
    &&& f.nets@[0].passable_pads@.len() == 0
    &&& f.nets@[0].via_passable_pads@.len() == 0
    &&& f.name@ == "hand_32x32_wall"@
    &&& f.expected_total_cost == Some(93u64)
    &&& f.expected_path is None
}

/// A board of 32 by 32 cells with a wall in column 15 that is open in the last row only.
/// Its net runs from the first to the last cell of the first row, by way of the gap: 31
/// columns across, 31 rows down and 31 rows up.
pub fn hand_32x32_wall() -> (f: Fixture)
    ensures
        is_wall(f),
{
    let dims = Dims::new(32, 32);
    assert(dims.cells() == 1024) by (nonlinear_arith)
        requires
            dims.w == 32,
            dims.h == 32,
            dims.layers == 1,
            dims.cells() == dims.w * dims.h * dims.layers,
    ;
    let mut b = GridBuilder::new(dims, 1);
    let _ = b.mark_rect(15, 0, 15, 30);
    let ghost marks = b.blocked@;
    let grid = b.build();
    let mut nets: Vec<NetEndpoints> = Vec::new();
    nets.push(plain_net(dims.idx(0, 0), dims.idx(31, 0)));
    let f = Fixture {
        name: "hand_32x32_wall",
        grid,
        nets,
        expected_total_cost: Some(93),
        expected_path: None,
    };
    proof {
        assert forall|c: CellIdx| #[trigger] f.grid.dims.has(c) implies f.grid.cost@[c as int]
            == if f.grid.dims.col(c) == 15 && f.grid.dims.row(c) <= 30 {
            OBSTACLE
        } else {
            1
        } by {
            dims.lemma_coords(c);
            assert(marks[c as int] == b.blocked@[c as int]);
        }
    }
    f
}

/// An open board of two by two cells whose net has two equally cheap routes; the one by
/// the lower cell is the expected one.
pub fn tie_break_2x2() -> (f: Fixture)
    ensures
        f.grid.well_formed(),
        f.grid.dims == (Dims { w: 2, h: 2, layers: 1 }),
        f.grid.via_forbidden@.len() == 0,
        f.grid.board is None,
        forall|c: CellIdx| #[trigger] f.grid.dims.has(c) ==> f.grid.cost@[c as int] == 1,
        f.nets@.len() == 1,
        f.nets@[0].net@ == "n0"@,
        f.nets@[0].src == 0,
        f.nets@[0].dst == 3,
        f.nets@[0].passable_pads@.len() == 0,
        f.nets@[0].via_passable_pads@.len() == 0,
        f.name@ == "tie_break_2x2"@,
        f.expected_total_cost == Some(2u64),
        f.expected_path matches Some(p) && p@ == seq![0u32, 1u32, 3u32],
{
    let dims = Dims::new(2, 2);
    assert(dims.cells() == 4) by (nonlinear_arith)
        requires
            dims.w == 2,
            dims.h == 2,
            dims.layers == 1,
            dims.cells() == dims.w * dims.h * dims.layers,
    ;
    let b = GridBuilder::new(dims, 1);
    let grid = b.build();
    let mut nets: Vec<NetEndpoints> = Vec::new();
    nets.push(plain_net(dims.idx(0, 0), dims.idx(1, 1)));
    let mut path: Vec<CellIdx> = Vec::new();
    path.push(dims.idx(0, 0));
    path.push(dims.idx(1, 0));
    path.push(dims.idx(1, 1));
    assert(path@ =~= seq![0u32, 1u32, 3u32]);
    Fixture {
        name: "tie_break_2x2",
        grid,
        nets,
        expected_total_cost: Some(2),
        expected_path: Some(path),
    }
}

/// A drawing has no more rows than characters, and none of them has more.
proof fn lemma_rows(s: Seq<char>, k: nat)
    requires
        k <= s.len() + 1,
    ensures
        rows_from(s, k).len() + k <= s.len() + 1,
        forall|i: int| 0 <= i < rows_from(s, k).len() ==> (#[trigger] rows_from(s, k)[i]).len()
            <= s.len(),
    decreases s.len() + 1 - k,
{
    if k < s.len() {
        lemma_line_end(s, k);
        let line = line_at(s, k);
        let rest = rows_from(s, line_end(s, k) + 1);
        lemma_rows(s, line_end(s, k) + 1);
        let all = rows_from(s, k);
        assert forall|i: int| 0 <= i < all.len() implies (#[trigger] all[i]).len() <= s.len() by {
            if line.len() > 0 {
                if i > 0 {
                    assert(all[i] == rest[i - 1]);
                }
            } else {
                assert(all[i] == rest[i]);
            }
        }
    }
}

/// A small drawing can be drawn.
proof fn lemma_small_drawing(s: Seq<char>)
    requires
        s.len() <= 1000,
    ensures
        can_be_drawn(rows_of(s)),
{
    lemma_rows(s, 0);
    let rows = rows_of(s);
    if rows.len() > 0 {
        assert(rows[0].len() <= s.len());
    }
    assert(width_of(rows) * rows.len() <= 1000 * 1001) by (nonlinear_arith)
        requires
            width_of(rows) <= 1000,
            rows.len() <= 1001,
    ;
}

/// Small boards with obstacles.
pub fn obstacle_battery() -> (v: Vec<Fixture>)
    ensures
        v@.len() == 6,
        v@[0].name@ == "open_5x5"@,
        depicts(v@[0], rows_of("S....\n.....\n.....\n.....\n....T"@)),
        v@[0].expected_total_cost == Some(8u64),
        v@[1].name@ == "notch"@,
        depicts(v@[1], rows_of("S.#..\n..#..\n..#..\n..#..\n....T"@)),
        v@[1].expected_total_cost == Some(8u64),
        v@[2].name@ == "spiral"@,
        depicts(v@[2], rows_of("S....\n####.\n...#.\n.#.#.\n.#..T"@)),
        v@[2].expected_total_cost == None::<u64>,
        v@[3].name@ == "corridor"@,
        depicts(v@[3], rows_of("S#...\n.#.#.\n.#.#.\n.#.#.\n...#T"@)),
        v@[3].expected_total_cost == None::<u64>,
        v@[4].name@ == "blocked_gap"@,
        depicts(v@[4], rows_of("S....\n.###.\n.#T#.\n.###.\n....."@)),
        v@[4].expected_total_cost == None::<u64>,
        forall|i: int| 0 <= i < 5 ==> (#[trigger] v@[i]).expected_path is None,
        is_wall(v@[5]),
{
    proof {
        reveal_strlit("S....\n.....\n.....\n.....\n....T");
        lemma_small_drawing("S....\n.....\n.....\n.....\n....T"@);
        reveal_strlit("S.#..\n..#..\n..#..\n..#..\n....T");
        lemma_small_drawing("S.#..\n..#..\n..#..\n..#..\n....T"@);
        reveal_strlit("S....\n####.\n...#.\n.#.#.\n.#..T");
        lemma_small_drawing("S....\n####.\n...#.\n.#.#.\n.#..T"@);
        reveal_strlit("S#...\n.#.#.\n.#.#.\n.#.#.\n...#T");
        lemma_small_drawing("S#...\n.#.#.\n.#.#.\n.#.#.\n...#T"@);
        reveal_strlit("S....\n.###.\n.#T#.\n.###.\n.....");
        lemma_small_drawing("S....\n.###.\n.#T#.\n.###.\n....."@);
    }
    let mut v: Vec<Fixture> = Vec::new();
    v.push(parse_ascii("open_5x5", "S....\n.....\n.....\n.....\n....T", Some(8)));
    v.push(parse_ascii("notch", "S.#..\n..#..\n..#..\n..#..\n....T", Some(8)));
    v.push(parse_ascii("spiral", "S....\n####.\n...#.\n.#.#.\n.#..T", None));
    v.push(parse_ascii("corridor", "S#...\n.#.#.\n.#.#.\n.#.#.\n...#T", None));
    v.push(parse_ascii("blocked_gap", "S....\n.###.\n.#T#.\n.###.\n.....", None));
    v.push(hand_32x32_wall());
    v
}

} // verus!
