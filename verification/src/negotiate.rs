//! Rounds of negotiation, in which nets that share cells pay more and more for it.
use vstd::prelude::*;

use crate::board::CellIdx;
use crate::cells::copy_cells;
use crate::geometry::{IsolatedRouteWindow, SCALE};
use crate::halo::{bump_all, halo_list, unbump_all, Claim};
use crate::net::Found;
use crate::pads::{CountedCellSet, PadSet};
use crate::parallel::par_map;
use crate::pricing::{route_negotiated, Pricing, MAX_ITERS};
use crate::search::SearchBuf;
use crate::task::{Problem, Task};
use crate::trace::IterSnapshot;

verus! {

/// From how many nets on a board is negotiated in parallel.
pub const PARALLEL_NEGOTIATION_THRESHOLD: usize = 16;

/// From how many searches on penalties are added up beforehand.
pub const FUSED_JACOBI_MIN_DIRTY_NETS: usize = 32;

/// Where negotiation stands.
#[verifier::ext_equal]
pub struct Nego {
    /// The path of each net; empty where it has none.
    pub paths: Seq<Seq<CellIdx>>,
    /// How many paths run through each cell.
    pub present: Seq<u32>,
    /// How often each cell is kept free.
    pub halo: Seq<u32>,
    /// What each cell costs on top for having been shared.
    pub history: Seq<u32>,
    /// The cells that the last round left shared.
    pub over: Seq<CellIdx>,
}

/// Nothing routed yet.
pub open spec fn nego_start(t: Task) -> Nego {
    let n = t.dims().cells() as nat;
    Nego {
        paths: Seq::new(t.nets.len(), |i: int| Seq::<CellIdx>::empty()),
        present: Seq::new(n, |c: int| 0u32),
        halo: Seq::new(n, |c: int| 0u32),
        history: Seq::new(n, |c: int| 0u32),
        over: Seq::empty(),
    }
}

/// The path of net `i` at the given penalties: in its window, or else anywhere.
pub open spec fn find(
    t: Task,
    i: int,
    history: Seq<u32>,
    penalty: spec_fn(CellIdx) -> int,
) -> Option<Seq<CellIdx>> {
    match crate::pricing::neg_route(t, i, t.window(i), history, penalty) {
        Some((p, _)) => Some(p),
        None => match crate::pricing::neg_route(
            t,
            i,
            IsolatedRouteWindow::whole(t.dims()),
            history,
            penalty,
        ) {
            Some((p, _)) => Some(p),
            None => None,
        },
    }
}

/// Net `i` taken off the board.
pub open spec fn lifted(t: Task, s: Nego, i: int) -> Nego {
    Nego {
        paths: s.paths.update(i, Seq::empty()),
        present: crate::halo::unbump(s.present, s.paths[i]),
        halo: crate::halo::unbump(
            s.halo,
            crate::halo::halo_cells(&t.grid, t.geo, s.paths[i]),
        ),
        ..s
    }
}

/// Net `i` put on the board, if it has a path.
pub open spec fn laid(t: Task, s: Nego, i: int, path: Option<Seq<CellIdx>>) -> Nego {
    match path {
        Some(p) => Nego {
            paths: s.paths.update(i, p),
            present: crate::halo::bump(s.present, p),
            halo: crate::halo::bump(s.halo, crate::halo::halo_cells(&t.grid, t.geo, p)),
            ..s
        },
        None => s,
    }
}

/// The penalty of each cell by the counts alone.
pub open spec fn plain_penalty(s: Nego, pfac: u32) -> spec_fn(CellIdx) -> int {
    |c: CellIdx|
        crate::pricing::crowding(pfac, s.present[c as int] as int, s.halo[c as int] as int)
}

/// Net `i` taken off the board and put back where it now costs least.
pub open spec fn own_turn(t: Task, s: Nego, i: int, pfac: u32) -> Nego {
    let l = lifted(t, s, i);
    laid(t, l, i, find(t, i, l.history, plain_penalty(l, pfac)))
}

/// Some cell of the path is among `over`.
pub open spec fn touches(path: Seq<CellIdx>, over: Seq<CellIdx>) -> bool {
    exists|c: CellIdx| #[trigger] path.contains(c) && over.contains(c)
}

/// On large boards without clearance a net that shares nothing is left alone.
pub open spec fn incremental(t: Task) -> bool {
    t.nets.len() > 8 && !t.geo.spaced
}

/// Net `i` is left alone in this round.
pub open spec fn rests(t: Task, over: Seq<CellIdx>, path: Seq<CellIdx>, iter: u32) -> bool {
    incremental(t) && iter > 0 && path.len() > 0 && !touches(path, over)
}

/// One round, net after net, each seeing where the ones before it went.
pub open spec fn serial_round(t: Task, s: Nego, iter: u32, k: nat) -> Nego
    decreases k,
{
    if k == 0 {
        s
    } else {
        let b = serial_round(t, s, iter, (k - 1) as nat);
        if rests(t, s.over, b.paths[k - 1], iter) {
            b
        } else {
            own_turn(t, b, k - 1, (iter + 1) as u32)
        }
    }
}

/// Net `i` is searched anew in this round.
pub open spec fn dirty(t: Task, s: Nego, i: int, iter: u32) -> bool {
    t.geo.spaced || iter == 0 || s.paths[i].len() == 0 || touches(s.paths[i], s.over)
}

/// How many of the first `k` nets are searched anew.
pub open spec fn dirty_count(t: Task, s: Nego, iter: u32, k: nat) -> nat
    decreases k,
{
    if k == 0 {
        0
    } else {
        dirty_count(t, s, iter, (k - 1) as nat) + if dirty(t, s, k - 1, iter) {
            1nat
        } else {
            0nat
        }
    }
}

/// The penalty of each cell for net `i`, which is itself counted.
pub open spec fn own_penalty(t: Task, s: Nego, i: int, pfac: u32, fused: bool) -> spec_fn(
    CellIdx,
) -> int {
    let path = s.paths[i];
    let around = crate::halo::halo_cells(&t.grid, t.geo, path);
    |c: CellIdx|
        {
            let present = s.present[c as int] as int;
            let halo = s.halo[c as int] as int;
            if fused {
                crate::pricing::minus(
                    crate::pricing::crowding(pfac, present, halo),
                    pfac * SCALE * crate::search::sat(
                        crate::cells::occurrences(around, c) + crate::cells::occurrences(
                            path,
                            c,
                        ) as int,
                    ),
                )
            } else {
                crate::pricing::crowding(
                    pfac,
                    crate::pricing::minus(
                        present,
                        if path.contains(c) {
                            1
                        } else {
                            0
                        },
                    ),
                    crate::pricing::minus(
                        halo,
                        crate::search::sat(crate::cells::occurrences(around, c) as int),
                    ),
                )
            }
        }
}

/// The path that net `i` takes while all others stay where they are.
pub open spec fn jacobi_path(t: Task, s: Nego, i: int, iter: u32) -> Option<Seq<CellIdx>> {
    let fused = dirty_count(t, s, iter, t.nets.len()) >= FUSED_JACOBI_MIN_DIRTY_NETS;
    find(t, i, s.history, own_penalty(t, s, i, (iter + 1) as u32, fused))
}

/// One round in which all nets move at once, the first `k` of them moved.
pub open spec fn jacobi_round(t: Task, s: Nego, iter: u32, k: nat) -> Nego
    decreases k,
{
    if k == 0 {
        s
    } else {
        let b = jacobi_round(t, s, iter, (k - 1) as nat);
        if dirty(t, s, k - 1, iter) {
            laid(t, lifted(t, b, k - 1), k - 1, jacobi_path(t, s, k - 1, iter))
        } else {
            b
        }
    }
}

/// Which group was first in each cell, and which cells another group entered too.
#[verifier::ext_equal]
pub struct Overuse {
    /// The first group in each cell.
    pub first: Seq<Claim>,
    /// The cells that a second group entered, in the order in which that was seen.
    pub over: Seq<CellIdx>,
}

/// Group `g` enters `c`.
pub open spec fn enter(u: Overuse, c: CellIdx, g: usize) -> Overuse {
    if u.first[c as int] == Claim::Free {
        Overuse { first: u.first.update(c as int, Claim::Group(g)), ..u }
    } else if u.first[c as int] != Claim::Group(g) && !u.over.contains(c) {
        Overuse { over: u.over.push(c), ..u }
    } else {
        u
    }
}

/// Group `g` enters the first `k` cells of a path.
pub open spec fn enter_path(u: Overuse, path: Seq<CellIdx>, g: usize, k: nat) -> Overuse
    decreases k,
{
    if k == 0 {
        u
    } else {
        enter(enter_path(u, path, g, (k - 1) as nat), path[k - 1], g)
    }
}

/// The first `k` nets enter their paths.
pub open spec fn overuse(
    n: nat,
    paths: Seq<Seq<CellIdx>>,
    groups: Seq<usize>,
    k: nat,
) -> Overuse
    decreases k,
{
    if k == 0 {
        Overuse { first: Seq::new(n, |c: int| Claim::Free), over: Seq::empty() }
    } else {
        enter_path(
            overuse(n, paths, groups, (k - 1) as nat),
            paths[k - 1],
            groups[k - 1],
            paths[k - 1].len(),
        )
    }
}

/// The history with each of `over` dearer by one unit.
pub open spec fn dearer(history: Seq<u32>, over: Seq<CellIdx>) -> Seq<u32> {
    Seq::new(
        history.len(),
        |c: int|
            if over.contains(c as u32) {
                crate::search::sat(history[c] + SCALE) as u32
            } else {
                history[c]
            },
    )
}

/// One round.
pub open spec fn round(t: Task, groups: Seq<usize>, parallel: bool, s: Nego, iter: u32) -> Nego {
    let moved = if parallel {
        jacobi_round(t, s, iter, t.nets.len())
    } else {
        serial_round(t, s, iter, t.nets.len())
    };
    let over = overuse(t.dims().cells() as nat, moved.paths, groups, t.nets.len()).over;
    Nego { history: dearer(s.history, over), over, ..moved }
}

/// Where each round from `iter` on leads: up to the first one that leaves no cell
/// shared, or to the last one.
pub open spec fn rounds(
    t: Task,
    groups: Seq<usize>,
    parallel: bool,
    s: Nego,
    iter: u32,
) -> Seq<Nego>
    decreases MAX_ITERS - iter,
{
    if iter >= MAX_ITERS {
        Seq::empty()
    } else {
        let r = round(t, groups, parallel, s, iter);
        if r.over.len() == 0 {
            seq![r]
        } else {
            seq![r] + rounds(t, groups, parallel, r, (iter + 1) as u32)
        }
    }
}

/// One more turn for each of the first `k` nets, at the highest penalty.
pub open spec fn polished(t: Task, s: Nego, k: nat) -> Nego
    decreases k,
{
    if k == 0 {
        s
    } else {
        own_turn(t, polished(t, s, (k - 1) as nat), k - 1, MAX_ITERS)
    }
}

/// The last of the rounds.
pub open spec fn settled(t: Task, groups: Seq<usize>, parallel: bool) -> Nego {
    rounds(t, groups, parallel, nego_start(t), 0).last()
}

/// The paths that negotiation ends with. Where nets that keep clear of each other
/// moved all at once, on a single layer, each has one more turn of its own.
pub open spec fn negotiated_paths(t: Task, groups: Seq<usize>, parallel: bool) -> Seq<Seq<CellIdx>> {
    let s = settled(t, groups, parallel);
    if parallel && t.geo.spaced && t.dims().layers == 1 {
        polished(t, s, t.nets.len()).paths
    } else {
        s.paths
    }
}

/// Paths as plain values.
pub open spec fn paths_view(v: Seq<Vec<CellIdx>>) -> Seq<Seq<CellIdx>> {
    Seq::new(v.len(), |i: int| v[i]@)
}

/// A path as a plain value, where there is one.
pub open spec fn opt_view(r: Option<Vec<CellIdx>>) -> Option<Seq<CellIdx>> {
    match r {
        Some(p) => Some(p@),
        None => None,
    }
}

/// Where negotiation stands, with the counts that it needs.
pub struct NegState {
    /// The path of each net; empty where it has none.
    pub paths: Vec<Vec<CellIdx>>,
    /// How many paths run through each cell.
    pub present: Vec<u32>,
    /// How often each cell is kept free.
    pub halo: Vec<u32>,
    /// What each cell costs on top for having been shared.
    pub history: Vec<u32>,
    /// The cells that the last round left shared.
    pub over: Vec<CellIdx>,
}

impl NegState {
    /// Where negotiation stands.
    pub open spec fn state(&self) -> Nego {
        Nego {
            paths: paths_view(self.paths@),
            present: self.present@,
            halo: self.halo@,
            history: self.history@,
            over: self.over@,
        }
    }

    /// There is a path for each net, on the board, and a count for each cell.
    pub open spec fn wf(&self, t: Task) -> bool {
        &&& t.wf()
        &&& self.paths@.len() == t.nets.len()
        &&& self.present@.len() == t.dims().cells()
        &&& self.halo@.len() == t.dims().cells()
        &&& self.history@.len() == t.dims().cells()
        &&& forall|i: int|
            0 <= i < self.paths@.len() ==> crate::halo::on_board(
                t.dims(),
                (#[trigger] self.paths@[i])@,
            )
        &&& crate::halo::on_board(t.dims(), self.over@)
    }

    /// Nothing routed yet.
    fn start(p: &Problem) -> (s: NegState)
        requires
            p.wf(),
        ensures
            s.wf(p.task()),
            s.state() == nego_start(p.task()),
    {
        let n: usize = p.grid.dims.len();
        let mut paths: Vec<Vec<CellIdx>> = Vec::new();
        let mut i: usize = 0;
        while i < p.nets.len()
            invariant
                i <= p.nets@.len(),
                paths@.len() == i,
                forall|j: int| 0 <= j < i ==> (#[trigger] paths@[j])@.len() == 0,
            decreases p.nets@.len() - i,
        {
            paths.push(Vec::new());
            i += 1;
        }
        let s = NegState {
            paths,
            present: vec![0; n],
            halo: vec![0; n],
            history: vec![0; n],
            over: Vec::new(),
        };
        proof {
            assert forall|i: int| 0 <= i < s.paths@.len() implies (#[trigger] s.state().paths[i])
                == Seq::<CellIdx>::empty() by {
                assert(s.paths@[i]@ =~= Seq::<CellIdx>::empty());
            }
            assert(s.state().paths =~= nego_start(p.task()).paths);
            assert(s.state() =~= nego_start(p.task()));
        }
        s
    }

    /// Takes net `i` off the board.
    fn lift(&mut self, p: &Problem, i: usize)
        requires
            p.wf(),
            old(self).wf(p.task()),
            i < p.nets@.len(),
        ensures
            final(self).wf(p.task()),
            final(self).state() == lifted(p.task(), old(self).state(), i as int),
    {
        let ghost was = self.state();
        let ghost t = p.task();
        let around = halo_list(p.grid, p.geo, &self.paths[i]);
        proof {
            assert forall|k: int| 0 <= k < self.paths@[i as int]@.len() implies (
            #[trigger] self.paths@[i as int]@[k]) < self.present@.len() by {
                assert(t.dims().has(self.paths@[i as int]@[k]));
            }
            assert forall|k: int| 0 <= k < around@.len() implies (#[trigger] around@[k])
                < self.halo@.len() by {
                assert(t.dims().has(around@[k]));
            }
        }
        unbump_all(&mut self.present, &self.paths[i]);
        unbump_all(&mut self.halo, &around);
        self.paths.set(i, Vec::new());
        proof {
            assert(self.state().paths =~= was.paths.update(i as int, Seq::empty()));
            assert(self.state() =~= lifted(t, was, i as int));
        }
    }

    /// Puts net `i` on the board, if it has a path.
    fn lay(&mut self, p: &Problem, i: usize, path: Option<Vec<CellIdx>>)
        requires
            p.wf(),
            old(self).wf(p.task()),
            i < p.nets@.len(),
            path matches Some(x) ==> crate::halo::on_board(p.task().dims(), x@),
        ensures
            final(self).wf(p.task()),
            final(self).state() == laid(p.task(), old(self).state(), i as int, opt_view(path)),
    {
        let ghost was = self.state();
        let ghost t = p.task();
        match path {
            None => {},
            Some(x) => {
                let around = halo_list(p.grid, p.geo, &x);
                let ghost cells = x@;
                proof {
                    assert forall|k: int| 0 <= k < x@.len() implies (#[trigger] x@[k])
                        < self.present@.len() by {
                        assert(t.dims().has(x@[k]));
                    }
                    assert forall|k: int| 0 <= k < around@.len() implies (#[trigger] around@[k])
                        < self.halo@.len() by {
                        assert(t.dims().has(around@[k]));
                    }
                }
                bump_all(&mut self.present, &x);
                bump_all(&mut self.halo, &around);
                self.paths.set(i, x);
                proof {
                    assert(self.state().paths =~= was.paths.update(i as int, cells));
                    assert(self.state() =~= laid(t, was, i as int, Some(cells)));
                }
            },
        }
    }

    /// Takes net `i` off the board and puts it back where it now costs least.
    fn own_turn(&mut self, p: &Problem, buf: &mut SearchBuf, pads: &mut PadSet, i: usize, pfac: u32)
        requires
            p.wf(),
            old(self).wf(p.task()),
            i < p.nets@.len(),
            pfac <= MAX_ITERS,
            old(buf).wf(p.task().dims().cells()),
            old(pads).wf(),
            old(pads).cells() == p.task().dims().cells(),
        ensures
            final(self).wf(p.task()),
            final(buf).wf(p.task().dims().cells()),
            final(pads).wf(),
            final(pads).cells() == p.task().dims().cells(),
            final(self).state() == own_turn(p.task(), old(self).state(), i as int, pfac),
    {
        let ghost was = self.state();
        self.lift(p, i);
        p.load_pads(i, pads);
        let ghost l = self.state();
        let found = {
            let pricing = Pricing::Plain { present: &self.present, halo: &self.halo };
            let found = search_net(buf, p, i, pads, &self.history, pfac, &pricing);
            proof {
                let a = |c: CellIdx| pricing.penalty(pfac, c);
                assert(forall|c: CellIdx| #[trigger] a(c) == plain_penalty(l, pfac)(c));
                lemma_same_find(p.task(), i as int, l.history, a, plain_penalty(l, pfac));
            }
            found
        };
        self.lay(p, i, found);
    }
}

/// Penalties that agree on the board give the same path.
proof fn lemma_same_find(
    t: Task,
    i: int,
    history: Seq<u32>,
    a: spec_fn(CellIdx) -> int,
    b: spec_fn(CellIdx) -> int,
)
    requires
        forall|c: CellIdx| t.dims().has(c) ==> #[trigger] a(c) == b(c),
    ensures
        find(t, i, history, a) == find(t, i, history, b),
{
    crate::pricing::lemma_same_penalty(t, i, t.window(i), history, a, b);
    crate::pricing::lemma_same_penalty(
        t,
        i,
        IsolatedRouteWindow::whole(t.dims()),
        history,
        a,
        b,
    );
}

/// Searches net `i` at the given prices: in its window, or else anywhere.
fn search_net(
    buf: &mut SearchBuf,
    p: &Problem,
    i: usize,
    pads: &PadSet,
    history: &Vec<u32>,
    pfac: u32,
    pricing: &Pricing,
) -> (r: Option<Vec<CellIdx>>)
    requires
        p.wf(),
        i < p.nets@.len(),
        old(buf).wf(p.task().dims().cells()),
        pads.wf(),
        pads.cells() == p.task().dims().cells(),
        forall|c: CellIdx| #[trigger] pads.has(c) == p.task().is_pad(i as int, c),
        history@.len() == p.task().dims().cells(),
        pfac <= MAX_ITERS,
        pricing.wf(p.task().dims().cells()),
    ensures
        final(buf).wf(p.task().dims().cells()),
        opt_view(r) == find(
            p.task(),
            i as int,
            history@,
            |c: CellIdx| pricing.penalty(pfac, c),
        ),
        r matches Some(path) ==> crate::halo::on_board(p.task().dims(), path@),
{
    let near: Found = route_negotiated(buf, p, i, pads, p.windows[i], history, pfac, pricing);
    match near {
        Some((path, _cost)) => Some(path),
        None => {
            let full = IsolatedRouteWindow::full(p.grid.dims);
            let far: Found = route_negotiated(buf, p, i, pads, full, history, pfac, pricing);
            match far {
                Some((path, _cost)) => Some(path),
                None => None,
            }
        },
    }
}

/// Marks the given cells.
fn marked(n: usize, cells: &Vec<CellIdx>) -> (m: Vec<bool>)
    requires
        n <= u32::MAX,
        forall|i: int| 0 <= i < cells@.len() ==> #[trigger] cells@[i] < n,
    ensures
        m@.len() == n,
        forall|c: int| 0 <= c < n ==> #[trigger] m@[c] == cells@.contains(c as u32),
{
    let mut m: Vec<bool> = vec![false; n];
    let mut i: usize = 0;
    while i < cells.len()
        invariant
            i <= cells@.len(),
            n <= u32::MAX,
            m@.len() == n,
            forall|j: int| 0 <= j < cells@.len() ==> #[trigger] cells@[j] < n,
            forall|c: int|
                0 <= c < n ==> #[trigger] m@[c] == cells@.take(i as int).contains(c as u32),
        decreases cells@.len() - i,
    {
        let ghost before = m@;
        m.set(cells[i] as usize, true);
        proof {
            assert forall|c: int| 0 <= c < n implies #[trigger] m@[c] == cells@.take(
                i + 1,
            ).contains(c as u32) by {
                crate::grid::lemma_take_contains(cells@, i as int, c as u32);
                assert(before[c] == cells@.take(i as int).contains(c as u32));
            }
        }
        i += 1;
    }
    assert(cells@.take(cells@.len() as int) =~= cells@);
    m
}

/// Whether some cell of the path is marked.
fn meets(path: &Vec<CellIdx>, marks: &Vec<bool>, Ghost(over): Ghost<Seq<CellIdx>>) -> (b: bool)
    requires
        forall|i: int| 0 <= i < path@.len() ==> #[trigger] path@[i] < marks@.len(),
        marks@.len() <= u32::MAX,
        forall|c: int| 0 <= c < marks@.len() ==> #[trigger] marks@[c] == over.contains(c as u32),
    ensures
        b == touches(path@, over),
{
    let mut i: usize = 0;
    while i < path.len()
        invariant
            i <= path@.len(),
            forall|i: int| 0 <= i < path@.len() ==> #[trigger] path@[i] < marks@.len(),
            marks@.len() <= u32::MAX,
            forall|c: int|
                0 <= c < marks@.len() ==> #[trigger] marks@[c] == over.contains(c as u32),
            forall|j: int| 0 <= j < i ==> !over.contains(#[trigger] path@[j]),
        decreases path@.len() - i,
    {
        let c: usize = path[i] as usize;
        assert(marks@[c as int] == over.contains(path@[i as int]));
        if marks[c] {
            assert(path@.contains(path@[i as int]));
            return true;
        }
        i += 1;
    }
    false
}

/// One round, net after net.
fn run_serial_round(
    p: &Problem,
    st: &mut NegState,
    buf: &mut SearchBuf,
    pads: &mut PadSet,
    iter: u32,
)
    requires
        p.wf(),
        old(st).wf(p.task()),
        iter < MAX_ITERS,
        old(buf).wf(p.task().dims().cells()),
        old(pads).wf(),
        old(pads).cells() == p.task().dims().cells(),
    ensures
        final(st).wf(p.task()),
        final(buf).wf(p.task().dims().cells()),
        final(pads).wf(),
        final(pads).cells() == p.task().dims().cells(),
        final(st).state() == serial_round(p.task(), old(st).state(), iter, p.nets@.len()),
{
    let ghost t = p.task();
    let ghost s = st.state();
    let n: usize = p.nets.len();
    let cells: usize = p.grid.dims.len();
    proof {
        assert forall|i: int| 0 <= i < st.over@.len() implies #[trigger] st.over@[i] < cells by {
            assert(t.dims().has(st.over@[i]));
        }
    }
    let marks = marked(cells, &st.over);
    let calm = n > 8 && !p.geo.spaced && iter > 0;
    let mut i: usize = 0;
    while i < n
        invariant
            p.wf(),
            t == p.task(),
            n == p.nets@.len(),
            cells == t.dims().cells(),
            cells <= u32::MAX,
            i <= n,
            iter < MAX_ITERS,
            st.wf(t),
            buf.wf(t.dims().cells()),
            pads.wf(),
            pads.cells() == t.dims().cells(),
            marks@.len() == cells,
            forall|c: int| 0 <= c < cells ==> #[trigger] marks@[c] == s.over.contains(c as u32),
            calm == (incremental(t) && iter > 0),
            st.state() == serial_round(t, s, iter, i as nat),
        decreases n - i,
    {
        let ghost b = st.state();
        proof {
            assert forall|k: int| 0 <= k < st.paths@[i as int]@.len() implies (
            #[trigger] st.paths@[i as int]@[k]) < marks@.len() by {
                assert(t.dims().has(st.paths@[i as int]@[k]));
            }
            assert(b.paths[i as int] == st.paths@[i as int]@);
        }
        let rest = calm && st.paths[i].len() > 0 && !meets(&st.paths[i], &marks, Ghost(s.over));
        if !rest {
            st.own_turn(p, buf, pads, i, iter + 1);
        }
        i += 1;
    }
}

/// The path that net `i` takes while all others stay where they are.
fn jacobi_search(
    p: &Problem,
    st: &NegState,
    i: usize,
    iter: u32,
    fused: bool,
    shared: &Vec<u64>,
) -> (r: Option<Vec<CellIdx>>)
    requires
        p.wf(),
        st.wf(p.task()),
        i < p.nets@.len(),
        iter < MAX_ITERS,
        fused ==> shared@.len() == p.task().dims().cells() && forall|c: int|
            0 <= c < shared@.len() ==> #[trigger] shared@[c] == crate::pricing::crowding(
                (iter + 1) as u32,
                st.present@[c] as int,
                st.halo@[c] as int,
            ),
    ensures
        opt_view(r) == find(
            p.task(),
            i as int,
            st.history@,
            own_penalty(p.task(), st.state(), i as int, (iter + 1) as u32, fused),
        ),
        r matches Some(path) ==> crate::halo::on_board(p.task().dims(), path@),
{
    let ghost t = p.task();
    let ghost s = st.state();
    let n: usize = p.grid.dims.len();
    let pfac: u32 = iter + 1;
    let path = &st.paths[i];
    let mut buf = SearchBuf::new(n);
    let mut pads = PadSet::new(n);
    let mut own_path = PadSet::new(n);
    let mut own_halo = CountedCellSet::new(n);
    p.load_pads(i, &mut pads);
    own_halo.clear();
    let around = halo_list(p.grid, p.geo, path);
    proof {
        assert(s.paths[i as int] == path@);
        assert forall|k: int| 0 <= k < path@.len() implies #[trigger] path@[k] < n by {
            assert(t.dims().has(path@[k]));
        }
        assert forall|k: int| 0 <= k < around@.len() implies #[trigger] around@[k] < n by {
            assert(t.dims().has(around@[k]));
        }
    }
    own_halo.increment_all(&around);
    let ghost pen = own_penalty(t, s, i as int, pfac, fused);
    if fused {
        let ghost only_halo = own_halo;
        own_halo.increment_all(path);
        let pricing = Pricing::Fused { shared, own: &own_halo };
        let r = search_net(&mut buf, p, i, &pads, &st.history, pfac, &pricing);
        proof {
            let a = |c: CellIdx| pricing.penalty(pfac, c);
            assert forall|c: CellIdx| t.dims().has(c) implies #[trigger] a(c) == pen(c) by {
                assert(shared@[c as int] == crate::pricing::crowding(
                    pfac,
                    st.present@[c as int] as int,
                    st.halo@[c as int] as int,
                ));
                assert(only_halo.counted(c) == crate::search::sat(
                    crate::cells::occurrences(around@, c) as int,
                ));
                assert(own_halo.counted(c) == crate::search::sat(
                    only_halo.counted(c) + crate::cells::occurrences(path@, c),
                ));
                assert(own_halo.counted(c) == crate::search::sat(
                    crate::cells::occurrences(around@, c) + crate::cells::occurrences(
                        path@,
                        c,
                    ) as int,
                ));
            }
            lemma_same_find(t, i as int, st.history@, a, pen);
        }
        r
    } else {
        own_path.load(path);
        let pricing = Pricing::Own {
            present: &st.present,
            halo: &st.halo,
            own_path: &own_path,
            own_halo: &own_halo,
        };
        let r = search_net(&mut buf, p, i, &pads, &st.history, pfac, &pricing);
        proof {
            let a = |c: CellIdx| pricing.penalty(pfac, c);
            assert forall|c: CellIdx| t.dims().has(c) implies #[trigger] a(c) == pen(c) by {
                assert(own_halo.counted(c) == crate::search::sat(
                    crate::cells::occurrences(around@, c) as int,
                ));
                assert(own_path.has(c) == path@.contains(c));
            }
            lemma_same_find(t, i as int, st.history@, a, pen);
        }
        r
    }
}

/// The numbers below `n`.
pub fn indices(n: usize) -> (v: Vec<usize>)
    ensures
        v@.len() == n,
        forall|i: int| 0 <= i < n ==> #[trigger] v@[i] == i,
{
    let mut v: Vec<usize> = Vec::new();
    let mut i: usize = 0;
    while i < n
        invariant
            i <= n,
            v@.len() == i,
            forall|j: int| 0 <= j < i ==> #[trigger] v@[j] == j,
        decreases n - i,
    {
        v.push(i);
        i += 1;
    }
    v
}

/// One round in which all nets move at once.
fn run_jacobi_round(p: &Problem, st: &mut NegState, iter: u32)
    requires
        p.wf(),
        old(st).wf(p.task()),
        iter < MAX_ITERS,
    ensures
        final(st).wf(p.task()),
        final(st).state() == jacobi_round(p.task(), old(st).state(), iter, p.nets@.len()),
{
    let ghost t = p.task();
    let ghost s = st.state();
    let n: usize = p.nets.len();
    let cells: usize = p.grid.dims.len();
    proof {
        assert forall|i: int| 0 <= i < st.over@.len() implies #[trigger] st.over@[i] < cells by {
            assert(t.dims().has(st.over@[i]));
        }
    }
    let marks = marked(cells, &st.over);
    let mut flags: Vec<bool> = Vec::new();
    let mut count: usize = 0;
    let mut i: usize = 0;
    while i < n
        invariant
            p.wf(),
            t == p.task(),
            st.wf(t),
            s == st.state(),
            n == p.nets@.len(),
            cells == t.dims().cells(),
            cells <= u32::MAX,
            i <= n,
            count <= i,
            marks@.len() == cells,
            forall|c: int| 0 <= c < cells ==> #[trigger] marks@[c] == s.over.contains(c as u32),
            flags@.len() == i,
            forall|j: int| 0 <= j < i ==> #[trigger] flags@[j] == dirty(t, s, j, iter),
            count == dirty_count(t, s, iter, i as nat),
        decreases n - i,
    {
        proof {
            assert forall|k: int| 0 <= k < st.paths@[i as int]@.len() implies (
            #[trigger] st.paths@[i as int]@[k]) < marks@.len() by {
                assert(t.dims().has(st.paths@[i as int]@[k]));
            }
            assert(s.paths[i as int] == st.paths@[i as int]@);
        }
        let moves = p.geo.spaced || iter == 0 || st.paths[i].len() == 0 || meets(
            &st.paths[i],
            &marks,
            Ghost(s.over),
        );
        flags.push(moves);
        if moves {
            count += 1;
        }
        i += 1;
    }
    let fused = count >= FUSED_JACOBI_MIN_DIRTY_NETS;
    let pfac: u32 = iter + 1;
    let mut shared: Vec<u64> = Vec::new();
    if fused {
        let mut c: usize = 0;
        while c < cells
            invariant
                st.wf(t),
                cells == t.dims().cells(),
                c <= cells,
                shared@.len() == c,
                pfac <= MAX_ITERS,
                forall|k: int|
                    0 <= k < c ==> #[trigger] shared@[k] == crate::pricing::crowding(
                        pfac,
                        st.present@[k] as int,
                        st.halo@[k] as int,
                    ),
            decreases cells - c,
        {
            let unit: u64 = (pfac as u64) * (SCALE as u64);
            proof {
                crate::pricing::lemma_unit(pfac, st.present@[c as int] as int);
                crate::pricing::lemma_unit(pfac, st.halo@[c as int] as int);
            }
            shared.push(unit * (st.present[c] as u64) + unit * (st.halo[c] as u64));
            c += 1;
        }
    }
    let items = indices(n);
    let results: Vec<Option<Option<Vec<CellIdx>>>> = {
        let snap: &NegState = &*st;
        let work = |i: &usize| -> (r: Option<Option<Vec<CellIdx>>>)
            requires
                *i < n,
                p.wf(),
                snap.wf(p.task()),
                iter < MAX_ITERS,
                n == p.nets@.len(),
                n == flags@.len(),
                fused ==> shared@.len() == p.task().dims().cells() && forall|c: int|
                    0 <= c < shared@.len() ==> #[trigger] shared@[c] == crate::pricing::crowding(
                        (iter + 1) as u32,
                        snap.present@[c] as int,
                        snap.halo@[c] as int,
                    ),
            ensures
                r is Some == flags@[*i as int],
                r matches Some(x) ==> opt_view(x) == find(
                    p.task(),
                    *i as int,
                    snap.history@,
                    own_penalty(p.task(), snap.state(), *i as int, (iter + 1) as u32, fused),
                ) && (x matches Some(path) ==> crate::halo::on_board(p.task().dims(), path@)),
            {
                if flags[*i] {
                    Some(jacobi_search(p, snap, *i, iter, fused, &shared))
                } else {
                    None
                }
            };
        par_map(&items, work)
    };
    let mut k: usize = 0;
    while k < n
        invariant
            p.wf(),
            t == p.task(),
            n == p.nets@.len(),
            k <= n,
            st.wf(t),
            flags@.len() == n,
            forall|j: int| 0 <= j < n ==> #[trigger] flags@[j] == dirty(t, s, j, iter),
            results@.len() == n,
            forall|j: int|
                0 <= j < n ==> {
                    &&& (#[trigger] results@[j]) is Some == flags@[j]
                    &&& results@[j] matches Some(x) ==> opt_view(x) == jacobi_path(t, s, j, iter)
                        && (x matches Some(path) ==> crate::halo::on_board(t.dims(), path@))
                },
            st.state() == jacobi_round(t, s, iter, k as nat),
        decreases n - k,
    {
        match &results[k] {
            None => {},
            Some(found) => {
                assert(results@[k as int] == Some(*found));
                st.lift(p, k);
                let path = match found {
                    Some(x) => Some(copy_cells(x)),
                    None => None,
                };
                st.lay(p, k, path);
            },
        }
        k += 1;
    }
}

/// The cells that nets of different groups share, in the order in which they are met.
pub fn overused_cells(n: usize, paths: &Vec<Vec<CellIdx>>, groups: &Vec<usize>) -> (over: Vec<
    CellIdx,
>)
    requires
        n <= u32::MAX,
        paths@.len() == groups@.len(),
        forall|i: int, k: int|
            0 <= i < paths@.len() && 0 <= k < paths@[i]@.len() ==> #[trigger] paths@[i]@[k] < n,
    ensures
        over@ == overuse(n as nat, paths_view(paths@), groups@, paths@.len()).over,
        forall|k: int| 0 <= k < over@.len() ==> #[trigger] over@[k] < n,
{
    let ghost pv = paths_view(paths@);
    let mut first: Vec<Claim> = vec![Claim::Free; n];
    let mut mark: Vec<bool> = vec![false; n];
    let mut over: Vec<CellIdx> = Vec::new();
    let mut i: usize = 0;
    assert(first@ =~= overuse(n as nat, pv, groups@, 0).first);
    while i < paths.len()
        invariant
            n <= u32::MAX,
            i <= paths@.len(),
            paths@.len() == groups@.len(),
            pv == paths_view(paths@),
            first@.len() == n,
            mark@.len() == n,
            forall|i: int, k: int|
                0 <= i < paths@.len() && 0 <= k < paths@[i]@.len() ==> #[trigger] paths@[i]@[k] < n,
            first@ == overuse(n as nat, pv, groups@, i as nat).first,
            over@ == overuse(n as nat, pv, groups@, i as nat).over,
            forall|c: int| 0 <= c < n ==> #[trigger] mark@[c] == over@.contains(c as u32),
            forall|k: int| 0 <= k < over@.len() ==> #[trigger] over@[k] < n,
        decreases paths@.len() - i,
    {
        let path = &paths[i];
        let g: usize = groups[i];
        let ghost u = overuse(n as nat, pv, groups@, i as nat);
        let mut k: usize = 0;
        while k < path.len()
            invariant
                n <= u32::MAX,
                k <= path@.len(),
                first@.len() == n,
                mark@.len() == n,
                forall|j: int| 0 <= j < path@.len() ==> #[trigger] path@[j] < n,
                first@ == enter_path(u, path@, g, k as nat).first,
                over@ == enter_path(u, path@, g, k as nat).over,
                forall|c: int| 0 <= c < n ==> #[trigger] mark@[c] == over@.contains(c as u32),
                forall|k: int| 0 <= k < over@.len() ==> #[trigger] over@[k] < n,
            decreases path@.len() - k,
        {
            let c: CellIdx = path[k];
            let x: usize = c as usize;
            let ghost before = over@;
            assert(mark@[x as int] == over@.contains(c));
            if first[x] == Claim::Free {
                first.set(x, Claim::Group(g));
            } else if first[x] != Claim::Group(g) && !mark[x] {
                mark.set(x, true);
                over.push(c);
                proof {
                    assert forall|y: int| 0 <= y < n implies #[trigger] mark@[y] == over@.contains(
                        y as u32,
                    ) by {
                        lemma_pushed(before, c, y as u32);
                    }
                }
            }
            k += 1;
        }
        i += 1;
    }
    over
}

/// What a list holds when one cell was appended.
proof fn lemma_pushed(s: Seq<CellIdx>, e: CellIdx, c: CellIdx)
    ensures
        s.push(e).contains(c) == (s.contains(c) || c == e),
{
    let p = s.push(e);
    if s.contains(c) {
        let k = choose|k: int| 0 <= k < s.len() && s[k] == c;
        assert(p[k] == c);
    }
    if c == e {
        assert(p[s.len() as int] == c);
    }
    if p.contains(c) && c != e {
        let k = choose|k: int| 0 <= k < p.len() && p[k] == c;
        assert(s[k] == c);
    }
}

/// What is known of the scan when exactly the groups that `w` names have entered.
spec fn scanned(u: Overuse, w: spec_fn(CellIdx, usize) -> bool) -> bool {
    forall|c: CellIdx|
        #![trigger u.first[c as int]]
        c < u.first.len() ==> {
            &&& u.first[c as int] != Claim::Mixed
            &&& u.first[c as int] == Claim::Free ==> forall|g: usize| !#[trigger] w(c, g)
            &&& u.first[c as int] is Group ==> w(c, u.first[c as int]->Group_0)
            &&& u.over.contains(c) <==> exists|g: usize| #[trigger]
                w(c, g) && u.first[c as int] != Claim::Group(g)
        }
}

/// One more group enters a cell.
proof fn lemma_enter(u: Overuse, w: spec_fn(CellIdx, usize) -> bool, c: CellIdx, g: usize)
    requires
        scanned(u, w),
        c < u.first.len(),
    ensures
        scanned(enter(u, c, g), |d: CellIdx, h: usize| w(d, h) || d == c && h == g),
        enter(u, c, g).first.len() == u.first.len(),
{
    let e = enter(u, c, g);
    let x = |d: CellIdx, h: usize| w(d, h) || d == c && h == g;
    assert(u.first[c as int] == u.first[c as int]);
    assert forall|d: CellIdx| #![trigger e.first[d as int]] d < e.first.len() implies {
        &&& e.first[d as int] != Claim::Mixed
        &&& e.first[d as int] == Claim::Free ==> forall|h: usize| !#[trigger] x(d, h)
        &&& e.first[d as int] is Group ==> x(d, e.first[d as int]->Group_0)
        &&& e.over.contains(d) <==> exists|h: usize| #[trigger]
            x(d, h) && e.first[d as int] != Claim::Group(h)
    } by {
        assert(u.first[d as int] == u.first[d as int]);
        lemma_pushed(u.over, c, d);
        assert(x(c, g));
        assert forall|h: usize| #[trigger] x(d, h) == (w(d, h) || d == c && h == g) by {}
        if e.over.contains(d) {
            if u.over.contains(d) {
                let h = choose|h: usize| #[trigger] w(d, h) && u.first[d as int] != Claim::Group(h);
                assert(x(d, h));
            } else {
                assert(x(d, g) && e.first[d as int] != Claim::Group(g));
            }
        }
        if exists|h: usize| #[trigger] x(d, h) && e.first[d as int] != Claim::Group(h) {
            let h = choose|h: usize| #[trigger] x(d, h) && e.first[d as int] != Claim::Group(h);
            if w(d, h) {
                assert(u.over.contains(d));
            } else {
                assert(d == c && h == g);
            }
        }
    }
}

/// The groups that have entered after the first `k` nets, and the first `m` cells of
/// one more path of group `g`.
spec fn entered(
    paths: Seq<Seq<CellIdx>>,
    groups: Seq<usize>,
    k: nat,
    path: Seq<CellIdx>,
    g: usize,
    m: nat,
) -> spec_fn(CellIdx, usize) -> bool {
    |c: CellIdx, h: usize|
        {
            ||| exists|i: int|
                0 <= i < k && groups[i] == h && (#[trigger] paths[i]).contains(c)
            ||| h == g && path.take(m as int).contains(c)
        }
}

/// The scan of a path knows which groups have entered.
proof fn lemma_enter_path(
    u: Overuse,
    paths: Seq<Seq<CellIdx>>,
    groups: Seq<usize>,
    k: nat,
    path: Seq<CellIdx>,
    g: usize,
    m: nat,
)
    requires
        scanned(u, entered(paths, groups, k, Seq::empty(), g, 0)),
        m <= path.len(),
        forall|j: int| 0 <= j < path.len() ==> #[trigger] path[j] < u.first.len(),
    ensures
        scanned(enter_path(u, path, g, m), entered(paths, groups, k, path, g, m)),
        enter_path(u, path, g, m).first.len() == u.first.len(),
    decreases m,
{
    if m == 0 {
        let a = entered(paths, groups, k, Seq::empty(), g, 0);
        let b = entered(paths, groups, k, path, g, 0);
        assert(a =~= b);
    } else {
        let m1 = (m - 1) as nat;
        lemma_enter_path(u, paths, groups, k, path, g, m1);
        let w = entered(paths, groups, k, path, g, m1);
        let c = path[m - 1];
        lemma_enter(enter_path(u, path, g, m1), w, c, g);
        let a = |d: CellIdx, h: usize| w(d, h) || d == c && h == g;
        let b = entered(paths, groups, k, path, g, m);
        assert forall|d: CellIdx, h: usize| #[trigger] a(d, h) == b(d, h) by {
            crate::grid::lemma_take_contains(path, m - 1, d);
        }
        assert(a =~= b);
    }
}

/// The scan of all paths knows which groups have entered.
proof fn lemma_overuse(n: nat, paths: Seq<Seq<CellIdx>>, groups: Seq<usize>, k: nat)
    requires
        n <= u32::MAX,
        k <= paths.len(),
        forall|i: int, j: int|
            0 <= i < paths.len() && 0 <= j < paths[i].len() ==> #[trigger] paths[i][j] < n,
    ensures
        scanned(overuse(n, paths, groups, k), entered(paths, groups, k, Seq::empty(), 0, 0)),
        overuse(n, paths, groups, k).first.len() == n,
    decreases k,
{
    if k > 0 {
        let k1 = (k - 1) as nat;
        lemma_overuse(n, paths, groups, k1);
        let u = overuse(n, paths, groups, k1);
        let path = paths[k - 1];
        let g = groups[k - 1];
        assert(entered(paths, groups, k1, Seq::empty(), 0, 0) =~= entered(
            paths,
            groups,
            k1,
            Seq::empty(),
            g,
            0,
        ));
        lemma_enter_path(u, paths, groups, k1, path, g, path.len());
        let a = entered(paths, groups, k1, path, g, path.len());
        let b = entered(paths, groups, k, Seq::empty(), 0, 0);
        assert forall|c: CellIdx, h: usize| #[trigger] a(c, h) == b(c, h) by {
            assert(path.take(path.len() as int) =~= path);
            if a(c, h) && !(exists|i: int|
                0 <= i < k1 && groups[i] == h && (#[trigger] paths[i]).contains(c)) {
                assert(paths[k - 1].contains(c));
            }
        }
        assert(a =~= b);
    }
}

/// A cell is overused exactly where nets of two different groups run through it.
pub proof fn law_overuse_is_sharing(
    n: nat,
    paths: Seq<Seq<CellIdx>>,
    groups: Seq<usize>,
    c: CellIdx,
)
    requires
        n <= u32::MAX,
        groups.len() == paths.len(),
        forall|i: int, j: int|
            0 <= i < paths.len() && 0 <= j < paths[i].len() ==> #[trigger] paths[i][j] < n,
    ensures
        overuse(n, paths, groups, paths.len()).over.contains(c) <==> exists|i: int, j: int|
            0 <= i < paths.len() && 0 <= j < paths.len() && groups[i] != groups[j]
                && (#[trigger] paths[i]).contains(c) && (#[trigger] paths[j]).contains(c),
{
    let u = overuse(n, paths, groups, paths.len());
    let w = entered(paths, groups, paths.len(), Seq::empty(), 0, 0);
    lemma_overuse(n, paths, groups, paths.len());
    if c < n {
        assert(u.first[c as int] == u.first[c as int]);
        if u.over.contains(c) {
            let h = choose|h: usize| #[trigger] w(c, h) && u.first[c as int] != Claim::Group(h);
            let g = u.first[c as int]->Group_0;
            assert(w(c, g));
            let i = choose|i: int|
                0 <= i < paths.len() && groups[i] == h && (#[trigger] paths[i]).contains(c);
            let j = choose|j: int|
                0 <= j < paths.len() && groups[j] == g && (#[trigger] paths[j]).contains(c);
            assert(paths[i].contains(c) && paths[j].contains(c));
        }
        if exists|i: int, j: int|
            0 <= i < paths.len() && 0 <= j < paths.len() && groups[i] != groups[j] && (
            #[trigger] paths[i]).contains(c) && (#[trigger] paths[j]).contains(c) {
            let (i, j) = choose|i: int, j: int|
                0 <= i < paths.len() && 0 <= j < paths.len() && groups[i] != groups[j] && (
                #[trigger] paths[i]).contains(c) && (#[trigger] paths[j]).contains(c);
            assert(w(c, groups[i]));
            assert(w(c, groups[j]));
        }
    } else {
        lemma_over_in_range(n, paths, groups, paths.len());
        if u.over.contains(c) {
            let k = choose|k: int| 0 <= k < u.over.len() && u.over[k] == c;
            assert(u.over[k] < n);
        }
        assert forall|i: int| 0 <= i < paths.len() implies !(#[trigger] paths[i]).contains(c) by {
            if paths[i].contains(c) {
                let k = choose|k: int| 0 <= k < paths[i].len() && paths[i][k] == c;
                assert(paths[i][k] < n);
            }
        }
    }
}

/// Only cells of the board are overused.
proof fn lemma_over_in_range(n: nat, paths: Seq<Seq<CellIdx>>, groups: Seq<usize>, k: nat)
    requires
        k <= paths.len(),
        forall|i: int, j: int|
            0 <= i < paths.len() && 0 <= j < paths[i].len() ==> #[trigger] paths[i][j] < n,
    ensures
        forall|x: int|
            0 <= x < overuse(n, paths, groups, k).over.len() ==> #[trigger] overuse(
                n,
                paths,
                groups,
                k,
            ).over[x] < n,
    decreases k,
{
    if k > 0 {
        lemma_over_in_range(n, paths, groups, (k - 1) as nat);
        lemma_path_in_range(
            overuse(n, paths, groups, (k - 1) as nat),
            paths[k - 1],
            groups[k - 1],
            paths[k - 1].len(),
            n,
        );
    }
}

/// A path on the board makes only cells of the board overused.
proof fn lemma_path_in_range(u: Overuse, path: Seq<CellIdx>, g: usize, m: nat, n: nat)
    requires
        m <= path.len(),
        forall|j: int| 0 <= j < path.len() ==> #[trigger] path[j] < n,
        forall|x: int| 0 <= x < u.over.len() ==> #[trigger] u.over[x] < n,
    ensures
        forall|x: int|
            0 <= x < enter_path(u, path, g, m).over.len() ==> #[trigger] enter_path(
                u,
                path,
                g,
                m,
            ).over[x] < n,
    decreases m,
{
    if m > 0 {
        lemma_path_in_range(u, path, g, (m - 1) as nat, n);
        let b = enter_path(u, path, g, (m - 1) as nat);
        let e = enter_path(u, path, g, m);
        assert(path[m - 1] < n);
        assert forall|x: int| 0 <= x < e.over.len() implies #[trigger] e.over[x] < n by {
            if x < b.over.len() {
                assert(b.over[x] < n);
            }
        }
    }
}

/// Makes the given cells dearer by one unit.
fn raise_history(history: &mut Vec<u32>, over: &Vec<CellIdx>)
    requires
        old(history)@.len() <= u32::MAX,
        forall|k: int| 0 <= k < over@.len() ==> #[trigger] over@[k] < old(history)@.len(),
    ensures
        final(history)@ == dearer(old(history)@, over@),
{
    let ghost was = history@;
    let n: usize = history.len();
    let marks = marked(n, over);
    let mut c: usize = 0;
    while c < n
        invariant
            c <= n,
            n == was.len(),
            n <= u32::MAX,
            history@.len() == n,
            marks@.len() == n,
            forall|k: int| 0 <= k < n ==> #[trigger] marks@[k] == over@.contains(k as u32),
            forall|k: int| 0 <= k < c ==> #[trigger] history@[k] == dearer(was, over@)[k],
            forall|k: int| c <= k < n ==> #[trigger] history@[k] == was[k],
        decreases n - c,
    {
        if marks[c] {
            let more: u32 = history[c].saturating_add(SCALE);
            history.set(c, more);
        }
        c += 1;
    }
    assert(history@ =~= dearer(was, over@));
}

/// The snapshot shows where round `iter` led.
pub open spec fn shows(snap: IterSnapshot, s: Nego, iter: int) -> bool {
    &&& snap.iter == iter
    &&& snap.pfac == iter + 1
    &&& paths_view(snap.paths@) == s.paths
    &&& snap.overused_cells@ == s.over
    &&& snap.any_overuse == (s.over.len() > 0)
}

/// Copies paths.
pub fn copy_paths(v: &Vec<Vec<CellIdx>>) -> (r: Vec<Vec<CellIdx>>)
    ensures
        paths_view(r@) == paths_view(v@),
{
    let mut r: Vec<Vec<CellIdx>> = Vec::new();
    let mut i: usize = 0;
    while i < v.len()
        invariant
            i <= v@.len(),
            r@.len() == i,
            forall|j: int| 0 <= j < i ==> (#[trigger] r@[j])@ == v@[j]@,
        decreases v@.len() - i,
    {
        r.push(copy_cells(&v[i]));
        i += 1;
    }
    assert(paths_view(r@) =~= paths_view(v@));
    r
}

impl NegState {
    /// One round.
    fn round(
        &mut self,
        p: &Problem,
        groups: &Vec<usize>,
        parallel: bool,
        buf: &mut SearchBuf,
        pads: &mut PadSet,
        iter: u32,
    )
        requires
            p.wf(),
            old(self).wf(p.task()),
            groups@.len() == p.nets@.len(),
            iter < MAX_ITERS,
            old(buf).wf(p.task().dims().cells()),
            old(pads).wf(),
            old(pads).cells() == p.task().dims().cells(),
        ensures
            final(self).wf(p.task()),
            final(buf).wf(p.task().dims().cells()),
            final(pads).wf(),
            final(pads).cells() == p.task().dims().cells(),
            final(self).state() == round(p.task(), groups@, parallel, old(self).state(), iter),
    {
        let ghost t = p.task();
        let ghost was = self.state();
        if parallel {
            run_jacobi_round(p, self, iter);
        } else {
            run_serial_round(p, self, buf, pads, iter);
        }
        let ghost moved = self.state();
        let n: usize = p.grid.dims.len();
        proof {
            assert forall|i: int, k: int|
                0 <= i < self.paths@.len() && 0 <= k < self.paths@[i]@.len() implies (
            #[trigger] self.paths@[i]@[k]) < n by {
                assert(t.dims().has(self.paths@[i]@[k]));
            }
            lemma_moves_keep_history(t, was, iter, t.nets.len());
        }
        let over = overused_cells(n, &self.paths, groups);
        raise_history(&mut self.history, &over);
        self.over = over;
        proof {
            assert(crate::halo::on_board(t.dims(), self.over@));
            assert(self.state() =~= round(t, groups@, parallel, was, iter));
        }
    }
}

/// No move changes the history.
proof fn lemma_moves_keep_history(t: Task, s: Nego, iter: u32, k: nat)
    ensures
        serial_round(t, s, iter, k).history == s.history,
        jacobi_round(t, s, iter, k).history == s.history,
    decreases k,
{
    if k > 0 {
        lemma_moves_keep_history(t, s, iter, (k - 1) as nat);
    }
}

/// Runs rounds of negotiation up to the first one that leaves no cell shared, or to
/// the last one, and returns the paths, with a snapshot of each round where one is
/// wanted.
pub fn negotiate(p: &Problem, groups: &Vec<usize>, parallel: bool, record: bool) -> (r: (
    Vec<Vec<CellIdx>>,
    Vec<IterSnapshot>,
))
    requires
        p.wf(),
        groups@.len() == p.nets@.len(),
    ensures
        paths_view(r.0@) == negotiated_paths(p.task(), groups@, parallel),
        r.0@.len() == p.nets@.len(),
        forall|i: int|
            0 <= i < r.0@.len() ==> crate::halo::on_board(p.task().dims(), (#[trigger] r.0@[i])@),
        !record ==> r.1@.len() == 0,
        record ==> {
            let states = rounds(p.task(), groups@, parallel, nego_start(p.task()), 0);
            &&& r.1@.len() == states.len()
            &&& forall|k: int| 0 <= k < states.len() ==> shows(#[trigger] r.1@[k], states[k], k)
        },
{
    let ghost t = p.task();
    let n: usize = p.grid.dims.len();
    let mut buf = SearchBuf::new(n);
    let mut pads = PadSet::new(n);
    let mut st = NegState::start(p);
    let mut snaps: Vec<IterSnapshot> = Vec::new();
    let ghost all = rounds(t, groups@, parallel, nego_start(t), 0);
    let ghost mut done: Seq<Nego> = Seq::empty();
    let mut iter: u32 = 0;
    let mut more = true;
    proof {
        assert(all =~= done + rounds(t, groups@, parallel, st.state(), 0));
    }
    while more && iter < MAX_ITERS
        invariant
            p.wf(),
            t == p.task(),
            groups@.len() == p.nets@.len(),
            iter <= MAX_ITERS,
            st.wf(t),
            buf.wf(t.dims().cells()),
            pads.wf(),
            pads.cells() == t.dims().cells(),
            all == done + if more {
                rounds(t, groups@, parallel, st.state(), iter)
            } else {
                Seq::empty()
            },
            done.len() == iter,
            !more ==> iter > 0,
            iter > 0 ==> done.last() == st.state(),
            !record ==> snaps@.len() == 0,
            record ==> snaps@.len() == done.len() && forall|k: int|
                0 <= k < done.len() ==> shows(#[trigger] snaps@[k], done[k], k),
        decreases MAX_ITERS - iter,
    {
        let ghost before = st.state();
        let ghost was = done;
        st.round(p, groups, parallel, &mut buf, &mut pads, iter);
        proof {
            done = was.push(st.state());
        }
        if record {
            snaps.push(
                IterSnapshot {
                    iter,
                    pfac: iter + 1,
                    paths: copy_paths(&st.paths),
                    overused_cells: copy_cells(&st.over),
                    any_overuse: st.over.len() > 0,
                },
            );
        }
        more = st.over.len() > 0;
        proof {
            let rest = rounds(t, groups@, parallel, st.state(), (iter + 1) as u32);
            if more {
                assert(rounds(t, groups@, parallel, before, iter) =~= seq![st.state()] + rest);
                assert(all =~= done + rest);
            } else {
                assert(rounds(t, groups@, parallel, before, iter) =~= seq![st.state()]);
                assert(all =~= done + Seq::empty());
            }
        }
        iter += 1;
    }
    assert(all =~= done);
    if parallel && p.geo.spaced && p.grid.dims.layers == 1 {
        let ghost s = st.state();
        let m: usize = p.nets.len();
        let mut i: usize = 0;
        while i < m
            invariant
                p.wf(),
                t == p.task(),
                m == p.nets@.len(),
                i <= m,
                st.wf(t),
                buf.wf(t.dims().cells()),
                pads.wf(),
                pads.cells() == t.dims().cells(),
                st.state() == polished(t, s, i as nat),
            decreases m - i,
        {
            st.own_turn(p, &mut buf, &mut pads, i, MAX_ITERS);
            i += 1;
        }
    }
    (st.paths, snaps)
}

/// Where negotiation stopped because no cell was shared, and no net moved after
/// that, paths of different groups have no cell in common.
pub proof fn law_settled_paths_are_disjoint(
    t: Task,
    groups: Seq<usize>,
    parallel: bool,
    i: int,
    j: int,
    c: CellIdx,
)
    requires
        t.wf(),
        groups.len() == t.nets.len(),
        settled(t, groups, parallel).over.len() == 0,
        !(parallel && t.geo.spaced && t.dims().layers == 1),
        0 <= i < t.nets.len(),
        0 <= j < t.nets.len(),
        groups[i] != groups[j],
    ensures
        !(negotiated_paths(t, groups, parallel)[i].contains(c) && negotiated_paths(
            t,
            groups,
            parallel,
        )[j].contains(c)),
{
    let s = settled(t, groups, parallel);
    lemma_rounds_end(t, groups, parallel, nego_start(t), 0);
    lemma_paths_walk(t, groups, parallel);
    lemma_cells_in_range(t, s.paths);
    law_overuse_is_sharing(t.dims().cells() as nat, s.paths, groups, c);
    if s.paths[i].contains(c) && s.paths[j].contains(c) {
        assert(overuse(t.dims().cells() as nat, s.paths, groups, s.paths.len()).over.contains(c));
    }
}

/// The last round ends with what is shared by the paths that it ends with.
proof fn lemma_rounds_end(t: Task, groups: Seq<usize>, parallel: bool, s: Nego, iter: u32)
    requires
        iter < MAX_ITERS,
        s.paths.len() == t.nets.len(),
    ensures
        rounds(t, groups, parallel, s, iter).len() > 0,
        rounds(t, groups, parallel, s, iter).last().paths.len() == t.nets.len(),
        rounds(t, groups, parallel, s, iter).last().over == overuse(
            t.dims().cells() as nat,
            rounds(t, groups, parallel, s, iter).last().paths,
            groups,
            t.nets.len(),
        ).over,
    decreases MAX_ITERS - iter,
{
    let r = round(t, groups, parallel, s, iter);
    lemma_moves_keep_nets(t, s, iter, t.nets.len());
    if r.over.len() > 0 && iter + 1 < MAX_ITERS {
        lemma_rounds_end(t, groups, parallel, r, (iter + 1) as u32);
        let rest = rounds(t, groups, parallel, r, (iter + 1) as u32);
        assert((seq![r] + rest).last() == rest.last());
    } else if r.over.len() > 0 {
        assert(rounds(t, groups, parallel, r, (iter + 1) as u32) =~= Seq::empty());
        assert((seq![r] + Seq::<Nego>::empty()).last() == r);
    }
}

/// No move changes how many nets there are.
proof fn lemma_moves_keep_nets(t: Task, s: Nego, iter: u32, k: nat)
    requires
        k <= s.paths.len(),
    ensures
        serial_round(t, s, iter, k).paths.len() == s.paths.len(),
        jacobi_round(t, s, iter, k).paths.len() == s.paths.len(),
    decreases k,
{
    if k > 0 {
        lemma_moves_keep_nets(t, s, iter, (k - 1) as nat);
    }
}

/// A path that is found leads its net.
proof fn lemma_found_walks(
    t: Task,
    i: int,
    history: Seq<u32>,
    penalty: spec_fn(CellIdx) -> int,
)
    requires
        t.wf(),
        0 <= i < t.nets.len(),
    ensures
        find(t, i, history, penalty) matches Some(p) ==> crate::task::own_walk(t, i, p),
{
    let near = crate::pricing::neg_graph(t, i, t.window(i), history, penalty);
    let far = crate::pricing::neg_graph(
        t,
        i,
        IsolatedRouteWindow::whole(t.dims()),
        history,
        penalty,
    );
    let (src, dst) = (t.nets[i].src, t.nets[i].dst);
    near.lemma_routable(src, dst, u32::MAX as nat);
    far.lemma_routable(src, dst, u32::MAX as nat);
    if near.route(src, dst, u32::MAX as nat) is Some {
        crate::task::lemma_own_walk(t, i, near, (near.route(src, dst, u32::MAX as nat)->0).0);
    }
    if far.route(src, dst, u32::MAX as nat) is Some {
        crate::task::lemma_own_walk(t, i, far, (far.route(src, dst, u32::MAX as nat)->0).0);
    }
}

/// A turn leaves every net without a path, or with one that leads it.
proof fn lemma_turn_walks(t: Task, s: Nego, i: int, pfac: u32)
    requires
        t.wf(),
        0 <= i < t.nets.len(),
        crate::task::all_walk(t, s.paths),
    ensures
        crate::task::all_walk(t, own_turn(t, s, i, pfac).paths),
{
    let l = lifted(t, s, i);
    lemma_found_walks(t, i, l.history, plain_penalty(l, pfac));
}

/// Moves leave every net without a path, or with one that leads it.
proof fn lemma_moves_walk(t: Task, s: Nego, iter: u32, k: nat)
    requires
        t.wf(),
        k <= t.nets.len(),
        crate::task::all_walk(t, s.paths),
    ensures
        crate::task::all_walk(t, serial_round(t, s, iter, k).paths),
        crate::task::all_walk(t, jacobi_round(t, s, iter, k).paths),
    decreases k,
{
    if k > 0 {
        lemma_moves_walk(t, s, iter, (k - 1) as nat);
        lemma_turn_walks(
            t,
            serial_round(t, s, iter, (k - 1) as nat),
            k - 1,
            (iter + 1) as u32,
        );
        let fused = dirty_count(t, s, iter, t.nets.len()) >= FUSED_JACOBI_MIN_DIRTY_NETS;
        lemma_found_walks(
            t,
            k - 1,
            s.history,
            own_penalty(t, s, k - 1, (iter + 1) as u32, fused),
        );
    }
}

/// Rounds leave every net without a path, or with one that leads it.
proof fn lemma_rounds_walk(t: Task, groups: Seq<usize>, parallel: bool, s: Nego, iter: u32)
    requires
        t.wf(),
        iter < MAX_ITERS,
        crate::task::all_walk(t, s.paths),
    ensures
        rounds(t, groups, parallel, s, iter).len() > 0,
        crate::task::all_walk(t, rounds(t, groups, parallel, s, iter).last().paths),
    decreases MAX_ITERS - iter,
{
    let r = round(t, groups, parallel, s, iter);
    lemma_moves_walk(t, s, iter, t.nets.len());
    if r.over.len() > 0 && iter + 1 < MAX_ITERS {
        lemma_rounds_walk(t, groups, parallel, r, (iter + 1) as u32);
        let rest = rounds(t, groups, parallel, r, (iter + 1) as u32);
        assert((seq![r] + rest).last() == rest.last());
    } else if r.over.len() > 0 {
        assert(rounds(t, groups, parallel, r, (iter + 1) as u32) =~= Seq::empty());
        assert((seq![r] + Seq::<Nego>::empty()).last() == r);
    }
}

/// More turns leave every net without a path, or with one that leads it.
proof fn lemma_polished_walk(t: Task, s: Nego, k: nat)
    requires
        t.wf(),
        k <= t.nets.len(),
        crate::task::all_walk(t, s.paths),
    ensures
        crate::task::all_walk(t, polished(t, s, k).paths),
    decreases k,
{
    if k > 0 {
        lemma_polished_walk(t, s, (k - 1) as nat);
        lemma_turn_walks(t, polished(t, s, (k - 1) as nat), k - 1, MAX_ITERS);
    }
}

/// Negotiation leaves every net without a path, or with one that leads it.
pub proof fn lemma_paths_walk(t: Task, groups: Seq<usize>, parallel: bool)
    requires
        t.wf(),
    ensures
        crate::task::all_walk(t, settled(t, groups, parallel).paths),
        crate::task::all_walk(t, negotiated_paths(t, groups, parallel)),
{
    lemma_rounds_walk(t, groups, parallel, nego_start(t), 0);
    lemma_polished_walk(t, settled(t, groups, parallel), t.nets.len());
}

/// Paths that lead their nets stay on the board.
proof fn lemma_cells_in_range(t: Task, paths: Seq<Seq<CellIdx>>)
    requires
        crate::task::all_walk(t, paths),
    ensures
        forall|i: int, j: int|
            0 <= i < paths.len() && 0 <= j < paths[i].len() ==> #[trigger] paths[i][j]
                < t.dims().cells(),
{
    assert forall|i: int, j: int| 0 <= i < paths.len() && 0 <= j < paths[i].len() implies (
    #[trigger] paths[i][j]) < t.dims().cells() by {
        assert(crate::task::own_walk(t, i, paths[i]));
        assert(t.dims().has(paths[i][j]));
    }
}

} // verus!
