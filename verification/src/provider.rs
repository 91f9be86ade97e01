//! Routes of lone nets that come from elsewhere.
use vstd::prelude::*;

use crate::board::{CellIdx, Cost, Dims};
use crate::cells::copy_cells;
use crate::geometry::{axis_edge_costs, IsolatedRouteWindow};
use crate::grid::Grid;
use crate::net::{NetEndpoints, RouterError};
use crate::task::{ascending_cells, has_cell, Problem, Task};
use crate::via::ViaModel;

verus! {

/// What a provider is asked: the route that each net takes alone.
///
/// `x_edge_costs[k]` and `y_edge_costs[k]` are the prices of the planar gaps between
/// lines `k` and `k + 1`. `via_edge_costs[k]` is the price of the step between layers
/// `k` and `k + 1`, with `None` where there is none. A step costs its edge price times
/// the weight of the cell that it enters; a net's own masked pads weigh one, and no
/// step costs as much as an obstacle.
#[derive(Clone, Copy, Debug)]
pub struct IsolatedRouteRequest<'a> {
    /// The grid.
    pub grid: &'a Grid,
    /// The nets.
    pub nets: &'a [NetEndpoints],
    /// Where each net is searched first.
    pub windows: &'a [IsolatedRouteWindow],
    /// The prices of the gaps between columns.
    pub x_edge_costs: &'a [Cost],
    /// The prices of the gaps between rows.
    pub y_edge_costs: &'a [Cost],
    /// The prices of the steps between layers.
    pub via_edge_costs: &'a [Option<Cost>],
}

/// One less, but not below zero.
pub open spec fn gaps_between(lines: u32) -> nat {
    if lines == 0 {
        0
    } else {
        (lines - 1) as nat
    }
}

impl<'a> IsolatedRouteRequest<'a> {
    /// Grid and nets are in order, each net has its window, and there is a price for
    /// each gap.
    pub open spec fn fits(self) -> bool {
        &&& self.grid.well_formed()
        &&& forall|i: int|
            0 <= i < self.nets@.len() ==> crate::task::net_fits(
                self.grid,
                &#[trigger] self.nets@[i],
            )
        &&& self.windows@.len() == self.nets@.len()
        &&& forall|i: int|
            0 <= i < self.nets@.len() ==> #[trigger] self.windows@[i] == crate::geometry::window_of(
                self.grid.dims,
                self.nets@[i].src,
                self.nets@[i].dst,
                self.nets@[i].passable_pads@,
            )
        &&& self.x_edge_costs@.len() == gaps_between(self.grid.dims.w)
        &&& self.y_edge_costs@.len() == gaps_between(self.grid.dims.h)
        &&& self.via_edge_costs@.len() == gaps_between(self.grid.dims.layers)
    }
}

/// Something that can route each net of a board alone.
///
/// For each net it is to give the route that the router would find itself: in the net's
/// window, or on the whole board where the window holds none; `None` where there is no
/// route at all. What it gives is checked for its shape, and each path for being one;
/// that a path is the one that the router would find is not checked. Where anything is
/// amiss, the router takes nothing of it and finds all routes itself.
pub trait IsolatedRouteProvider {
    /// The route of each net.
    fn route_isolated_batch(&self, request: IsolatedRouteRequest<'_>) -> Result<
        Vec<Option<Vec<CellIdx>>>,
        RouterError,
    >
        requires
            request.fits(),
    ;
}

/// The cell `b` is one step from `a` for the net.
pub open spec fn may_step(
    grid: &Grid,
    net: &NetEndpoints,
    via: &ViaModel,
    a: CellIdx,
    b: CellIdx,
) -> bool {
    ||| grid.dims.planar_adjacent(a, b)
    ||| {
        &&& grid.dims.via_adjacent(a, b)
        &&& via.legal(grid.dims.layer(a), grid.dims.layer(b))
        &&& !grid.no_via(a) || net.via_passable_pads@.contains(a)
        &&& !grid.no_via(b) || net.via_passable_pads@.contains(b)
    }
}

/// The cell at place `k` is one step from the one before it.
pub open spec fn goes(
    grid: &Grid,
    net: &NetEndpoints,
    via: &ViaModel,
    path: Seq<CellIdx>,
    k: int,
) -> bool {
    may_step(grid, net, via, path[k - 1], path[k])
}

/// The path joins the ends of the net, step by step, over different cells that are
/// open to it.
pub open spec fn valid_path(
    grid: &Grid,
    net: &NetEndpoints,
    via: &ViaModel,
    path: Seq<CellIdx>,
) -> bool {
    &&& path.len() > 0
    &&& path[0] == net.src
    &&& path.last() == net.dst
    &&& forall|k: int|
        0 <= k < path.len() ==> grid.dims.has(#[trigger] path[k]) && (grid.obstacle(path[k])
            ==> net.passable_pads@.contains(path[k]))
    &&& forall|j: int, k: int| 0 <= j < k < path.len() ==> path[j] != path[k]
    &&& forall|k: int| 0 < k < path.len() ==> #[trigger] goes(grid, net, via, path, k)
}

/// Whether a step leads from `a` to `b`.
fn is_step(
    grid: &Grid,
    via_pads: &Vec<CellIdx>,
    via: &ViaModel,
    a: CellIdx,
    b: CellIdx,
    Ghost(net): Ghost<NetEndpoints>,
) -> (r: bool)
    requires
        grid.well_formed(),
        grid.dims.has(a),
        grid.dims.has(b),
        crate::task::ascending(via_pads@),
        forall|c: CellIdx| #[trigger]
            via_pads@.contains(c) == net.via_passable_pads@.contains(c),
    ensures
        r == may_step(grid, &net, via, a, b),
{
    let (ax, ay, al) = grid.dims.xyz(a);
    let (bx, by, bl) = grid.dims.xyz(b);
    proof {
        grid.dims.lemma_coords(a);
        grid.dims.lemma_coords(b);
    }
    let dx: u32 = if ax < bx { bx - ax } else { ax - bx };
    let dy: u32 = if ay < by { by - ay } else { ay - by };
    if al == bl {
        (dx == 1 && dy == 0) || (dx == 0 && dy == 1)
    } else {
        dx == 0 && dy == 0 && via.is_step_legal(al, bl) && (!grid.is_via_forbidden(a)
            || has_cell(via_pads, a)) && (!grid.is_via_forbidden(b) || has_cell(
            via_pads,
            b,
        ))
    }
}

/// Whether the path joins the ends of the net, step by step, over different cells that
/// are open to it.
pub fn provider_path_is_valid(
    grid: &Grid,
    net: &NetEndpoints,
    via_model: &ViaModel,
    path: &[CellIdx],
) -> (r: bool)
    requires
        grid.well_formed(),
    ensures
        r == valid_path(grid, net, via_model, path@),
{
    let n: usize = path.len();
    if n == 0 || path[0] != net.src || path[n - 1] != net.dst {
        return false;
    }
    let cells: usize = grid.dims.len();
    let pads = ascending_cells(&net.passable_pads);
    let via_pads = ascending_cells(&net.via_passable_pads);
    let mut seen: Vec<bool> = vec![false; cells];
    let mut k: usize = 0;
    while k < n
        invariant
            grid.well_formed(),
            n == path@.len(),
            cells == grid.dims.cells(),
            seen@.len() == cells,
            crate::task::ascending(pads@),
            forall|c: CellIdx| #[trigger] pads@.contains(c) == net.passable_pads@.contains(c),
            crate::task::ascending(via_pads@),
            forall|c: CellIdx| #[trigger]
                via_pads@.contains(c) == net.via_passable_pads@.contains(c),
            k <= n,
            forall|j: int|
                0 <= j < k ==> grid.dims.has(#[trigger] path@[j]) && (grid.obstacle(path@[j])
                    ==> net.passable_pads@.contains(path@[j])),
            forall|c: int|
                0 <= c < cells ==> #[trigger] seen@[c] == path@.take(k as int).contains(c as u32),
            forall|i: int, j: int| 0 <= i < j < k ==> path@[i] != path@[j],
            forall|j: int| 0 < j < k ==> #[trigger] goes(grid, net, via_model, path@, j),
        decreases n - k,
    {
        let c: CellIdx = path[k];
        if !grid.dims.contains(c) {
            assert(!grid.dims.has(path@[k as int]));
            return false;
        }
        if grid.is_obstacle(c) && !has_cell(&pads, c) {
            assert(grid.obstacle(path@[k as int]));
            return false;
        }
        if seen[c as usize] {
            proof {
                let t = path@.take(k as int);
                let j = choose|j: int| 0 <= j < t.len() && t[j] == c;
                assert(path@[j] == path@[k as int]);
            }
            return false;
        }
        if k > 0 && !is_step(grid, &via_pads, via_model, path[k - 1], c, Ghost(*net)) {
            assert(!goes(grid, net, via_model, path@, k as int));
            return false;
        }
        let ghost was = seen@;
        seen.set(c as usize, true);
        proof {
            assert forall|x: int| 0 <= x < cells implies #[trigger] seen@[x] == path@.take(
                k + 1,
            ).contains(x as u32) by {
                crate::grid::lemma_take_contains(path@, k as int, x as u32);
                assert(was[x] == path@.take(k as int).contains(x as u32));
            }
            assert forall|i: int| 0 <= i < k implies path@[i] != path@[k as int] by {
                if path@[i] == c {
                    assert(path@.take(k as int)[i] == c);
                    assert(was[c as int] == path@.take(k as int).contains(c));
                }
            }
        }
        k += 1;
    }
    true
}

/// Whether the pads and via exemptions of a net are on the board, and the exemptions
/// among the pads.
pub fn net_pad_lists_are_valid(dims: Dims, net: &NetEndpoints) -> (r: bool)
    requires
        dims.indexable(),
    ensures
        r == crate::task::lists_fit(dims, net),
{
    let mut k: usize = 0;
    while k < net.passable_pads.len()
        invariant
            dims.indexable(),
            k <= net.passable_pads@.len(),
            forall|j: int| 0 <= j < k ==> dims.has(#[trigger] net.passable_pads@[j]),
        decreases net.passable_pads@.len() - k,
    {
        if !dims.contains(net.passable_pads[k]) {
            assert(!dims.has(net.passable_pads@[k as int]));
            return false;
        }
        k += 1;
    }
    if net.via_passable_pads.len() == 0 {
        return true;
    }
    let pads = ascending_cells(&net.passable_pads);
    let mut v: usize = 0;
    while v < net.via_passable_pads.len()
        invariant
            dims.indexable(),
            v <= net.via_passable_pads@.len(),
            crate::task::ascending(pads@),
            forall|c: CellIdx| #[trigger] pads@.contains(c) == net.passable_pads@.contains(c),
            forall|j: int|
                0 <= j < v ==> dims.has(#[trigger] net.via_passable_pads@[j])
                    && net.passable_pads@.contains(net.via_passable_pads@[j]),
        decreases net.via_passable_pads@.len() - v,
    {
        let c: CellIdx = net.via_passable_pads[v];
        if !dims.contains(c) || !has_cell(&pads, c) {
            assert(!(dims.has(net.via_passable_pads@[v as int]) && net.passable_pads@.contains(
                net.via_passable_pads@[v as int],
            )));
            return false;
        }
        v += 1;
    }
    true
}

/// Whether a list holds no cell twice and is in ascending order.
fn is_ascending(v: &Vec<CellIdx>) -> (r: bool)
    ensures
        r == crate::task::ascending(v@),
{
    let mut k: usize = 1;
    while k < v.len()
        invariant
            k >= 1,
            forall|i: int, j: int| 0 <= i < j < k && j < v@.len() ==> v@[i] < v@[j],
        decreases v@.len() - k,
    {
        if v[k - 1] >= v[k] {
            assert(v@[k - 1] >= v@[k as int]);
            return false;
        }
        proof {
            assert forall|i: int, j: int| 0 <= i < j < k + 1 && j < v@.len() implies v@[i] < v@[j] by {
                if j == k && i < k - 1 {
                    assert(v@[i] < v@[k - 1]);
                }
            }
        }
        k += 1;
    }
    true
}

/// The net is the same but for its via exemptions, which are the same cells, each once,
/// in ascending order.
pub open spec fn normal_of(net: NetEndpoints, m: NetEndpoints) -> bool {
    &&& m.net@ == net.net@
    &&& m.src == net.src
    &&& m.dst == net.dst
    &&& m.passable_pads@ == net.passable_pads@
    &&& crate::task::ascending(m.via_passable_pads@)
    &&& forall|c: CellIdx| #[trigger]
        m.via_passable_pads@.contains(c) == net.via_passable_pads@.contains(c)
}

/// The nets with their via exemptions in ascending order, or nothing where they all are.
pub fn normalize_via_exemptions(nets: &[NetEndpoints]) -> (r: Option<Vec<NetEndpoints>>)
    ensures
        r is None <==> forall|i: int|
            0 <= i < nets@.len() ==> crate::task::ascending(
                (#[trigger] nets@[i]).via_passable_pads@,
            ),
        r matches Some(m) ==> m@.len() == nets@.len() && forall|i: int|
            0 <= i < nets@.len() ==> normal_of(nets@[i], #[trigger] m@[i]),
{
    let mut canonical = true;
    let mut i: usize = 0;
    while i < nets.len()
        invariant
            i <= nets@.len(),
            canonical <==> forall|j: int|
                0 <= j < i ==> crate::task::ascending((#[trigger] nets@[j]).via_passable_pads@),
        decreases nets@.len() - i,
    {
        if !is_ascending(&nets[i].via_passable_pads) {
            assert(!crate::task::ascending(nets@[i as int].via_passable_pads@));
            canonical = false;
        }
        i += 1;
    }
    if canonical {
        return None;
    }
    let mut m: Vec<NetEndpoints> = Vec::new();
    let mut k: usize = 0;
    while k < nets.len()
        invariant
            k <= nets@.len(),
            m@.len() == k,
            forall|i: int| 0 <= i < k ==> normal_of(nets@[i], #[trigger] m@[i]),
        decreases nets@.len() - k,
    {
        let net = &nets[k];
        m.push(
            NetEndpoints {
                net: net.net.clone(),
                src: net.src,
                dst: net.dst,
                passable_pads: copy_cells(&net.passable_pads),
                via_passable_pads: ascending_cells(&net.via_passable_pads),
            },
        );
        k += 1;
    }
    Some(m)
}

/// The price of the step between each layer and the next.
pub open spec fn via_edges(via: ViaModel, layers: u32) -> Seq<Option<Cost>> {
    Seq::new(
        gaps_between(layers),
        |k: int|
            if via.legal(k, k + 1) {
                Some(via.step_cost)
            } else {
                None
            },
    )
}

/// The price of the step between each layer and the next.
pub fn via_edge_costs(via: &ViaModel, layers: u32) -> (v: Vec<Option<Cost>>)
    ensures
        v@ == via_edges(*via, layers),
{
    let mut v: Vec<Option<Cost>> = Vec::new();
    let mut k: u32 = 0;
    while layers > 0 && k < layers - 1
        invariant
            v@.len() == k,
            k <= gaps_between(layers),
            forall|j: int| 0 <= j < k ==> #[trigger] v@[j] == via_edges(*via, layers)[j],
        decreases layers - k,
    {
        if via.is_step_legal(k, k + 1) {
            v.push(Some(via.step_cost));
        } else {
            v.push(None);
        }
        k += 1;
    }
    assert(v@ =~= via_edges(*via, layers));
    v
}

/// What a provider gave, as plain values.
pub open spec fn batch_view(b: Seq<Option<Vec<CellIdx>>>) -> Seq<Option<Seq<CellIdx>>> {
    crate::halo::committed_view(b)
}

/// There is an entry for each net, and every path is one.
pub open spec fn batch_is_valid(
    grid: &Grid,
    nets: Seq<NetEndpoints>,
    via: &ViaModel,
    batch: Seq<Option<Seq<CellIdx>>>,
) -> bool {
    &&& batch.len() == nets.len()
    &&& forall|i: int|
        0 <= i < batch.len() ==> (#[trigger] batch[i] matches Some(p) ==> valid_path(
            grid,
            &nets[i],
            via,
            p,
        ))
}

/// The paths of a batch, empty where there is none.
pub open spec fn batch_paths(batch: Seq<Option<Seq<CellIdx>>>) -> Seq<Seq<CellIdx>> {
    Seq::new(
        batch.len(),
        |i: int|
            match batch[i] {
                Some(p) => p,
                None => Seq::empty(),
            },
    )
}

/// The paths of a batch, if all of them can be used.
fn accept_paths(
    grid: &Grid,
    nets: &[NetEndpoints],
    via: &ViaModel,
    b: &Vec<Option<Vec<CellIdx>>>,
) -> (r: Option<Vec<Vec<CellIdx>>>)
    requires
        grid.well_formed(),
    ensures
        r is Some <==> batch_is_valid(grid, nets@, via, batch_view(b@)),
        r matches Some(paths) ==> crate::negotiate::paths_view(paths@) == batch_paths(
            batch_view(b@),
        ) && forall|i: int|
            0 <= i < paths@.len() ==> crate::halo::on_board(grid.dims, (#[trigger] paths@[i])@),
{
    let ghost bv = batch_view(b@);
    if b.len() != nets.len() {
        return None;
    }
    let mut paths: Vec<Vec<CellIdx>> = Vec::new();
    let mut i: usize = 0;
    while i < b.len()
        invariant
            grid.well_formed(),
            bv == batch_view(b@),
            b@.len() == nets@.len(),
            i <= b@.len(),
            paths@.len() == i,
            forall|j: int| 0 <= j < i ==> (#[trigger] paths@[j])@ == batch_paths(bv)[j],
            forall|j: int|
                0 <= j < i ==> crate::halo::on_board(grid.dims, (#[trigger] paths@[j])@),
            forall|j: int|
                0 <= j < i ==> (#[trigger] bv[j] matches Some(p) ==> valid_path(
                    grid,
                    &nets@[j],
                    via,
                    p,
                )),
        decreases b@.len() - i,
    {
        match &b[i] {
            Some(p) => {
                assert(b@[i as int] == Some(*p));
                assert(bv[i as int] == Some(p@));
                if !provider_path_is_valid(grid, &nets[i], via, p.as_slice()) {
                    return None;
                }
                paths.push(copy_cells(p));
            },
            None => {
                assert(bv[i as int] is None);
                let none: Vec<CellIdx> = Vec::new();
                assert(none@ =~= batch_paths(bv)[i as int]);
                paths.push(none);
            },
        }
        i += 1;
    }
    assert(crate::negotiate::paths_view(paths@) =~= batch_paths(bv));
    Some(paths)
}

/// The paths that a provider gave, if all of them can be used.
pub fn accept_batch(
    grid: &Grid,
    nets: &[NetEndpoints],
    via: &ViaModel,
    batch: &Result<Vec<Option<Vec<CellIdx>>>, RouterError>,
) -> (r: Option<Vec<Vec<CellIdx>>>)
    requires
        grid.well_formed(),
    ensures
        r is Some <==> (batch matches Ok(b) && batch_is_valid(grid, nets@, via, batch_view(b@))),
        r matches Some(paths) ==> crate::negotiate::paths_view(paths@) == batch_paths(
            batch_view(batch->Ok_0@),
        ) && forall|i: int|
            0 <= i < paths@.len() ==> crate::halo::on_board(grid.dims, (#[trigger] paths@[i])@),
{
    match batch {
        Err(_) => None,
        Ok(b) => accept_paths(grid, nets, via, b),
    }
}

/// What a provider is asked about a board: its grid, its windows and its prices, and its
/// nets with their via exemptions in ascending order.
pub open spec fn asks(t: Task, request: IsolatedRouteRequest<'_>) -> bool {
    &&& *request.grid == t.grid
    &&& request.nets@.len() == t.nets.len()
    &&& forall|i: int| 0 <= i < t.nets.len() ==> normal_of(t.nets[i], #[trigger] request.nets@[i])
    &&& request.windows@.len() == t.nets.len()
    &&& forall|i: int| 0 <= i < t.nets.len() ==> #[trigger] request.windows@[i] == t.window(i)
    &&& request.x_edge_costs@.len() == gaps_between(t.grid.dims.w)
    &&& forall|k: int|
        0 <= k < request.x_edge_costs@.len() ==> #[trigger] request.x_edge_costs@[k]
            == crate::geometry::gap(t.geo.x_gaps, k)
    &&& request.y_edge_costs@.len() == gaps_between(t.grid.dims.h)
    &&& forall|k: int|
        0 <= k < request.y_edge_costs@.len() ==> #[trigger] request.y_edge_costs@[k]
            == crate::geometry::gap(t.geo.y_gaps, k)
    &&& request.via_edge_costs@ == via_edges(t.via, t.grid.dims.layers)
}

/// The provider may give this when it is asked about a board.
pub open spec fn replies<P: IsolatedRouteProvider>(
    provider: &P,
    t: Task,
    reply: Result<Vec<Option<Vec<CellIdx>>>, RouterError>,
) -> bool {
    exists|request: IsolatedRouteRequest<'_>| #[trigger]
        asks(t, request) && call_ensures(P::route_isolated_batch, (provider, request), reply)
}

/// Asks a provider for the route of each net.
///
/// What is asked is that of the problem: its grid, its windows and its prices, and its
/// nets with their via exemptions in ascending order. What comes back is up to the
/// provider.
pub fn ask_provider<P: IsolatedRouteProvider>(p: &Problem, provider: &P) -> (r: Result<
    Vec<Option<Vec<CellIdx>>>,
    RouterError,
>)
    requires
        p.wf(),
    ensures
        replies(provider, p.task(), r),
{
    let dims = p.grid.dims;
    let x_edge_costs = axis_edge_costs(&p.geo.x_gaps, dims.w);
    let y_edge_costs = axis_edge_costs(&p.geo.y_gaps, dims.h);
    let vias = via_edge_costs(p.via, dims.layers);
    let normal = normalize_via_exemptions(p.nets);
    proof {
        assert forall|i: int| 0 <= i < p.nets@.len() implies crate::task::net_fits(
            p.grid,
            &#[trigger] p.nets@[i],
        ) by {
            assert(p.task().net_fits(i));
        }
    }
    match &normal {
        None => {
            let request = IsolatedRouteRequest {
                grid: p.grid,
                nets: p.nets,
                windows: p.windows.as_slice(),
                x_edge_costs: x_edge_costs.as_slice(),
                y_edge_costs: y_edge_costs.as_slice(),
                via_edge_costs: vias.as_slice(),
            };
            assert(asks(p.task(), request));
            provider.route_isolated_batch(request)
        },
        Some(m) => {
            proof {
                assert forall|i: int| 0 <= i < m@.len() implies crate::task::net_fits(
                    p.grid,
                    &#[trigger] m@[i],
                ) by {
                    assert(normal_of(p.nets@[i], m@[i]));
                    assert(p.task().net_fits(i));
                    assert forall|k: int|
                        0 <= k < m@[i].via_passable_pads@.len() implies p.grid.dims.has(
                        #[trigger] m@[i].via_passable_pads@[k],
                    ) && m@[i].passable_pads@.contains(m@[i].via_passable_pads@[k]) by {
                        let c = m@[i].via_passable_pads@[k];
                        assert(m@[i].via_passable_pads@.contains(c));
                        assert(p.nets@[i].via_passable_pads@.contains(c));
                    }
                }
                assert forall|i: int| 0 <= i < m@.len() implies p.windows@[i]
                    == crate::geometry::window_of(
                    p.grid.dims,
                    (#[trigger] m@[i]).src,
                    m@[i].dst,
                    m@[i].passable_pads@,
                ) by {
                    assert(normal_of(p.nets@[i], m@[i]));
                    assert(p.windows@[i] == p.task().window(i));
                }
            }
            let request = IsolatedRouteRequest {
                grid: p.grid,
                nets: m.as_slice(),
                windows: p.windows.as_slice(),
                x_edge_costs: x_edge_costs.as_slice(),
                y_edge_costs: y_edge_costs.as_slice(),
                via_edge_costs: vias.as_slice(),
            };
            assert(asks(p.task(), request));
            provider.route_isolated_batch(request)
        },
    }
}

} // verus!
