//! Nets, what routing them gives, and what can go wrong.
use vstd::prelude::*;

use crate::board::{CellIdx, Cost, Dims};
use crate::cells::copy_cells;

verus! {

/// Two cells that copper has to join.
#[derive(Clone, Debug, PartialEq, Eq)]
pub struct NetEndpoints {
    /// The name of the net.
    pub net: String,
    /// Where the route starts.
    pub src: CellIdx,
    /// Where the route ends.
    pub dst: CellIdx,
    /// Obstacle cells that are this net's own pads, and open to it.
    pub passable_pads: Vec<CellIdx>,
    /// Cells where this net may drill although a via is forbidden there.
    pub via_passable_pads: Vec<CellIdx>,
}

/// The route of a net.
#[derive(Clone, Debug, PartialEq, Eq)]
pub struct RouteResult {
    /// The name of the net.
    pub net: String,
    /// The cells of the route, both ends with it.
    pub path: Vec<CellIdx>,
    /// What the route costs.
    pub cost: Cost,
}

/// The routes of a board.
#[derive(Clone, Debug, PartialEq, Eq)]
pub struct BoardRoute {
    /// The nets that were routed, in the order in which they were given.
    pub results: Vec<RouteResult>,
    /// The nets that were not, in the order in which they were given.
    pub unrouted: Vec<String>,
    /// How many routes use each cell.
    pub congestion: Vec<u32>,
    /// The connection group of each result, where groups are known.
    pub groups: Vec<u32>,
}

/// Why a board was not routed at all.
#[derive(Clone, Debug, PartialEq, Eq)]
pub enum RouterError {
    /// The grid does not fit its dimensions.
    MalformedGrid,
    /// A net starts or ends where no copper can be, or has a pad off the board.
    InvalidEndpoint {
        /// The name of the net.
        net: String,
    },
    /// What would have done the work is not there.
    BackendUnavailable(String),
}

/// A [`RouteResult`] as plain values.
#[verifier::ext_equal]
pub struct RoutedView {
    /// The name of the net.
    pub net: Seq<char>,
    /// The cells of the route.
    pub path: Seq<CellIdx>,
    /// What the route costs.
    pub cost: nat,
}

/// A [`BoardRoute`] as plain values.
#[verifier::ext_equal]
pub struct BoardView {
    /// The nets that were routed.
    pub results: Seq<RoutedView>,
    /// The nets that were not.
    pub unrouted: Seq<Seq<char>>,
    /// How many routes use each cell.
    pub congestion: Seq<u32>,
    /// The connection group of each result.
    pub groups: Seq<u32>,
}

/// A [`RouterError`] as plain values.
pub enum FaultView {
    /// The grid does not fit its dimensions.
    MalformedGrid,
    /// A net starts or ends where no copper can be, or has a pad off the board.
    InvalidEndpoint(Seq<char>),
    /// What would have done the work is not there.
    BackendUnavailable(Seq<char>),
}

impl View for RouteResult {
    type V = RoutedView;

    open spec fn view(&self) -> RoutedView {
        RoutedView { net: self.net@, path: self.path@, cost: self.cost as nat }
    }
}

impl View for BoardRoute {
    type V = BoardView;

    open spec fn view(&self) -> BoardView {
        BoardView {
            results: Seq::new(self.results@.len(), |i: int| self.results@[i]@),
            unrouted: Seq::new(self.unrouted@.len(), |i: int| self.unrouted@[i]@),
            congestion: self.congestion@,
            groups: self.groups@,
        }
    }
}

impl View for RouterError {
    type V = FaultView;

    open spec fn view(&self) -> FaultView {
        match *self {
            RouterError::MalformedGrid => FaultView::MalformedGrid,
            RouterError::InvalidEndpoint { net } => FaultView::InvalidEndpoint(net@),
            RouterError::BackendUnavailable(why) => FaultView::BackendUnavailable(why@),
        }
    }
}

/// What routing came to, as plain values.
pub open spec fn outcome_view(r: Result<BoardRoute, RouterError>) -> Result<BoardView, FaultView> {
    match r {
        Ok(b) => Ok(b@),
        Err(e) => Err(e@),
    }
}

/// A route and its cost, where there is one.
pub type Found = Option<(Vec<CellIdx>, Cost)>;

/// The routes of `nets`, as far as there are any.
pub open spec fn routed_of(
    nets: Seq<NetEndpoints>,
    outs: Seq<Option<(Seq<CellIdx>, nat)>>,
) -> Seq<RoutedView>
    decreases nets.len(),
{
    if nets.len() == 0 {
        Seq::empty()
    } else {
        let rest = routed_of(nets.drop_last(), outs.drop_last());
        match outs.last() {
            Some((path, cost)) => rest.push(RoutedView { net: nets.last().net@, path, cost }),
            None => rest,
        }
    }
}

/// The names of the nets that have no route.
pub open spec fn unrouted_of(
    nets: Seq<NetEndpoints>,
    outs: Seq<Option<(Seq<CellIdx>, nat)>>,
) -> Seq<Seq<char>>
    decreases nets.len(),
{
    if nets.len() == 0 {
        Seq::empty()
    } else {
        let rest = unrouted_of(nets.drop_last(), outs.drop_last());
        match outs.last() {
            Some(_) => rest,
            None => rest.push(nets.last().net@),
        }
    }
}

/// How often routes use a cell.
pub open spec fn visits(results: Seq<RoutedView>, c: u32) -> nat
    decreases results.len(),
{
    if results.len() == 0 {
        0
    } else {
        visits(results.drop_last(), c) + crate::cells::occurrences(results.last().path, c)
    }
}

/// How many routes use each cell.
pub open spec fn congestion_of(cells: nat, results: Seq<RoutedView>) -> Seq<u32> {
    Seq::new(cells, |c: int| crate::search::sat(visits(results, c as u32) as int) as u32)
}

/// The board on which each net has the route given for it.
pub open spec fn board_of(
    dims: Dims,
    nets: Seq<NetEndpoints>,
    outs: Seq<Option<(Seq<CellIdx>, nat)>>,
) -> BoardView {
    BoardView {
        results: routed_of(nets, outs),
        unrouted: unrouted_of(nets, outs),
        congestion: congestion_of(dims.cells() as nat, routed_of(nets, outs)),
        groups: Seq::empty(),
    }
}

/// Found routes as plain values.
pub open spec fn found_view(outs: Seq<Found>) -> Seq<Option<(Seq<CellIdx>, nat)>> {
    Seq::new(outs.len(), |i: int| crate::search::path_view(outs[i]))
}

/// Every net is accounted for: it was routed, or it was not.
pub proof fn law_every_net_counted(
    nets: Seq<NetEndpoints>,
    outs: Seq<Option<(Seq<CellIdx>, nat)>>,
)
    ensures
        routed_of(nets, outs).len() + unrouted_of(nets, outs).len() == nets.len(),
    decreases nets.len(),
{
    if nets.len() > 0 {
        law_every_net_counted(nets.drop_last(), outs.drop_last());
    }
}

impl BoardRoute {
    /// How many of the routes use each cell.
    pub fn congestion_from(dims: Dims, results: &Vec<RouteResult>) -> (v: Vec<u32>)
        requires
            dims.indexable(),
            forall|i: int, j: int|
                0 <= i < results@.len() && 0 <= j < results@[i].path@.len() ==> dims.has(
                    #[trigger] results@[i].path@[j],
                ),
        ensures
            v@ == congestion_of(
                dims.cells() as nat,
                Seq::new(results@.len(), |i: int| results@[i]@),
            ),
    {
        let ghost all = Seq::new(results@.len(), |i: int| results@[i]@);
        let n: usize = dims.len();
        let mut v: Vec<u32> = vec![0; n];
        let mut i: usize = 0;
        while i < results.len()
            invariant
                i <= results@.len(),
                n == dims.cells(),
                n <= u32::MAX,
                v@.len() == n,
                all == Seq::new(results@.len(), |i: int| results@[i]@),
                forall|i: int, j: int|
                    0 <= i < results@.len() && 0 <= j < results@[i].path@.len() ==> dims.has(
                        #[trigger] results@[i].path@[j],
                    ),
                forall|c: int|
                    0 <= c < n ==> #[trigger] v@[c] == crate::search::sat(
                        visits(all.take(i as int), c as u32) as int,
                    ),
            decreases results@.len() - i,
        {
            let path = &results[i].path;
            let mut j: usize = 0;
            proof {
                assert(all.take(i + 1).drop_last() =~= all.take(i as int));
                assert(all.take(i + 1).last() == results@[i as int]@);
                assert(path@.take(0) =~= Seq::<u32>::empty());
            }
            while j < path.len()
                invariant
                    j <= path@.len(),
                    i < results@.len(),
                    path@ == results@[i as int].path@,
                    n == dims.cells(),
                    n <= u32::MAX,
                    v@.len() == n,
                    forall|i: int, j: int|
                        0 <= i < results@.len() && 0 <= j < results@[i].path@.len() ==> dims.has(
                            #[trigger] results@[i].path@[j],
                        ),
                    forall|c: int|
                        0 <= c < n ==> #[trigger] v@[c] == crate::search::sat(
                            visits(all.take(i as int), c as u32)
                                + crate::cells::occurrences(path@.take(j as int), c as u32) as int,
                        ),
                decreases path@.len() - j,
            {
                let c: usize = path[j] as usize;
                assert(dims.has(results@[i as int].path@[j as int]));
                let bumped: u32 = v[c].saturating_add(1);
                v.set(c, bumped);
                proof {
                    assert(path@.take(j + 1).drop_last() =~= path@.take(j as int));
                }
                j += 1;
            }
            proof {
                assert(path@.take(path@.len() as int) =~= path@);
            }
            i += 1;
        }
        proof {
            assert(all.take(all.len() as int) =~= all);
            assert(v@ =~= congestion_of(dims.cells() as nat, all));
        }
        v
    }

    /// What all routes cost together.
    pub fn total_cost(&self) -> (t: u64)
        ensures
            t == if cost_sum(self@.results) < u64::MAX {
                cost_sum(self@.results) as int
            } else {
                u64::MAX as int
            },
    {
        let mut t: u64 = 0;
        let mut i: usize = 0;
        proof {
            assert(self@.results.take(0) =~= Seq::<RoutedView>::empty());
        }
        while i < self.results.len()
            invariant
                i <= self.results@.len(),
                t == if cost_sum(self@.results.take(i as int)) < u64::MAX {
                    cost_sum(self@.results.take(i as int)) as int
                } else {
                    u64::MAX as int
                },
            decreases self.results@.len() - i,
        {
            proof {
                let s = self@.results.take(i + 1);
                assert(s.drop_last() =~= self@.results.take(i as int));
                assert(s.last() == self.results@[i as int]@);
            }
            t = t.saturating_add(self.results[i].cost as u64);
            i += 1;
        }
        assert(self@.results.take(self@.results.len() as int) =~= self@.results);
        t
    }
}

/// What routes cost together.
pub open spec fn cost_sum(results: Seq<RoutedView>) -> nat
    decreases results.len(),
{
    if results.len() == 0 {
        0
    } else {
        cost_sum(results.drop_last()) + results.last().cost
    }
}

/// Puts the routes of a board together, in the order of the nets.
pub fn assemble(dims: Dims, nets: &[NetEndpoints], outs: &Vec<Found>) -> (b: BoardRoute)
    requires
        dims.indexable(),
        outs@.len() == nets@.len(),
        forall|i: int|
            0 <= i < outs@.len() ==> (#[trigger] outs@[i] matches Some((p, _)) ==> forall|j: int|
                0 <= j < p@.len() ==> dims.has(#[trigger] p@[j])),
    ensures
        b@ == board_of(dims, nets@, found_view(outs@)),
{
    let mut results: Vec<RouteResult> = Vec::new();
    let mut unrouted: Vec<String> = Vec::new();
    let ghost fv = found_view(outs@);
    proof {
        assert(nets@.take(0) =~= Seq::<NetEndpoints>::empty());
    }
    let mut i: usize = 0;
    while i < nets.len()
        invariant
            i <= nets@.len(),
            outs@.len() == nets@.len(),
            fv == found_view(outs@),
            Seq::new(results@.len(), |i: int| results@[i]@) == routed_of(
                nets@.take(i as int),
                fv.take(i as int),
            ),
            Seq::new(unrouted@.len(), |i: int| unrouted@[i]@) == unrouted_of(
                nets@.take(i as int),
                fv.take(i as int),
            ),
            forall|i: int|
                0 <= i < outs@.len() ==> (#[trigger] outs@[i] matches Some((p, _)) ==> forall|
                    j: int,
                |
                    0 <= j < p@.len() ==> dims.has(#[trigger] p@[j])),
            forall|i: int, j: int|
                0 <= i < results@.len() && 0 <= j < results@[i].path@.len() ==> dims.has(
                    #[trigger] results@[i].path@[j],
                ),
        decreases nets@.len() - i,
    {
        proof {
            assert(nets@.take(i + 1).drop_last() =~= nets@.take(i as int));
            assert(fv.take(i + 1).drop_last() =~= fv.take(i as int));
            assert(fv.take(i + 1).last() == fv[i as int]);
        }
        let ghost before = Seq::new(results@.len(), |i: int| results@[i]@);
        let ghost before_un = Seq::new(unrouted@.len(), |i: int| unrouted@[i]@);
        let name = nets[i].net.clone();
        match &outs[i] {
            Some((path, cost)) => {
                let ghost old_results = results@;
                results.push(RouteResult { net: name, path: copy_cells(path), cost: *cost });
                proof {
                    assert(Seq::new(results@.len(), |i: int| results@[i]@) =~= before.push(
                        results@.last()@,
                    ));
                    assert forall|a: int, j: int|
                        0 <= a < results@.len() && 0 <= j
                            < results@[a].path@.len() implies dims.has(
                        #[trigger] results@[a].path@[j],
                    ) by {
                        if a < old_results.len() {
                            assert(results@[a] == old_results[a]);
                            assert(dims.has(old_results[a].path@[j]));
                        } else {
                            assert(outs@[i as int] == Some((*path, *cost)));
                            assert(dims.has(path@[j]));
                        }
                    }
                }
            },
            None => {
                unrouted.push(name);
                proof {
                    assert(Seq::new(unrouted@.len(), |i: int| unrouted@[i]@) =~= before_un.push(
                        name@,
                    ));
                }
            },
        }
        i += 1;
    }
    proof {
        assert(nets@.take(nets@.len() as int) =~= nets@);
        assert(fv.take(fv.len() as int) =~= fv);
    }
    let congestion = BoardRoute::congestion_from(dims, &results);
    BoardRoute { results, unrouted, congestion, groups: Vec::new() }
}

} // verus!
