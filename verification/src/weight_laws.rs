//! What groups weigh when nets are ordered and when one of them has to give way, and which
//! nets have a last turn.
use vstd::prelude::*;

use crate::board::CellIdx;
use crate::negotiate::Nego;
use crate::task::Task;

verus! {

/// What the members of group `g` among the first `n` weigh together.
pub open spec fn together(
    groups: Seq<usize>,
    weight: spec_fn(int) -> nat,
    g: usize,
    n: nat,
) -> nat
    decreases n,
{
    if n == 0 {
        0
    } else {
        together(groups, weight, g, (n - 1) as nat) + if groups[n - 1] == g {
            weight(n - 1)
        } else {
            0
        }
    }
}

/// What each net costs on its path.
pub open spec fn cost_alone(t: Task, alone: Seq<Seq<CellIdx>>) -> spec_fn(int) -> nat {
    |i: int| crate::board_laws::stopped(crate::board_laws::tolls(&t.grid, alone[i]))
}

/// How many steps each path takes; a net without one takes none.
pub open spec fn steps(committed: Seq<Option<Seq<CellIdx>>>) -> spec_fn(int) -> nat {
    |i: int|
        match committed[i] {
            Some(p) => if p.len() > 0 {
                (p.len() - 1) as nat
            } else {
                0
            },
            None => 0,
        }
}

/// Orders are tried by what the nets of a group cost together where each is alone, up to the
/// largest cost.
pub proof fn law_groups_weigh_their_nets(
    t: Task,
    groups: Seq<usize>,
    alone: Seq<Seq<CellIdx>>,
    g: usize,
    n: nat,
)
    requires
        n <= alone.len(),
        n <= t.nets.len(),
        n <= groups.len(),
        forall|i: int, j: int|
            0 <= i < n && 0 <= j < alone[i].len() ==> crate::board_laws::may_lie(
                &t.grid,
                t.nets[i],
                #[trigger] alone[i][j],
            ),
    ensures
        crate::variant::group_key(t, groups, alone, g, n) == crate::board_laws::stopped(
            together(groups, cost_alone(t, alone), g, n),
        ),
        n == t.nets.len() && g < crate::groups::group_count(groups)
            ==> crate::variant::group_keys(t, groups, alone)[g as int]
            == crate::board_laws::stopped(together(groups, cost_alone(t, alone), g, n)),
    decreases n,
{
    if n > 0 {
        law_groups_weigh_their_nets(t, groups, alone, g, (n - 1) as nat);
        let p = alone[n - 1];
        assert forall|j: int| 0 <= j < p.len() implies crate::board_laws::may_lie(
            &t.grid,
            t.nets[n - 1],
            #[trigger] p[j],
        ) by {
            assert(crate::board_laws::may_lie(&t.grid, t.nets[n - 1], alone[n - 1][j]));
        }
        crate::score_laws::lemma_toll(&t.grid, t.nets[n - 1], p, p.len());
        assert(p.take(p.len() as int) =~= p);
    }
}

/// How long the committed paths of a group are together decides which group gives way: the
/// shorter one, and of two that are as long the one with the lower number.
pub proof fn law_shorter_groups_are_cheaper(
    groups: Seq<usize>,
    committed: Seq<Option<Seq<CellIdx>>>,
    a: usize,
    b: usize,
)
    requires
        groups.len() == committed.len(),
        together(groups, steps(committed), a, groups.len()) < u32::MAX,
        together(groups, steps(committed), b, groups.len()) < u32::MAX,
    ensures
        crate::rescue::cheaper(groups, committed, a, b) <==> ({
            let (x, y) = (
                together(groups, steps(committed), a, groups.len()),
                together(groups, steps(committed), b, groups.len()),
            );
            x < y || x == y && a < b
        }),
{
    lemma_length(groups, committed, a, groups.len());
    lemma_length(groups, committed, b, groups.len());
}

proof fn lemma_length(groups: Seq<usize>, committed: Seq<Option<Seq<CellIdx>>>, g: usize, n: nat)
    requires
        n <= groups.len(),
        groups.len() == committed.len(),
        together(groups, steps(committed), g, n) < u32::MAX,
    ensures
        crate::rescue::group_length(groups, committed, g, n) == together(
            groups,
            steps(committed),
            g,
            n,
        ),
    decreases n,
{
    if n > 0 {
        lemma_length(groups, committed, g, (n - 1) as nat);
    }
}

/// Each state comes from the one before by one more turn of the next net, at the price of the
/// last round.
pub open spec fn are_last_turns(t: Task, first: Nego, states: Seq<Nego>) -> bool {
    &&& states.len() == t.nets.len() + 1
    &&& states[0] == first
    &&& forall|k: int|
        0 <= k < t.nets.len() ==> states[k + 1] == crate::negotiate::own_turn(
            t,
            #[trigger] states[k],
            k,
            60,
        )
}

proof fn lemma_last_turns(t: Task, s: Nego, n: nat) -> (states: Seq<Nego>)
    ensures
        states.len() == n + 1,
        states[0] == s,
        states[n as int] == crate::negotiate::polished(t, s, n),
        forall|k: int|
            0 <= k < n ==> states[k + 1] == crate::negotiate::own_turn(
                t,
                #[trigger] states[k],
                k,
                60,
            ),
    decreases n,
{
    if n == 0 {
        seq![s]
    } else {
        let was = lemma_last_turns(t, s, (n - 1) as nat);
        let last = crate::negotiate::polished(t, s, n);
        let states = was.push(last);
        assert forall|k: int| 0 <= k < n implies states[k + 1] == crate::negotiate::own_turn(
            t,
            #[trigger] states[k],
            k,
            60,
        ) by {
            if k < n - 1 {
                assert(was[k + 1] == crate::negotiate::own_turn(t, was[k], k, 60));
            }
        }
        states
    }
}

/// What negotiation ends with: the paths of its last round; on a single layer, where nets keep
/// their distance and all moved at once, each net has one more turn, one after the other.
pub proof fn law_nets_have_a_last_turn(t: Task, groups: Seq<usize>, parallel: bool)
    ensures
        ({
            let s = crate::negotiate::settled(t, groups, parallel);
            let r = crate::negotiate::negotiated_paths(t, groups, parallel);
            if parallel && t.geo.spaced && t.grid.dims.layers == 1 {
                exists|states: Seq<Nego>| #[trigger]
                    are_last_turns(t, s, states) && r == states[states.len() - 1].paths
            } else {
                r == s.paths
            }
        }),
{
    let s = crate::negotiate::settled(t, groups, parallel);
    let states = lemma_last_turns(t, s, t.nets.len());
    assert(are_last_turns(t, s, states));
}

} // verus!
