# metalroute

Grid routing for printed circuit boards, written and proved in Verus.

The library works on a board as a grid of cells on layers. It finds the cheapest route
of a net, negotiates the routes of many nets at once, and commits them so that connection
groups share no cell. Of each two groups' nets that are committed, one keeps the clearance
from the other, but for its own ends, its own masked pads, and cells that hold copper of
its own group. It also reads designs and judges finished boards.

| Modules | What they hold |
| --- | --- |
| `board`, `grid`, `net`, `via`, `geometry` | boards, nets, vias and the spacing of grid lines |
| `heap`, `path`, `search` | routes in a graph, and the search for the canonical one |
| `lee`, `astar`, `sweep`, `ripup`, `isolated`, `router` | routers for one net after the other, and distance fields |
| `task`, `pads`, `halo`, `groups`, `pricing`, `negotiate` | the negotiation of routes between nets |
| `legal`, `commit`, `legalize`, `clearance`, `orders`, `scoring`, `rescue`, `variant` | committing routes without conflicts |
| `provider`, `parallel`, `trace`, `negotiated` | the negotiating router |
| `text`, `number`, `digits`, `magnitude`, `collect`, `sexpr`, `reading`, `layers`, `sorting`, `shuffle` | characters, numbers, nested lists, names and orders |
| `dsn`, `library`, `via_stack`, `placement`, `design`, `ingest`, `design_laws` | designs in Specctra form |
| `pnp` | pick-and-place documents |
| `drc`, `drc_pairs`, `drc_sites`, `drc_rank`, `drc_report`, `drc_laws` | checking the rules of a board |
| `fixtures` | small boards to try routers on |

Every function states what it returns, and Verus proves it. Functions whose names begin
with `law_` state what holds of the library as a whole. What is not proved is what
`rayon` does with a list (`parallel`) and what `String::push` does (`text`).

Measurements are in floating point and stay outside the library, in `app/`: it turns
millimetres into grid lines and numbers that are ordered as the measurements are, reads
and writes documents, and hands plain values to the library.
