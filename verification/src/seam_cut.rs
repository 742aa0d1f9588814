//! Binary minimum cut for focus-source ownership on a grid.
//!
//! Costs are fixed-point numbers in units of one billionth. The cut is found by
//! blocking flows; the traversal keeps an explicit path, not a call stack.

use vstd::prelude::*;

use crate::grid::lemma_split;
use crate::window::sum_range;

verus! {

/// Cost of a pair of neighbours that belong to different sources, before their
/// measured disagreement is added.
pub const OWNERSHIP_PAIRWISE_BASE: i64 = 350_000_000;

/// Factor on the summed disagreement of a pair of neighbours.
pub const OWNERSHIP_PAIRWISE_DISAGREEMENT_WEIGHT: i64 = 12;

/// Cost of giving a seeded cell to the other source.
pub const OWNERSHIP_SEED_COST: i64 = 1_000_000_000_000_000;

/// The largest disagreement for which the sums of edge costs stay in `i64`.
pub const MAX_DISAGREEMENT: i64 = 100_000_000_000_000_000;

/// The level of a node that the breadth-first pass did not reach.
const UNREACHED: usize = usize::MAX;

/// One directed arc of the flow network with its remaining capacity.
#[derive(Clone, Copy)]
pub struct Arc {
    pub from: usize,
    pub to: usize,
    /// Index of the arc in the opposite direction.
    pub reverse: usize,
    /// Position of this arc in the list of arcs that leave `from`.
    pub slot: usize,
    pub capacity: i64,
}

/// A flow network: all arcs, and for every node the arcs that leave it.
pub struct Graph {
    pub arcs: Vec<Arc>,
    pub leaving: Vec<Vec<usize>>,
}

/// The arc `k` and its reverse point at each other, and their capacities can
/// flow into either without overflow.
pub open spec fn paired(arcs: Seq<Arc>, k: int) -> bool {
    let twin = arcs[arcs[k].reverse as int];
    &&& arcs[k].reverse != k
    &&& twin.reverse == k
    &&& twin.from == arcs[k].to
    &&& twin.to == arcs[k].from
    &&& arcs[k].capacity + twin.capacity <= i64::MAX
}

/// The arc `k` stands in the list of the node that it leaves.
pub open spec fn listed(arcs: Seq<Arc>, leaving: Seq<Vec<usize>>, k: int) -> bool {
    &&& arcs[k].slot < leaving[arcs[k].from as int]@.len()
    &&& leaving[arcs[k].from as int]@[arcs[k].slot as int] == k
}

/// What an arc adds to the cut whose source side is `side`.
pub open spec fn arc_cost(arc: Arc, side: Seq<bool>) -> int {
    if side[arc.from as int] && !side[arc.to as int] {
        arc.capacity as int
    } else {
        0
    }
}

/// The capacity that leaves `side`.
pub open spec fn cut_value(arcs: Seq<Arc>, side: Seq<bool>) -> int
    decreases arcs.len(),
{
    if arcs.len() == 0 {
        0
    } else {
        cut_value(arcs.drop_last(), side) + arc_cost(arcs.last(), side)
    }
}

/// `side` splits the nodes with `source` inside and `sink` outside.
pub open spec fn separates(side: Seq<bool>, nodes: int, source: int, sink: int) -> bool {
    &&& side.len() == nodes
    &&& side[source]
    &&& !side[sink]
}

/// No remaining capacity leaves `side`.
pub open spec fn closed_side(arcs: Seq<Arc>, side: Seq<bool>) -> bool {
    forall|k: int|
        #![trigger arcs[k]]
        0 <= k < arcs.len() && arcs[k].capacity > 0 && side[arcs[k].from as int]
            ==> side[arcs[k].to as int]
}

/// Every node of `inner` is a node of `outer`.
pub open spec fn side_within(inner: Seq<bool>, outer: Seq<bool>) -> bool {
    forall|v: int| 0 <= v < inner.len() && #[trigger] inner[v] ==> outer[v]
}

/// `side` is the smallest source side among the cuts of least capacity.
pub open spec fn is_smallest_minimum_cut(
    arcs: Seq<Arc>,
    side: Seq<bool>,
    nodes: int,
    source: int,
    sink: int,
) -> bool {
    &&& separates(side, nodes, source, sink)
    &&& forall|other: Seq<bool>|
        #![trigger cut_value(arcs, other)]
        separates(other, nodes, source, sink) ==> cut_value(arcs, side) <= cut_value(arcs, other)
    &&& forall|other: Seq<bool>|
        #![trigger cut_value(arcs, other)]
        separates(other, nodes, source, sink) && cut_value(arcs, other) <= cut_value(arcs, side)
            ==> side_within(side, other)
}

proof fn lemma_cut_update(arcs: Seq<Arc>, k: int, arc: Arc, side: Seq<bool>)
    requires
        0 <= k < arcs.len(),
    ensures
        cut_value(arcs.update(k, arc), side) == cut_value(arcs, side) - arc_cost(arcs[k], side)
            + arc_cost(arc, side),
    decreases arcs.len(),
{
    let updated = arcs.update(k, arc);
    if k == arcs.len() - 1 {
        assert(updated.drop_last() =~= arcs.drop_last());
    } else {
        assert(updated.drop_last() =~= arcs.drop_last().update(k, arc));
        lemma_cut_update(arcs.drop_last(), k, arc, side);
    }
}

proof fn lemma_cut_push(arcs: Seq<Arc>, arc: Arc, side: Seq<bool>)
    ensures
        cut_value(arcs.push(arc), side) == cut_value(arcs, side) + arc_cost(arc, side),
{
    assert(arcs.push(arc).drop_last() =~= arcs);
}

proof fn lemma_cut_bounds(arcs: Seq<Arc>, side: Seq<bool>)
    requires
        forall|k: int| 0 <= k < arcs.len() ==> #[trigger] arcs[k].capacity >= 0,
    ensures
        cut_value(arcs, side) >= 0,
        closed_side(arcs, side) ==> cut_value(arcs, side) == 0,
        cut_value(arcs, side) == 0 ==> closed_side(arcs, side),
    decreases arcs.len(),
{
    if arcs.len() > 0 {
        let rest = arcs.drop_last();
        assert forall|k: int| 0 <= k < rest.len() implies #[trigger] rest[k].capacity >= 0 by {
            assert(rest[k] == arcs[k]);
        }
        lemma_cut_bounds(rest, side);
        let last = arcs[arcs.len() - 1];
        assert(last.capacity >= 0);
        if closed_side(arcs, side) {
            assert forall|k: int|
                #![trigger rest[k]]
                0 <= k < rest.len() && rest[k].capacity > 0 && side[rest[k].from as int] implies
                side[rest[k].to as int] by {
                assert(rest[k] == arcs[k]);
            }
        }
        if cut_value(arcs, side) == 0 {
            assert forall|k: int|
                #![trigger arcs[k]]
                0 <= k < arcs.len() && arcs[k].capacity > 0 && side[arcs[k].from as int] implies
                side[arcs[k].to as int] by {
                if k < rest.len() {
                    assert(rest[k] == arcs[k]);
                }
            }
        }
    }
}

/// The number of nodes without a level.
spec fn unreached_count(levels: Seq<usize>) -> nat
    decreases levels.len(),
{
    if levels.len() == 0 {
        0
    } else {
        unreached_count(levels.drop_last()) + if levels.last() == UNREACHED {
            1nat
        } else {
            0nat
        }
    }
}

proof fn lemma_unreached_update(levels: Seq<usize>, v: int, level: usize)
    requires
        0 <= v < levels.len(),
        levels[v] == UNREACHED,
        level != UNREACHED,
    ensures
        unreached_count(levels.update(v, level)) + 1 == unreached_count(levels),
    decreases levels.len(),
{
    let updated = levels.update(v, level);
    if v == levels.len() - 1 {
        assert(updated.drop_last() =~= levels.drop_last());
    } else {
        assert(updated.drop_last() =~= levels.drop_last().update(v, level));
        lemma_unreached_update(levels.drop_last(), v, level);
    }
}

proof fn lemma_unreached_full(levels: Seq<usize>)
    requires
        forall|v: int| 0 <= v < levels.len() ==> levels[v] == UNREACHED,
    ensures
        unreached_count(levels) == levels.len(),
    decreases levels.len(),
{
    if levels.len() > 0 {
        let rest = levels.drop_last();
        assert forall|v: int| 0 <= v < rest.len() implies rest[v] == UNREACHED by {
            assert(rest[v] == levels[v]);
        }
        lemma_unreached_full(rest);
    }
}

/// The number of arcs that the search has not passed yet.
spec fn arcs_ahead(leaving: Seq<Vec<usize>>, next: Seq<usize>, nodes: nat) -> int
    decreases nodes,
{
    if nodes == 0 {
        0
    } else {
        arcs_ahead(leaving, next, (nodes - 1) as nat) + leaving[nodes - 1]@.len() - next[nodes - 1]
    }
}

proof fn lemma_arcs_ahead(leaving: Seq<Vec<usize>>, next: Seq<usize>, u: int, nodes: nat)
    requires
        nodes <= next.len(),
        0 <= u < next.len(),
        next[u] < usize::MAX,
    ensures
        arcs_ahead(leaving, next.update(u, (next[u] + 1) as usize), nodes) == arcs_ahead(
            leaving,
            next,
            nodes,
        ) - if u < nodes {
            1int
        } else {
            0int
        },
    decreases nodes,
{
    if nodes > 0 {
        lemma_arcs_ahead(leaving, next, u, (nodes - 1) as nat);
    }
}

proof fn lemma_arcs_ahead_bound(leaving: Seq<Vec<usize>>, next: Seq<usize>, nodes: nat)
    requires
        nodes <= next.len(),
        forall|v: int| 0 <= v < nodes ==> next[v] <= #[trigger] leaving[v]@.len(),
    ensures
        arcs_ahead(leaving, next, nodes) >= 0,
    decreases nodes,
{
    if nodes > 0 {
        lemma_arcs_ahead_bound(leaving, next, (nodes - 1) as nat);
        assert(next[nodes - 1] <= leaving[nodes - 1]@.len());
    }
}

/// What a breadth-first pass leaves behind: levels that grow by one along the
/// arc through which each node was first reached.
spec fn layered(arcs: Seq<Arc>, levels: Seq<usize>, source: int) -> bool {
    &&& 0 <= source < levels.len()
    &&& levels[source] == 0
    &&& forall|v: int|
        #![trigger levels[v]]
        0 <= v < levels.len() && levels[v] != UNREACHED ==> levels[v] < levels.len()
    &&& forall|v: int|
        #![trigger has_parent(arcs, levels, v)]
        0 <= v < levels.len() && v != source && levels[v] != UNREACHED ==> has_parent(
            arcs,
            levels,
            v,
        )
}

/// An arc with capacity leads to `v` from a node one level down.
spec fn has_parent(arcs: Seq<Arc>, levels: Seq<usize>, v: int) -> bool {
    exists|k: int| is_parent_arc(arcs, levels, v, k)
}

spec fn is_parent_arc(arcs: Seq<Arc>, levels: Seq<usize>, v: int, k: int) -> bool {
    &&& 0 <= k < arcs.len()
    &&& arcs[k].to == v
    &&& arcs[k].capacity > 0
    &&& levels[arcs[k].from as int] != UNREACHED
    &&& levels[arcs[k].from as int] + 1 == levels[v]
}

/// The arc has capacity and leads to a node without a level.
spec fn opens(arc: Arc, levels: Seq<usize>) -> bool {
    arc.capacity > 0 && levels[arc.to as int] == UNREACHED
}

/// No arc that leaves `v` leads to a node without a level.
spec fn spent(graph: Graph, levels: Seq<usize>, v: int) -> bool {
    forall|i: int|
        #![trigger graph.leaving@[v]@[i]]
        0 <= i < graph.leaving@[v]@.len() ==> !opens(
            graph.arcs@[graph.leaving@[v]@[i] as int],
            levels,
        )
}

/// The state of a breadth-first pass: the queue holds exactly the nodes with a
/// level, in an order in which no level exceeds the position.
spec fn reaching(graph: Graph, source: int, levels: Seq<usize>, queue: Seq<usize>) -> bool {
    let nodes = graph.leaving@.len();
    &&& levels.len() == nodes
    &&& layered(graph.arcs@, levels, source)
    &&& queue.len() + unreached_count(levels) == nodes
    &&& forall|i: int|
        #![trigger queue[i]]
        0 <= i < queue.len() ==> queue[i] < nodes && levels[queue[i] as int] <= i
            && levels[queue[i] as int] != UNREACHED
    &&& forall|v: int|
        #![trigger levels[v]]
        0 <= v < nodes && levels[v] != UNREACHED ==> exists|i: int|
            0 <= i < queue.len() && #[trigger] queue[i] == v
    &&& forall|side: Seq<bool>, v: int|
        #![trigger closed_side(graph.arcs@, side), levels[v]]
        side.len() == nodes && side[source] && closed_side(graph.arcs@, side) && 0 <= v < nodes
            && levels[v] != UNREACHED ==> side[v]
}

proof fn lemma_reach(
    graph: Graph,
    source: int,
    levels: Seq<usize>,
    queue: Seq<usize>,
    at: int,
    k: int,
)
    requires
        graph.well_formed(),
        reaching(graph, source, levels, queue),
        0 <= at < queue.len(),
        0 <= k < graph.arcs@.len(),
        graph.arcs@[k].from == queue[at],
        opens(graph.arcs@[k], levels),
    ensures
        levels[queue[at] as int] + 1 < graph.leaving@.len(),
        reaching(
            graph,
            source,
            levels.update(
                graph.arcs@[k].to as int,
                (levels[queue[at] as int] + 1) as usize,
            ),
            queue.push(graph.arcs@[k].to),
        ),
{
    let arc = graph.arcs@[k];
    let w = arc.to as int;
    let level = (levels[queue[at] as int] + 1) as usize;
    let after = levels.update(w, level);
    let longer = queue.push(arc.to);
    let nodes = graph.leaving@.len();
    assert(levels[queue[at] as int] <= at);
    lemma_unreached_update(levels, w, 0);
    assert(queue.len() < nodes);
    assert(graph.leaving.len() == nodes);
    assert(level < UNREACHED);
    lemma_unreached_update(levels, w, level);
    assert(longer[queue.len() as int] == arc.to);
    assert forall|i: int| 0 <= i < queue.len() implies longer[i] == #[trigger] queue[i] by {}
    assert forall|i: int|
        #![trigger longer[i]]
        0 <= i < longer.len() implies longer[i] < nodes && after[longer[i] as int] <= i
        && after[longer[i] as int] != UNREACHED by {
        if i < queue.len() {
            assert(longer[i] == queue[i]);
        }
    }
    assert forall|v: int| #![trigger after[v]] 0 <= v < nodes && after[v] != UNREACHED implies exists|
        i: int,
    |
        0 <= i < longer.len() && #[trigger] longer[i] == v by {
        if v != w {
            assert(levels[v] != UNREACHED);
            let i = choose|i: int| 0 <= i < queue.len() && #[trigger] queue[i] == v;
            assert(longer[i] == v);
        }
    }
    assert forall|v: int|
        #![trigger has_parent(graph.arcs@, after, v)]
        0 <= v < nodes && v != source && after[v] != UNREACHED implies has_parent(
        graph.arcs@,
        after,
        v,
    ) by {
        if v == w {
            assert(is_parent_arc(graph.arcs@, after, v, k));
        } else {
            assert(has_parent(graph.arcs@, levels, v));
            let q = choose|q: int| is_parent_arc(graph.arcs@, levels, v, q);
            assert(graph.arcs@[q].from < nodes);
            assert(is_parent_arc(graph.arcs@, after, v, q));
        }
    }
    assert forall|side: Seq<bool>, v: int|
        #![trigger closed_side(graph.arcs@, side), after[v]]
        side.len() == nodes && side[source] && closed_side(graph.arcs@, side) && 0 <= v < nodes
            && after[v] != UNREACHED implies side[v] by {
        assert(levels[queue[at] as int] != UNREACHED);
        assert(side[arc.from as int]);
        if v == w {
            assert(graph.arcs@[k].capacity > 0);
        } else {
            assert(levels[v] != UNREACHED);
        }
    }
    assert(layered(graph.arcs@, after, source));
}

/// The state of a blocking-flow phase: `levels` is `layers` with the dead ends
/// struck out, and the arcs before `next` lead nowhere.
spec fn searching(
    graph: Graph,
    layers: Seq<usize>,
    levels: Seq<usize>,
    next: Seq<usize>,
    sink: int,
) -> bool {
    let nodes = graph.leaving@.len();
    &&& graph.well_formed()
    &&& layers.len() == nodes
    &&& levels.len() == nodes
    &&& next.len() == nodes
    &&& 0 <= sink < nodes
    &&& layers[sink] != UNREACHED
    &&& levels[sink] == layers[sink]
    &&& forall|v: int|
        #![trigger layers[v]]
        0 <= v < nodes && layers[v] != UNREACHED ==> layers[v] < nodes
    &&& forall|v: int|
        #![trigger levels[v]]
        0 <= v < nodes ==> levels[v] == layers[v] || levels[v] == UNREACHED
    &&& forall|v: int| #![trigger next[v]] 0 <= v < nodes ==> next[v] <= graph.leaving@[v]@.len()
    &&& forall|v: int, i: int|
        #![trigger graph.leaving@[v]@[i]]
        0 <= v < nodes && layers[v] != UNREACHED && 0 <= i < next[v] ==> passed(
            graph.arcs@[graph.leaving@[v]@[i] as int],
            layers,
            levels,
        )
    &&& forall|v: int|
        #![trigger levels[v]]
        0 <= v < nodes && layers[v] != UNREACHED && levels[v] == UNREACHED ==> next[v]
            == graph.leaving@[v]@.len()
}

/// The arc has no capacity left, or does not lead to a live node one level up.
spec fn passed(arc: Arc, layers: Seq<usize>, levels: Seq<usize>) -> bool {
    ||| arc.capacity == 0
    ||| levels[arc.to as int] == UNREACHED
    ||| layers[arc.to as int] != layers[arc.from as int] + 1
}

/// `path` is a chain of arcs with capacity from `source` to `end`, one level
/// up with every step.
spec fn climbs(
    arcs: Seq<Arc>,
    layers: Seq<usize>,
    path: Seq<usize>,
    source: int,
    end: int,
) -> bool {
    &&& forall|i: int|
        #![trigger path[i]]
        0 <= i < path.len() ==> {
            &&& path[i] < arcs.len()
            &&& arcs[path[i] as int].capacity > 0
            &&& layers[arcs[path[i] as int].from as int] == i
            &&& layers[arcs[path[i] as int].to as int] == i + 1
        }
    &&& path.len() == 0 ==> end == source
    &&& path.len() > 0 ==> arcs[path[0] as int].from == source && arcs[path[path.len() - 1] as int].to
        == end
    &&& forall|i: int| 0 < i < path.len() ==> #[trigger] linked(arcs, path, i)
}

/// The step of `path` at `i` starts where the step before it ends.
spec fn linked(arcs: Seq<Arc>, path: Seq<usize>, i: int) -> bool {
    arcs[path[i - 1] as int].to == arcs[path[i] as int].from
}

/// The two lists hold the same arcs, up to their capacities.
spec fn same_ends(before: Seq<Arc>, after: Seq<Arc>) -> bool {
    &&& before.len() == after.len()
    &&& forall|k: int|
        #![trigger before[k]]
        #![trigger after[k]]
        0 <= k < before.len() ==> {
            &&& before[k].from == after[k].from
            &&& before[k].to == after[k].to
            &&& before[k].reverse == after[k].reverse
            &&& before[k].slot == after[k].slot
        }
}

proof fn lemma_source_is_live(
    graph: Graph,
    layers: Seq<usize>,
    levels: Seq<usize>,
    next: Seq<usize>,
    source: int,
    sink: int,
    v: int,
)
    requires
        searching(graph, layers, levels, next, sink),
        layered(graph.arcs@, layers, source),
        0 <= v < layers.len(),
        levels[v] != UNREACHED,
    ensures
        levels[source] != UNREACHED,
    decreases layers[v],
{
    assert(levels[v] == layers[v]);
    if v != source {
        assert(has_parent(graph.arcs@, layers, v));
        let k = choose|k: int| is_parent_arc(graph.arcs@, layers, v, k);
        let u = graph.arcs@[k].from as int;
        let arc = graph.arcs@[k];
        assert(listed(graph.arcs@, graph.leaving@, k));
        if levels[u] == UNREACHED {
            assert(next[u] == graph.leaving@[u]@.len());
            assert(passed(graph.arcs@[graph.leaving@[u]@[arc.slot as int] as int], layers, levels));
            assert(false);
        }
        lemma_source_is_live(graph, layers, levels, next, source, sink, u);
    }
}

impl Graph {
    /// Every arc has a partner in the opposite direction and is listed at the
    /// node that it leaves; no push can overflow a capacity.
    pub open spec fn well_formed(&self) -> bool {
        &&& forall|k: int|
            #![trigger self.arcs@[k]]
            0 <= k < self.arcs@.len() ==> {
                let arc = self.arcs@[k];
                &&& arc.from < self.leaving@.len()
                &&& arc.to < self.leaving@.len()
                &&& arc.reverse < self.arcs@.len()
                &&& arc.capacity >= 0
            }
        &&& forall|k: int| 0 <= k < self.arcs@.len() ==> #[trigger] paired(self.arcs@, k)
        &&& forall|k: int|
            0 <= k < self.arcs@.len() ==> #[trigger] listed(self.arcs@, self.leaving@, k)
        &&& forall|v: int, i: int|
            #![trigger self.leaving@[v]@[i]]
            0 <= v < self.leaving@.len() && 0 <= i < self.leaving@[v]@.len() ==> {
                &&& self.leaving@[v]@[i] < self.arcs@.len()
                &&& self.arcs@[self.leaving@[v]@[i] as int].from == v
                &&& self.arcs@[self.leaving@[v]@[i] as int].slot == i
            }
    }

    /// A network of `nodes` nodes without arcs.
    pub fn with_nodes(nodes: usize) -> (graph: Graph)
        ensures
            graph.well_formed(),
            graph.arcs@.len() == 0,
            graph.leaving@.len() == nodes,
    {
        let mut leaving: Vec<Vec<usize>> = Vec::new();
        let mut v: usize = 0;
        while v < nodes
            invariant
                v <= nodes,
                leaving@.len() == v,
                forall|w: int| 0 <= w < v ==> #[trigger] leaving@[w]@.len() == 0,
            decreases nodes - v,
        {
            leaving.push(Vec::new());
            v += 1;
        }
        Graph { arcs: Vec::new(), leaving }
    }

    /// Joins `a` and `b` by an arc of capacity `forward` and one back of capacity
    /// `reverse`.
    pub fn connect(&mut self, a: usize, b: usize, forward: i64, reverse: i64)
        requires
            old(self).well_formed(),
            a != b,
            a < old(self).leaving@.len(),
            b < old(self).leaving@.len(),
            forward >= 0,
            reverse >= 0,
            forward + reverse <= i64::MAX,
            old(self).arcs@.len() + 2 <= usize::MAX,
        ensures
            final(self).well_formed(),
            final(self).leaving@.len() == old(self).leaving@.len(),
            final(self).arcs@.len() == old(self).arcs@.len() + 2,
            forall|side: Seq<bool>|
                #![trigger cut_value(final(self).arcs@, side)]
                cut_value(final(self).arcs@, side) == cut_value(old(self).arcs@, side)
                    + (if side[a as int] && !side[b as int] {
                    forward as int
                } else {
                    0
                }) + (if side[b as int] && !side[a as int] {
                    reverse as int
                } else {
                    0
                }),
    {
        let ghost before = *self;
        let first: usize = self.arcs.len();
        let second: usize = first + 1;
        let a_slot: usize = self.leaving[a].len();
        let b_slot: usize = self.leaving[b].len();
        let there = Arc { from: a, to: b, reverse: second, slot: a_slot, capacity: forward };
        let back = Arc { from: b, to: a, reverse: first, slot: b_slot, capacity: reverse };
        self.arcs.push(there);
        self.arcs.push(back);
        self.leaving[a].push(first);
        self.leaving[b].push(second);
        proof {
            assert(self.arcs@ =~= before.arcs@.push(there).push(back));
            assert forall|side: Seq<bool>|
                #![trigger cut_value(self.arcs@, side)]
                cut_value(self.arcs@, side) == cut_value(before.arcs@, side) + (if side[a as int]
                    && !side[b as int] {
                    forward as int
                } else {
                    0
                }) + (if side[b as int] && !side[a as int] {
                    reverse as int
                } else {
                    0
                }) by {
                lemma_cut_push(before.arcs@, there, side);
                lemma_cut_push(before.arcs@.push(there), back, side);
            }
            assert forall|k: int| 0 <= k < before.arcs@.len() implies self.arcs@[k]
                == #[trigger] before.arcs@[k] by {}
            assert forall|k: int| 0 <= k < self.arcs@.len() implies #[trigger] paired(
                self.arcs@,
                k,
            ) by {
                if k < before.arcs@.len() {
                    assert(paired(before.arcs@, k));
                }
            }
            assert forall|k: int| 0 <= k < self.arcs@.len() implies #[trigger] listed(
                self.arcs@,
                self.leaving@,
                k,
            ) by {
                if k < before.arcs@.len() {
                    assert(listed(before.arcs@, before.leaving@, k));
                }
            }
            assert forall|v: int, i: int|
                0 <= v < before.leaving@.len() && 0 <= i < before.leaving@[v]@.len() implies
                self.leaving@[v]@[i] == #[trigger] before.leaving@[v]@[i] by {}
        }
    }

    /// Breadth-first levels over the arcs that still have capacity; a node that
    /// cannot be reached has the level `usize::MAX`.
    fn levels(&self, source: usize) -> (levels: Vec<usize>)
        requires
            self.well_formed(),
            source < self.leaving@.len(),
        ensures
            levels@.len() == self.leaving@.len(),
            layered(self.arcs@, levels@, source as int),
            forall|k: int|
                #![trigger self.arcs@[k]]
                0 <= k < self.arcs@.len() && self.arcs@[k].capacity > 0
                    && levels@[self.arcs@[k].from as int] != UNREACHED
                    ==> levels@[self.arcs@[k].to as int] != UNREACHED,
            forall|side: Seq<bool>, v: int|
                #![trigger closed_side(self.arcs@, side), levels@[v]]
                side.len() == levels@.len() && side[source as int] && closed_side(self.arcs@, side)
                    && 0 <= v < levels@.len() && levels@[v] != UNREACHED ==> side[v],
    {
        let nodes: usize = self.leaving.len();
        let mut levels: Vec<usize> = Vec::new();
        let mut filled: usize = 0;
        while filled < nodes
            invariant
                filled <= nodes,
                levels@.len() == filled,
                forall|v: int| 0 <= v < filled ==> levels@[v] == UNREACHED,
            decreases nodes - filled,
        {
            levels.push(UNREACHED);
            filled += 1;
        }
        proof {
            lemma_unreached_full(levels@);
            lemma_unreached_update(levels@, source as int, 0);
        }
        let mut queue: Vec<usize> = Vec::new();
        levels.set(source, 0);
        queue.push(source);
        let mut head: usize = 0;
        assert(queue@[0] == source);
        while head < queue.len()
            invariant
                self.well_formed(),
                nodes == self.leaving@.len(),
                head <= queue@.len(),
                reaching(*self, source as int, levels@, queue@),
                forall|i: int|
                    #![trigger queue@[i]]
                    0 <= i < head ==> spent(*self, levels@, queue@[i] as int),
            decreases nodes - head,
        {
            let u: usize = queue[head];
            head += 1;
            let level: usize = levels[u];
            let mut j: usize = 0;
            while j < self.leaving[u].len()
                invariant
                    self.well_formed(),
                    nodes == self.leaving@.len(),
                    0 < head <= queue@.len(),
                    u == queue@[head - 1],
                    u < nodes,
                    j <= self.leaving@[u as int]@.len(),
                    level == levels@[u as int],
                    level < head,
                    reaching(*self, source as int, levels@, queue@),
                    forall|i: int|
                        #![trigger queue@[i]]
                        0 <= i < head - 1 ==> spent(*self, levels@, queue@[i] as int),
                    forall|l: int|
                        #![trigger self.leaving@[u as int]@[l]]
                        0 <= l < j ==> !opens(
                            self.arcs@[self.leaving@[u as int]@[l] as int],
                            levels@,
                        ),
                decreases self.leaving@[u as int]@.len() - j,
            {
                let k: usize = self.leaving[u][j];
                let arc = self.arcs[k];
                if arc.capacity > 0 && levels[arc.to] == UNREACHED {
                    let ghost levels_before = levels@;
                    let ghost queue_before = queue@;
                    proof {
                        lemma_reach(*self, source as int, levels@, queue@, head - 1, k as int);
                    }
                    levels.set(arc.to, level + 1);
                    queue.push(arc.to);
                    proof {
                        assert forall|i: int|
                            #![trigger queue@[i]]
                            0 <= i < head - 1 implies spent(*self, levels@, queue@[i] as int) by {
                            assert(spent(*self, levels_before, queue_before[i] as int));
                        }
                    }
                }
                j += 1;
            }
        }
        assert forall|k: int|
            #![trigger self.arcs@[k]]
            0 <= k < self.arcs@.len() && self.arcs@[k].capacity > 0
                && levels@[self.arcs@[k].from as int] != UNREACHED implies levels@[self.arcs@[k].to as int]
            != UNREACHED by {
            let arc = self.arcs@[k];
            assert(listed(self.arcs@, self.leaving@, k));
            let i = choose|i: int| 0 <= i < queue@.len() && #[trigger] queue@[i] == arc.from;
            assert(spent(*self, levels@, queue@[i] as int));
            assert(self.leaving@[queue@[i] as int]@[arc.slot as int] == k);
        }
        levels
    }

    /// Looks for a path of live arcs from `source` to `sink`, one level up with
    /// every step; strikes out the dead ends that it meets.
    fn find_path(
        &self,
        levels: &mut Vec<usize>,
        next: &mut Vec<usize>,
        source: usize,
        sink: usize,
        Ghost(layers): Ghost<Seq<usize>>,
    ) -> (found: Option<Vec<usize>>)
        requires
            searching(*self, layers, old(levels)@, old(next)@, sink as int),
            source < self.leaving@.len(),
            source != sink,
            layers[source as int] == 0,
            old(levels)@[source as int] == 0,
        ensures
            searching(*self, layers, final(levels)@, final(next)@, sink as int),
            match found {
                Some(path) => final(levels)@[source as int] == 0 && path@.len() > 0 && climbs(
                    self.arcs@,
                    layers,
                    path@,
                    source as int,
                    sink as int,
                ),
                None => final(levels)@[source as int] == UNREACHED,
            },
    {
        let mut path: Vec<usize> = Vec::new();
        let mut u: usize = source;
        while u != sink
            invariant
                searching(*self, layers, levels@, next@, sink as int),
                source < self.leaving@.len(),
                source != sink,
                layers[source as int] == 0,
                u < self.leaving@.len(),
                climbs(self.arcs@, layers, path@, source as int, u as int),
                levels@[u as int] == layers[u as int],
                layers[u as int] == path@.len(),
                layers[u as int] != UNREACHED,
                levels@[source as int] == 0,
                forall|i: int|
                    #![trigger path@[i]]
                    0 <= i < path@.len() ==> {
                        let v = self.arcs@[path@[i] as int].from as int;
                        &&& levels@[v] == layers[v]
                        &&& next@[v] < self.leaving@[v]@.len()
                        &&& self.leaving@[v]@[next@[v] as int] == path@[i]
                    },
            decreases
                    arcs_ahead(self.leaving@, next@, self.leaving@.len()),
                    self.leaving@.len() - path@.len(),
        {
            proof {
                lemma_arcs_ahead_bound(self.leaving@, next@, self.leaving@.len());
                assert(next@[u as int] <= self.leaving@[u as int]@.len());
            }
            let at: usize = next[u];
            if at < self.leaving[u].len() {
                let k: usize = self.leaving[u][at];
                let arc = self.arcs[k];
                assert(arc.from == u);
                if arc.capacity > 0 && levels[arc.to] != UNREACHED && levels[arc.to] == levels[u] + 1 {
                    let ghost path_before = path@;
                    path.push(k);
                    proof {
                        assert(layers[arc.to as int] < self.leaving@.len());
                        assert forall|i: int| 0 <= i < path_before.len() implies path@[i]
                            == #[trigger] path_before[i] by {}
                        assert(path@[path_before.len() as int] == k);
                        assert(levels@[arc.to as int] == layers[arc.to as int]);
                        assert(climbs(self.arcs@, layers, path@, source as int, arc.to as int)) by {
                            if path_before.len() > 0 {
                                assert(path@[0] == path_before[0]);
                                assert(path_before[path_before.len() - 1] == path@[path@.len() - 2]);
                            }
                            assert forall|i: int| 0 < i < path@.len() implies #[trigger] linked(
                                self.arcs@,
                                path@,
                                i,
                            ) by {
                                if i < path_before.len() {
                                    assert(linked(self.arcs@, path_before, i));
                                }
                            }
                        }
                    }
                    u = arc.to;
                } else {
                    let ghost next_before = next@;
                    proof {
                        lemma_arcs_ahead(self.leaving@, next@, u as int, self.leaving@.len());
                    }
                    next.set(u, at + 1);
                    proof {
                        assert(next@ =~= next_before.update(u as int, (at + 1) as usize));
                        lemma_arcs_ahead_bound(self.leaving@, next@, self.leaving@.len());
                        assert forall|i: int| 0 <= i < path@.len() implies self.arcs@[#[trigger] path@[i] as int].from
                            != u by {}
                        assert forall|v: int, i: int|
                            #![trigger self.leaving@[v]@[i]]
                            0 <= v < self.leaving@.len() && layers[v] != UNREACHED && 0 <= i
                                < next@[v] implies passed(
                            self.arcs@[self.leaving@[v]@[i] as int],
                            layers,
                            levels@,
                        ) by {
                            if v == u && i == at {
                                assert(self.arcs@[self.leaving@[v]@[i] as int] == arc);
                                assert(levels@[arc.to as int] == layers[arc.to as int]
                                    || levels@[arc.to as int] == UNREACHED);
                            } else {
                                assert(i < next_before[v]);
                            }
                        }
                    }
                }
            } else {
                let ghost levels_before = levels@;
                levels.set(u, UNREACHED);
                proof {
                    assert forall|v: int, i: int|
                        #![trigger self.leaving@[v]@[i]]
                        0 <= v < self.leaving@.len() && layers[v] != UNREACHED && 0 <= i < next@[v] implies passed(
                        self.arcs@[self.leaving@[v]@[i] as int],
                        layers,
                        levels@,
                    ) by {
                        assert(passed(
                            self.arcs@[self.leaving@[v]@[i] as int],
                            layers,
                            levels_before,
                        ));
                    }
                    assert forall|v: int|
                        #![trigger levels@[v]]
                        0 <= v < self.leaving@.len() implies levels@[v] == layers[v] || levels@[v]
                        == UNREACHED by {
                        assert(levels_before[v] == layers[v] || levels_before[v] == UNREACHED);
                    }
                    assert forall|v: int|
                        #![trigger levels@[v]]
                        0 <= v < self.leaving@.len() && layers[v] != UNREACHED && levels@[v]
                            == UNREACHED implies next@[v] == self.leaving@[v]@.len() by {
                        if v != u {
                            assert(levels_before[v] == UNREACHED);
                        }
                    }
                    assert(searching(*self, layers, levels@, next@, sink as int));
                }
                if path.len() == 0 {
                    return None;
                }
                let ghost path_before = path@;
                let last: usize = path.len() - 1;
                let k: usize = path[last];
                assert(self.leaving@[self.arcs@[k as int].from as int]@[next@[self.arcs@[k as int].from as int] as int]
                    == path@[last as int]);
                path.pop();
                proof {
                    assert(path_before[last as int] == k);
                    assert forall|i: int| 0 <= i < path@.len() implies path@[i]
                        == #[trigger] path_before[i] by {}
                    assert(self.arcs@[k as int].from != u);
                    assert forall|i: int| 0 <= i < path@.len() implies self.arcs@[#[trigger] path@[i] as int].from
                        != u && self.arcs@[path@[i] as int].from != self.arcs@[k as int].from by {
                        assert(path@[i] == path_before[i]);
                    }
                }
                u = self.arcs[k].from;
                let at: usize = next[u];
                let listed: usize = self.leaving[u].len();
                assert(at < listed);
                let ghost next_before = next@;
                proof {
                    lemma_arcs_ahead(self.leaving@, next@, u as int, self.leaving@.len());
                }
                next.set(u, at + 1);
                proof {
                    assert(next@ =~= next_before.update(u as int, (at + 1) as usize));
                    assert forall|v: int| 0 <= v < self.leaving@.len() implies next@[v]
                        <= #[trigger] self.leaving@[v]@.len() by {
                        assert(next_before[v] <= self.leaving@[v]@.len());
                    }
                    lemma_arcs_ahead_bound(self.leaving@, next@, self.leaving@.len());
                    assert(levels@[self.arcs@[k as int].to as int] == UNREACHED);
                    assert forall|v: int, i: int|
                        #![trigger self.leaving@[v]@[i]]
                        0 <= v < self.leaving@.len() && layers[v] != UNREACHED && 0 <= i < next@[v] implies passed(
                        self.arcs@[self.leaving@[v]@[i] as int],
                        layers,
                        levels@,
                    ) by {
                        if v == u && i == at {
                            assert(self.leaving@[v]@[i] == k);
                        } else {
                            assert(i < next_before[v]);
                        }
                    }
                    assert(climbs(self.arcs@, layers, path@, source as int, u as int)) by {
                        if path@.len() > 0 {
                            assert(path_before[last as int] == k);
                            assert(path@[0] == path_before[0]);
                            assert(path@[path@.len() - 1] == path_before[last - 1]);
                            assert(linked(self.arcs@, path_before, last as int));
                        }
                        assert forall|i: int| 0 < i < path@.len() implies #[trigger] linked(
                            self.arcs@,
                            path@,
                            i,
                        ) by {
                            assert(linked(self.arcs@, path_before, i));
                        }
                    }
                }
            }
        }
        Some(path)
    }

    /// Moves `flow` units along one arc.
    fn push(&mut self, k: usize, flow: i64)
        requires
            old(self).well_formed(),
            k < old(self).arcs@.len(),
            0 < flow <= old(self).arcs@[k as int].capacity,
        ensures
            final(self).well_formed(),
            final(self).leaving@ == old(self).leaving@,
            same_ends(old(self).arcs@, final(self).arcs@),
            final(self).arcs@[k as int].capacity == old(self).arcs@[k as int].capacity - flow,
            forall|q: int|
                #![trigger final(self).arcs@[q]]
                0 <= q < old(self).arcs@.len() && q != k && q != old(self).arcs@[k as int].reverse
                    ==> final(self).arcs@[q] == old(self).arcs@[q],
            forall|side: Seq<bool>|
                #![trigger cut_value(final(self).arcs@, side)]
                cut_value(final(self).arcs@, side) == cut_value(old(self).arcs@, side) + (
                if side[old(self).arcs@[k as int].to as int] {
                    flow as int
                } else {
                    0
                }) - (if side[old(self).arcs@[k as int].from as int] {
                    flow as int
                } else {
                    0
                }),
    {
        let arc = self.arcs[k];
        let twin = self.arcs[arc.reverse];
        let ghost before = self.arcs@;
        assert(paired(before, k as int));
        let less = Arc {
            from: arc.from,
            to: arc.to,
            reverse: arc.reverse,
            slot: arc.slot,
            capacity: arc.capacity - flow,
        };
        let more = Arc {
            from: twin.from,
            to: twin.to,
            reverse: twin.reverse,
            slot: twin.slot,
            capacity: twin.capacity + flow,
        };
        self.arcs.set(k, less);
        self.arcs.set(arc.reverse, more);
        proof {
            let r = arc.reverse as int;
            assert(paired(before, k as int));
            assert(paired(before, r));
            assert forall|side: Seq<bool>|
                #![trigger cut_value(self.arcs@, side)]
                cut_value(self.arcs@, side) == cut_value(before, side) + (if side[arc.to as int] {
                    flow as int
                } else {
                    0
                }) - (if side[arc.from as int] {
                    flow as int
                } else {
                    0
                }) by {
                lemma_cut_update(before, k as int, less, side);
                lemma_cut_update(before.update(k as int, less), r, more, side);
            }
            assert forall|q: int|
                #![trigger self.arcs@[q]]
                0 <= q < self.arcs@.len() implies {
                let at = self.arcs@[q];
                &&& at.from == before[q].from
                &&& at.to == before[q].to
                &&& at.reverse == before[q].reverse
                &&& at.slot == before[q].slot
                &&& at.capacity >= 0
            } by {}
            assert forall|q: int| 0 <= q < self.arcs@.len() implies #[trigger] paired(
                self.arcs@,
                q,
            ) by {
                assert(paired(before, q));
            }
            assert forall|q: int| 0 <= q < self.arcs@.len() implies #[trigger] listed(
                self.arcs@,
                self.leaving@,
                q,
            ) by {
                assert(listed(before, self.leaving@, q));
            }
            assert(same_ends(before, self.arcs@));
        }
    }

    /// Moves `flow` units along `path`.
    #[verifier::spinoff_prover]
    fn augment(
        &mut self,
        path: &Vec<usize>,
        flow: i64,
        source: usize,
        sink: usize,
        Ghost(layers): Ghost<Seq<usize>>,
    )
        requires
            old(self).well_formed(),
            layers.len() == old(self).leaving@.len(),
            source < layers.len(),
            sink < layers.len(),
            climbs(old(self).arcs@, layers, path@, source as int, sink as int),
            path@.len() > 0,
            flow > 0,
            forall|i: int|
                #![trigger path@[i]]
                0 <= i < path@.len() ==> old(self).arcs@[path@[i] as int].capacity >= flow,
        ensures
            final(self).well_formed(),
            final(self).leaving@ == old(self).leaving@,
            same_ends(old(self).arcs@, final(self).arcs@),
            forall|k: int|
                #![trigger final(self).arcs@[k]]
                0 <= k < old(self).arcs@.len() && layers[old(self).arcs@[k].to as int]
                    == layers[old(self).arcs@[k].from as int] + 1 ==> final(self).arcs@[k].capacity
                    <= old(self).arcs@[k].capacity,
            forall|side: Seq<bool>|
                #![trigger cut_value(final(self).arcs@, side)]
                side[source as int] && !side[sink as int] ==> cut_value(final(self).arcs@, side)
                    == cut_value(old(self).arcs@, side) - flow,
    {
        let ghost start = *self;
        let ghost mut end: int = source as int;
        let mut i: usize = 0;
        while i < path.len()
            invariant
                i <= path@.len(),
                self.well_formed(),
                self.leaving@ == start.leaving@,
                layers.len() == start.leaving@.len(),
                source < layers.len(),
                same_ends(start.arcs@, self.arcs@),
                climbs(start.arcs@, layers, path@, source as int, sink as int),
                flow > 0,
                forall|j: int|
                    #![trigger path@[j]]
                    0 <= j < path@.len() ==> start.arcs@[path@[j] as int].capacity >= flow,
                0 <= end < layers.len(),
                i == 0 ==> end == source,
                i > 0 ==> end == start.arcs@[path@[i - 1] as int].to,
                forall|j: int|
                    #![trigger path@[j]]
                    i <= j < path@.len() ==> self.arcs@[path@[j] as int].capacity
                        == start.arcs@[path@[j] as int].capacity,
                forall|k: int|
                    #![trigger self.arcs@[k]]
                    0 <= k < start.arcs@.len() && layers[start.arcs@[k].to as int]
                        == layers[start.arcs@[k].from as int] + 1 ==> self.arcs@[k].capacity
                        <= start.arcs@[k].capacity,
                forall|side: Seq<bool>|
                    #![trigger cut_value(self.arcs@, side)]
                    side[source as int] ==> cut_value(self.arcs@, side) == cut_value(
                        start.arcs@,
                        side,
                    ) - if side[end] {
                        0int
                    } else {
                        flow as int
                    },
            decreases path@.len() - i,
        {
            let k: usize = path[i];
            let ghost arc = start.arcs@[k as int];
            let ghost before = self.arcs@;
            assert(self.arcs@[k as int].capacity == arc.capacity);
            self.push(k, flow);
            proof {
                assert(before[k as int].from == arc.from);
                assert(end == arc.from) by {
                    if i == 0 {
                        assert(path@[0] == k);
                    } else {
                        assert(linked(start.arcs@, path@, i as int));
                    }
                }
                assert(layers[arc.from as int] == i && layers[arc.to as int] == i + 1);
                assert(paired(before, k as int));
                assert(before[arc.reverse as int].from == arc.to);
                assert(before[arc.reverse as int].to == arc.from);
                assert forall|side: Seq<bool>|
                    #![trigger cut_value(self.arcs@, side)]
                    side[source as int] implies cut_value(self.arcs@, side) == cut_value(
                    start.arcs@,
                    side,
                ) - if side[arc.to as int] {
                    0int
                } else {
                    flow as int
                } by {
                    assert(cut_value(before, side) == cut_value(start.arcs@, side) - if side[end] {
                        0int
                    } else {
                        flow as int
                    });
                }
                assert forall|j: int|
                    #![trigger path@[j]]
                    i < j < path@.len() implies self.arcs@[path@[j] as int].capacity
                    == start.arcs@[path@[j] as int].capacity by {
                    assert(layers[start.arcs@[path@[j] as int].from as int] == j);
                    assert(layers[start.arcs@[path@[j] as int].to as int] == j + 1);
                    assert(before[arc.reverse as int].from == arc.to);
                }
                assert forall|q: int|
                    #![trigger self.arcs@[q]]
                    0 <= q < start.arcs@.len() && layers[start.arcs@[q].to as int]
                        == layers[start.arcs@[q].from as int] + 1 implies self.arcs@[q].capacity
                    <= start.arcs@[q].capacity by {
                    assert(before[q].capacity <= start.arcs@[q].capacity);
                    if q == arc.reverse {
                        assert(before[q].from == arc.to);
                        assert(before[q].to == arc.from);
                    }
                }
                end = arc.to as int;
            }
            i += 1;
        }
        assert(path@[path@.len() - 1] == path@[i - 1]);
        assert(end == sink);
    }

    /// The source side of the smallest minimum cut between `source` and `sink`.
    pub fn source_side(self, source: usize, sink: usize) -> (side: Vec<bool>)
        requires
            self.well_formed(),
            source < self.leaving@.len(),
            sink < self.leaving@.len(),
            source != sink,
        ensures
            is_smallest_minimum_cut(
                self.arcs@,
                side@,
                self.leaving@.len() as int,
                source as int,
                sink as int,
            ),
    {
        let mut rest: Graph = self;
        let ghost arcs = self.arcs@;
        let nodes: usize = rest.leaving.len();
        let ghost mut moved: int = 0;
        let ghost alone = Seq::new(nodes as nat, |v: int| v == source);
        loop
            invariant
                nodes == rest.leaving@.len(),
                nodes == self.leaving@.len(),
                arcs == self.arcs@,
                source < nodes,
                sink < nodes,
                source != sink,
                separates(alone, nodes as int, source as int, sink as int),
                rest.well_formed(),
                forall|side: Seq<bool>|
                    #![trigger cut_value(arcs, side)]
                    #![trigger cut_value(rest.arcs@, side)]
                    separates(side, nodes as int, source as int, sink as int) ==> cut_value(
                        arcs,
                        side,
                    ) == cut_value(rest.arcs@, side) + moved,
            decreases cut_value(arcs, alone) - moved,
        {
            let mut levels: Vec<usize> = rest.levels(source);
            let ghost layers = levels@;
            let ghost moved_before = moved;
            if levels[sink] == UNREACHED {
                let mut side: Vec<bool> = Vec::new();
                let mut v: usize = 0;
                while v < nodes
                    invariant
                        v <= nodes,
                        nodes == levels@.len(),
                        side@.len() == v,
                        forall|w: int|
                            #![trigger side@[w]]
                            0 <= w < v ==> side@[w] == (levels@[w] != UNREACHED),
                    decreases nodes - v,
                {
                    side.push(levels[v] != UNREACHED);
                    v += 1;
                }
                proof {
                    lemma_cut_bounds(rest.arcs@, side@);
                    assert(closed_side(rest.arcs@, side@));
                    assert(separates(side@, nodes as int, source as int, sink as int));
                    assert forall|other: Seq<bool>|
                        #![trigger cut_value(arcs, other)]
                        separates(other, nodes as int, source as int, sink as int) implies cut_value(
                        arcs,
                        side@,
                    ) <= cut_value(arcs, other) by {
                        lemma_cut_bounds(rest.arcs@, other);
                    }
                    assert forall|other: Seq<bool>|
                        #![trigger cut_value(arcs, other)]
                        separates(other, nodes as int, source as int, sink as int) && cut_value(
                            arcs,
                            other,
                        ) <= cut_value(arcs, side@) implies side_within(side@, other) by {
                        lemma_cut_bounds(rest.arcs@, other);
                        assert(closed_side(rest.arcs@, other));
                        assert forall|v: int| 0 <= v < side@.len() && #[trigger] side@[v] implies other[v] by {
                            assert(levels@[v] != UNREACHED);
                        }
                    }
                }
                return side;
            }
            let mut next: Vec<usize> = Vec::new();
            let mut v: usize = 0;
            while v < nodes
                invariant
                    v <= nodes,
                    next@.len() == v,
                    forall|w: int| #![trigger next@[w]] 0 <= w < v ==> next@[w] == 0,
                decreases nodes - v,
            {
                next.push(0);
                v += 1;
            }
            let mut found: Option<Vec<usize>> = rest.find_path(
                &mut levels,
                &mut next,
                source,
                sink,
                Ghost(layers),
            );
            proof {
                lemma_source_is_live(
                    rest,
                    layers,
                    levels@,
                    next@,
                    source as int,
                    sink as int,
                    sink as int,
                );
            }
            let mut searching_on: bool = true;
            while searching_on
                invariant
                    nodes == rest.leaving@.len(),
                    source < nodes,
                    sink < nodes,
                    source != sink,
                    separates(alone, nodes as int, source as int, sink as int),
                    layers[source as int] == 0,
                    searching(rest, layers, levels@, next@, sink as int),
                    forall|side: Seq<bool>|
                        #![trigger cut_value(arcs, side)]
                        #![trigger cut_value(rest.arcs@, side)]
                        separates(side, nodes as int, source as int, sink as int) ==> cut_value(
                            arcs,
                            side,
                        ) == cut_value(rest.arcs@, side) + moved,
                    moved >= moved_before,
                    searching_on ==> (found is Some || moved > moved_before),
                    !searching_on ==> moved > moved_before,
                    match found {
                        Some(path) => levels@[source as int] == 0 && path@.len() > 0 && climbs(
                            rest.arcs@,
                            layers,
                            path@,
                            source as int,
                            sink as int,
                        ),
                        None => true,
                    },
                decreases cut_value(arcs, alone) - moved, searching_on as int,
            {
                match found {
                    None => {
                        searching_on = false;
                        found = None;
                    },
                    Some(path) => {
                        let flow: i64 = rest.bottleneck(&path);
                        let ghost before = rest;
                        rest.augment(&path, flow, source, sink, Ghost(layers));
                        proof {
                            moved = moved + flow;
                            lemma_cut_bounds(rest.arcs@, alone);
                            assert(cut_value(arcs, alone) == cut_value(rest.arcs@, alone) + moved);
                            assert forall|v: int, i: int|
                                #![trigger rest.leaving@[v]@[i]]
                                0 <= v < nodes && layers[v] != UNREACHED && 0 <= i < next@[v] implies passed(
                                rest.arcs@[rest.leaving@[v]@[i] as int],
                                layers,
                                levels@,
                            ) by {
                                let k = before.leaving@[v]@[i] as int;
                                assert(passed(before.arcs@[k], layers, levels@));
                                assert(rest.arcs@[k].capacity >= 0);
                            }
                        }
                        found = rest.find_path(&mut levels, &mut next, source, sink, Ghost(layers));
                    },
                }
            }
            proof {
                lemma_cut_bounds(rest.arcs@, alone);
                assert(cut_value(arcs, alone) == cut_value(rest.arcs@, alone) + moved);
            }
        }
    }

    /// The least capacity on `path`.
    fn bottleneck(&self, path: &Vec<usize>) -> (flow: i64)
        requires
            path@.len() > 0,
            forall|i: int|
                #![trigger path@[i]]
                0 <= i < path@.len() ==> path@[i] < self.arcs@.len()
                    && self.arcs@[path@[i] as int].capacity > 0,
        ensures
            flow > 0,
            forall|i: int|
                #![trigger path@[i]]
                0 <= i < path@.len() ==> self.arcs@[path@[i] as int].capacity >= flow,
            exists|i: int|
                #![trigger path@[i]]
                0 <= i < path@.len() && self.arcs@[path@[i] as int].capacity == flow,
    {
        let mut flow: i64 = self.arcs[path[0]].capacity;
        let mut i: usize = 1;
        while i < path.len()
            invariant
                1 <= i <= path@.len(),
                flow > 0,
                forall|j: int|
                    #![trigger path@[j]]
                    0 <= j < path@.len() ==> path@[j] < self.arcs@.len()
                        && self.arcs@[path@[j] as int].capacity > 0,
                forall|j: int|
                    #![trigger path@[j]]
                    0 <= j < i ==> self.arcs@[path@[j] as int].capacity >= flow,
                exists|j: int|
                    #![trigger path@[j]]
                    0 <= j < i && self.arcs@[path@[j] as int].capacity == flow,
            decreases path@.len() - i,
        {
            let capacity: i64 = self.arcs[path[i]].capacity;
            if capacity < flow {
                flow = capacity;
            }
            i += 1;
        }
        flow
    }
}

/// Cost of leaving a cell with the base source.
pub open spec fn base_cost(preference: i64, fixed: i8) -> int {
    if fixed == 1 {
        OWNERSHIP_SEED_COST as int
    } else if fixed == -1 {
        0
    } else if preference > 0 {
        preference as int
    } else {
        0
    }
}

/// Cost of giving a cell to the candidate source.
pub open spec fn candidate_cost(preference: i64, fixed: i8) -> int {
    if fixed == 1 {
        0
    } else if fixed == -1 {
        OWNERSHIP_SEED_COST as int
    } else if preference < 0 {
        -preference
    } else {
        0
    }
}

/// Cost of a pair of neighbours that belong to different sources.
pub open spec fn pair_cost(first: i64, second: i64) -> int {
    OWNERSHIP_PAIRWISE_BASE + (first + second) * OWNERSHIP_PAIRWISE_DISAGREEMENT_WEIGHT
}

pub open spec fn has_right(width: int, i: int) -> bool {
    i % width + 1 < width
}

pub open spec fn has_below(width: int, height: int, i: int) -> bool {
    i / width + 1 < height
}

/// What cell `i` adds to the cost of a labelling: its own cost and the pairs
/// with its right and lower neighbour. A label is true for the candidate.
pub open spec fn cell_energy(
    width: int,
    height: int,
    preference: Seq<i64>,
    disagreement: Seq<i64>,
    fixed: Seq<i8>,
    labels: Seq<bool>,
    i: int,
) -> int {
    (if labels[i] {
        candidate_cost(preference[i], fixed[i])
    } else {
        base_cost(preference[i], fixed[i])
    }) + (if has_right(width, i) && labels[i] != labels[i + 1] {
        pair_cost(disagreement[i], disagreement[i + 1])
    } else {
        0
    }) + (if has_below(width, height, i) && labels[i] != labels[i + width] {
        pair_cost(disagreement[i], disagreement[i + width])
    } else {
        0
    })
}

/// The cost of the first `cells` cells of a labelling.
pub open spec fn grid_energy(
    width: int,
    height: int,
    preference: Seq<i64>,
    disagreement: Seq<i64>,
    fixed: Seq<i8>,
    labels: Seq<bool>,
    cells: nat,
) -> int
    decreases cells,
{
    if cells == 0 {
        0
    } else {
        grid_energy(width, height, preference, disagreement, fixed, labels, (cells - 1) as nat)
            + cell_energy(width, height, preference, disagreement, fixed, labels, cells - 1)
    }
}

/// The labelling that a mask of 0 and 255 stands for.
pub open spec fn mask_labels(mask: Seq<u8>) -> Seq<bool> {
    Seq::new(mask.len(), |i: int| mask[i] > 0)
}

/// No labelling costs less.
pub open spec fn is_cheapest(
    width: int,
    height: int,
    preference: Seq<i64>,
    disagreement: Seq<i64>,
    fixed: Seq<i8>,
    labels: Seq<bool>,
) -> bool {
    forall|other: Seq<bool>|
        #![trigger grid_energy(width, height, preference, disagreement, fixed, other, labels.len())]
        other.len() == labels.len() ==> grid_energy(
            width,
            height,
            preference,
            disagreement,
            fixed,
            labels,
            labels.len(),
        ) <= grid_energy(width, height, preference, disagreement, fixed, other, labels.len())
}

proof fn lemma_energy_of_labels(
    width: int,
    height: int,
    preference: Seq<i64>,
    disagreement: Seq<i64>,
    fixed: Seq<i8>,
    first: Seq<bool>,
    second: Seq<bool>,
    cells: nat,
)
    requires
        0 < width || cells == 0,
        cells <= width * height,
        forall|i: int| 0 <= i < width * height ==> first[i] == second[i],
    ensures
        grid_energy(width, height, preference, disagreement, fixed, first, cells) == grid_energy(
            width,
            height,
            preference,
            disagreement,
            fixed,
            second,
            cells,
        ),
    decreases cells,
{
    if cells > 0 {
        let i = cells - 1;
        lemma_energy_of_labels(
            width,
            height,
            preference,
            disagreement,
            fixed,
            first,
            second,
            i as nat,
        );
        lemma_neighbours(width, height, i);
    }
}

/// The right and lower neighbour of a cell are cells of the grid.
proof fn lemma_neighbours(width: int, height: int, i: int)
    requires
        0 < width,
        0 <= i < width * height,
    ensures
        has_right(width, i) ==> i + 1 < width * height,
        has_below(width, height, i) ==> i + width < width * height,
{
    lemma_split(width, height, i);
    let q = i / width;
    let r = i % width;
    if has_right(width, i) {
        assert(q * width + r + 1 < width * height) by (nonlinear_arith)
            requires
                q < height,
                r + 1 < width,
                0 < width,
        ;
    }
    if has_below(width, height, i) {
        assert(q * width + r + width < width * height) by (nonlinear_arith)
            requires
                q + 1 < height,
                r < width,
                0 < width,
        ;
    }
}

/// Chooses for every cell of a grid the source that owns it: 255 for the
/// candidate, 0 for the base.
///
/// A positive preference is the cost of not taking the candidate, a negative one
/// the cost of taking it. A cell of `fixed` with the value 1 is seeded for the
/// candidate, one with the value -1 for the base. The labelling has the least
/// cost; among those of least cost it gives the fewest cells to the candidate.
pub fn cut_grid(
    width: usize,
    height: usize,
    preference: &Vec<i64>,
    disagreement: &Vec<i64>,
    fixed: &Vec<i8>,
) -> (mask: Vec<u8>)
    requires
        preference@.len() == width * height,
        disagreement@.len() == width * height,
        fixed@.len() == width * height,
        width * height * 8 + 8 <= usize::MAX,
        forall|i: int| 0 <= i < preference@.len() ==> #[trigger] preference@[i] > i64::MIN,
        forall|i: int|
            0 <= i < disagreement@.len() ==> 0 <= #[trigger] disagreement@[i] <= MAX_DISAGREEMENT,
    ensures
        mask@.len() == width * height,
        forall|i: int| 0 <= i < mask@.len() ==> #[trigger] mask@[i] == 0 || mask@[i] == 255,
        is_cheapest(
            width as int,
            height as int,
            preference@,
            disagreement@,
            fixed@,
            mask_labels(mask@),
        ),
        forall|other: Seq<bool>|
            #![trigger is_cheapest(width as int, height as int, preference@, disagreement@, fixed@, other)]
            other.len() == mask@.len() && is_cheapest(
                width as int,
                height as int,
                preference@,
                disagreement@,
                fixed@,
                other,
            ) ==> side_within(mask_labels(mask@), other),
{
    let count: usize = preference.len();
    let source: usize = count;
    let sink: usize = count + 1;
    let mut graph: Graph = Graph::with_nodes(count + 2);
    let ghost w = width as int;
    let ghost h = height as int;
    let mut i: usize = 0;
    while i < count
        invariant
            i <= count,
            count == width * height,
            w == width,
            h == height,
            source == count,
            sink == count + 1,
            count * 8 + 8 <= usize::MAX,
            preference@.len() == count,
            disagreement@.len() == count,
            fixed@.len() == count,
            forall|j: int| 0 <= j < preference@.len() ==> #[trigger] preference@[j] > i64::MIN,
            forall|j: int|
                0 <= j < disagreement@.len() ==> 0 <= #[trigger] disagreement@[j]
                    <= MAX_DISAGREEMENT,
            graph.well_formed(),
            graph.leaving@.len() == count + 2,
            graph.arcs@.len() <= 8 * i,
            forall|side: Seq<bool>|
                #![trigger cut_value(graph.arcs@, side)]
                separates(side, count + 2, source as int, sink as int) ==> cut_value(
                    graph.arcs@,
                    side,
                ) == grid_energy(w, h, preference@, disagreement@, fixed@, side, i as nat),
        decreases count - i,
    {
        let ghost start = graph.arcs@;
        proof {
            assert(w > 0) by (nonlinear_arith)
                requires
                    0 < w * h,
                    w >= 0,
                    h >= 0,
            ;
            lemma_split(w, h, i as int);
            lemma_neighbours(w, h, i as int);
        }
        let label: i8 = fixed[i];
        let wish: i64 = preference[i];
        assert(wish > i64::MIN);
        let keep: i64 = if label == 1 {
            OWNERSHIP_SEED_COST
        } else if label == -1 {
            0
        } else if wish > 0 {
            wish
        } else {
            0
        };
        let take: i64 = if label == 1 {
            0
        } else if label == -1 {
            OWNERSHIP_SEED_COST
        } else if wish < 0 {
            -wish
        } else {
            0
        };
        graph.connect(source, i, keep, 0);
        graph.connect(i, sink, take, 0);
        let ghost unary = graph.arcs@;
        let x: usize = i % width;
        let y: usize = i / width;
        assert(disagreement@[i as int] <= MAX_DISAGREEMENT);
        if x + 1 < width {
            assert(disagreement@[i + 1] <= MAX_DISAGREEMENT);
            let weight: i64 = OWNERSHIP_PAIRWISE_BASE + (disagreement[i] + disagreement[i + 1])
                * OWNERSHIP_PAIRWISE_DISAGREEMENT_WEIGHT;
            graph.connect(i, i + 1, weight, weight);
        }
        let ghost right = graph.arcs@;
        if y + 1 < height {
            assert(disagreement@[i + width] <= MAX_DISAGREEMENT);
            let weight: i64 = OWNERSHIP_PAIRWISE_BASE + (disagreement[i] + disagreement[i + width])
                * OWNERSHIP_PAIRWISE_DISAGREEMENT_WEIGHT;
            graph.connect(i, i + width, weight, weight);
        }
        proof {
            assert forall|side: Seq<bool>|
                #![trigger cut_value(graph.arcs@, side)]
                separates(side, count + 2, source as int, sink as int) implies cut_value(
                graph.arcs@,
                side,
            ) == grid_energy(w, h, preference@, disagreement@, fixed@, side, (i + 1) as nat) by {
                assert(cut_value(unary, side) == cut_value(start, side) + if side[i as int] {
                    take as int
                } else {
                    keep as int
                });
                assert(cut_value(right, side) == cut_value(unary, side) + if has_right(w, i as int)
                    && side[i as int] != side[i + 1] {
                    pair_cost(disagreement@[i as int], disagreement@[i + 1])
                } else {
                    0
                });
            }
        }
        i += 1;
    }
    let ghost arcs = graph.arcs@;
    let side: Vec<bool> = graph.source_side(source, sink);
    let mut mask: Vec<u8> = Vec::new();
    let mut cell: usize = 0;
    while cell < count
        invariant
            cell <= count,
            side@.len() == count + 2,
            mask@.len() == cell,
            forall|j: int|
                #![trigger mask@[j]]
                0 <= j < cell ==> mask@[j] == if side@[j] {
                    255u8
                } else {
                    0u8
                },
        decreases count - cell,
    {
        mask.push(
            if side[cell] {
                255
            } else {
                0
            },
        );
        cell += 1;
    }
    proof {
        let labels = mask_labels(mask@);
        let n = count as nat;
        assert(0 < w || w * h == 0) by (nonlinear_arith)
            requires
                w >= 0,
        ;
        lemma_energy_of_labels(w, h, preference@, disagreement@, fixed@, labels, side@, n);
        assert forall|other: Seq<bool>|
            #![trigger grid_energy(w, h, preference@, disagreement@, fixed@, other, labels.len())]
            other.len() == labels.len() implies grid_energy(
            w,
            h,
            preference@,
            disagreement@,
            fixed@,
            labels,
            n,
        ) <= grid_energy(w, h, preference@, disagreement@, fixed@, other, n) by {
            let full = other.push(true).push(false);
            assert(separates(full, count + 2, source as int, sink as int));
            lemma_energy_of_labels(w, h, preference@, disagreement@, fixed@, full, other, n);
            assert(cut_value(arcs, side@) <= cut_value(arcs, full));
        }
        assert forall|other: Seq<bool>|
            #![trigger is_cheapest(w, h, preference@, disagreement@, fixed@, other)]
            other.len() == mask@.len() && is_cheapest(
                w,
                h,
                preference@,
                disagreement@,
                fixed@,
                other,
            ) implies side_within(labels, other) by {
            let full = other.push(true).push(false);
            assert(separates(full, count + 2, source as int, sink as int));
            lemma_energy_of_labels(w, h, preference@, disagreement@, fixed@, full, other, n);
            assert(grid_energy(w, h, preference@, disagreement@, fixed@, other, n) <= grid_energy(
                w,
                h,
                preference@,
                disagreement@,
                fixed@,
                labels,
                n,
            ));
            assert(cut_value(arcs, full) <= cut_value(arcs, side@));
            assert(side_within(side@, full));
            assert forall|v: int| 0 <= v < labels.len() && #[trigger] labels[v] implies other[v] by {
                assert(side@[v]);
                assert(full[v] == other[v]);
            }
        }
    }
    mask
}

/// The cost of all pairs that cell `i` belongs to.
pub open spec fn incident_cost(
    width: int,
    height: int,
    disagreement: Seq<i64>,
    i: int,
    cells: int,
) -> int {
    (if i < cells && has_right(width, i) {
        pair_cost(disagreement[i], disagreement[i + 1])
    } else {
        0
    }) + (if i < cells && has_below(width, height, i) {
        pair_cost(disagreement[i], disagreement[i + width])
    } else {
        0
    }) + (if 0 < i <= cells && has_right(width, i - 1) {
        pair_cost(disagreement[i - 1], disagreement[i])
    } else {
        0
    }) + (if width <= i < cells + width && has_below(width, height, i - width) {
        pair_cost(disagreement[i - width], disagreement[i])
    } else {
        0
    })
}

proof fn lemma_flip(
    width: int,
    height: int,
    preference: Seq<i64>,
    disagreement: Seq<i64>,
    fixed: Seq<i8>,
    labels: Seq<bool>,
    i: int,
    cells: nat,
)
    requires
        0 < width,
        labels.len() == width * height,
        disagreement.len() == width * height,
        0 <= i < labels.len(),
        cells <= labels.len(),
        forall|j: int| 0 <= j < disagreement.len() ==> 0 <= #[trigger] disagreement[j],
    ensures
        grid_energy(
            width,
            height,
            preference,
            disagreement,
            fixed,
            labels.update(i, !labels[i]),
            cells,
        ) <= grid_energy(width, height, preference, disagreement, fixed, labels, cells)
            + incident_cost(width, height, disagreement, i, cells as int) + if i < cells {
            if labels[i] {
                base_cost(preference[i], fixed[i]) - candidate_cost(preference[i], fixed[i])
            } else {
                candidate_cost(preference[i], fixed[i]) - base_cost(preference[i], fixed[i])
            }
        } else {
            0
        },
    decreases cells,
{
    if cells > 0 {
        let j = cells - 1;
        lemma_flip(
            width,
            height,
            preference,
            disagreement,
            fixed,
            labels,
            i,
            j as nat,
        );
        lemma_neighbours(width, height, j);
        lemma_neighbours(width, height, i);
        if i > 0 {
            lemma_neighbours(width, height, i - 1);
        }
        if i >= width {
            lemma_neighbours(width, height, i - width);
        }
        assert(disagreement[i] >= 0);
        assert(disagreement[j] >= 0);
        if has_right(width, j) {
            assert(disagreement[j + 1] >= 0);
        }
        if has_below(width, height, j) {
            assert(disagreement[j + width] >= 0);
        }
    }
}

/// A seeded cell keeps its source in every labelling of least cost, as long as
/// its pairs together cost less than a seed.
pub proof fn law_seeds_are_obeyed(
    width: int,
    height: int,
    preference: Seq<i64>,
    disagreement: Seq<i64>,
    fixed: Seq<i8>,
    labels: Seq<bool>,
    i: int,
)
    requires
        0 < width,
        labels.len() == width * height,
        preference.len() == width * height,
        disagreement.len() == width * height,
        fixed.len() == width * height,
        forall|j: int| 0 <= j < disagreement.len() ==> 0 <= #[trigger] disagreement[j],
        is_cheapest(width, height, preference, disagreement, fixed, labels),
        0 <= i < labels.len(),
        fixed[i] == 1 || fixed[i] == -1,
        incident_cost(width, height, disagreement, i, labels.len() as int) < 1_000_000_000_000_000,
    ensures
        labels[i] == (fixed[i] == 1),
{
    if labels[i] != (fixed[i] == 1) {
        let flipped = labels.update(i, !labels[i]);
        lemma_flip(
            width,
            height,
            preference,
            disagreement,
            fixed,
            labels,
            i,
            labels.len(),
        );
        assert(flipped.len() == labels.len());
        assert(grid_energy(
            width,
            height,
            preference,
            disagreement,
            fixed,
            labels,
            labels.len(),
        ) <= grid_energy(
            width,
            height,
            preference,
            disagreement,
            fixed,
            flipped,
            labels.len(),
        ));
    }
}

/// What a cell adds to the price of all boundaries of a labelling: for each of its right and
/// lower neighbours with the other label, 0.35 and twelve times what the two disagree.
pub open spec fn boundary_price(
    width: int,
    height: int,
    disagreement: spec_fn(int) -> int,
    labels: Seq<bool>,
) -> spec_fn(int) -> int {
    |i: int|
        (if i % width + 1 < width && labels[i] != labels[i + 1] {
            350_000_000 + 12 * (disagreement(i) + disagreement(i + 1))
        } else {
            0
        }) + (if i / width + 1 < height && labels[i] != labels[i + width] {
            350_000_000 + 12 * (disagreement(i) + disagreement(i + width))
        } else {
            0
        })
}

/// What a cell adds to the votes that a labelling wins: its vote if it goes to the candidate.
pub open spec fn won_votes(votes: spec_fn(int) -> int, labels: Seq<bool>) -> spec_fn(int) -> int {
    |i: int|
        if labels[i] {
            votes(i)
        } else {
            0
        }
}

/// The cut pays as little as it can for its boundaries and wins as much as it can for it: no
/// labelling that respects the seeds has a smaller price of its boundaries less the votes of
/// the contested cells that it gives to the candidate. Of those with the same balance, it gives
/// the candidate no cell that another does not.
pub proof fn law_boundaries_run_where_they_cost_least(
    width: int,
    height: int,
    preference: Seq<i64>,
    disagreement: Seq<i64>,
    fixed: Seq<i8>,
    labels: Seq<bool>,
    other: Seq<bool>,
)
    requires
        0 < width,
        labels.len() == width * height,
        other.len() == labels.len(),
        is_cheapest(width, height, preference, disagreement, fixed, labels),
        forall|i: int|
            #![trigger fixed[i]]
            0 <= i < labels.len() && fixed[i] == 1 ==> labels[i] && other[i],
        forall|i: int|
            #![trigger fixed[i]]
            0 <= i < labels.len() && fixed[i] == -1 ==> !labels[i] && !other[i],
        forall|i: int|
            #![trigger fixed[i]]
            0 <= i < labels.len() && fixed[i] != 1 && fixed[i] != -1 ==> fixed[i] == 0,
    ensures
        ({
            let cells = labels.len() as int;
            let d = |i: int| disagreement[i] as int;
            let v = |i: int|
                if fixed[i] == 0 {
                    preference[i] as int
                } else {
                    0
                };
            let own = sum_range(boundary_price(width, height, d, labels), 0, cells) - sum_range(
                won_votes(v, labels),
                0,
                cells,
            );
            let others = sum_range(boundary_price(width, height, d, other), 0, cells) - sum_range(
                won_votes(v, other),
                0,
                cells,
            );
            &&& own <= others
            &&& own == others ==> is_cheapest(width, height, preference, disagreement, fixed, other)
        }),
{
    let n = labels.len();
    lemma_balance(width, height, preference, disagreement, fixed, labels, other, n);
    assert(grid_energy(width, height, preference, disagreement, fixed, labels, n) <= grid_energy(
        width,
        height,
        preference,
        disagreement,
        fixed,
        other,
        n,
    ));
}

proof fn lemma_balance(
    width: int,
    height: int,
    preference: Seq<i64>,
    disagreement: Seq<i64>,
    fixed: Seq<i8>,
    labels: Seq<bool>,
    other: Seq<bool>,
    cells: nat,
)
    requires
        0 < width,
        labels.len() == width * height,
        other.len() == labels.len(),
        cells <= labels.len(),
        forall|i: int|
            #![trigger fixed[i]]
            0 <= i < labels.len() && fixed[i] == 1 ==> labels[i] && other[i],
        forall|i: int|
            #![trigger fixed[i]]
            0 <= i < labels.len() && fixed[i] == -1 ==> !labels[i] && !other[i],
        forall|i: int|
            #![trigger fixed[i]]
            0 <= i < labels.len() && fixed[i] != 1 && fixed[i] != -1 ==> fixed[i] == 0,
    ensures
        ({
            let d = |i: int| disagreement[i] as int;
            let v = |i: int|
                if fixed[i] == 0 {
                    preference[i] as int
                } else {
                    0
                };
            grid_energy(width, height, preference, disagreement, fixed, labels, cells)
                - grid_energy(width, height, preference, disagreement, fixed, other, cells)
                == sum_range(boundary_price(width, height, d, labels), 0, cells as int) - sum_range(
                won_votes(v, labels),
                0,
                cells as int,
            ) - sum_range(boundary_price(width, height, d, other), 0, cells as int) + sum_range(
                won_votes(v, other),
                0,
                cells as int,
            )
        }),
    decreases cells,
{
    if cells > 0 {
        let i = cells - 1;
        lemma_balance(
            width,
            height,
            preference,
            disagreement,
            fixed,
            labels,
            other,
            i as nat,
        );
        let d = |i: int| disagreement[i] as int;
        let v = |i: int|
            if fixed[i] == 0 {
                preference[i] as int
            } else {
                0
            };
        let (p, q) = (boundary_price(width, height, d, labels), boundary_price(
            width,
            height,
            d,
            other,
        ));
        let (a, b) = (won_votes(v, labels), won_votes(v, other));
        assert(fixed[i] == 1 || fixed[i] == -1 || fixed[i] == 0);
        assert(cell_energy(width, height, preference, disagreement, fixed, labels, i)
            - cell_energy(width, height, preference, disagreement, fixed, other, i) == p(i) - a(i)
            - q(i) + b(i));
    }
}

/// What an arc adds to a cut: its capacity if it leads out of the side, and otherwise nothing.
pub proof fn law_cuts_pay_for_leaving_arcs(arcs: Seq<Arc>, arc: Arc, side: Seq<bool>)
    ensures
        cut_value(arcs.push(arc), side) == cut_value(arcs, side) + if side[arc.from as int]
            && !side[arc.to as int] {
            arc.capacity as int
        } else {
            0
        },
        cut_value(Seq::empty(), side) == 0,
{
    assert(arcs.push(arc).drop_last() =~= arcs);
}

/// The cut that is found costs no more than any other between source and sink, and of those that
/// cost the least it has no node on its side that another has not.
pub proof fn law_no_cut_costs_less(
    arcs: Seq<Arc>,
    side: Seq<bool>,
    nodes: int,
    source: int,
    sink: int,
    other: Seq<bool>,
    v: int,
)
    requires
        is_smallest_minimum_cut(arcs, side, nodes, source, sink),
        other.len() == nodes,
        other[source],
        !other[sink],
        0 <= v < nodes,
    ensures
        side.len() == nodes,
        side[source],
        !side[sink],
        cut_value(arcs, side) <= cut_value(arcs, other),
        cut_value(arcs, side) == cut_value(arcs, other) && side[v] ==> other[v],
{
    assert(separates(other, nodes, source, sink));
}

/// A mask stands for the labelling whose cells are set where the mask is.
pub proof fn law_masks_stand_for_labels(mask: Seq<u8>, i: int)
    requires
        0 <= i < mask.len(),
    ensures
        mask_labels(mask).len() == mask.len(),
        mask_labels(mask)[i] == (mask[i] != 0),
{
}

} // verus!
