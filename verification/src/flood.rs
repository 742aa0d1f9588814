//! Connected regions of a grid under its four-neighbourhood.

use vstd::prelude::*;

use crate::grid::cell;
use crate::grid::lemma_cell;
use crate::grid::lemma_row_below;
use crate::grid::lemma_split;

verus! {

/// The two cells share an edge.
pub open spec fn adjacent(width: int, height: int, a: int, b: int) -> bool {
    ||| b == a + 1 && a % width + 1 < width
    ||| b == a - 1 && a % width > 0
    ||| b == a + width && a / width + 1 < height
    ||| b == a - width && a / width > 0
}

/// Consecutive cells of the path share an edge.
pub open spec fn is_step(width: int, height: int, path: Seq<int>, k: int) -> bool {
    adjacent(width, height, path[k], path[k + 1])
}

/// A walk from one open cell to the next.
pub open spec fn is_walk(width: int, height: int, open: Seq<bool>, path: Seq<int>) -> bool {
    &&& path.len() > 0
    &&& forall|k: int|
        #![trigger path[k]]
        0 <= k < path.len() ==> 0 <= path[k] < open.len() && open[path[k]]
    &&& forall|k: int|
        0 <= k < path.len() - 1 ==> #[trigger] is_step(width, height, path, k)
}

/// A walk over open cells leads from `from` to `to`.
pub open spec fn reachable(
    width: int,
    height: int,
    open: Seq<bool>,
    from: int,
    to: int,
) -> bool {
    exists|path: Seq<int>| #[trigger]
        is_walk(width, height, open, path) && path[0] == from && path[path.len() - 1] == to
}

proof fn lemma_adjacent(width: int, height: int, a: int, b: int)
    requires
        0 < width,
        0 <= a < width * height,
        adjacent(width, height, a, b),
    ensures
        0 <= b < width * height,
        adjacent(width, height, b, a),
{
    lemma_split(width, height, a);
    let x = a % width;
    let y = a / width;
    let (u, v) = if b == a + 1 && x + 1 < width {
        (x + 1, y)
    } else if b == a - 1 && x > 0 {
        (x - 1, y)
    } else if b == a + width && y + 1 < height {
        (x, y + 1)
    } else {
        (x, y - 1)
    };
    crate::grid::lemma_row_below(width, x, y);
    crate::grid::lemma_cell(width, height, u, v);
    assert(crate::grid::cell(width, u, v) == b);
}

pub proof fn lemma_reach_self(width: int, height: int, open: Seq<bool>, a: int)
    requires
        0 <= a < open.len(),
        open[a],
    ensures
        reachable(width, height, open, a, a),
{
    assert(is_walk(width, height, open, seq![a]));
}

proof fn lemma_reach_step(width: int, height: int, open: Seq<bool>, from: int, a: int, b: int)
    requires
        reachable(width, height, open, from, a),
        adjacent(width, height, a, b),
        0 <= b < open.len(),
        open[b],
    ensures
        reachable(width, height, open, from, b),
{
    let path = choose|path: Seq<int>| #[trigger]
        is_walk(width, height, open, path) && path[0] == from && path[path.len() - 1] == a;
    let longer = path.push(b);
    assert forall|k: int| 0 <= k < longer.len() - 1 implies #[trigger] is_step(
        width,
        height,
        longer,
        k,
    ) by {
        if k < path.len() - 1 {
            assert(is_step(width, height, path, k));
        }
    }
    assert(is_walk(width, height, open, longer));
    assert(longer[0] == from && longer[longer.len() - 1] == b);
}

/// Open cells next to a cell of the region belong to it.
pub open spec fn is_closed_region(
    width: int,
    height: int,
    open: Seq<bool>,
    region: Seq<bool>,
) -> bool {
    &&& region.len() == open.len()
    &&& forall|a: int|
        #![trigger region[a]]
        0 <= a < region.len() && region[a] ==> open[a]
    &&& forall|a: int, b: int|
        #![trigger adjacent(width, height, a, b)]
        0 <= a < region.len() && region[a] && adjacent(width, height, a, b) && 0 <= b < open.len()
            && open[b] ==> region[b]
}

/// What can be reached from a cell of a closed region belongs to the region.
proof fn lemma_region_holds(
    width: int,
    height: int,
    open: Seq<bool>,
    region: Seq<bool>,
    path: Seq<int>,
    k: int,
)
    requires
        is_closed_region(width, height, open, region),
        is_walk(width, height, open, path),
        region[path[0]],
        0 <= k < path.len(),
    ensures
        region[path[k]],
    decreases k,
{
    if k > 0 {
        lemma_region_holds(width, height, open, region, path, k - 1);
        assert(is_step(width, height, path, k - 1));
        assert(adjacent(width, height, path[k - 1], path[k]));
    }
}

pub proof fn lemma_reached_is_inside(
    width: int,
    height: int,
    open: Seq<bool>,
    region: Seq<bool>,
    from: int,
    to: int,
)
    requires
        is_closed_region(width, height, open, region),
        reachable(width, height, open, from, to),
        0 <= from < open.len(),
        region[from],
    ensures
        0 <= to < open.len(),
        region[to],
{
    let path = choose|path: Seq<int>| #[trigger]
        is_walk(width, height, open, path) && path[0] == from && path[path.len() - 1] == to;
    assert(path[path.len() - 1] == to);
    lemma_region_holds(width, height, open, region, path, path.len() - 1);
}

/// The cells that can be reached from one cell form a closed region.
pub proof fn lemma_reachable_is_closed(width: int, height: int, open: Seq<bool>, from: int)
    requires
        0 <= from < open.len(),
    ensures
        is_closed_region(
            width,
            height,
            open,
            Seq::new(open.len(), |j: int| reachable(width, height, open, from, j)),
        ),
{
    let region = Seq::new(open.len(), |j: int| reachable(width, height, open, from, j));
    assert forall|a: int|
        #![trigger region[a]]
        0 <= a < region.len() && region[a] implies open[a] by {
        let path = choose|path: Seq<int>| #[trigger]
            is_walk(width, height, open, path) && path[0] == from && path[path.len() - 1] == a;
        assert(path[path.len() - 1] == a);
    }
    assert forall|a: int, b: int|
        #![trigger adjacent(width, height, a, b)]
        0 <= a < region.len() && region[a] && adjacent(width, height, a, b) && 0 <= b < open.len()
            && open[b] implies region[b] by {
        lemma_reach_step(width, height, open, from, a, b);
    }
}

/// A walk can be taken in the opposite direction.
pub proof fn lemma_reach_back(width: int, height: int, open: Seq<bool>, from: int, to: int)
    requires
        0 < width,
        open.len() == width * height,
        reachable(width, height, open, from, to),
    ensures
        reachable(width, height, open, to, from),
{
    let path = choose|path: Seq<int>| #[trigger]
        is_walk(width, height, open, path) && path[0] == from && path[path.len() - 1] == to;
    let back = path.reverse();
    assert forall|k: int| #![trigger back[k]] 0 <= k < back.len() implies 0 <= back[k] < open.len()
        && open[back[k]] by {
        assert(back[k] == path[path.len() - 1 - k]);
    }
    assert forall|k: int| 0 <= k < back.len() - 1 implies #[trigger] is_step(
        width,
        height,
        back,
        k,
    ) by {
        let j = path.len() - 2 - k;
        assert(is_step(width, height, path, j));
        assert(path[j] < open.len());
        lemma_adjacent(width, height, path[j], path[j + 1]);
    }
    assert(is_walk(width, height, open, back));
    assert(back[0] == to && back[back.len() - 1] == from);
}

/// The number of cells outside of a region.
spec fn outside_count(region: Seq<bool>) -> nat
    decreases region.len(),
{
    if region.len() == 0 {
        0
    } else {
        outside_count(region.drop_last()) + if region.last() {
            0nat
        } else {
            1nat
        }
    }
}

proof fn lemma_outside_update(region: Seq<bool>, i: int)
    requires
        0 <= i < region.len(),
        !region[i],
    ensures
        outside_count(region.update(i, true)) + 1 == outside_count(region),
    decreases region.len(),
{
    let updated = region.update(i, true);
    if i == region.len() - 1 {
        assert(updated.drop_last() =~= region.drop_last());
    } else {
        assert(updated.drop_last() =~= region.drop_last().update(i, true));
        lemma_outside_update(region.drop_last(), i);
    }
}

/// The state of a flood from `start`: `done` cells have been left behind,
/// `pending` ones wait; together they are the cells added to `before`.
spec fn flooding(
    width: int,
    height: int,
    open: Seq<bool>,
    before: Seq<bool>,
    start: int,
    done: Seq<usize>,
    pending: Seq<usize>,
    region: Seq<bool>,
) -> bool {
    let all = done + pending;
    &&& region.len() == open.len()
    &&& all.no_duplicates()
    &&& forall|k: int|
        #![trigger all[k]]
        0 <= k < all.len() ==> {
            &&& all[k] < open.len()
            &&& open[all[k] as int]
            &&& !before[all[k] as int]
            &&& region[all[k] as int]
            &&& reachable(width, height, open, start, all[k] as int)
        }
    &&& forall|v: int|
        #![trigger region[v]]
        0 <= v < region.len() ==> (region[v] <==> before[v] || exists|k: int|
            0 <= k < all.len() && #[trigger] all[k] == v)
    &&& 0 <= start < region.len()
    &&& region[start]
}

/// Every open neighbour of `a` is in the region.
spec fn surrounded(
    width: int,
    height: int,
    open: Seq<bool>,
    region: Seq<bool>,
    a: int,
) -> bool {
    forall|b: int|
        #![trigger adjacent(width, height, a, b)]
        adjacent(width, height, a, b) && 0 <= b < open.len() && open[b] ==> region[b]
}

proof fn lemma_mark(
    width: int,
    height: int,
    open: Seq<bool>,
    before: Seq<bool>,
    start: int,
    done: Seq<usize>,
    pending: Seq<usize>,
    region: Seq<bool>,
    at: int,
    n: usize,
)
    requires
        flooding(width, height, open, before, start, done, pending, region),
        0 <= at < done.len(),
        before.len() == open.len(),
        adjacent(width, height, done[at] as int, n as int),
        n < open.len(),
        open[n as int],
        !region[n as int],
    ensures
        flooding(
            width,
            height,
            open,
            before,
            start,
            done,
            pending.push(n),
            region.update(n as int, true),
        ),
        outside_count(region.update(n as int, true)) + 1 == outside_count(region),
{
    let all = done + pending;
    let longer = done + pending.push(n);
    let after = region.update(n as int, true);
    assert(longer =~= all.push(n));
    assert(all[at] == done[at]);
    lemma_reach_step(width, height, open, start, done[at] as int, n as int);
    lemma_outside_update(region, n as int);
    assert forall|k: int| 0 <= k < all.len() implies longer[k] == #[trigger] all[k] by {}
    assert(longer[all.len() as int] == n);
    assert(!before[n as int]);
    assert(longer.no_duplicates()) by {
        assert forall|i: int, j: int|
            0 <= i < longer.len() && 0 <= j < longer.len() && i != j implies longer[i]
            != longer[j] by {
            if i < all.len() {
                assert(region[all[i] as int]);
            }
            if j < all.len() {
                assert(region[all[j] as int]);
            }
        }
    }
    assert forall|k: int|
        #![trigger longer[k]]
        0 <= k < longer.len() implies {
        &&& longer[k] < open.len()
        &&& open[longer[k] as int]
        &&& !before[longer[k] as int]
        &&& after[longer[k] as int]
        &&& reachable(width, height, open, start, longer[k] as int)
    } by {
        if k < all.len() {
            assert(longer[k] == all[k]);
        }
    }
    assert forall|v: int|
        #![trigger after[v]]
        0 <= v < after.len() implies (after[v] <==> before[v] || exists|k: int|
        0 <= k < longer.len() && #[trigger] longer[k] == v) by {
        if v != n {
            assert(after[v] == region[v]);
            if exists|k: int| 0 <= k < all.len() && #[trigger] all[k] == v {
                let k = choose|k: int| 0 <= k < all.len() && #[trigger] all[k] == v;
                assert(longer[k] == v);
            }
            if exists|k: int| 0 <= k < longer.len() && #[trigger] longer[k] == v {
                let k = choose|k: int| 0 <= k < longer.len() && #[trigger] longer[k] == v;
                assert(all[k] == v);
            }
        }
    }
}

/// Adds a neighbour of a cell that is left behind, if it is open and new.
fn mark(
    width: usize,
    height: usize,
    open: &Vec<bool>,
    region: &mut Vec<bool>,
    pending: &mut Vec<usize>,
    n: usize,
    Ghost(before): Ghost<Seq<bool>>,
    Ghost(start): Ghost<int>,
    Ghost(done): Ghost<Seq<usize>>,
)
    requires
        flooding(
            width as int,
            height as int,
            open@,
            before,
            start,
            done,
            old(pending)@,
            old(region)@,
        ),
        done.len() > 0,
        before.len() == open@.len(),
        n < open@.len(),
        adjacent(width as int, height as int, done[done.len() - 1] as int, n as int),
    ensures
        flooding(
            width as int,
            height as int,
            open@,
            before,
            start,
            done,
            final(pending)@,
            final(region)@,
        ),
        open@[n as int] ==> final(region)@[n as int],
        forall|v: int|
            0 <= v < open@.len() && old(region)@[v] ==> #[trigger] final(region)@[v],
        outside_count(final(region)@) < outside_count(old(region)@) || outside_count(
            final(region)@,
        ) == outside_count(old(region)@) && final(pending)@.len() == old(pending)@.len(),
{
    if open[n] && !region[n] {
        proof {
            lemma_mark(
                width as int,
                height as int,
                open@,
                before,
                start,
                done,
                pending@,
                region@,
                done.len() - 1,
                n,
            );
        }
        region.set(n, true);
        pending.push(n);
    }
}

/// Adds to `region` all cells that can be reached from `start`, and returns them.
pub fn flood(
    width: usize,
    height: usize,
    open: &Vec<bool>,
    region: &mut Vec<bool>,
    start: usize,
) -> (component: Vec<usize>)
    requires
        0 < width,
        open@.len() == width * height,
        is_closed_region(width as int, height as int, open@, old(region)@),
        start < open@.len(),
        open@[start as int],
        !old(region)@[start as int],
    ensures
        is_closed_region(width as int, height as int, open@, final(region)@),
        component@.no_duplicates(),
        forall|k: int|
            #![trigger component@[k]]
            0 <= k < component@.len() ==> component@[k] < open@.len() && reachable(
                width as int,
                height as int,
                open@,
                start as int,
                component@[k] as int,
            ),
        forall|v: int|
            0 <= v < open@.len() && #[trigger] reachable(
                width as int,
                height as int,
                open@,
                start as int,
                v,
            ) ==> !old(region)@[v] && component@.contains(v as usize),
        forall|v: int|
            #![trigger final(region)@[v]]
            0 <= v < open@.len() ==> (final(region)@[v] <==> old(region)@[v] || reachable(
                width as int,
                height as int,
                open@,
                start as int,
                v,
            )),
{
    let ghost w = width as int;
    let ghost h = height as int;
    let ghost before = region@;
    let size: usize = open.len();
    let mut done: Vec<usize> = Vec::new();
    let mut pending: Vec<usize> = Vec::new();
    region.set(start, true);
    pending.push(start);
    proof {
        lemma_reach_self(w, h, open@, start as int);
        let all = done@ + pending@;
        assert(all =~= seq![start]);
        assert forall|v: int|
            #![trigger region@[v]]
            0 <= v < region@.len() implies (region@[v] <==> before[v] || exists|k: int|
            0 <= k < all.len() && #[trigger] all[k] == v) by {
            if v == start {
                assert(all[0] == v);
            }
        }
    }
    while pending.len() > 0
        invariant
            w == width,
            h == height,
            0 < width,
            size == width * height,
            open@.len() == size,
            before.len() == size,
            is_closed_region(w, h, open@, before),
            flooding(w, h, open@, before, start as int, done@, pending@, region@),
            forall|k: int|
                #![trigger done@[k]]
                0 <= k < done@.len() ==> surrounded(w, h, open@, region@, done@[k] as int),
        decreases outside_count(region@), pending@.len(),
    {
        let ghost done_before = done@;
        let ghost pending_before = pending@;
        let ghost region_before = region@;
        let last: usize = pending.len() - 1;
        let index: usize = pending[last];
        pending.pop();
        done.push(index);
        proof {
            let all = done_before + pending_before;
            let next = done@ + pending@;
            assert(all[done_before.len() + last] == index);
            assert forall|k: int| 0 <= k < next.len() implies #[trigger] next[k] == (if k
                < done_before.len() {
                all[k]
            } else if k == done_before.len() {
                all[done_before.len() + last]
            } else {
                all[k - 1]
            }) by {}
            assert(next.no_duplicates());
            assert forall|v: int|
                #![trigger region@[v]]
                0 <= v < region@.len() implies (region@[v] <==> before[v] || exists|k: int|
                0 <= k < next.len() && #[trigger] next[k] == v) by {
                if exists|k: int| 0 <= k < all.len() && #[trigger] all[k] == v {
                    let k = choose|k: int| 0 <= k < all.len() && #[trigger] all[k] == v;
                    if k < done_before.len() {
                        assert(next[k] == v);
                    } else if k == done_before.len() + last {
                        assert(next[done_before.len() as int] == v);
                    } else {
                        assert(next[k + 1] == v);
                    }
                }
                if exists|k: int| 0 <= k < next.len() && #[trigger] next[k] == v {
                    let k = choose|k: int| 0 <= k < next.len() && #[trigger] next[k] == v;
                    if k < done_before.len() {
                        assert(all[k] == v);
                    } else if k == done_before.len() {
                        assert(all[done_before.len() + last] == v);
                    } else {
                        assert(all[k - 1] == v);
                    }
                }
            }
            assert(flooding(w, h, open@, before, start as int, done@, pending@, region@));
            assert(done@[done@.len() - 1] == index);
            assert(next[done_before.len() as int] == index);
            lemma_split(w, h, index as int);
        }
        let x: usize = index % width;
        let y: usize = index / width;
        if x > 0 {
            proof {
                assert(adjacent(w, h, index as int, index - 1));
                lemma_adjacent(w, h, index as int, index - 1);
            }
            mark(
                width,
                height,
                open,
                region,
                &mut pending,
                index - 1,
                Ghost(before),
                Ghost(start as int),
                Ghost(done@),
            );
        }
        if x + 1 < width {
            proof {
                assert(adjacent(w, h, index as int, index + 1));
                lemma_adjacent(w, h, index as int, index + 1);
            }
            mark(
                width,
                height,
                open,
                region,
                &mut pending,
                index + 1,
                Ghost(before),
                Ghost(start as int),
                Ghost(done@),
            );
        }
        if y > 0 {
            proof {
                assert(adjacent(w, h, index as int, index - w));
                lemma_adjacent(w, h, index as int, index - w);
            }
            mark(
                width,
                height,
                open,
                region,
                &mut pending,
                index - width,
                Ghost(before),
                Ghost(start as int),
                Ghost(done@),
            );
        }
        if y + 1 < height {
            proof {
                assert(adjacent(w, h, index as int, index + w));
                lemma_adjacent(w, h, index as int, index + w);
            }
            mark(
                width,
                height,
                open,
                region,
                &mut pending,
                index + width,
                Ghost(before),
                Ghost(start as int),
                Ghost(done@),
            );
        }
        proof {
            assert forall|v: int| 0 <= v < size && region_before[v] implies #[trigger] region@[v] by {}
            assert forall|k: int|
                #![trigger done@[k]]
                0 <= k < done@.len() implies surrounded(w, h, open@, region@, done@[k] as int) by {
                if k < done_before.len() {
                    assert(surrounded(w, h, open@, region_before, done_before[k] as int));
                    assert(done@[k] == done_before[k]);
                }
            }
        }
    }
    proof {
        let all = done@ + pending@;
        assert(all =~= done@);
        let added = Seq::new(size as nat, |v: int| region@[v] && !before[v]);
        assert forall|v: int| 0 <= v < size && #[trigger] added[v] implies exists|k: int|
            0 <= k < done@.len() && #[trigger] done@[k] == v by {
            assert(region@[v]);
            let k = choose|k: int| 0 <= k < all.len() && #[trigger] all[k] == v;
            assert(done@[k] == v);
        }
        assert(is_closed_region(w, h, open@, region@)) by {
            assert forall|a: int|
                #![trigger region@[a]]
                0 <= a < region@.len() && region@[a] implies open@[a] by {
                if !before[a] {
                    assert(added[a]);
                    let k = choose|k: int| 0 <= k < done@.len() && #[trigger] done@[k] == a;
                    assert(open@[all[k] as int]);
                }
            }
            assert forall|a: int, b: int|
                #![trigger adjacent(w, h, a, b)]
                0 <= a < region@.len() && region@[a] && adjacent(w, h, a, b) && 0 <= b < open@.len()
                    && open@[b] implies region@[b] by {
                if before[a] {
                    assert(before[b]);
                } else {
                    assert(added[a]);
                    let k = choose|k: int| 0 <= k < done@.len() && #[trigger] done@[k] == a;
                    assert(surrounded(w, h, open@, region@, done@[k] as int));
                }
            }
        }
        assert(is_closed_region(w, h, open@, added)) by {
            assert forall|a: int, b: int|
                #![trigger adjacent(w, h, a, b)]
                0 <= a < added.len() && added[a] && adjacent(w, h, a, b) && 0 <= b < open@.len()
                    && open@[b] implies added[b] by {
                lemma_adjacent(w, h, a, b);
                assert(region@[a]);
                assert(region@[b]);
                if before[b] {
                    assert(open@[a]);
                    assert(before[a]);
                }
            }
            assert forall|a: int|
                #![trigger added[a]]
                0 <= a < added.len() && added[a] implies open@[a] by {
                assert(region@[a]);
            }
        }
        assert(added[start as int]);
        assert forall|v: int|
            0 <= v < size && #[trigger] reachable(w, h, open@, start as int, v) implies !before[v]
            && done@.contains(v as usize) by {
            lemma_reached_is_inside(w, h, open@, added, start as int, v);
            assert(added[v]);
            let k = choose|k: int| 0 <= k < done@.len() && #[trigger] done@[k] == v;
            assert(done@[k] == v as usize);
        }
        assert forall|v: int|
            #![trigger region@[v]]
            0 <= v < size implies (region@[v] <==> before[v] || reachable(
            w,
            h,
            open@,
            start as int,
            v,
        )) by {
            if region@[v] && !before[v] {
                assert(added[v]);
                let k = choose|k: int| 0 <= k < done@.len() && #[trigger] done@[k] == v;
                assert(all[k] == v);
            }
            if reachable(w, h, open@, start as int, v) {
                lemma_reached_is_inside(w, h, open@, added, start as int, v);
            }
        }
        assert forall|k: int|
            #![trigger done@[k]]
            0 <= k < done@.len() implies done@[k] < size && reachable(
            w,
            h,
            open@,
            start as int,
            done@[k] as int,
        ) by {
            assert(all[k] == done@[k]);
        }
    }
    done
}

/// Two cells of a grid are neighbours exactly if they are one column or one row apart, and not
/// both.
pub proof fn law_neighbours_share_an_edge(width: int, height: int, x: int, y: int, u: int, v: int)
    requires
        0 <= x < width,
        0 <= y < height,
        0 <= u < width,
        0 <= v < height,
    ensures
        adjacent(width, height, cell(width, x, y), cell(width, u, v)) <==> (x == u && (v == y + 1 || v
            == y - 1)) || (y == v && (u == x + 1 || u == x - 1)),
{
    lemma_cell(width, height, x, y);
    lemma_cell(width, height, u, v);
    lemma_row_below(width, x, y);
    let (a, b) = (cell(width, x, y), cell(width, u, v));
    if b == a + width {
        assert(b % width == x && b / width == y + 1) by {
            if y + 1 < height {
                lemma_cell(width, height, x, y + 1);
            } else {
                assert(b >= width * height) by (nonlinear_arith)
                    requires
                        b == (y + 1) * width + x,
                        y + 1 >= height,
                        0 <= x < width,
                ;
            }
        }
    }
    if b == a - width {
        if y > 0 {
            lemma_cell(width, height, x, y - 1);
        } else {
            assert(b < 0) by (nonlinear_arith)
                requires
                    b == (y - 1) * width + x,
                    y == 0,
                    0 <= x < width,
            ;
        }
    }
    if b == a + 1 && x + 1 < width {
        lemma_cell(width, height, x + 1, y);
    }
    if b == a - 1 && x > 0 {
        lemma_cell(width, height, x - 1, y);
    }
}

/// Where a walk can end, it can go on to an open neighbour.
pub proof fn law_walks_go_on(
    width: int,
    height: int,
    open: Seq<bool>,
    from: int,
    a: int,
    b: int,
)
    requires
        reachable(width, height, open, from, a),
        adjacent(width, height, a, b),
        0 <= b < open.len(),
        open[b],
    ensures
        reachable(width, height, open, from, b),
{
    lemma_reach_step(width, height, open, from, a, b);
}

/// A walk that leaves a cell goes over an open neighbour of it.
pub proof fn law_walks_leave_over_a_neighbour(
    width: int,
    height: int,
    open: Seq<bool>,
    from: int,
    to: int,
)
    requires
        reachable(width, height, open, from, to),
        from != to,
    ensures
        exists|a: int|
            0 <= a < open.len() && open[a] && #[trigger] adjacent(width, height, a, to),
{
    let path = choose|path: Seq<int>| #[trigger]
        is_walk(width, height, open, path) && path[0] == from && path[path.len() - 1] == to;
    let k = path.len() - 2;
    assert(path.len() >= 2) by {
        assert(path[0] == from);
    }
    assert(is_step(width, height, path, k));
    assert(0 <= path[k] < open.len() && open[path[k]]);
    assert(adjacent(width, height, path[k], to));
}

} // verus!
