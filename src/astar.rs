use vstd::prelude::*;
use priority_queue::PriorityQueue;
use crate::grid::{cell_key, key, lemma_cell_of, lemma_key_injective, Grid, CELLS};
use crate::location::{in_bounds, manhattan, step, valid_move, Direction, Location, COLS, ROWS};

verus! {

#[verifier::external_type_specification]
#[verifier::external_body]
#[verifier::reject_recursive_types(I)]
#[verifier::reject_recursive_types(P)]
#[verifier::reject_recursive_types(H)]
pub struct ExPriorityQueue<I, P, H>(PriorityQueue<I, P, H>);

/// The items of a queue, each with its priority.
pub uninterp spec fn queue_items(q: PriorityQueue<u32, u32>) -> Map<u32, u32>;

/// Relies on `PriorityQueue::new`: a queue with no item.
#[verifier::external_body]
fn queue_new() -> (r: PriorityQueue<u32, u32>)
    ensures
        queue_items(r).is_empty(),
{
    PriorityQueue::new()
}

/// Relies on `PriorityQueue::push`: the item enters the queue with the given
/// priority, or has its priority replaced by it when already there.
#[verifier::external_body]
fn queue_push(q: &mut PriorityQueue<u32, u32>, item: u32, priority: u32)
    ensures
        queue_items(*final(q)) == queue_items(*old(q)).insert(item, priority),
{
    q.push(item, priority);
}

/// Relies on `PriorityQueue::pop`: an item of greatest priority leaves the
/// queue with its priority; nothing only when the queue is empty.
#[verifier::external_body]
fn queue_pop(q: &mut PriorityQueue<u32, u32>) -> (r: Option<(u32, u32)>)
    ensures
        match r {
            None => {
                &&& queue_items(*old(q)).is_empty()
                &&& queue_items(*final(q)) == queue_items(*old(q))
            },
            Some((i, p)) => {
                &&& queue_items(*old(q)).contains_key(i)
                &&& queue_items(*old(q))[i] == p
                &&& forall|j: u32| #[trigger]
                    queue_items(*old(q)).contains_key(j) ==> queue_items(*old(q))[j] <= p
                &&& queue_items(*final(q)) == queue_items(*old(q)).remove(i)
            },
        },
{
    q.pop()
}

/// Where the moves of `p` lead, starting on `from`.
pub open spec fn walk(from: Location, p: Seq<Direction>) -> Location
    decreases p.len(),
{
    if p.len() == 0 {
        from
    } else {
        step(walk(from, p.drop_last()), p.last())
    }
}

/// A cell that a path towards `to` may enter: a free one, or `to` itself.
pub open spec fn passable(g: Grid, l: Location, to: Location) -> bool {
    l == to || g.free(l)
}

/// Every move of `p`, made from `from` on, stays on the world and enters a
/// cell that is passable on the way to `to`.
pub open spec fn valid_path(g: Grid, from: Location, p: Seq<Direction>, to: Location) -> bool
    decreases p.len(),
{
    p.len() == 0 || {
        &&& valid_path(g, from, p.drop_last(), to)
        &&& valid_move(walk(from, p.drop_last()), p.last())
        &&& passable(g, walk(from, p), to)
    }
}

/// `p` is a way from `from` to `to`.
pub open spec fn leads_to(g: Grid, from: Location, p: Seq<Direction>, to: Location) -> bool {
    valid_path(g, from, p, to) && walk(from, p) == to
}

/// Some way leads from `from` to `to`.
pub open spec fn reachable(g: Grid, from: Location, to: Location) -> bool {
    exists|p: Seq<Direction>| leads_to(g, from, p, to)
}

pub proof fn lemma_walk_in_bounds(from: Location, p: Seq<Direction>)
    requires
        in_bounds(from),
    ensures
        in_bounds(walk(from, p)),
    decreases p.len(),
{
    if p.len() > 0 {
        lemma_walk_in_bounds(from, p.drop_last());
    }
}

/// The first move of a valid path stays on the world and enters a passable
/// cell.
pub proof fn lemma_first_move(g: Grid, from: Location, p: Seq<Direction>, to: Location)
    requires
        valid_path(g, from, p, to),
        p.len() > 0,
    ensures
        valid_move(from, p[0]),
        passable(g, step(from, p[0]), to),
    decreases p.len(),
{
    if p.len() > 1 {
        lemma_first_move(g, from, p.drop_last(), to);
    } else {
        assert(p.drop_last().len() == 0);
    }
}

/// The direction that undoes `d`.
pub open spec fn opposite(d: Direction) -> Direction {
    match d {
        Direction::Up => Direction::Down,
        Direction::Down => Direction::Up,
        Direction::Left => Direction::Right,
        Direction::Right => Direction::Left,
    }
}

/// A cell whose neighbours on the world are all occupied, none of them the
/// start, cannot be reached from any other cell of the world.
pub proof fn lemma_enclosed_unreachable(g: Grid, from: Location, to: Location)
    requires
        in_bounds(from),
        from != to,
        forall|d: Direction|
            valid_move(to, d) ==> !g.free(#[trigger] step(to, d)) && step(to, d) != from,
    ensures
        !reachable(g, from, to),
{
    assert forall|p: Seq<Direction>| !leads_to(g, from, p, to) by {
        if leads_to(g, from, p, to) {
            let rest = p.drop_last();
            let prev = walk(from, rest);
            let d = p.last();
            lemma_walk_in_bounds(from, rest);
            assert(valid_move(prev, d) && step(prev, d) == to);
            let od = opposite(d);
            match d {
                Direction::Up => assert(valid_move(to, od) && step(to, od) == prev),
                Direction::Down => assert(valid_move(to, od) && step(to, od) == prev),
                Direction::Left => assert(valid_move(to, od) && step(to, od) == prev),
                Direction::Right => assert(valid_move(to, od) && step(to, od) == prev),
            }
            assert(rest.len() > 0);
            assert(valid_path(g, from, rest, to));
            assert(passable(g, prev, to));
        }
    }
}

/// Marks a cell whose cost is not known yet.
const UNSEEN: u32 = 0xffff_ffff;

spec fn dir_index(d: Direction) -> int {
    match d {
        Direction::Up => 0,
        Direction::Down => 1,
        Direction::Left => 2,
        Direction::Right => 3,
    }
}

spec fn count_true(s: Seq<bool>) -> nat
    decreases s.len(),
{
    if s.len() == 0 {
        0
    } else {
        count_true(s.drop_last()) + if s.last() {
            1nat
        } else {
            0nat
        }
    }
}

proof fn lemma_count_true_set(s: Seq<bool>, k: int)
    requires
        0 <= k < s.len(),
        !s[k],
    ensures
        count_true(s.update(k, true)) == count_true(s) + 1,
    decreases s.len(),
{
    let t = s.update(k, true);
    if k == s.len() - 1 {
        assert(t.drop_last() =~= s.drop_last());
    } else {
        assert(t.drop_last() =~= s.drop_last().update(k, true));
        lemma_count_true_set(s.drop_last(), k);
    }
}

proof fn lemma_count_true_bound(s: Seq<bool>)
    ensures
        count_true(s) <= s.len(),
    decreases s.len(),
{
    if s.len() > 0 {
        lemma_count_true_bound(s.drop_last());
    }
}

/// No way from `from` to `l` takes fewer than `n` moves.
pub open spec fn shortest_at(g: Grid, from: Location, to: Location, l: Location, n: int) -> bool {
    forall|p: Seq<Direction>|
        #![trigger valid_path(g, from, p, to), walk(from, p)]
        valid_path(g, from, p, to) && walk(from, p) == l ==> n <= p.len()
}

/// The cells that a walk passes are no further from its end, in Manhattan
/// distance, than the moves left to make.
proof fn lemma_walk_distance(from: Location, p: Seq<Direction>, j: int)
    requires
        0 <= j <= p.len(),
    ensures
        manhattan(walk(from, p.take(j)), walk(from, p)) <= p.len() - j,
    decreases p.len(),
{
    if j == p.len() {
        assert(p.take(j) =~= p);
    } else {
        let q = p.drop_last();
        assert(q.take(j) =~= p.take(j));
        lemma_walk_distance(from, q, j);
    }
}

/// Priority of a cell in the frontier: the higher, the smaller its cost
/// so far plus its distance to the goal.
spec fn priority(g: u32, l: Location, to: Location) -> int {
    UNSEEN - (g + manhattan(l, to))
}

/// What the search knows at each step: the best way found so far to each
/// seen cell, the cells expanded (closed), and the frontier.
spec fn search_inv(
    g: Grid,
    from: Location,
    to: Location,
    gs: Seq<u32>,
    paths: Seq<Vec<Direction>>,
    closed: Seq<bool>,
    q: Map<u32, u32>,
    n_closed: nat,
    cur: Location,
    done: int,
) -> bool {
    &&& gs.len() == CELLS && paths.len() == CELLS && closed.len() == CELLS
    &&& n_closed == count_true(closed) && n_closed <= CELLS
    &&& in_bounds(from) && in_bounds(to)
    &&& gs[key(from)] == 0
    &&& !closed[key(to)]
    &&& forall|l: Location|
        #![trigger gs[key(l)]]
        in_bounds(l) && gs[key(l)] != UNSEEN ==> {
            &&& gs[key(l)] <= n_closed
            &&& paths[key(l)]@.len() == gs[key(l)]
            &&& valid_path(g, from, paths[key(l)]@, to)
            &&& walk(from, paths[key(l)]@) == l
        }
    &&& forall|l: Location|
        #![trigger closed[key(l)]]
        in_bounds(l) && closed[key(l)] ==> gs[key(l)] != UNSEEN && shortest_at(
            g,
            from,
            to,
            l,
            gs[key(l)] as int,
        )
    &&& forall|l: Location|
        #![trigger q.contains_key(key(l) as u32)]
        in_bounds(l) && q.contains_key(key(l) as u32) ==> q[key(l) as u32] == priority(
            gs[key(l)],
            l,
            to,
        )
    &&& forall|k: u32|
        #![trigger q.contains_key(k)]
        q.contains_key(k) ==> k < CELLS && gs[k as int] != UNSEEN && !closed[k as int]
    &&& forall|l: Location|
        #![trigger gs[key(l)]]
        in_bounds(l) && gs[key(l)] != UNSEEN && !closed[key(l)] ==> q.contains_key(
            key(l) as u32,
        )
    &&& forall|l: Location, d: Direction|
        #![trigger closed[key(l)], step(l, d)]
        in_bounds(l) && closed[key(l)] && !(l == cur && dir_index(d) >= done) && valid_move(
            l,
            d,
        ) && passable(g, step(l, d), to) ==> gs[key(step(l, d))] != UNSEEN && gs[key(step(l, d))]
            <= gs[key(l)] + 1
}

/// `p` followed by `d`.
fn extended(p: &Vec<Direction>, d: Direction) -> (r: Vec<Direction>)
    ensures
        r@ == p@.push(d),
{
    let mut r: Vec<Direction> = Vec::new();
    let mut i: usize = 0;
    while i < p.len()
        invariant
            i <= p@.len(),
            r@ == p@.subrange(0, i as int),
        decreases p@.len() - i,
    {
        r.push(p[i]);
        i = i + 1;
        assert(r@ =~= p@.subrange(0, i as int));
    }
    r.push(d);
    assert(r@ =~= p@.push(d));
    r
}

/// Looks at the neighbour of the closed cell `cur` in direction `d`, and
/// records the way through `cur` to it where that way is shorter than any
/// known.
fn relax(
    grid: &Grid,
    Ghost(from): Ghost<Location>,
    to: Location,
    cur: Location,
    d: Direction,
    gs: &mut Vec<u32>,
    paths: &mut Vec<Vec<Direction>>,
    closed: &Vec<bool>,
    q: &mut PriorityQueue<u32, u32>,
    n_closed: usize,
)
    requires
        grid.wf(),
        in_bounds(cur),
        closed@[key(cur)],
        old(gs)@[key(cur)] < n_closed,
        search_inv(
            *grid,
            from,
            to,
            old(gs)@,
            old(paths)@,
            closed@,
            queue_items(*old(q)),
            n_closed as nat,
            cur,
            dir_index(d),
        ),
    ensures
        search_inv(
            *grid,
            from,
            to,
            final(gs)@,
            final(paths)@,
            closed@,
            queue_items(*final(q)),
            n_closed as nat,
            cur,
            dir_index(d) + 1,
        ),
        final(gs)@[key(cur)] == old(gs)@[key(cur)],
{
    let ghost gs0 = gs@;
    let ghost paths0 = paths@;
    let ghost q0 = queue_items(*q);
    if cur.is_valid_move(d) {
        let n = cur.next_location(d);
        if n == to || grid.is_free(n) {
            let kn = cell_key(n);
            let kc = cell_key(cur);
            proof {
                let p = paths0[key(cur)]@;
                assert(p.push(d).drop_last() =~= p);
                assert(valid_path(*grid, from, p.push(d), to));
                assert(walk(from, p.push(d)) == n);
            }
            if !closed[kn] {
                let g = gs[kc] + 1;
                if g < gs[kn] {
                    let np = extended(&paths[kc], d);
                    let h = n.distance(to);
                    gs.set(kn, g);
                    paths.set(kn, np);
                    queue_push(q, kn as u32, UNSEEN - (g + h));
                    proof {
                        assert(kn != kc);
                        assert(np@ == paths0[key(cur)]@.push(d));
                        assert forall|l: Location|
                            #![trigger gs@[key(l)]]
                            in_bounds(l) && gs@[key(l)] != UNSEEN implies {
                            &&& gs@[key(l)] <= n_closed
                            &&& paths@[key(l)]@.len() == gs@[key(l)]
                            &&& valid_path(*grid, from, paths@[key(l)]@, to)
                            &&& walk(from, paths@[key(l)]@) == l
                        } by {
                            if key(l) == key(n) {
                                lemma_key_injective(l, n);
                            } else {
                                assert(gs0[key(l)] != UNSEEN);
                            }
                        }
                        assert forall|l: Location|
                            #![trigger gs@[key(l)]]
                            in_bounds(l) && gs@[key(l)] != UNSEEN && !closed@[key(l)] implies queue_items(
                            *q,
                        ).contains_key(key(l) as u32) by {
                            if key(l) != key(n) {
                                assert(gs0[key(l)] != UNSEEN);
                            }
                        }
                        assert forall|l: Location|
                            #![trigger closed@[key(l)]]
                            in_bounds(l) && closed@[key(l)] implies gs@[key(l)] != UNSEEN && shortest_at(
                            *grid,
                            from,
                            to,
                            l,
                            gs@[key(l)] as int,
                        ) by {
                            assert(key(l) != kn);
                            assert(gs@[key(l)] == gs0[key(l)]);
                        }
                        assert forall|l: Location|
                            #![trigger queue_items(*q).contains_key(key(l) as u32)]
                            in_bounds(l) && queue_items(*q).contains_key(key(l) as u32) implies queue_items(
                            *q,
                        )[key(l) as u32] == priority(gs@[key(l)], l, to) by {
                            if key(l) == key(n) {
                                lemma_key_injective(l, n);
                            } else {
                                assert(key(l) as u32 != kn as u32);
                                assert(q0.contains_key(key(l) as u32));
                            }
                        }
                    }
                }
            } else {
                proof {
                    assert(shortest_at(*grid, from, to, n, gs@[key(n)] as int));
                    assert(valid_path(*grid, from, paths0[key(cur)]@.push(d), to));
                    assert(gs@[key(n)] <= gs@[key(cur)] + 1);
                }
            }
        }
    }
    proof {
        assert forall|l: Location, e: Direction|
            #![trigger closed@[key(l)], step(l, e)]
            in_bounds(l) && closed@[key(l)] && !(l == cur && dir_index(e) >= dir_index(d) + 1)
                && valid_move(l, e) && passable(*grid, step(l, e), to) implies gs@[key(step(l, e))]
            != UNSEEN && gs@[key(step(l, e))] <= gs@[key(l)] + 1 by {
            assert(in_bounds(step(l, e)));
            if !(l == cur && e == d) {
                assert(gs0[key(step(l, e))] != UNSEEN);
            }
        }
    }
}

/// A valid path to a cell not yet closed passes a frontier cell whose known
/// cost is at most the number of moves taken to reach it.
proof fn lemma_frontier(
    g: Grid,
    from: Location,
    to: Location,
    gs: Seq<u32>,
    paths: Seq<Vec<Direction>>,
    closed: Seq<bool>,
    q: Map<u32, u32>,
    n_closed: nat,
    cur: Location,
    p: Seq<Direction>,
) -> (j: int)
    requires
        search_inv(g, from, to, gs, paths, closed, q, n_closed, cur, 4),
        valid_path(g, from, p, to),
        !closed[key(walk(from, p))],
    ensures
        0 <= j <= p.len(),
        in_bounds(walk(from, p.take(j))),
        !closed[key(walk(from, p.take(j)))],
        gs[key(walk(from, p.take(j)))] != UNSEEN,
        gs[key(walk(from, p.take(j)))] <= j,
    decreases p.len(),
{
    lemma_walk_in_bounds(from, p);
    if p.len() == 0 {
        assert(p.take(0) =~= p);
        0
    } else {
        let q2 = p.drop_last();
        let w = walk(from, q2);
        lemma_walk_in_bounds(from, q2);
        if !closed[key(w)] {
            let j = lemma_frontier(g, from, to, gs, paths, closed, q, n_closed, cur, q2);
            assert(q2.take(j) =~= p.take(j));
            j
        } else {
            assert(p.take(p.len() as int) =~= p);
            assert(shortest_at(g, from, to, w, gs[key(w)] as int));
            assert(valid_path(g, from, q2, to));
            assert(gs[key(w)] <= q2.len());
            assert(gs[key(step(w, p.last()))] <= gs[key(w)] + 1);
            p.len() as int
        }
    }
}

/// The cell of highest priority in the frontier is reached by no way
/// shorter than its known cost.
proof fn lemma_popped_shortest(
    g: Grid,
    from: Location,
    to: Location,
    gs: Seq<u32>,
    paths: Seq<Vec<Direction>>,
    closed: Seq<bool>,
    q: Map<u32, u32>,
    n_closed: nat,
    cur: Location,
    u: Location,
)
    requires
        search_inv(g, from, to, gs, paths, closed, q, n_closed, cur, 4),
        in_bounds(u),
        q.contains_key(key(u) as u32),
        forall|k: u32| #[trigger] q.contains_key(k) ==> q[k] <= q[key(u) as u32],
    ensures
        shortest_at(g, from, to, u, gs[key(u)] as int),
{
    assert forall|p: Seq<Direction>|
        #![trigger valid_path(g, from, p, to), walk(from, p)]
        valid_path(g, from, p, to) && walk(from, p) == u implies gs[key(u)] <= p.len() by {
        assert(!closed[key(u)]);
        let j = lemma_frontier(g, from, to, gs, paths, closed, q, n_closed, cur, p);
        let v = walk(from, p.take(j));
        lemma_walk_distance(from, p, j);
        assert(q.contains_key(key(v) as u32));
        assert(q[key(v) as u32] <= q[key(u) as u32]);
        assert(q[key(v) as u32] == priority(gs[key(v)], v, to));
        assert(q[key(u) as u32] == priority(gs[key(u)], u, to));
        assert(manhattan(v, to) <= manhattan(v, u) + manhattan(u, to));
    }
}

/// With the frontier empty, every cell on a valid path is closed.
proof fn lemma_walk_closed(
    g: Grid,
    from: Location,
    to: Location,
    gs: Seq<u32>,
    paths: Seq<Vec<Direction>>,
    closed: Seq<bool>,
    q: Map<u32, u32>,
    n_closed: nat,
    cur: Location,
    p: Seq<Direction>,
)
    requires
        search_inv(g, from, to, gs, paths, closed, q, n_closed, cur, 4),
        q.is_empty(),
        valid_path(g, from, p, to),
    ensures
        in_bounds(walk(from, p)),
        closed[key(walk(from, p))],
    decreases p.len(),
{
    if p.len() == 0 {
        if !closed[key(from)] {
            assert(gs[key(from)] != UNSEEN);
            assert(q.contains_key(key(from) as u32));
        }
    } else {
        let prev = walk(from, p.drop_last());
        lemma_walk_closed(g, from, to, gs, paths, closed, q, n_closed, cur, p.drop_last());
        let n = step(prev, p.last());
        assert(closed[key(prev)]);
        assert(in_bounds(n));
        assert(gs[key(n)] != UNSEEN);
        if !closed[key(n)] {
            assert(q.contains_key(key(n) as u32));
        }
    }
}

/// The shortest way found from `from` to `to`, through free cells (`to`
/// itself may be occupied); `None` when no way leads there.
pub fn astar(grid: &Grid, from: Location, to: Location) -> (r: Option<Vec<Direction>>)
    requires
        grid.wf(),
        in_bounds(from),
    ensures
        from == to ==> r is Some && r->0@.len() == 0,
        !in_bounds(to) ==> r is None,
        r matches Some(p) ==> leads_to(*grid, from, p@, to),
        r matches Some(p) ==> forall|other: Seq<Direction>|
            #[trigger] leads_to(*grid, from, other, to) ==> p@.len() <= other.len(),
        r is Some <==> reachable(*grid, from, to),
{
    if from == to {
        let p: Vec<Direction> = Vec::new();
        proof {
            assert(leads_to(*grid, from, p@, to));
        }
        return Some(p);
    }
    if !(to.col < COLS && to.row < ROWS) {
        proof {
            assert forall|p: Seq<Direction>| !leads_to(*grid, from, p, to) by {
                lemma_walk_in_bounds(from, p);
            }
        }
        return None;
    }
    let mut gs: Vec<u32> = Vec::new();
    let mut paths: Vec<Vec<Direction>> = Vec::new();
    let mut closed: Vec<bool> = Vec::new();
    let mut k: usize = 0;
    while k < CELLS
        invariant
            k <= CELLS,
            gs@.len() == k,
            paths@.len() == k,
            closed@.len() == k,
            count_true(closed@) == 0,
            forall|j: int| 0 <= j < k ==> gs@[j] == UNSEEN && !closed@[j] && paths@[j]@.len() == 0,
        decreases CELLS - k,
    {
        proof {
            assert(closed@.push(false).drop_last() =~= closed@);
        }
        gs.push(UNSEEN);
        paths.push(Vec::new());
        closed.push(false);
        k = k + 1;
    }
    let kf = cell_key(from);
    gs.set(kf, 0);
    let mut q = queue_new();
    queue_push(&mut q, kf as u32, UNSEEN - from.distance(to));
    let mut n_closed: usize = 0;
    proof {
        assert forall|l: Location|
            #![trigger gs@[key(l)]]
            in_bounds(l) && gs@[key(l)] != UNSEEN implies {
            &&& gs@[key(l)] <= 0
            &&& paths@[key(l)]@.len() == gs@[key(l)]
            &&& valid_path(*grid, from, paths@[key(l)]@, to)
            &&& walk(from, paths@[key(l)]@) == l
        } by {
            if key(l) != key(from) {
                assert(gs@[key(l)] == UNSEEN);
            } else {
                lemma_key_injective(l, from);
            }
        }
        assert forall|l: Location|
            #![trigger gs@[key(l)]]
            in_bounds(l) && gs@[key(l)] != UNSEEN && !closed@[key(l)] implies queue_items(
            q,
        ).contains_key(key(l) as u32) by {
            if key(l) != key(from) {
                assert(gs@[key(l)] == UNSEEN);
            }
        }
    }
    loop
        invariant
            grid.wf(),
            in_bounds(from),
            from != to,
            search_inv(
                *grid,
                from,
                to,
                gs@,
                paths@,
                closed@,
                queue_items(q),
                n_closed as nat,
                from,
                4,
            ),
        decreases CELLS - n_closed,
    {
        let ghost q0 = queue_items(q);
        match queue_pop(&mut q) {
            None => {
                proof {
                    assert forall|p: Seq<Direction>| !leads_to(*grid, from, p, to) by {
                        if valid_path(*grid, from, p, to) {
                            lemma_walk_closed(
                                *grid,
                                from,
                                to,
                                gs@,
                                paths@,
                                closed@,
                                queue_items(q),
                                n_closed as nat,
                                from,
                                p,
                            );
                        }
                    }
                }
                return None;
            },
            Some((item, _)) => {
                let kk = item as usize;
                let cur = Location::new((kk % 40) as u16, (kk / 40) as u16);
                proof {
                    lemma_cell_of(kk as int);
                    assert(gs@[key(cur)] != UNSEEN);
                }
                proof {
                    lemma_popped_shortest(
                        *grid,
                        from,
                        to,
                        gs@,
                        paths@,
                        closed@,
                        q0,
                        n_closed as nat,
                        from,
                        cur,
                    );
                }
                if cur == to {
                    let p = paths.remove(kk);
                    proof {
                        assert(leads_to(*grid, from, p@, to));
                        assert forall|other: Seq<Direction>| #[trigger]
                            leads_to(*grid, from, other, to) implies p@.len() <= other.len() by {
                            assert(valid_path(*grid, from, other, to));
                        }
                    }
                    return Some(p);
                }
                proof {
                    lemma_count_true_set(closed@, kk as int);
                    lemma_count_true_bound(closed@.update(kk as int, true));
                    if key(to) == kk {
                        lemma_key_injective(to, cur);
                    }
                }
                let ghost closed0 = closed@;
                closed.set(kk, true);
                n_closed = n_closed + 1;
                proof {
                    assert forall|l: Location|
                        #![trigger closed@[key(l)]]
                        in_bounds(l) && closed@[key(l)] implies gs@[key(l)] != UNSEEN by {
                        if key(l) != kk {
                            assert(closed0[key(l)]);
                        }
                    }
                }
                relax(grid, Ghost(from), to, cur, Direction::Up, &mut gs, &mut paths, &closed, &mut q, n_closed);
                relax(grid, Ghost(from), to, cur, Direction::Down, &mut gs, &mut paths, &closed, &mut q, n_closed);
                relax(grid, Ghost(from), to, cur, Direction::Left, &mut gs, &mut paths, &closed, &mut q, n_closed);
                relax(grid, Ghost(from), to, cur, Direction::Right, &mut gs, &mut paths, &closed, &mut q, n_closed);
            },
        }
    }
}

} // verus!
